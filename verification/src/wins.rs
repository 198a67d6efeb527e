//! Terminal-state detection: winning-run recognition along the four line
//! directions through a cell, and the lazily computed game result.

use vstd::prelude::*;
use crate::board::{Board, BoardCore, BoardValue, GameResult, Move, Player};

verus! {

/// Length of the run of `v`-colored stones starting one step from `(x, y)`
/// in direction `(dx, dy)`, looking at most `fuel` steps out.
pub open spec fn ray_len(
    c: BoardCore,
    x: int,
    y: int,
    dx: int,
    dy: int,
    v: BoardValue,
    fuel: nat,
) -> nat
    decreases fuel,
{
    if fuel == 0 {
        0
    } else {
        let nx = x + dx;
        let ny = y + dy;
        if 0 <= nx < c.width && 0 <= ny < c.height && c.cell(nx, ny) == v {
            1 + ray_len(c, nx, ny, dx, dy, v, (fuel - 1) as nat)
        } else {
            0
        }
    }
}

/// Whether the run of `v` stones from `(x, y)` in direction `(dx, dy)` ends
/// at a blocker: the board edge or a stone of the `blocking` color. A run
/// that outlives the fuel counts as unblocked, and so does one ended by an
/// empty cell.
pub open spec fn ray_blocked(
    c: BoardCore,
    x: int,
    y: int,
    dx: int,
    dy: int,
    v: BoardValue,
    blocking: BoardValue,
    fuel: nat,
) -> bool
    decreases fuel,
{
    if fuel == 0 {
        false
    } else {
        let nx = x + dx;
        let ny = y + dy;
        if !(0 <= nx < c.width && 0 <= ny < c.height) {
            true
        } else if c.cell(nx, ny) == v {
            ray_blocked(c, nx, ny, dx, dy, v, blocking, (fuel - 1) as nat)
        } else {
            c.cell(nx, ny) == blocking
        }
    }
}

/// A winning run through `(x, y)` along direction `(dx, dy)`: the contiguous
/// same-color run including that cell, extended both ways until blocked,
/// wins iff its length is exactly 5 and it is not blocked on both ends by
/// the opponent, or its length exceeds 5.
pub open spec fn dir_win(c: BoardCore, x: int, y: int, dx: int, dy: int) -> bool {
    let v = c.cell(x, y);
    let blocking = v.spec_opposite()->Some_0;
    let cnt = 1 + ray_len(c, x, y, dx, dy, v, 5) + ray_len(c, x, y, -dx, -dy, v, 5);
    let blocked = ray_blocked(c, x, y, dx, dy, v, blocking, 5) && ray_blocked(
        c,
        x,
        y,
        -dx,
        -dy,
        v,
        blocking,
        5,
    );
    (cnt == 5 && !blocked) || cnt > 5
}

/// A winning run through `(x, y)` along any of the four line directions.
pub open spec fn win_at(c: BoardCore, x: int, y: int) -> bool {
    &&& c.cell(x, y) != BoardValue::Empty
    &&& (dir_win(c, x, y, 1, 0) || dir_win(c, x, y, 0, 1) || dir_win(c, x, y, 1, 1) || dir_win(
        c,
        x,
        y,
        1,
        -1,
    ))
}

/// Full-board scan in column-major order from linear position `k`
/// (column `k / height`, row `k % height`): the result contributed by the
/// first occupied cell with a winning run, if any.
pub open spec fn scan_result_from(c: BoardCore, k: nat) -> GameResult
    decreases c.width * c.height - k,
{
    if k >= c.width * c.height || c.width * c.height < 0 {
        GameResult::NotTerminated
    } else {
        let x = k as int / c.height;
        let y = k as int % c.height;
        if 0 <= x < c.width && 0 <= y < c.height && c.cell(x, y) != BoardValue::Empty && win_at(
            c,
            x,
            y,
        ) {
            GameResult::spec_win(c.cell(x, y).spec_player()->Some_0)
        } else {
            scan_result_from(c, k + 1)
        }
    }
}

/// The terminal result computed from the board alone: a full board is a
/// draw; otherwise the four lines through the last placement are checked;
/// without a recorded last placement every occupied cell is scanned.
pub open spec fn computed_result(c: BoardCore) -> GameResult {
    if c.full() {
        GameResult::Draws
    } else {
        match c.last_placement {
            Some(m) => if win_at(c, m.x as int, m.y as int) {
                GameResult::spec_win(c.cell(m.x as int, m.y as int).spec_player()->Some_0)
            } else {
                GameResult::NotTerminated
            },
            None => scan_result_from(c, 0),
        }
    }
}

/// The result the board resolves to when queried: the cached value if one
/// is stored, else the freshly computed one.
pub open spec fn resolved_result(b: &Board) -> GameResult {
    if b.result_cache() != GameResult::NotCalculated {
        b.result_cache()
    } else {
        computed_result(b@)
    }
}

impl Board {
    /// Walk outward from `(x, y)` in direction `(dx, dy)`: how many `v`
    /// stones follow, and whether the run ends at an edge or a `blocking`
    /// stone.
    fn count_ray(
        &self,
        x: usize,
        y: usize,
        dx: i64,
        dy: i64,
        v: BoardValue,
        blocking: BoardValue,
        fuel: u8,
    ) -> (r: (usize, bool))
        requires
            self.wf(),
            x < self@.width,
            y < self@.height,
            -1 <= dx <= 1,
            -1 <= dy <= 1,
            fuel <= 5,
        ensures
            r.0 == ray_len(self@, x as int, y as int, dx as int, dy as int, v, fuel as nat),
            r.1 == ray_blocked(
                self@,
                x as int,
                y as int,
                dx as int,
                dy as int,
                v,
                blocking,
                fuel as nat,
            ),
            r.0 <= fuel,
        decreases fuel,
    {
        proof {
            crate::board::lemma_wf_core(self);
        }
        if fuel == 0 {
            return (0, false);
        }
        let nxi = x as i64 + dx;
        let nyi = y as i64 + dy;
        if nxi < 0 || nyi < 0 || nxi >= self.get_width() as i64 || nyi >= self.get_height() as i64 {
            return (0, true);
        }
        let nx = nxi as usize;
        let ny = nyi as usize;
        let cv = self.get_cell(nx, ny);
        if cv == v {
            let r2 = self.count_ray(nx, ny, dx, dy, v, blocking, fuel - 1);
            (r2.0 + 1, r2.1)
        } else {
            (0, cv == blocking)
        }
    }

    /// Whether the run through `(x, y)` along `(dx, dy)` wins for the color
    /// at that cell.
    fn check_dir(&self, x: usize, y: usize, dx: i64, dy: i64, v: BoardValue, blocking: BoardValue) -> (r:
        bool)
        requires
            self.wf(),
            x < self@.width,
            y < self@.height,
            -1 <= dx <= 1,
            -1 <= dy <= 1,
            v == self@.cell(x as int, y as int),
            v != BoardValue::Empty,
            blocking == v.spec_opposite()->Some_0,
        ensures
            r == dir_win(self@, x as int, y as int, dx as int, dy as int),
    {
        let r1 = self.count_ray(x, y, dx, dy, v, blocking, 5);
        let r2 = self.count_ray(x, y, -dx, -dy, v, blocking, 5);
        let count = 1 + r1.0 + r2.0;
        let blocked = r1.1 && r2.1;
        (count == 5 && !blocked) || count > 5
    }

    /// Whether `(x, y)` carries a winning run in any of the four line
    /// directions.
    pub(crate) fn check_all_dir(&self, x: usize, y: usize) -> (r: bool)
        requires
            self.wf(),
            x < self@.width,
            y < self@.height,
            self@.cell(x as int, y as int) != BoardValue::Empty,
        ensures
            r == win_at(self@, x as int, y as int),
    {
        let v = self.get_cell(x, y);
        let blocking = match v.opposite() {
            Some(b) => b,
            None => {
                proof {
                    assert(false);
                }
                BoardValue::Empty
            },
        };
        if self.check_dir(x, y, 1, 0, v, blocking) {
            return true;
        }
        if self.check_dir(x, y, 0, 1, v, blocking) {
            return true;
        }
        if self.check_dir(x, y, 1, 1, v, blocking) {
            return true;
        }
        if self.check_dir(x, y, 1, -1, v, blocking) {
            return true;
        }
        false
    }

    /// Whether no empty cell is left.
    pub(crate) fn is_board_full(&self) -> (r: bool)
        requires
            self.wf(),
        ensures
            r == self@.full(),
    {
        proof {
            crate::board::lemma_wf_core(self);
        }
        let w = self.get_width();
        let h = self.get_height();
        let mut y: usize = 0;
        while y < h
            invariant
                self.wf(),
                w == self@.width,
                h == self@.height,
                y <= h,
                forall|xx: int, yy: int|
                    0 <= xx < w && 0 <= yy < y ==> #[trigger] self@.cell(xx, yy)
                        != BoardValue::Empty,
            decreases h - y,
        {
            let mut x: usize = 0;
            while x < w
                invariant
                    self.wf(),
                    w == self@.width,
                    h == self@.height,
                    y < h,
                    x <= w,
                    forall|xx: int, yy: int|
                        0 <= xx < w && 0 <= yy < y ==> #[trigger] self@.cell(xx, yy)
                            != BoardValue::Empty,
                    forall|xx: int| 0 <= xx < x ==> #[trigger] self@.cell(xx, y as int)
                        != BoardValue::Empty,
                decreases w - x,
            {
                if self.get_cell(x, y) == BoardValue::Empty {
                    return false;
                }
                x = x + 1;
            }
            y = y + 1;
        }
        true
    }

    /// Resolve the terminal result: return the cached value if one is
    /// stored, else compute it (full board is a draw; otherwise check the
    /// lines through the last placement, or scan the whole grid when no
    /// last placement is recorded) and cache it.
    pub(crate) fn calculate_game_result(&mut self) -> (r: GameResult)
        requires
            old(self).wf(),
        ensures
            final(self).wf(),
            final(self)@ == old(self)@,
            final(self).forced_cache(Player::X) == old(self).forced_cache(Player::X),
            final(self).forced_cache(Player::O) == old(self).forced_cache(Player::O),
            r == resolved_result(old(self)),
            final(self).result_cache() == r,
            r != GameResult::NotCalculated,
    {
        proof {
            crate::board::lemma_wf_core(self);
        }
        let cached = self.cached_result();
        if !(cached == GameResult::NotCalculated) {
            return cached;
        }
        if self.is_board_full() {
            self.set_result_cache(GameResult::Draws);
            return GameResult::Draws;
        }
        match self.get_last_placement() {
            Some(m) => {
                if self.check_all_dir(m.x, m.y) {
                    let p = match self.get_cell(m.x, m.y).player() {
                        Some(p) => p,
                        None => {
                            proof {
                                assert(false);
                            }
                            Player::X
                        },
                    };
                    let w = GameResult::win(p);
                    self.set_result_cache(w);
                    w
                } else {
                    self.set_result_cache(GameResult::NotTerminated);
                    GameResult::NotTerminated
                }
            },
            None => {
                let w = self.get_width();
                let h = self.get_height();
                proof {
                    crate::board::lemma_wf_core(self);
                    assert(w * h <= 16384 * 16384) by (nonlinear_arith)
                        requires
                            1 <= w <= 16384,
                            1 <= h <= 16384,
                    ;
                }
                let total = w * h;
                let mut k: usize = 0;
                while k < total
                    invariant
                        self.wf(),
                        self@ == old(self)@,
                        self.forced_cache(Player::X) == old(self).forced_cache(Player::X),
                        self.forced_cache(Player::O) == old(self).forced_cache(Player::O),
                        self.result_cache() == GameResult::NotCalculated,
                        old(self).result_cache() == GameResult::NotCalculated,
                        !self@.full(),
                        self@.last_placement is None,
                        1 <= h,
                        w == self@.width,
                        h == self@.height,
                        total == w * h,
                        k <= total,
                        scan_result_from(self@, 0) == scan_result_from(self@, k as nat),
                    decreases total - k,
                {
                    let x = k / h;
                    let y = k % h;
                    proof {
                        assert(x < w && y < h) by (nonlinear_arith)
                            requires
                                k < total,
                                total == w * h,
                                1 <= h,
                                x == k / h,
                                y == k % h,
                        ;
                        assert(k as int / h as int == x as int && k as int % h as int == y as int);
                    }
                    let cv = self.get_cell(x, y);
                    if !(cv == BoardValue::Empty) {
                        if self.check_all_dir(x, y) {
                            let p = match cv.player() {
                                Some(p) => p,
                                None => {
                                    proof {
                                        assert(false);
                                    }
                                    Player::X
                                },
                            };
                            let wres = GameResult::win(p);
                            proof {
                                assert(scan_result_from(self@, k as nat) == GameResult::spec_win(
                                    self@.cell(x as int, y as int).spec_player()->Some_0,
                                ));
                            }
                            self.set_result_cache(wres);
                            return wres;
                        }
                    }
                    proof {
                        assert(scan_result_from(self@, k as nat) == scan_result_from(
                            self@,
                            (k + 1) as nat,
                        ));
                    }
                    k = k + 1;
                }
                self.set_result_cache(GameResult::NotTerminated);
                GameResult::NotTerminated
            },
        }
    }

    /// The utility of the current position for `player`, or nothing while
    /// the game is not over: `UTIL_ONE` if `player` won, 0 if the opponent
    /// won, `UTIL_HALF` on a draw.
    pub fn utility(&mut self, player: Player) -> (r: Option<u64>)
        requires
            old(self).wf(),
        ensures
            final(self).wf(),
            final(self)@ == old(self)@,
            final(self).forced_cache(Player::X) == old(self).forced_cache(Player::X),
            final(self).forced_cache(Player::O) == old(self).forced_cache(Player::O),
            final(self).result_cache() == resolved_result(old(self)),
            final(self).result_cache() != GameResult::NotCalculated,
            r == resolved_result(old(self)).spec_utility(player),
            r is Some <==> resolved_result(old(self)).spec_is_terminate(),
            r matches Some(u) ==> u == 0 || u == crate::board::UTIL_HALF || u
                == crate::board::UTIL_ONE,
    {
        let gr = self.calculate_game_result();
        gr.utility(player)
    }
}

/// A run of exactly five same-color stones through the last-placed cell,
/// blocked by the opponent on at most one end, makes the board terminal
/// with a win for that color; the same run blocked by the opponent on
/// both ends does not win along that line.
pub proof fn lemma_five_run(c: BoardCore, dx: int, dy: int)
    requires
        c.wf(),
        !c.full(),
        c.last_placement is Some,
        (dx == 1 && dy == 0) || (dx == 0 && dy == 1) || (dx == 1 && dy == 1) || (dx == 1 && dy
            == -1),
    ensures
        ({
            let m = c.last_placement->Some_0;
            let x = m.x as int;
            let y = m.y as int;
            let v = c.cell(x, y);
            let blocking = v.spec_opposite()->Some_0;
            let cnt = 1 + ray_len(c, x, y, dx, dy, v, 5) + ray_len(c, x, y, -dx, -dy, v, 5);
            let blocked = ray_blocked(c, x, y, dx, dy, v, blocking, 5) && ray_blocked(
                c,
                x,
                y,
                -dx,
                -dy,
                v,
                blocking,
                5,
            );
            &&& (cnt == 5 && !blocked ==> computed_result(c) == GameResult::spec_win(
                v.spec_player()->Some_0,
            ))
            &&& (cnt == 5 && blocked ==> !dir_win(c, x, y, dx, dy))
        }),
{
    let m = c.last_placement->Some_0;
    let x = m.x as int;
    let y = m.y as int;
    let v = c.cell(x, y);
    let blocking = v.spec_opposite()->Some_0;
    let cnt = 1 + ray_len(c, x, y, dx, dy, v, 5) + ray_len(c, x, y, -dx, -dy, v, 5);
    let blocked = ray_blocked(c, x, y, dx, dy, v, blocking, 5) && ray_blocked(
        c,
        x,
        y,
        -dx,
        -dy,
        v,
        blocking,
        5,
    );
    if cnt == 5 && !blocked {
        assert(dir_win(c, x, y, dx, dy));
        assert(win_at(c, x, y));
    }
}

/// An all-empty board is not terminated.
pub proof fn lemma_empty_not_terminated(c: BoardCore)
    requires
        c.grid_wf(),
        1 <= c.width,
        1 <= c.height,
        c.all_empty(),
        c.last_placement is None,
    ensures
        computed_result(c) == GameResult::NotTerminated,
{
    assert(!c.full()) by {
        assert(c.cell(0, 0) == BoardValue::Empty);
    }
    lemma_scan_empty(c, 0);
}

proof fn lemma_scan_empty(c: BoardCore, k: nat)
    requires
        c.grid_wf(),
        1 <= c.width,
        1 <= c.height,
        c.all_empty(),
    ensures
        scan_result_from(c, k) == GameResult::NotTerminated,
    decreases c.width * c.height - k,
{
    if k < c.width * c.height {
        lemma_scan_empty(c, k + 1);
    }
}

} // verus!
