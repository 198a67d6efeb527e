//! The positional evaluator: every line of the four families (rows,
//! columns, both diagonal families) is decomposed into maximal
//! single-color runs, each run scored by a fixed weight table, and the
//! player's share of the total is returned in fixed-point units.

use vstd::prelude::*;
use crate::board::{lemma_wf_core, Board, BoardCore, BoardValue, Player, UTIL_HALF, UTIL_ONE};

verus! {

/// The run-weight table: length 2 scores 2, length 3 scores 3, length 4
/// scores 4; every other length (including 1 and anything beyond 4)
/// scores 0.
pub open spec fn weight(run: nat) -> nat {
    if run == 2 {
        2
    } else if run == 3 {
        3
    } else if run == 4 {
        4
    } else {
        0
    }
}

/// Score of the rest of a line for color `v`, with a current run of
/// length `run` open to the left: a cell of `v` extends the run, any
/// other cell (empty or opposing) closes and scores it.
pub open spec fn line_score_acc(s: Seq<BoardValue>, v: BoardValue, run: nat) -> nat
    decreases s.len(),
{
    if s.len() == 0 {
        weight(run)
    } else if s[0] == v {
        line_score_acc(s.skip(1), v, run + 1)
    } else {
        weight(run) + line_score_acc(s.skip(1), v, 0)
    }
}

/// Score of one line for color `v`.
pub open spec fn line_score(s: Seq<BoardValue>, v: BoardValue) -> nat {
    line_score_acc(s, v, 0)
}

proof fn lemma_line_score_bound(s: Seq<BoardValue>, v: BoardValue, run: nat)
    ensures
        line_score_acc(s, v, run) <= 4 * s.len() + 4,
    decreases s.len(),
{
    if s.len() > 0 {
        lemma_line_score_bound(s.skip(1), v, run + 1);
        lemma_line_score_bound(s.skip(1), v, 0);
    }
}

pub open spec fn row_seq(c: BoardCore, y: int) -> Seq<BoardValue> {
    Seq::new(c.width as nat, |x: int| c.cell(x, y))
}

pub open spec fn col_seq(c: BoardCore, x: int) -> Seq<BoardValue> {
    Seq::new(c.height as nat, |y: int| c.cell(x, y))
}

/// The anti-diagonal with `x + y == k`, cells in ascending-`x` order.
pub open spec fn diag_a_seq_from(c: BoardCore, k: int, x: int) -> Seq<BoardValue>
    decreases c.width - x,
{
    if x >= c.width {
        Seq::empty()
    } else {
        (if 0 <= k - x < c.height {
            seq![c.cell(x, k - x)]
        } else {
            Seq::<BoardValue>::empty()
        }) + diag_a_seq_from(c, k, x + 1)
    }
}

pub open spec fn diag_a_seq(c: BoardCore, k: int) -> Seq<BoardValue> {
    diag_a_seq_from(c, k, 0)
}

/// The main diagonal with `y - x == k - width + 1`, cells in
/// descending-`x` order.
pub open spec fn diag_b_seq_from(c: BoardCore, k: int, x: int) -> Seq<BoardValue>
    decreases x + 1,
{
    if x < 0 {
        Seq::empty()
    } else {
        (if 0 <= k - (c.width - 1 - x) < c.height {
            seq![c.cell(x, k - (c.width - 1 - x))]
        } else {
            Seq::<BoardValue>::empty()
        }) + diag_b_seq_from(c, k, x - 1)
    }
}

pub open spec fn diag_b_seq(c: BoardCore, k: int) -> Seq<BoardValue> {
    diag_b_seq_from(c, k, c.width - 1)
}

pub open spec fn rows_score_from(c: BoardCore, v: BoardValue, y: int) -> nat
    decreases c.height - y,
{
    if y >= c.height {
        0
    } else {
        line_score(row_seq(c, y), v) + rows_score_from(c, v, y + 1)
    }
}

pub open spec fn cols_score_from(c: BoardCore, v: BoardValue, x: int) -> nat
    decreases c.width - x,
{
    if x >= c.width {
        0
    } else {
        line_score(col_seq(c, x), v) + cols_score_from(c, v, x + 1)
    }
}

pub open spec fn diags_a_score_from(c: BoardCore, v: BoardValue, k: int) -> nat
    decreases c.width + c.height - 1 - k,
{
    if k >= c.width + c.height - 1 {
        0
    } else {
        line_score(diag_a_seq(c, k), v) + diags_a_score_from(c, v, k + 1)
    }
}

pub open spec fn diags_b_score_from(c: BoardCore, v: BoardValue, k: int) -> nat
    decreases c.width + c.height - 1 - k,
{
    if k >= c.width + c.height - 1 {
        0
    } else {
        line_score(diag_b_seq(c, k), v) + diags_b_score_from(c, v, k + 1)
    }
}

/// Total score of a color over all four line families.
pub open spec fn heur_total(c: BoardCore, v: BoardValue) -> nat {
    rows_score_from(c, v, 0) + cols_score_from(c, v, 0) + diags_a_score_from(c, v, 0)
        + diags_b_score_from(c, v, 0)
}

/// The heuristic value for `player`, in fixed-point units: the player's
/// share of the two totals, or one half when the board scores zero for
/// both.
pub open spec fn spec_heuristic(c: BoardCore, player: Player) -> int {
    let xt = heur_total(c, BoardValue::X);
    let ot = heur_total(c, BoardValue::O);
    let mine = (match player {
        Player::X => xt,
        Player::O => ot,
    }) as int;
    if xt + ot == 0 {
        UTIL_HALF as int
    } else {
        mine * (UTIL_ONE as int) / (xt + ot) as int
    }
}

fn weight_of(run: u64) -> (r: u64)
    ensures
        r == weight(run as nat),
        r <= 4,
{
    if run == 2 {
        2
    } else if run == 3 {
        3
    } else if run == 4 {
        4
    } else {
        0
    }
}

/// Score one line for both colors at once.
fn score_line(line: &Vec<BoardValue>) -> (r: (u64, u64))
    requires
        line@.len() <= 20000,
    ensures
        r.0 == line_score(line@, BoardValue::X),
        r.1 == line_score(line@, BoardValue::O),
        r.0 <= 4 * line@.len() + 4,
        r.1 <= 4 * line@.len() + 4,
{
    let mut xs: u64 = 0;
    let mut os: u64 = 0;
    let mut xrun: u64 = 0;
    let mut orun: u64 = 0;
    let mut i: usize = 0;
    let n = line.len();
    proof {
        assert(line@.skip(0) =~= line@);
    }
    while i < n
        invariant
            i <= n,
            n == line@.len(),
            n <= 20000,
            xs + weight(xrun as nat) <= 4 * i + 4,
            os + weight(orun as nat) <= 4 * i + 4,
            xrun <= i,
            orun <= i,
            line_score(line@, BoardValue::X) == xs + line_score_acc(
                line@.skip(i as int),
                BoardValue::X,
                xrun as nat,
            ),
            line_score(line@, BoardValue::O) == os + line_score_acc(
                line@.skip(i as int),
                BoardValue::O,
                orun as nat,
            ),
        decreases n - i,
    {
        let cell = line[i];
        proof {
            assert(line@.skip(i as int)[0] == line@[i as int]);
            assert(line@.skip(i as int).skip(1) =~= line@.skip(i as int + 1));
        }
        if cell == BoardValue::X {
            xrun = xrun + 1;
        } else {
            xs = xs + weight_of(xrun);
            xrun = 0;
        }
        if cell == BoardValue::O {
            orun = orun + 1;
        } else {
            os = os + weight_of(orun);
            orun = 0;
        }
        i = i + 1;
    }
    proof {
        assert(line@.skip(line@.len() as int) =~= Seq::<BoardValue>::empty());
    }
    let rx = xs + weight_of(xrun);
    let ro = os + weight_of(orun);
    (rx, ro)
}

impl Board {
    fn collect_row(&self, y: usize) -> (r: Vec<BoardValue>)
        requires
            self.wf(),
            y < self@.height,
        ensures
            r@ == row_seq(self@, y as int),
    {
        proof {
            lemma_wf_core(self);
        }
        let w = self.get_width();
        let mut r: Vec<BoardValue> = Vec::new();
        let mut x: usize = 0;
        while x < w
            invariant
                self.wf(),
                y < self@.height,
                w == self@.width,
                x <= w,
                r@.len() == x,
                forall|t: int| 0 <= t < x ==> #[trigger] r@[t] == self@.cell(t, y as int),
            decreases w - x,
        {
            r.push(self.get_cell(x, y));
            x = x + 1;
        }
        proof {
            assert(r@ =~= row_seq(self@, y as int));
        }
        r
    }

    fn collect_col(&self, x: usize) -> (r: Vec<BoardValue>)
        requires
            self.wf(),
            x < self@.width,
        ensures
            r@ == col_seq(self@, x as int),
    {
        proof {
            lemma_wf_core(self);
        }
        let h = self.get_height();
        let mut r: Vec<BoardValue> = Vec::new();
        let mut y: usize = 0;
        while y < h
            invariant
                self.wf(),
                x < self@.width,
                h == self@.height,
                y <= h,
                r@.len() == y,
                forall|t: int| 0 <= t < y ==> #[trigger] r@[t] == self@.cell(x as int, t),
            decreases h - y,
        {
            r.push(self.get_cell(x, y));
            y = y + 1;
        }
        proof {
            assert(r@ =~= col_seq(self@, x as int));
        }
        r
    }

    fn collect_diag_a(&self, k: usize) -> (r: Vec<BoardValue>)
        requires
            self.wf(),
        ensures
            r@ == diag_a_seq(self@, k as int),
    {
        proof {
            lemma_wf_core(self);
        }
        let w = self.get_width();
        let h = self.get_height();
        let mut r: Vec<BoardValue> = Vec::new();
        let mut x: usize = 0;
        while x < w
            invariant
                self.wf(),
                w == self@.width,
                h == self@.height,
                x <= w,
                diag_a_seq(self@, k as int) == r@ + diag_a_seq_from(self@, k as int, x as int),
            decreases w - x,
        {
            if k >= x && k - x < h {
                r.push(self.get_cell(x, k - x));
                proof {
                    assert(diag_a_seq(self@, k as int) =~= r@ + diag_a_seq_from(
                        self@,
                        k as int,
                        x as int + 1,
                    ));
                }
            } else {
                proof {
                    assert(diag_a_seq_from(self@, k as int, x as int) == diag_a_seq_from(
                        self@,
                        k as int,
                        x as int + 1,
                    ));
                }
            }
            x = x + 1;
        }
        proof {
            assert(diag_a_seq_from(self@, k as int, w as int) =~= Seq::<BoardValue>::empty());
            assert(diag_a_seq(self@, k as int) =~= r@);
        }
        r
    }

    fn collect_diag_b(&self, k: usize) -> (r: Vec<BoardValue>)
        requires
            self.wf(),
        ensures
            r@ == diag_b_seq(self@, k as int),
    {
        proof {
            lemma_wf_core(self);
        }
        let w = self.get_width();
        let h = self.get_height();
        let mut r: Vec<BoardValue> = Vec::new();
        let mut xi: i64 = w as i64 - 1;
        while xi >= 0
            invariant
                self.wf(),
                1 <= self@.width <= 16384,
                1 <= self@.height <= 16384,
                w == self@.width,
                h == self@.height,
                k <= usize::MAX,
                -1 <= xi <= w as i64 - 1,
                diag_b_seq(self@, k as int) == r@ + diag_b_seq_from(self@, k as int, xi as int),
            decreases xi + 1,
        {
            let x = xi as usize;
            let off = w - 1 - x;
            if k >= off && k - off < h {
                r.push(self.get_cell(x, k - off));
                proof {
                    assert(diag_b_seq(self@, k as int) =~= r@ + diag_b_seq_from(
                        self@,
                        k as int,
                        xi as int - 1,
                    ));
                }
            } else {
                proof {
                    assert(diag_b_seq_from(self@, k as int, xi as int) == diag_b_seq_from(
                        self@,
                        k as int,
                        xi as int - 1,
                    ));
                }
            }
            xi = xi - 1;
        }
        proof {
            assert(diag_b_seq_from(self@, k as int, -1) =~= Seq::<BoardValue>::empty());
            assert(diag_b_seq(self@, k as int) =~= r@);
        }
        r
    }

    /// The heuristic value of the position for `player`: the player's
    /// run-weight total over all rows, columns and diagonals, divided by
    /// the sum of both players' totals (one half when both are zero), in
    /// fixed-point units.
    pub fn heuristic(&self, player: Player) -> (r: u64)
        requires
            self.wf(),
        ensures
            r as int == spec_heuristic(self@, player),
            r <= UTIL_ONE,
    {
        proof {
            lemma_wf_core(self);
        }
        let w = self.get_width();
        let h = self.get_height();
        let mut xt: u64 = 0;
        let mut ot: u64 = 0;

        let mut y: usize = 0;
        while y < h
            invariant
                self.wf(),
                w == self@.width,
                h == self@.height,
                1 <= w <= 16384,
                1 <= h <= 16384,
                y <= h,
                xt <= 66000 * y,
                ot <= 66000 * y,
                rows_score_from(self@, BoardValue::X, 0) == xt + rows_score_from(
                    self@,
                    BoardValue::X,
                    y as int,
                ),
                rows_score_from(self@, BoardValue::O, 0) == ot + rows_score_from(
                    self@,
                    BoardValue::O,
                    y as int,
                ),
            decreases h - y,
        {
            let line = self.collect_row(y);
            let s = score_line(&line);
            xt = xt + s.0;
            ot = ot + s.1;
            y = y + 1;
        }

        let mut x: usize = 0;
        while x < w
            invariant
                self.wf(),
                w == self@.width,
                h == self@.height,
                1 <= w <= 16384,
                1 <= h <= 16384,
                x <= w,
                xt <= 66000 * (h + x),
                ot <= 66000 * (h + x),
                xt as int == rows_score_from(self@, BoardValue::X, 0) + cols_score_from(
                    self@,
                    BoardValue::X,
                    0,
                ) - cols_score_from(self@, BoardValue::X, x as int),
                ot as int == rows_score_from(self@, BoardValue::O, 0) + cols_score_from(
                    self@,
                    BoardValue::O,
                    0,
                ) - cols_score_from(self@, BoardValue::O, x as int),
            decreases w - x,
        {
            let line = self.collect_col(x);
            let s = score_line(&line);
            xt = xt + s.0;
            ot = ot + s.1;
            x = x + 1;
        }

        let diag_count = w + h - 1;
        let mut k: usize = 0;
        while k < diag_count
            invariant
                self.wf(),
                w == self@.width,
                h == self@.height,
                1 <= w <= 16384,
                1 <= h <= 16384,
                diag_count == w + h - 1,
                k <= diag_count,
                xt <= 66000 * (h + w + k),
                ot <= 66000 * (h + w + k),
                xt as int == rows_score_from(self@, BoardValue::X, 0) + cols_score_from(
                    self@,
                    BoardValue::X,
                    0,
                ) + diags_a_score_from(self@, BoardValue::X, 0) - diags_a_score_from(
                    self@,
                    BoardValue::X,
                    k as int,
                ),
                ot as int == rows_score_from(self@, BoardValue::O, 0) + cols_score_from(
                    self@,
                    BoardValue::O,
                    0,
                ) + diags_a_score_from(self@, BoardValue::O, 0) - diags_a_score_from(
                    self@,
                    BoardValue::O,
                    k as int,
                ),
            decreases diag_count - k,
        {
            let line = self.collect_diag_a(k);
            proof {
                lemma_diag_a_len(self@, k as int, 0);
            }
            let s = score_line(&line);
            xt = xt + s.0;
            ot = ot + s.1;
            k = k + 1;
        }

        let mut k2: usize = 0;
        while k2 < diag_count
            invariant
                self.wf(),
                w == self@.width,
                h == self@.height,
                1 <= w <= 16384,
                1 <= h <= 16384,
                diag_count == w + h - 1,
                k2 <= diag_count,
                xt <= 66000 * (h + w + diag_count + k2),
                ot <= 66000 * (h + w + diag_count + k2),
                xt as int == rows_score_from(self@, BoardValue::X, 0) + cols_score_from(
                    self@,
                    BoardValue::X,
                    0,
                ) + diags_a_score_from(self@, BoardValue::X, 0) + diags_b_score_from(
                    self@,
                    BoardValue::X,
                    0,
                ) - diags_b_score_from(self@, BoardValue::X, k2 as int),
                ot as int == rows_score_from(self@, BoardValue::O, 0) + cols_score_from(
                    self@,
                    BoardValue::O,
                    0,
                ) + diags_a_score_from(self@, BoardValue::O, 0) + diags_b_score_from(
                    self@,
                    BoardValue::O,
                    0,
                ) - diags_b_score_from(self@, BoardValue::O, k2 as int),
            decreases diag_count - k2,
        {
            let line = self.collect_diag_b(k2);
            proof {
                lemma_diag_b_len(self@, k2 as int, self@.width - 1);
            }
            let s = score_line(&line);
            xt = xt + s.0;
            ot = ot + s.1;
            k2 = k2 + 1;
        }

        proof {
            assert(xt == heur_total(self@, BoardValue::X));
            assert(ot == heur_total(self@, BoardValue::O));
        }
        let mine = match player {
            Player::X => xt,
            Player::O => ot,
        };
        let total = xt + ot;
        if total == 0 {
            UTIL_HALF
        } else {
            let r = mine * UTIL_ONE / total;
            proof {
                assert(r <= UTIL_ONE) by (nonlinear_arith)
                    requires
                        mine <= total,
                        1 <= total,
                        r as int == mine as int * (UTIL_ONE as int) / total as int,
                ;
            }
            r
        }
    }
}

proof fn lemma_diag_a_len(c: BoardCore, k: int, x: int)
    requires
        x >= 0,
    ensures
        diag_a_seq_from(c, k, x).len() <= (if c.width - x >= 0 {
            c.width - x
        } else {
            0
        }),
    decreases c.width - x,
{
    if x < c.width {
        lemma_diag_a_len(c, k, x + 1);
    }
}

proof fn lemma_diag_b_len(c: BoardCore, k: int, x: int)
    requires
        x >= -1,
    ensures
        diag_b_seq_from(c, k, x).len() <= x + 1,
    decreases x + 1,
{
    if x >= 0 {
        lemma_diag_b_len(c, k, x - 1);
    }
}

} // verus!
