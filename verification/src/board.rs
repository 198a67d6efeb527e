//! Board state for five-in-a-row: the grid, placement, the occupied-region
//! bounding box, and the caches for the terminal result and the per-player
//! forced-move lists.

use vstd::prelude::*;
use vstd::pervasive::VecAdditionalExecFns;

verus! {

/// Fixed-point scale for utilities: `UTIL_ONE` stands for a utility of 1.
/// A win is `UTIL_ONE`, a draw `UTIL_HALF`, a loss 0.
pub const UTIL_ONE: u64 = 1000000;
/// Utility of a draw: one half, in fixed-point units.
pub const UTIL_HALF: u64 = 500000;

/// Contents of one grid cell.
#[derive(Clone, Copy, PartialEq, Eq, Structural, Debug)]
pub enum BoardValue {
    X,
    O,
    Empty,
}

/// One of the two players.
#[derive(Clone, Copy, PartialEq, Eq, Structural, Debug)]
pub enum Player {
    X,
    O,
}

/// A zero-based (column, row) coordinate pair.
#[derive(Clone, Copy, PartialEq, Eq, Structural, Debug)]
pub struct Move {
    pub x: usize,
    pub y: usize,
}

impl Move {
    pub fn new(x: usize, y: usize) -> (m: Move)
        ensures
            m.x == x && m.y == y,
    {
        Move { x, y }
    }
}

/// Why a placement was refused.
#[derive(Clone, Copy, PartialEq, Eq, Structural, Debug)]
pub enum PlacingError {
    OutOfBounds,
    Occupied,
    FullBoard,
}

/// The cached terminal result: either not yet computed, or a known outcome.
#[derive(Clone, Copy, PartialEq, Eq, Structural, Debug)]
pub enum GameResult {
    XWins,
    OWins,
    Draws,
    NotTerminated,
    NotCalculated,
}

impl BoardValue {
    pub open spec fn spec_opposite(self) -> Option<BoardValue> {
        match self {
            BoardValue::X => Some(BoardValue::O),
            BoardValue::O => Some(BoardValue::X),
            BoardValue::Empty => None,
        }
    }

    /// The stone of the other color, if this is a stone at all.
    pub fn opposite(&self) -> (r: Option<BoardValue>)
        ensures
            r == self.spec_opposite(),
    {
        match self {
            BoardValue::X => Some(BoardValue::O),
            BoardValue::O => Some(BoardValue::X),
            BoardValue::Empty => None,
        }
    }

    pub open spec fn spec_player(self) -> Option<Player> {
        match self {
            BoardValue::X => Some(Player::X),
            BoardValue::O => Some(Player::O),
            BoardValue::Empty => None,
        }
    }

    /// The player owning this stone, if this is a stone at all.
    pub fn player(&self) -> (r: Option<Player>)
        ensures
            r == self.spec_player(),
    {
        match self {
            BoardValue::X => Some(Player::X),
            BoardValue::O => Some(Player::O),
            BoardValue::Empty => None,
        }
    }
}

impl Player {
    pub open spec fn spec_board_value(self) -> BoardValue {
        match self {
            Player::X => BoardValue::X,
            Player::O => BoardValue::O,
        }
    }

    /// The stone color this player places.
    pub fn board_value(&self) -> (r: BoardValue)
        ensures
            r == self.spec_board_value(),
    {
        match self {
            Player::X => BoardValue::X,
            Player::O => BoardValue::O,
        }
    }

    pub open spec fn spec_next(self) -> Player {
        match self {
            Player::X => Player::O,
            Player::O => Player::X,
        }
    }

    /// Switch to the other player.
    pub fn next(&mut self)
        ensures
            *final(self) == old(self).spec_next(),
    {
        *self = match self {
            Player::X => Player::O,
            Player::O => Player::X,
        }
    }
}

impl GameResult {
    pub open spec fn spec_is_terminate(self) -> bool {
        match self {
            GameResult::XWins => true,
            GameResult::OWins => true,
            GameResult::Draws => true,
            GameResult::NotTerminated => false,
            GameResult::NotCalculated => false,
        }
    }

    /// Whether this result marks a finished game.
    pub fn is_terminate(&self) -> (r: bool)
        ensures
            r == self.spec_is_terminate(),
    {
        match self {
            GameResult::XWins => true,
            GameResult::OWins => true,
            GameResult::Draws => true,
            GameResult::NotTerminated => false,
            GameResult::NotCalculated => false,
        }
    }

    pub open spec fn spec_win(player: Player) -> GameResult {
        match player {
            Player::X => GameResult::XWins,
            Player::O => GameResult::OWins,
        }
    }

    /// The winning result for the given player.
    pub fn win(player: Player) -> (r: GameResult)
        ensures
            r == GameResult::spec_win(player),
    {
        match player {
            Player::X => GameResult::XWins,
            Player::O => GameResult::OWins,
        }
    }

    pub open spec fn spec_utility(self, player: Player) -> Option<u64> {
        match self {
            GameResult::XWins => match player {
                Player::X => Some(UTIL_ONE),
                Player::O => Some(0u64),
            },
            GameResult::OWins => match player {
                Player::X => Some(0u64),
                Player::O => Some(UTIL_ONE),
            },
            GameResult::Draws => Some(UTIL_HALF),
            GameResult::NotTerminated => None,
            GameResult::NotCalculated => None,
        }
    }

    /// The utility of this result for the given player, in fixed-point units:
    /// `UTIL_ONE` for a win, 0 for a loss, `UTIL_HALF` for a draw, and
    /// nothing while the game is not known to be over.
    pub fn utility(&self, player: Player) -> (r: Option<u64>)
        ensures
            r == self.spec_utility(player),
    {
        match self {
            GameResult::XWins => match player {
                Player::X => Some(UTIL_ONE),
                Player::O => Some(0u64),
            },
            GameResult::OWins => match player {
                Player::X => Some(0u64),
                Player::O => Some(UTIL_ONE),
            },
            GameResult::Draws => Some(UTIL_HALF),
            GameResult::NotTerminated => None,
            GameResult::NotCalculated => None,
        }
    }
}

/// The mathematical content of a board, independent of the memo caches:
/// the grid (rows of cells), the dimensions, the player to move, the last
/// placement, and the occupied-region bounding box.
pub struct BoardCore {
    pub grid: Seq<Seq<BoardValue>>,
    pub width: int,
    pub height: int,
    pub player: Player,
    pub last_placement: Option<Move>,
    pub min_x: int,
    pub min_y: int,
    pub max_x: int,
    pub max_y: int,
    pub default_bound: bool,
}

pub open spec fn imin(a: int, b: int) -> int {
    if a < b {
        a
    } else {
        b
    }
}

pub open spec fn imax(a: int, b: int) -> int {
    if a < b {
        b
    } else {
        a
    }
}

/// Stones in one row.
pub open spec fn count_row(row: Seq<BoardValue>) -> nat
    decreases row.len(),
{
    if row.len() == 0 {
        0
    } else {
        count_row(row.drop_last()) + (if row.last() != BoardValue::Empty {
            1nat
        } else {
            0nat
        })
    }
}

/// Stones on the whole grid.
pub open spec fn count_stones(grid: Seq<Seq<BoardValue>>) -> nat
    decreases grid.len(),
{
    if grid.len() == 0 {
        0
    } else {
        count_stones(grid.drop_last()) + count_row(grid.last())
    }
}

impl BoardCore {
    pub open spec fn cell(self, x: int, y: int) -> BoardValue {
        self.grid[y][x]
    }

    pub open spec fn in_bounds(self, m: Move) -> bool {
        m.x < self.width && m.y < self.height
    }

    /// The placement `m` would be accepted: inside the board and on an
    /// empty cell.
    pub open spec fn place_legal(self, m: Move) -> bool {
        self.in_bounds(m) && self.cell(m.x as int, m.y as int) == BoardValue::Empty
    }

    pub open spec fn grid_wf(self) -> bool {
        &&& self.grid.len() == self.height
        &&& forall|y: int| 0 <= y < self.height ==> (#[trigger] self.grid[y]).len() == self.width
    }

    /// Every occupied cell lies inside the bounding box.
    pub open spec fn box_contains_stones(self) -> bool {
        forall|x: int, y: int|
            0 <= x < self.width && 0 <= y < self.height && #[trigger] self.cell(x, y)
                != BoardValue::Empty ==> self.min_x <= x <= self.max_x && self.min_y <= y
                <= self.max_y
    }

    pub open spec fn all_empty(self) -> bool {
        forall|x: int, y: int|
            0 <= x < self.width && 0 <= y < self.height ==> #[trigger] self.cell(x, y)
                == BoardValue::Empty
    }

    pub open spec fn full(self) -> bool {
        forall|x: int, y: int|
            0 <= x < self.width && 0 <= y < self.height ==> #[trigger] self.cell(x, y)
                != BoardValue::Empty
    }

    pub open spec fn wf(self) -> bool {
        &&& 1 <= self.width <= 16384
        &&& 1 <= self.height <= 16384
        &&& self.grid_wf()
        &&& 0 <= self.min_x <= self.max_x < self.width
        &&& 0 <= self.min_y <= self.max_y < self.height
        &&& self.box_contains_stones()
        &&& (self.default_bound ==> self.min_x == 0 && self.min_y == 0 && self.max_x == self.width
            - 1 && self.max_y == self.height - 1 && self.all_empty())
        &&& (match self.last_placement {
            Some(m) => self.in_bounds(m) && self.cell(m.x as int, m.y as int) != BoardValue::Empty,
            None => true,
        })
        &&& self.player == (if count_stones(self.grid) % 2 == 0 {
            Player::X
        } else {
            Player::O
        })
    }

    /// The board after a legal placement of `m`: the mover's stone is
    /// written, the bounding box widens to include `m` (or collapses to the
    /// single point `m` on the first placement), the turn passes, and `m`
    /// becomes the last placement.
    pub open spec fn place_view(self, m: Move) -> BoardCore {
        BoardCore {
            grid: self.grid.update(
                m.y as int,
                self.grid[m.y as int].update(m.x as int, self.player.spec_board_value()),
            ),
            width: self.width,
            height: self.height,
            player: self.player.spec_next(),
            last_placement: Some(m),
            min_x: if self.default_bound {
                m.x as int
            } else {
                imin(self.min_x, m.x as int)
            },
            min_y: if self.default_bound {
                m.y as int
            } else {
                imin(self.min_y, m.y as int)
            },
            max_x: if self.default_bound {
                m.x as int
            } else {
                imax(self.max_x, m.x as int)
            },
            max_y: if self.default_bound {
                m.y as int
            } else {
                imax(self.max_y, m.y as int)
            },
            default_bound: false,
        }
    }

    /// The empty board of the given dimensions, X to move.
    pub open spec fn init(width: int, height: int) -> BoardCore {
        BoardCore {
            grid: Seq::new(height as nat, |y: int| Seq::new(width as nat, |x: int| BoardValue::Empty)),
            width: width,
            height: height,
            player: Player::X,
            last_placement: None,
            min_x: 0,
            min_y: 0,
            max_x: width - 1,
            max_y: height - 1,
            default_bound: true,
        }
    }
}

/// Every move in the list is an empty in-bounds cell of `c`.
pub open spec fn forced_list_ok(c: BoardCore, s: Seq<Move>) -> bool {
    forall|k: int| 0 <= k < s.len() ==> c.place_legal(#[trigger] s[k])
}

/// No move occurs twice in the list.
pub open spec fn no_dups(s: Seq<Move>) -> bool {
    forall|a: int, b: int| 0 <= a < b < s.len() ==> #[trigger] s[a] != #[trigger] s[b]
}

/// A board: the grid with its bounding box, the player to move, and the
/// memo caches (terminal result, per-player forced-move lists).
pub struct Board {
    pub(crate) grid: Vec<Vec<BoardValue>>,
    pub player: Player,
    pub(crate) last_placement: Option<Move>,
    pub(crate) min_x: usize,
    pub(crate) min_y: usize,
    pub(crate) max_x: usize,
    pub(crate) max_y: usize,
    pub(crate) default_bound: bool,
    pub(crate) game_result: GameResult,
    pub(crate) x_forced: Option<Vec<Move>>,
    pub(crate) o_forced: Option<Vec<Move>>,
    pub(crate) width: usize,
    pub(crate) height: usize,
}

impl View for Board {
    type V = BoardCore;

    closed spec fn view(&self) -> BoardCore {
        BoardCore {
            grid: Seq::new(self.grid@.len(), |y: int| self.grid@[y]@),
            width: self.width as int,
            height: self.height as int,
            player: self.player,
            last_placement: self.last_placement,
            min_x: self.min_x as int,
            min_y: self.min_y as int,
            max_x: self.max_x as int,
            max_y: self.max_y as int,
            default_bound: self.default_bound,
        }
    }
}

impl Board {
    /// The cached terminal result as currently stored.
    pub closed spec fn result_cache(&self) -> GameResult {
        self.game_result
    }

    /// The cached forced-move list of the given player, if one is stored.
    pub closed spec fn forced_cache(&self, p: Player) -> Option<Seq<Move>> {
        match p {
            Player::X => match self.x_forced {
                Some(v) => Some(v@),
                None => None,
            },
            Player::O => match self.o_forced {
                Some(v) => Some(v@),
                None => None,
            },
        }
    }

    /// The board invariant: a well-formed core, forced-move caches holding
    /// only empty in-bounds cells without duplicates (both present or both
    /// absent), and a cached `NotTerminated` only on a board that truly is
    /// not terminal.
    pub closed spec fn wf(&self) -> bool {
        &&& self@.wf()
        &&& (self.x_forced is Some <==> self.o_forced is Some)
        &&& (match self.x_forced {
            Some(v) => forced_list_ok(self@, v@) && no_dups(v@),
            None => true,
        })
        &&& (match self.o_forced {
            Some(v) => forced_list_ok(self@, v@) && no_dups(v@),
            None => true,
        })
        &&& (self.game_result == GameResult::NotTerminated ==> crate::wins::computed_result(self@)
            == GameResult::NotTerminated)
    }

    /// A fresh empty board. The dimension bounds keep all later index and
    /// score arithmetic inside machine integers.
    pub fn new(width: usize, height: usize) -> (b: Board)
        requires
            1 <= width <= 16384,
            1 <= height <= 16384,
        ensures
            b.wf(),
            b@ == BoardCore::init(width as int, height as int),
            b.result_cache() == GameResult::NotTerminated,
            b.forced_cache(Player::X) == Some(Seq::<Move>::empty()),
            b.forced_cache(Player::O) == Some(Seq::<Move>::empty()),
    {
        let mut grid: Vec<Vec<BoardValue>> = Vec::new();
        let mut y: usize = 0;
        while y < height
            invariant
                y <= height,
                grid@.len() == y,
                forall|j: int| 0 <= j < y ==> (#[trigger] grid@[j])@ =~= Seq::new(width as nat, |x: int| BoardValue::Empty),
            decreases height - y,
        {
            let mut row: Vec<BoardValue> = Vec::new();
            let mut x: usize = 0;
            while x < width
                invariant
                    x <= width,
                    row@.len() == x,
                    forall|i: int| 0 <= i < x ==> row@[i] == BoardValue::Empty,
                decreases width - x,
            {
                row.push(BoardValue::Empty);
                x = x + 1;
            }
            proof {
                assert(row@ =~= Seq::new(width as nat, |x: int| BoardValue::Empty));
            }
            grid.push(row);
            y = y + 1;
        }
        let b = Board {
            grid,
            player: Player::X,
            last_placement: None,
            min_x: 0,
            min_y: 0,
            max_x: width - 1,
            max_y: height - 1,
            default_bound: true,
            game_result: GameResult::NotTerminated,
            x_forced: Some(Vec::new()),
            o_forced: Some(Vec::new()),
            width,
            height,
        };
        proof {
            assert(b@.grid =~= BoardCore::init(width as int, height as int).grid);
            assert(b@ =~= BoardCore::init(width as int, height as int));
            lemma_count_empty_grid(b@);
            crate::wins::lemma_empty_not_terminated(b@);
        }
        b
    }
}

/// `s` with every occurrence of `m` removed, order otherwise kept.
pub open spec fn seq_without(s: Seq<Move>, m: Move) -> Seq<Move>
    decreases s.len(),
{
    if s.len() == 0 {
        Seq::empty()
    } else {
        seq_without(s.drop_last(), m) + (if s.last() == m {
            Seq::<Move>::empty()
        } else {
            seq![s.last()]
        })
    }
}

/// What a cached forced-move list becomes when the cell `m` is filled.
pub open spec fn strip_cache(oc: Option<Seq<Move>>, m: Move) -> Option<Seq<Move>> {
    match oc {
        Some(s) => Some(seq_without(s, m)),
        None => None,
    }
}

pub proof fn lemma_seq_without_sub(s: Seq<Move>, m: Move)
    ensures
        forall|q: Move| #[trigger] seq_without(s, m).contains(q) ==> s.contains(q) && q != m,
    decreases s.len(),
{
    if s.len() > 0 {
        lemma_seq_without_sub(s.drop_last(), m);
        assert forall|q: Move| #[trigger] seq_without(s, m).contains(q) implies s.contains(q) && q
            != m by {
            let t = seq_without(s.drop_last(), m);
            let i = choose|i: int| 0 <= i < seq_without(s, m).len() && seq_without(s, m)[i] == q;
            if i < t.len() {
                assert(t.contains(q));
                assert(s.drop_last().contains(q));
                let j = choose|j: int|
                    0 <= j < s.drop_last().len() && s.drop_last()[j] == q;
                assert(s[j] == q);
            } else {
                assert(q == s.last());
                assert(s[s.len() - 1] == q);
            }
        }
    }
}

/// Removing a move keeps a duplicate-free list duplicate-free.
pub proof fn lemma_seq_without_no_dups(s: Seq<Move>, m: Move)
    requires
        no_dups(s),
    ensures
        no_dups(seq_without(s, m)),
    decreases s.len(),
{
    if s.len() > 0 {
        assert(no_dups(s.drop_last())) by {
            assert forall|a: int, b: int|
                0 <= a < b < s.drop_last().len() implies #[trigger] s.drop_last()[a]
                != #[trigger] s.drop_last()[b] by {
                assert(s[a] != s[b]);
            }
        }
        lemma_seq_without_no_dups(s.drop_last(), m);
        lemma_seq_without_sub(s.drop_last(), m);
        let t = seq_without(s.drop_last(), m);
        let r = seq_without(s, m);
        if s.last() != m {
            assert forall|a: int, b: int| 0 <= a < b < r.len() implies #[trigger] r[a]
                != #[trigger] r[b] by {
                if b < t.len() {
                    assert(r[a] == t[a] && r[b] == t[b]);
                } else {
                    assert(r[b] == s.last());
                    assert(r[a] == t[a]);
                    assert(t.contains(t[a]));
                    assert(s.drop_last().contains(t[a]));
                    let i = choose|i: int|
                        0 <= i < s.drop_last().len() && s.drop_last()[i] == t[a];
                    assert(s[i] == t[a]);
                    assert(s[i] != s[s.len() - 1]);
                }
            }
        } else {
            assert(r =~= t);
        }
    }
}

pub(crate) fn contains_move(v: &Vec<Move>, m: Move) -> (r: bool)
    ensures
        r == v@.contains(m),
{
    let mut i: usize = 0;
    while i < v.len()
        invariant
            i <= v@.len(),
            forall|j: int| 0 <= j < i ==> v@[j] != m,
        decreases v@.len() - i,
    {
        if v[i] == m {
            return true;
        }
        i = i + 1;
    }
    false
}

fn remove_move(v: &Vec<Move>, m: Move) -> (r: Vec<Move>)
    ensures
        r@ == seq_without(v@, m),
{
    let mut r: Vec<Move> = Vec::new();
    let mut i: usize = 0;
    while i < v.len()
        invariant
            i <= v@.len(),
            r@ == seq_without(v@.take(i as int), m),
        decreases v@.len() - i,
    {
        let e = v[i];
        proof {
            assert(v@.take(i as int + 1).drop_last() =~= v@.take(i as int));
            assert(v@.take(i as int + 1).last() == v@[i as int]);
        }
        if !(e == m) {
            r.push(e);
        }
        proof {
            if e == m {
                assert(r@ =~= seq_without(v@.take(i as int + 1), m));
            } else {
                assert(r@ =~= seq_without(v@.take(i as int + 1), m));
            }
        }
        i = i + 1;
    }
    proof {
        assert(v@.take(v@.len() as int) =~= v@);
    }
    r
}

pub(crate) fn copy_moves(v: &Vec<Move>) -> (r: Vec<Move>)
    ensures
        r@ == v@,
{
    let mut r: Vec<Move> = Vec::new();
    let mut i: usize = 0;
    while i < v.len()
        invariant
            i <= v@.len(),
            r@ == v@.take(i as int),
        decreases v@.len() - i,
    {
        r.push(v[i]);
        proof {
            assert(v@.take(i as int + 1) =~= v@.take(i as int).push(v@[i as int]));
        }
        i = i + 1;
    }
    proof {
        assert(v@.take(v@.len() as int) =~= v@);
    }
    r
}

proof fn lemma_count_row_update(row: Seq<BoardValue>, i: int, v: BoardValue)
    requires
        0 <= i < row.len(),
        row[i] == BoardValue::Empty,
        v != BoardValue::Empty,
    ensures
        count_row(row.update(i, v)) == count_row(row) + 1,
    decreases row.len(),
{
    if i == row.len() - 1 {
        assert(row.update(i, v).drop_last() =~= row.drop_last());
        assert(row.update(i, v).last() == v);
    } else {
        assert(row.update(i, v).drop_last() =~= row.drop_last().update(i, v));
        assert(row.update(i, v).last() == row.last());
        lemma_count_row_update(row.drop_last(), i, v);
    }
}

proof fn lemma_count_grid_update(grid: Seq<Seq<BoardValue>>, x: int, y: int, v: BoardValue)
    requires
        0 <= y < grid.len(),
        0 <= x < grid[y].len(),
        grid[y][x] == BoardValue::Empty,
        v != BoardValue::Empty,
    ensures
        count_stones(grid.update(y, grid[y].update(x, v))) == count_stones(grid) + 1,
    decreases grid.len(),
{
    let g2 = grid.update(y, grid[y].update(x, v));
    if y == grid.len() - 1 {
        assert(g2.drop_last() =~= grid.drop_last());
        assert(g2.last() == grid[y].update(x, v));
        lemma_count_row_update(grid[y], x, v);
    } else {
        assert(g2.drop_last() =~= grid.drop_last().update(y, grid[y].update(x, v)));
        assert(g2.last() == grid.last());
        lemma_count_grid_update(grid.drop_last(), x, y, v);
    }
}

impl Board {
    /// The caches are preserved across a placement exactly when the mover's
    /// cached forced-move list exists and contains the placed move.
    pub open spec fn preserves_forced(&self, m: Move) -> bool {
        match self.forced_cache(self@.player) {
            Some(s) => s.contains(m),
            None => false,
        }
    }

    /// Widen the occupied-region bounding box to include the last placement
    /// (or collapse it to that single point on the first placement).
    fn update_bounds(&mut self)
        requires
            0 <= old(self)@.min_x <= old(self)@.max_x < old(self)@.width,
            0 <= old(self)@.min_y <= old(self)@.max_y < old(self)@.height,
            old(self).last_placement is Some,
            old(self)@.in_bounds(old(self).last_placement->Some_0),
        ensures
            final(self).grid == old(self).grid,
            final(self).player == old(self).player,
            final(self).last_placement == old(self).last_placement,
            final(self).game_result == old(self).game_result,
            final(self).x_forced == old(self).x_forced,
            final(self).o_forced == old(self).o_forced,
            final(self).width == old(self).width,
            final(self).height == old(self).height,
            ({
                let m = old(self).last_placement->Some_0;
                let c = old(self)@;
                &&& final(self)@.min_x == (if c.default_bound { m.x as int } else { imin(c.min_x, m.x as int) })
                &&& final(self)@.min_y == (if c.default_bound { m.y as int } else { imin(c.min_y, m.y as int) })
                &&& final(self)@.max_x == (if c.default_bound { m.x as int } else { imax(c.max_x, m.x as int) })
                &&& final(self)@.max_y == (if c.default_bound { m.y as int } else { imax(c.max_y, m.y as int) })
                &&& final(self).default_bound == false
            }),
    {
        let m = match self.last_placement {
            Some(m) => m,
            None => {
                return ;
            },
        };
        if self.default_bound {
            self.min_x = m.x;
            self.min_y = m.y;
            self.max_x = m.x;
            self.max_y = m.y;
            self.default_bound = false;
            return ;
        }
        if m.x < self.min_x {
            self.min_x = m.x;
        }
        if m.y < self.min_y {
            self.min_y = m.y;
        }
        if m.x > self.max_x {
            self.max_x = m.x;
        }
        if m.y > self.max_y {
            self.max_y = m.y;
        }
        self.default_bound = false;
    }

    /// Place the mover's stone at `m`. Fails with `OutOfBounds` or
    /// `Occupied` (leaving the board untouched); on success writes the
    /// stone, widens the bounding box, passes the turn, records `m` as the
    /// last placement, strips or clears the forced-move caches, and
    /// invalidates a non-terminal cached result.
    #[verifier::rlimit(50)]
    pub fn place(&mut self, m: Move) -> (r: Result<(), PlacingError>)
        requires
            old(self).wf(),
        ensures
            final(self).wf(),
            !old(self)@.in_bounds(m) ==> r == Err::<(), PlacingError>(PlacingError::OutOfBounds)
                && *final(self) == *old(self),
            old(self)@.in_bounds(m) && old(self)@.cell(m.x as int, m.y as int)
                != BoardValue::Empty ==> r == Err::<(), PlacingError>(PlacingError::Occupied)
                && *final(self) == *old(self),
            old(self)@.place_legal(m) ==> ({
                let terminal = old(self).result_cache().spec_is_terminate();
                &&& r == Ok::<(), PlacingError>(())
                &&& final(self)@ == old(self)@.place_view(m)
                &&& final(self).result_cache() == (if terminal {
                    old(self).result_cache()
                } else {
                    GameResult::NotCalculated
                })
                &&& (old(self).preserves_forced(m) ==> final(self).forced_cache(Player::X)
                    == strip_cache(old(self).forced_cache(Player::X), m))
                &&& (old(self).preserves_forced(m) ==> final(self).forced_cache(Player::O)
                    == strip_cache(old(self).forced_cache(Player::O), m))
                &&& (!old(self).preserves_forced(m) ==> final(self).forced_cache(Player::X)
                    is None && final(self).forced_cache(Player::O) is None)
            }),
    {
        if m.x >= self.width || m.y >= self.height {
            return Err(PlacingError::OutOfBounds);
        }
        if !(self.grid[m.y][m.x] == BoardValue::Empty) {
            return Err(PlacingError::Occupied);
        }
        let ghost c0 = self@;
        let stone = self.player.board_value();
        self.grid[m.y].set(m.x, stone);
        proof {
            assert(self@.grid =~~= c0.grid.update(
                m.y as int,
                c0.grid[m.y as int].update(m.x as int, c0.player.spec_board_value()),
            ));
        }
        // Per the cache rule: preserved (minus the filled cell) exactly when
        // the mover's cached list contains the move, else cleared for both.
        let preserve = match (self.player, &self.x_forced, &self.o_forced) {
            (Player::X, Some(fa), _) => contains_move(fa, m),
            (Player::O, _, Some(fa)) => contains_move(fa, m),
            _ => false,
        };
        if preserve {
            let xf = match &self.x_forced {
                Some(fa) => Some(remove_move(fa, m)),
                None => None,
            };
            let of = match &self.o_forced {
                Some(fa) => Some(remove_move(fa, m)),
                None => None,
            };
            self.x_forced = xf;
            self.o_forced = of;
        } else {
            self.x_forced = None;
            self.o_forced = None;
        }
        self.player.next();
        self.last_placement = Some(m);
        self.update_bounds();
        if !self.game_result.is_terminate() {
            self.game_result = GameResult::NotCalculated;
        }
        proof {
            assert(self@ =~~= c0.place_view(m));
            lemma_count_grid_update(c0.grid, m.x as int, m.y as int, c0.player.spec_board_value());
            let c1 = self@;
            assert forall|x: int, y: int|
                0 <= x < c1.width && 0 <= y < c1.height && #[trigger] c1.cell(x, y)
                    != BoardValue::Empty implies c1.min_x <= x <= c1.max_x && c1.min_y <= y
                <= c1.max_y by {
                if x != m.x as int || y != m.y as int {
                    assert(c0.cell(x, y) == c1.cell(x, y));
                }
            }
            match &self.x_forced {
                Some(v) => {
                    lemma_seq_without_sub(old(self).x_forced->Some_0@, m);
                    lemma_seq_without_no_dups(old(self).x_forced->Some_0@, m);
                    assert forall|k: int| 0 <= k < v@.len() implies c1.place_legal(
                        #[trigger] v@[k],
                    ) by {
                        assert(v@.contains(v@[k]));
                        let q = v@[k];
                        assert(old(self).x_forced->Some_0@.contains(q) && q != m);
                        assert(c0.place_legal(q));
                        assert(!(q.x == m.x && q.y == m.y));
                        assert(c1.cell(q.x as int, q.y as int) == c0.cell(q.x as int, q.y as int));
                    }
                },
                None => {},
            }
            match &self.o_forced {
                Some(v) => {
                    lemma_seq_without_sub(old(self).o_forced->Some_0@, m);
                    lemma_seq_without_no_dups(old(self).o_forced->Some_0@, m);
                    assert forall|k: int| 0 <= k < v@.len() implies c1.place_legal(
                        #[trigger] v@[k],
                    ) by {
                        assert(v@.contains(v@[k]));
                        let q = v@[k];
                        assert(old(self).o_forced->Some_0@.contains(q) && q != m);
                        assert(c0.place_legal(q));
                        assert(!(q.x == m.x && q.y == m.y));
                        assert(c1.cell(q.x as int, q.y as int) == c0.cell(q.x as int, q.y as int));
                    }
                },
                None => {},
            }
        }
        Ok(())
    }

    /// An independent deep copy: same core, same caches.
    pub fn duplicate(&self) -> (b: Board)
        ensures
            b@ == self@,
            b.result_cache() == self.result_cache(),
            b.forced_cache(Player::X) == self.forced_cache(Player::X),
            b.forced_cache(Player::O) == self.forced_cache(Player::O),
            self.wf() ==> b.wf(),
    {
        let mut grid: Vec<Vec<BoardValue>> = Vec::new();
        let mut y: usize = 0;
        while y < self.grid.len()
            invariant
                y <= self.grid@.len(),
                grid@.len() == y,
                forall|j: int| 0 <= j < y ==> (#[trigger] grid@[j])@ == self.grid@[j]@,
            decreases self.grid@.len() - y,
        {
            let mut row: Vec<BoardValue> = Vec::new();
            let mut x: usize = 0;
            while x < self.grid[y].len()
                invariant
                    y < self.grid@.len(),
                    x <= self.grid@[y as int]@.len(),
                    row@ == self.grid@[y as int]@.take(x as int),
                decreases self.grid@[y as int]@.len() - x,
            {
                row.push(self.grid[y][x]);
                proof {
                    assert(self.grid@[y as int]@.take(x as int + 1) =~= self.grid@[y as int]@.take(
                        x as int,
                    ).push(self.grid@[y as int]@[x as int]));
                }
                x = x + 1;
            }
            proof {
                assert(self.grid@[y as int]@.take(self.grid@[y as int]@.len() as int)
                    =~= self.grid@[y as int]@);
            }
            grid.push(row);
            y = y + 1;
        }
        let b = Board {
            grid,
            player: self.player,
            last_placement: self.last_placement,
            min_x: self.min_x,
            min_y: self.min_y,
            max_x: self.max_x,
            max_y: self.max_y,
            default_bound: self.default_bound,
            game_result: self.game_result,
            x_forced: match &self.x_forced {
                Some(v) => Some(copy_moves(v)),
                None => None,
            },
            o_forced: match &self.o_forced {
                Some(v) => Some(copy_moves(v)),
                None => None,
            },
            width: self.width,
            height: self.height,
        };
        proof {
            assert(b@.grid =~~= self@.grid);
            assert(b@ =~~= self@);
        }
        b
    }

    /// Board width in cells.
    pub fn get_width(&self) -> (r: usize)
        ensures
            r == self@.width,
    {
        self.width
    }

    /// Board height in cells.
    pub fn get_height(&self) -> (r: usize)
        ensures
            r == self@.height,
    {
        self.height
    }

    /// The value stored at `(x, y)`.
    pub fn get_cell(&self, x: usize, y: usize) -> (r: BoardValue)
        requires
            self.wf(),
            x < self@.width,
            y < self@.height,
        ensures
            r == self@.cell(x as int, y as int),
    {
        self.grid[y][x]
    }

    /// The most recent successful placement, if any.
    pub fn get_last_placement(&self) -> (r: Option<Move>)
        ensures
            r == self@.last_placement,
    {
        self.last_placement
    }

    /// The player to move.
    pub fn get_player(&self) -> (r: Player)
        ensures
            r == self@.player,
    {
        self.player
    }

    pub(crate) fn cached_result(&self) -> (r: GameResult)
        ensures
            r == self.result_cache(),
    {
        self.game_result
    }

    pub(crate) fn set_result_cache(&mut self, r: GameResult)
        ensures
            final(self)@ == old(self)@,
            final(self).result_cache() == r,
            final(self).forced_cache(Player::X) == old(self).forced_cache(Player::X),
            final(self).forced_cache(Player::O) == old(self).forced_cache(Player::O),
            old(self).wf() && (r == GameResult::NotTerminated
                ==> crate::wins::computed_result(old(self)@) == GameResult::NotTerminated)
                ==> final(self).wf(),
    {
        self.game_result = r;
    }

    pub(crate) fn cached_forced(&self, p: Player) -> (r: Option<&Vec<Move>>)
        ensures
            match r {
                Some(v) => self.forced_cache(p) == Some(v@),
                None => self.forced_cache(p) is None,
            },
    {
        match p {
            Player::X => self.x_forced.as_ref(),
            Player::O => self.o_forced.as_ref(),
        }
    }

    pub(crate) fn set_forced_caches(&mut self, xf: Vec<Move>, of: Vec<Move>)
        ensures
            final(self)@ == old(self)@,
            final(self).result_cache() == old(self).result_cache(),
            final(self).forced_cache(Player::X) == Some(xf@),
            final(self).forced_cache(Player::O) == Some(of@),
            old(self).wf() && forced_list_ok(old(self)@, xf@) && forced_list_ok(old(self)@, of@)
                && no_dups(xf@) && no_dups(of@) ==> final(self).wf(),
    {
        self.x_forced = Some(xf);
        self.o_forced = Some(of);
    }

    /// The bounding box as `(min_x, min_y, max_x, max_y)`.
    pub(crate) fn get_bounds(&self) -> (r: (usize, usize, usize, usize))
        ensures
            r.0 == self@.min_x,
            r.1 == self@.min_y,
            r.2 == self@.max_x,
            r.3 == self@.max_y,
    {
        (self.min_x, self.min_y, self.max_x, self.max_y)
    }
}

/// The board invariant implies the core invariant.
pub proof fn lemma_wf_core(b: &Board)
    requires
        b.wf(),
    ensures
        b@.wf(),
{
}

/// Strict alternation: on every well-formed board the mover is X exactly
/// when the number of stones placed so far is even, O exactly when it is
/// odd.
pub proof fn lemma_mover_alternation(b: &Board)
    requires
        b.wf(),
    ensures
        b@.player == Player::X <==> count_stones(b@.grid) % 2 == 0,
        b@.player == Player::O <==> count_stones(b@.grid) % 2 == 1,
{
}

/// A cached `NotTerminated` result is truthful: the board really is not
/// terminal.
pub proof fn lemma_wf_result_truth(b: &Board)
    requires
        b.wf(),
        b.result_cache() == GameResult::NotTerminated,
    ensures
        crate::wins::computed_result(b@) == GameResult::NotTerminated,
{
}

/// A cached forced-move list holds only empty in-bounds cells.
pub proof fn lemma_wf_cache_ok(b: &Board, p: Player)
    requires
        b.wf(),
    ensures
        match b.forced_cache(p) {
            Some(s) => forced_list_ok(b@, s) && no_dups(s),
            None => true,
        },
        b.forced_cache(Player::X) is Some <==> b.forced_cache(Player::O) is Some,
{
}

/// An all-empty grid holds no stones.
proof fn lemma_count_empty_row(row: Seq<BoardValue>)
    requires
        forall|i: int| 0 <= i < row.len() ==> row[i] == BoardValue::Empty,
    ensures
        count_row(row) == 0,
    decreases row.len(),
{
    if row.len() > 0 {
        lemma_count_empty_row(row.drop_last());
    }
}

proof fn lemma_count_empty_grid_rec(grid: Seq<Seq<BoardValue>>)
    requires
        forall|y: int|
            0 <= y < grid.len() ==> forall|x: int|
                0 <= x < (#[trigger] grid[y]).len() ==> grid[y][x] == BoardValue::Empty,
    ensures
        count_stones(grid) == 0,
    decreases grid.len(),
{
    if grid.len() > 0 {
        lemma_count_empty_grid_rec(grid.drop_last());
        lemma_count_empty_row(grid.last());
    }
}

proof fn lemma_count_empty_grid(c: BoardCore)
    requires
        c.all_empty(),
        c.grid_wf(),
    ensures
        count_stones(c.grid) == 0,
{
    assert forall|y: int| 0 <= y < c.grid.len() implies forall|x: int|
        0 <= x < (#[trigger] c.grid[y]).len() ==> c.grid[y][x] == BoardValue::Empty by {
        assert forall|x: int| 0 <= x < (c.grid[y]).len() implies c.grid[y][x]
            == BoardValue::Empty by {
            assert(c.cell(x, y) == BoardValue::Empty);
        }
    }
    lemma_count_empty_grid_rec(c.grid);
}

} // verus!
