//! Forced-move (threat) extraction and legal-move generation: radius-6
//! line windows through the last placement, pattern evaluation for both
//! colors, the per-player forced-move caches, and the bounding-box move
//! list.

use vstd::prelude::*;
use crate::board::{
    contains_move, copy_moves, forced_list_ok, imax, imin, lemma_wf_cache_ok, lemma_wf_core,
    no_dups, Board, BoardCore, BoardValue, Move, Player,
};
use crate::patterns::{mv, spec_get_forced, AreaCell};

verus! {

/// The horizontal radius-6 window through `(x, y)`, clipped to the board.
pub open spec fn horz_area(c: BoardCore, x: int, y: int) -> Seq<AreaCell> {
    let x0 = imax(x - 6, 0);
    let x1 = imin(x + 7, c.width);
    Seq::new((x1 - x0) as nat, |t: int| (c.cell(x0 + t, y), (x0 + t) as usize, y as usize))
}

/// The vertical radius-6 window through `(x, y)`, clipped to the board.
pub open spec fn vert_area(c: BoardCore, x: int, y: int) -> Seq<AreaCell> {
    let y0 = imax(y - 6, 0);
    let y1 = imin(y + 7, c.height);
    Seq::new((y1 - y0) as nat, |t: int| (c.cell(x, y0 + t), x as usize, (y0 + t) as usize))
}

pub open spec fn diag1_area_from(c: BoardCore, x: int, y: int, t: int) -> Seq<AreaCell>
    decreases 7 - t,
{
    if t > 6 {
        Seq::empty()
    } else {
        let rest = diag1_area_from(c, x, y, t + 1);
        if 0 <= x + t < c.width && 0 <= y + t < c.height {
            seq![(c.cell(x + t, y + t), (x + t) as usize, (y + t) as usize)] + rest
        } else {
            rest
        }
    }
}

/// The falling-diagonal radius-6 window through `(x, y)`.
pub open spec fn diag1_area(c: BoardCore, x: int, y: int) -> Seq<AreaCell> {
    diag1_area_from(c, x, y, -6)
}

pub open spec fn diag2_area_from(c: BoardCore, x: int, y: int, t: int) -> Seq<AreaCell>
    decreases 7 - t,
{
    if t > 6 {
        Seq::empty()
    } else {
        let rest = diag2_area_from(c, x, y, t + 1);
        if 0 <= x + t < c.width && 0 <= y - t < c.height {
            seq![(c.cell(x + t, y - t), (x + t) as usize, (y - t) as usize)] + rest
        } else {
            rest
        }
    }
}

/// The rising-diagonal radius-6 window through `(x, y)`.
pub open spec fn diag2_area(c: BoardCore, x: int, y: int) -> Seq<AreaCell> {
    diag2_area_from(c, x, y, -6)
}

/// The window cell records a real board cell: in-bounds coordinates and
/// the value actually stored there.
pub open spec fn area_cell_ok(c: BoardCore, a: AreaCell) -> bool {
    &&& a.1 < c.width
    &&& a.2 < c.height
    &&& a.0 == c.cell(a.1 as int, a.2 as int)
}

pub open spec fn area_ok(c: BoardCore, area: Seq<AreaCell>) -> bool {
    forall|p: int| 0 <= p < area.len() ==> area_cell_ok(c, #[trigger] area[p])
}

proof fn lemma_horz_area_ok(c: BoardCore, x: int, y: int)
    requires
        c.wf(),
        0 <= x < c.width,
        0 <= y < c.height,
    ensures
        area_ok(c, horz_area(c, x, y)),
{
}

proof fn lemma_vert_area_ok(c: BoardCore, x: int, y: int)
    requires
        c.wf(),
        0 <= x < c.width,
        0 <= y < c.height,
    ensures
        area_ok(c, vert_area(c, x, y)),
{
}

proof fn lemma_diag1_area_ok(c: BoardCore, x: int, y: int, t: int)
    requires
        c.wf(),
        0 <= x < c.width,
        0 <= y < c.height,
    ensures
        area_ok(c, diag1_area_from(c, x, y, t)),
    decreases 7 - t,
{
    if t <= 6 {
        lemma_diag1_area_ok(c, x, y, t + 1);
        let s = diag1_area_from(c, x, y, t);
        let rest = diag1_area_from(c, x, y, t + 1);
        if 0 <= x + t < c.width && 0 <= y + t < c.height {
            assert forall|p: int| 0 <= p < s.len() implies area_cell_ok(c, #[trigger] s[p]) by {
                if p == 0 {
                } else {
                    assert(s[p] == rest[p - 1]);
                }
            }
        }
    }
}

proof fn lemma_diag2_area_ok(c: BoardCore, x: int, y: int, t: int)
    requires
        c.wf(),
        0 <= x < c.width,
        0 <= y < c.height,
    ensures
        area_ok(c, diag2_area_from(c, x, y, t)),
    decreases 7 - t,
{
    if t <= 6 {
        lemma_diag2_area_ok(c, x, y, t + 1);
        let s = diag2_area_from(c, x, y, t);
        let rest = diag2_area_from(c, x, y, t + 1);
        if 0 <= x + t < c.width && 0 <= y - t < c.height {
            assert forall|p: int| 0 <= p < s.len() implies area_cell_ok(c, #[trigger] s[p]) by {
                if p == 0 {
                } else {
                    assert(s[p] == rest[p - 1]);
                }
            }
        }
    }
}

/// Append `e` unless it is already present.
pub open spec fn dedup_step(v: Seq<Move>, e: Move) -> Seq<Move> {
    if v.contains(e) {
        v
    } else {
        v.push(e)
    }
}

/// Append the members of `u` in order, skipping those already present.
pub open spec fn dedup_extend(v: Seq<Move>, u: Seq<Move>) -> Seq<Move>
    decreases u.len(),
{
    if u.len() == 0 {
        v
    } else {
        dedup_step(dedup_extend(v, u.drop_last()), u.last())
    }
}

proof fn lemma_dedup_elems(v: Seq<Move>, u: Seq<Move>)
    ensures
        forall|q: Move| #[trigger] dedup_extend(v, u).contains(q) ==> v.contains(q) || u.contains(
            q,
        ),
    decreases u.len(),
{
    if u.len() > 0 {
        lemma_dedup_elems(v, u.drop_last());
        let d0 = dedup_extend(v, u.drop_last());
        assert forall|q: Move| #[trigger] dedup_extend(v, u).contains(q) implies v.contains(q)
            || u.contains(q) by {
            if !d0.contains(q) {
                assert(dedup_extend(v, u) == d0.push(u.last()));
                let i = choose|i: int|
                    0 <= i < dedup_extend(v, u).len() && dedup_extend(v, u)[i] == q;
                if i < d0.len() {
                    assert(d0[i] == q);
                } else {
                    assert(q == u.last());
                    assert(u[u.len() - 1] == q);
                }
            } else {
                if u.drop_last().contains(q) {
                    let i = choose|i: int|
                        0 <= i < u.drop_last().len() && u.drop_last()[i] == q;
                    assert(u[i] == q);
                }
            }
        }
    }
}

/// Deduplicating extension keeps a duplicate-free list duplicate-free.
proof fn lemma_dedup_no_dups(v: Seq<Move>, u: Seq<Move>)
    requires
        no_dups(v),
    ensures
        no_dups(dedup_extend(v, u)),
    decreases u.len(),
{
    if u.len() > 0 {
        lemma_dedup_no_dups(v, u.drop_last());
        let d0 = dedup_extend(v, u.drop_last());
        let d = dedup_extend(v, u);
        if !d0.contains(u.last()) {
            assert(d == d0.push(u.last()));
            assert forall|a: int, b: int| 0 <= a < b < d.len() implies #[trigger] d[a]
                != #[trigger] d[b] by {
                if b < d0.len() {
                    assert(d[a] == d0[a] && d[b] == d0[b]);
                } else {
                    assert(d[b] == u.last());
                    assert(d[a] == d0[a]);
                    assert(d0.contains(d0[a]));
                }
            }
        }
    }
}

proof fn lemma_dedup_ok(c: BoardCore, v: Seq<Move>, u: Seq<Move>)
    requires
        forced_list_ok(c, v),
        forced_list_ok(c, u),
    ensures
        forced_list_ok(c, dedup_extend(v, u)),
{
    lemma_dedup_elems(v, u);
    let d = dedup_extend(v, u);
    assert forall|k: int| 0 <= k < d.len() implies c.place_legal(#[trigger] d[k]) by {
        assert(d.contains(d[k]));
        if v.contains(d[k]) {
            let i = choose|i: int| 0 <= i < v.len() && v[i] == d[k];
            assert(c.place_legal(v[i]));
        } else {
            let i = choose|i: int| 0 <= i < u.len() && u[i] == d[k];
            assert(c.place_legal(u[i]));
        }
    }
}

/// Forced moves read off a faithful window are empty in-bounds cells.
proof fn lemma_area_forced_ok(c: BoardCore, area: Seq<AreaCell>, target: BoardValue)
    requires
        target != BoardValue::Empty,
        area_ok(c, area),
    ensures
        forced_list_ok(c, spec_get_forced(area, target).0),
        forced_list_ok(c, spec_get_forced(area, target).1),
{
    crate::patterns::lemma_forced_from_empty(area, target, 0);
    let s0 = spec_get_forced(area, target).0;
    let s1 = spec_get_forced(area, target).1;
    assert forall|k: int| 0 <= k < s0.len() implies c.place_legal(#[trigger] s0[k]) by {
        assert(crate::patterns::move_on_empty_cell(area, s0[k]));
        let p = choose|p: int|
            0 <= p < area.len() && (#[trigger] area[p]).0 == BoardValue::Empty && s0[k] == mv(
                area[p],
            );
        assert(area_cell_ok(c, area[p]));
    }
    assert forall|k: int| 0 <= k < s1.len() implies c.place_legal(#[trigger] s1[k]) by {
        assert(crate::patterns::move_on_empty_cell(area, s1[k]));
        let p = choose|p: int|
            0 <= p < area.len() && (#[trigger] area[p]).0 == BoardValue::Empty && s1[k] == mv(
                area[p],
            );
        assert(area_cell_ok(c, area[p]));
    }
}

/// The (X, O) forced-move lists computed from the four windows through the
/// last placement: for each target color in turn, each window's
/// attacker-forced moves go to that color and its defender-forced moves to
/// the other, deduplicated in arrival order.
pub open spec fn computed_forced_pair(c: BoardCore) -> (Seq<Move>, Seq<Move>) {
    let m = c.last_placement->Some_0;
    let x = m.x as int;
    let y = m.y as int;
    let gx0 = spec_get_forced(horz_area(c, x, y), BoardValue::X);
    let gx1 = spec_get_forced(vert_area(c, x, y), BoardValue::X);
    let gx2 = spec_get_forced(diag1_area(c, x, y), BoardValue::X);
    let gx3 = spec_get_forced(diag2_area(c, x, y), BoardValue::X);
    let go0 = spec_get_forced(horz_area(c, x, y), BoardValue::O);
    let go1 = spec_get_forced(vert_area(c, x, y), BoardValue::O);
    let go2 = spec_get_forced(diag1_area(c, x, y), BoardValue::O);
    let go3 = spec_get_forced(diag2_area(c, x, y), BoardValue::O);
    let xf = dedup_extend(
        dedup_extend(
            dedup_extend(
                dedup_extend(
                    dedup_extend(
                        dedup_extend(
                            dedup_extend(dedup_extend(Seq::empty(), gx0.0), gx1.0),
                            gx2.0,
                        ),
                        gx3.0,
                    ),
                    go0.1,
                ),
                go1.1,
            ),
            go2.1,
        ),
        go3.1,
    );
    let of = dedup_extend(
        dedup_extend(
            dedup_extend(
                dedup_extend(
                    dedup_extend(
                        dedup_extend(
                            dedup_extend(dedup_extend(Seq::empty(), gx0.1), gx1.1),
                            gx2.1,
                        ),
                        gx3.1,
                    ),
                    go0.0,
                ),
                go1.0,
            ),
            go2.0,
        ),
        go3.0,
    );
    (xf, of)
}

/// The forced-move list of `p` after resolution: the cached list if one is
/// stored, else the lists computed from the last placement (empty when the
/// board has no recorded last placement).
pub open spec fn forced_resolved(b: &Board, p: Player) -> Seq<Move> {
    match b.forced_cache(p) {
        Some(s) => s,
        None => match b@.last_placement {
            Some(_m) => match p {
                Player::X => computed_forced_pair(b@).0,
                Player::O => computed_forced_pair(b@).1,
            },
            None => Seq::empty(),
        },
    }
}

pub open spec fn box_left(c: BoardCore) -> int {
    imax(c.min_x - 1, 0)
}

pub open spec fn box_up(c: BoardCore) -> int {
    imax(c.min_y - 1, 0)
}

pub open spec fn box_right(c: BoardCore) -> int {
    imin(c.max_x + 2, c.width)
}

pub open spec fn box_down(c: BoardCore) -> int {
    imin(c.max_y + 2, c.height)
}

pub open spec fn box_empties_row(c: BoardCore, x: int, right: int, y: int) -> Seq<Move>
    decreases right - x,
{
    if x >= right {
        Seq::empty()
    } else {
        (if c.cell(x, y) == BoardValue::Empty {
            seq![Move { x: x as usize, y: y as usize }]
        } else {
            Seq::<Move>::empty()
        }) + box_empties_row(c, x + 1, right, y)
    }
}

pub open spec fn box_empties_rows(c: BoardCore, left: int, right: int, y: int, down: int) -> Seq<
    Move,
>
    decreases down - y,
{
    if y >= down {
        Seq::empty()
    } else {
        box_empties_row(c, left, right, y) + box_empties_rows(c, left, right, y + 1, down)
    }
}

/// The empty cells of the expanded bounding box, scanned row by row.
pub open spec fn box_empties(c: BoardCore) -> Seq<Move> {
    box_empties_rows(c, box_left(c), box_right(c), box_up(c), box_down(c))
}

proof fn lemma_box_row_legal(c: BoardCore, x: int, right: int, y: int)
    requires
        0 <= x,
        right <= c.width,
        c.width <= 16384,
        c.height <= 16384,
        0 <= y < c.height,
    ensures
        forced_list_ok(c, box_empties_row(c, x, right, y)),
    decreases right - x,
{
    if x < right {
        lemma_box_row_legal(c, x + 1, right, y);
        let s = box_empties_row(c, x, right, y);
        let rest = box_empties_row(c, x + 1, right, y);
        assert forall|k: int| 0 <= k < s.len() implies c.place_legal(#[trigger] s[k]) by {
            if c.cell(x, y) == BoardValue::Empty {
                if k > 0 {
                    assert(s[k] == rest[k - 1]);
                }
            } else {
                assert(s[k] == rest[k]);
            }
        }
    }
}

proof fn lemma_box_rows_legal(c: BoardCore, left: int, right: int, y: int, down: int)
    requires
        0 <= left,
        0 <= y,
        right <= c.width,
        down <= c.height,
        c.width <= 16384,
        c.height <= 16384,
    ensures
        forced_list_ok(c, box_empties_rows(c, left, right, y, down)),
    decreases down - y,
{
    if y < down {
        lemma_box_rows_legal(c, left, right, y + 1, down);
        lemma_box_row_legal(c, left, right, y);
        let a = box_empties_row(c, left, right, y);
        let b = box_empties_rows(c, left, right, y + 1, down);
        let s = box_empties_rows(c, left, right, y, down);
        assert forall|k: int| 0 <= k < s.len() implies c.place_legal(#[trigger] s[k]) by {
            if k < a.len() {
                assert(s[k] == a[k]);
            } else {
                assert(s[k] == b[k - a.len()]);
            }
        }
    }
}

/// Every listed cell of the expanded box is an empty in-bounds cell.
pub proof fn lemma_box_empties_legal(c: BoardCore)
    requires
        c.wf(),
    ensures
        forced_list_ok(c, box_empties(c)),
{
    lemma_box_rows_legal(c, box_left(c), box_right(c), box_up(c), box_down(c));
}

proof fn lemma_box_row_complete(c: BoardCore, x: int, right: int, y: int, xx: int)
    requires
        x <= xx < right,
        c.cell(xx, y) == BoardValue::Empty,
    ensures
        box_empties_row(c, x, right, y).contains(Move { x: xx as usize, y: y as usize }),
    decreases right - x,
{
    let s = box_empties_row(c, x, right, y);
    let rest = box_empties_row(c, x + 1, right, y);
    if xx == x {
        assert(s[0] == Move { x: xx as usize, y: y as usize });
    } else {
        lemma_box_row_complete(c, x + 1, right, y, xx);
        let i = choose|i: int|
            0 <= i < rest.len() && rest[i] == Move { x: xx as usize, y: y as usize };
        if c.cell(x, y) == BoardValue::Empty {
            assert(s[i + 1] == rest[i]);
        } else {
            assert(s[i] == rest[i]);
        }
    }
}

proof fn lemma_box_rows_complete(
    c: BoardCore,
    left: int,
    right: int,
    y: int,
    down: int,
    xx: int,
    yy: int,
)
    requires
        left <= xx < right,
        y <= yy < down,
        c.cell(xx, yy) == BoardValue::Empty,
    ensures
        box_empties_rows(c, left, right, y, down).contains(
            Move { x: xx as usize, y: yy as usize },
        ),
    decreases down - y,
{
    let s = box_empties_rows(c, left, right, y, down);
    let a = box_empties_row(c, left, right, y);
    let b = box_empties_rows(c, left, right, y + 1, down);
    if yy == y {
        lemma_box_row_complete(c, left, right, y, xx);
        let i = choose|i: int|
            0 <= i < a.len() && a[i] == Move { x: xx as usize, y: yy as usize };
        assert(s[i] == a[i]);
    } else {
        lemma_box_rows_complete(c, left, right, y + 1, down, xx, yy);
        let i = choose|i: int|
            0 <= i < b.len() && b[i] == Move { x: xx as usize, y: yy as usize };
        assert(s[a.len() + i] == b[i]);
    }
}

proof fn lemma_box_row_bounds(c: BoardCore, x: int, right: int, y: int)
    requires
        0 <= x,
        0 <= y <= 16384,
        right <= 16384,
    ensures
        forall|k: int|
            0 <= k < box_empties_row(c, x, right, y).len() ==> ({
                let q = #[trigger] box_empties_row(c, x, right, y)[k];
                x <= q.x < right && q.y == y && c.cell(q.x as int, q.y as int)
                    == BoardValue::Empty
            }),
    decreases right - x,
{
    if x < right {
        lemma_box_row_bounds(c, x + 1, right, y);
        let s = box_empties_row(c, x, right, y);
        let rest = box_empties_row(c, x + 1, right, y);
        assert forall|k: int| 0 <= k < s.len() implies ({
            let q = #[trigger] s[k];
            x <= q.x < right && q.y == y && c.cell(q.x as int, q.y as int) == BoardValue::Empty
        }) by {
            if c.cell(x, y) == BoardValue::Empty {
                if k > 0 {
                    assert(s[k] == rest[k - 1]);
                }
            } else {
                assert(s[k] == rest[k]);
            }
        }
    }
}

proof fn lemma_box_rows_bounds(c: BoardCore, left: int, right: int, y: int, down: int)
    requires
        0 <= left,
        0 <= y,
        right <= 16384,
        down <= 16384,
    ensures
        forall|k: int|
            0 <= k < box_empties_rows(c, left, right, y, down).len() ==> ({
                let q = #[trigger] box_empties_rows(c, left, right, y, down)[k];
                left <= q.x < right && y <= q.y < down && c.cell(q.x as int, q.y as int)
                    == BoardValue::Empty
            }),
    decreases down - y,
{
    if y < down {
        lemma_box_rows_bounds(c, left, right, y + 1, down);
        lemma_box_row_bounds(c, left, right, y);
        let s = box_empties_rows(c, left, right, y, down);
        let a = box_empties_row(c, left, right, y);
        let b = box_empties_rows(c, left, right, y + 1, down);
        assert forall|k: int| 0 <= k < s.len() implies ({
            let q = #[trigger] s[k];
            left <= q.x < right && y <= q.y < down && c.cell(q.x as int, q.y as int)
                == BoardValue::Empty
        }) by {
            if k < a.len() {
                assert(s[k] == a[k]);
            } else {
                assert(s[k] == b[k - a.len()]);
            }
        }
    }
}

proof fn lemma_box_row_no_dups(c: BoardCore, x: int, right: int, y: int)
    requires
        0 <= x,
        0 <= y <= 16384,
        right <= 16384,
    ensures
        no_dups(box_empties_row(c, x, right, y)),
    decreases right - x,
{
    if x < right {
        lemma_box_row_no_dups(c, x + 1, right, y);
        lemma_box_row_bounds(c, x + 1, right, y);
        let s = box_empties_row(c, x, right, y);
        let rest = box_empties_row(c, x + 1, right, y);
        if c.cell(x, y) == BoardValue::Empty {
            assert forall|a: int, b: int| 0 <= a < b < s.len() implies #[trigger] s[a]
                != #[trigger] s[b] by {
                if a == 0 {
                    assert(s[b] == rest[b - 1]);
                    assert(rest[b - 1].x >= x + 1);
                } else {
                    assert(s[a] == rest[a - 1] && s[b] == rest[b - 1]);
                }
            }
        }
    }
}

proof fn lemma_box_rows_no_dups(c: BoardCore, left: int, right: int, y: int, down: int)
    requires
        0 <= left,
        0 <= y,
        right <= 16384,
        down <= 16384,
    ensures
        no_dups(box_empties_rows(c, left, right, y, down)),
    decreases down - y,
{
    if y < down {
        lemma_box_rows_no_dups(c, left, right, y + 1, down);
        lemma_box_row_no_dups(c, left, right, y);
        lemma_box_row_bounds(c, left, right, y);
        lemma_box_rows_bounds(c, left, right, y + 1, down);
        let s = box_empties_rows(c, left, right, y, down);
        let a0 = box_empties_row(c, left, right, y);
        let b0 = box_empties_rows(c, left, right, y + 1, down);
        assert forall|a: int, b: int| 0 <= a < b < s.len() implies #[trigger] s[a]
            != #[trigger] s[b] by {
            if b < a0.len() {
                assert(s[a] == a0[a] && s[b] == a0[b]);
            } else if a >= a0.len() {
                assert(s[a] == b0[a - a0.len()] && s[b] == b0[b - a0.len()]);
            } else {
                assert(s[a] == a0[a] && s[b] == b0[b - a0.len()]);
                assert(a0[a].y == y);
                assert(b0[b - a0.len()].y >= y + 1);
            }
        }
    }
}

/// The bounding-box move list never repeats a cell.
pub proof fn lemma_box_empties_no_dups(c: BoardCore)
    requires
        c.wf(),
    ensures
        no_dups(box_empties(c)),
{
    lemma_box_rows_no_dups(c, box_left(c), box_right(c), box_up(c), box_down(c));
}

/// The bounding-box move list is exact: it holds only empty cells of the
/// expanded box, and every empty cell of the expanded box appears in it.
pub proof fn lemma_box_empties_exact(c: BoardCore)
    requires
        c.wf(),
    ensures
        forall|k: int|
            0 <= k < box_empties(c).len() ==> ({
                let q = #[trigger] box_empties(c)[k];
                box_left(c) <= q.x < box_right(c) && box_up(c) <= q.y < box_down(c) && c.cell(
                    q.x as int,
                    q.y as int,
                ) == BoardValue::Empty
            }),
        forall|x: int, y: int|
            box_left(c) <= x < box_right(c) && box_up(c) <= y < box_down(c) && #[trigger] c.cell(
                x,
                y,
            ) == BoardValue::Empty ==> box_empties(c).contains(
                Move { x: x as usize, y: y as usize },
            ),
{
    lemma_box_rows_bounds(c, box_left(c), box_right(c), box_up(c), box_down(c));
    assert forall|x: int, y: int|
        box_left(c) <= x < box_right(c) && box_up(c) <= y < box_down(c) && #[trigger] c.cell(x, y)
            == BoardValue::Empty implies box_empties(c).contains(
        Move { x: x as usize, y: y as usize },
    ) by {
        lemma_box_rows_complete(c, box_left(c), box_right(c), box_up(c), box_down(c), x, y);
    }
}

/// A board whose expanded bounding box holds no empty cell is completely
/// full: the box then necessarily spans the whole board.
pub proof fn lemma_no_box_empties_full(c: BoardCore)
    requires
        c.wf(),
        box_empties(c).len() == 0,
    ensures
        c.full(),
{
    let left = box_left(c);
    let right = box_right(c);
    let up = box_up(c);
    let down = box_down(c);
    assert forall|x: int, y: int|
        left <= x < right && up <= y < down implies #[trigger] c.cell(x, y)
        != BoardValue::Empty by {
        if c.cell(x, y) == BoardValue::Empty {
            lemma_box_rows_complete(c, left, right, up, down, x, y);
        }
    }
    if c.min_x > 0 {
        assert(c.cell(c.min_x - 1, c.min_y) != BoardValue::Empty);
        assert(false);
    }
    if c.min_y > 0 {
        assert(c.cell(c.min_x, c.min_y - 1) != BoardValue::Empty);
        assert(false);
    }
    if c.max_x < c.width - 1 {
        assert(c.cell(c.max_x + 1, c.min_y) != BoardValue::Empty);
        assert(false);
    }
    if c.max_y < c.height - 1 {
        assert(c.cell(c.min_x, c.max_y + 1) != BoardValue::Empty);
        assert(false);
    }
    assert forall|x: int, y: int|
        0 <= x < c.width && 0 <= y < c.height implies #[trigger] c.cell(x, y)
        != BoardValue::Empty by {
        assert(left <= x < right && up <= y < down);
    }
}

/// On a full board no list of empty cells has a member.
pub proof fn lemma_full_no_moves(c: BoardCore, s: Seq<Move>)
    requires
        forced_list_ok(c, s),
        c.full(),
    ensures
        s.len() == 0,
{
    if s.len() > 0 {
        assert(c.place_legal(s[0]));
        assert(c.cell(s[0].x as int, s[0].y as int) != BoardValue::Empty);
    }
}

/// What `actions` returns: the mover's resolved forced-move list when it
/// is non-empty, else the empty cells of the expanded bounding box.
pub open spec fn spec_actions(b: &Board) -> Seq<Move> {
    if forced_resolved(b, b@.player).len() > 0 {
        forced_resolved(b, b@.player)
    } else {
        box_empties(b@)
    }
}

fn extend_dedup(res: &mut Vec<Move>, u: &Vec<Move>)
    ensures
        final(res)@ == dedup_extend(old(res)@, u@),
{
    let mut j: usize = 0;
    while j < u.len()
        invariant
            j <= u@.len(),
            res@ == dedup_extend(old(res)@, u@.take(j as int)),
        decreases u@.len() - j,
    {
        proof {
            assert(u@.take(j as int + 1).drop_last() =~= u@.take(j as int));
            assert(u@.take(j as int + 1).last() == u@[j as int]);
        }
        let e = u[j];
        if !contains_move(res, e) {
            res.push(e);
        }
        j = j + 1;
    }
    proof {
        assert(u@.take(u@.len() as int) =~= u@);
    }
}

impl Board {
    fn collect_horz(&self, x: usize, y: usize) -> (r: Vec<AreaCell>)
        requires
            self.wf(),
            x < self@.width,
            y < self@.height,
        ensures
            r@ == horz_area(self@, x as int, y as int),
    {
        proof {
            lemma_wf_core(self);
        }
        let w = self.get_width();
        let x0 = if x > 6 {
            x - 6
        } else {
            0
        };
        let x1 = if x + 7 < w {
            x + 7
        } else {
            w
        };
        let mut r: Vec<AreaCell> = Vec::new();
        let mut xx = x0;
        while xx < x1
            invariant
                self.wf(),
                x < self@.width,
                y < self@.height,
                x0 == imax(x as int - 6, 0),
                x1 == imin(x as int + 7, self@.width),
                x0 <= xx <= x1,
                x1 <= self@.width,
                r@.len() == xx - x0,
                forall|t: int|
                    0 <= t < xx - x0 ==> #[trigger] r@[t] == (
                        self@.cell(x0 + t, y as int),
                        (x0 + t) as usize,
                        y as usize,
                    ),
            decreases x1 - xx,
        {
            r.push((self.get_cell(xx, y), xx, y));
            xx = xx + 1;
        }
        proof {
            assert(r@ =~= horz_area(self@, x as int, y as int));
        }
        r
    }

    fn collect_vert(&self, x: usize, y: usize) -> (r: Vec<AreaCell>)
        requires
            self.wf(),
            x < self@.width,
            y < self@.height,
        ensures
            r@ == vert_area(self@, x as int, y as int),
    {
        proof {
            lemma_wf_core(self);
        }
        let h = self.get_height();
        let y0 = if y > 6 {
            y - 6
        } else {
            0
        };
        let y1 = if y + 7 < h {
            y + 7
        } else {
            h
        };
        let mut r: Vec<AreaCell> = Vec::new();
        let mut yy = y0;
        while yy < y1
            invariant
                self.wf(),
                x < self@.width,
                y < self@.height,
                y0 == imax(y as int - 6, 0),
                y1 == imin(y as int + 7, self@.height),
                y0 <= yy <= y1,
                y1 <= self@.height,
                r@.len() == yy - y0,
                forall|t: int|
                    0 <= t < yy - y0 ==> #[trigger] r@[t] == (
                        self@.cell(x as int, y0 + t),
                        x as usize,
                        (y0 + t) as usize,
                    ),
            decreases y1 - yy,
        {
            r.push((self.get_cell(x, yy), x, yy));
            yy = yy + 1;
        }
        proof {
            assert(r@ =~= vert_area(self@, x as int, y as int));
        }
        r
    }

    fn collect_diag1(&self, x: usize, y: usize) -> (r: Vec<AreaCell>)
        requires
            self.wf(),
            x < self@.width,
            y < self@.height,
        ensures
            r@ == diag1_area(self@, x as int, y as int),
    {
        proof {
            lemma_wf_core(self);
        }
        let w = self.get_width();
        let h = self.get_height();
        let mut r: Vec<AreaCell> = Vec::new();
        let mut t: i64 = -6;
        while t <= 6
            invariant
                self.wf(),
                x < self@.width,
                y < self@.height,
                1 <= self@.width <= 16384,
                1 <= self@.height <= 16384,
                w == self@.width,
                h == self@.height,
                -6 <= t <= 7,
                diag1_area(self@, x as int, y as int) == r@ + diag1_area_from(
                    self@,
                    x as int,
                    y as int,
                    t as int,
                ),
            decreases 7 - t,
        {
            let xi = x as i64 + t;
            let yi = y as i64 + t;
            if xi >= 0 && yi >= 0 && xi < w as i64 && yi < h as i64 {
                let xx = xi as usize;
                let yy = yi as usize;
                r.push((self.get_cell(xx, yy), xx, yy));
                proof {
                    assert(diag1_area(self@, x as int, y as int) =~= r@ + diag1_area_from(
                        self@,
                        x as int,
                        y as int,
                        t as int + 1,
                    ));
                }
            } else {
                proof {
                    assert(diag1_area_from(self@, x as int, y as int, t as int)
                        == diag1_area_from(self@, x as int, y as int, t as int + 1));
                }
            }
            t = t + 1;
        }
        proof {
            assert(diag1_area_from(self@, x as int, y as int, 7) =~= Seq::<AreaCell>::empty());
            assert(diag1_area(self@, x as int, y as int) =~= r@);
        }
        r
    }

    fn collect_diag2(&self, x: usize, y: usize) -> (r: Vec<AreaCell>)
        requires
            self.wf(),
            x < self@.width,
            y < self@.height,
        ensures
            r@ == diag2_area(self@, x as int, y as int),
    {
        proof {
            lemma_wf_core(self);
        }
        let w = self.get_width();
        let h = self.get_height();
        let mut r: Vec<AreaCell> = Vec::new();
        let mut t: i64 = -6;
        while t <= 6
            invariant
                self.wf(),
                x < self@.width,
                y < self@.height,
                1 <= self@.width <= 16384,
                1 <= self@.height <= 16384,
                w == self@.width,
                h == self@.height,
                -6 <= t <= 7,
                diag2_area(self@, x as int, y as int) == r@ + diag2_area_from(
                    self@,
                    x as int,
                    y as int,
                    t as int,
                ),
            decreases 7 - t,
        {
            let xi = x as i64 + t;
            let yi = y as i64 - t;
            if xi >= 0 && yi >= 0 && xi < w as i64 && yi < h as i64 {
                let xx = xi as usize;
                let yy = yi as usize;
                r.push((self.get_cell(xx, yy), xx, yy));
                proof {
                    assert(diag2_area(self@, x as int, y as int) =~= r@ + diag2_area_from(
                        self@,
                        x as int,
                        y as int,
                        t as int + 1,
                    ));
                }
            } else {
                proof {
                    assert(diag2_area_from(self@, x as int, y as int, t as int)
                        == diag2_area_from(self@, x as int, y as int, t as int + 1));
                }
            }
            t = t + 1;
        }
        proof {
            assert(diag2_area_from(self@, x as int, y as int, 7) =~= Seq::<AreaCell>::empty());
            assert(diag2_area(self@, x as int, y as int) =~= r@);
        }
        r
    }

    /// The four radius-6 windows (horizontal, vertical, two diagonals)
    /// through `(x, y)`.
    pub(crate) fn get_areas_from_point(&self, x: usize, y: usize) -> (r: (
        Vec<AreaCell>,
        Vec<AreaCell>,
        Vec<AreaCell>,
        Vec<AreaCell>,
    ))
        requires
            self.wf(),
            x < self@.width,
            y < self@.height,
        ensures
            r.0@ == horz_area(self@, x as int, y as int),
            r.1@ == vert_area(self@, x as int, y as int),
            r.2@ == diag1_area(self@, x as int, y as int),
            r.3@ == diag2_area(self@, x as int, y as int),
    {
        (
            self.collect_horz(x, y),
            self.collect_vert(x, y),
            self.collect_diag1(x, y),
            self.collect_diag2(x, y),
        )
    }

    /// Resolve the forced-move caches and return the mover's list: reuse
    /// the cached list when one is stored; otherwise evaluate every shape
    /// on the four windows through the last placement for both colors and
    /// cache the union (empty lists when no last placement is recorded).
    pub fn calculate_forced(&mut self) -> (r: Vec<Move>)
        requires
            old(self).wf(),
        ensures
            final(self).wf(),
            final(self)@ == old(self)@,
            final(self).result_cache() == old(self).result_cache(),
            final(self).forced_cache(Player::X) == Some(forced_resolved(old(self), Player::X)),
            final(self).forced_cache(Player::O) == Some(forced_resolved(old(self), Player::O)),
            r@ == forced_resolved(old(self), old(self)@.player),
            no_dups(r@),
    {
        proof {
            lemma_wf_core(self);
            lemma_wf_cache_ok(self, Player::X);
            lemma_wf_cache_ok(self, Player::O);
        }
        let mover = self.get_player();
        let cached = match self.cached_forced(mover) {
            Some(fa) => Some(copy_moves(fa)),
            None => None,
        };
        match cached {
            Some(fa) => {
                return fa;
            },
            None => {},
        }
        let m = match self.get_last_placement() {
            Some(m) => m,
            None => {
                self.set_forced_caches(Vec::new(), Vec::new());
                return Vec::new();
            },
        };
        let ghost c = self@;
        let areas = self.get_areas_from_point(m.x, m.y);
        let mut xf: Vec<Move> = Vec::new();
        let mut of: Vec<Move> = Vec::new();
        proof {
            lemma_horz_area_ok(c, m.x as int, m.y as int);
            lemma_vert_area_ok(c, m.x as int, m.y as int);
            lemma_diag1_area_ok(c, m.x as int, m.y as int, -6);
            lemma_diag2_area_ok(c, m.x as int, m.y as int, -6);
            lemma_area_forced_ok(c, areas.0@, BoardValue::X);
            lemma_area_forced_ok(c, areas.1@, BoardValue::X);
            lemma_area_forced_ok(c, areas.2@, BoardValue::X);
            lemma_area_forced_ok(c, areas.3@, BoardValue::X);
            lemma_area_forced_ok(c, areas.0@, BoardValue::O);
            lemma_area_forced_ok(c, areas.1@, BoardValue::O);
            lemma_area_forced_ok(c, areas.2@, BoardValue::O);
            lemma_area_forced_ok(c, areas.3@, BoardValue::O);
        }
        let gx0 = crate::patterns::get_forced(&areas.0, &BoardValue::X);
        proof {
            lemma_dedup_ok(c, xf@, gx0.0@);
            lemma_dedup_ok(c, of@, gx0.1@);
            lemma_dedup_no_dups(xf@, gx0.0@);
            lemma_dedup_no_dups(of@, gx0.1@);
        }
        extend_dedup(&mut xf, &gx0.0);
        extend_dedup(&mut of, &gx0.1);
        let gx1 = crate::patterns::get_forced(&areas.1, &BoardValue::X);
        proof {
            lemma_dedup_ok(c, xf@, gx1.0@);
            lemma_dedup_ok(c, of@, gx1.1@);
            lemma_dedup_no_dups(xf@, gx1.0@);
            lemma_dedup_no_dups(of@, gx1.1@);
        }
        extend_dedup(&mut xf, &gx1.0);
        extend_dedup(&mut of, &gx1.1);
        let gx2 = crate::patterns::get_forced(&areas.2, &BoardValue::X);
        proof {
            lemma_dedup_ok(c, xf@, gx2.0@);
            lemma_dedup_ok(c, of@, gx2.1@);
            lemma_dedup_no_dups(xf@, gx2.0@);
            lemma_dedup_no_dups(of@, gx2.1@);
        }
        extend_dedup(&mut xf, &gx2.0);
        extend_dedup(&mut of, &gx2.1);
        let gx3 = crate::patterns::get_forced(&areas.3, &BoardValue::X);
        proof {
            lemma_dedup_ok(c, xf@, gx3.0@);
            lemma_dedup_ok(c, of@, gx3.1@);
            lemma_dedup_no_dups(xf@, gx3.0@);
            lemma_dedup_no_dups(of@, gx3.1@);
        }
        extend_dedup(&mut xf, &gx3.0);
        extend_dedup(&mut of, &gx3.1);
        let go0 = crate::patterns::get_forced(&areas.0, &BoardValue::O);
        proof {
            lemma_dedup_ok(c, xf@, go0.1@);
            lemma_dedup_ok(c, of@, go0.0@);
            lemma_dedup_no_dups(xf@, go0.1@);
            lemma_dedup_no_dups(of@, go0.0@);
        }
        extend_dedup(&mut xf, &go0.1);
        extend_dedup(&mut of, &go0.0);
        let go1 = crate::patterns::get_forced(&areas.1, &BoardValue::O);
        proof {
            lemma_dedup_ok(c, xf@, go1.1@);
            lemma_dedup_ok(c, of@, go1.0@);
            lemma_dedup_no_dups(xf@, go1.1@);
            lemma_dedup_no_dups(of@, go1.0@);
        }
        extend_dedup(&mut xf, &go1.1);
        extend_dedup(&mut of, &go1.0);
        let go2 = crate::patterns::get_forced(&areas.2, &BoardValue::O);
        proof {
            lemma_dedup_ok(c, xf@, go2.1@);
            lemma_dedup_ok(c, of@, go2.0@);
            lemma_dedup_no_dups(xf@, go2.1@);
            lemma_dedup_no_dups(of@, go2.0@);
        }
        extend_dedup(&mut xf, &go2.1);
        extend_dedup(&mut of, &go2.0);
        let go3 = crate::patterns::get_forced(&areas.3, &BoardValue::O);
        proof {
            lemma_dedup_ok(c, xf@, go3.1@);
            lemma_dedup_ok(c, of@, go3.0@);
            lemma_dedup_no_dups(xf@, go3.1@);
            lemma_dedup_no_dups(of@, go3.0@);
        }
        extend_dedup(&mut xf, &go3.1);
        extend_dedup(&mut of, &go3.0);
        proof {
            assert(xf@ == computed_forced_pair(c).0);
            assert(of@ == computed_forced_pair(c).1);
        }
        let r = match mover {
            Player::X => copy_moves(&xf),
            Player::O => copy_moves(&of),
        };
        self.set_forced_caches(xf, of);
        r
    }

    /// The candidate moves of the mover: exactly the resolved forced-move
    /// list when it is non-empty, else every empty cell inside the
    /// bounding box expanded by one cell in each direction.
    pub fn actions(&mut self) -> (r: Vec<Move>)
        requires
            old(self).wf(),
        ensures
            final(self).wf(),
            final(self)@ == old(self)@,
            final(self).result_cache() == old(self).result_cache(),
            final(self).forced_cache(Player::X) == Some(forced_resolved(old(self), Player::X)),
            final(self).forced_cache(Player::O) == Some(forced_resolved(old(self), Player::O)),
            forced_list_ok(final(self)@, r@),
            no_dups(r@),
            r@ == spec_actions(old(self)),
    {
        let mover = self.get_player();
        let forced = self.calculate_forced();
        if forced.len() > 0 {
            proof {
                lemma_wf_cache_ok(self, mover);
            }
            return forced;
        }
        proof {
            lemma_wf_core(self);
        }
        let b = self.get_bounds();
        let w = self.get_width();
        let h = self.get_height();
        let left = if b.0 > 0 {
            b.0 - 1
        } else {
            0
        };
        let up = if b.1 > 0 {
            b.1 - 1
        } else {
            0
        };
        let right = if b.2 + 2 < w {
            b.2 + 2
        } else {
            w
        };
        let down = if b.3 + 2 < h {
            b.3 + 2
        } else {
            h
        };
        proof {
            assert(left <= right && up <= down);
        }
        let mut res: Vec<Move> = Vec::new();
        let mut y = up;
        while y < down
            invariant
                self.wf(),
                left == box_left(self@),
                up == box_up(self@),
                right == box_right(self@),
                down == box_down(self@),
                up <= y <= down,
                left <= right,
                right <= self@.width,
                down <= self@.height,
                0 <= left,
                box_empties(self@) == res@ + box_empties_rows(self@, left as int, right as int, y as int, down as int),
            decreases down - y,
        {
            proof {
                assert(res@ + box_empties_row(self@, left as int, right as int, y as int)
                    + box_empties_rows(self@, left as int, right as int, y as int + 1, down as int)
                    =~= res@ + box_empties_rows(self@, left as int, right as int, y as int, down as int));
            }
            let mut x = left;
            while x < right
                invariant
                    self.wf(),
                    left == box_left(self@),
                    up == box_up(self@),
                    right == box_right(self@),
                    down == box_down(self@),
                    up <= y < down,
                    left <= x <= right,
                    left <= right,
                    right <= self@.width,
                    down <= self@.height,
                    box_empties(self@) == res@ + box_empties_row(self@, x as int, right as int, y as int) + box_empties_rows(self@, left as int, right as int, y as int + 1, down as int),
                decreases right - x,
            {
                if self.get_cell(x, y) == BoardValue::Empty {
                    res.push(Move { x, y });
                }
                proof {
                    assert(box_empties(self@) =~= res@ + box_empties_row(self@, x as int + 1, right as int, y as int) + box_empties_rows(self@, left as int, right as int, y as int + 1, down as int));
                }
                x = x + 1;
            }
            proof {
                assert(box_empties(self@) =~= res@ + box_empties_rows(self@, left as int, right as int, y as int + 1, down as int));
            }
            y = y + 1;
        }
        proof {
            assert(res@ =~= box_empties(self@));
            lemma_box_empties_legal(self@);
            lemma_box_empties_no_dups(self@);
        }
        res
    }

    /// After resolving the caches: do both players simultaneously have a
    /// non-empty forced-move set?
    pub fn are_there_threats(&mut self) -> (r: bool)
        requires
            old(self).wf(),
        ensures
            final(self).wf(),
            final(self)@ == old(self)@,
            final(self).result_cache() == old(self).result_cache(),
            final(self).forced_cache(Player::X) == Some(forced_resolved(old(self), Player::X)),
            final(self).forced_cache(Player::O) == Some(forced_resolved(old(self), Player::O)),
            r == (forced_resolved(old(self), Player::X).len() > 0 && forced_resolved(
                old(self),
                Player::O,
            ).len() > 0),
    {
        let _mover_forced = self.calculate_forced();
        let x_nonempty = match self.cached_forced(Player::X) {
            Some(v) => v.len() > 0,
            None => {
                proof {
                    assert(false);
                }
                false
            },
        };
        let o_nonempty = match self.cached_forced(Player::O) {
            Some(v) => v.len() > 0,
            None => {
                proof {
                    assert(false);
                }
                false
            },
        };
        x_nonempty && o_nonempty
    }
}

} // verus!
