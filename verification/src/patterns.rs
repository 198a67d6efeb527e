//! Tactical pattern matching: recognizing threat shapes along a line of
//! cells and extracting the attacker-forced and defender-forced moves.

use vstd::prelude::*;
use crate::board::{BoardValue, Move};

verus! {

/// One cell of an extracted line window: its value and its board coordinates.
pub type AreaCell = (BoardValue, usize, usize);

pub open spec fn mv(c: AreaCell) -> Move {
    Move { x: c.1, y: c.2 }
}

/// The open-three shape: three in a row with both flanking cells empty.
/// Both flanks are defender-forced; the interior extension cell is
/// attacker-forced.
pub open spec fn three_targets() -> Seq<bool> {
    seq![false, false, true, true, true, false, false, false]
}

pub open spec fn three_def() -> Seq<bool> {
    seq![true, true, false, false, false, true, true, false]
}

pub open spec fn three_atk() -> Seq<bool> {
    seq![false, false, false, false, false, true, false, false]
}

/// A four with one open end: the open end is both attacker- and
/// defender-forced.
pub open spec fn four1_targets() -> Seq<bool> {
    seq![false, false, true, true, true, true]
}

pub open spec fn four1_def() -> Seq<bool> {
    seq![true, true, false, false, false, false]
}

pub open spec fn four1_atk() -> Seq<bool> {
    seq![false, true, false, false, false, false]
}

/// A four with both ends open.
pub open spec fn four5_targets() -> Seq<bool> {
    seq![false, true, true, true, true, false]
}

pub open spec fn four5_def() -> Seq<bool> {
    seq![true, false, false, false, false, true]
}

pub open spec fn four5_atk() -> Seq<bool> {
    seq![true, false, false, false, false, true]
}

/// The window of `targets.len()` cells at offset `i` matches the template
/// read forward: it fits inside the area, holds no opposing stone, and its
/// target-stone positions are exactly the template's.
pub open spec fn pat_match_fwd(
    area: Seq<AreaCell>,
    i: int,
    targets: Seq<bool>,
    target: BoardValue,
) -> bool {
    let opp = target.spec_opposite()->Some_0;
    &&& 0 <= i
    &&& i + targets.len() <= area.len()
    &&& forall|j: int| 0 <= j < targets.len() ==> (#[trigger] area[i + j]).0 != opp
    &&& forall|j: int|
        0 <= j < targets.len() ==> (((#[trigger] area[i + j]).0 == target) <==> targets[j])
}

/// The same window matches the template read in reverse scan direction.
pub open spec fn pat_match_rev(
    area: Seq<AreaCell>,
    i: int,
    targets: Seq<bool>,
    target: BoardValue,
) -> bool {
    let opp = target.spec_opposite()->Some_0;
    &&& 0 <= i
    &&& i + targets.len() <= area.len()
    &&& forall|j: int| 0 <= j < targets.len() ==> (#[trigger] area[i + j]).0 != opp
    &&& forall|j: int|
        0 <= j < targets.len() ==> (((#[trigger] area[i + targets.len() - 1 - j]).0 == target)
            <==> targets[j])
}

/// The moves at the flagged template positions, template read forward.
pub open spec fn collect_fwd(area: Seq<AreaCell>, i: int, flags: Seq<bool>) -> Seq<Move>
    decreases flags.len(),
{
    if flags.len() == 0 {
        Seq::empty()
    } else {
        collect_fwd(area, i, flags.drop_last()) + (if flags.last() {
            seq![mv(area[i + flags.len() - 1])]
        } else {
            Seq::<Move>::empty()
        })
    }
}

/// The moves at the flagged template positions, template read reversed over
/// a window of length `len`.
pub open spec fn collect_rev(area: Seq<AreaCell>, i: int, len: int, flags: Seq<bool>) -> Seq<Move>
    decreases flags.len(),
{
    if flags.len() == 0 {
        Seq::empty()
    } else {
        collect_rev(area, i, len, flags.drop_last()) + (if flags.last() {
            seq![mv(area[i + len - 1 - (flags.len() - 1)])]
        } else {
            Seq::<Move>::empty()
        })
    }
}

/// The (attacker, defender) forced moves of the first shape that matches at
/// offset `i`, shapes tried in order: open three, one-ended four, two-ended
/// four, each forward then reversed.
pub open spec fn first_match_at(area: Seq<AreaCell>, target: BoardValue, i: int) -> Option<
    (Seq<Move>, Seq<Move>),
> {
    if pat_match_fwd(area, i, three_targets(), target) {
        Some((collect_fwd(area, i, three_atk()), collect_fwd(area, i, three_def())))
    } else if pat_match_rev(area, i, three_targets(), target) {
        Some((collect_rev(area, i, 8, three_atk()), collect_rev(area, i, 8, three_def())))
    } else if pat_match_fwd(area, i, four1_targets(), target) {
        Some((collect_fwd(area, i, four1_atk()), collect_fwd(area, i, four1_def())))
    } else if pat_match_rev(area, i, four1_targets(), target) {
        Some((collect_rev(area, i, 6, four1_atk()), collect_rev(area, i, 6, four1_def())))
    } else if pat_match_fwd(area, i, four5_targets(), target) {
        Some((collect_fwd(area, i, four5_atk()), collect_fwd(area, i, four5_def())))
    } else if pat_match_rev(area, i, four5_targets(), target) {
        Some((collect_rev(area, i, 6, four5_atk()), collect_rev(area, i, 6, four5_def())))
    } else {
        None
    }
}

/// Scan offsets from `i` upward; the first matching offset determines the
/// result.
pub open spec fn forced_from(area: Seq<AreaCell>, target: BoardValue, i: nat) -> (
    Seq<Move>,
    Seq<Move>,
)
    decreases area.len() - i,
{
    if i >= area.len() {
        (Seq::<Move>::empty(), Seq::<Move>::empty())
    } else {
        match first_match_at(area, target, i as int) {
            Some(r) => r,
            None => forced_from(area, target, i + 1),
        }
    }
}

/// What `get_forced` returns: the forced moves of the first matching shape
/// over the whole window, or two empty lists.
pub open spec fn spec_get_forced(area: Seq<AreaCell>, target: BoardValue) -> (Seq<Move>, Seq<Move>) {
    forced_from(area, target, 0)
}

/// The move `q` names an empty cell of the window, by its recorded
/// coordinates.
pub open spec fn move_on_empty_cell(area: Seq<AreaCell>, q: Move) -> bool {
    exists|p: int|
        0 <= p < area.len() && (#[trigger] area[p]).0 == BoardValue::Empty && q == mv(area[p])
}

/// Every move in `s` names an empty cell of the window.
pub open spec fn all_on_empty_cells(area: Seq<AreaCell>, s: Seq<Move>) -> bool {
    forall|k: int| 0 <= k < s.len() ==> move_on_empty_cell(area, #[trigger] s[k])
}

proof fn lemma_collect_fwd_empty(
    area: Seq<AreaCell>,
    i: int,
    flags: Seq<bool>,
    targets: Seq<bool>,
    target: BoardValue,
)
    requires
        target != BoardValue::Empty,
        pat_match_fwd(area, i, targets, target),
        flags.len() <= targets.len(),
        forall|j: int| 0 <= j < flags.len() ==> (#[trigger] flags[j] ==> !targets[j]),
    ensures
        all_on_empty_cells(area, collect_fwd(area, i, flags)),
    decreases flags.len(),
{
    if flags.len() > 0 {
        lemma_collect_fwd_empty(area, i, flags.drop_last(), targets, target);
        let s = collect_fwd(area, i, flags);
        let s0 = collect_fwd(area, i, flags.drop_last());
        if flags.last() {
            let p = i + flags.len() - 1;
            assert(!targets[flags.len() - 1]);
            assert(area[i + (flags.len() - 1)].0 != target);
            assert(area[i + (flags.len() - 1)].0 != target.spec_opposite()->Some_0);
            assert(area[p].0 == BoardValue::Empty);
            assert forall|k: int| 0 <= k < s.len() implies move_on_empty_cell(
                area,
                #[trigger] s[k],
            ) by {
                if k < s0.len() {
                    assert(s[k] == s0[k]);
                } else {
                    assert(s[k] == mv(area[p]));
                }
            }
        } else {
            assert(s =~= s0);
        }
    }
}

proof fn lemma_collect_rev_empty(
    area: Seq<AreaCell>,
    i: int,
    flags: Seq<bool>,
    targets: Seq<bool>,
    target: BoardValue,
)
    requires
        target != BoardValue::Empty,
        pat_match_rev(area, i, targets, target),
        flags.len() <= targets.len(),
        forall|j: int| 0 <= j < flags.len() ==> (#[trigger] flags[j] ==> !targets[j]),
    ensures
        all_on_empty_cells(area, collect_rev(area, i, targets.len() as int, flags)),
    decreases flags.len(),
{
    if flags.len() > 0 {
        lemma_collect_rev_empty(area, i, flags.drop_last(), targets, target);
        let s = collect_rev(area, i, targets.len() as int, flags);
        let s0 = collect_rev(area, i, targets.len() as int, flags.drop_last());
        if flags.last() {
            let j = flags.len() - 1;
            let p = i + targets.len() - 1 - j;
            assert(!targets[j]);
            assert(area[i + targets.len() - 1 - j].0 != target);
            assert(area[i + j].0 != target.spec_opposite()->Some_0);
            assert(area[i + targets.len() - 1 - j].0 != target.spec_opposite()->Some_0) by {
                let jj = targets.len() - 1 - j;
                assert(area[i + jj].0 != target.spec_opposite()->Some_0);
            }
            assert(area[p].0 == BoardValue::Empty);
            assert forall|k: int| 0 <= k < s.len() implies move_on_empty_cell(
                area,
                #[trigger] s[k],
            ) by {
                if k < s0.len() {
                    assert(s[k] == s0[k]);
                } else {
                    assert(s[k] == mv(area[p]));
                }
            }
        } else {
            assert(s =~= s0);
        }
    }
}

/// In every active shape, a forced position never demands a target stone.
proof fn lemma_active_flags()
    ensures
        forall|j: int| 0 <= j < 8 ==> (#[trigger] three_atk()[j] ==> !three_targets()[j]),
        forall|j: int| 0 <= j < 8 ==> (#[trigger] three_def()[j] ==> !three_targets()[j]),
        forall|j: int| 0 <= j < 6 ==> (#[trigger] four1_atk()[j] ==> !four1_targets()[j]),
        forall|j: int| 0 <= j < 6 ==> (#[trigger] four1_def()[j] ==> !four1_targets()[j]),
        forall|j: int| 0 <= j < 6 ==> (#[trigger] four5_atk()[j] ==> !four5_targets()[j]),
        forall|j: int| 0 <= j < 6 ==> (#[trigger] four5_def()[j] ==> !four5_targets()[j]),
{
}

/// Every move that `get_forced` reports lies on an empty cell of the
/// window.
pub proof fn lemma_forced_from_empty(area: Seq<AreaCell>, target: BoardValue, i: nat)
    requires
        target != BoardValue::Empty,
    ensures
        all_on_empty_cells(area, forced_from(area, target, i).0),
        all_on_empty_cells(area, forced_from(area, target, i).1),
    decreases area.len() - i,
{
    if i < area.len() {
        lemma_active_flags();
        let ii = i as int;
        if pat_match_fwd(area, ii, three_targets(), target) {
            lemma_collect_fwd_empty(area, ii, three_atk(), three_targets(), target);
            lemma_collect_fwd_empty(area, ii, three_def(), three_targets(), target);
            assert(forced_from(area, target, i) == (collect_fwd(area, ii, three_atk()), collect_fwd(area, ii, three_def())));
        } else if pat_match_rev(area, ii, three_targets(), target) {
            lemma_collect_rev_empty(area, ii, three_atk(), three_targets(), target);
            lemma_collect_rev_empty(area, ii, three_def(), three_targets(), target);
            assert(three_targets().len() == 8);
            assert(forced_from(area, target, i) == (collect_rev(area, ii, 8, three_atk()), collect_rev(area, ii, 8, three_def())));
        } else if pat_match_fwd(area, ii, four1_targets(), target) {
            lemma_collect_fwd_empty(area, ii, four1_atk(), four1_targets(), target);
            lemma_collect_fwd_empty(area, ii, four1_def(), four1_targets(), target);
            assert(forced_from(area, target, i) == (collect_fwd(area, ii, four1_atk()), collect_fwd(area, ii, four1_def())));
        } else if pat_match_rev(area, ii, four1_targets(), target) {
            lemma_collect_rev_empty(area, ii, four1_atk(), four1_targets(), target);
            lemma_collect_rev_empty(area, ii, four1_def(), four1_targets(), target);
            assert(four1_targets().len() == 6);
            assert(forced_from(area, target, i) == (collect_rev(area, ii, 6, four1_atk()), collect_rev(area, ii, 6, four1_def())));
        } else if pat_match_fwd(area, ii, four5_targets(), target) {
            lemma_collect_fwd_empty(area, ii, four5_atk(), four5_targets(), target);
            lemma_collect_fwd_empty(area, ii, four5_def(), four5_targets(), target);
            assert(forced_from(area, target, i) == (collect_fwd(area, ii, four5_atk()), collect_fwd(area, ii, four5_def())));
        } else if pat_match_rev(area, ii, four5_targets(), target) {
            lemma_collect_rev_empty(area, ii, four5_atk(), four5_targets(), target);
            lemma_collect_rev_empty(area, ii, four5_def(), four5_targets(), target);
            assert(four5_targets().len() == 6);
            assert(forced_from(area, target, i) == (collect_rev(area, ii, 6, four5_atk()), collect_rev(area, ii, 6, four5_def())));
        } else {
            lemma_forced_from_empty(area, target, i + 1);
        }
    }
}

/// A fixed-length threat template: which window positions must hold the
/// target color, and which positions are attacker- or defender-forced when
/// the template matches.
pub struct BoardPattern {
    pub targets: Vec<bool>,
    pub def_forced: Vec<bool>,
    pub atk_forced: Vec<bool>,
}

impl BoardPattern {
    pub open spec fn wf(&self) -> bool {
        self.def_forced@.len() == self.targets@.len() && self.atk_forced@.len()
            == self.targets@.len()
    }

    /// The per-position (attacker-forced, defender-forced) flag pairs.
    pub fn iter_forced(&self) -> (r: Vec<(bool, bool)>)
        requires
            self.wf(),
        ensures
            r@.len() == self.targets@.len(),
            forall|j: int|
                0 <= j < r@.len() ==> r@[j] == (self.atk_forced@[j], self.def_forced@[j]),
    {
        let mut r: Vec<(bool, bool)> = Vec::new();
        let mut j: usize = 0;
        while j < self.targets.len()
            invariant
                self.wf(),
                j <= self.targets@.len(),
                r@.len() == j,
                forall|k: int|
                    0 <= k < j ==> r@[k] == (self.atk_forced@[k], self.def_forced@[k]),
            decreases self.targets@.len() - j,
        {
            r.push((self.atk_forced[j], self.def_forced[j]));
            j = j + 1;
        }
        r
    }

    /// The open-three template.
    pub fn three_pattern() -> (p: BoardPattern)
        ensures
            p.wf(),
            p.targets@ == three_targets(),
            p.def_forced@ == three_def(),
            p.atk_forced@ == three_atk(),
    {
        let p = BoardPattern {
            targets: vec![false, false, true, true, true, false, false, false],
            def_forced: vec![true, true, false, false, false, true, true, false],
            atk_forced: vec![false, false, false, false, false, true, false, false],
        };
        proof {
            assert(p.targets@ =~= three_targets());
            assert(p.def_forced@ =~= three_def());
            assert(p.atk_forced@ =~= three_atk());
        }
        p
    }

    /// The one-ended four template.
    pub fn four_pattern1() -> (p: BoardPattern)
        ensures
            p.wf(),
            p.targets@ == four1_targets(),
            p.def_forced@ == four1_def(),
            p.atk_forced@ == four1_atk(),
    {
        let p = BoardPattern {
            targets: vec![false, false, true, true, true, true],
            def_forced: vec![true, true, false, false, false, false],
            atk_forced: vec![false, true, false, false, false, false],
        };
        proof {
            assert(p.targets@ =~= four1_targets());
            assert(p.def_forced@ =~= four1_def());
            assert(p.atk_forced@ =~= four1_atk());
        }
        p
    }

    /// A broken four: defined but not among the active shapes.
    pub fn four_pattern2() -> (p: BoardPattern)
        ensures
            p.wf(),
    {
        BoardPattern {
            targets: vec![false, true, false, true, true, true],
            def_forced: vec![true, false, true, false, false, false],
            atk_forced: vec![false, false, true, false, false, false],
        }
    }

    /// A broken four: defined but not among the active shapes.
    pub fn four_pattern3() -> (p: BoardPattern)
        ensures
            p.wf(),
    {
        BoardPattern {
            targets: vec![false, true, true, false, true, true],
            def_forced: vec![true, false, false, true, false, false],
            atk_forced: vec![false, false, false, true, false, false],
        }
    }

    /// A broken four: defined but not among the active shapes.
    pub fn four_pattern4() -> (p: BoardPattern)
        ensures
            p.wf(),
    {
        BoardPattern {
            targets: vec![false, true, true, true, false, true],
            def_forced: vec![true, false, false, false, true, false],
            atk_forced: vec![false, false, false, false, true, false],
        }
    }

    /// The two-ended four template.
    pub fn four_pattern5() -> (p: BoardPattern)
        ensures
            p.wf(),
            p.targets@ == four5_targets(),
            p.def_forced@ == four5_def(),
            p.atk_forced@ == four5_atk(),
    {
        let p = BoardPattern {
            targets: vec![false, true, true, true, true, false],
            def_forced: vec![true, false, false, false, false, true],
            atk_forced: vec![true, false, false, false, false, true],
        };
        proof {
            assert(p.targets@ =~= four5_targets());
            assert(p.def_forced@ =~= four5_def());
            assert(p.atk_forced@ =~= four5_atk());
        }
        p
    }
}

/// Whether the window at offset `i` matches `pat`, read forward or reversed.
fn match_window(
    area: &Vec<AreaCell>,
    target: BoardValue,
    i: usize,
    pat: &BoardPattern,
    rev: bool,
) -> (b: bool)
    requires
        target != BoardValue::Empty,
        pat.wf(),
        i <= area@.len(),
    ensures
        b == (if rev {
            pat_match_rev(area@, i as int, pat.targets@, target)
        } else {
            pat_match_fwd(area@, i as int, pat.targets@, target)
        }),
{
    let alen = area.len();
    let len = pat.targets.len();
    if len > alen - i {
        return false;
    }
    proof {
        assert(i + len <= alen);
    }
    let opp = match target.opposite() {
        Some(o) => o,
        None => {
            proof {
                assert(false);
            }
            BoardValue::Empty
        },
    };
    let mut j: usize = 0;
    while j < len
        invariant
            target != BoardValue::Empty,
            pat.wf(),
            len == pat.targets@.len(),
            i + len <= alen,
            alen == area@.len(),
            opp == target.spec_opposite()->Some_0,
            j <= len,
            !rev ==> forall|jj: int| 0 <= jj < j ==> (#[trigger] area@[i + jj]).0 != opp,
            rev ==> forall|jj: int| 0 <= jj < j ==> (#[trigger] area@[i + len - 1 - jj]).0 != opp,
            !rev ==> forall|jj: int|
                0 <= jj < j ==> (((#[trigger] area@[i + jj]).0 == target) <==> pat.targets@[jj]),
            rev ==> forall|jj: int|
                0 <= jj < j ==> (((#[trigger] area@[i + len - 1 - jj]).0 == target)
                    <==> pat.targets@[jj]),
        decreases len - j,
    {
        let pos = if rev {
            i + len - 1 - j
        } else {
            i + j
        };
        let c = area[pos];
        if c.0 == opp {
            proof {
                let jj: int = if rev {
                    len - 1 - j
                } else {
                    j as int
                };
                assert(area@[i + jj].0 == opp);
            }
            return false;
        }
        if !((c.0 == target) == pat.targets[j]) {
            return false;
        }
        j = j + 1;
    }
    proof {
        if rev {
            assert forall|jj: int| 0 <= jj < len implies (#[trigger] area@[i + jj]).0 != opp by {
                assert(area@[i + len - 1 - (len - 1 - jj)].0 != opp);
            }
        }
    }
    true
}

/// The forced-move pairs collected from a matched window.
fn collect_window(area: &Vec<AreaCell>, i: usize, pat: &BoardPattern, rev: bool) -> (r: (
    Vec<Move>,
    Vec<Move>,
))
    requires
        pat.wf(),
        i + pat.targets@.len() <= area@.len(),
    ensures
        r.0@ == (if rev {
            collect_rev(area@, i as int, pat.targets@.len() as int, pat.atk_forced@)
        } else {
            collect_fwd(area@, i as int, pat.atk_forced@)
        }),
        r.1@ == (if rev {
            collect_rev(area@, i as int, pat.targets@.len() as int, pat.def_forced@)
        } else {
            collect_fwd(area@, i as int, pat.def_forced@)
        }),
{
    let alen = area.len();
    let len = pat.targets.len();
    proof {
        assert(i + len <= alen);
    }
    let mut atk: Vec<Move> = Vec::new();
    let mut def: Vec<Move> = Vec::new();
    let mut j: usize = 0;
    while j < len
        invariant
            pat.wf(),
            len == pat.targets@.len(),
            i + len <= alen,
            alen == area@.len(),
            j <= len,
            atk@ == (if rev {
                collect_rev(area@, i as int, len as int, pat.atk_forced@.take(j as int))
            } else {
                collect_fwd(area@, i as int, pat.atk_forced@.take(j as int))
            }),
            def@ == (if rev {
                collect_rev(area@, i as int, len as int, pat.def_forced@.take(j as int))
            } else {
                collect_fwd(area@, i as int, pat.def_forced@.take(j as int))
            }),
        decreases len - j,
    {
        let pos = if rev {
            i + len - 1 - j
        } else {
            i + j
        };
        let c = area[pos];
        proof {
            assert(pat.atk_forced@.take(j as int + 1).drop_last() =~= pat.atk_forced@.take(
                j as int,
            ));
            assert(pat.def_forced@.take(j as int + 1).drop_last() =~= pat.def_forced@.take(
                j as int,
            ));
        }
        if pat.atk_forced[j] {
            atk.push(Move { x: c.1, y: c.2 });
        }
        if pat.def_forced[j] {
            def.push(Move { x: c.1, y: c.2 });
        }
        proof {
            assert(atk@ =~= (if rev {
                collect_rev(area@, i as int, len as int, pat.atk_forced@.take(j as int + 1))
            } else {
                collect_fwd(area@, i as int, pat.atk_forced@.take(j as int + 1))
            }));
            assert(def@ =~= (if rev {
                collect_rev(area@, i as int, len as int, pat.def_forced@.take(j as int + 1))
            } else {
                collect_fwd(area@, i as int, pat.def_forced@.take(j as int + 1))
            }));
        }
        j = j + 1;
    }
    proof {
        assert(pat.atk_forced@.take(len as int) =~= pat.atk_forced@);
        assert(pat.def_forced@.take(len as int) =~= pat.def_forced@);
    }
    (atk, def)
}

/// The first shape matching at offset `i`, with its collected forced
/// moves, or nothing.
fn try_offset(
    area: &Vec<AreaCell>,
    target: BoardValue,
    i: usize,
    three: &BoardPattern,
    four1: &BoardPattern,
    four5: &BoardPattern,
) -> (r: Option<(Vec<Move>, Vec<Move>)>)
    requires
        target != BoardValue::Empty,
        i <= area@.len(),
        three.wf() && three.targets@ == three_targets() && three.def_forced@ == three_def()
            && three.atk_forced@ == three_atk(),
        four1.wf() && four1.targets@ == four1_targets() && four1.def_forced@ == four1_def()
            && four1.atk_forced@ == four1_atk(),
        four5.wf() && four5.targets@ == four5_targets() && four5.def_forced@ == four5_def()
            && four5.atk_forced@ == four5_atk(),
    ensures
        match r {
            Some(p) => first_match_at(area@, target, i as int) == Some((p.0@, p.1@)),
            None => first_match_at(area@, target, i as int) is None,
        },
{
    if match_window(area, target, i, three, false) {
        return Some(collect_window(area, i, three, false));
    }
    if match_window(area, target, i, three, true) {
        return Some(collect_window(area, i, three, true));
    }
    if match_window(area, target, i, four1, false) {
        return Some(collect_window(area, i, four1, false));
    }
    if match_window(area, target, i, four1, true) {
        return Some(collect_window(area, i, four1, true));
    }
    if match_window(area, target, i, four5, false) {
        return Some(collect_window(area, i, four5, false));
    }
    if match_window(area, target, i, four5, true) {
        return Some(collect_window(area, i, four5, true));
    }
    None
}

/// Given a window of cells along one line and a target color, the moves
/// that continue the target's first matching threat shape (attacker-forced)
/// and those that block it (defender-forced). An opposing stone anywhere in
/// a window invalidates that shape; each shape is tried read forward and
/// reversed; the first match decides.
pub fn get_forced(area: &Vec<AreaCell>, target_value: &BoardValue) -> (r: (Vec<Move>, Vec<Move>))
    requires
        *target_value != BoardValue::Empty,
    ensures
        r.0@ == spec_get_forced(area@, *target_value).0,
        r.1@ == spec_get_forced(area@, *target_value).1,
{
    let three = BoardPattern::three_pattern();
    let four1 = BoardPattern::four_pattern1();
    let four5 = BoardPattern::four_pattern5();
    let tv = *target_value;
    let mut i: usize = 0;
    while i < area.len()
        invariant
            tv != BoardValue::Empty,
            tv == *target_value,
            three.wf() && three.targets@ == three_targets() && three.def_forced@ == three_def()
                && three.atk_forced@ == three_atk(),
            four1.wf() && four1.targets@ == four1_targets() && four1.def_forced@ == four1_def()
                && four1.atk_forced@ == four1_atk(),
            four5.wf() && four5.targets@ == four5_targets() && four5.def_forced@ == four5_def()
                && four5.atk_forced@ == four5_atk(),
            i <= area@.len(),
            forced_from(area@, tv, 0) == forced_from(area@, tv, i as nat),
        decreases area@.len() - i,
    {
        match self::try_offset(area, tv, i, &three, &four1, &four5) {
            Some(p) => {
                proof {
                    assert(forced_from(area@, tv, i as nat) == (p.0@, p.1@));
                }
                return p;
            },
            None => {},
        }
        proof {
            assert(forced_from(area@, tv, i as nat) == forced_from(area@, tv, (i + 1) as nat));
        }
        i = i + 1;
    }
    (Vec::new(), Vec::new())
}

} // verus!
