//! The Monte-Carlo tree search engine: an index-addressed arena of search
//! nodes, UCB1-style selection in fixed-point arithmetic, single-level
//! expansion, batched random playouts, backpropagation, and tree reuse
//! across turns.

use vstd::prelude::*;
use crate::board::{Board, BoardCore, GameResult, Move, Player, UTIL_HALF, UTIL_ONE};
use crate::random::{rng_below, rng_bool, rng_new, rng_with_seed};
use crate::threats::lemma_no_box_empties_full;

verus! {

/// Playouts per simulate batch.
pub const BATCH: usize = 16;
/// Plies a playout may run before the heuristic stands in for a terminal
/// value.
pub const SIMULATE_CUTOFF: usize = 82;
/// Divisor applied to heuristic-derived playout values, keeping them
/// weaker-signaled than true terminal outcomes.
pub const HEURISTIC_DIV: u64 = 10;
/// Hard cap on counted playouts: the search loop stops before the visit
/// and utility counters could ever overflow.
pub const PLAYOUT_CAP: u64 = 0x10000000000;

#[verifier::external_type_specification]
#[verifier::external_body]
pub struct ExInstant(std::time::Instant);

/// Relies on std::time::Instant::now: an opaque monotonic timestamp.
/// Nothing can be promised of a clock reading.
#[verifier::external_body]
fn instant_now() -> (r: std::time::Instant) {
    std::time::Instant::now()
}

/// Relies on std::time::Instant::elapsed: the time since the timestamp
/// was taken, converted to whole milliseconds. Nothing can be promised of
/// a clock reading.
#[verifier::external_body]
fn elapsed_millis(start: &std::time::Instant) -> (r: u64) {
    start.elapsed().as_millis() as u64
}

/// One search node: a board snapshot, the arena indices of its children,
/// the move that produced it from its parent, and its running statistics
/// (accumulated utility in fixed-point units, visit count).
pub(crate) struct Node {
    pub(crate) state: Board,
    pub(crate) children: Vec<usize>,
    pub(crate) prev_action: Option<Move>,
    pub(crate) u: u64,
    pub(crate) n: u64,
}

/// `c` really is a child of `p`: it records the move that produced it,
/// that move was legal in `p`'s state, and its state is `p`'s state with
/// the move applied.
pub(crate) open spec fn child_link(nodes: Seq<Node>, p: int, c: int) -> bool {
    &&& nodes[c].prev_action is Some
    &&& nodes[p].state@.place_legal(nodes[c].prev_action->Some_0)
    &&& nodes[c].state@ == nodes[p].state@.place_view(nodes[c].prev_action->Some_0)
}

pub(crate) open spec fn node_ok(nodes: Seq<Node>, i: int) -> bool {
    &&& nodes[i].state.wf()
    &&& nodes[i].u <= nodes[i].n * (UTIL_ONE as int)
    &&& forall|j: int|
        0 <= j < nodes[i].children@.len() ==> i < #[trigger] nodes[i].children@[j] < nodes.len()
    &&& forall|j: int|
        0 <= j < nodes[i].children@.len() ==> child_link(nodes, i, #[trigger] nodes[i].children@[j] as int)
}

/// Arena invariant: every node is well formed and its children sit
/// further right in the arena (so parent-child chains always terminate).
pub(crate) open spec fn arena_ok(nodes: Seq<Node>) -> bool {
    forall|i: int| 0 <= i < nodes.len() ==> #[trigger] node_ok(nodes, i)
}

/// Node `i` of `nodes` matches `orig` in everything but its statistics,
/// and its state is well formed.
pub(crate) open spec fn unchanged_shape(nodes: Seq<Node>, orig: Seq<Node>, i: int) -> bool {
    &&& nodes[i].state@ == orig[i].state@
    &&& nodes[i].children@ == orig[i].children@
    &&& nodes[i].prev_action == orig[i].prev_action
    &&& nodes[i].state.wf()
}

pub(crate) open spec fn stats_ok(nodes: Seq<Node>, games: u64) -> bool {
    forall|i: int| 0 <= i < nodes.len() ==> (#[trigger] nodes[i].n) <= games
}

/// The search tree: the node arena, the root index, the number of
/// playouts run so far, and the explicit pseudorandom source.
pub struct SearchTree {
    pub(crate) nodes: Vec<Node>,
    pub(crate) root: usize,
    pub(crate) games: u64,
    pub(crate) rng: fastrand::Rng,
}

impl SearchTree {
    /// The tree invariant.
    pub closed spec fn wf(&self) -> bool {
        &&& self.nodes@.len() >= 1
        &&& self.root < self.nodes@.len()
        &&& arena_ok(self.nodes@)
        &&& stats_ok(self.nodes@, self.games)
        &&& self.games <= PLAYOUT_CAP + BATCH as u64
    }

    /// The root's board state, as a mathematical value.
    pub closed spec fn root_state(&self) -> BoardCore {
        self.nodes@[self.root as int].state@
    }

    pub closed spec fn spec_games(&self) -> u64 {
        self.games
    }

    /// How many nodes the arena holds.
    pub closed spec fn node_count(&self) -> nat {
        self.nodes@.len()
    }

    /// The root's visit count.
    pub closed spec fn root_visits(&self) -> u64 {
        self.nodes@[self.root as int].n
    }

    /// The root's accumulated utility.
    pub closed spec fn root_utility_sum(&self) -> u64 {
        self.nodes@[self.root as int].u
    }

    /// The move recorded as producing the root, if any.
    pub closed spec fn root_move(&self) -> Option<Move> {
        self.nodes@[self.root as int].prev_action
    }

    /// How many children the root currently has.
    pub closed spec fn root_child_count(&self) -> nat {
        self.nodes@[self.root as int].children@.len()
    }

    /// The move recorded by the root's `j`-th child.
    pub closed spec fn root_child_move(&self, j: int) -> Option<Move> {
        self.nodes@[self.nodes@[self.root as int].children@[j] as int].prev_action
    }

    /// The visit count of the root's `j`-th child.
    pub closed spec fn root_child_visits(&self, j: int) -> u64 {
        self.nodes@[self.nodes@[self.root as int].children@[j] as int].n
    }

    /// The accumulated utility of the root's `j`-th child.
    pub closed spec fn root_child_utility(&self, j: int) -> u64 {
        self.nodes@[self.nodes@[self.root as int].children@[j] as int].u
    }

    /// A new single-node tree over the given position, with a fresh
    /// random source.
    pub fn new(init_state: Board) -> (t: SearchTree)
        requires
            init_state.wf(),
        ensures
            t.wf(),
            t.root_state() == init_state@,
            t.spec_games() == 0,
            t.node_count() == 1,
            t.root_child_count() == 0,
            t.root_visits() == 0,
            t.root_utility_sum() == 0,
            t.root_move() is None,
    {
        let mut nodes: Vec<Node> = Vec::new();
        nodes.push(
            Node { state: init_state, children: Vec::new(), prev_action: None, u: 0, n: 0 },
        );
        SearchTree { nodes, root: 0, games: 0, rng: rng_new() }
    }

    /// A new single-node tree whose random draws are a deterministic
    /// function of the seed, for reproducible runs.
    pub fn with_seed(init_state: Board, seed: u64) -> (t: SearchTree)
        requires
            init_state.wf(),
        ensures
            t.wf(),
            t.root_state() == init_state@,
            t.spec_games() == 0,
            t.node_count() == 1,
            t.root_child_count() == 0,
            t.root_visits() == 0,
            t.root_utility_sum() == 0,
            t.root_move() is None,
    {
        let mut nodes: Vec<Node> = Vec::new();
        nodes.push(
            Node { state: init_state, children: Vec::new(), prev_action: None, u: 0, n: 0 },
        );
        SearchTree { nodes, root: 0, games: 0, rng: rng_with_seed(seed) }
    }

    /// How many playouts the searches on this tree have completed.
    pub fn games_simulated(&self) -> (r: u64)
        ensures
            r == self.spec_games(),
    {
        self.games
    }

    /// An independent copy of the root's board state.
    pub fn root_board(&self) -> (b: Board)
        requires
            self.wf(),
        ensures
            b.wf(),
            b@ == self.root_state(),
    {
        proof {
            assert(node_ok(self.nodes@, self.root as int));
        }
        self.nodes[self.root].state.duplicate()
    }

    /// Materialize one child per candidate move of node `idx`, once: a
    /// node that already has children is left as it is. A node whose
    /// board is full gets no children.
    fn expand_node(&mut self, idx: usize)
        requires
            old(self).wf(),
            idx < old(self).nodes@.len(),
        ensures
            final(self).wf(),
            final(self).root == old(self).root,
            final(self).games == old(self).games,
            old(self).nodes@.len() <= final(self).nodes@.len(),
            forall|i: int|
                0 <= i < old(self).nodes@.len() && i != idx ==> final(self).nodes@[i] == old(
                    self,
                ).nodes@[i],
            final(self).nodes@[idx as int].state@ == old(self).nodes@[idx as int].state@,
            final(self).nodes@[idx as int].u == old(self).nodes@[idx as int].u,
            final(self).nodes@[idx as int].n == old(self).nodes@[idx as int].n,
            final(self).nodes@[idx as int].prev_action == old(self).nodes@[idx as int].prev_action,
            old(self).nodes@[idx as int].children@.len() > 0 ==> final(self).nodes@ == old(
                self,
            ).nodes@,
            final(self).nodes@[idx as int].children@.len() > 0 <==> (old(
                self,
            ).nodes@[idx as int].children@.len() > 0 || !old(self).nodes@[idx as int].state@.full()),
            old(self).nodes@[idx as int].children@.len() == 0 ==> ({
                let acts = crate::threats::spec_actions(&old(self).nodes@[idx as int].state);
                &&& final(self).nodes@[idx as int].children@.len() == acts.len()
                &&& forall|j: int|
                    0 <= j < acts.len() ==> ({
                        let ch = #[trigger] final(self).nodes@[idx as int].children@[j] as int;
                        &&& idx < ch < final(self).nodes@.len()
                        &&& final(self).nodes@[ch].prev_action == Some(acts[j])
                        &&& final(self).nodes@[ch].state@ == old(
                            self,
                        ).nodes@[idx as int].state@.place_view(acts[j])
                        &&& final(self).nodes@[ch].n == 0
                        &&& final(self).nodes@[ch].u == 0
                        &&& final(self).nodes@[ch].children@.len() == 0
                    })
            }),
    {
        if self.nodes[idx].children.len() > 0 {
            return ;
        }
        proof {
            assert(node_ok(self.nodes@, idx as int));
        }
        let ghost c = self.nodes@[idx as int].state@;
        let mut probe = self.nodes[idx].state.duplicate();
        let ghost probe0 = probe;
        let acts = probe.actions();
        proof {
            assert(acts@ == crate::threats::spec_actions(&probe0));
            assert(crate::threats::spec_actions(&probe0) == crate::threats::spec_actions(
                &old(self).nodes@[idx as int].state,
            ));
            crate::board::lemma_wf_core(&probe);
            if acts@.len() == 0 {
                lemma_no_box_empties_full(probe@);
            } else {
                assert(probe@.place_legal(acts@[0]));
                assert(!c.full()) by {
                    assert(c.cell(acts@[0].x as int, acts@[0].y as int)
                        == crate::board::BoardValue::Empty);
                }
            }
            if c.full() {
                crate::threats::lemma_full_no_moves(c, acts@);
            }
        }
        let ghost base = self.nodes@.len();
        let mut children: Vec<usize> = Vec::new();
        let mut k: usize = 0;
        while k < acts.len()
            invariant
                self.root == old(self).root,
                self.games == old(self).games,
                self.nodes@.len() == base + k,
                base == old(self).nodes@.len(),
                idx < base,
                k <= acts@.len(),
                arena_ok(self.nodes@),
                stats_ok(self.nodes@, self.games),
                self.games <= PLAYOUT_CAP + BATCH as u64,
                self.root < base,
                self.nodes@.subrange(0, base as int) == old(self).nodes@,
                crate::board::forced_list_ok(c, acts@),
                c == self.nodes@[idx as int].state@,
                node_ok(self.nodes@, idx as int),
                children@.len() == k,
                forall|j: int| 0 <= j < k ==> #[trigger] children@[j] == base + j,
                forall|j: int|
                    0 <= j < k ==> (#[trigger] self.nodes@[base + j].prev_action) == Some(acts@[j])
                        && self.nodes@[base + j].state@ == c.place_view(acts@[j])
                        && self.nodes@[base + j].children@.len() == 0
                        && self.nodes@[base + j].n == 0 && self.nodes@[base + j].u == 0,
                acts@ == crate::threats::spec_actions(&old(self).nodes@[idx as int].state),
            decreases acts@.len() - k,
        {
            let m = acts[k];
            proof {
                assert(node_ok(self.nodes@, idx as int));
            }
            let mut nb = self.nodes[idx].state.duplicate();
            let res = nb.place(m);
            proof {
                assert(res == Ok::<(), crate::board::PlacingError>(()));
            }
            let ghost before = self.nodes@;
            let nd = Node { state: nb, children: Vec::new(), prev_action: Some(m), u: 0, n: 0 };
            proof {
                lemma_arena_push(before, nd);
            }
            self.nodes.push(nd);
            children.push(self.nodes.len() - 1);
            proof {
                assert(self.nodes@.subrange(0, base as int) =~= old(self).nodes@) by {
                    assert(before.subrange(0, base as int) == old(self).nodes@);
                    assert(self.nodes@.subrange(0, base as int) =~= before.subrange(
                        0,
                        base as int,
                    ));
                }
            }
            k = k + 1;
        }
        let ghost pre = self.nodes@;
        proof {
            assert(node_ok(pre, idx as int));
        }
        let state2 = self.nodes[idx].state.duplicate();
        let pa = self.nodes[idx].prev_action;
        let uu = self.nodes[idx].u;
        let nn = self.nodes[idx].n;
        let nd2 = Node { state: state2, children, prev_action: pa, u: uu, n: nn };
        proof {
            assert forall|j: int| 0 <= j < nd2.children@.len() implies idx
                < #[trigger] nd2.children@[j] < pre.len() && pre[nd2.children@[j] as int].prev_action
                is Some && nd2.state@.place_legal(
                pre[nd2.children@[j] as int].prev_action->Some_0,
            ) && pre[nd2.children@[j] as int].state@ == nd2.state@.place_view(
                pre[nd2.children@[j] as int].prev_action->Some_0,
            ) by {
                assert(nd2.children@[j] == base + j);
                assert(self.nodes@[base + j].prev_action == Some(acts@[j]));
            }
            lemma_arena_set(pre, idx as int, nd2);
        }
        self.nodes.set(idx, nd2);
        proof {
            assert(self.nodes@ =~= pre.update(idx as int, nd2));
            assert forall|i: int|
                0 <= i < old(self).nodes@.len() && i != idx implies self.nodes@[i] == old(
                self,
            ).nodes@[i] by {
                assert(pre.subrange(0, base as int)[i] == old(self).nodes@[i]);
            }
        }
    }
}

/// Appending a childless well-formed node preserves the arena invariant.
proof fn lemma_arena_push(nodes: Seq<Node>, nd: Node)
    requires
        arena_ok(nodes),
        nd.state.wf(),
        nd.children@.len() == 0,
        nd.u <= nd.n * (UTIL_ONE as int),
    ensures
        arena_ok(nodes.push(nd)),
{
    let s2 = nodes.push(nd);
    assert forall|i: int| 0 <= i < s2.len() implies #[trigger] node_ok(s2, i) by {
        if i < nodes.len() {
            assert(node_ok(nodes, i));
            assert(s2[i] == nodes[i]);
            assert forall|j: int| 0 <= j < s2[i].children@.len() implies i
                < #[trigger] s2[i].children@[j] < s2.len() && child_link(
                s2,
                i,
                s2[i].children@[j] as int,
            ) by {
                let ch = nodes[i].children@[j] as int;
                assert(child_link(nodes, i, ch));
                assert(s2[ch] == nodes[ch]);
            }
        } else {
            assert(s2[i] == nd);
        }
    }
}

/// Replacing a node with one of equal state view and recorded move, whose
/// children verifiably hang off it, preserves the arena invariant.
proof fn lemma_arena_set(pre: Seq<Node>, idx: int, nd: Node)
    requires
        arena_ok(pre),
        0 <= idx < pre.len(),
        nd.state@ == pre[idx].state@,
        nd.prev_action == pre[idx].prev_action,
        nd.state.wf(),
        nd.u <= nd.n * (UTIL_ONE as int),
        forall|j: int|
            0 <= j < nd.children@.len() ==> idx < #[trigger] nd.children@[j] < pre.len()
                && pre[nd.children@[j] as int].prev_action is Some && nd.state@.place_legal(
                pre[nd.children@[j] as int].prev_action->Some_0,
            ) && pre[nd.children@[j] as int].state@ == nd.state@.place_view(
                pre[nd.children@[j] as int].prev_action->Some_0,
            ),
    ensures
        arena_ok(pre.update(idx, nd)),
{
    let s2 = pre.update(idx, nd);
    assert forall|i: int| 0 <= i < s2.len() implies #[trigger] node_ok(s2, i) by {
        if i == idx {
            assert forall|j: int| 0 <= j < s2[i].children@.len() implies i
                < #[trigger] s2[i].children@[j] < s2.len() && child_link(
                s2,
                i,
                s2[i].children@[j] as int,
            ) by {
                let ch = nd.children@[j] as int;
                assert(s2[ch] == pre[ch]);
            }
        } else {
            assert(node_ok(pre, i));
            assert(s2[i] == pre[i]);
            assert forall|j: int| 0 <= j < s2[i].children@.len() implies i
                < #[trigger] s2[i].children@[j] < s2.len() && child_link(
                s2,
                i,
                s2[i].children@[j] as int,
            ) by {
                let ch = pre[i].children@[j] as int;
                assert(child_link(pre, i, ch));
                if ch == idx {
                    assert(s2[ch].state@ == pre[ch].state@);
                    assert(s2[ch].prev_action == pre[ch].prev_action);
                } else {
                    assert(s2[ch] == pre[ch]);
                }
            }
        }
    }
}

/// A path whose adjacent entries strictly increase is strictly monotone.
proof fn lemma_path_monotone(p: Seq<usize>)
    requires
        forall|k: int| 0 <= k < p.len() - 1 ==> #[trigger] p[k] < p[k + 1],
    ensures
        forall|a: int, b: int| 0 <= a < b < p.len() ==> #[trigger] p[a] < #[trigger] p[b],
    decreases p.len(),
{
    if p.len() > 1 {
        lemma_path_monotone(p.drop_last());
        assert forall|a: int, b: int| 0 <= a < b < p.len() implies #[trigger] p[a] < #[trigger] p[b] by {
            if b < p.len() - 1 {
                assert(p.drop_last()[a] < p.drop_last()[b]);
            } else {
                if a < p.len() - 2 {
                    assert(p.drop_last()[a] < p.drop_last()[p.len() - 2]);
                }
                assert(p[p.len() - 2] < p[p.len() - 1]);
            }
        }
    }
}

/// A playout result is an exact terminal utility or a down-weighted
/// heuristic value.
pub(crate) open spec fn playout_value(v: u64) -> bool {
    v == 0 || v == UTIL_HALF || v == UTIL_ONE || v <= UTIL_ONE / HEURISTIC_DIV
}

/// The sum of a sequence of playout results.
pub(crate) open spec fn sum_values(s: Seq<u64>) -> int
    decreases s.len(),
{
    if s.len() == 0 {
        0
    } else {
        sum_values(s.drop_last()) + s.last()
    }
}

/// One random rollout from `st`: random placements until the game ends or
/// the ply cutoff is reached, in which case the (down-weighted) heuristic
/// stands in. The result is a fixed-point utility for `player`; on a board
/// that is already terminal no randomness matters and the exact utility
/// comes back.
fn playout(st: &Board, player: Player, rng: &mut fastrand::Rng) -> (u: u64)
    requires
        st.wf(),
    ensures
        u <= UTIL_ONE,
        playout_value(u),
        crate::wins::resolved_result(st).spec_is_terminate() ==> Some(u)
            == crate::wins::resolved_result(st).spec_utility(player),
{
    let ghost sim0 = *st;
    let mut sim = st.duplicate();
    let mut moves: usize = 0;
    let mut util_opt = sim.utility(player);
    proof {
        assert(crate::wins::resolved_result(&sim0) == crate::wins::resolved_result(st));
        assert(util_opt == crate::wins::resolved_result(st).spec_utility(player));
    }
    while util_opt.is_none()
        invariant
            sim.wf(),
            moves <= SIMULATE_CUTOFF + 1,
            util_opt matches Some(u) ==> (u == 0 || u == UTIL_HALF || u == UTIL_ONE),
            util_opt is None ==> sim.result_cache() == GameResult::NotTerminated,
            crate::wins::resolved_result(st).spec_is_terminate() ==> util_opt
                == crate::wins::resolved_result(st).spec_utility(player),
        decreases SIMULATE_CUTOFF + 2 - moves,
    {
        proof {
            assert(!crate::wins::resolved_result(st).spec_is_terminate());
        }
        if moves > SIMULATE_CUTOFF {
            let hv = sim.heuristic(player) / HEURISTIC_DIV;
            return hv;
        }
        proof {
            crate::board::lemma_wf_result_truth(&sim);
            assert(!sim@.full());
        }
        let pr = sim.place_random(rng);
        proof {
            if pr is Err {
                let e = pr->Err_0;
                assert(pr == Err::<(), crate::board::PlacingError>(e));
                assert(e != crate::board::PlacingError::OutOfBounds);
                assert(e != crate::board::PlacingError::Occupied);
                assert(e != crate::board::PlacingError::FullBoard);
                assert(false);
            }
        }
        util_opt = sim.utility(player);
        moves = moves + 1;
    }
    match util_opt {
        Some(u) => u,
        None => {
            proof {
                assert(false);
            }
            0
        },
    }
}

/// Run a batch of independent rollouts from `st` and sum their results:
/// the sum of `BATCH` playout values, and on an already-terminal board
/// exactly `BATCH` times that board's utility.
fn simulate_batch(st: &Board, player: Player, rng: &mut fastrand::Rng) -> (u: u64)
    requires
        st.wf(),
    ensures
        u <= (BATCH as u64) * UTIL_ONE,
        exists|vals: Seq<u64>|
            vals.len() == BATCH && u == sum_values(vals) && (forall|k: int|
                0 <= k < BATCH ==> playout_value(#[trigger] vals[k])),
        crate::wins::resolved_result(st).spec_is_terminate() ==> u == (BATCH as u64) * (
        crate::wins::resolved_result(st).spec_utility(player)->Some_0),
{
    let ghost ex: u64 = if crate::wins::resolved_result(st).spec_is_terminate() {
        crate::wins::resolved_result(st).spec_utility(player)->Some_0
    } else {
        0
    };
    let mut total: u64 = 0;
    let ghost mut vals: Seq<u64> = Seq::empty();
    let mut i: usize = 0;
    while i < BATCH
        invariant
            st.wf(),
            i <= BATCH,
            total <= (i as u64) * UTIL_ONE,
            vals.len() == i,
            total == sum_values(vals),
            forall|k: int| 0 <= k < i ==> playout_value(#[trigger] vals[k]),
            ex == (if crate::wins::resolved_result(st).spec_is_terminate() {
                crate::wins::resolved_result(st).spec_utility(player)->Some_0
            } else {
                0u64
            }),
            crate::wins::resolved_result(st).spec_is_terminate() ==> total == i * ex,
        decreases BATCH - i,
    {
        let r = playout(st, player, rng);
        proof {
            assert((i as u64 + 1) * UTIL_ONE == (i as u64) * UTIL_ONE + UTIL_ONE) by (nonlinear_arith);
            assert(vals.push(r).drop_last() =~= vals);
            vals = vals.push(r);
            if crate::wins::resolved_result(st).spec_is_terminate() {
                assert(r == ex);
                assert((i + 1) * ex == i * ex + ex) by (nonlinear_arith);
            }
        }
        total = total + r;
        i = i + 1;
    }
    total
}

impl SearchTree {
    /// Descend from the root, at each node following the child with the
    /// greatest UCB1-style score (an unvisited child counts as infinite;
    /// a child with simultaneous two-sided threats may get a random score
    /// boost), until a node with no children is reached. Returns the full
    /// root-to-leaf index path.
    fn select(&mut self) -> (path: Vec<usize>)
        requires
            old(self).wf(),
        ensures
            final(self).wf(),
            final(self).nodes == old(self).nodes,
            final(self).root == old(self).root,
            final(self).games == old(self).games,
            path@.len() >= 1,
            path@[0] == old(self).root,
            forall|k: int| 0 <= k < path@.len() ==> #[trigger] path@[k] < old(self).nodes@.len(),
            forall|k: int| 0 <= k < path@.len() - 1 ==> #[trigger] path@[k] < path@[k + 1],
            forall|k: int|
                0 <= k < path@.len() - 1 ==> #[trigger] final(self).nodes@[path@[k] as int].children@.contains(
                    path@[k + 1],
                ) && child_link(final(self).nodes@, path@[k] as int, path@[k + 1] as int),
            final(self).nodes@[path@[path@.len() - 1] as int].children@.len() == 0,
    {
        let mut path: Vec<usize> = Vec::new();
        let mut cur = self.root;
        path.push(cur);
        while self.nodes[cur].children.len() > 0
            invariant
                self.wf(),
                self.nodes == old(self).nodes,
                self.root == old(self).root,
                self.games == old(self).games,
                cur < self.nodes@.len(),
                path@.len() >= 1,
                path@[0] == old(self).root,
                path@[path@.len() - 1] == cur,
                forall|k: int| 0 <= k < path@.len() ==> #[trigger] path@[k] < self.nodes@.len(),
                forall|k: int| 0 <= k < path@.len() - 1 ==> #[trigger] path@[k] < path@[k + 1],
                forall|k: int|
                    0 <= k < path@.len() - 1 ==> #[trigger] self.nodes@[path@[k] as int].children@.contains(
                        path@[k + 1],
                    ) && child_link(self.nodes@, path@[k] as int, path@[k + 1] as int),
            decreases self.nodes@.len() - cur,
    {
            proof {
                assert(node_ok(self.nodes@, cur as int));
            }
            let parent_n = self.nodes[cur].n;
            let lnp = ln_fp(parent_n);
            let cnt = self.nodes[cur].children.len();
            let mut best_j: usize = 0;
            let mut best_score: u64 = 0;
            let mut j: usize = 0;
            while j < cnt
                invariant
                    self.wf(),
                    self.nodes == old(self).nodes,
                    self.root == old(self).root,
                    self.games == old(self).games,
                    cur < self.nodes@.len(),
                    cnt == self.nodes@[cur as int].children@.len(),
                    cnt > 0,
                    lnp <= 45000000,
                    j <= cnt,
                    best_j < cnt,
                decreases cnt - j,
            {
                proof {
                    assert(node_ok(self.nodes@, cur as int));
                }
                let ch = self.nodes[cur].children[j];
                proof {
                    assert(node_ok(self.nodes@, ch as int));
                }
                let cu = self.nodes[ch].u;
                let cn = self.nodes[ch].n;
                let score: u64;
                if cn == 0 {
                    score = u64::MAX;
                } else {
                    proof {
                        assert(cu / cn <= 1000000) by (nonlinear_arith)
                            requires
                                1 <= cn,
                                cu <= cn * 1000000,
                        ;
                    }
                    let mean = cu / cn;
                    let ex = isqrt(2 * lnp * 1000000 / cn);
                    proof {
                        assert(ex <= 10000000) by (nonlinear_arith)
                            requires
                                ex * ex <= 90000000000000u64,
                        ;
                    }
                    let mut sc = mean + ex;
                    if rng_bool(&mut self.rng) {
                        let mut stc = self.nodes[ch].state.duplicate();
                        if stc.are_there_threats() {
                            let bias = 1000000u64 + rng_below(&mut self.rng, 250000) as u64;
                            proof {
                                assert(sc * bias <= 13750000000000u64) by (nonlinear_arith)
                                    requires
                                        sc <= 11000000,
                                        bias <= 1250000,
                                ;
                            }
                            sc = sc * bias / 1000000;
                        }
                    }
                    score = sc;
                }
                if j == 0 || score > best_score {
                    best_j = j;
                    best_score = score;
                }
                j = j + 1;
            }
            proof {
                assert(node_ok(self.nodes@, cur as int));
            }
            let next = self.nodes[cur].children[best_j];
            proof {
                assert(self.nodes@[cur as int].children@[best_j as int] == next);
                assert(self.nodes@[cur as int].children@.contains(next));
                assert(child_link(self.nodes@, cur as int, next as int));
            }
            let ghost p0 = path@;
            path.push(next);
            proof {
                assert(path@ == p0.push(next));
                assert forall|k: int|
                    0 <= k < path@.len() - 1 implies #[trigger] self.nodes@[path@[k] as int].children@.contains(
                    path@[k + 1],
                ) && child_link(self.nodes@, path@[k] as int, path@[k + 1] as int) by {
                    if k < p0.len() - 1 {
                        assert(path@[k] == p0[k] && path@[k + 1] == p0[k + 1]);
                    } else {
                        assert(path@[k] == p0[p0.len() - 1]);
                        assert(p0[p0.len() - 1] == cur);
                        assert(path@[k + 1] == next);
                    }
                }
            }
            cur = next;
        }
        path
    }

    /// Add a batch's playout count and utility sum to every node on the
    /// path, root through simulated node inclusive. The utility is always
    /// with respect to the single player the search episode maximizes
    /// for; there is no per-ply sign flip.
    fn back_propagation(&mut self, path: &Vec<usize>, util: u64, n_add: u64)
        requires
            old(self).wf(),
            util <= n_add * UTIL_ONE,
            n_add <= BATCH as u64,
            forall|k: int| 0 <= k < path@.len() ==> #[trigger] path@[k] < old(self).nodes@.len(),
            forall|k: int| 0 <= k < path@.len() - 1 ==> #[trigger] path@[k] < path@[k + 1],
            forall|i: int|
                0 <= i < old(self).nodes@.len() ==> (#[trigger] old(self).nodes@[i].n) + n_add
                    <= old(self).games,
        ensures
            final(self).wf(),
            final(self).root == old(self).root,
            final(self).games == old(self).games,
            final(self).nodes@.len() == old(self).nodes@.len(),
            forall|i: int|
                0 <= i < old(self).nodes@.len() ==> (#[trigger] final(self).nodes@[i].state@)
                    == old(self).nodes@[i].state@ && final(self).nodes@[i].children@ == old(
                    self,
                ).nodes@[i].children@ && final(self).nodes@[i].prev_action == old(
                    self,
                ).nodes@[i].prev_action,
            forall|kk: int|
                0 <= kk < path@.len() ==> ({
                    &&& final(self).nodes@[#[trigger] path@[kk] as int].n
                        == old(self).nodes@[path@[kk] as int].n + n_add
                    &&& final(self).nodes@[path@[kk] as int].u
                        == old(self).nodes@[path@[kk] as int].u + util
                }),
            forall|i: int|
                0 <= i < old(self).nodes@.len() && !path@.contains(i as usize) ==> ({
                    &&& (#[trigger] final(self).nodes@[i].n) == old(self).nodes@[i].n
                    &&& final(self).nodes@[i].u == old(self).nodes@[i].u
                }),
    {
        let ghost orig = self.nodes@;
        let ghost g0 = self.games;
        proof {
            lemma_path_monotone(path@);
            assert forall|i: int| 0 <= i < self.nodes@.len() implies unchanged_shape(
                self.nodes@,
                orig,
                i,
            ) by {
                assert(node_ok(self.nodes@, i));
            }
        }
        let mut k: usize = 0;
        while k < path.len()
            invariant
                self.wf(),
                self.root == old(self).root,
                self.games == g0,
                self.nodes@.len() == orig.len(),
                util <= n_add * UTIL_ONE,
                n_add <= BATCH as u64,
                k <= path@.len(),
                forall|kk: int| 0 <= kk < path@.len() ==> #[trigger] path@[kk] < orig.len(),
                forall|a: int, b: int|
                    0 <= a < b < path@.len() ==> #[trigger] path@[a] < #[trigger] path@[b],
                forall|i: int|
                    0 <= i < self.nodes@.len() ==> #[trigger] unchanged_shape(self.nodes@, orig, i),
                forall|kk: int|
                    (k as int) <= kk < path@.len() ==> (#[trigger] self.nodes@[path@[kk] as int])
                        == orig[path@[kk] as int],
                forall|kk: int|
                    0 <= kk < k ==> self.nodes@[#[trigger] path@[kk] as int].n
                        == orig[path@[kk] as int].n + n_add && self.nodes@[path@[kk] as int].u
                        == orig[path@[kk] as int].u + util,
                forall|i: int|
                    0 <= i < orig.len() && !path@.contains(i as usize) ==> (
                    #[trigger] self.nodes@[i]) == orig[i],
                forall|i: int|
                    0 <= i < orig.len() ==> (#[trigger] orig[i].n) + n_add <= g0,
            decreases path@.len() - k,
        {
            let idx = path[k];
            proof {
                assert(self.nodes@[idx as int] == orig[idx as int]);
                assert(node_ok(self.nodes@, idx as int));
            }
            let nd_u = self.nodes[idx].u;
            let nd_n = self.nodes[idx].n;
            proof {
                assert(nd_u + util <= (nd_n + n_add) * UTIL_ONE) by (nonlinear_arith)
                    requires
                        nd_u <= nd_n * UTIL_ONE,
                        util <= n_add * UTIL_ONE,
                ;
                assert((nd_n + n_add) * UTIL_ONE <= 0x11000000000u64 * 1000000) by (nonlinear_arith)
                    requires
                        nd_n + n_add <= 0x11000000000u64,
                ;
            }
            let state2 = self.nodes[idx].state.duplicate();
            let pa = self.nodes[idx].prev_action;
            let ghost pre = self.nodes@;
            let mut kids: Vec<usize> = Vec::new();
            let kn = self.nodes[idx].children.len();
            let mut t: usize = 0;
            while t < kn
                invariant
                    t <= kn,
                    idx < self.nodes@.len(),
                    kn == self.nodes@[idx as int].children@.len(),
                    kids@ == self.nodes@[idx as int].children@.take(t as int),
                decreases kn - t,
            {
                kids.push(self.nodes[idx].children[t]);
                proof {
                    assert(self.nodes@[idx as int].children@.take(t as int + 1)
                        =~= self.nodes@[idx as int].children@.take(t as int).push(
                        self.nodes@[idx as int].children@[t as int],
                    ));
                }
                t = t + 1;
            }
            proof {
                assert(kids@ =~= self.nodes@[idx as int].children@);
            }
            let nd2 = Node {
                state: state2,
                children: kids,
                prev_action: pa,
                u: nd_u + util,
                n: nd_n + n_add,
            };
            proof {
                assert(nd2.children@ == pre[idx as int].children@);
                assert forall|j: int| 0 <= j < nd2.children@.len() implies idx
                    < #[trigger] nd2.children@[j] < pre.len() && pre[nd2.children@[j] as int].prev_action
                    is Some && nd2.state@.place_legal(
                    pre[nd2.children@[j] as int].prev_action->Some_0,
                ) && pre[nd2.children@[j] as int].state@ == nd2.state@.place_view(
                    pre[nd2.children@[j] as int].prev_action->Some_0,
                ) by {
                    assert(node_ok(pre, idx as int));
                    assert(child_link(pre, idx as int, nd2.children@[j] as int));
                }
                lemma_arena_set(pre, idx as int, nd2);
            }
            self.nodes.set(idx, nd2);
            proof {
                assert(self.nodes@ =~= pre.update(idx as int, nd2));
                assert(path@.contains(idx)) by {
                    assert(path@[k as int] == idx);
                }
                assert forall|i: int| 0 <= i < self.nodes@.len() implies #[trigger] unchanged_shape(
                    self.nodes@,
                    orig,
                    i,
                ) by {
                    assert(unchanged_shape(pre, orig, i));
                    if i == idx {
                        assert(nd2.state@ == pre[i].state@);
                    } else {
                        assert(self.nodes@[i] == pre[i]);
                    }
                }
                assert forall|kk: int| 0 <= kk < k + 1 implies self.nodes@[#[trigger] path@[kk] as int].n
                    == orig[path@[kk] as int].n + n_add && self.nodes@[path@[kk] as int].u
                    == orig[path@[kk] as int].u + util by {
                    if kk < k {
                        assert(path@[kk] < path@[k as int]);
                        assert(self.nodes@[path@[kk] as int] == pre[path@[kk] as int]);
                    } else {
                        assert(path@[kk] == idx);
                        assert(pre[idx as int] == orig[idx as int]);
                    }
                }
            }
            k = k + 1;
        }
        proof {
            assert forall|i: int|
                0 <= i < old(self).nodes@.len() implies (#[trigger] self.nodes@[i].state@)
                == old(self).nodes@[i].state@ && self.nodes@[i].children@ == old(
                self,
            ).nodes@[i].children@ && self.nodes@[i].prev_action == old(
                self,
            ).nodes@[i].prev_action by {
                assert(unchanged_shape(self.nodes@, orig, i));
            }
        }
    }

    /// Run select/expand/simulate/backpropagate iterations until the time
    /// budget elapses (checked only between complete iterations), then
    /// return the root child with the greatest visit count (robust-child
    /// policy, first maximum on ties); if no child has been visited, an
    /// arbitrary child's move is returned, expanding the root first if it
    /// is still childless. The returned move is always legal in the root
    /// position.
    pub fn monte_carlo(&mut self, time_limit_ms: u64) -> (m: Move)
        requires
            old(self).wf(),
            !old(self).root_state().full(),
        ensures
            final(self).wf(),
            final(self).root_state() == old(self).root_state(),
            old(self).root_state().place_legal(m),
            final(self).root_child_count() > 0,
            exists|j: int|
                #![trigger final(self).root_child_move(j)]
                ({
                    let t = *final(self);
                    &&& 0 <= j < t.root_child_count()
                    &&& t.root_child_move(j) == Some(m)
                    &&& ((forall|k: int|
                        0 <= k < t.root_child_count() ==> #[trigger] t.root_child_visits(k)
                            <= t.root_child_visits(j) && (k < j ==> t.root_child_visits(k)
                            < t.root_child_visits(j))) || (forall|k: int|
                        0 <= k < t.root_child_count() ==> #[trigger] t.root_child_visits(k) == 0))
                }),
    {
        let start = instant_now();
        proof {
            assert(node_ok(self.nodes@, self.root as int));
        }
        let player = self.nodes[self.root].state.get_player();
        while self.games <= PLAYOUT_CAP && elapsed_millis(&start) < time_limit_ms
            invariant
                self.wf(),
                self.root == old(self).root,
                self.root_state() == old(self).root_state(),
            decreases PLAYOUT_CAP + BATCH as u64 - self.games,
        {
            let mut path = self.select();
            let leaf = path[path.len() - 1];
            let sim_idx: usize;
            if self.nodes[leaf].n == 0 {
                sim_idx = leaf;
            } else {
                self.expand_node(leaf);
                proof {
                    assert(forall|k: int|
                        0 <= k < path@.len() ==> #[trigger] path@[k] < self.nodes@.len());
                }
                if self.nodes[leaf].children.len() > 0 {
                    proof {
                        assert(node_ok(self.nodes@, leaf as int));
                    }
                    let jj = rng_below(&mut self.rng, self.nodes[leaf].children.len());
                    let c = self.nodes[leaf].children[jj];
                    path.push(c);
                    sim_idx = c;
                } else {
                    sim_idx = leaf;
                }
            }
            proof {
                assert(node_ok(self.nodes@, sim_idx as int));
            }
            let util = simulate_batch(&self.nodes[sim_idx].state, player, &mut self.rng);
            self.games = self.games + BATCH as u64;
            self.back_propagation(&path, util, BATCH as u64);
        }
        if self.nodes[self.root].children.len() == 0 {
            self.expand_node(self.root);
        }
        proof {
            assert(node_ok(self.nodes@, self.root as int));
        }
        let kids_len = self.nodes[self.root].children.len();
        let ghost kids = self.nodes@[self.root as int].children@;
        let mut best_j: usize = 0;
        let mut best_n: u64 = 0;
        let mut j: usize = 0;
        while j < kids_len
            invariant
                self.wf(),
                self.root < self.nodes@.len(),
                kids == self.nodes@[self.root as int].children@,
                kids_len == kids.len(),
                kids_len > 0,
                j <= kids_len,
                best_j < kids_len,
                j > 0 ==> self.nodes@[kids[best_j as int] as int].n == best_n,
                j == 0 ==> best_n == 0,
                forall|kk: int|
                    0 <= kk < j ==> self.nodes@[#[trigger] kids[kk] as int].n <= best_n,
                forall|kk: int|
                    0 <= kk < best_j ==> self.nodes@[#[trigger] kids[kk] as int].n < best_n,
            decreases kids_len - j,
        {
            proof {
                assert(node_ok(self.nodes@, self.root as int));
            }
            let ch = self.nodes[self.root].children[j];
            let cn = self.nodes[ch].n;
            if j == 0 || cn > best_n {
                best_j = j;
                best_n = cn;
            }
            j = j + 1;
        }
        let ghost all_zero = best_n == 0;
        proof {
            if all_zero {
                assert forall|kk: int| 0 <= kk < kids_len implies self.nodes@[#[trigger] kids[kk] as int].n
                    == 0 by {
                    assert(self.nodes@[kids[kk] as int].n <= best_n);
                }
            }
        }
        if best_n == 0 {
            best_j = rng_below(&mut self.rng, kids_len);
        }
        proof {
            assert(node_ok(self.nodes@, self.root as int));
        }
        let pick = self.nodes[self.root].children[best_j];
        proof {
            assert(child_link(self.nodes@, self.root as int, pick as int));
        }
        match self.nodes[pick].prev_action {
            Some(mres) => {
                proof {
                    assert(self.root_child_count() == kids.len());
                    assert(self.root_child_move(best_j as int) == Some(mres));
                    assert(forall|k: int|
                        0 <= k < kids.len() ==> #[trigger] self.root_child_visits(k)
                            == self.nodes@[kids[k] as int].n);
                    if !all_zero {
                        assert(self.root_child_visits(best_j as int) == best_n);
                    }
                    assert(exists|j: int|
                        #![trigger self.root_child_move(j)]
                        ({
                            let t = *self;
                            &&& 0 <= j < t.root_child_count()
                            &&& t.root_child_move(j) == Some(mres)
                            &&& ((forall|k: int|
                                0 <= k < t.root_child_count() ==> #[trigger] t.root_child_visits(k)
                                    <= t.root_child_visits(j) && (k < j ==> t.root_child_visits(k)
                                    < t.root_child_visits(j))) || (forall|k: int|
                                0 <= k < t.root_child_count() ==> #[trigger] t.root_child_visits(k)
                                    == 0))
                        })) by {
                        assert(self.root_child_move(best_j as int) == Some(mres));
                    }
                }
                mres
            },
            None => {
                proof {
                    assert(false);
                }
                Move { x: 0, y: 0 }
            },
        }
    }

    /// Tree reuse after a move is played on the authoritative board: if a
    /// root child recorded exactly that move, its subtree becomes the new
    /// tree with its statistics preserved (all sibling subtrees are
    /// discarded); otherwise a fresh zero-statistics single-node tree over
    /// the root's state with the move applied is built.
    pub fn apply_move(&mut self, m: Move)
        requires
            old(self).wf(),
            old(self).root_state().place_legal(m),
        ensures
            final(self).wf(),
            final(self).root_state() == old(self).root_state().place_view(m),
            ({
                let t = *final(self);
                let o = *old(self);
                ||| (t.root_move() == Some(m) && t.spec_games() == o.spec_games() && (
                o.root_child_count() > 0 ==> exists|j: int|
                    0 <= j < o.root_child_count() && #[trigger] o.root_child_move(j) == Some(m)
                        && t.root_visits() == o.root_child_visits(j) && t.root_utility_sum()
                        == o.root_child_utility(j)))
                ||| ((o.root_child_count() > 0 ==> forall|j: int|
                    0 <= j < o.root_child_count() ==> #[trigger] o.root_child_move(j) != Some(m))
                    && t.node_count() == 1 && t.root_child_count() == 0 && t.root_visits() == 0
                    && t.root_utility_sum() == 0 && t.root_move() is None && t.spec_games() == 0)
            }),
    {
        let ghost had_children = self.nodes@[self.root as int].children@.len() > 0;
        if self.nodes[self.root].children.len() == 0 {
            self.expand_node(self.root);
        }
        proof {
            assert(node_ok(self.nodes@, self.root as int));
            if had_children {
                assert(self.nodes@ == old(self).nodes@);
            }
        }
        let ghost kids = self.nodes@[self.root as int].children@;
        let kids_len = self.nodes[self.root].children.len();
        let mut found: Option<usize> = None;
        let mut j: usize = 0;
        while j < kids_len
            invariant
                self.wf(),
                self.root == old(self).root,
                self.games == old(self).games,
                self.root < self.nodes@.len(),
                self.root_state() == old(self).root_state(),
                had_children ==> self.nodes@ == old(self).nodes@,
                had_children == (old(self).root_child_count() > 0),
                kids == self.nodes@[self.root as int].children@,
                kids_len == kids.len(),
                j <= kids_len,
                match found {
                    Some(c) => c < self.nodes@.len() && child_link(
                        self.nodes@,
                        self.root as int,
                        c as int,
                    ) && self.nodes@[c as int].prev_action == Some(m) && (exists|jj: int|
                        0 <= jj < kids.len() && #[trigger] kids[jj] == c),
                    None => forall|jj: int|
                        0 <= jj < j ==> self.nodes@[#[trigger] kids[jj] as int].prev_action != Some(
                            m,
                        ),
                },
            decreases kids_len - j,
        {
            proof {
                assert(node_ok(self.nodes@, self.root as int));
            }
            let c = self.nodes[self.root].children[j];
            proof {
                assert(child_link(self.nodes@, self.root as int, c as int));
                assert(kids[j as int] == c);
            }
            match self.nodes[c].prev_action {
                Some(pm) => {
                    if pm == m && found.is_none() {
                        found = Some(c);
                    }
                },
                None => {},
            }
            j = j + 1;
        }
        match found {
            Some(c) => {
                proof {
                    if had_children {
                        let jj = choose|jj: int| 0 <= jj < kids.len() && #[trigger] kids[jj] == c;
                        assert(old(self).root_child_move(jj) == Some(m));
                        assert(old(self).root_child_visits(jj) == self.nodes@[c as int].n);
                        assert(old(self).root_child_utility(jj) == self.nodes@[c as int].u);
                    }
                }
                let mut new_nodes: Vec<Node> = Vec::new();
                let _root = copy_subtree(&self.nodes, c, &mut new_nodes, Ghost(self.games));
                self.nodes = new_nodes;
                self.root = 0;
            },
            None => {
                proof {
                    assert(node_ok(self.nodes@, self.root as int));
                    if had_children {
                        assert forall|jj: int| 0 <= jj < old(self).root_child_count()
                            implies #[trigger] old(self).root_child_move(jj) != Some(m) by {
                            assert(self.nodes@[kids[jj] as int].prev_action != Some(m));
                        }
                    }
                }
                let mut nb = self.nodes[self.root].state.duplicate();
                let res = nb.place(m);
                proof {
                    assert(res == Ok::<(), crate::board::PlacingError>(()));
                }
                let mut nodes: Vec<Node> = Vec::new();
                nodes.push(
                    Node { state: nb, children: Vec::new(), prev_action: None, u: 0, n: 0 },
                );
                self.nodes = nodes;
                self.root = 0;
                self.games = 0;
            },
        }
    }
}

/// Copy the subtree of `src` rooted at `idx` into `dst` in preorder,
/// preserving states, recorded moves and statistics; returns the new root
/// index (the old length of `dst`).
fn copy_subtree(src: &Vec<Node>, idx: usize, dst: &mut Vec<Node>, games: Ghost<u64>) -> (nidx:
    usize)
    requires
        arena_ok(src@),
        stats_ok(src@, games@),
        idx < src@.len(),
        arena_ok(old(dst)@),
        stats_ok(old(dst)@, games@),
    ensures
        old(dst)@.len() < final(dst)@.len(),
        nidx == old(dst)@.len(),
        final(dst)@.subrange(0, old(dst)@.len() as int) == old(dst)@,
        arena_ok(final(dst)@),
        stats_ok(final(dst)@, games@),
        final(dst)@[nidx as int].state@ == src@[idx as int].state@,
        final(dst)@[nidx as int].u == src@[idx as int].u,
        final(dst)@[nidx as int].n == src@[idx as int].n,
        final(dst)@[nidx as int].prev_action == src@[idx as int].prev_action,
    decreases src@.len() - idx,
{
    proof {
        assert(node_ok(src@, idx as int));
    }
    let nidx = dst.len();
    let ghost before = dst@;
    let nd0 = Node {
        state: src[idx].state.duplicate(),
        children: Vec::new(),
        prev_action: src[idx].prev_action,
        u: src[idx].u,
        n: src[idx].n,
    };
    proof {
        assert(nd0.u <= nd0.n * (UTIL_ONE as int)) by (nonlinear_arith)
            requires
                nd0.u == src@[idx as int].u,
                nd0.n == src@[idx as int].n,
                src@[idx as int].u <= src@[idx as int].n * (UTIL_ONE as int),
        ;
        lemma_arena_push(before, nd0);
    }
    dst.push(nd0);
    let cnt = src[idx].children.len();
    let mut new_children: Vec<usize> = Vec::new();
    let mut j: usize = 0;
    while j < cnt
        invariant
            arena_ok(src@),
            stats_ok(src@, games@),
            idx < src@.len(),
            cnt == src@[idx as int].children@.len(),
            nidx == before.len(),
            before == old(dst)@,
            nidx < dst@.len(),
            dst@.subrange(0, nidx as int) == before,
            arena_ok(dst@),
            stats_ok(dst@, games@),
            dst@[nidx as int].state@ == src@[idx as int].state@,
            dst@[nidx as int].prev_action == src@[idx as int].prev_action,
            dst@[nidx as int].u == src@[idx as int].u,
            dst@[nidx as int].n == src@[idx as int].n,
            j <= cnt,
            new_children@.len() == j,
            forall|t: int|
                0 <= t < j ==> nidx < #[trigger] new_children@[t] < dst@.len(),
            forall|t: int|
                0 <= t < j ==> (#[trigger] dst@[new_children@[t] as int].prev_action)
                    == src@[src@[idx as int].children@[t] as int].prev_action
                    && dst@[new_children@[t] as int].state@
                    == src@[src@[idx as int].children@[t] as int].state@,
        decreases cnt - j,
    {
        proof {
            assert(node_ok(src@, idx as int));
        }
        let c = src[idx].children[j];
        let ghost mid = dst@;
        let nc = copy_subtree(src, c, dst, games);
        proof {
            assert(dst@.subrange(0, nidx as int) =~= mid.subrange(0, nidx as int));
            assert forall|t: int|
                0 <= t < j implies nidx < #[trigger] new_children@[t] < dst@.len() && (
            dst@[new_children@[t] as int].prev_action)
                == src@[src@[idx as int].children@[t] as int].prev_action
                && dst@[new_children@[t] as int].state@
                == src@[src@[idx as int].children@[t] as int].state@ by {
                assert(dst@.subrange(0, mid.len() as int)[new_children@[t] as int] == mid[new_children@[t] as int]);
            }
            assert(dst@[nidx as int] == mid[nidx as int]) by {
                assert(dst@.subrange(0, mid.len() as int)[nidx as int] == mid[nidx as int]);
            }
        }
        new_children.push(nc);
        j = j + 1;
    }
    let ghost pre = dst@;
    proof {
        assert(node_ok(src@, idx as int));
    }
    let nd2 = Node {
        state: src[idx].state.duplicate(),
        children: new_children,
        prev_action: src[idx].prev_action,
        u: src[idx].u,
        n: src[idx].n,
    };
    proof {
        assert(nd2.u <= nd2.n * (UTIL_ONE as int)) by (nonlinear_arith)
            requires
                nd2.u == src@[idx as int].u,
                nd2.n == src@[idx as int].n,
                src@[idx as int].u <= src@[idx as int].n * (UTIL_ONE as int),
        ;
        assert forall|t: int| 0 <= t < nd2.children@.len() implies (nidx as int)
            < #[trigger] nd2.children@[t] < pre.len() && pre[nd2.children@[t] as int].prev_action
            is Some && nd2.state@.place_legal(
            pre[nd2.children@[t] as int].prev_action->Some_0,
        ) && pre[nd2.children@[t] as int].state@ == nd2.state@.place_view(
            pre[nd2.children@[t] as int].prev_action->Some_0,
        ) by {
            let sc = src@[idx as int].children@[t] as int;
            assert(child_link(src@, idx as int, sc));
        }
        lemma_arena_set(pre, nidx as int, nd2);
    }
    dst.set(nidx, nd2);
    proof {
        assert(dst@ =~= pre.update(nidx as int, nd2));
        assert(dst@.subrange(0, before.len() as int) =~= before) by {
            assert(pre.subrange(0, before.len() as int) == before);
            assert forall|i: int| 0 <= i < before.len() implies dst@.subrange(
                0,
                before.len() as int,
            )[i] == before[i] by {
                assert(pre.subrange(0, before.len() as int)[i] == before[i]);
            }
        }
    }
    nidx
}

/// Fixed-point natural logarithm, scaled by `UTIL_ONE`: approximated as
/// the bit length times ln 2.
fn ln_fp(x: u64) -> (r: u64)
    ensures
        r <= 45000000,
{
    if x <= 1 {
        return 0;
    }
    let mut k: u64 = 0;
    let mut p: u64 = x;
    while p > 1 && k < 64
        invariant
            p >= 1,
            k <= 64,
        decreases 64 - k,
    {
        p = p / 2;
        k = k + 1;
    }
    k * 693147
}

/// Integer square root lower bound: the result squared never exceeds the
/// argument.
fn isqrt(x: u64) -> (r: u64)
    ensures
        r * r <= x,
{
    let mut lo: u64 = 0;
    let mut hi: u64 = 3037000500;
    if x < hi {
        hi = x + 1;
    }
    while lo + 1 < hi
        invariant
            lo < hi,
            hi <= 3037000500,
            lo * lo <= x,
        decreases hi - lo,
    {
        let mid = lo + (hi - lo) / 2;
        proof {
            assert(mid as int * mid as int <= u64::MAX as int) by (nonlinear_arith)
                requires
                    mid < 3037000500,
            ;
        }
        if mid * mid <= x {
            lo = mid;
        } else {
            hi = mid;
        }
    }
    lo
}

} // verus!
