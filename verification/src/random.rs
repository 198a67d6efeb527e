//! The pseudorandom source, threaded explicitly through every randomized
//! operation so runs are reproducible, and the biased random mover.

use vstd::prelude::*;
use crate::board::{lemma_wf_core, Board, BoardValue, Move, PlacingError, Player};
use crate::threats::{box_empties, forced_resolved, lemma_no_box_empties_full};

verus! {

#[verifier::external_type_specification]
#[verifier::external_body]
pub struct ExRng(fastrand::Rng);

/// Relies on fastrand::Rng::new: a fresh generator seeded from the
/// thread-local one. Nothing can be promised of its draws.
#[verifier::external_body]
pub(crate) fn rng_new() -> (r: fastrand::Rng) {
    fastrand::Rng::new()
}

/// Relies on fastrand::Rng::with_seed: a generator whose draws are a
/// deterministic function of the seed.
#[verifier::external_body]
pub(crate) fn rng_with_seed(seed: u64) -> (r: fastrand::Rng) {
    fastrand::Rng::with_seed(seed)
}

/// Relies on fastrand::Rng::usize: a draw from the half-open range below
/// `n`; the callee panics only on an empty range, which the precondition
/// rules out.
#[verifier::external_body]
pub(crate) fn rng_below(rng: &mut fastrand::Rng, n: usize) -> (r: usize)
    requires
        1 <= n,
    ensures
        r < n,
{
    rng.usize(..n)
}

/// Relies on fastrand::Rng::bool: a random boolean. Nothing can be
/// promised of the outcome.
#[verifier::external_body]
pub(crate) fn rng_bool(rng: &mut fastrand::Rng) -> (r: bool) {
    rng.bool()
}

/// How many successive isolated candidates the random mover may reject
/// before it accepts one regardless.
const RANDOM_REJECT_CAP: usize = 64;

impl Board {
    /// Count the empty cells among the 8 neighbors of `m`.
    fn empty_neighbors(&self, m: Move) -> (r: u32)
        requires
            self.wf(),
            m.x < self@.width,
            m.y < self@.height,
        ensures
            r <= 9,
    {
        proof {
            lemma_wf_core(self);
        }
        let w = self.get_width();
        let h = self.get_height();
        let mut count: u32 = 0;
        let mut dx: i64 = -1;
        while dx <= 1
            invariant
                self.wf(),
                m.x < self@.width,
                m.y < self@.height,
                1 <= self@.width <= 16384,
                1 <= self@.height <= 16384,
                w == self@.width,
                h == self@.height,
                -1 <= dx <= 2,
                count <= 3 * (dx + 1),
            decreases 2 - dx,
        {
            let mut dy: i64 = -1;
            while dy <= 1
                invariant
                    self.wf(),
                    m.x < self@.width,
                    m.y < self@.height,
                    1 <= self@.width <= 16384,
                    1 <= self@.height <= 16384,
                    w == self@.width,
                    h == self@.height,
                    -1 <= dx <= 1,
                    -1 <= dy <= 2,
                    count <= 3 * (dx + 1) + (dy + 1),
                decreases 2 - dy,
            {
                if !(dx == 0 && dy == 0) {
                    let nx = m.x as i64 + dx;
                    let ny = m.y as i64 + dy;
                    if nx >= 0 && ny >= 0 && nx < w as i64 && ny < h as i64 {
                        if self.get_cell(nx as usize, ny as usize) == BoardValue::Empty {
                            count = count + 1;
                        }
                    }
                }
                dy = dy + 1;
            }
            dx = dx + 1;
        }
        count
    }

    /// Place at a cell sampled uniformly from the candidate set, rejecting
    /// with 90% probability any candidate whose whole 8-neighborhood is
    /// empty (up to a bounded number of retries), so random play stays
    /// near the existing stones. Fails with `FullBoard` exactly when the
    /// board is full.
    pub fn place_random(&mut self, rng: &mut fastrand::Rng) -> (r: Result<(), PlacingError>)
        requires
            old(self).wf(),
        ensures
            final(self).wf(),
            r == Err::<(), PlacingError>(PlacingError::FullBoard) <==> old(self)@.full(),
            r != Err::<(), PlacingError>(PlacingError::OutOfBounds),
            r != Err::<(), PlacingError>(PlacingError::Occupied),
            r is Err ==> final(self)@ == old(self)@,
            r is Ok ==> exists|m: Move|
                #[trigger] old(self)@.place_legal(m) && final(self)@ == old(self)@.place_view(m)
                    && (if forced_resolved(old(self), old(self)@.player).len() > 0 {
                    forced_resolved(old(self), old(self)@.player).contains(m)
                } else {
                    box_empties(old(self)@).contains(m)
                }),
    {
        let mut tries: usize = 0;
        while tries <= RANDOM_REJECT_CAP
            invariant
                self.wf(),
                self@ == old(self)@,
                forced_resolved(self, Player::X) == forced_resolved(old(self), Player::X),
                forced_resolved(self, Player::O) == forced_resolved(old(self), Player::O),
                tries <= RANDOM_REJECT_CAP + 1,
            decreases RANDOM_REJECT_CAP + 1 - tries,
        {
            let acts = self.actions();
            if acts.len() == 0 {
                proof {
                    lemma_wf_core(self);
                    lemma_no_box_empties_full(self@);
                }
                return Err(PlacingError::FullBoard);
            }
            let idx = rng_below(rng, acts.len());
            let m = acts[idx];
            proof {
                assert(self@.place_legal(m));
            }
            let isolated = self.empty_neighbors(m) == 8;
            if tries <= RANDOM_REJECT_CAP && isolated && rng_below(rng, 10) < 9 {
                tries = tries + 1;
                continue ;
            }
            let res = self.place(m);
            proof {
                assert(res == Ok::<(), PlacingError>(()));
                assert(!old(self)@.full()) by {
                    assert(old(self)@.cell(m.x as int, m.y as int) == BoardValue::Empty);
                }
            }
            return Ok(());
        }
        // the retry cap was exhausted; take whatever candidate comes next
        let acts = self.actions();
        if acts.len() == 0 {
            proof {
                lemma_wf_core(self);
                lemma_no_box_empties_full(self@);
            }
            return Err(PlacingError::FullBoard);
        }
        let idx = rng_below(rng, acts.len());
        let m = acts[idx];
        let res = self.place(m);
        proof {
            assert(res == Ok::<(), PlacingError>(()));
            assert(!old(self)@.full()) by {
                assert(old(self)@.cell(m.x as int, m.y as int) == BoardValue::Empty);
            }
        }
        Ok(())
    }
}

} // verus!
