//! The simulated-annealing strategy: fill every blank with one of the
//! missing digits, then repeatedly swap two cells of a random unit,
//! keeping swaps that do not worsen the conflict score and keeping
//! worsening swaps only with a probability that falls as the temperature
//! cools. The strategy never reports a contradiction: it ends in success
//! exactly when the score reaches the perfect-solution target, or gives
//! up at the iteration cap.

use vstd::prelude::*;
use vstd::pervasive::VecAdditionalExecFns;

use crate::board::{Sudoku, board_solved};
use crate::score::{
    board_score, score_spec, occ, occ_upto, sum_occ, lemma_score_solved, lemma_occ_update,
    lemma_occ_multiset, lemma_occ_upto_agree, lemma_sum_occ_le_nonzero, lemma_nonzero_zeros,
    lemma_valid_occ_le9, PERFECT_SCORE,
};
use crate::board::{zeros, zeros_upto, lemma_zeros_upto_le};
use crate::topology::{unit_cells, unit_member};

verus! {

#[verifier::external_type_specification]
#[verifier::external_body]
pub struct ExStdRng(rand::rngs::StdRng);

/// Relies on rand's `SeedableRng::seed_from_u64`: builds a generator from
/// a 64-bit seed.
#[verifier::external_body]
fn rng_from_seed(seed: u64) -> rand::rngs::StdRng {
    <rand::rngs::StdRng as rand::SeedableRng>::seed_from_u64(seed)
}

/// Relies on rand's `Rng::gen_range` on `0..n`: returns a value drawn
/// from the range, and panics only on an empty one, which the
/// precondition rules out.
#[verifier::external_body]
fn rng_below(rng: &mut rand::rngs::StdRng, n: usize) -> (r: usize)
    requires
        n > 0,
    ensures
        r < n,
{
    rand::Rng::gen_range(rng, 0..n)
}

/// Relies on rand's `SliceRandom::shuffle`: permutes the slice in place
/// by swaps, so the multiset of values is preserved.
#[verifier::external_body]
fn rng_shuffle(rng: &mut rand::rngs::StdRng, v: &mut Vec<u8>)
    ensures
        final(v)@.to_multiset() == old(v)@.to_multiset(),
{
    rand::seq::SliceRandom::shuffle(v.as_mut_slice(), rng);
}

/// The simulated-annealing strategy. The temperature is held in fixed
/// point, in units of 1/1024; cooling multiplies it by
/// `cooling_factor`/1024 after every move.
pub struct StochasticSolver {
    /// Current temperature, in units of 1/1024.
    pub temperature: u64,
    /// The temperature restored after a run.
    pub temperature_start: u64,
    /// Cooling numerator per 1024.
    pub cooling_factor: u64,
    /// The iteration cap: the only bound on a run.
    pub max_iters: usize,
    /// Moves made so far.
    pub counter: usize,
    /// The seeded generator driving shuffles, swaps and acceptance draws.
    pub rng: rand::rngs::StdRng,
}

/// How many copies of digit `e` the board is still missing from its quota
/// of nine.
pub open spec fn missing_of(b: Seq<u8>, e: u8) -> nat {
    if occ(b, e) < 9 {
        (9 - occ(b, e)) as nat
    } else {
        0
    }
}

/// The first `c` cells of the filled grid hold, for every digit, the
/// starting occurrences plus the copies taken from the fill list so far.
pub open spec fn fill_accounted(nb: Seq<u8>, b0: Seq<u8>, ms: Seq<u8>, c: int, idx: int) -> bool {
    forall|e: u8| 1 <= e <= 9 ==> occ_upto(nb, e, c) == occ_upto(b0, e, c) + #[trigger] occ_upto(
        ms,
        e,
        idx,
    )
}

/// The missing copies of the digits `1..=dmax`, summed.
pub open spec fn sum_missing_upto(b: Seq<u8>, dmax: int) -> nat
    decreases dmax,
{
    if dmax <= 0 {
        0
    } else {
        sum_missing_upto(b, dmax - 1) + missing_of(b, dmax as u8)
    }
}

proof fn lemma_sum_missing_occ(b: Seq<u8>, dmax: int)
    requires
        0 <= dmax <= 9,
        forall|d: u8| 1 <= d <= 9 ==> #[trigger] occ(b, d) <= 9,
    ensures
        sum_missing_upto(b, dmax) + sum_occ(b, dmax) == 9 * dmax,
    decreases dmax,
{
    if dmax > 0 {
        lemma_sum_missing_occ(b, dmax - 1);
        assert(occ(b, dmax as u8) <= 9);
    }
}

/// With no digit over its quota, the missing copies are exactly as many
/// as the blanks.
proof fn lemma_missing_total(b: Seq<u8>)
    requires
        b.len() == 81,
        forall|c: int| 0 <= c < 81 ==> #[trigger] b[c] <= 9,
        forall|d: u8| 1 <= d <= 9 ==> #[trigger] occ(b, d) <= 9,
    ensures
        sum_missing_upto(b, 9) == zeros(b),
{
    lemma_sum_missing_occ(b, 9);
    lemma_sum_occ_le_nonzero(b, 81);
    lemma_nonzero_zeros(b, 81);
}

impl StochasticSolver {
    /// The configuration bounds all arithmetic below.
    pub open spec fn cfg_wf(&self) -> bool {
        &&& self.temperature <= 0x4000_0000u64
        &&& self.temperature_start <= 0x4000_0000u64
        &&& self.cooling_factor < 1024
    }

    /// A fresh solver with the given start temperature (in units of
    /// 1/1024), cooling numerator per 1024, iteration cap, and seed.
    pub fn new(temperature: u64, cooling_factor: u64, max_iters: usize, seed: u64) -> (s:
        StochasticSolver)
        requires
            temperature <= 0x4000_0000u64,
            cooling_factor < 1024,
        ensures
            s.cfg_wf(),
            s.temperature == temperature,
            s.temperature_start == temperature,
            s.cooling_factor == cooling_factor,
            s.max_iters == max_iters,
            s.counter == 0,
    {
        StochasticSolver {
            temperature,
            temperature_start: temperature,
            cooling_factor,
            max_iters,
            counter: 0,
            rng: rng_from_seed(seed),
        }
    }

    /// One cooling step: the temperature falls by the cooling factor.
    fn cool_down(&mut self)
        requires
            old(self).cfg_wf(),
        ensures
            final(self).cfg_wf(),
            final(self).temperature == old(self).temperature * old(self).cooling_factor / 1024,
            final(self).temperature_start == old(self).temperature_start,
            final(self).cooling_factor == old(self).cooling_factor,
            final(self).max_iters == old(self).max_iters,
            final(self).counter == old(self).counter,
    {
        proof {
            let t = old(self).temperature;
            let f = old(self).cooling_factor;
            assert(t * f <= 0x4000_0000u64 * 1024) by (nonlinear_arith)
                requires
                    t <= 0x4000_0000u64,
                    f < 1024,
            ;
        }
        self.temperature = self.temperature * self.cooling_factor / 1024;
    }

    /// The Metropolis acceptance test. A move that does not worsen the
    /// score is always kept; a worsening move is kept with a probability
    /// that falls with the score increase and rises with the temperature.
    fn accept(&mut self, delta: i32) -> (r: bool)
        requires
            old(self).cfg_wf(),
            -243 <= delta <= 243,
        ensures
            delta <= 0 ==> r,
            final(self).cfg_wf(),
            final(self).temperature == old(self).temperature,
            final(self).temperature_start == old(self).temperature_start,
            final(self).cooling_factor == old(self).cooling_factor,
            final(self).max_iters == old(self).max_iters,
            final(self).counter == old(self).counter,
    {
        if delta <= 0 {
            true
        } else {
            let den = self.temperature + (delta as u64) * 1024;
            let draw = rng_below(&mut self.rng, den as usize);
            (draw as u64) < self.temperature
        }
    }

    /// Swaps the values of two randomly chosen cells of a randomly chosen
    /// unit, which preserves the digit quotas the fill step established.
    fn swap_random(&mut self, board: &mut Sudoku)
        requires
            old(self).cfg_wf(),
            old(board).wf(),
            old(self).counter < old(self).max_iters,
        ensures
            final(board).wf(),
            final(board).candidates@ == old(board).candidates@,
            final(self).cfg_wf(),
            final(self).counter == old(self).counter + 1,
            final(self).temperature == old(self).temperature,
            final(self).temperature_start == old(self).temperature_start,
            final(self).cooling_factor == old(self).cooling_factor,
            final(self).max_iters == old(self).max_iters,
            // exactly two cells of one unit exchange their values, which
            // preserves the per-digit occurrence counts
            exists|ci: int, cj: int, u: int|
                0 <= u < 27 && unit_member(u, ci) && unit_member(u, cj) && final(board).board@
                    == old(board).board@.update(ci, old(board).board@[cj]).update(
                    cj,
                    old(board).board@[ci],
                ),
    {
        let u = rng_below(&mut self.rng, 27);
        let uc = unit_cells(u);
        proof {
            assert forall|k2: int| 0 <= k2 < 9 implies #[trigger] uc@[k2] < 81 by {
                assert(unit_member(u as int, uc@[k2] as int));
            }
        }
        let i = rng_below(&mut self.rng, 9);
        let j = rng_below(&mut self.rng, 9);
        let ci = uc[i];
        let cj = uc[j];
        let vi = board.board[ci];
        let vj = board.board[cj];
        board.board.set(ci, vj);
        board.board.set(cj, vi);
        self.counter = self.counter + 1;
        proof {
            assert(unit_member(u as int, ci as int) && unit_member(u as int, cj as int));
            assert(board.board@ == old(board).board@.update(
                ci as int,
                old(board).board@[cj as int],
            ).update(cj as int, old(board).board@[ci as int]));
        }
    }

    /// Runs the annealing search: counts per-digit occurrences, fills the
    /// blanks with a shuffled permutation of the missing digits, then
    /// swaps and cools until the perfect score is reached or the
    /// iteration cap runs out. Success means the board is a full valid
    /// solution.
    #[verifier::loop_isolation(false)]
    pub fn solve_board(&mut self, board: &mut Sudoku) -> (r: bool)
        requires
            old(self).cfg_wf(),
            old(board).wf(),
            forall|d: u8| 1 <= d <= 9 ==> #[trigger] occ(old(board).board@, d) <= 9,
        ensures
            final(board).wf(),
            final(board).candidates@ == old(board).candidates@,
            final(self).cfg_wf(),
            final(self).temperature == final(self).temperature_start,
            forall|c: int| 0 <= c < 81 ==> #[trigger] final(board).board@[c] != 0,
            // the digit quotas: the fill establishes nine of each digit,
            // every swap preserves them, a rejected move restores them
            forall|d: u8| 1 <= d <= 9 ==> #[trigger] occ(final(board).board@, d) == 9,
            r ==> board_solved(final(board).board@),
            r <==> score_spec(final(board).board@) == PERFECT_SCORE as int,
    {
        let mut counts: Vec<u8> = Vec::new();
        for d in 0..9
            invariant
                counts@.len() == d,
                forall|i: int| 0 <= i < d ==> #[trigger] counts@[i] == 0,
        {
            counts.push(0);
        }
        for c in 0..81
            invariant
                board.wf(),
                counts@.len() == 9,
                forall|i: int| 0 <= i < 9 ==> #[trigger] counts@[i] <= c,
                forall|i: int| 0 <= i < 9 ==> #[trigger] counts@[i] == occ_upto(
                    board.board@,
                    (i + 1) as u8,
                    c as int,
                ),
        {
            let d = board.board[c];
            if d != 0 {
                let i = (d - 1) as usize;
                counts.set(i, counts[i] + 1);
            }
        }
        let mut missing: Vec<u8> = Vec::new();
        proof {
            missing@.to_multiset_ensures();
            assert forall|e: u8| #[trigger] missing@.to_multiset().count(e) == 0 by {
                assert(!missing@.contains(e));
            }
        }
        for d in 1..10u8
            invariant
                board.wf(),
                counts@.len() == 9,
                forall|i: int| 0 <= i < 9 ==> #[trigger] counts@[i] == occ(
                    board.board@,
                    (i + 1) as u8,
                ),
                forall|i: int| 0 <= i < missing@.len() ==> 1 <= #[trigger] missing@[i] <= 9,
                forall|e: u8| 1 <= e < d ==> #[trigger] missing@.to_multiset().count(e)
                    == missing_of(board.board@, e),
                forall|e: u8| !(1 <= e < d) ==> #[trigger] missing@.to_multiset().count(e) == 0,
                missing@.len() == sum_missing_upto(board.board@, d - 1),
        {
            let cnt = counts[(d - 1) as usize];
            let mut k = cnt;
            let ghost row_start = missing@;
            while k < 9
                invariant
                    1 <= d <= 9,
                    cnt <= k,
                    k <= 9 || k == cnt,
                    forall|i: int| 0 <= i < missing@.len() ==> 1 <= #[trigger] missing@[i] <= 9,
                    forall|e: u8| e != d ==> #[trigger] missing@.to_multiset().count(e)
                        == row_start.to_multiset().count(e),
                    missing@.to_multiset().count(d) == row_start.to_multiset().count(d) + (k
                        - cnt),
                    missing@.len() == row_start.len() + (k - cnt),
                decreases 9 - k,
            {
                proof {
                    missing@.to_multiset_ensures();
                }
                missing.push(d);
                k = k + 1;
            }
        }
        let ghost missing_pre = missing@;
        proof {
            // the list handed to the shuffle holds, for every digit,
            // exactly the copies its quota of nine still misses
            assert forall|e: u8| 1 <= e <= 9 implies #[trigger] missing@.to_multiset().count(e)
                == missing_of(board.board@, e) by {}
        }
        rng_shuffle(&mut self.rng, &mut missing);
        proof {
            assert forall|e: u8| 1 <= e <= 9 implies #[trigger] missing@.to_multiset().count(e)
                == missing_of(board.board@, e) by {}
        }
        proof {
            missing_pre.to_multiset_ensures();
            missing@.to_multiset_ensures();
            assert forall|i: int| 0 <= i < missing@.len() implies 1 <= #[trigger] missing@[i]
                <= 9 by {
                assert(missing@.contains(missing@[i]));
                assert(missing@.to_multiset().count(missing@[i]) > 0);
                assert(missing_pre.to_multiset().count(missing@[i]) > 0);
                assert(missing_pre.contains(missing@[i]));
                let j = choose|j: int| 0 <= j < missing_pre.len() && missing_pre[j] == missing@[i];
            }
        }
        proof {
            // the shuffle kept the length, which matches the blank count
            missing_pre.to_multiset_ensures();
            missing@.to_multiset_ensures();
            lemma_missing_total(board.board@);
            assert(missing@.len() == zeros(old(board).board@));
            assert forall|e: u8| 1 <= e <= 9 implies #[trigger] missing@.to_multiset().count(e)
                == missing_of(old(board).board@, e) by {}
        }
        let mut idx: usize = 0;
        for c in 0..81
            invariant
                board.wf(),
                board.candidates@ == old(board).candidates@,
                missing@.len() == zeros(old(board).board@),
                forall|e: u8| 1 <= e <= 9 ==> #[trigger] missing@.to_multiset().count(e)
                    == missing_of(old(board).board@, e),
                forall|i: int| 0 <= i < missing@.len() ==> 1 <= #[trigger] missing@[i] <= 9,
                idx == zeros_upto(old(board).board@, c as int),
                idx <= missing@.len(),
                forall|x: int| c <= x < 81 ==> #[trigger] board.board@[x] == old(
                    board,
                ).board@[x],
                forall|x: int| 0 <= x < c ==> #[trigger] board.board@[x] != 0,
                fill_accounted(
                    board.board@,
                    old(board).board@,
                    missing@,
                    c as int,
                    idx as int,
                ),
        {
            if board.board[c] == 0 {
                let cap = missing.len();
                proof {
                    // one blank more among the first c + 1 cells than among
                    // the first c, and never more blanks than the list holds
                    assert(old(board).board@[c as int] == 0);
                    assert(zeros_upto(old(board).board@, c + 1) == zeros_upto(
                        old(board).board@,
                        c as int,
                    ) + 1);
                    lemma_zeros_upto_le(old(board).board@, c + 1, 81);
                    assert(zeros(old(board).board@) == zeros_upto(old(board).board@, 81));
                    assert(idx < cap);
                }
                let ghost pre_fill = board.board@;
                let ghost idx0 = idx as int;
                board.board.set(c, missing[idx]);
                idx = idx + 1;
                proof {
                    assert(fill_accounted(
                        pre_fill,
                        old(board).board@,
                        missing@,
                        c as int,
                        idx0,
                    ));
                    assert forall|e: u8| 1 <= e <= 9 implies occ_upto(board.board@, e, c + 1)
                        == occ_upto(old(board).board@, e, c + 1) + #[trigger] occ_upto(
                        missing@,
                        e,
                        idx as int,
                    ) by {
                        assert(occ_upto(pre_fill, e, c as int) == occ_upto(
                            old(board).board@,
                            e,
                            c as int,
                        ) + occ_upto(missing@, e, idx0));
                        lemma_occ_upto_agree(pre_fill, board.board@, e, c as int);
                        assert(board.board@[c as int] == missing@[idx0]);
                        assert(occ_upto(missing@, e, idx0 + 1) == occ_upto(missing@, e, idx0)
                            + (if missing@[idx0] == e {
                            1nat
                        } else {
                            0nat
                        }));
                        assert(occ_upto(old(board).board@, e, c + 1) == occ_upto(
                            old(board).board@,
                            e,
                            c as int,
                        ));
                    }
                }
            } else {
                proof {
                    assert(fill_accounted(
                        board.board@,
                        old(board).board@,
                        missing@,
                        c as int,
                        idx as int,
                    ));
                    assert forall|e: u8| 1 <= e <= 9 implies occ_upto(board.board@, e, c + 1)
                        == occ_upto(old(board).board@, e, c + 1) + #[trigger] occ_upto(
                        missing@,
                        e,
                        idx as int,
                    ) by {
                        assert(occ_upto(board.board@, e, c as int) == occ_upto(
                            old(board).board@,
                            e,
                            c as int,
                        ) + occ_upto(missing@, e, idx as int));
                        assert(board.board@[c as int] == old(board).board@[c as int]);
                    }
                }
            }
        }
        proof {
            // the fill consumed the whole list: every quota reaches nine
            assert(zeros(old(board).board@) == zeros_upto(old(board).board@, 81));
            assert(idx == missing@.len());
            assert(fill_accounted(board.board@, old(board).board@, missing@, 81, idx as int));
            assert forall|e: u8| 1 <= e <= 9 implies #[trigger] occ(board.board@, e) == 9 by {
                assert(occ_upto(board.board@, e, 81) == occ_upto(old(board).board@, e, 81)
                    + occ_upto(missing@, e, idx as int));
                assert(occ_upto(missing@, e, missing@.len() as int) == occ(missing@, e));
                lemma_occ_multiset(missing@, e);
            }
        }
        let mut score = board_score(board);
        while score > PERFECT_SCORE && self.counter < self.max_iters
            invariant
                board.wf(),
                board.candidates@ == old(board).candidates@,
                self.cfg_wf(),
                self.temperature_start == old(self).temperature_start,
                score == score_spec(board.board@),
                PERFECT_SCORE <= score <= 0,
                forall|c: int| 0 <= c < 81 ==> #[trigger] board.board@[c] != 0,
                forall|e: u8| 1 <= e <= 9 ==> #[trigger] occ(board.board@, e) == 9,
            decreases self.max_iters - self.counter,
        {
            let old_board = board.duplicate();
            let ghost before = board.board@;
            let old_score = score;
            self.swap_random(board);
            proof {
                // a swap only rearranges values: no blank appears and the
                // per-digit quotas stay at nine
                let (ci, cj, u) = choose|ci: int, cj: int, u: int|
                    0 <= u < 27 && unit_member(u, ci) && unit_member(u, cj) && board.board@
                        == before.update(ci, before[cj]).update(cj, before[ci]);
                assert forall|c: int| 0 <= c < 81 implies #[trigger] board.board@[c] != 0 by {
                    if c != ci && c != cj {
                        assert(board.board@[c] == before[c]);
                    }
                }
                assert forall|e: u8| 1 <= e <= 9 implies #[trigger] occ(board.board@, e)
                    == 9 by {
                    let mid_seq = before.update(ci, before[cj]);
                    lemma_occ_update(before, ci, before[cj], e);
                    lemma_occ_update(mid_seq, cj, before[ci], e);
                    assert(mid_seq[cj] == before[cj] || ci == cj);
                }
            }
            score = board_score(board);
            if !self.accept(score - old_score) {
                *board = old_board;
                score = old_score;
            }
            self.cool_down();
        }
        self.temperature = self.temperature_start;
        if score == PERFECT_SCORE {
            proof {
                lemma_score_solved(board.board@);
            }
            true
        } else {
            false
        }
    }
}

impl crate::solver::Solver for StochasticSolver {
    fn solve(&mut self, board: &mut Sudoku) -> (r: bool) {
        // a configuration outside the arithmetic bounds cannot run
        if self.temperature <= 0x4000_0000u64 && self.temperature_start <= 0x4000_0000u64
            && self.cooling_factor < 1024 {
            proof {
                // a constraint-free board holds each digit at most once
                // per row, so no quota is exceeded
                assert forall|d: u8| 1 <= d <= 9 implies #[trigger] occ(board.board@, d)
                    <= 9 by {
                    lemma_valid_occ_le9(board.board@, d);
                }
            }
            self.solve_board(board)
        } else {
            false
        }
    }

    fn name(&self) -> String {
        String::from_str("Stochastic Solver")
    }

    fn initialize_candidates(&mut self, board: &mut Sudoku) -> (ok: bool) {
        // the strategy needs no candidate domains; it only confirms that
        // none of them is already empty
        for c in 0..81
            invariant
                board.wf(),
                board.board@ == old(board).board@,
                forall|x: int| 0 <= x < c ==> #[trigger] board.candidates@[x] != 0,
        {
            if board.cell_candidates(c) == 0 {
                return false;
            }
        }
        true
    }

    fn is_correct(&self, board: &mut Sudoku) -> (r: bool) {
        board.board_correct()
    }
}

} // verus!
