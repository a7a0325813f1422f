//! Backtracking search: the brute-force strategy over board values and the
//! constraint-programming strategy over candidate domains.

use vstd::prelude::*;
use vstd::pervasive::VecAdditionalExecFns;

use crate::board::{
    Sudoku, board_partial_valid, board_solved, zeros, lemma_zeros_fill, lemma_place_valid,
};
use crate::domain::{
    mask_count, mask_has_exec, mask_size, total_count, lemma_singleton_count,
};
use crate::propagate::{
    cands_shrink, singleton_fixpoint, solution_in, unpropagated, lemma_shrink_counts,
    lemma_shrink_total_le,
};
use crate::board::solution_of;
use crate::domain::{is_singleton, mask_has};
use crate::topology::is_peer;

verus! {

/// Every cell is settled on a single candidate.
pub open spec fn all_singleton(cand: Seq<u16>) -> bool {
    forall|c: int| 0 <= c < 81 ==> mask_count(#[trigger] cand[c]) == 1
}

/// A grid read off settled, fully propagated domains is a valid board:
/// once every cell is down to one candidate and every settled digit has
/// been crossed off its peers, no two peers carry the same digit.
pub proof fn lemma_settled_valid(cand: Seq<u16>, b: Seq<u8>)
    requires
        all_singleton(cand),
        singleton_fixpoint(cand),
        forall|c: int| 0 <= c < 81 ==> is_singleton(#[trigger] cand[c], b[c]),
    ensures
        board_partial_valid(b),
{
    assert forall|c1: int, c2: int| #[trigger] is_peer(c1, c2) && b[c1] != 0 implies b[c1]
        != b[c2] by {
        if b[c1] == b[c2] {
            assert(is_singleton(cand[c1], b[c1]));
            assert(is_singleton(cand[c2], b[c2]));
            assert(mask_has(cand[c2], b[c1]));
            assert(unpropagated(cand, c1, c2, b[c1]));
            assert(false);
        }
    }
}

/// Whether every cell's domain is down to exactly one candidate.
pub fn domains_settled(board: &Sudoku) -> (r: bool)
    requires
        board.wf(),
    ensures
        r == all_singleton(board.candidates@),
{
    for c in 0..81
        invariant
            board.wf(),
            forall|x: int| 0 <= x < c ==> mask_count(#[trigger] board.candidates@[x]) == 1,
    {
        if mask_size(board.candidates[c]) != 1 {
            return false;
        }
    }
    true
}

/// The digit a settled (single-candidate) domain is down to.
pub open spec fn settled_digit(m: u16) -> u8 {
    choose|d: u8| is_singleton(m, d)
}

/// The grid read off settled domains.
pub open spec fn settled_grid(cand: Seq<u16>) -> Seq<u8> {
    Seq::new(81, |c: int| settled_digit(cand[c]))
}

/// Settled, fully propagated domains carry a complete valid solution:
/// the grid they spell out.
pub proof fn lemma_settled_solution(cand: Seq<u16>)
    requires
        all_singleton(cand),
        singleton_fixpoint(cand),
    ensures
        solution_in(settled_grid(cand), cand),
{
    let sol = settled_grid(cand);
    assert forall|c: int| 0 <= c < 81 implies is_singleton(#[trigger] cand[c], sol[c])
        && mask_has(cand[c], sol[c]) by {
        let d = crate::domain::lemma_one_count_one(cand[c], 9);
        crate::domain::lemma_count_one_singleton(cand[c], d);
        assert(is_singleton(cand[c], settled_digit(cand[c])));
    }
    lemma_settled_valid(cand, sol);
}

/// A complete valid grid that keeps every given of the partial grid `b`
/// and fills every blank of `b` from its candidate domain.
pub open spec fn board_completion(sol: Seq<u8>, b: Seq<u8>, cand: Seq<u16>) -> bool {
    &&& sol.len() == 81
    &&& board_solved(sol)
    &&& forall|c: int| 0 <= c < 81 && b[c] != 0 ==> #[trigger] sol[c] == b[c]
    &&& forall|c: int| 0 <= c < 81 && b[c] == 0 ==> mask_has(cand[c], #[trigger] sol[c])
}

/// Backtracking over board values: picks the blank cell with the fewest
/// remaining candidates, tries each of its candidate digits that no peer
/// carries, and undoes the placement when the recursion fails.
pub struct BruteForceSolver;

impl BruteForceSolver {
    pub fn new() -> (s: BruteForceSolver) {
        BruteForceSolver
    }

    /// Runs the backtracking search. On success the board is a full valid
    /// solution; on failure it is unchanged.
    #[verifier::loop_isolation(false)]
    pub fn solve_board(&mut self, board: &mut Sudoku) -> (r: bool)
        requires
            old(board).wf(),
            board_partial_valid(old(board).board@),
        ensures
            final(board).wf(),
            final(board).candidates@ == old(board).candidates@,
            r ==> board_solved(final(board).board@),
            // the search fills blanks; it never overwrites a given digit
            forall|c: int| 0 <= c < 81 && old(board).board@[c] != 0 ==> final(board).board@[c]
                == old(board).board@[c],
            !r ==> final(board).board@ == old(board).board@,
            // success fills every blank from its candidate domain, and is
            // owed exactly when such a completion exists at all
            r ==> board_completion(
                final(board).board@,
                old(board).board@,
                old(board).candidates@,
            ),
            r <==> (exists|sol: Seq<u8>| board_completion(
                sol,
                old(board).board@,
                old(board).candidates@,
            )),
        decreases zeros(old(board).board@),
    {
        let ghost b0 = board.board@;
        let ghost cand0 = board.candidates@;
        let mut best: usize = 81;
        let mut best_count: usize = 10;
        for c in 0..81
            invariant
                best <= 81,
                best == 81 ==> best_count == 10,
                best == 81 ==> forall|x: int| 0 <= x < c ==> board.board@[x] != 0,
                best < 81 ==> board.board@[best as int] == 0,
        {
            if board.board[c] == 0 {
                let n = mask_size(board.candidates[c]);
                proof {
                    crate::domain::lemma_count_le(board.candidates@[c as int], 9);
                }
                if n < best_count {
                    best_count = n;
                    best = c;
                }
            }
        }
        if best == 81 {
            proof {
                assert(board_completion(board.board@, b0, cand0));
            }
            return true;
        }
        let cell = best;
        let row = cell / 9;
        let col = cell % 9;
        proof {
            assert(row * 9 + col == cell && row < 9 && col < 9) by (nonlinear_arith)
                requires
                    row == cell as int / 9,
                    col == cell as int % 9,
                    cell < 81,
            ;
        }
        for num in 1..10u8
            invariant
                board.wf(),
                board.board@ == b0,
                board.candidates@ == cand0,
                cand0 == old(board).candidates@,
                cell < 81,
                row == cell as int / 9,
                col == cell as int % 9,
                row < 9,
                col < 9,
                board.board@[cell as int] == 0,
                forall|sol: Seq<u8>| #[trigger] board_completion(sol, b0, cand0)
                    ==> sol[cell as int] >= num,
        {
            let ghost tried = num;
            let has_digit = mask_has_exec(board.candidates[cell], num);
            let valid_here = has_digit && board.is_valid(row, col, num);
            if valid_here {
                board.board.set(cell, num);
                let ghost placed = board.board@;
                proof {
                    lemma_place_valid(b0, cell as int, num);
                    lemma_zeros_fill(b0, cell as int, num, 81);
                }
                if self.solve_board(board) {
                    proof {
                        assert forall|c: int| 0 <= c < 81 && b0[c] != 0 implies #[trigger]
                            board.board@[c] == b0[c] by {
                            assert(placed[c] == b0[c]);
                        }
                        assert(board.board@[cell as int] == num);
                        assert(board_completion(board.board@, b0, cand0));
                    }
                    return true;
                }
                board.board.set(cell, 0);
                proof {
                    assert(board.board@ =~= b0);
                    // the failed branch rules this digit out for good
                    assert forall|sol: Seq<u8>| #[trigger] board_completion(sol, b0, cand0)
                        implies sol[cell as int] != tried by {
                        if sol[cell as int] == tried {
                            assert(board_completion(sol, placed, cand0));
                        }
                    }
                }
            } else {
                proof {
                    assert forall|sol: Seq<u8>| #[trigger] board_completion(sol, b0, cand0)
                        implies sol[cell as int] != tried by {
                        if sol[cell as int] == tried {
                            assert(mask_has(cand0[cell as int], sol[cell as int]));
                            assert(has_digit);
                            // some peer already carries the digit, which the
                            // solution must repeat: impossible in a valid grid
                            let p = choose|p: int|
                                is_peer(cell as int, p) && b0[p] == tried;
                            assert(sol[p] == tried);
                            assert(false);
                        }
                    }
                }
            }
        }
        proof {
            assert forall|sol: Seq<u8>| !(#[trigger] board_completion(sol, b0, cand0)) by {
                if board_completion(sol, b0, cand0) {
                    assert(mask_has(cand0[cell as int], sol[cell as int]));
                    assert(false);
                }
            }
        }
        false
    }
}

/// Constraint-programming search: full propagation per placement, with
/// backtracking over candidate domains and a snapshot taken before every
/// speculative assignment.
pub struct CSPSolver {
    /// Unsettled cells, in nondecreasing order of domain size.
    pub queue: Vec<usize>,
}

impl CSPSolver {
    pub fn new() -> (s: CSPSolver)
        ensures
            s.queue@.len() == 0,
    {
        CSPSolver { queue: Vec::new() }
    }

    /// Whether every cell is settled on exactly one candidate.
    pub fn solved(&self, board: &Sudoku) -> (r: bool)
        requires
            board.wf(),
        ensures
            r == all_singleton(board.candidates@),
    {
        domains_settled(board)
    }

    /// Picks the unsettled cell with the fewest candidates, tries each of
    /// its candidates through `assign`, and restores the snapshot when a
    /// branch fails. On success every domain is a singleton; on failure the
    /// domains are unchanged.
    #[verifier::loop_isolation(false)]
    pub fn search(&mut self, board: &mut Sudoku) -> (r: bool)
        requires
            old(board).wf(),
            old(board).domains_ok(),
        ensures
            final(board).wf(),
            final(board).board@ == old(board).board@,
            cands_shrink(final(board).candidates@, old(board).candidates@),
            r ==> all_singleton(final(board).candidates@),
            r ==> final(board).domains_ok(),
            r && singleton_fixpoint(old(board).candidates@) ==> singleton_fixpoint(
                final(board).candidates@,
            ),
            !r ==> final(board).candidates@ == old(board).candidates@,
            // success owed: failure means no complete valid solution can be
            // drawn from the starting domains at all
            (exists|sol: Seq<u8>| solution_in(sol, old(board).candidates@)) ==> r,
            // and, from a fully propagated start, success exhibits one
            r && singleton_fixpoint(old(board).candidates@) ==> (exists|sol: Seq<u8>|
                solution_in(sol, old(board).candidates@)),
        decreases total_count(old(board).candidates@),
    {
        let ghost cand0 = board.candidates@;
        let mut best: usize = 81;
        let mut best_count: usize = 10;
        for c in 0..81
            invariant
                board.wf(),
                best <= 81,
                best == 81 ==> best_count == 10,
                best == 81 ==> forall|x: int| 0 <= x < c ==> mask_count(
                    #[trigger] board.candidates@[x],
                ) <= 1,
                best < 81 ==> mask_count(board.candidates@[best as int]) >= 2,
        {
            let n = mask_size(board.candidates[c]);
            proof {
                crate::domain::lemma_count_le(board.candidates@[c as int], 9);
            }
            if n > 1 && n < best_count {
                best_count = n;
                best = c;
            }
        }
        if best == 81 {
            proof {
                assert forall|c: int| 0 <= c < 81 implies mask_count(
                    #[trigger] board.candidates@[c],
                ) == 1 by {
                    let m = board.candidates@[c];
                    if mask_count(m) == 0 {
                        crate::domain::lemma_count_zero(m, 9);
                        let e = crate::domain::lemma_mask_nonzero_has(m);
                        assert(false);
                    }
                }
                if singleton_fixpoint(cand0) {
                    lemma_settled_solution(cand0);
                }
            }
            return true;
        }
        let cell = best;
        for num in 1..10u8
            invariant
                board.wf(),
                board.domains_ok(),
                board.board@ == old(board).board@,
                board.candidates@ == cand0,
                cell < 81,
                mask_count(cand0[cell as int]) >= 2,
                forall|sol: Seq<u8>| #[trigger] solution_in(sol, cand0) ==> sol[cell as int]
                    >= num,
        {
            let ghost tried = num;
            if mask_has_exec(board.candidates[cell], num) {
                let snapshot = board.duplicate();
                if board.assign(cell, num) {
                    let ghost mid = board.candidates@;
                    proof {
                        lemma_singleton_count(board.candidates@[cell as int], num);
                        lemma_shrink_counts(board.candidates@, cand0);
                        crate::domain::lemma_total_lt(board.candidates@, cand0, cell as int, 81);
                    }
                    if self.search(board) {
                        proof {
                            lemma_shrink_total_le(board.candidates@, cand0);
                            if singleton_fixpoint(cand0) {
                                assert(singleton_fixpoint(mid));
                                assert(exists|sol: Seq<u8>| solution_in(sol, mid));
                                let sol = choose|sol: Seq<u8>| solution_in(sol, mid);
                                assert forall|c: int| 0 <= c < 81 implies mask_has(
                                    #[trigger] cand0[c],
                                    sol[c],
                                ) by {
                                    assert(mask_has(mid[c], sol[c]));
                                }
                                assert(solution_in(sol, cand0));
                            }
                        }
                        return true;
                    }
                    proof {
                        // the branch failed: no solution places `num` here
                        assert forall|sol: Seq<u8>| #[trigger] solution_in(sol, cand0)
                            implies sol[cell as int] != tried by {
                            if sol[cell as int] == tried {
                                assert(solution_in(sol, mid));
                            }
                        }
                    }
                } else {
                    proof {
                        assert forall|sol: Seq<u8>| #[trigger] solution_in(sol, cand0)
                            implies sol[cell as int] != tried by {}
                    }
                }
                *board = snapshot;
                proof {
                    assert(board.candidates@ == cand0);
                }
            } else {
                proof {
                    assert forall|sol: Seq<u8>| #[trigger] solution_in(sol, cand0)
                        implies sol[cell as int] != tried by {
                        assert(mask_has(cand0[cell as int], sol[cell as int]));
                    }
                }
            }
        }
        proof {
            assert forall|sol: Seq<u8>| !(#[trigger] solution_in(sol, cand0)) by {
                if solution_in(sol, cand0) {
                    assert(mask_has(cand0[cell as int], sol[cell as int]));
                    assert(sol[cell as int] <= 9);
                    assert(false);
                }
            }
        }
        false
    }
}


impl CSPSolver {
    /// Prepares domains by full propagation and rebuilds the queue of
    /// unsettled cells, smallest domains first. The search itself rescans
    /// domains as propagation narrows them; the queue reports the starting
    /// order.
    #[verifier::loop_isolation(false)]
    pub fn initialize(&mut self, board: &mut Sudoku) -> (ok: bool)
        requires
            old(board).wf(),
        ensures
            final(board).wf(),
            final(board).board@ == old(board).board@,
            ok ==> final(board).domains_ok(),
            ok ==> forall|j: int| 0 <= j < final(self).queue@.len()
                ==> #[trigger] final(self).queue@[j] < 81 && mask_count(
                final(board).candidates@[final(self).queue@[j] as int],
            ) >= 2,
            ok ==> forall|j1: int, j2: int| 0 <= j1 < j2 < final(self).queue@.len() ==> mask_count(
                final(board).candidates@[#[trigger] final(self).queue@[j1] as int],
            ) <= mask_count(final(board).candidates@[#[trigger] final(self).queue@[j2] as int]),
            forall|sol: Seq<u8>| #[trigger] solution_of(sol, old(board).board@) ==> (ok
                && solution_in(sol, final(board).candidates@)),
    {
        if !board.initialize_candidates_heavy() {
            return false;
        }
        self.queue = Vec::new();
        for sz in 2..10usize
            invariant
                board.wf(),
                forall|j: int| 0 <= j < self.queue@.len() ==> #[trigger] self.queue@[j] < 81 && 2
                    <= mask_count(board.candidates@[self.queue@[j] as int]) < sz,
                forall|j1: int, j2: int| 0 <= j1 < j2 < self.queue@.len() ==> mask_count(
                    board.candidates@[#[trigger] self.queue@[j1] as int],
                ) <= mask_count(board.candidates@[#[trigger] self.queue@[j2] as int]),
        {
            for c in 0..81
                invariant
                    board.wf(),
                    2 <= sz < 10,
                    forall|j: int| 0 <= j < self.queue@.len() ==> #[trigger] self.queue@[j] < 81
                        && 2 <= mask_count(board.candidates@[self.queue@[j] as int]) <= sz,
                    forall|j1: int, j2: int| 0 <= j1 < j2 < self.queue@.len() ==> mask_count(
                        board.candidates@[#[trigger] self.queue@[j1] as int],
                    ) <= mask_count(board.candidates@[#[trigger] self.queue@[j2] as int]),
            {
                if mask_size(board.candidates[c]) == sz {
                    self.queue.push(c);
                }
            }
        }
        true
    }
}

impl crate::solver::Solver for BruteForceSolver {
    fn solve(&mut self, board: &mut Sudoku) -> (r: bool) {
        self.solve_board(board)
    }

    fn name(&self) -> String {
        String::from_str("Brute Force Solver")
    }

    fn initialize_candidates(&mut self, board: &mut Sudoku) -> (ok: bool) {
        board.initialize_candidates_heavy()
    }

    fn is_correct(&self, board: &mut Sudoku) -> (r: bool) {
        board.board_correct()
    }
}

impl crate::solver::Solver for CSPSolver {
    fn solve(&mut self, board: &mut Sudoku) -> (r: bool) {
        self.search(board)
    }

    fn name(&self) -> String {
        String::from_str("Constraint Programming Solver")
    }

    fn initialize_candidates(&mut self, board: &mut Sudoku) -> (ok: bool) {
        self.initialize(board)
    }

    fn is_correct(&self, board: &mut Sudoku) -> (r: bool) {
        board.candidates_correct()
    }
}

} // verus!
