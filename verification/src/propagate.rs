//! The constraint-propagation primitives `assign` and `eliminate`.
//!
//! Both are driven by one iterative work list of removal and placement
//! tasks; a cell/digit pair already fully processed in the current batch is
//! never reprocessed. Every step only ever narrows domains; an emptied
//! domain is a contradiction and is reported as failure at once.

use vstd::prelude::*;
use vstd::pervasive::VecAdditionalExecFns;

use crate::board::Sudoku;
use crate::domain::{
    mask_has, is_singleton, mask_has_exec, mask_remove, mask_size, mask_first,
    lemma_count_one_singleton, lemma_mask_nonzero_has, lemma_singleton_count,
};
use crate::topology::{is_peer, peers_of, units_of, unit_cells, unit_cell_at, unit_member};

verus! {

/// A pending unit of propagation work.
pub enum Task {
    /// Take `digit` out of `cell`'s domain.
    Remove { cell: usize, digit: u8 },
    /// Constrain `cell`'s domain to exactly `digit`.
    Place { cell: usize, digit: u8 },
}

pub open spec fn task_valid(t: Task) -> bool {
    match t {
        Task::Remove { cell, digit } => cell < 81 && 1 <= digit <= 9,
        Task::Place { cell, digit } => cell < 81 && 1 <= digit <= 9,
    }
}

/// A removal task whose digit is already out of the domain; placement tasks
/// are not constrained here.
pub open spec fn task_absent(t: Task, cand: Seq<u16>) -> bool {
    match t {
        Task::Remove { cell, digit } => !mask_has(cand[cell as int], digit),
        Task::Place { .. } => true,
    }
}

/// A task that can have no effect: the removal of an already absent digit.
pub open spec fn task_noop(t: Task, cand: Seq<u16>) -> bool {
    t is Remove && task_absent(t, cand)
}

pub open spec fn tasks_absent(ts: Seq<Task>, cand: Seq<u16>) -> bool {
    forall|i: int| 0 <= i < ts.len() ==> task_absent(#[trigger] ts[i], cand)
}

pub open spec fn tasks_noop(ts: Seq<Task>, cand: Seq<u16>) -> bool {
    forall|i: int| 0 <= i < ts.len() ==> task_noop(#[trigger] ts[i], cand)
}

pub open spec fn is_remove_of(t: Task, p: int, d: u8) -> bool {
    match t {
        Task::Remove { cell, digit } => cell == p && digit == d,
        Task::Place { .. } => false,
    }
}

/// Some removal of digit `d` from cell `p` is still queued.
pub open spec fn pending_remove(ts: Seq<Task>, p: int, d: u8) -> bool {
    exists|j: int| 0 <= j < ts.len() && is_remove_of(#[trigger] ts[j], p, d)
}

/// A complete valid solution drawn cell by cell from the given domains.
pub open spec fn solution_in(sol: Seq<u8>, cand: Seq<u16>) -> bool {
    &&& sol.len() == 81
    &&& crate::board::board_solved(sol)
    &&& forall|c: int| 0 <= c < 81 ==> mask_has(#[trigger] cand[c], sol[c])
}

/// The solution agrees with what a task enforces: a removal's digit is not
/// the solution's value there; a placement's digit is.
pub open spec fn task_respected(t: Task, sol: Seq<u8>) -> bool {
    match t {
        Task::Remove { cell, digit } => sol[cell as int] != digit,
        Task::Place { cell, digit } => sol[cell as int] == digit,
    }
}

pub open spec fn tasks_respected(ts: Seq<Task>, sol: Seq<u8>) -> bool {
    forall|i: int| 0 <= i < ts.len() ==> task_respected(#[trigger] ts[i], sol)
}

proof fn lemma_respect_push(ts: Seq<Task>, t: Task, sol: Seq<u8>)
    requires
        tasks_respected(ts, sol),
        task_respected(t, sol),
    ensures
        tasks_respected(ts.push(t), sol),
{
    assert forall|i: int| 0 <= i < ts.push(t).len() implies task_respected(
        #[trigger] ts.push(t)[i],
        sol,
    ) by {
        if i < ts.len() {
            assert(ts.push(t)[i] == ts[i]);
        } else {
            assert(ts.push(t)[i] == t);
        }
    }
}

proof fn lemma_respect_pop(ts: Seq<Task>, sol: Seq<u8>)
    requires
        ts.len() > 0,
        tasks_respected(ts, sol),
    ensures
        tasks_respected(ts.drop_last(), sol),
{
    assert forall|i: int| 0 <= i < ts.drop_last().len() implies task_respected(
        #[trigger] ts.drop_last()[i],
        sol,
    ) by {
        assert(ts.drop_last()[i] == ts[i]);
    }
}

/// The newer domains hold no digit that the older ones lacked.
pub open spec fn cands_shrink(newc: Seq<u16>, oldc: Seq<u16>) -> bool {
    forall|c: int, e: u8| 0 <= c < 81 && #[trigger] mask_has(newc[c], e) ==> mask_has(oldc[c], e)
}

/// Cell `c` is settled on `d`, but peer `p` still holds `d`: the cascade of
/// step two of `eliminate` has not yet reached `p`.
pub open spec fn unpropagated(cand: Seq<u16>, c: int, p: int, d: u8) -> bool {
    is_peer(c, p) && is_singleton(cand[c], d) && mask_has(cand[p], d)
}

/// Every settled (single-candidate) cell has had its digit taken out of the
/// domains of all of its peers.
pub open spec fn singleton_fixpoint(cand: Seq<u16>) -> bool {
    forall|c: int, p: int, d: u8| !(#[trigger] unpropagated(cand, c, p, d))
}

spec fn count_false(s: Seq<bool>) -> nat
    decreases s.len(),
{
    if s.len() == 0 {
        0
    } else {
        count_false(s.drop_last()) + if s.last() {
            0nat
        } else {
            1nat
        }
    }
}

proof fn lemma_count_false_update(s: Seq<bool>, i: int)
    requires
        0 <= i < s.len(),
        !s[i],
    ensures
        count_false(s.update(i, true)) < count_false(s),
    decreases s.len(),
{
    if i == s.len() - 1 {
        assert(s.update(i, true).drop_last() =~= s.drop_last());
        assert(s.update(i, true).last());
    } else {
        lemma_count_false_update(s.drop_last(), i);
        assert(s.update(i, true).drop_last() =~= s.drop_last().update(i, true));
        assert(s.update(i, true).last() == s.last());
    }
}

proof fn lemma_push_keeps(ts: Seq<Task>, t: Task)
    ensures
        forall|p: int, d: u8| #[trigger] pending_remove(ts, p, d) ==> pending_remove(
            ts.push(t),
            p,
            d,
        ),
        forall|x: Task| #[trigger] ts.contains(x) ==> ts.push(t).contains(x),
        ts.push(t).contains(t),
        is_remove_of(t, t->Remove_cell as int, t->Remove_digit) && t is Remove ==> pending_remove(
            ts.push(t),
            t->Remove_cell as int,
            t->Remove_digit,
        ),
{
    assert forall|p: int, d: u8| #[trigger] pending_remove(ts, p, d) implies pending_remove(
        ts.push(t),
        p,
        d,
    ) by {
        let j = choose|j: int| 0 <= j < ts.len() && is_remove_of(ts[j], p, d);
        assert(is_remove_of(ts.push(t)[j], p, d));
    }
    assert forall|x: Task| #[trigger] ts.contains(x) implies ts.push(t).contains(x) by {
        let j = choose|j: int| 0 <= j < ts.len() && ts[j] == x;
        assert(ts.push(t)[j] == x);
    }
    assert(ts.push(t)[ts.len() as int] == t);
    if t is Remove {
        assert(is_remove_of(ts.push(t)[ts.len() as int], t->Remove_cell as int, t->Remove_digit));
    }
}

proof fn lemma_pop_pending(ts: Seq<Task>, p: int, d: u8)
    requires
        ts.len() > 0,
        pending_remove(ts, p, d),
        !is_remove_of(ts.last(), p, d),
    ensures
        pending_remove(ts.drop_last(), p, d),
{
    let j = choose|j: int| 0 <= j < ts.len() && is_remove_of(ts[j], p, d);
    assert(j < ts.len() - 1);
    assert(is_remove_of(ts.drop_last()[j], p, d));
}

/// After a popped task has been handled without touching any domain, every
/// initial task is still accounted for, and so is every queued cascade.
proof fn lemma_keep_after_pop(
    ts0: Seq<Task>,
    tasks_pre: Seq<Task>,
    cand: Seq<u16>,
    t: Task,
)
    requires
        tasks_pre.len() > 0,
        tasks_pre.last() == t,
        task_absent(t, cand),
        forall|i: int| 0 <= i < ts0.len() ==> task_absent(#[trigger] ts0[i], cand)
            || tasks_pre.contains(ts0[i]),
        forall|c: int, p: int, d: u8| #[trigger] unpropagated(cand, c, p, d) ==> pending_remove(
            tasks_pre,
            p,
            d,
        ),
    ensures
        forall|i: int| 0 <= i < ts0.len() ==> task_absent(#[trigger] ts0[i], cand)
            || tasks_pre.drop_last().contains(ts0[i]),
        forall|c: int, p: int, d: u8| #[trigger] unpropagated(cand, c, p, d) ==> pending_remove(
            tasks_pre.drop_last(),
            p,
            d,
        ),
{
    assert forall|i: int| 0 <= i < ts0.len() implies task_absent(#[trigger] ts0[i], cand)
        || tasks_pre.drop_last().contains(ts0[i]) by {
        if !task_absent(ts0[i], cand) {
            let j = choose|j: int| 0 <= j < tasks_pre.len() && tasks_pre[j] == ts0[i];
            if j == tasks_pre.len() - 1 {
                assert(ts0[i] == t);
                assert(false);
            } else {
                assert(tasks_pre.drop_last()[j] == ts0[i]);
            }
        }
    }
    assert forall|c: int, p: int, d: u8| #[trigger] unpropagated(cand, c, p, d) implies
        pending_remove(tasks_pre.drop_last(), p, d) by {
        if is_remove_of(t, p, d) {
            assert(!mask_has(cand[p], d));
            assert(false);
        } else {
            lemma_pop_pending(tasks_pre, p, d);
        }
    }
}

fn false_vec(n: usize) -> (v: Vec<bool>)
    ensures
        v@.len() == n,
        forall|k: int| 0 <= k < n ==> !(#[trigger] v@[k]),
{
    let mut v: Vec<bool> = Vec::new();
    for i in 0..n
        invariant
            v@.len() == i,
            forall|k: int| 0 <= k < i ==> !(#[trigger] v@[k]),
    {
        v.push(false);
    }
    v
}

/// In a batch-respecting solution, the unit's cell carrying the digit is
/// one of the places the scan counted.
pub(crate) proof fn lemma_solution_place(
    sol: Seq<u8>,
    cand: Seq<u16>,
    u: int,
    uc: Seq<usize>,
    digit: u8,
) -> (k: int)
    requires
        solution_in(sol, cand),
        0 <= u < 27,
        1 <= digit <= 9,
        uc.len() == 9,
        forall|k2: int| 0 <= k2 < 9 ==> #[trigger] uc[k2] == unit_cell_at(u, k2),
    ensures
        0 <= k < 9,
        uc[k] < 81,
        sol[uc[k] as int] == digit,
        mask_has(cand[uc[k] as int], digit),
{
    assert forall|c: int| 0 <= c < 81 implies sol[c] <= 9 by {
        assert(mask_has(cand[c], sol[c]));
    }
    crate::score::lemma_solved_unit_present(sol, u, digit);
    let k = choose|k: int| 0 <= k < 9 && sol[unit_cell_at(u, k)] == digit;
    crate::score::lemma_unit_cell_at_member(u, k);
    assert(uc[k] == unit_cell_at(u, k));
    assert(mask_has(cand[uc[k] as int], sol[uc[k] as int]));
    k
}

/// A unit with no remaining place for a digit refutes every
/// batch-respecting solution.
proof fn lemma_no_place_no_solution(
    ts0: Seq<Task>,
    cand0: Seq<u16>,
    cand: Seq<u16>,
    u: int,
    uc: Seq<usize>,
    digit: u8,
)
    requires
        0 <= u < 27,
        1 <= digit <= 9,
        uc.len() == 9,
        forall|k2: int| 0 <= k2 < 9 ==> #[trigger] uc[k2] == unit_cell_at(u, k2),
        forall|k2: int| 0 <= k2 < 9 ==> !mask_has(#[trigger] cand[uc[k2] as int], digit),
        forall|sol: Seq<u8>| #[trigger] solution_in(sol, cand0) && tasks_respected(ts0, sol)
            ==> solution_in(sol, cand),
    ensures
        forall|sol: Seq<u8>| !(#[trigger] solution_in(sol, cand0) && tasks_respected(ts0, sol)),
{
    assert forall|sol: Seq<u8>| !(#[trigger] solution_in(sol, cand0) && tasks_respected(
        ts0,
        sol,
    )) by {
        if solution_in(sol, cand0) && tasks_respected(ts0, sol) {
            let k = lemma_solution_place(sol, cand, u, uc, digit);
            assert(false);
        }
    }
}

proof fn lemma_task_index(cell: int, digit: u8, idx: int)
    requires
        0 <= cell < 81,
        1 <= digit <= 9,
        idx == cell * 9 + digit - 1,
    ensures
        0 <= idx < 729,
        idx / 9 == cell,
        idx % 9 + 1 == digit,
{
    assert(idx / 9 == cell && idx % 9 == digit - 1) by (nonlinear_arith)
        requires
            idx == cell * 9 + digit - 1,
            0 <= cell < 81,
            1 <= digit <= 9,
    ;
}

impl Sudoku {
    /// Runs a batch of propagation tasks to completion. Returns false as
    /// soon as any domain would become empty; on success, every queued
    /// removal has taken effect and every cascade it triggered has run.
    #[verifier::rlimit(100)]
    #[verifier::loop_isolation(false)]
    fn propagate(&mut self, tasks: Vec<Task>) -> (ok: bool)
        requires
            old(self).wf(),
            old(self).domains_ok(),
            forall|i: int| 0 <= i < tasks@.len() ==> task_valid(#[trigger] tasks@[i]),
        ensures
            final(self).wf(),
            final(self).board@ == old(self).board@,
            cands_shrink(final(self).candidates@, old(self).candidates@),
            ok ==> final(self).domains_ok(),
            ok ==> tasks_absent(tasks@, final(self).candidates@),
            ok && singleton_fixpoint(old(self).candidates@) ==> singleton_fixpoint(
                final(self).candidates@,
            ),
            tasks_noop(tasks@, old(self).candidates@) ==> ok && final(self).candidates@ == old(self).candidates@,
            // soundness and owed success: a solution of the old domains
            // that agrees with the whole batch survives every removal, and
            // its existence rules out any contradiction
            forall|sol: Seq<u8>| #[trigger] solution_in(sol, old(self).candidates@)
                && tasks_respected(tasks@, sol) ==> (ok && solution_in(
                sol,
                final(self).candidates@,
            )),
    {
        let ghost ts0 = tasks@;
        let ghost cand0 = self.candidates@;
        let mut tasks = tasks;
        let mut done_remove = false_vec(729);
        let mut done_place = false_vec(729);
        while tasks.len() > 0
            invariant
                self.wf(),
                self.domains_ok(),
                self.board@ == old(self).board@,
                done_remove@.len() == 729,
                done_place@.len() == 729,
                cand0 == old(self).candidates@,
                forall|i: int| 0 <= i < tasks@.len() ==> task_valid(#[trigger] tasks@[i]),
                cands_shrink(self.candidates@, cand0),
                // a settled cell/digit pair is settled for good
                forall|idx: int| 0 <= idx < 729 && #[trigger] done_remove@[idx] ==> !mask_has(
                    self.candidates@[idx / 9],
                    (idx % 9 + 1) as u8,
                ),
                // every task of the initial batch is done or still queued
                forall|i: int| 0 <= i < ts0.len() ==> task_absent(#[trigger] ts0[i], self.candidates@)
                    || tasks@.contains(ts0[i]),
                // a batch of only absent removals changes nothing
                tasks_noop(ts0, cand0) ==> (self.candidates@ == cand0 && forall|j: int|
                    0 <= j < tasks@.len() ==> ts0.contains(#[trigger] tasks@[j])),
                // the cascade keeps every unpropagated singleton queued
                singleton_fixpoint(cand0) ==> (forall|c: int, p: int, d: u8| #[trigger]
                    unpropagated(self.candidates@, c, p, d) ==> pending_remove(tasks@, p, d)),
                // a batch-respecting solution stays drawn from the domains
                // and agrees with every queued task
                forall|sol: Seq<u8>| #[trigger] solution_in(sol, cand0) && tasks_respected(
                    ts0,
                    sol,
                ) ==> (solution_in(sol, self.candidates@) && tasks_respected(tasks@, sol)),
            decreases count_false(done_remove@) + count_false(done_place@), tasks@.len(),
        {
            let ghost tasks_pre = tasks@;
            let t = tasks.pop().unwrap();
            proof {
                assert(tasks_pre.last() == t);
                assert(tasks_pre.drop_last() =~= tasks@);
            }
            match t {
                Task::Remove { cell, digit } => {
                    let idx = cell * 9 + (digit as usize) - 1;
                    proof {
                        lemma_task_index(cell as int, digit, idx as int);
                    }
                    if done_remove[idx] {
                        proof {
                            assert(!mask_has(self.candidates@[cell as int], digit));
                            if singleton_fixpoint(cand0) {
                                lemma_keep_after_pop(ts0, tasks_pre, self.candidates@, t);
                            } else {
                                lemma_keep_tracking_only(ts0, tasks_pre, self.candidates@, t);
                            }
                            assert forall|sol: Seq<u8>| #[trigger] solution_in(sol, cand0)
                                && tasks_respected(ts0, sol) implies tasks_respected(
                                tasks@,
                                sol,
                            ) by {
                                lemma_respect_pop(tasks_pre, sol);
                            }
                        }
                        continue ;
                    }
                    let ghost dr_pre = done_remove@;
                    done_remove.set(idx, true);
                    proof {
                        lemma_count_false_update(dr_pre, idx as int);
                    }
                    let m_old = self.candidates[cell];
                    if !mask_has_exec(m_old, digit) {
                        proof {
                            if singleton_fixpoint(cand0) {
                                lemma_keep_after_pop(ts0, tasks_pre, self.candidates@, t);
                            } else {
                                lemma_keep_tracking_only(ts0, tasks_pre, self.candidates@, t);
                            }
                            assert forall|sol: Seq<u8>| #[trigger] solution_in(sol, cand0)
                                && tasks_respected(ts0, sol) implies tasks_respected(
                                tasks@,
                                sol,
                            ) by {
                                lemma_respect_pop(tasks_pre, sol);
                            }
                        }
                        continue ;
                    }
                    // from here on, the batch is no batch of absent removals
                    proof {
                        if tasks_noop(ts0, cand0) {
                            assert(ts0.contains(tasks_pre[tasks_pre.len() - 1]));
                            let j = choose|j: int| 0 <= j < ts0.len() && ts0[j] == t;
                            assert(task_noop(ts0[j], cand0));
                            assert(self.candidates@ == cand0);
                            assert(false);
                        }
                    }
                    let m2 = mask_remove(m_old, digit);
                    let ghost cand_pre = self.candidates@;
                    self.candidates.set(cell, m2);
                    proof {
                        lemma_after_removal(
                            ts0,
                            cand0,
                            tasks_pre,
                            tasks@,
                            cand_pre,
                            self.candidates@,
                            m2,
                            cell as int,
                            digit,
                            dr_pre,
                            idx as int,
                        );
                    }
                    proof {
                        assert forall|sol: Seq<u8>| #[trigger] solution_in(sol, cand0)
                            && tasks_respected(ts0, sol) implies (solution_in(
                            sol,
                            self.candidates@,
                        ) && tasks_respected(tasks@, sol)) by {
                            assert(solution_in(sol, cand_pre));
                            assert(task_respected(tasks_pre[tasks_pre.len() - 1], sol));
                            assert(sol[cell as int] != digit);
                            assert(mask_has(cand_pre[cell as int], sol[cell as int]));
                            assert(mask_has(m2, sol[cell as int]));
                            lemma_respect_pop(tasks_pre, sol);
                        }
                    }
                    if m2 == 0 {
                        proof {
                            assert forall|sol: Seq<u8>| !(#[trigger] solution_in(sol, cand0)
                                && tasks_respected(ts0, sol)) by {
                                if solution_in(sol, cand0) && tasks_respected(ts0, sol) {
                                    assert(mask_has(
                                        self.candidates@[cell as int],
                                        sol[cell as int],
                                    ));
                                    crate::domain::lemma_mask_has_nonzero(
                                        m2,
                                        sol[cell as int],
                                    );
                                    assert(false);
                                }
                            }
                        }
                        return false;
                    }
                    let sz = mask_size(m2);
                    if sz == 1 {
                        let d2 = mask_first(m2);
                        proof {
                            lemma_count_one_singleton(m2, d2);
                        }
                        let ps = peers_of(cell);
                        proof {
                            if singleton_fixpoint(cand0) {
                                assert forall|c: int, p: int, d: u8| #[trigger] unpropagated(
                                    self.candidates@,
                                    c,
                                    p,
                                    d,
                                ) implies pending_remove(tasks@, p, d) || (c == cell as int && d
                                    == d2 && exists|k2: int| 0 <= k2 < 20 && #[trigger] ps@[k2]
                                    == p) by {
                                    if c == cell as int {
                                        assert(is_singleton(m2, d));
                                        assert(d == d2);
                                    }
                                }
                            }
                        }
                        for k in 0..20
                            invariant
                                cell < 81,
                                1 <= d2 <= 9,
                                ps@.len() == 20,
                                forall|k2: int| 0 <= k2 < 20 ==> #[trigger] ps@[k2] < 81,
                                forall|i: int| 0 <= i < tasks@.len() ==> task_valid(
                                    #[trigger] tasks@[i],
                                ),
                                forall|i: int| 0 <= i < ts0.len() ==> task_absent(
                                    #[trigger] ts0[i],
                                    self.candidates@,
                                ) || tasks@.contains(ts0[i]),
                                !tasks_noop(ts0, cand0),
                                singleton_fixpoint(cand0) ==> (forall|c: int, p: int, d: u8|
                                    #[trigger] unpropagated(self.candidates@, c, p, d)
                                        ==> pending_remove(tasks@, p, d) || (c == cell as int && d
                                        == d2 && exists|k2: int|
                                        k <= k2 < 20 && #[trigger] ps@[k2] == p)),
                                forall|sol: Seq<u8>| #[trigger] solution_in(sol, cand0)
                                    && tasks_respected(ts0, sol) ==> (solution_in(
                                    sol,
                                    self.candidates@,
                                ) && tasks_respected(tasks@, sol)),
                        {
                            let p = ps[k];
                            let ghost tasks_before = tasks@;
                            proof {
                                lemma_push_keeps(tasks@, Task::Remove { cell: p, digit: d2 });
                            }
                            tasks.push(Task::Remove { cell: p, digit: d2 });
                            proof {
                                assert forall|sol: Seq<u8>| #[trigger] solution_in(sol, cand0)
                                    && tasks_respected(ts0, sol) implies tasks_respected(
                                    tasks@,
                                    sol,
                                ) by {
                                    // the settled cell fixes the solution's
                                    // value there, so no peer carries it
                                    assert(mask_has(
                                        self.candidates@[cell as int],
                                        sol[cell as int],
                                    ));
                                    assert(sol[cell as int] == d2);
                                    assert(is_peer(cell as int, p as int));
                                    assert(sol[p as int] != d2);
                                    lemma_respect_push(
                                        tasks_before,
                                        Task::Remove { cell: p, digit: d2 },
                                        sol,
                                    );
                                }
                            }
                            proof {
                                if singleton_fixpoint(cand0) {
                                    assert forall|c: int, p2: int, d: u8| #[trigger] unpropagated(
                                        self.candidates@,
                                        c,
                                        p2,
                                        d,
                                    ) implies pending_remove(tasks@, p2, d) || (c == cell as int
                                        && d == d2 && exists|k2: int|
                                        k + 1 <= k2 < 20 && #[trigger] ps@[k2] == p2) by {
                                        if !pending_remove(tasks_before, p2, d) {
                                            let k2 = choose|k2: int|
                                                k <= k2 < 20 && ps@[k2] == p2;
                                            if k2 == k {
                                                assert(is_remove_of(
                                                    tasks@[tasks@.len() - 1],
                                                    p2,
                                                    d,
                                                ));
                                            }
                                        }
                                    }
                                }
                            }
                        }
                    } else {
                        proof {
                            if singleton_fixpoint(cand0) {
                                assert forall|c: int, p: int, d: u8| #[trigger] unpropagated(
                                    self.candidates@,
                                    c,
                                    p,
                                    d,
                                ) implies pending_remove(tasks@, p, d) by {
                                    if c == cell as int {
                                        lemma_singleton_count(m2, d);
                                        assert(false);
                                    }
                                }
                            }
                        }
                    }
                    let us = units_of(cell);
                    for t3 in 0..3
                        invariant
                            self.wf(),
                            cell < 81,
                            1 <= digit <= 9,
                            us@.len() == 3,
                            forall|j: int| 0 <= j < 3 ==> unit_member(
                                #[trigger] us@[j] as int,
                                cell as int,
                            ),
                            forall|i: int| 0 <= i < tasks@.len() ==> task_valid(
                                #[trigger] tasks@[i],
                            ),
                            forall|i: int| 0 <= i < ts0.len() ==> task_absent(
                                #[trigger] ts0[i],
                                self.candidates@,
                            ) || tasks@.contains(ts0[i]),
                            !tasks_noop(ts0, cand0),
                            singleton_fixpoint(cand0) ==> (forall|c: int, p: int, d: u8|
                                #[trigger] unpropagated(self.candidates@, c, p, d)
                                    ==> pending_remove(tasks@, p, d)),
                            forall|sol: Seq<u8>| #[trigger] solution_in(sol, cand0)
                                && tasks_respected(ts0, sol) ==> (solution_in(
                                sol,
                                self.candidates@,
                            ) && tasks_respected(tasks@, sol)),
                    {
                        let uc = unit_cells(us[t3]);
                        proof {
                            assert forall|k2: int| 0 <= k2 < 9 implies #[trigger] uc@[k2]
                                < 81 by {
                                assert(unit_member(us@[t3 as int] as int, uc@[k2] as int));
                            }
                        }
                        let mut places: usize = 0;
                        let mut place_cell: usize = 0;
                        for k in 0..9
                            invariant
                                self.wf(),
                                uc@.len() == 9,
                                forall|k2: int| 0 <= k2 < 9 ==> #[trigger] uc@[k2] < 81,
                                1 <= digit <= 9,
                                places <= k,
                                places >= 1 ==> place_cell < 81,
                                places == 0 ==> forall|k2: int| 0 <= k2 < k ==> !mask_has(
                                    #[trigger] self.candidates@[uc@[k2] as int],
                                    digit,
                                ),
                                places >= 1 ==> mask_has(
                                    self.candidates@[place_cell as int],
                                    digit,
                                ),
                                forall|k2: int| 0 <= k2 < k && mask_has(
                                    #[trigger] self.candidates@[uc@[k2] as int],
                                    digit,
                                ) ==> (places >= 2 || uc@[k2] == place_cell),
                        {
                            if mask_has_exec(self.candidates[uc[k]], digit) {
                                places = places + 1;
                                place_cell = uc[k];
                            }
                        }
                        if places == 0 {
                            proof {
                                lemma_no_place_no_solution(
                                    ts0,
                                    cand0,
                                    self.candidates@,
                                    us@[t3 as int] as int,
                                    uc@,
                                    digit,
                                );
                            }
                            return false;
                        }
                        if places == 1 {
                            proof {
                                lemma_push_keeps(tasks@, Task::Place { cell: place_cell, digit });
                            }
                            let ghost tasks_before = tasks@;
                            tasks.push(Task::Place { cell: place_cell, digit });
                            proof {
                                assert forall|sol: Seq<u8>| #[trigger] solution_in(sol, cand0)
                                    && tasks_respected(ts0, sol) implies tasks_respected(
                                    tasks@,
                                    sol,
                                ) by {
                                    let k2 = lemma_solution_place(
                                        sol,
                                        self.candidates@,
                                        us@[t3 as int] as int,
                                        uc@,
                                        digit,
                                    );
                                    assert(mask_has(
                                        self.candidates@[uc@[k2] as int],
                                        digit,
                                    ));
                                    assert(uc@[k2] == place_cell);
                                    assert(sol[place_cell as int] == digit);
                                    lemma_respect_push(
                                        tasks_before,
                                        Task::Place { cell: place_cell, digit },
                                        sol,
                                    );
                                }
                            }
                        }
                    }
                },
                Task::Place { cell, digit } => {
                    let idx = cell * 9 + (digit as usize) - 1;
                    proof {
                        lemma_task_index(cell as int, digit, idx as int);
                    }
                    if done_place[idx] {
                        proof {
                            if singleton_fixpoint(cand0) {
                                lemma_keep_after_pop(ts0, tasks_pre, self.candidates@, t);
                            } else {
                                lemma_keep_tracking_only(ts0, tasks_pre, self.candidates@, t);
                            }
                            assert forall|sol: Seq<u8>| #[trigger] solution_in(sol, cand0)
                                && tasks_respected(ts0, sol) implies tasks_respected(
                                tasks@,
                                sol,
                            ) by {
                                lemma_respect_pop(tasks_pre, sol);
                            }
                        }
                        continue ;
                    }
                    let ghost dp_pre = done_place@;
                    done_place.set(idx, true);
                    proof {
                        lemma_count_false_update(dp_pre, idx as int);
                        if tasks_noop(ts0, cand0) {
                            assert(ts0.contains(tasks_pre[tasks_pre.len() - 1]));
                            let j = choose|j: int| 0 <= j < ts0.len() && ts0[j] == t;
                            assert(task_noop(ts0[j], cand0));
                            assert(false);
                        }
                        if singleton_fixpoint(cand0) {
                            lemma_keep_after_pop(ts0, tasks_pre, self.candidates@, t);
                        } else {
                            lemma_keep_tracking_only(ts0, tasks_pre, self.candidates@, t);
                        }
                        assert forall|sol: Seq<u8>| #[trigger] solution_in(sol, cand0)
                            && tasks_respected(ts0, sol) implies tasks_respected(tasks@, sol)
                            && sol[cell as int] == digit by {
                            assert(task_respected(tasks_pre[tasks_pre.len() - 1], sol));
                            lemma_respect_pop(tasks_pre, sol);
                        }
                    }
                    let m = self.candidates[cell];
                    for e in 1..10u8
                        invariant
                            cell < 81,
                            forall|i: int| 0 <= i < tasks@.len() ==> task_valid(
                                #[trigger] tasks@[i],
                            ),
                            forall|i: int| 0 <= i < ts0.len() ==> task_absent(
                                #[trigger] ts0[i],
                                self.candidates@,
                            ) || tasks@.contains(ts0[i]),
                            !tasks_noop(ts0, cand0),
                            singleton_fixpoint(cand0) ==> (forall|c: int, p: int, d: u8|
                                #[trigger] unpropagated(self.candidates@, c, p, d)
                                    ==> pending_remove(tasks@, p, d)),
                            forall|sol: Seq<u8>| #[trigger] solution_in(sol, cand0)
                                && tasks_respected(ts0, sol) ==> (solution_in(
                                sol,
                                self.candidates@,
                            ) && tasks_respected(tasks@, sol)),
                            forall|sol: Seq<u8>| #[trigger] solution_in(sol, cand0)
                                && tasks_respected(ts0, sol) ==> sol[cell as int] == digit,
                    {
                        if e != digit && mask_has_exec(m, e) {
                            let ghost tasks_before = tasks@;
                            proof {
                                lemma_push_keeps(tasks@, Task::Remove { cell, digit: e });
                            }
                            tasks.push(Task::Remove { cell, digit: e });
                            proof {
                                assert forall|sol: Seq<u8>| #[trigger] solution_in(sol, cand0)
                                    && tasks_respected(ts0, sol) implies tasks_respected(
                                    tasks@,
                                    sol,
                                ) by {
                                    assert(sol[cell as int] == digit);
                                    lemma_respect_push(
                                        tasks_before,
                                        Task::Remove { cell, digit: e },
                                        sol,
                                    );
                                }
                            }
                        }
                    }
                },
            }
        }
        proof {
            assert forall|i: int| 0 <= i < ts0.len() implies task_absent(
                #[trigger] ts0[i],
                self.candidates@,
            ) by {
                if tasks@.contains(ts0[i]) {
                    let j = choose|j: int| 0 <= j < tasks@.len() && tasks@[j] == ts0[i];
                    assert(false);
                }
            }
            if singleton_fixpoint(cand0) {
                assert forall|c: int, p: int, d: u8| !(#[trigger] unpropagated(
                    self.candidates@,
                    c,
                    p,
                    d,
                )) by {
                    if unpropagated(self.candidates@, c, p, d) {
                        let j = choose|j: int|
                            0 <= j < tasks@.len() && is_remove_of(tasks@[j], p, d);
                        assert(false);
                    }
                }
            }
        }
        true
    }

    /// Removes `digit` from `cell`'s domain and propagates: a domain driven
    /// to a single digit has that digit taken out of every peer, and a unit
    /// left with a single place for some digit forces that placement.
    /// Returns false on any contradiction. Removing an absent digit changes
    /// nothing and succeeds, so the operation is idempotent.
    pub fn eliminate(&mut self, cell: usize, digit: u8) -> (ok: bool)
        requires
            old(self).wf(),
            old(self).domains_ok(),
            cell < 81,
            1 <= digit <= 9,
        ensures
            final(self).wf(),
            final(self).board@ == old(self).board@,
            cands_shrink(final(self).candidates@, old(self).candidates@),
            ok ==> final(self).domains_ok(),
            ok ==> !mask_has(final(self).candidates@[cell as int], digit),
            !mask_has(old(self).candidates@[cell as int], digit) ==> ok
                && final(self).candidates@ == old(self).candidates@,
            ok && singleton_fixpoint(old(self).candidates@) ==> singleton_fixpoint(
                final(self).candidates@,
            ),
            // sound, and success owed: a solution of the old domains that
            // avoids the removed digit survives and rules out failure
            forall|sol: Seq<u8>| #[trigger] solution_in(sol, old(self).candidates@)
                && sol[cell as int] != digit ==> (ok && solution_in(
                sol,
                final(self).candidates@,
            )),
    {
        let mut ts: Vec<Task> = Vec::new();
        ts.push(Task::Remove { cell, digit });
        let ghost ts_seq = ts@;
        let ok = self.propagate(ts);
        proof {
            let t = Task::Remove { cell, digit };
            assert(ts_seq[0] == t);
            if ok {
                assert(task_absent(ts_seq[0], self.candidates@));
            }
            if !mask_has(old(self).candidates@[cell as int], digit) {
                assert forall|i: int| 0 <= i < ts_seq.len() implies task_noop(
                    #[trigger] ts_seq[i],
                    old(self).candidates@,
                ) by {}
            }
            assert forall|sol: Seq<u8>| #[trigger] solution_in(sol, old(self).candidates@)
                && sol[cell as int] != digit implies (ok && solution_in(
                sol,
                self.candidates@,
            )) by {
                assert forall|i: int| 0 <= i < ts_seq.len() implies task_respected(
                    #[trigger] ts_seq[i],
                    sol,
                ) by {
                    assert(ts_seq[i] == (Task::Remove { cell, digit }));
                }
            }
        }
        ok
    }

    /// Constrains `cell`'s domain to exactly `digit` by eliminating every
    /// other candidate, propagating each elimination. Returns false if any
    /// elimination fails; on success the domain is exactly the one digit.
    /// Assigning a digit a cell is already settled on changes nothing.
    #[verifier::loop_isolation(false)]
    pub fn assign(&mut self, cell: usize, digit: u8) -> (ok: bool)
        requires
            old(self).wf(),
            old(self).domains_ok(),
            cell < 81,
            1 <= digit <= 9,
        ensures
            final(self).wf(),
            final(self).board@ == old(self).board@,
            cands_shrink(final(self).candidates@, old(self).candidates@),
            ok ==> final(self).domains_ok(),
            ok ==> is_singleton(final(self).candidates@[cell as int], digit),
            is_singleton(old(self).candidates@[cell as int], digit) ==> ok
                && final(self).candidates@ == old(self).candidates@,
            ok && singleton_fixpoint(old(self).candidates@) ==> singleton_fixpoint(
                final(self).candidates@,
            ),
            // sound, and success owed: a solution of the old domains that
            // places the digit here survives and rules out failure
            forall|sol: Seq<u8>| #[trigger] solution_in(sol, old(self).candidates@)
                && sol[cell as int] == digit ==> (ok && solution_in(
                sol,
                final(self).candidates@,
            )),
    {
        let m = self.candidates[cell];
        let mut ts: Vec<Task> = Vec::new();
        for e in 1..10u8
            invariant
                cell < 81,
                forall|i: int| 0 <= i < ts@.len() ==> task_valid(#[trigger] ts@[i]),
                forall|i: int| 0 <= i < ts@.len() ==> is_remove_not_digit(
                    #[trigger] ts@[i],
                    cell as int,
                    digit,
                    m,
                ),
                forall|x: u8| 1 <= x < e && x != digit && mask_has(m, x) ==> pending_remove(
                    ts@,
                    cell as int,
                    x,
                ),
        {
            if e != digit && mask_has_exec(m, e) {
                proof {
                    lemma_push_keeps(ts@, Task::Remove { cell, digit: e });
                }
                ts.push(Task::Remove { cell, digit: e });
            }
        }
        let ghost ts_seq = ts@;
        let ok = self.propagate(ts);
        proof {
            if ok {
                // every starting candidate other than `digit` is gone, the
                // domain only shrank, and it is not empty
                assert forall|x: u8| mask_has(
                    self.candidates@[cell as int],
                    x,
                ) implies x == digit by {
                    if x != digit {
                        assert(mask_has(m, x));
                        let j = choose|j: int|
                            0 <= j < ts_seq.len() && is_remove_of(#[trigger] ts_seq[j], cell as int, x);
                        assert(task_absent(ts_seq[j], self.candidates@));
                        assert(false);
                    }
                }
                let e = lemma_mask_nonzero_has(self.candidates@[cell as int]);
                assert(mask_has(self.candidates@[cell as int], digit));
            }
            if is_singleton(old(self).candidates@[cell as int], digit) {
                assert forall|i: int| 0 <= i < ts_seq.len() implies task_noop(
                    #[trigger] ts_seq[i],
                    old(self).candidates@,
                ) by {
                    assert(is_remove_not_digit(ts_seq[i], cell as int, digit, m));
                }
            }
            assert forall|sol: Seq<u8>| #[trigger] solution_in(sol, old(self).candidates@)
                && sol[cell as int] == digit implies (ok && solution_in(
                sol,
                self.candidates@,
            )) by {
                assert forall|i: int| 0 <= i < ts_seq.len() implies task_respected(
                    #[trigger] ts_seq[i],
                    sol,
                ) by {
                    assert(is_remove_not_digit(ts_seq[i], cell as int, digit, m));
                }
            }
        }
        ok
    }
}

/// A removal of some digit other than `digit` from `cell`, of a digit that
/// the domain `m` holds.
pub open spec fn is_remove_not_digit(t: Task, cell: int, digit: u8, m: u16) -> bool {
    match t {
        Task::Remove { cell: c2, digit: d2 } => c2 == cell && d2 != digit && mask_has(m, d2),
        Task::Place { .. } => false,
    }
}

/// The initial-task tracking also survives a pop when the cascade clause is
/// not in play.
proof fn lemma_keep_tracking_only(
    ts0: Seq<Task>,
    tasks_pre: Seq<Task>,
    cand: Seq<u16>,
    t: Task,
)
    requires
        tasks_pre.len() > 0,
        tasks_pre.last() == t,
        task_absent(t, cand),
        forall|i: int| 0 <= i < ts0.len() ==> task_absent(#[trigger] ts0[i], cand)
            || tasks_pre.contains(ts0[i]),
    ensures
        forall|i: int| 0 <= i < ts0.len() ==> task_absent(#[trigger] ts0[i], cand)
            || tasks_pre.drop_last().contains(ts0[i]),
{
    assert forall|i: int| 0 <= i < ts0.len() implies task_absent(#[trigger] ts0[i], cand)
        || tasks_pre.drop_last().contains(ts0[i]) by {
        if !task_absent(ts0[i], cand) {
            let j = choose|j: int| 0 <= j < tasks_pre.len() && tasks_pre[j] == ts0[i];
            if j == tasks_pre.len() - 1 {
                assert(ts0[i] == t);
                assert(false);
            } else {
                assert(tasks_pre.drop_last()[j] == ts0[i]);
            }
        }
    }
}

/// The state of the bookkeeping right after one removal has taken effect.
#[verifier::rlimit(100)]
proof fn lemma_after_removal(
    ts0: Seq<Task>,
    cand0: Seq<u16>,
    tasks_pre: Seq<Task>,
    tasks: Seq<Task>,
    cand_pre: Seq<u16>,
    cand: Seq<u16>,
    m_new: u16,
    cell: int,
    digit: u8,
    dr_pre: Seq<bool>,
    idx: int,
)
    requires
        0 <= cell < 81,
        1 <= digit <= 9,
        cand_pre.len() == 81,
        cand0.len() == 81,
        cand == cand_pre.update(cell, m_new),
        forall|e: u8| #[trigger] mask_has(m_new, e) <==> (mask_has(cand_pre[cell], e) && e
            != digit),
        mask_has(cand_pre[cell], digit),
        tasks_pre.len() > 0,
        tasks_pre.last() == (Task::Remove { cell: cell as usize, digit }),
        tasks == tasks_pre.drop_last(),
        dr_pre.len() == 729,
        idx == cell * 9 + digit - 1,
        forall|i: int| 0 <= i < ts0.len() ==> task_valid(#[trigger] ts0[i]),
        forall|idx2: int| 0 <= idx2 < 729 && #[trigger] dr_pre[idx2] ==> !mask_has(
            cand_pre[idx2 / 9],
            (idx2 % 9 + 1) as u8,
        ),
        forall|i: int| 0 <= i < ts0.len() ==> task_absent(#[trigger] ts0[i], cand_pre)
            || tasks_pre.contains(ts0[i]),
        cands_shrink(cand_pre, cand0),
        singleton_fixpoint(cand0) ==> (forall|c: int, p: int, d: u8| #[trigger] unpropagated(
            cand_pre,
            c,
            p,
            d,
        ) ==> pending_remove(tasks_pre, p, d)),
    ensures
        cands_shrink(cand, cand0),
        forall|idx2: int| 0 <= idx2 < 729 && #[trigger] dr_pre.update(idx, true)[idx2]
            ==> !mask_has(cand[idx2 / 9], (idx2 % 9 + 1) as u8),
        forall|i: int| 0 <= i < ts0.len() ==> task_absent(#[trigger] ts0[i], cand)
            || tasks.contains(ts0[i]),
        // cascades not involving this cell's settling keep their queued
        // witness; those of the removed digit at this cell are now settled
        singleton_fixpoint(cand0) ==> (forall|c: int, p: int, d: u8| #[trigger] unpropagated(
            cand,
            c,
            p,
            d,
        ) && c != cell ==> pending_remove(tasks, p, d)),
        !mask_has(cand[cell], digit),
{
    lemma_task_index(cell, digit, idx);
    assert(!mask_has(m_new, digit));
    assert forall|c: int, e: u8| 0 <= c < 81 && #[trigger] mask_has(cand[c], e) implies mask_has(
        cand0[c],
        e,
    ) by {
        if c == cell {
            assert(mask_has(cand_pre[cell], e));
        } else {
            assert(cand[c] == cand_pre[c]);
        }
    }
    assert forall|idx2: int| 0 <= idx2 < 729 && #[trigger] dr_pre.update(idx, true)[idx2] implies
        !mask_has(cand[idx2 / 9], (idx2 % 9 + 1) as u8) by {
        assert(idx2 == 9 * (idx2 / 9) + idx2 % 9);
        if idx2 == idx {
            assert(!mask_has(m_new, digit));
        } else {
            assert(dr_pre[idx2]);
            assert(!mask_has(cand_pre[idx2 / 9], (idx2 % 9 + 1) as u8));
            if idx2 / 9 == cell {
                assert(!mask_has(m_new, (idx2 % 9 + 1) as u8));
            } else {
                assert(cand[idx2 / 9] == cand_pre[idx2 / 9]);
            }
        }
    }
    assert forall|i: int| 0 <= i < ts0.len() implies task_absent(#[trigger] ts0[i], cand)
        || tasks.contains(ts0[i]) by {
        if !task_absent(ts0[i], cand) {
            match ts0[i] {
                Task::Remove { cell: c2, digit: d2 } => {
                    assert(mask_has(cand[c2 as int], d2));
                    if c2 as int == cell {
                        assert(mask_has(cand_pre[cell], d2));
                    } else {
                        assert(cand[c2 as int] == cand_pre[c2 as int]);
                    }
                    assert(!task_absent(ts0[i], cand_pre));
                    let j = choose|j: int| 0 <= j < tasks_pre.len() && tasks_pre[j] == ts0[i];
                    if j == tasks_pre.len() - 1 {
                        assert(ts0[i] == (Task::Remove { cell: cell as usize, digit }));
                        assert(!mask_has(cand[cell], digit));
                        assert(false);
                    } else {
                        assert(tasks[j] == ts0[i]);
                    }
                },
                Task::Place { .. } => {
                    assert(task_absent(ts0[i], cand));
                    assert(false);
                },
            }
        }
    }
    if singleton_fixpoint(cand0) {
        assert forall|c: int, p: int, d: u8| #[trigger] unpropagated(cand, c, p, d) && c
            != cell implies pending_remove(tasks, p, d) by {
            assert(cand[c] == cand_pre[c]);
            if p == cell {
                assert(mask_has(m_new, d));
                assert(d != digit);
                assert(mask_has(cand_pre[cell], d));
            } else {
                assert(cand[p] == cand_pre[p]);
            }
            assert(unpropagated(cand_pre, c, p, d));
            assert(pending_remove(tasks_pre, p, d));
            assert(!is_remove_of(tasks_pre.last(), p, d));
            lemma_pop_pending(tasks_pre, p, d);
        }
    }
}

/// Shrinking domains never gain candidates, cell by cell.
pub proof fn lemma_shrink_counts(c1: Seq<u16>, c2: Seq<u16>)
    requires
        cands_shrink(c1, c2),
    ensures
        forall|c: int| 0 <= c < 81 ==> crate::domain::mask_count(#[trigger] c1[c])
            <= crate::domain::mask_count(c2[c]),
{
    assert forall|c: int| 0 <= c < 81 implies crate::domain::mask_count(#[trigger] c1[c])
        <= crate::domain::mask_count(c2[c]) by {
        assert forall|e: u8| mask_has(c1[c], e) implies mask_has(c2[c], e) by {}
        crate::domain::lemma_submask_count(c1[c], c2[c], 9);
    }
}

/// A shrink gives a no larger candidate total.
pub proof fn lemma_shrink_total_le(c1: Seq<u16>, c2: Seq<u16>)
    requires
        cands_shrink(c1, c2),
    ensures
        crate::domain::total_count(c1) <= crate::domain::total_count(c2),
{
    lemma_shrink_counts(c1, c2);
    crate::domain::lemma_total_le(c1, c2, 81);
}

/// A shrink that loses some digit somewhere gives a strictly smaller
/// candidate total.
pub proof fn lemma_shrink_total_lt(c1: Seq<u16>, c2: Seq<u16>, j: int, d: u8)
    requires
        cands_shrink(c1, c2),
        0 <= j < 81,
        1 <= d <= 9,
        mask_has(c2[j], d),
        !mask_has(c1[j], d),
    ensures
        crate::domain::total_count(c1) < crate::domain::total_count(c2),
{
    lemma_shrink_counts(c1, c2);
    let removed = c2[j] & !(1u16 << ((d - 1) as u16));
    assert forall|e: u8| #[trigger] mask_has(c1[j], e) implies mask_has(removed, e) by {
        crate::domain::lemma_mask_remove_spec(c2[j], d, e);
    }
    crate::domain::lemma_submask_count(c1[j], removed, 9);
    crate::domain::lemma_count_remove(c2[j], d, 9);
    crate::domain::lemma_total_lt(c1, c2, j, 81);
}


/// Shrinking is transitive.
pub proof fn lemma_shrink_trans(c1: Seq<u16>, c2: Seq<u16>, c3: Seq<u16>)
    requires
        cands_shrink(c1, c2),
        cands_shrink(c2, c3),
    ensures
        cands_shrink(c1, c3),
{
    assert forall|c: int, e: u8| 0 <= c < 81 && #[trigger] mask_has(c1[c], e) implies mask_has(
        c3[c],
        e,
    ) by {
        assert(mask_has(c2[c], e));
    }
}

} // verus!
