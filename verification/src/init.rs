//! Preparing candidate domains from an assigned board.
//!
//! The lightweight initializer only crosses assigned values off their
//! peers' domains; the heavy initializer commits every assigned value
//! through full propagation and so detects deeper contradictions.

use vstd::prelude::*;
use vstd::pervasive::VecAdditionalExecFns;

use crate::board::{Sudoku, board_partial_valid, solution_of};
use crate::domain::{
    mask_has, is_singleton, FULL_MASK, mask_has_exec, mask_remove, mask_single,
    lemma_mask_full, lemma_mask_nonzero_has,
};
use crate::propagate::{singleton_fixpoint, solution_in};
use crate::topology::{is_peer, peers_of};

verus! {

/// Some assigned cell sharing a unit with `c` carries the digit `e`.
pub open spec fn has_filled_peer(b: Seq<u8>, c: int, e: u8) -> bool {
    exists|p: int| #[trigger] is_peer(c, p) && b[p] == e && e != 0
}

/// Membership in the domain that lightweight initialization computes: an
/// assigned cell keeps exactly its value; a blank cell keeps every digit
/// that no assigned peer carries.
pub open spec fn lw_has(b: Seq<u8>, c: int, e: u8) -> bool {
    if b[c] != 0 {
        e == b[c]
    } else {
        1 <= e <= 9 && !has_filled_peer(b, c, e)
    }
}

/// The boards that lightweight initialization accepts: no two assigned
/// peers conflict, and every blank cell still has some possible digit.
pub open spec fn lw_init_ok(b: Seq<u8>) -> bool {
    &&& board_partial_valid(b)
    &&& forall|c: int| 0 <= c < 81 && b[c] == 0 ==> exists|e: u8|
        1 <= e <= 9 && !(#[trigger] has_filled_peer(b, c, e))
}

/// Membership after the first `i` cells have been processed.
spec fn lw_mid_has(b: Seq<u8>, i: int, c: int, e: u8) -> bool {
    if b[c] != 0 && c < i {
        e == b[c]
    } else {
        1 <= e <= 9 && !(exists|p: int| 0 <= p < i && #[trigger] is_peer(c, p) && b[p] == e)
    }
}

/// Membership while cell `i` (assigned `d`) crosses itself off the first
/// `k` of its peers.
spec fn lw_inner_has(
    b: Seq<u8>,
    i: int,
    ps: Seq<usize>,
    k: int,
    d: u8,
    c: int,
    e: u8,
) -> bool {
    if c == i {
        e == d
    } else if exists|k2: int| 0 <= k2 < k && #[trigger] ps[k2] == c {
        lw_mid_has(b, i, c, e) && e != d
    } else {
        lw_mid_has(b, i, c, e)
    }
}

impl Sudoku {
    /// Prepares fresh full domains, then commits every assigned value by
    /// full propagation. Returns false when propagation finds the board
    /// contradictory; on success every assigned cell is settled on its
    /// value and the settled-cell cascade has run to completion.
    #[verifier::loop_isolation(false)]
    pub fn initialize_candidates_heavy(&mut self) -> (ok: bool)
        requires
            old(self).wf(),
        ensures
            final(self).wf(),
            final(self).board@ == old(self).board@,
            ok ==> final(self).domains_ok(),
            ok ==> singleton_fixpoint(final(self).candidates@),
            ok ==> (forall|c: int| 0 <= c < 81 && final(self).board@[c] != 0 ==> is_singleton(
                #[trigger] final(self).candidates@[c],
                final(self).board@[c],
            )),
            // success owed: a board with a complete valid extension is
            // never rejected, and its solutions stay within the domains
            forall|sol: Seq<u8>| #[trigger] solution_of(sol, old(self).board@) ==> (ok
                && solution_in(sol, final(self).candidates@)),
    {
        self.reset_candidates();
        proof {
            assert forall|sol: Seq<u8>| #[trigger] solution_of(sol, self.board@)
                implies solution_in(sol, self.candidates@) by {
                assert forall|x: int| 0 <= x < 81 implies mask_has(
                    #[trigger] self.candidates@[x],
                    sol[x],
                ) by {
                    lemma_mask_full(sol[x]);
                }
            }
        }
        for c in 0..81
            invariant
                self.wf(),
                self.domains_ok(),
                self.board@ == old(self).board@,
                singleton_fixpoint(self.candidates@),
                forall|x: int| 0 <= x < c && self.board@[x] != 0 ==> is_singleton(
                    #[trigger] self.candidates@[x],
                    self.board@[x],
                ),
                forall|sol: Seq<u8>| #[trigger] solution_of(sol, old(self).board@)
                    ==> solution_in(sol, self.candidates@),
        {
            let d = self.board[c];
            if d != 0 {
                let ghost pre = self.candidates@;
                if !self.assign(c, d) {
                    proof {
                        assert forall|sol: Seq<u8>| !(#[trigger] solution_of(
                            sol,
                            old(self).board@,
                        )) by {
                            if solution_of(sol, old(self).board@) {
                                assert(solution_in(sol, pre));
                                assert(sol[c as int] == d);
                                assert(false);
                            }
                        }
                    }
                    return false;
                }
                proof {
                    assert forall|x: int| 0 <= x < c + 1 && self.board@[x] != 0 implies
                        is_singleton(#[trigger] self.candidates@[x], self.board@[x]) by {
                        if x < c {
                            assert(is_singleton(pre[x], self.board@[x]));
                            let e = lemma_mask_nonzero_has(self.candidates@[x]);
                            assert(mask_has(pre[x], e));
                            assert(e == self.board@[x]);
                        }
                    }
                }
            }
        }
        true
    }


    /// Replaces the grid wholesale and prepares candidate domains for it
    /// by full propagation. Returns false when the new grid is
    /// contradictory.
    pub fn import_sudoku(&mut self, grid: Vec<u8>) -> (ok: bool)
        requires
            old(self).wf(),
            crate::board::board_wf(grid@),
        ensures
            final(self).wf(),
            final(self).board@ == grid@,
            ok ==> final(self).domains_ok(),
            ok ==> singleton_fixpoint(final(self).candidates@),
            ok ==> (forall|c: int| 0 <= c < 81 && final(self).board@[c] != 0 ==> is_singleton(
                #[trigger] final(self).candidates@[c],
                final(self).board@[c],
            )),
            forall|sol: Seq<u8>| #[trigger] solution_of(sol, grid@) ==> (ok && solution_in(
                sol,
                final(self).candidates@,
            )),
    {
        self.board = grid;
        self.initialize_candidates_heavy()
    }

    /// Prepares fresh full domains, then crosses every assigned value off
    /// the domains of its peers, without any further propagation. Succeeds
    /// exactly on the boards `lw_init_ok` describes, and then computes
    /// exactly the domains `lw_has` describes.
    #[verifier::loop_isolation(false)]
    #[verifier::rlimit(100)]
    pub fn initialize_candidates_lw(&mut self) -> (ok: bool)
        requires
            old(self).wf(),
        ensures
            final(self).wf(),
            final(self).board@ == old(self).board@,
            ok ==> final(self).domains_ok(),
            ok ==> (forall|c: int, e: u8| 0 <= c < 81 ==> (#[trigger] mask_has(final(self).candidates@[c], e) <==> lw_has(
                final(self).board@,
                c,
                e,
            ))),
            ok <==> lw_init_ok(old(self).board@),
    {
        let ghost b = self.board@;
        self.reset_candidates();
        proof {
            assert forall|c: int, e: u8| 0 <= c < 81 implies (#[trigger] mask_has(
                self.candidates@[c],
                e,
            ) <==> lw_mid_has(b, 0, c, e)) by {
                lemma_mask_full(e);
            }
        }
        for i in 0..81
            invariant
                self.wf(),
                self.domains_ok(),
                self.board@ == b,
                b == old(self).board@,
                forall|c: int, e: u8| 0 <= c < 81 ==> (#[trigger] mask_has(
                    self.candidates@[c],
                    e,
                ) <==> lw_mid_has(b, i as int, c, e)),
                forall|p1: int, p2: int| 0 <= p1 < i && 0 <= p2 < i && #[trigger] is_peer(p1, p2)
                    && b[p1] != 0 ==> b[p1] != b[p2],
        {
            let d = self.board[i];
            if d != 0 {
                self.candidates.set(i, mask_single(d));
                proof {
                    crate::domain::lemma_mask_has_nonzero(self.candidates@[i as int], d);
                }
                let ps = peers_of(i);
                proof {
                    assert forall|c: int, e: u8| 0 <= c < 81 implies (#[trigger] mask_has(
                        self.candidates@[c],
                        e,
                    ) <==> lw_inner_has(b, i as int, ps@, 0, d, c, e)) by {
                        if c != i as int {
                            assert(!(exists|k2: int| 0 <= k2 < 0 && #[trigger] ps@[k2] == c));
                        }
                    }
                }
                for k in 0..20
                    invariant
                        self.wf(),
                        self.domains_ok(),
                        self.board@ == b,
                        i < 81,
                        d == b[i as int],
                        1 <= d <= 9,
                        ps@.len() == 20,
                        forall|k2: int| 0 <= k2 < 20 ==> is_peer(
                            i as int,
                            #[trigger] ps@[k2] as int,
                        ),
                        forall|pb: int| is_peer(i as int, pb) ==> exists|k2: int|
                            0 <= k2 < 20 && #[trigger] ps@[k2] == pb,
                        forall|k1: int, k2: int| 0 <= k1 < k2 < 20 ==> ps@[k1] != ps@[k2],
                        forall|c: int, e: u8| 0 <= c < 81 ==> (#[trigger] mask_has(
                            self.candidates@[c],
                            e,
                        ) <==> lw_inner_has(b, i as int, ps@, k as int, d, c, e)),
                        forall|k2: int| 0 <= k2 < k ==> !((#[trigger] ps@[k2] as int) < i
                            && b[ps@[k2] as int] != 0 && b[ps@[k2] as int] == d),
                        forall|p1: int, p2: int| 0 <= p1 < i && 0 <= p2 < i && #[trigger] is_peer(
                            p1,
                            p2,
                        ) && b[p1] != 0 ==> b[p1] != b[p2],
                {
                    let p = ps[k];
                    let ghost cpre = self.candidates@;
                    let m = self.candidates[p];
                    proof {
                        assert(p != i);
                        assert forall|k2: int| 0 <= k2 < k implies ps@[k2] != p by {}
                    }
                    if mask_has_exec(m, d) {
                        let m2 = mask_remove(m, d);
                        if m2 == 0 {
                            proof {
                                assert forall|e: u8| #[trigger] mask_has(m, e) implies e == d by {
                                    if e != d {
                                        assert(mask_has(m2, e));
                                        crate::domain::lemma_mask_has_nonzero(m2, e);
                                    }
                                }
                                lemma_lw_abort(b, i as int, ps@, k as int, d, p as int, m);
                            }
                            return false;
                        }
                        self.candidates.set(p, m2);
                        proof {
                            assert forall|c: int, e: u8| 0 <= c < 81 implies (#[trigger] mask_has(
                                self.candidates@[c],
                                e,
                            ) <==> lw_inner_has(b, i as int, ps@, k + 1, d, c, e)) by {
                                if c == p as int {
                                    assert(mask_has(m2, e) <==> (mask_has(m, e) && e != d));
                                    assert(lw_inner_has(b, i as int, ps@, k as int, d, c, e)
                                        == lw_mid_has(b, i as int, c, e));
                                    assert(ps@[k as int] == c);
                                } else {
                                    assert(self.candidates@[c] == cpre[c]);
                                    lemma_inner_step_other(b, i as int, ps@, k as int, d, c, e);
                                }
                            }
                            // on the success path, p is no assigned earlier
                            // peer carrying d: that would have emptied it
                            assert forall|k2: int| 0 <= k2 < k + 1 implies !((
                            #[trigger] ps@[k2] as int) < i && b[ps@[k2] as int] != 0
                                && b[ps@[k2] as int] == d) by {
                                if k2 == k as int {
                                    if (p as int) < i && b[p as int] != 0 && b[p as int] == d {
                                        assert(lw_mid_has(b, i as int, p as int, d));
                                        assert(forall|e: u8| mask_has(m, e) <==> lw_mid_has(
                                            b,
                                            i as int,
                                            p as int,
                                            e,
                                        ));
                                        assert(forall|e: u8| mask_has(m, e) ==> e == d);
                                        assert(!mask_has(m2, d));
                                        let e2 = lemma_mask_nonzero_has(m2);
                                        assert(false);
                                    }
                                }
                            }
                        }
                    } else {
                        proof {
                            assert forall|c: int, e: u8| 0 <= c < 81 implies (#[trigger] mask_has(
                                self.candidates@[c],
                                e,
                            ) <==> lw_inner_has(b, i as int, ps@, k + 1, d, c, e)) by {
                                if c == p as int {
                                    assert(lw_inner_has(b, i as int, ps@, k as int, d, c, e)
                                        == lw_mid_has(b, i as int, c, e));
                                    assert(!mask_has(m, d));
                                    assert(!lw_mid_has(b, i as int, c, d));
                                    assert(ps@[k as int] == c);
                                } else {
                                    lemma_inner_step_other(b, i as int, ps@, k as int, d, c, e);
                                }
                            }
                            assert forall|k2: int| 0 <= k2 < k + 1 implies !((
                            #[trigger] ps@[k2] as int) < i && b[ps@[k2] as int] != 0
                                && b[ps@[k2] as int] == d) by {
                                if k2 == k as int {
                                    if (p as int) < i && b[p as int] != 0 && b[p as int] == d {
                                        assert(lw_mid_has(b, i as int, p as int, d));
                                        assert(mask_has(m, d));
                                        assert(false);
                                    }
                                }
                            }
                        }
                    }
                }
                proof {
                    lemma_lw_outer_step(b, i as int, ps@, d, self.candidates@);
                    assert forall|p1: int, p2: int|
                        0 <= p1 < i + 1 && 0 <= p2 < i + 1 && #[trigger] is_peer(p1, p2) && b[p1]
                        != 0 implies b[p1] != b[p2] by {
                        if p2 == i as int && p1 < i as int {
                            if b[p1] != 0 {
                                assert(is_peer(i as int, p1));
                                let k2 = choose|k2: int| 0 <= k2 < 20 && ps@[k2] == p1;
                                assert(b[p1] != d);
                            }
                        } else if p1 == i as int && p2 < i as int {
                            if b[p2] != 0 {
                                let k2 = choose|k2: int| 0 <= k2 < 20 && ps@[k2] == p2;
                                assert(b[p2] != d);
                            }
                        }
                    }
                }
            } else {
                proof {
                    assert forall|c: int, e: u8| 0 <= c < 81 implies (#[trigger] mask_has(
                        self.candidates@[c],
                        e,
                    ) <==> lw_mid_has(b, i + 1, c, e)) by {
                        lemma_mid_blank_step(b, i as int, c, e);
                    }
                    assert forall|p1: int, p2: int|
                        0 <= p1 < i + 1 && 0 <= p2 < i + 1 && #[trigger] is_peer(p1, p2) && b[p1]
                        != 0 implies b[p1] != b[p2] by {
                        if p1 == i as int {
                            assert(b[p1] == 0);
                        } else if p2 == i as int {
                            assert(b[p2] == 0);
                        }
                    }
                }
            }
        }
        proof {
            assert forall|c: int, e: u8| 0 <= c < 81 implies (#[trigger] mask_has(
                self.candidates@[c],
                e,
            ) <==> lw_has(b, c, e)) by {
                lemma_mid_final(b, c, e);
            }
            // the accepted boards are exactly those of `lw_init_ok`
            assert forall|c1: int, c2: int| #[trigger] is_peer(c1, c2) && b[c1] != 0 implies b[c1]
                != b[c2] by {
                if b[c2] != 0 {
                } else {
                    assert(b[c1] != b[c2]);
                }
            }
            assert forall|c: int| 0 <= c < 81 && b[c] == 0 implies exists|e: u8|
                1 <= e <= 9 && !(#[trigger] has_filled_peer(b, c, e)) by {
                let e = lemma_mask_nonzero_has(self.candidates@[c]);
                assert(lw_has(b, c, e));
            }
        }
        true
    }

    /// Resets every candidate domain to the full set of digits.
    fn reset_candidates(&mut self)
        requires
            old(self).wf(),
        ensures
            final(self).wf(),
            final(self).domains_ok(),
            final(self).board@ == old(self).board@,
            forall|c: int| 0 <= c < 81 ==> #[trigger] final(self).candidates@[c] == FULL_MASK,
            singleton_fixpoint(final(self).candidates@),
    {
        let mut cand: Vec<u16> = Vec::new();
        for i in 0..81
            invariant
                cand@.len() == i,
                forall|c: int| 0 <= c < i ==> #[trigger] cand@[c] == FULL_MASK,
        {
            cand.push(FULL_MASK);
        }
        self.candidates = cand;
        proof {
            lemma_mask_full(1);
            lemma_mask_full(2);
            assert forall|c: int, p: int, d: u8| !(#[trigger] crate::propagate::unpropagated(
                self.candidates@,
                c,
                p,
                d,
            )) by {
                if crate::propagate::unpropagated(self.candidates@, c, p, d) {
                    assert(is_singleton(FULL_MASK, d));
                    assert(mask_has(FULL_MASK, 1u8) && mask_has(FULL_MASK, 2u8));
                    assert(false);
                }
            }
        }
    }
}

/// A removal that empties a domain shows the board outside `lw_init_ok`.
proof fn lemma_lw_abort(b: Seq<u8>, i: int, ps: Seq<usize>, k: int, d: u8, p: int, m: u16)
    requires
        b.len() == 81,
        forall|c: int| 0 <= c < 81 ==> b[c] <= 9,
        0 <= i < 81,
        d == b[i],
        1 <= d <= 9,
        0 <= k < 20,
        ps.len() == 20,
        forall|k2: int| 0 <= k2 < 20 ==> is_peer(i, #[trigger] ps[k2] as int),
        forall|k1: int, k2: int| 0 <= k1 < k2 < 20 ==> ps[k1] != ps[k2],
        p == ps[k] as int,
        mask_has(m, d),
        forall|e: u8| #[trigger] mask_has(m, e) ==> e == d,
        // the domain of `p` before this removal
        forall|e: u8| #[trigger] mask_has(m, e) <==> lw_mid_has(b, i, p, e),
    ensures
        !lw_init_ok(b),
{
    assert(is_peer(i, p));
    if b[p] != 0 && p < i {
        // an assigned, already processed peer: it kept exactly its value,
        // which must be d, so two assigned peers conflict
        assert(lw_mid_has(b, i, p, b[p]));
        assert(mask_has(m, b[p]));
        assert(b[p] == d);
        assert(!board_partial_valid(b));
    } else if b[p] == 0 {
        // a blank cell whose last possible digit was d: cell i supplies d,
        // so no digit is left for it at all
        assert forall|e: u8| 1 <= e <= 9 implies has_filled_peer(b, p, e) by {
            if e == d {
                assert(is_peer(p, i) && b[i] == d);
            } else {
                assert(!mask_has(m, e));
                assert(!lw_mid_has(b, i, p, e));
                let p2 = choose|p2: int| 0 <= p2 < i && is_peer(p, p2) && b[p2] == e;
                assert(has_filled_peer(b, p, e));
            }
        }
        if lw_init_ok(b) {
            let e = choose|e: u8| 1 <= e <= 9 && !has_filled_peer(b, p, e);
            assert(false);
        }
    } else {
        // an assigned, not yet processed peer
        if b[p] == d {
            assert(!board_partial_valid(b));
        } else {
            // its own value was already crossed off by some processed peer
            assert(!mask_has(m, b[p]));
            assert(1 <= b[p] <= 9);
            assert(!lw_mid_has(b, i, p, b[p]));
            let p2 = choose|p2: int| 0 <= p2 < i && is_peer(p, p2) && b[p2] == b[p];
            assert(is_peer(p, p2) && b[p] != 0 && b[p] == b[p2]);
            assert(!board_partial_valid(b));
        }
    }
}

/// Cells other than the peer just handled keep their membership when `k`
/// advances.
proof fn lemma_inner_step_other(
    b: Seq<u8>,
    i: int,
    ps: Seq<usize>,
    k: int,
    d: u8,
    c: int,
    e: u8,
)
    requires
        0 <= k < 20,
        ps.len() == 20,
        c != ps[k] as int,
    ensures
        lw_inner_has(b, i, ps, k, d, c, e) == lw_inner_has(b, i, ps, k + 1, d, c, e),
{
    if c != i {
        if exists|k2: int| 0 <= k2 < k && #[trigger] ps[k2] == c {
            let k2 = choose|k2: int| 0 <= k2 < k && #[trigger] ps[k2] == c;
            assert(0 <= k2 < k + 1 && ps[k2] == c);
        } else {
            if exists|k2: int| 0 <= k2 < k + 1 && #[trigger] ps[k2] == c {
                let k2 = choose|k2: int| 0 <= k2 < k + 1 && #[trigger] ps[k2] == c;
                assert(k2 == k);
                assert(false);
            }
        }
    }
}

/// After all 20 peers of an assigned cell have been handled, the
/// mid-characterization advances by one cell.
proof fn lemma_lw_outer_step(b: Seq<u8>, i: int, ps: Seq<usize>, d: u8, cand: Seq<u16>)
    requires
        b.len() == 81,
        cand.len() == 81,
        0 <= i < 81,
        d == b[i],
        1 <= d <= 9,
        ps.len() == 20,
        forall|k2: int| 0 <= k2 < 20 ==> is_peer(i, #[trigger] ps[k2] as int),
        forall|pb: int| is_peer(i, pb) ==> exists|k2: int| 0 <= k2 < 20 && #[trigger] ps[k2] == pb,
        forall|k2: int| 0 <= k2 < 20 ==> !((#[trigger] ps[k2] as int) < i && b[ps[k2] as int] != 0
            && b[ps[k2] as int] == d),
        forall|c: int, e: u8| 0 <= c < 81 ==> (#[trigger] mask_has(cand[c], e) <==> lw_inner_has(
            b,
            i,
            ps,
            20,
            d,
            c,
            e,
        )),
    ensures
        forall|c: int, e: u8| 0 <= c < 81 ==> (#[trigger] mask_has(cand[c], e) <==> lw_mid_has(
            b,
            i + 1,
            c,
            e,
        )),
{
    assert forall|c: int, e: u8| 0 <= c < 81 implies (#[trigger] mask_has(cand[c], e)
        <==> lw_mid_has(b, i + 1, c, e)) by {
        if c == i {
            assert(lw_mid_has(b, i + 1, c, e) == (e == d));
        } else if is_peer(i, c) {
            let k2 = choose|k2: int| 0 <= k2 < 20 && #[trigger] ps[k2] == c;
            assert(lw_inner_has(b, i, ps, 20, d, c, e) == (lw_mid_has(b, i, c, e) && e != d));
            if b[c] != 0 && c < i {
                // a processed assigned peer never carries d on the success
                // path, so crossing d off did not change its domain
                assert(b[c] != d);
                assert(lw_mid_has(b, i + 1, c, e) == (e == b[c]));
                assert(lw_mid_has(b, i, c, e) == (e == b[c]));
            } else {
                assert(lw_mid_has(b, i + 1, c, e) == (1 <= e <= 9 && !(exists|p: int|
                    0 <= p < i + 1 && #[trigger] is_peer(c, p) && b[p] == e)));
                if lw_mid_has(b, i, c, e) && e != d {
                    if exists|p: int| 0 <= p < i + 1 && #[trigger] is_peer(c, p) && b[p] == e {
                        let p = choose|p: int|
                            0 <= p < i + 1 && #[trigger] is_peer(c, p) && b[p] == e;
                        if p == i {
                            assert(e == d);
                            assert(false);
                        } else {
                            assert(!lw_mid_has(b, i, c, e));
                            assert(false);
                        }
                    }
                    assert(lw_mid_has(b, i + 1, c, e));
                }
                if lw_mid_has(b, i + 1, c, e) {
                    assert(!(exists|p: int| 0 <= p < i && #[trigger] is_peer(c, p) && b[p] == e));
                    assert(lw_mid_has(b, i, c, e));
                    assert(is_peer(c, i) && b[i] == d);
                    if e == d {
                        assert(false);
                    }
                }
            }
        } else {
            // not a peer of i and not i itself: nothing changed
            if exists|k2: int| 0 <= k2 < 20 && #[trigger] ps[k2] == c {
                let k2 = choose|k2: int| 0 <= k2 < 20 && #[trigger] ps[k2] == c;
                assert(is_peer(i, ps[k2] as int));
                assert(false);
            }
            assert(lw_inner_has(b, i, ps, 20, d, c, e) == lw_mid_has(b, i, c, e));
            lemma_mid_nonpeer_step(b, i, c, e);
        }
    }
}

/// Advancing past a cell never touches the membership of cells that are
/// not its peers.
proof fn lemma_mid_nonpeer_step(b: Seq<u8>, i: int, c: int, e: u8)
    requires
        0 <= i < 81,
        0 <= c < 81,
        c != i,
        !is_peer(c, i),
    ensures
        lw_mid_has(b, i, c, e) == lw_mid_has(b, i + 1, c, e),
{
    if b[c] != 0 && c < i {
    } else {
        if exists|p: int| 0 <= p < i + 1 && #[trigger] is_peer(c, p) && b[p] == e {
            let p = choose|p: int| 0 <= p < i + 1 && #[trigger] is_peer(c, p) && b[p] == e;
            assert(p != i);
            assert(exists|p2: int| 0 <= p2 < i && #[trigger] is_peer(c, p2) && b[p2] == e);
        }
        if exists|p: int| 0 <= p < i && #[trigger] is_peer(c, p) && b[p] == e {
            let p = choose|p: int| 0 <= p < i && #[trigger] is_peer(c, p) && b[p] == e;
            assert(0 <= p < i + 1 && is_peer(c, p) && b[p] == e);
        }
    }
}

/// Advancing past a blank cell changes no membership at all.
proof fn lemma_mid_blank_step(b: Seq<u8>, i: int, c: int, e: u8)
    requires
        0 <= i < 81,
        0 <= c < 81,
        b.len() == 81,
        b[i] == 0,
    ensures
        lw_mid_has(b, i, c, e) == lw_mid_has(b, i + 1, c, e),
{
    if b[c] != 0 && c < i + 1 {
        assert(c != i);
    } else {
        if exists|p: int| 0 <= p < i + 1 && #[trigger] is_peer(c, p) && b[p] == e {
            let p = choose|p: int| 0 <= p < i + 1 && #[trigger] is_peer(c, p) && b[p] == e;
            if p == i {
                assert(lw_mid_has(b, i, c, e) ==> e != 0);
            } else {
                assert(exists|p2: int| 0 <= p2 < i && #[trigger] is_peer(c, p2) && b[p2] == e);
            }
        }
        if exists|p: int| 0 <= p < i && #[trigger] is_peer(c, p) && b[p] == e {
            let p = choose|p: int| 0 <= p < i && #[trigger] is_peer(c, p) && b[p] == e;
            assert(0 <= p < i + 1 && is_peer(c, p) && b[p] == e);
        }
    }
}

/// After all 81 cells, the mid-characterization is the final one.
proof fn lemma_mid_final(b: Seq<u8>, c: int, e: u8)
    requires
        0 <= c < 81,
    ensures
        lw_mid_has(b, 81, c, e) == lw_has(b, c, e),
{
    if b[c] == 0 {
        if has_filled_peer(b, c, e) {
            let p = choose|p: int| is_peer(c, p) && b[p] == e && e != 0;
            assert(0 <= p < 81 && is_peer(c, p) && b[p] == e);
        }
        if exists|p: int| 0 <= p < 81 && #[trigger] is_peer(c, p) && b[p] == e {
            let p = choose|p: int| 0 <= p < 81 && #[trigger] is_peer(c, p) && b[p] == e;
            if 1 <= e <= 9 {
                assert(is_peer(c, p) && b[p] == e && e != 0);
                assert(has_filled_peer(b, c, e));
            }
        }
    }
}

} // verus!
