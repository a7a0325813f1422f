//! The annealing score: minus the number of distinct digits present in
//! each row, column and box, summed over all 27 units. A perfect solution
//! scores exactly -243; any duplicate in a unit scores strictly worse.

use vstd::prelude::*;

use crate::board::{Sudoku, board_wf, board_partial_valid, board_solved};
use crate::topology::{
    is_peer, unit_cell_at, unit_member, unit_cells, valid_cell, cell_row, cell_col, cell_box,
};

verus! {

/// The perfect score of a fully solved board.
pub const PERFECT_SCORE: i32 = -243;

/// Digit `d` occurs somewhere in the value sequence.
pub open spec fn present(s: Seq<u8>, d: u8) -> bool {
    exists|k: int| 0 <= k < s.len() && s[k] == d
}

/// How many of the digits `1..=dmax` occur in the value sequence.
pub open spec fn unique_upto(s: Seq<u8>, dmax: int) -> nat
    decreases dmax,
{
    if dmax <= 0 {
        0
    } else {
        unique_upto(s, dmax - 1) + if present(s, dmax as u8) {
            1nat
        } else {
            0nat
        }
    }
}

/// How many distinct digits 1..=9 occur in the value sequence.
pub open spec fn unique_count(s: Seq<u8>) -> nat {
    unique_upto(s, 9)
}

/// How often digit `d` occurs among the first `k` values.
pub open spec fn occ_upto(s: Seq<u8>, d: u8, k: int) -> nat
    decreases k,
{
    if k <= 0 {
        0
    } else {
        occ_upto(s, d, k - 1) + if s[k - 1] == d {
            1nat
        } else {
            0nat
        }
    }
}

/// How often digit `d` occurs in the value sequence.
pub open spec fn occ(s: Seq<u8>, d: u8) -> nat {
    occ_upto(s, d, s.len() as int)
}

/// The occurrences of the digits `1..=dmax`, summed.
pub open spec fn sum_occ(s: Seq<u8>, dmax: int) -> nat
    decreases dmax,
{
    if dmax <= 0 {
        0
    } else {
        sum_occ(s, dmax - 1) + occ(s, dmax as u8)
    }
}

/// The values of unit `u`, in unit order.
pub open spec fn unit_vals(b: Seq<u8>, u: int) -> Seq<u8> {
    Seq::new(9, |k: int| b[unit_cell_at(u, k)])
}

/// The distinct-digit counts of the first `u` units, summed.
pub open spec fn units_score(b: Seq<u8>, u: int) -> nat
    decreases u,
{
    if u <= 0 {
        0
    } else {
        units_score(b, u - 1) + unique_count(unit_vals(b, u - 1))
    }
}

/// The annealing score of a board.
pub open spec fn score_spec(b: Seq<u8>) -> int {
    -(units_score(b, 27) as int)
}

proof fn lemma_occ_positive(s: Seq<u8>, d: u8, k: int)
    requires
        occ_upto(s, d, k) >= 1,
        k <= s.len(),
    ensures
        present(s, d),
    decreases k,
{
    if k > 0 {
        if s[k - 1] == d {
        } else {
            lemma_occ_positive(s, d, k - 1);
        }
    }
}

proof fn lemma_occ_mono(s: Seq<u8>, d: u8, k1: int, k2: int)
    requires
        k1 <= k2,
    ensures
        occ_upto(s, d, k1) <= occ_upto(s, d, k2),
    decreases k2 - k1,
{
    if k1 < k2 {
        lemma_occ_mono(s, d, k1, k2 - 1);
    }
}

/// Two distinct positions with the same value give that value at least
/// two occurrences.
proof fn lemma_occ_two(s: Seq<u8>, d: u8, i: int, j: int)
    requires
        0 <= i < j < s.len(),
        s[i] == d,
        s[j] == d,
    ensures
        occ(s, d) >= 2,
{
    lemma_occ_two_upto(s, d, i, j + 1);
    lemma_occ_mono(s, d, j + 1, s.len() as int);
}

proof fn lemma_occ_two_upto(s: Seq<u8>, d: u8, i: int, k: int)
    requires
        0 <= i < k - 1,
        k <= s.len(),
        s[i] == d,
        s[k - 1] == d,
    ensures
        occ_upto(s, d, k) >= 2,
{
    lemma_occ_one_upto(s, d, i, k - 1);
}

proof fn lemma_occ_one_upto(s: Seq<u8>, d: u8, i: int, k: int)
    requires
        0 <= i < k,
        k <= s.len(),
        s[i] == d,
    ensures
        occ_upto(s, d, k) >= 1,
    decreases k,
{
    if i < k - 1 {
        lemma_occ_one_upto(s, d, i, k - 1);
    }
}

/// An occurrence count of two or more exhibits two distinct positions.
proof fn lemma_occ_two_witness(s: Seq<u8>, d: u8, k: int) -> (r: (int, int))
    requires
        occ_upto(s, d, k) >= 2,
        k <= s.len(),
    ensures
        0 <= r.0 < r.1 < k,
        s[r.0] == d,
        s[r.1] == d,
    decreases k,
{
    if k <= 0 {
        assert(false);
        (0, 1)
    } else if s[k - 1] == d {
        if occ_upto(s, d, k - 1) >= 1 {
            let i = lemma_occ_one_witness(s, d, k - 1);
            (i, k - 1)
        } else {
            lemma_occ_two_witness(s, d, k - 1)
        }
    } else {
        lemma_occ_two_witness(s, d, k - 1)
    }
}

proof fn lemma_occ_one_witness(s: Seq<u8>, d: u8, k: int) -> (i: int)
    requires
        occ_upto(s, d, k) >= 1,
        k <= s.len(),
    ensures
        0 <= i < k,
        s[i] == d,
    decreases k,
{
    if k <= 0 {
        assert(false);
        0
    } else if s[k - 1] == d {
        k - 1
    } else {
        lemma_occ_one_witness(s, d, k - 1)
    }
}

/// Every value of a sequence of digits 1..=9 is counted exactly once in
/// the occurrence sum.
proof fn lemma_sum_occ_total(s: Seq<u8>)
    requires
        forall|k: int| 0 <= k < s.len() ==> 1 <= #[trigger] s[k] <= 9,
    ensures
        sum_occ(s, 9) == s.len(),
    decreases s.len(),
{
    if s.len() == 0 {
        lemma_sum_occ_empty(s, 9);
    } else {
        let t = s.drop_last();
        let x = s.last();
        lemma_sum_occ_total(t);
        lemma_sum_occ_push(t, x, 9);
        assert(t.push(x) =~= s);
    }
}

proof fn lemma_sum_occ_empty(s: Seq<u8>, dmax: int)
    requires
        s.len() == 0,
    ensures
        sum_occ(s, dmax) == 0,
    decreases dmax,
{
    if dmax > 0 {
        lemma_sum_occ_empty(s, dmax - 1);
    }
}

proof fn lemma_occ_push(t: Seq<u8>, x: u8, d: u8)
    ensures
        occ(t.push(x), d) == occ(t, d) + if x == d {
            1int
        } else {
            0int
        },
{
    let s = t.push(x);
    assert(s.len() == t.len() + 1);
    lemma_occ_upto_agree(t, s, d, t.len() as int);
}

pub proof fn lemma_occ_upto_agree(t: Seq<u8>, s: Seq<u8>, d: u8, k: int)
    requires
        forall|i: int| 0 <= i < k ==> t[i] == s[i],
        k >= 0,
    ensures
        occ_upto(t, d, k) == occ_upto(s, d, k),
    decreases k,
{
    if k > 0 {
        lemma_occ_upto_agree(t, s, d, k - 1);
    }
}

proof fn lemma_sum_occ_push(t: Seq<u8>, x: u8, dmax: int)
    requires
        0 <= dmax <= 9,
        1 <= x <= 9,
    ensures
        sum_occ(t.push(x), dmax) == sum_occ(t, dmax) + if x <= dmax {
            1int
        } else {
            0int
        },
    decreases dmax,
{
    if dmax > 0 {
        lemma_sum_occ_push(t, x, dmax - 1);
        lemma_occ_push(t, x, dmax as u8);
    }
}

/// With every occurrence count at most one, the occurrence sum is at most
/// the number of digits; a digit missing below the bound lowers it
/// further.
proof fn lemma_sum_occ_bounds(s: Seq<u8>, dmax: int)
    requires
        forall|d: u8| #[trigger] occ(s, d) <= 1,
        dmax >= 0,
    ensures
        sum_occ(s, dmax) <= dmax,
    decreases dmax,
{
    if dmax > 0 {
        lemma_sum_occ_bounds(s, dmax - 1);
        assert(occ(s, dmax as u8) <= 1);
    }
}

proof fn lemma_sum_occ_missing(s: Seq<u8>, d0: u8, dmax: int)
    requires
        forall|d: u8| #[trigger] occ(s, d) <= 1,
        1 <= d0 <= dmax,
        occ(s, d0) == 0,
    ensures
        sum_occ(s, dmax) <= dmax - 1,
    decreases dmax,
{
    if d0 == dmax {
        lemma_sum_occ_bounds(s, dmax - 1);
    } else {
        lemma_sum_occ_missing(s, d0, dmax - 1);
    }
}

/// The distinct-digit count never exceeds the digit bound.
proof fn lemma_unique_le(s: Seq<u8>, dmax: int)
    requires
        dmax >= 0,
    ensures
        unique_upto(s, dmax) <= dmax,
    decreases dmax,
{
    if dmax > 0 {
        lemma_unique_le(s, dmax - 1);
    }
}

/// With every digit present, the distinct-digit count is full.
proof fn lemma_unique_full(s: Seq<u8>, dmax: int)
    requires
        0 <= dmax <= 9,
        forall|d: u8| 1 <= d <= dmax ==> #[trigger] present(s, d),
    ensures
        unique_upto(s, dmax) == dmax,
    decreases dmax,
{
    if dmax > 0 {
        lemma_unique_full(s, dmax - 1);
        assert(present(s, dmax as u8));
    }
}

/// A full distinct-digit count means every digit is present.
proof fn lemma_unique_full_present(s: Seq<u8>, dmax: int)
    requires
        unique_upto(s, dmax) == dmax,
        dmax >= 0,
    ensures
        forall|d: u8| 1 <= d <= dmax ==> #[trigger] present(s, d),
    decreases dmax,
{
    if dmax > 0 {
        lemma_unique_le(s, dmax - 1);
        lemma_unique_full_present(s, dmax - 1);
    }
}

/// A unit whose nine values are nonzero digits with no duplicates shows
/// all nine digits; conversely a unit showing all nine digits has nonzero,
/// pairwise distinct values.
proof fn lemma_unit_unique_nine(s: Seq<u8>)
    requires
        s.len() == 9,
        forall|k: int| 0 <= k < 9 ==> 1 <= #[trigger] s[k] <= 9,
        forall|k1: int, k2: int| 0 <= k1 < k2 < 9 ==> s[k1] != s[k2],
    ensures
        unique_count(s) == 9,
{
    lemma_sum_occ_total(s);
    assert forall|d: u8| #[trigger] occ(s, d) <= 1 by {
        if occ(s, d) >= 2 {
            let r = lemma_occ_two_witness(s, d, 9);
            assert(false);
        }
    }
    assert forall|d: u8| 1 <= d <= 9 implies #[trigger] present(s, d) by {
        if !present(s, d) {
            if occ(s, d) >= 1 {
                lemma_occ_positive(s, d, 9);
                assert(false);
            }
            lemma_sum_occ_missing(s, d, 9);
            assert(false);
        }
    }
    lemma_unique_full(s, 9);
}

/// A nine-cell unit showing all nine digits holds each exactly once: no
/// zeros and no duplicates.
proof fn lemma_unique_nine_distinct(s: Seq<u8>)
    requires
        s.len() == 9,
        forall|k: int| 0 <= k < 9 ==> #[trigger] s[k] <= 9,
        unique_count(s) == 9,
    ensures
        forall|k: int| 0 <= k < 9 ==> #[trigger] s[k] != 0,
        forall|k1: int, k2: int| 0 <= k1 < k2 < 9 ==> s[k1] != s[k2],
{
    lemma_unique_full_present(s, 9);
    // each digit present gives nine occurrences at least; a zero entry or
    // a duplicate would push the occurrence sum past the nine cells
    assert forall|k: int| 0 <= k < 9 implies #[trigger] s[k] != 0 by {
        if s[k] == 0 {
            lemma_sum_occ_zero_cell(s, k);
            let d = choose|d: u8| 1 <= d <= 9 && !present(s, d);
            assert(false);
        }
    }
    assert forall|k1: int, k2: int| 0 <= k1 < k2 < 9 implies s[k1] != s[k2] by {
        if s[k1] == s[k2] {
            lemma_sum_occ_total(s);
            lemma_occ_two(s, s[k1], k1, k2);
            lemma_sum_occ_all_present_dup(s, s[k1], 9);
            assert(false);
        }
    }
}

/// A present digit contributes at least one occurrence to the sum.
proof fn lemma_sum_occ_present_ge(s: Seq<u8>, dmax: int)
    requires
        0 <= dmax,
        forall|d: u8| 1 <= d <= 9 ==> #[trigger] present(s, d),
    ensures
        dmax <= 9 ==> sum_occ(s, dmax) >= dmax,
    decreases dmax,
{
    if dmax > 0 {
        lemma_sum_occ_present_ge(s, dmax - 1);
        if dmax <= 9 {
            let d = dmax as u8;
            assert(present(s, d));
            let k = choose|k: int| 0 <= k < s.len() && s[k] == d;
            lemma_occ_one_upto(s, d, k, s.len() as int);
        }
    }
}

/// A zero entry among nine cells leaves some digit unrepresented.
proof fn lemma_sum_occ_zero_cell(s: Seq<u8>, k0: int)
    requires
        s.len() == 9,
        forall|k: int| 0 <= k < 9 ==> #[trigger] s[k] <= 9,
        0 <= k0 < 9,
        s[k0] == 0,
    ensures
        exists|d: u8| 1 <= d <= 9 && !#[trigger] present(s, d),
{
    if forall|d: u8| 1 <= d <= 9 ==> #[trigger] present(s, d) {
        lemma_sum_occ_present_ge(s, 9);
        lemma_sum_occ_le_nonzero(s, s.len() as int);
        lemma_nonzero_count_missing(s, k0, s.len() as int);
        assert(false);
    }
}

/// The occurrence sum counts only entries holding digits 1..=9.
pub open spec fn nonzero_upto(s: Seq<u8>, k: int) -> nat
    decreases k,
{
    if k <= 0 {
        0
    } else {
        nonzero_upto(s, k - 1) + if 1 <= s[k - 1] <= 9 {
            1nat
        } else {
            0nat
        }
    }
}

pub proof fn lemma_sum_occ_le_nonzero(s: Seq<u8>, n: int)
    requires
        n == s.len(),
    ensures
        sum_occ(s, 9) == nonzero_upto(s, n),
    decreases n,
{
    if n == 0 {
        lemma_sum_occ_empty(s, 9);
    } else {
        let t = s.drop_last();
        lemma_sum_occ_le_nonzero(t, n - 1);
        lemma_nonzero_agree(t, s, n - 1);
        if 1 <= s[n - 1] <= 9 {
            lemma_sum_occ_push(t, s[n - 1], 9);
        } else {
            lemma_sum_occ_push_other(t, s[n - 1], 9);
        }
        assert(t.push(s[n - 1]) =~= s);
    }
}

proof fn lemma_nonzero_agree(t: Seq<u8>, s: Seq<u8>, k: int)
    requires
        forall|i: int| 0 <= i < k ==> t[i] == s[i],
        k >= 0,
    ensures
        nonzero_upto(t, k) == nonzero_upto(s, k),
    decreases k,
{
    if k > 0 {
        lemma_nonzero_agree(t, s, k - 1);
    }
}

proof fn lemma_sum_occ_push_other(t: Seq<u8>, x: u8, dmax: int)
    requires
        0 <= dmax <= 9,
        !(1 <= x <= 9),
    ensures
        sum_occ(t.push(x), dmax) == sum_occ(t, dmax),
    decreases dmax,
{
    if dmax > 0 {
        lemma_sum_occ_push_other(t, x, dmax - 1);
        lemma_occ_push(t, x, dmax as u8);
    }
}

proof fn lemma_nonzero_count_missing(s: Seq<u8>, k0: int, n: int)
    requires
        0 <= k0 < n,
        n <= s.len(),
        !(1 <= s[k0] <= 9),
    ensures
        nonzero_upto(s, n) <= n - 1,
    decreases n,
{
    if k0 == n - 1 {
        lemma_nonzero_le(s, n - 1);
    } else {
        lemma_nonzero_count_missing(s, k0, n - 1);
    }
}

proof fn lemma_nonzero_le(s: Seq<u8>, n: int)
    requires
        n >= 0,
    ensures
        nonzero_upto(s, n) <= n,
    decreases n,
{
    if n > 0 {
        lemma_nonzero_le(s, n - 1);
    }
}

/// Nine all-present digits and a duplicated one overflow the nine cells.
proof fn lemma_sum_occ_all_present_dup(s: Seq<u8>, d0: u8, dmax: int)
    requires
        s.len() == 9,
        forall|d: u8| 1 <= d <= 9 ==> #[trigger] present(s, d),
        1 <= d0 <= dmax <= 9,
        occ(s, d0) >= 2,
    ensures
        sum_occ(s, dmax) >= dmax + 1,
    decreases dmax,
{
    if d0 == dmax {
        lemma_sum_occ_present_ge(s, dmax - 1);
    } else {
        lemma_sum_occ_all_present_dup(s, d0, dmax - 1);
        let d = dmax as u8;
        assert(present(s, d));
        let k = choose|k: int| 0 <= k < s.len() && s[k] == d;
        lemma_occ_one_upto(s, d, k, s.len() as int);
    }
}


/// The cell formula of a unit always lands inside the unit.
pub proof fn lemma_unit_cell_at_member(u: int, k: int)
    requires
        0 <= u < 27,
        0 <= k < 9,
    ensures
        valid_cell(unit_cell_at(u, k)),
        unit_member(u, unit_cell_at(u, k)),
{
    let c = unit_cell_at(u, k);
    if u < 9 {
        assert(cell_row(c) == u && cell_col(c) == k) by (nonlinear_arith)
            requires
                c == 9 * u + k,
                0 <= u < 9,
                0 <= k < 9,
                cell_row(c) == c / 9,
                cell_col(c) == c % 9,
        ;
    } else if u < 18 {
        assert(cell_row(c) == k && cell_col(c) == u - 9) by (nonlinear_arith)
            requires
                c == 9 * k + (u - 9),
                9 <= u < 18,
                0 <= k < 9,
                cell_row(c) == c / 9,
                cell_col(c) == c % 9,
        ;
    } else {
        let bi = u - 18;
        assert(cell_row(c) == 3 * (bi / 3) + k / 3 && cell_col(c) == 3 * (bi % 3) + k % 3)
            by (nonlinear_arith)
            requires
                c == 27 * (bi / 3) + 3 * (bi % 3) + 9 * (k / 3) + k % 3,
                0 <= bi < 9,
                0 <= k < 9,
                cell_row(c) == c / 9,
                cell_col(c) == c % 9,
        ;
        assert(cell_box(c) == bi) by (nonlinear_arith)
            requires
                cell_row(c) == 3 * (bi / 3) + k / 3,
                cell_col(c) == 3 * (bi % 3) + k % 3,
                cell_box(c) == 3 * (cell_row(c) / 3) + cell_col(c) / 3,
                0 <= bi < 9,
                0 <= k < 9,
        ;
    }
}

/// Distinct positions of one unit are distinct cells.
proof fn lemma_unit_cell_at_inj(u: int, k1: int, k2: int)
    requires
        0 <= u < 27,
        0 <= k1 < 9,
        0 <= k2 < 9,
        k1 != k2,
    ensures
        unit_cell_at(u, k1) != unit_cell_at(u, k2),
{
    if u >= 18 {
        assert(9 * (k1 / 3) + k1 % 3 != 9 * (k2 / 3) + k2 % 3) by (nonlinear_arith)
            requires
                0 <= k1 < 9,
                0 <= k2 < 9,
                k1 != k2,
        ;
    }
}

/// A peer pair shares a unit, at two distinct positions.
proof fn lemma_peer_common_unit(c1: int, c2: int) -> (r: (int, int, int))
    requires
        is_peer(c1, c2),
    ensures
        0 <= r.0 < 27,
        0 <= r.1 < 9,
        0 <= r.2 < 9,
        r.1 != r.2,
        unit_cell_at(r.0, r.1) == c1,
        unit_cell_at(r.0, r.2) == c2,
{
    let r1 = cell_row(c1);
    let l1 = cell_col(c1);
    let r2 = cell_row(c2);
    let l2 = cell_col(c2);
    assert(c1 == 9 * r1 + l1);
    assert(c2 == 9 * r2 + l2);
    if r1 == r2 {
        (r1, l1, l2)
    } else if l1 == l2 {
        (9 + l1, r1, r2)
    } else {
        let bx = cell_box(c1);
        let k1 = 3 * (r1 % 3) + l1 % 3;
        let k2 = 3 * (r2 % 3) + l2 % 3;
        assert(r1 / 3 == bx / 3 && l1 / 3 == bx % 3) by (nonlinear_arith)
            requires
                bx == 3 * (r1 / 3) + l1 / 3,
                0 <= r1 < 9,
                0 <= l1 < 9,
        ;
        assert(r2 / 3 == bx / 3 && l2 / 3 == bx % 3) by (nonlinear_arith)
            requires
                bx == 3 * (r2 / 3) + l2 / 3,
                0 <= r2 < 9,
                0 <= l2 < 9,
        ;
        assert(unit_cell_at(18 + bx, k1) == c1 && unit_cell_at(18 + bx, k2) == c2)
            by (nonlinear_arith)
            requires
                c1 == 9 * r1 + l1,
                c2 == 9 * r2 + l2,
                k1 == 3 * (r1 % 3) + l1 % 3,
                k2 == 3 * (r2 % 3) + l2 % 3,
                r1 / 3 == bx / 3,
                l1 / 3 == bx % 3,
                r2 / 3 == bx / 3,
                l2 / 3 == bx % 3,
                0 <= r1 < 9,
                0 <= l1 < 9,
                0 <= r2 < 9,
                0 <= l2 < 9,
                0 <= bx < 9,
                unit_cell_at(18 + bx, k1) == 27 * (bx / 3) + 3 * (bx % 3) + 9 * (k1 / 3) + k1 % 3,
                unit_cell_at(18 + bx, k2) == 27 * (bx / 3) + 3 * (bx % 3) + 9 * (k2 / 3) + k2 % 3,
        ;
        assert(k1 != k2) by (nonlinear_arith)
            requires
                k1 == 3 * (r1 % 3) + l1 % 3,
                k2 == 3 * (r2 % 3) + l2 % 3,
                r1 / 3 == r2 / 3,
                l1 / 3 == l2 / 3,
                0 <= r1 < 9,
                0 <= l1 < 9,
                0 <= r2 < 9,
                0 <= l2 < 9,
                !(r1 == r2 && l1 == l2),
        ;
        (18 + bx, k1, k2)
    }
}

proof fn lemma_units_score_le(b: Seq<u8>, u: int)
    requires
        u >= 0,
    ensures
        units_score(b, u) <= 9 * u,
    decreases u,
{
    if u > 0 {
        lemma_units_score_le(b, u - 1);
        lemma_unique_le(unit_vals(b, u - 1), 9);
    }
}

proof fn lemma_units_score_full(b: Seq<u8>, u: int)
    requires
        u >= 0,
        forall|u2: int| 0 <= u2 < u ==> unique_count(#[trigger] unit_vals(b, u2)) == 9,
    ensures
        units_score(b, u) == 9 * u,
    decreases u,
{
    if u > 0 {
        lemma_units_score_full(b, u - 1);
    }
}

proof fn lemma_units_score_all_nine(b: Seq<u8>, u: int)
    requires
        u >= 0,
        units_score(b, u) == 9 * u,
    ensures
        forall|u2: int| 0 <= u2 < u ==> unique_count(#[trigger] unit_vals(b, u2)) == 9,
    decreases u,
{
    if u > 0 {
        lemma_units_score_le(b, u - 1);
        lemma_unique_le(unit_vals(b, u - 1), 9);
        lemma_units_score_all_nine(b, u - 1);
    }
}

proof fn lemma_units_score_defect(b: Seq<u8>, u0: int, u: int)
    requires
        0 <= u0 < u,
        unique_count(unit_vals(b, u0)) <= 8,
    ensures
        units_score(b, u) <= 9 * u - 1,
    decreases u,
{
    if u0 == u - 1 {
        lemma_units_score_le(b, u - 1);
    } else {
        lemma_units_score_defect(b, u0, u - 1);
        lemma_unique_le(unit_vals(b, u - 1), 9);
    }
}


/// Every unit of a complete valid board shows every digit somewhere.
pub proof fn lemma_solved_unit_present(b: Seq<u8>, u: int, d: u8)
    requires
        b.len() == 81,
        forall|c: int| 0 <= c < 81 ==> b[c] <= 9,
        board_solved(b),
        0 <= u < 27,
        1 <= d <= 9,
    ensures
        exists|k: int| 0 <= k < 9 && b[unit_cell_at(u, k)] == d,
{
    let s = unit_vals(b, u);
    assert forall|k: int| 0 <= k < 9 implies 1 <= #[trigger] s[k] <= 9 by {
        lemma_unit_cell_at_member(u, k);
    }
    assert forall|k1: int, k2: int| 0 <= k1 < k2 < 9 implies s[k1] != s[k2] by {
        lemma_unit_cell_at_member(u, k1);
        lemma_unit_cell_at_member(u, k2);
        lemma_unit_cell_at_inj(u, k1, k2);
        assert(is_peer(unit_cell_at(u, k1), unit_cell_at(u, k2)));
    }
    lemma_unit_unique_nine(s);
    lemma_unique_full_present(s, 9);
    assert(present(s, d));
    let k = choose|k: int| 0 <= k < s.len() && s[k] == d;
    assert(b[unit_cell_at(u, k)] == d);
}

/// A fully solved, valid board scores exactly the perfect score.
pub proof fn lemma_perfect_score(b: Seq<u8>)
    requires
        board_wf(b),
        board_solved(b),
    ensures
        score_spec(b) == PERFECT_SCORE as int,
{
    assert forall|u: int| 0 <= u < 27 implies unique_count(#[trigger] unit_vals(b, u)) == 9 by {
        let s = unit_vals(b, u);
        assert forall|k: int| 0 <= k < 9 implies 1 <= #[trigger] s[k] <= 9 by {
            lemma_unit_cell_at_member(u, k);
        }
        assert forall|k1: int, k2: int| 0 <= k1 < k2 < 9 implies s[k1] != s[k2] by {
            lemma_unit_cell_at_member(u, k1);
            lemma_unit_cell_at_member(u, k2);
            lemma_unit_cell_at_inj(u, k1, k2);
            let c1 = unit_cell_at(u, k1);
            let c2 = unit_cell_at(u, k2);
            assert(is_peer(c1, c2));
        }
        lemma_unit_unique_nine(s);
    }
    lemma_units_score_full(b, 27);
}

/// A board carrying a duplicate in some unit scores strictly worse than
/// the perfect score.
pub proof fn lemma_flawed_score(b: Seq<u8>)
    requires
        board_wf(b),
        !board_partial_valid(b),
    ensures
        score_spec(b) > PERFECT_SCORE as int,
{
    let (c1, c2) = choose|c1: int, c2: int|
        #[trigger] is_peer(c1, c2) && b[c1] != 0 && b[c1] == b[c2];
    let r = lemma_peer_common_unit(c1, c2);
    let u = r.0;
    let s = unit_vals(b, u);
    assert(s[r.1] == b[c1] && s[r.2] == b[c2]);
    assert forall|k: int| 0 <= k < 9 implies #[trigger] s[k] <= 9 by {
        lemma_unit_cell_at_member(u, k);
    }
    if unique_count(s) == 9 {
        lemma_unique_nine_distinct(s);
        assert(false);
    }
    lemma_unique_le(s, 9);
    lemma_units_score_defect(b, u, 27);
}

/// The perfect score is reached only by a fully solved, valid board.
pub proof fn lemma_score_solved(b: Seq<u8>)
    requires
        board_wf(b),
        score_spec(b) == PERFECT_SCORE as int,
    ensures
        board_solved(b),
{
    lemma_units_score_all_nine(b, 27);
    assert forall|c: int| 0 <= c < 81 implies b[c] != 0 by {
        let u = cell_row(c);
        let k = cell_col(c);
        assert(c == 9 * u + k);
        let s = unit_vals(b, u);
        assert forall|k2: int| 0 <= k2 < 9 implies #[trigger] s[k2] <= 9 by {
            lemma_unit_cell_at_member(u, k2);
        }
        assert(unique_count(s) == 9);
        lemma_unique_nine_distinct(s);
        assert(s[k] == b[c]);
    }
    assert forall|c1: int, c2: int| #[trigger] is_peer(c1, c2) && b[c1] != 0 implies b[c1]
        != b[c2] by {
        if b[c1] == b[c2] {
            let r = lemma_peer_common_unit(c1, c2);
            let s = unit_vals(b, r.0);
            assert forall|k2: int| 0 <= k2 < 9 implies #[trigger] s[k2] <= 9 by {
                lemma_unit_cell_at_member(r.0, k2);
            }
            assert(unique_count(s) == 9);
            lemma_unique_nine_distinct(s);
            assert(s[r.1] == b[c1] && s[r.2] == b[c2]);
            assert(false);
        }
    }
}

/// The score always lies between the perfect score and zero.
pub proof fn lemma_score_range(b: Seq<u8>)
    ensures
        PERFECT_SCORE as int <= score_spec(b) <= 0,
{
    lemma_units_score_le(b, 27);
}

fn contains_digit(values: &Vec<u8>, d: u8) -> (r: bool)
    ensures
        r == present(values@, d),
{
    for k in 0..values.len()
        invariant
            forall|i: int| 0 <= i < k ==> values@[i] != d,
    {
        if values[k] == d {
            return true;
        }
    }
    false
}

impl Sudoku {
    /// Counts the distinct digits 1..=9 among a unit's nine values.
    pub fn unique_elements(values: &Vec<u8>) -> (n: usize)
        ensures
            n == unique_count(values@),
    {
        let mut n: usize = 0;
        for d in 1..10u8
            invariant
                n == unique_upto(values@, d - 1),
                n <= 9,
        {
            proof {
                lemma_unique_le(values@, d - 1);
            }
            if contains_digit(values, d) {
                n = n + 1;
            }
        }
        n
    }
}

/// The annealing score of a board: minus the number of distinct digits in
/// each of the 27 units, summed.
#[verifier::loop_isolation(false)]
pub fn board_score(board: &Sudoku) -> (s: i32)
    requires
        board.wf(),
    ensures
        s == score_spec(board.board@),
        PERFECT_SCORE <= s <= 0,
{
    let mut total: usize = 0;
    for u in 0..27
        invariant
            total == units_score(board.board@, u as int),
            total <= 9 * u,
    {
        let uc = unit_cells(u);
        let mut vals: Vec<u8> = Vec::new();
        proof {
            assert forall|k2: int| 0 <= k2 < 9 implies #[trigger] uc@[k2] < 81 by {
                assert(unit_member(u as int, uc@[k2] as int));
            }
        }
        for k in 0..9
            invariant
                vals@.len() == k,
                uc@.len() == 9,
                forall|k2: int| 0 <= k2 < 9 ==> #[trigger] uc@[k2] < 81,
                forall|i: int| 0 <= i < k ==> #[trigger] vals@[i] == board.board@[uc@[i] as int],
        {
            vals.push(board.board[uc[k]]);
        }
        proof {
            assert(vals@ =~= unit_vals(board.board@, u as int));
            lemma_unique_le(unit_vals(board.board@, u as int), 9);
        }
        let n = Sudoku::unique_elements(&vals);
        total = total + n;
    }
    proof {
        lemma_score_range(board.board@);
    }
    0 - (total as i32)
}


/// Overwriting one entry adjusts that digit's count by the entry swapped
/// out and the entry swapped in.
pub proof fn lemma_occ_update(s: Seq<u8>, i: int, v: u8, d: u8)
    requires
        0 <= i < s.len(),
    ensures
        occ(s.update(i, v), d) == occ(s, d) - (if s[i] == d {
            1int
        } else {
            0int
        }) + (if v == d {
            1int
        } else {
            0int
        }),
{
    lemma_occ_upto_update(s, i, v, d, s.len() as int);
}

proof fn lemma_occ_upto_update(s: Seq<u8>, i: int, v: u8, d: u8, k: int)
    requires
        0 <= i < s.len(),
        k <= s.len(),
    ensures
        occ_upto(s.update(i, v), d, k) == occ_upto(s, d, k) + (if i < k {
            (if v == d {
                1int
            } else {
                0int
            }) - (if s[i] == d {
                1int
            } else {
                0int
            })
        } else {
            0int
        }),
    decreases k,
{
    if k > 0 {
        lemma_occ_upto_update(s, i, v, d, k - 1);
    }
}

/// A digit's count agrees with its multiset count.
pub proof fn lemma_occ_multiset(s: Seq<u8>, d: u8)
    ensures
        occ(s, d) == s.to_multiset().count(d),
    decreases s.len(),
{
    s.to_multiset_ensures();
    if s.len() == 0 {
        assert(!s.contains(d));
    } else {
        let t = s.drop_last();
        t.to_multiset_ensures();
        lemma_occ_multiset(t, d);
        lemma_occ_push(t, s.last(), d);
        assert(t.push(s.last()) =~= s);
        assert(t.push(s.last()).to_multiset() =~= t.to_multiset().insert(s.last()));
    }
}

/// Entries that are digits and entries that are blank partition the cells.
pub proof fn lemma_nonzero_zeros(b: Seq<u8>, n: int)
    requires
        0 <= n <= b.len(),
        forall|c: int| 0 <= c < n ==> #[trigger] b[c] <= 9,
    ensures
        nonzero_upto(b, n) + crate::board::zeros_upto(b, n) == n,
    decreases n,
{
    if n > 0 {
        lemma_nonzero_zeros(b, n - 1);
    }
}

/// A count difference of two over a segment exhibits two positions inside
/// the segment.
proof fn lemma_occ_seg_two_witness(s: Seq<u8>, d: u8, lo: int, hi: int) -> (r: (int, int))
    requires
        0 <= lo <= hi <= s.len(),
        occ_upto(s, d, hi) >= occ_upto(s, d, lo) + 2,
    ensures
        lo <= r.0 < r.1 < hi,
        s[r.0] == d,
        s[r.1] == d,
    decreases hi - lo,
{
    if s[hi - 1] == d {
        if occ_upto(s, d, hi - 1) >= occ_upto(s, d, lo) + 2 {
            lemma_occ_seg_two_witness(s, d, lo, hi - 1)
        } else {
            let i = lemma_occ_seg_one_witness(s, d, lo, hi - 1);
            (i, hi - 1)
        }
    } else {
        lemma_occ_seg_two_witness(s, d, lo, hi - 1)
    }
}

proof fn lemma_occ_seg_one_witness(s: Seq<u8>, d: u8, lo: int, hi: int) -> (i: int)
    requires
        0 <= lo <= hi <= s.len(),
        occ_upto(s, d, hi) >= occ_upto(s, d, lo) + 1,
    ensures
        lo <= i < hi,
        s[i] == d,
    decreases hi - lo,
{
    if s[hi - 1] == d {
        hi - 1
    } else {
        lemma_occ_seg_one_witness(s, d, lo, hi - 1)
    }
}

/// On a valid board no digit occurs more than nine times: at most once
/// per row.
pub proof fn lemma_valid_occ_le9(b: Seq<u8>, d: u8)
    requires
        b.len() == 81,
        board_partial_valid(b),
        1 <= d <= 9,
    ensures
        occ(b, d) <= 9,
{
    lemma_occ_rows(b, d, 9);
}

proof fn lemma_occ_rows(b: Seq<u8>, d: u8, r: int)
    requires
        b.len() == 81,
        board_partial_valid(b),
        1 <= d <= 9,
        0 <= r <= 9,
    ensures
        occ_upto(b, d, 9 * r) <= r,
    decreases r,
{
    if r > 0 {
        lemma_occ_rows(b, d, r - 1);
        if occ_upto(b, d, 9 * r) >= occ_upto(b, d, 9 * (r - 1)) + 2 {
            let (i, j) = lemma_occ_seg_two_witness(b, d, 9 * (r - 1), 9 * r);
            assert(cell_row(i) == r - 1 && cell_row(j) == r - 1) by (nonlinear_arith)
                requires
                    9 * (r - 1) <= i < 9 * r,
                    9 * (r - 1) <= j < 9 * r,
                    1 <= r <= 9,
                    cell_row(i) == i / 9,
                    cell_row(j) == j / 9,
            ;
            assert(is_peer(i, j));
            assert(false);
        }
    }
}

} // verus!
