//! Candidate domains as 9-bit masks.
//!
//! The domain of a cell is the set of digits 1..=9 still possible for it,
//! held as a `u16` whose bit `d - 1` records whether digit `d` is present.

use vstd::prelude::*;

verus! {

/// The domain holding every digit 1..=9.
pub const FULL_MASK: u16 = 0x1ff;

/// Digit `d` is a member of the domain `m`.
pub open spec fn mask_has(m: u16, d: u8) -> bool {
    1 <= d <= 9 && (m >> ((d - 1) as u16)) & 1u16 == 1u16
}

/// A well-formed domain uses only the nine low bits.
pub open spec fn mask_wf(m: u16) -> bool {
    m < 512
}

/// How many of the digits `1..=k` the domain `m` holds.
pub open spec fn mask_count_upto(m: u16, k: int) -> nat
    decreases k,
{
    if k <= 0 {
        0
    } else {
        mask_count_upto(m, k - 1) + if mask_has(m, k as u8) {
            1nat
        } else {
            0nat
        }
    }
}

/// The size of the domain `m`.
pub open spec fn mask_count(m: u16) -> nat {
    mask_count_upto(m, 9)
}

/// The domain `m` holds exactly the digit `d`.
pub open spec fn is_singleton(m: u16, d: u8) -> bool {
    mask_has(m, d) && forall|e: u8| mask_has(m, e) ==> e == d
}

/// Every digit of `m1` is a digit of `m2`.
pub open spec fn submask(m1: u16, m2: u16) -> bool {
    forall|e: u8| mask_has(m1, e) ==> mask_has(m2, e)
}

pub proof fn lemma_mask_full(e: u8)
    ensures
        mask_has(FULL_MASK, e) <==> 1 <= e <= 9,
{
    if 1 <= e && e <= 9 {
        assert((0x1ffu16 >> ((e - 1) as u16)) & 1u16 == 1u16) by (bit_vector)
            requires
                1 <= e <= 9,
        ;
    }
}

pub proof fn lemma_mask_single(d: u8, e: u8)
    requires
        1 <= d <= 9,
    ensures
        mask_has(1u16 << ((d - 1) as u16), e) <==> e == d,
        mask_wf(1u16 << ((d - 1) as u16)),
{
    assert((1u16 << ((d - 1) as u16)) < 512) by (bit_vector)
        requires
            1 <= d <= 9,
    ;
    if 1 <= e && e <= 9 {
        assert((((1u16 << ((d - 1) as u16)) >> ((e - 1) as u16)) & 1u16 == 1u16) <==> e == d)
            by (bit_vector)
            requires
                1 <= d <= 9,
                1 <= e <= 9,
        ;
    }
}

pub proof fn lemma_mask_remove_spec(m: u16, d: u8, e: u8)
    requires
        1 <= d <= 9,
    ensures
        mask_has(m & !(1u16 << ((d - 1) as u16)), e) <==> (mask_has(m, e) && e != d),
        m & !(1u16 << ((d - 1) as u16)) <= m,
{
    assert(m & !(1u16 << ((d - 1) as u16)) <= m) by (bit_vector);
    if 1 <= e && e <= 9 {
        assert((((m & !(1u16 << ((d - 1) as u16))) >> ((e - 1) as u16)) & 1u16 == 1u16) <==> (((m
            >> ((e - 1) as u16)) & 1u16 == 1u16) && e != d)) by (bit_vector)
            requires
                1 <= d <= 9,
                1 <= e <= 9,
        ;
    }
}

pub proof fn lemma_mask_has_nonzero(m: u16, e: u8)
    requires
        mask_has(m, e),
    ensures
        m != 0,
{
    let s = (e - 1) as u16;
    assert((m >> s) & 1u16 == 1u16 ==> m != 0) by (bit_vector);
}

/// A non-empty well-formed mask holds some digit.
pub proof fn lemma_mask_nonzero_has(m: u16) -> (e: u8)
    requires
        m != 0,
        mask_wf(m),
    ensures
        mask_has(m, e),
{
    assert((m >> 0u16) & 1u16 == 1u16 || (m >> 1u16) & 1u16 == 1u16 || (m >> 2u16) & 1u16 == 1u16
        || (m >> 3u16) & 1u16 == 1u16 || (m >> 4u16) & 1u16 == 1u16 || (m >> 5u16) & 1u16 == 1u16
        || (m >> 6u16) & 1u16 == 1u16 || (m >> 7u16) & 1u16 == 1u16 || (m >> 8u16) & 1u16 == 1u16)
        by (bit_vector)
        requires
            m != 0,
            m < 512,
    ;
    if (m >> 0u16) & 1u16 == 1u16 {
        1u8
    } else if (m >> 1u16) & 1u16 == 1u16 {
        2u8
    } else if (m >> 2u16) & 1u16 == 1u16 {
        3u8
    } else if (m >> 3u16) & 1u16 == 1u16 {
        4u8
    } else if (m >> 4u16) & 1u16 == 1u16 {
        5u8
    } else if (m >> 5u16) & 1u16 == 1u16 {
        6u8
    } else if (m >> 6u16) & 1u16 == 1u16 {
        7u8
    } else if (m >> 7u16) & 1u16 == 1u16 {
        8u8
    } else {
        9u8
    }
}

/// Counts are monotone in the digit bound.
pub proof fn lemma_count_upto_le(m: u16, k1: int, k2: int)
    requires
        k1 <= k2,
    ensures
        mask_count_upto(m, k1) <= mask_count_upto(m, k2),
    decreases k2 - k1,
{
    if k1 < k2 {
        lemma_count_upto_le(m, k1, k2 - 1);
    }
}

/// A held digit within the bound contributes to the count.
pub proof fn lemma_count_has(m: u16, d: u8, k: int)
    requires
        mask_has(m, d),
        d <= k,
    ensures
        mask_count_upto(m, k) >= 1,
    decreases k,
{
    if d < k {
        lemma_count_has(m, d, k - 1);
    }
}

/// Two distinct held digits force a count of at least two.
pub proof fn lemma_count_pair(m: u16, d: u8, e: u8)
    requires
        mask_has(m, d),
        mask_has(m, e),
        d < e,
    ensures
        mask_count(m) >= 2,
{
    lemma_count_has(m, d, e - 1);
    lemma_count_upto_le(m, e as int, 9);
}

/// A domain of size one holding `d` holds nothing else.
pub proof fn lemma_count_one_singleton(m: u16, d: u8)
    requires
        mask_count(m) == 1,
        mask_has(m, d),
    ensures
        is_singleton(m, d),
{
    assert forall|e: u8| mask_has(m, e) implies e == d by {
        if e < d {
            lemma_count_pair(m, e, d);
        } else if d < e {
            lemma_count_pair(m, d, e);
        }
    }
}

/// A count of zero means an empty domain.
pub proof fn lemma_count_zero(m: u16, k: int)
    requires
        mask_count_upto(m, k) == 0,
    ensures
        forall|e: u8| 1 <= e <= k ==> !mask_has(m, e),
    decreases k,
{
    if k > 0 {
        lemma_count_zero(m, k - 1);
    }
}

/// Removing a held digit lowers the count by exactly one.
pub proof fn lemma_count_remove(m: u16, d: u8, k: int)
    requires
        1 <= d <= 9,
        0 <= k <= 9,
    ensures
        mask_count_upto(m & !(1u16 << ((d - 1) as u16)), k) == mask_count_upto(m, k) - (
        if mask_has(m, d) && d <= k {
            1int
        } else {
            0int
        }),
    decreases k,
{
    if k > 0 {
        lemma_count_remove(m, d, k - 1);
        if 1 <= k <= 9 {
            lemma_mask_remove_spec(m, d, k as u8);
        }
    }
}

/// Domains hold at most nine digits.
pub proof fn lemma_count_le(m: u16, k: int)
    requires
        k >= 0,
    ensures
        mask_count_upto(m, k) <= k,
    decreases k,
{
    if k > 0 {
        lemma_count_le(m, k - 1);
    }
}

/// A smaller domain never counts more.
pub proof fn lemma_submask_count(m1: u16, m2: u16, k: int)
    requires
        submask(m1, m2),
    ensures
        mask_count_upto(m1, k) <= mask_count_upto(m2, k),
    decreases k,
{
    if k > 0 {
        lemma_submask_count(m1, m2, k - 1);
    }
}

/// Whether digit `d` is in the domain `m`.
pub fn mask_has_exec(m: u16, d: u8) -> (r: bool)
    requires
        1 <= d <= 9,
    ensures
        r == mask_has(m, d),
{
    (m >> ((d - 1) as u16)) & 1 == 1
}

/// The domain `m` with digit `d` taken out.
pub fn mask_remove(m: u16, d: u8) -> (r: u16)
    requires
        1 <= d <= 9,
    ensures
        forall|e: u8| mask_has(r, e) <==> (mask_has(m, e) && e != d),
        r <= m,
        mask_wf(m) ==> mask_wf(r),
        mask_count(r) == mask_count(m) - (if mask_has(m, d) {
            1int
        } else {
            0int
        }),
{
    proof {
        assert forall|e: u8| mask_has(m & !(1u16 << ((d - 1) as u16)), e) <==> (mask_has(m, e) && e
            != d) by {
            lemma_mask_remove_spec(m, d, e);
        }
        lemma_mask_remove_spec(m, d, 1u8);
        lemma_count_remove(m, d, 9);
    }
    m & !(1u16 << ((d - 1) as u16))
}

/// The domain holding exactly the digit `d`.
pub fn mask_single(d: u8) -> (r: u16)
    requires
        1 <= d <= 9,
    ensures
        forall|e: u8| mask_has(r, e) <==> e == d,
        mask_wf(r),
        mask_count(r) == 1,
{
    proof {
        assert forall|e: u8| #[trigger] mask_has(1u16 << ((d - 1) as u16), e) <==> e == d by {
            lemma_mask_single(d, e);
        }
        lemma_mask_single(d, d);
        lemma_count_has(1u16 << ((d - 1) as u16), d, 9);
        if mask_count(1u16 << ((d - 1) as u16)) >= 2 {
            lemma_two_count_two(1u16 << ((d - 1) as u16), 9);
        }
    }
    1u16 << ((d - 1) as u16)
}

/// A count of two or more exhibits two distinct held digits.
proof fn lemma_two_count_two(m: u16, k: int) -> (r: (u8, u8))
    requires
        mask_count_upto(m, k) >= 2,
        0 <= k <= 9,
    ensures
        mask_has(m, r.0),
        mask_has(m, r.1),
        r.0 < r.1,
        r.1 <= k,
    decreases k,
{
    if k <= 0 {
        assert(false);
        (0u8, 1u8)
    } else if mask_has(m, k as u8) {
        if mask_count_upto(m, k - 1) >= 2 {
            lemma_two_count_two(m, k - 1)
        } else {
            let d = lemma_one_count_one(m, k - 1);
            (d, k as u8)
        }
    } else {
        lemma_two_count_two(m, k - 1)
    }
}

/// A positive count exhibits a held digit.
pub proof fn lemma_one_count_one(m: u16, k: int) -> (d: u8)
    requires
        mask_count_upto(m, k) >= 1,
        0 <= k <= 9,
    ensures
        mask_has(m, d),
        d <= k,
    decreases k,
{
    if k <= 0 {
        assert(false);
        1u8
    } else if mask_has(m, k as u8) {
        k as u8
    } else {
        lemma_one_count_one(m, k - 1)
    }
}

/// The number of digits in the domain `m`.
pub fn mask_size(m: u16) -> (n: usize)
    ensures
        n == mask_count(m),
{
    let mut n: usize = 0;
    for d in 1..10u8
        invariant
            n == mask_count_upto(m, d - 1),
            n <= 9,
    {
        proof {
            lemma_count_le(m, d - 1);
        }
        if mask_has_exec(m, d) {
            n = n + 1;
        }
    }
    n
}

/// The smallest digit in a non-empty well-formed domain.
pub fn mask_first(m: u16) -> (d: u8)
    requires
        m != 0,
        mask_wf(m),
    ensures
        mask_has(m, d),
{
    proof {
        let e = lemma_mask_nonzero_has(m);
        lemma_count_has(m, e, 9);
    }
    for d in 1..10u8
        invariant
            mask_count_upto(m, d - 1) == 0,
            mask_count(m) >= 1,
    {
        if mask_has_exec(m, d) {
            return d;
        }
    }
    proof {
        assert(false);
    }
    1
}

/// A settled domain counts exactly one digit.
pub proof fn lemma_singleton_count(m: u16, d: u8)
    requires
        is_singleton(m, d),
    ensures
        mask_count(m) == 1,
{
    lemma_count_has(m, d, 9);
    if mask_count(m) >= 2 {
        let r = lemma_two_count_two(m, 9);
        assert(false);
    }
}

/// The empty mask holds no digit.
pub proof fn lemma_mask_empty(e: u8)
    ensures
        !mask_has(0u16, e),
{
    if 1 <= e && e <= 9 {
        assert((0u16 >> ((e - 1) as u16)) & 1u16 != 1u16) by (bit_vector);
    }
}

/// A domain with a positive count is not the empty mask.
pub proof fn lemma_count_pos_nonzero(m: u16)
    requires
        mask_count(m) >= 1,
    ensures
        m != 0,
{
    let d = lemma_one_count_one(m, 9);
    lemma_mask_has_nonzero(m, d);
}

/// Membership in the union of two domains.
pub proof fn lemma_mask_or(m1: u16, m2: u16, e: u8)
    ensures
        mask_has(m1 | m2, e) <==> (mask_has(m1, e) || mask_has(m2, e)),
        mask_wf(m1) && mask_wf(m2) ==> mask_wf(m1 | m2),
{
    assert(m1 < 512 && m2 < 512 ==> (m1 | m2) < 512) by (bit_vector);
    if 1 <= e && e <= 9 {
        assert((((m1 | m2) >> ((e - 1) as u16)) & 1u16 == 1u16) <==> (((m1 >> ((e - 1) as u16))
            & 1u16 == 1u16) || ((m2 >> ((e - 1) as u16)) & 1u16 == 1u16))) by (bit_vector);
    }
}

/// The total number of candidates over the first `n` cells.
pub open spec fn total_upto(cand: Seq<u16>, n: int) -> nat
    decreases n,
{
    if n <= 0 {
        0
    } else {
        total_upto(cand, n - 1) + mask_count(cand[n - 1])
    }
}

/// The total number of candidates over the whole board.
pub open spec fn total_count(cand: Seq<u16>) -> nat {
    total_upto(cand, 81)
}

/// Cellwise no larger counts give a no larger total.
pub proof fn lemma_total_le(c1: Seq<u16>, c2: Seq<u16>, n: int)
    requires
        forall|c: int| 0 <= c < n ==> mask_count(#[trigger] c1[c]) <= mask_count(c2[c]),
    ensures
        total_upto(c1, n) <= total_upto(c2, n),
    decreases n,
{
    if n > 0 {
        lemma_total_le(c1, c2, n - 1);
    }
}

/// Cellwise no larger counts with one strictly smaller give a strictly
/// smaller total.
pub proof fn lemma_total_lt(c1: Seq<u16>, c2: Seq<u16>, j: int, n: int)
    requires
        forall|c: int| 0 <= c < n ==> mask_count(#[trigger] c1[c]) <= mask_count(c2[c]),
        0 <= j < n,
        mask_count(c1[j]) < mask_count(c2[j]),
    ensures
        total_upto(c1, n) < total_upto(c2, n),
    decreases n,
{
    if j == n - 1 {
        lemma_total_le(c1, c2, n - 1);
    } else {
        lemma_total_lt(c1, c2, j, n - 1);
    }
}

/// Two distinct members of a two-digit domain are all of its members.
pub proof fn lemma_pair_members(m: u16, a: u8, b: u8, e: u8)
    requires
        mask_count(m) == 2,
        mask_has(m, a),
        mask_has(m, b),
        a != b,
        mask_has(m, e),
    ensures
        e == a || e == b,
{
    if e != a && e != b {
        let m2 = m & !(1u16 << ((a - 1) as u16));
        lemma_count_remove(m, a, 9);
        lemma_mask_remove_spec(m, a, b);
        lemma_mask_remove_spec(m, a, e);
        lemma_count_one_singleton(m2, b);
        assert(false);
    }
}

/// Three pairwise distinct members of a three-digit domain are all of its
/// members.
pub proof fn lemma_triple_members(m: u16, a: u8, b: u8, c: u8, e: u8)
    requires
        mask_count(m) == 3,
        mask_has(m, a),
        mask_has(m, b),
        mask_has(m, c),
        a != b,
        a != c,
        b != c,
        mask_has(m, e),
    ensures
        e == a || e == b || e == c,
{
    if e != a && e != b && e != c {
        let m2 = m & !(1u16 << ((a - 1) as u16));
        lemma_count_remove(m, a, 9);
        lemma_mask_remove_spec(m, a, b);
        lemma_mask_remove_spec(m, a, c);
        lemma_mask_remove_spec(m, a, e);
        lemma_pair_members(m2, b, c, e);
        assert(false);
    }
}

/// A domain with no members counts zero.
pub proof fn lemma_count_none(m: u16, k: int)
    requires
        forall|e: u8| !(#[trigger] mask_has(m, e)),
    ensures
        mask_count_upto(m, k) == 0,
    decreases k,
{
    if k > 0 {
        lemma_count_none(m, k - 1);
        assert(!mask_has(m, k as u8));
    }
}

/// A domain holding exactly two distinct digits counts two.
pub proof fn lemma_count_two_exact(m: u16, a: u8, b: u8)
    requires
        mask_has(m, a),
        mask_has(m, b),
        a != b,
        forall|e: u8| #[trigger] mask_has(m, e) ==> e == a || e == b,
    ensures
        mask_count(m) == 2,
{
    lemma_count_pair(m, if a < b { a } else { b }, if a < b { b } else { a });
    if mask_count(m) >= 3 {
        let r = lemma_two_count_two(m, 9);
        let m2 = m & !(1u16 << ((r.1 - 1) as u16));
        lemma_count_remove(m, r.1, 9);
        let r2 = lemma_two_count_two(m2, 9);
        lemma_mask_remove_spec(m, r.1, r2.0);
        lemma_mask_remove_spec(m, r.1, r2.1);
        // two distinct members avoiding one of the only two digits must
        // coincide
        assert(r2.0 == a || r2.0 == b);
        assert(r2.1 == a || r2.1 == b);
        assert(r.1 == a || r.1 == b);
        assert(false);
    }
}

/// Well-formed domains with the same members are the same mask.
pub proof fn lemma_mask_eq(m1: u16, m2: u16)
    requires
        mask_wf(m1),
        mask_wf(m2),
        forall|e: u8| mask_has(m1, e) <==> mask_has(m2, e),
    ensures
        m1 == m2,
{
    assert(((m1 >> 0u16) & 1u16 == 0u16 || (m1 >> 0u16) & 1u16 == 1u16) && ((m1 >> 1u16) & 1u16
        == 0u16 || (m1 >> 1u16) & 1u16 == 1u16) && ((m1 >> 2u16) & 1u16 == 0u16 || (m1 >> 2u16)
        & 1u16 == 1u16) && ((m1 >> 3u16) & 1u16 == 0u16 || (m1 >> 3u16) & 1u16 == 1u16) && ((m1
        >> 4u16) & 1u16 == 0u16 || (m1 >> 4u16) & 1u16 == 1u16) && ((m1 >> 5u16) & 1u16 == 0u16
        || (m1 >> 5u16) & 1u16 == 1u16) && ((m1 >> 6u16) & 1u16 == 0u16 || (m1 >> 6u16) & 1u16
        == 1u16) && ((m1 >> 7u16) & 1u16 == 0u16 || (m1 >> 7u16) & 1u16 == 1u16) && ((m1 >> 8u16)
        & 1u16 == 0u16 || (m1 >> 8u16) & 1u16 == 1u16) && ((m2 >> 0u16) & 1u16 == 0u16 || (m2
        >> 0u16) & 1u16 == 1u16) && ((m2 >> 1u16) & 1u16 == 0u16 || (m2 >> 1u16) & 1u16 == 1u16)
        && ((m2 >> 2u16) & 1u16 == 0u16 || (m2 >> 2u16) & 1u16 == 1u16) && ((m2 >> 3u16) & 1u16
        == 0u16 || (m2 >> 3u16) & 1u16 == 1u16) && ((m2 >> 4u16) & 1u16 == 0u16 || (m2 >> 4u16)
        & 1u16 == 1u16) && ((m2 >> 5u16) & 1u16 == 0u16 || (m2 >> 5u16) & 1u16 == 1u16) && ((m2
        >> 6u16) & 1u16 == 0u16 || (m2 >> 6u16) & 1u16 == 1u16) && ((m2 >> 7u16) & 1u16 == 0u16
        || (m2 >> 7u16) & 1u16 == 1u16) && ((m2 >> 8u16) & 1u16 == 0u16 || (m2 >> 8u16) & 1u16
        == 1u16)) by (bit_vector);
    assert((m1 >> 0u16) & 1u16 == (m2 >> 0u16) & 1u16) by {
        assert(mask_has(m1, 1u8) <==> mask_has(m2, 1u8));
        assert(((1u8 - 1) as u16) == 0u16);
    }
    assert((m1 >> 1u16) & 1u16 == (m2 >> 1u16) & 1u16) by {
        assert(mask_has(m1, 2u8) <==> mask_has(m2, 2u8));
        assert(((2u8 - 1) as u16) == 1u16);
    }
    assert((m1 >> 2u16) & 1u16 == (m2 >> 2u16) & 1u16) by {
        assert(mask_has(m1, 3u8) <==> mask_has(m2, 3u8));
        assert(((3u8 - 1) as u16) == 2u16);
    }
    assert((m1 >> 3u16) & 1u16 == (m2 >> 3u16) & 1u16) by {
        assert(mask_has(m1, 4u8) <==> mask_has(m2, 4u8));
        assert(((4u8 - 1) as u16) == 3u16);
    }
    assert((m1 >> 4u16) & 1u16 == (m2 >> 4u16) & 1u16) by {
        assert(mask_has(m1, 5u8) <==> mask_has(m2, 5u8));
        assert(((5u8 - 1) as u16) == 4u16);
    }
    assert((m1 >> 5u16) & 1u16 == (m2 >> 5u16) & 1u16) by {
        assert(mask_has(m1, 6u8) <==> mask_has(m2, 6u8));
        assert(((6u8 - 1) as u16) == 5u16);
    }
    assert((m1 >> 6u16) & 1u16 == (m2 >> 6u16) & 1u16) by {
        assert(mask_has(m1, 7u8) <==> mask_has(m2, 7u8));
        assert(((7u8 - 1) as u16) == 6u16);
    }
    assert((m1 >> 7u16) & 1u16 == (m2 >> 7u16) & 1u16) by {
        assert(mask_has(m1, 8u8) <==> mask_has(m2, 8u8));
        assert(((8u8 - 1) as u16) == 7u16);
    }
    assert((m1 >> 8u16) & 1u16 == (m2 >> 8u16) & 1u16) by {
        assert(mask_has(m1, 9u8) <==> mask_has(m2, 9u8));
        assert(((9u8 - 1) as u16) == 8u16);
    }
    assert(m1 == m2) by (bit_vector)
        requires
            m1 < 512,
            m2 < 512,
            (m1 >> 0u16) & 1u16 == (m2 >> 0u16) & 1u16,
            (m1 >> 1u16) & 1u16 == (m2 >> 1u16) & 1u16,
            (m1 >> 2u16) & 1u16 == (m2 >> 2u16) & 1u16,
            (m1 >> 3u16) & 1u16 == (m2 >> 3u16) & 1u16,
            (m1 >> 4u16) & 1u16 == (m2 >> 4u16) & 1u16,
            (m1 >> 5u16) & 1u16 == (m2 >> 5u16) & 1u16,
            (m1 >> 6u16) & 1u16 == (m2 >> 6u16) & 1u16,
            (m1 >> 7u16) & 1u16 == (m2 >> 7u16) & 1u16,
            (m1 >> 8u16) & 1u16 == (m2 >> 8u16) & 1u16,
    ;
}

/// A domain holding exactly three distinct digits counts three.
pub proof fn lemma_count_three_exact(m: u16, a: u8, b: u8, c: u8)
    requires
        mask_has(m, a),
        mask_has(m, b),
        mask_has(m, c),
        a != b,
        a != c,
        b != c,
        forall|e: u8| #[trigger] mask_has(m, e) ==> e == a || e == b || e == c,
    ensures
        mask_count(m) == 3,
{
    let m2 = m & !(1u16 << ((c - 1) as u16));
    lemma_count_remove(m, c, 9);
    lemma_mask_remove_spec(m, c, a);
    lemma_mask_remove_spec(m, c, b);
    assert forall|e: u8| #[trigger] mask_has(m2, e) implies e == a || e == b by {
        lemma_mask_remove_spec(m, c, e);
    }
    lemma_count_two_exact(m2, a, b);
}

} // verus!
