//! The deduction rule engine: naked and hidden singles and pairs, locked
//! candidates, X-Wing and Swordfish.
//!
//! Every rule narrows candidate domains through `eliminate` / `assign` and
//! reports whether it made progress; a contradiction found mid-rule is
//! reported up rather than papered over. Progress always means the total
//! candidate count strictly fell, which bounds the driver loop.

use vstd::prelude::*;

use crate::board::Sudoku;
use crate::domain::{
    mask_has, mask_wf, mask_count, is_singleton, total_count, mask_has_exec, mask_size,
    mask_first, mask_single, lemma_mask_or, lemma_mask_empty, lemma_count_pos_nonzero,
    lemma_count_one_singleton, lemma_singleton_count, lemma_pair_members, lemma_triple_members,
};
use crate::propagate::{
    cands_shrink, singleton_fixpoint, unpropagated, solution_in, lemma_shrink_trans,
    lemma_shrink_total_le, lemma_shrink_total_lt, lemma_shrink_counts, lemma_solution_place,
};
use crate::search::{all_singleton, domains_settled, CSPSolver};
use crate::topology::{
    unit_cells, unit_member, unit_cell_at, is_peer, cell_row, cell_col, cell_box, row_of, col_of,
    box_of, lemma_unit_peers, lemma_line_cell_coords,
};

verus! {

/// What one application of a rule did.
#[derive(Clone, Copy, Debug, PartialEq, Eq, Structural)]
pub enum RuleOutcome {
    /// The rule narrowed at least one domain.
    Progress,
    /// The rule's pattern matched nowhere; nothing changed.
    NoProgress,
    /// A narrowing emptied some domain: this branch is dead.
    Contradiction,
}

/// The running state of a rule pass relative to the state `b0` it started
/// from: the board grid untouched, domains only narrowed, progress exactly
/// when the candidate total strictly fell.
pub open spec fn rule_inv(b: Sudoku, b0: Sudoku, prog: bool) -> bool {
    &&& b.wf()
    &&& b.domains_ok()
    &&& b.board@ == b0.board@
    &&& cands_shrink(b.candidates@, b0.candidates@)
    &&& (prog ==> total_count(b.candidates@) < total_count(b0.candidates@))
    &&& (!prog ==> b.candidates@ == b0.candidates@)
    &&& (singleton_fixpoint(b0.candidates@) ==> singleton_fixpoint(b.candidates@))
}

/// Every complete valid solution drawn from the domains the pass started
/// from can still be drawn from the current ones.
pub open spec fn sols_kept(b: Sudoku, b0: Sudoku) -> bool {
    forall|sol: Seq<u8>| #[trigger] solution_in(sol, b0.candidates@) ==> solution_in(
        sol,
        b.candidates@,
    )
}

/// Digit `d` still has exactly one place in unit `u`: position `k`.
pub open spec fn lone_place(cand: Seq<u16>, u: int, d: u8, k: int) -> bool {
    &&& mask_has(cand[unit_cell_at(u, k)], d)
    &&& forall|k2: int| 0 <= k2 < 9 && k2 != k ==> !(#[trigger] mask_has(
        cand[unit_cell_at(u, k2)],
        d,
    ))
}

/// Every digit confined to one cell of some unit is settled there.
pub open spec fn hidden_singles_done(cand: Seq<u16>) -> bool {
    forall|u: int, d: u8, k: int|
        0 <= u < 27 && 1 <= d <= 9 && 0 <= k < 9 && #[trigger] lone_place(cand, u, d, k)
            ==> is_singleton(cand[unit_cell_at(u, k)], d)
}

spec fn hs_done_units(cand: Seq<u16>, ub: int) -> bool {
    forall|u: int, d: u8, k: int|
        0 <= u < ub && 1 <= d <= 9 && 0 <= k < 9 && #[trigger] lone_place(cand, u, d, k)
            ==> is_singleton(cand[unit_cell_at(u, k)], d)
}

spec fn hs_done_digits(cand: Seq<u16>, u: int, db: u8) -> bool {
    forall|d: u8, k: int|
        1 <= d < db && 0 <= k < 9 && #[trigger] lone_place(cand, u, d, k) ==> is_singleton(
            cand[unit_cell_at(u, k)],
            d,
        )
}

/// Cells `i` and `j` of unit `u` share one two-digit domain.
pub open spec fn np_pattern(cand: Seq<u16>, u: int, i: int, j: int) -> bool {
    &&& mask_count(cand[unit_cell_at(u, i)]) == 2
    &&& cand[unit_cell_at(u, j)] == cand[unit_cell_at(u, i)]
}

/// The pair's two digits are gone from every other cell of the unit.
pub open spec fn np_pair_elim(cand: Seq<u16>, u: int, i: int, j: int) -> bool {
    forall|t: int, d: u8|
        #![trigger mask_has(cand[unit_cell_at(u, i)], d), cand[unit_cell_at(u, t)]]
        0 <= t < 9 && t != i && t != j && 1 <= d <= 9 && mask_has(cand[unit_cell_at(u, i)], d)
            ==> !mask_has(cand[unit_cell_at(u, t)], d)
}

/// Every naked pair has had its digits crossed off the rest of its unit.
pub open spec fn naked_pairs_done(cand: Seq<u16>) -> bool {
    forall|u: int, i: int, j: int|
        0 <= u < 27 && 0 <= i < 9 && 0 <= j < 9 && i != j && #[trigger] np_pattern(cand, u, i, j)
            ==> np_pair_elim(cand, u, i, j)
}

spec fn np_done_units(cand: Seq<u16>, ub: int) -> bool {
    forall|u: int, i: int, j: int|
        0 <= u < ub && 0 <= i < 9 && 0 <= j < 9 && i != j && #[trigger] np_pattern(cand, u, i, j)
            ==> np_pair_elim(cand, u, i, j)
}

spec fn np_done_mins(cand: Seq<u16>, u: int, ib: int) -> bool {
    forall|i: int, j: int|
        0 <= i < 9 && 0 <= j < 9 && i != j && (if i < j {
            i
        } else {
            j
        }) < ib && #[trigger] np_pattern(cand, u, i, j) ==> np_pair_elim(cand, u, i, j)
}

/// Digits `d1` and `d2` of unit `u` are confined to exactly the cells at
/// positions `ka` and `kb`, and both cells still hold both digits.
pub open spec fn hp_pattern(cand: Seq<u16>, u: int, d1: u8, d2: u8, ka: int, kb: int) -> bool {
    &&& ka != kb
    &&& mask_has(cand[unit_cell_at(u, ka)], d1)
    &&& mask_has(cand[unit_cell_at(u, ka)], d2)
    &&& mask_has(cand[unit_cell_at(u, kb)], d1)
    &&& mask_has(cand[unit_cell_at(u, kb)], d2)
    &&& forall|k2: int|
        0 <= k2 < 9 && k2 != ka && k2 != kb ==> !(#[trigger] mask_has(
            cand[unit_cell_at(u, k2)],
            d1,
        )) && !mask_has(cand[unit_cell_at(u, k2)], d2)
}

/// The two pair cells hold nothing besides the two digits.
pub open spec fn hp_cells_clean(cand: Seq<u16>, u: int, d1: u8, d2: u8, ka: int, kb: int) -> bool {
    forall|e: u8|
        1 <= e <= 9 && e != d1 && e != d2 ==> !(#[trigger] mask_has(
            cand[unit_cell_at(u, ka)],
            e,
        )) && !mask_has(cand[unit_cell_at(u, kb)], e)
}

/// Every hidden pair has had the other digits crossed off its two cells.
pub open spec fn hidden_pairs_done(cand: Seq<u16>) -> bool {
    forall|u: int, d1: u8, d2: u8, ka: int, kb: int|
        0 <= u < 27 && 1 <= d1 <= 9 && 1 <= d2 <= 9 && d1 < d2 && 0 <= ka < 9 && 0 <= kb < 9
            && #[trigger] hp_pattern(cand, u, d1, d2, ka, kb) ==> hp_cells_clean(
            cand,
            u,
            d1,
            d2,
            ka,
            kb,
        )
}

spec fn hp_done_units(cand: Seq<u16>, ub: int) -> bool {
    forall|u: int, d1: u8, d2: u8, ka: int, kb: int|
        0 <= u < ub && 1 <= d1 <= 9 && 1 <= d2 <= 9 && d1 < d2 && 0 <= ka < 9 && 0 <= kb < 9
            && #[trigger] hp_pattern(cand, u, d1, d2, ka, kb) ==> hp_cells_clean(
            cand,
            u,
            d1,
            d2,
            ka,
            kb,
        )
}

spec fn hp_done_d1(cand: Seq<u16>, u: int, d1b: u8) -> bool {
    forall|d1: u8, d2: u8, ka: int, kb: int|
        1 <= d1 < d1b && 1 <= d2 <= 9 && d1 < d2 && 0 <= ka < 9 && 0 <= kb < 9 && #[trigger]
            hp_pattern(cand, u, d1, d2, ka, kb) ==> hp_cells_clean(cand, u, d1, d2, ka, kb)
}

spec fn hp_done_d2(cand: Seq<u16>, u: int, d1: u8, d2b: u8) -> bool {
    forall|d2: u8, ka: int, kb: int|
        d1 < d2 < d2b && 0 <= ka < 9 && 0 <= kb < 9 && #[trigger] hp_pattern(
            cand,
            u,
            d1,
            d2,
            ka,
            kb,
        ) ==> hp_cells_clean(cand, u, d1, d2, ka, kb)
}

/// Box `b` still has a place for digit `d`, and every such place lies on
/// row `r`.
pub open spec fn lc1_row_pattern(cand: Seq<u16>, b: int, d: u8, r: int) -> bool {
    &&& exists|k: int| 0 <= k < 9 && #[trigger] mask_has(cand[unit_cell_at(18 + b, k)], d)
    &&& forall|k: int|
        0 <= k < 9 && #[trigger] mask_has(cand[unit_cell_at(18 + b, k)], d) ==> cell_row(
            unit_cell_at(18 + b, k),
        ) == r
}

/// As `lc1_row_pattern`, with the places confined to column `c`.
pub open spec fn lc1_col_pattern(cand: Seq<u16>, b: int, d: u8, c: int) -> bool {
    &&& exists|k: int| 0 <= k < 9 && #[trigger] mask_has(cand[unit_cell_at(18 + b, k)], d)
    &&& forall|k: int|
        0 <= k < 9 && #[trigger] mask_has(cand[unit_cell_at(18 + b, k)], d) ==> cell_col(
            unit_cell_at(18 + b, k),
        ) == c
}

/// Box `b` keeps places for `d` on two different rows.
pub open spec fn lc1_two_rows(cand: Seq<u16>, b: int, d: u8) -> bool {
    exists|k1: int, k2: int|
        0 <= k1 < 9 && 0 <= k2 < 9 && #[trigger] mask_has(cand[unit_cell_at(18 + b, k1)], d)
            && #[trigger] mask_has(cand[unit_cell_at(18 + b, k2)], d) && cell_row(
            unit_cell_at(18 + b, k1),
        ) != cell_row(unit_cell_at(18 + b, k2))
}

/// The digit is gone from row `r` outside box `b`.
pub open spec fn lc1_row_clean(cand: Seq<u16>, b: int, d: u8, r: int) -> bool {
    forall|x: int|
        0 <= x < 81 && cell_row(x) == r && cell_box(x) != b ==> !(#[trigger] mask_has(cand[x], d))
}

/// The digit is gone from column `c` outside box `b`.
pub open spec fn lc1_col_clean(cand: Seq<u16>, b: int, d: u8, c: int) -> bool {
    forall|x: int|
        0 <= x < 81 && cell_col(x) == c && cell_box(x) != b ==> !(#[trigger] mask_has(cand[x], d))
}

/// Every pointing pattern has been applied: a digit confined within a box
/// to one row is gone from the rest of that row, and one confined to one
/// column (of a box spanning two rows or more) from the rest of that
/// column.
pub open spec fn locked_type1_done(cand: Seq<u16>) -> bool {
    &&& forall|b: int, d: u8, r: int|
        0 <= b < 9 && 1 <= d <= 9 && 0 <= r < 9 && #[trigger] lc1_row_pattern(cand, b, d, r)
            ==> lc1_row_clean(cand, b, d, r)
    &&& forall|b: int, d: u8, c: int|
        0 <= b < 9 && 1 <= d <= 9 && 0 <= c < 9 && #[trigger] lc1_col_pattern(cand, b, d, c)
            && lc1_two_rows(cand, b, d) ==> lc1_col_clean(cand, b, d, c)
}

/// The pointing conclusions for one box and one digit.
pub open spec fn lc1_done_one(cand: Seq<u16>, b: int, d: u8) -> bool {
    &&& forall|r: int|
        0 <= r < 9 && #[trigger] lc1_row_pattern(cand, b, d, r) ==> lc1_row_clean(cand, b, d, r)
    &&& forall|c: int|
        0 <= c < 9 && #[trigger] lc1_col_pattern(cand, b, d, c) && lc1_two_rows(cand, b, d)
            ==> lc1_col_clean(cand, b, d, c)
}

spec fn lc1_done_boxes(cand: Seq<u16>, bb: int) -> bool {
    forall|b: int, d: u8|
        0 <= b < bb && 1 <= d <= 9 ==> #[trigger] lc1_done_one(cand, b, d)
}

spec fn lc1_done_digits(cand: Seq<u16>, b: int, db: u8) -> bool {
    forall|d: u8| 1 <= d < db ==> #[trigger] lc1_done_one(cand, b, d)
}

/// Line `li` still has a place for digit `d`, and every such place lies
/// in box `b`.
pub open spec fn lc2_pattern(cand: Seq<u16>, li: int, d: u8, b: int) -> bool {
    &&& exists|k: int| 0 <= k < 9 && #[trigger] mask_has(cand[unit_cell_at(li, k)], d)
    &&& forall|k: int|
        0 <= k < 9 && #[trigger] mask_has(cand[unit_cell_at(li, k)], d) ==> cell_box(
            unit_cell_at(li, k),
        ) == b
}

/// The digit is gone from box `b` off the line `li`.
pub open spec fn lc2_clean(cand: Seq<u16>, li: int, d: u8, b: int) -> bool {
    forall|x: int|
        0 <= x < 81 && cell_box(x) == b && !unit_member(li, x) ==> !(#[trigger] mask_has(
            cand[x],
            d,
        ))
}

/// Every claiming pattern has been applied: a digit confined within a
/// line to one box is gone from the rest of that box.
pub open spec fn locked_type2_done(cand: Seq<u16>) -> bool {
    forall|li: int, d: u8, b: int|
        0 <= li < 18 && 1 <= d <= 9 && 0 <= b < 9 && #[trigger] lc2_pattern(cand, li, d, b)
            ==> lc2_clean(cand, li, d, b)
}

/// The claiming conclusions for one line and one digit.
pub open spec fn lc2_done_one(cand: Seq<u16>, li: int, d: u8) -> bool {
    forall|b: int|
        0 <= b < 9 && #[trigger] lc2_pattern(cand, li, d, b) ==> lc2_clean(cand, li, d, b)
}

spec fn lc2_done_lines(cand: Seq<u16>, lb: int) -> bool {
    forall|li: int, d: u8| 0 <= li < lb && 1 <= d <= 9 ==> #[trigger] lc2_done_one(cand, li, d)
}

spec fn lc2_done_digits(cand: Seq<u16>, li: int, db: u8) -> bool {
    forall|d: u8| 1 <= d < db ==> #[trigger] lc2_done_one(cand, li, d)
}

/// Lines `u1` and `u2` of one kind (`base` 0 for rows, 9 for columns)
/// hold digit `d` at exactly the cross-positions `p` and `q`.
pub open spec fn xw_pattern(
    cand: Seq<u16>,
    base: int,
    d: u8,
    u1: int,
    u2: int,
    p: int,
    q: int,
) -> bool {
    &&& 0 <= p < q < 9
    &&& forall|k: int|
        0 <= k < 9 ==> (#[trigger] mask_has(cand[unit_cell_at(base + u1, k)], d) <==> (k == p
            || k == q))
    &&& forall|k: int|
        0 <= k < 9 ==> (#[trigger] mask_has(cand[unit_cell_at(base + u2, k)], d) <==> (k == p
            || k == q))
}

/// The digit is gone from the two cross-positions of every other parallel
/// line.
pub open spec fn xw_clean(
    cand: Seq<u16>,
    base: int,
    d: u8,
    u1: int,
    u2: int,
    p: int,
    q: int,
) -> bool {
    forall|u3: int, k: int|
        0 <= u3 < 9 && u3 != u1 && u3 != u2 && 0 <= k < 9 && (k == p || k == q) ==> !(#[trigger]
        mask_has(cand[unit_cell_at(base + u3, k)], d))
}

/// Every X-Wing has been applied.
pub open spec fn xwing_done(cand: Seq<u16>) -> bool {
    forall|base: int, d: u8, u1: int, u2: int, p: int, q: int|
        (base == 0 || base == 9) && 1 <= d <= 9 && 0 <= u1 < u2 < 9 && #[trigger] xw_pattern(
            cand,
            base,
            d,
            u1,
            u2,
            p,
            q,
        ) ==> xw_clean(cand, base, d, u1, u2, p, q)
}

/// The X-Wing conclusions for one base, digit and line pair.
pub open spec fn xw_done_one(cand: Seq<u16>, base: int, d: u8, u1: int, u2: int) -> bool {
    forall|p: int, q: int|
        #[trigger] xw_pattern(cand, base, d, u1, u2, p, q) ==> xw_clean(cand, base, d, u1, u2, p, q)
}

spec fn xw_done_bases(cand: Seq<u16>, bi: int) -> bool {
    forall|b2: int, d: u8, u1: int, u2: int|
        0 <= b2 < bi && 1 <= d <= 9 && 0 <= u1 < u2 < 9 ==> #[trigger] xw_done_one(
            cand,
            9 * b2,
            d,
            u1,
            u2,
        )
}

spec fn xw_done_digits(cand: Seq<u16>, base: int, db: u8) -> bool {
    forall|d: u8, u1: int, u2: int|
        1 <= d < db && 0 <= u1 < u2 < 9 ==> #[trigger] xw_done_one(cand, base, d, u1, u2)
}

spec fn xw_done_u1(cand: Seq<u16>, base: int, d: u8, u1b: int) -> bool {
    forall|u1: int, u2: int|
        0 <= u1 < u1b && u1 < u2 < 9 ==> #[trigger] xw_done_one(cand, base, d, u1, u2)
}

spec fn xw_done_u2(cand: Seq<u16>, base: int, d: u8, u1: int, u2b: int) -> bool {
    forall|u2: int| u1 < u2 < u2b ==> #[trigger] xw_done_one(cand, base, d, u1, u2)
}

/// Lines `u1`, `u2`, `u3` of one kind each still have a place for digit
/// `d`, and all their places fall on the cross-positions `p`, `q`, `r`.
pub open spec fn sf_pattern(
    cand: Seq<u16>,
    base: int,
    d: u8,
    u1: int,
    u2: int,
    u3: int,
    p: int,
    q: int,
    r: int,
) -> bool {
    &&& 0 <= p < q < r < 9
    &&& (exists|k: int| 0 <= k < 9 && #[trigger] mask_has(cand[unit_cell_at(base + u1, k)], d))
    &&& (exists|k: int| 0 <= k < 9 && #[trigger] mask_has(cand[unit_cell_at(base + u2, k)], d))
    &&& (exists|k: int| 0 <= k < 9 && #[trigger] mask_has(cand[unit_cell_at(base + u3, k)], d))
    &&& forall|k: int|
        0 <= k < 9 ==> ((mask_has(#[trigger] cand[unit_cell_at(base + u1, k)], d) || mask_has(
            cand[unit_cell_at(base + u2, k)],
            d,
        ) || mask_has(cand[unit_cell_at(base + u3, k)], d)) <==> (k == p || k == q || k == r))
}

/// The digit is gone from the three cross-positions of every other
/// parallel line.
pub open spec fn sf_clean(
    cand: Seq<u16>,
    base: int,
    d: u8,
    u1: int,
    u2: int,
    u3: int,
    p: int,
    q: int,
    r: int,
) -> bool {
    forall|u4: int, k: int|
        0 <= u4 < 9 && u4 != u1 && u4 != u2 && u4 != u3 && 0 <= k < 9 && (k == p || k == q || k
            == r) ==> !(#[trigger] mask_has(cand[unit_cell_at(base + u4, k)], d))
}

/// Every Swordfish has been applied.
pub open spec fn swordfish_done(cand: Seq<u16>) -> bool {
    forall|base: int, d: u8, u1: int, u2: int, u3: int, p: int, q: int, r: int|
        (base == 0 || base == 9) && 1 <= d <= 9 && 0 <= u1 < u2 < u3 < 9 && #[trigger] sf_pattern(
            cand,
            base,
            d,
            u1,
            u2,
            u3,
            p,
            q,
            r,
        ) ==> sf_clean(cand, base, d, u1, u2, u3, p, q, r)
}

/// The Swordfish conclusions for one base, digit and line triple.
pub open spec fn sf_done_one(cand: Seq<u16>, base: int, d: u8, u1: int, u2: int, u3: int) -> bool {
    forall|p: int, q: int, r: int|
        #[trigger] sf_pattern(cand, base, d, u1, u2, u3, p, q, r) ==> sf_clean(
            cand,
            base,
            d,
            u1,
            u2,
            u3,
            p,
            q,
            r,
        )
}

spec fn sf_done_bases(cand: Seq<u16>, bi: int) -> bool {
    forall|b2: int, d: u8, u1: int, u2: int, u3: int|
        0 <= b2 < bi && 1 <= d <= 9 && 0 <= u1 < u2 < u3 < 9 ==> #[trigger] sf_done_one(
            cand,
            9 * b2,
            d,
            u1,
            u2,
            u3,
        )
}

spec fn sf_done_digits(cand: Seq<u16>, base: int, db: u8) -> bool {
    forall|d: u8, u1: int, u2: int, u3: int|
        1 <= d < db && 0 <= u1 < u2 < u3 < 9 ==> #[trigger] sf_done_one(cand, base, d, u1, u2, u3)
}

spec fn sf_done_u1(cand: Seq<u16>, base: int, d: u8, u1b: int) -> bool {
    forall|u1: int, u2: int, u3: int|
        0 <= u1 < u1b && u1 < u2 < u3 < 9 ==> #[trigger] sf_done_one(cand, base, d, u1, u2, u3)
}

spec fn sf_done_u2(cand: Seq<u16>, base: int, d: u8, u1: int, u2b: int) -> bool {
    forall|u2: int, u3: int|
        u1 < u2 < u2b && u2 < u3 < 9 ==> #[trigger] sf_done_one(cand, base, d, u1, u2, u3)
}

spec fn sf_done_u3(cand: Seq<u16>, base: int, d: u8, u1: int, u2: int, u3b: int) -> bool {
    forall|u3: int| u2 < u3 < u3b ==> #[trigger] sf_done_one(cand, base, d, u1, u2, u3)
}

/// A rule is sound: it loses no solution of the domains it started from,
/// and it reports a contradiction only when those domains admitted no
/// solution at all.
pub open spec fn rule_keeps(b: Sudoku, b0: Sudoku, r: RuleOutcome) -> bool {
    &&& sols_kept(b, b0)
    &&& (r is Contradiction ==> (forall|sol: Seq<u8>| !solution_in(sol, b0.candidates@)))
}

proof fn lemma_keep_chain(b0: Sudoku, pre: Sudoku, post: Sudoku)
    requires
        sols_kept(pre, b0),
        forall|sol: Seq<u8>| #[trigger] solution_in(sol, pre.candidates@) ==> solution_in(
            sol,
            post.candidates@,
        ),
    ensures
        sols_kept(post, b0),
{
}

proof fn lemma_keep_none(b0: Sudoku, pre: Sudoku)
    requires
        sols_kept(pre, b0),
        forall|sol: Seq<u8>| !solution_in(sol, pre.candidates@),
    ensures
        forall|sol: Seq<u8>| !solution_in(sol, b0.candidates@),
{
    assert forall|sol: Seq<u8>| !solution_in(sol, b0.candidates@) by {
        if solution_in(sol, b0.candidates@) {
            assert(solution_in(sol, pre.candidates@));
        }
    }
}

/// What a finished rule guarantees relative to the state it started from.
pub open spec fn rule_post(b: Sudoku, b0: Sudoku, r: RuleOutcome) -> bool {
    &&& b.wf()
    &&& b.board@ == b0.board@
    &&& cands_shrink(b.candidates@, b0.candidates@)
    &&& (!(r is Contradiction) ==> b.domains_ok())
    &&& (r is NoProgress ==> b.candidates@ == b0.candidates@)
    &&& (r is Progress ==> total_count(b.candidates@) < total_count(b0.candidates@))
    &&& (!(r is Contradiction) && singleton_fixpoint(b0.candidates@) ==> singleton_fixpoint(
        b.candidates@,
    ))
}

/// Removes `d` from cell `c` if present, propagating, and records that
/// progress was made.
fn eliminate_tracked(
    board: &mut Sudoku,
    Ghost(b0): Ghost<Sudoku>,
    c: usize,
    d: u8,
    prog: &mut bool,
) -> (ok: bool)
    requires
        rule_inv(*old(board), b0, *old(prog)),
        c < 81,
        1 <= d <= 9,
    ensures
        ok ==> rule_inv(*final(board), b0, *final(prog)),
        final(board).wf(),
        final(board).board@ == b0.board@,
        cands_shrink(final(board).candidates@, b0.candidates@),
        cands_shrink(final(board).candidates@, old(board).candidates@),
        *old(prog) ==> *final(prog),
        !*final(prog) ==> !mask_has(old(board).candidates@[c as int], d),
        // when no solution of the starting domains carries the digit here,
        // the removal is sound, and failure shows those domains empty
        (forall|sol: Seq<u8>| #[trigger] solution_in(sol, old(board).candidates@) ==> sol[c as int]
            != d) ==> ((ok ==> (forall|sol: Seq<u8>| #[trigger] solution_in(
            sol,
            old(board).candidates@,
        ) ==> solution_in(sol, final(board).candidates@))) && (!ok ==> (forall|sol: Seq<u8>|
            !solution_in(sol, old(board).candidates@)))),
{
    if mask_has_exec(board.candidates[c], d) {
        let ghost pre = board.candidates@;
        let r = board.eliminate(c, d);
        *prog = true;
        proof {
            lemma_shrink_trans(board.candidates@, pre, b0.candidates@);
            if r {
                lemma_shrink_total_lt(board.candidates@, pre, c as int, d);
                lemma_shrink_total_le(pre, b0.candidates@);
            }
        }
        r
    } else {
        true
    }
}

/// Assigns `d` to cell `c` if the cell is not yet settled, propagating,
/// and records that progress was made.
fn assign_tracked(
    board: &mut Sudoku,
    Ghost(b0): Ghost<Sudoku>,
    c: usize,
    d: u8,
    prog: &mut bool,
) -> (ok: bool)
    requires
        rule_inv(*old(board), b0, *old(prog)),
        c < 81,
        1 <= d <= 9,
    ensures
        ok ==> rule_inv(*final(board), b0, *final(prog)),
        final(board).wf(),
        final(board).board@ == b0.board@,
        cands_shrink(final(board).candidates@, b0.candidates@),
        cands_shrink(final(board).candidates@, old(board).candidates@),
        *old(prog) ==> *final(prog),
        !*final(prog) ==> mask_count(old(board).candidates@[c as int]) <= 1,
        // when every solution of the starting domains places the digit
        // here, the assignment is sound, and failure shows them empty
        (forall|sol: Seq<u8>| #[trigger] solution_in(sol, old(board).candidates@) ==> sol[c as int]
            == d) ==> ((ok ==> (forall|sol: Seq<u8>| #[trigger] solution_in(
            sol,
            old(board).candidates@,
        ) ==> solution_in(sol, final(board).candidates@))) && (!ok ==> (forall|sol: Seq<u8>|
            !solution_in(sol, old(board).candidates@)))),
{
    if mask_size(board.candidates[c]) > 1 {
        let ghost pre = board.candidates@;
        let r = board.assign(c, d);
        *prog = true;
        proof {
            lemma_shrink_trans(board.candidates@, pre, b0.candidates@);
            if r {
                lemma_singleton_count(board.candidates@[c as int], d);
                lemma_shrink_counts(board.candidates@, pre);
                crate::domain::lemma_total_lt(board.candidates@, pre, c as int, 81);
                lemma_shrink_total_le(pre, b0.candidates@);
            }
        }
        r
    } else {
        true
    }
}

/// The positions (1..=9) within a unit whose cells still hold digit `d`,
/// as a mask.
#[verifier::loop_isolation(false)]
fn pos_mask(board: &Sudoku, uc: &Vec<usize>, d: u8) -> (m: u16)
    requires
        board.wf(),
        uc@.len() == 9,
        forall|k: int| 0 <= k < 9 ==> #[trigger] uc@[k] < 81,
        1 <= d <= 9,
    ensures
        mask_wf(m),
        forall|e: u8| #[trigger] mask_has(m, e) <==> (1 <= e <= 9 && mask_has(
            board.candidates@[uc@[e - 1] as int],
            d,
        )),
{
    let mut m: u16 = 0;
    proof {
        assert forall|e: u8| !(#[trigger] mask_has(0u16, e)) by {
            lemma_mask_empty(e);
        }
    }
    for k in 0..9
        invariant
            board.wf(),
            mask_wf(m),
            forall|e: u8| #[trigger] mask_has(m, e) <==> (1 <= e <= k && mask_has(
                board.candidates@[uc@[e - 1] as int],
                d,
            )),
    {
        if mask_has_exec(board.candidates[uc[k]], d) {
            let bit = mask_single(k as u8 + 1);
            proof {
                assert forall|e: u8| #[trigger] mask_has(m | bit, e) <==> (mask_has(m, e)
                    || mask_has(bit, e)) by {
                    lemma_mask_or(m, bit, e);
                }
                lemma_mask_or(m, bit, 1u8);
            }
            m = m | bit;
        }
    }
    m
}

/// The rule-based strategy: applies deduction rules to a fixpoint and
/// falls back to constraint-programming search when they stall.
pub struct RuleBasedSolver;

impl RuleBasedSolver {
    pub fn new() -> (s: RuleBasedSolver) {
        RuleBasedSolver
    }

    /// Whether every cell is settled on exactly one candidate.
    pub fn solved(&self, board: &Sudoku) -> (r: bool)
        requires
            board.wf(),
        ensures
            r == all_singleton(board.candidates@),
    {
        domains_settled(board)
    }

    /// Naked single: a cell settled on one digit has that digit crossed
    /// off every peer.
    #[verifier::loop_isolation(false)]
    pub fn naked_single(&self, board: &mut Sudoku) -> (r: RuleOutcome)
        requires
            old(board).wf(),
            old(board).domains_ok(),
        ensures
            rule_post(*final(board), *old(board), r),
            rule_keeps(*final(board), *old(board), r),
            // no progress means the pattern matched nowhere: every settled
            // cell already had its digit crossed off all of its peers
            r is NoProgress ==> singleton_fixpoint(final(board).candidates@),
    {
        let ghost b0 = *old(board);
        let mut prog = false;
        for c in 0..81
            invariant
                rule_inv(*board, b0, prog),
                sols_kept(*board, b0),
                !prog ==> (forall|c2: int, p: int, d2: u8| c2 < c ==> !(#[trigger] unpropagated(
                    board.candidates@,
                    c2,
                    p,
                    d2,
                ))),
        {
            let m = board.candidates[c];
            if mask_size(m) == 1 {
                proof {
                    lemma_count_pos_nonzero(m);
                }
                let d = mask_first(m);
                proof {
                    lemma_count_one_singleton(m, d);
                }
                let ps = crate::topology::peers_of(c);
                let ghost prog0 = prog;
                for k in 0..20
                    invariant
                        rule_inv(*board, b0, prog),
                        sols_kept(*board, b0),
                        is_singleton(board.candidates@[c as int], d),
                        c < 81,
                        1 <= d <= 9,
                        ps@.len() == 20,
                        forall|k2: int| 0 <= k2 < 20 ==> #[trigger] ps@[k2] < 81,
                        forall|k2: int| 0 <= k2 < 20 ==> is_peer(
                            c as int,
                            #[trigger] ps@[k2] as int,
                        ),
                        prog0 ==> prog,
                        !prog ==> (forall|k2: int| 0 <= k2 < k ==> !mask_has(
                            #[trigger] board.candidates@[ps@[k2] as int],
                            d,
                        )),
                {
                    let ghost pre_b = *board;
                    proof {
                        // a solution takes the settled digit here, so no
                        // peer can carry it
                        assert forall|sol: Seq<u8>| #[trigger] solution_in(
                            sol,
                            board.candidates@,
                        ) implies sol[ps@[k as int] as int] != d by {
                            assert(mask_has(board.candidates@[c as int], sol[c as int]));
                            assert(sol[c as int] == d);
                            assert(is_peer(c as int, ps@[k as int] as int));
                        }
                    }
                    if !eliminate_tracked(board, Ghost(b0), ps[k], d, &mut prog) {
                        proof {
                            lemma_keep_none(b0, pre_b);
                        }
                        return RuleOutcome::Contradiction;
                    }
                    proof {
                        lemma_keep_chain(b0, pre_b, *board);
                        // the settled cell stays settled through cascades
                        assert forall|e: u8| mask_has(
                            board.candidates@[c as int],
                            e,
                        ) implies e == d by {
                            assert(mask_has(pre_b.candidates@[c as int], e));
                        }
                        let e0 = crate::domain::lemma_mask_nonzero_has(
                            board.candidates@[c as int],
                        );
                    }
                }
                proof {
                    if !prog {
                        assert(board.candidates@ == b0.candidates@);
                        assert forall|c2: int, p: int, d2: u8| c2 < c + 1 implies !(#[trigger]
                            unpropagated(board.candidates@, c2, p, d2)) by {
                            if c2 == c as int && unpropagated(board.candidates@, c2, p, d2) {
                                assert(is_singleton(board.candidates@[c as int], d));
                                assert(d2 == d);
                                assert(is_peer(c as int, p));
                                let k2 = choose|k2: int| 0 <= k2 < 20 && ps@[k2] == p;
                                assert(!mask_has(board.candidates@[ps@[k2] as int], d));
                                assert(false);
                            } else if c2 < c as int && unpropagated(
                                board.candidates@,
                                c2,
                                p,
                                d2,
                            ) {
                                assert(unpropagated(b0.candidates@, c2, p, d2));
                                assert(false);
                            }
                        }
                    }
                }
            } else {
                proof {
                    if !prog {
                        assert(board.candidates@ == b0.candidates@);
                        assert forall|c2: int, p: int, d2: u8| c2 < c + 1 implies !(#[trigger]
                            unpropagated(board.candidates@, c2, p, d2)) by {
                            if c2 == c as int && unpropagated(board.candidates@, c2, p, d2) {
                                lemma_singleton_count(board.candidates@[c as int], d2);
                                assert(false);
                            } else if c2 < c as int && unpropagated(
                                board.candidates@,
                                c2,
                                p,
                                d2,
                            ) {
                                assert(unpropagated(b0.candidates@, c2, p, d2));
                                assert(false);
                            }
                        }
                    }
                }
            }
        }
        if prog {
            RuleOutcome::Progress
        } else {
            RuleOutcome::NoProgress
        }
    }

    /// Hidden single: a digit possible in only one cell of a unit is
    /// assigned there.
    #[verifier::loop_isolation(false)]
    pub fn hidden_single(&self, board: &mut Sudoku) -> (r: RuleOutcome)
        requires
            old(board).wf(),
            old(board).domains_ok(),
        ensures
            rule_post(*final(board), *old(board), r),
            rule_keeps(*final(board), *old(board), r),
            // no progress means the pattern matched nowhere: every digit
            // with a single remaining place is already settled there
            r is NoProgress ==> hidden_singles_done(final(board).candidates@),
    {
        let ghost b0 = *old(board);
        let mut prog = false;
        for u in 0..27
            invariant
                rule_inv(*board, b0, prog),
                sols_kept(*board, b0),
                !prog ==> hs_done_units(b0.candidates@, u as int),
        {
            let uc = unit_cells(u);
            proof {
                assert forall|k2: int| 0 <= k2 < 9 implies #[trigger] uc@[k2] < 81 by {
                    assert(unit_member(u as int, uc@[k2] as int));
                }
            }
            let ghost prog_u = prog;
            for d in 1..10u8
                invariant
                    rule_inv(*board, b0, prog),
                    sols_kept(*board, b0),
                    u < 27,
                    uc@.len() == 9,
                    forall|k2: int| 0 <= k2 < 9 ==> #[trigger] uc@[k2] < 81,
                    prog_u ==> prog,
                    !prog ==> hs_done_units(b0.candidates@, u as int),
                    !prog ==> hs_done_digits(b0.candidates@, u as int, d),
            {
                let mut places: usize = 0;
                let mut place: usize = 0;
                let ghost mut kfirst: int = 0;
                let ghost mut ksecond: int = 0;
                for k in 0..9
                    invariant
                        board.wf(),
                        uc@.len() == 9,
                        forall|k2: int| 0 <= k2 < 9 ==> #[trigger] uc@[k2] < 81,
                        1 <= d <= 9,
                        places <= k,
                        places >= 1 ==> place < 81,
                        places == 0 ==> forall|k2: int| 0 <= k2 < k ==> !mask_has(
                            #[trigger] board.candidates@[uc@[k2] as int],
                            d,
                        ),
                        places >= 1 ==> 0 <= kfirst < k && mask_has(
                            board.candidates@[uc@[kfirst] as int],
                            d,
                        ),
                        places == 1 ==> place == uc@[kfirst],
                        places >= 2 ==> kfirst < ksecond < k && mask_has(
                            board.candidates@[uc@[ksecond] as int],
                            d,
                        ),
                        forall|k2: int| 0 <= k2 < k && mask_has(
                            #[trigger] board.candidates@[uc@[k2] as int],
                            d,
                        ) ==> (places >= 2 || uc@[k2] == place),
                {
                    if mask_has_exec(board.candidates[uc[k]], d) {
                        proof {
                            if places == 0 {
                                kfirst = k as int;
                            } else if places == 1 {
                                ksecond = k as int;
                            }
                        }
                        places = places + 1;
                        place = uc[k];
                    }
                }
                if places == 1 {
                    let ghost pre_b = *board;
                    proof {
                        // the digit's one remaining place must be where
                        // every solution puts it
                        assert forall|sol: Seq<u8>| #[trigger] solution_in(
                            sol,
                            board.candidates@,
                        ) implies sol[place as int] == d by {
                            let k2 = lemma_solution_place(
                                sol,
                                board.candidates@,
                                u as int,
                                uc@,
                                d,
                            );
                            assert(mask_has(board.candidates@[uc@[k2] as int], d));
                            assert(uc@[k2] == place);
                        }
                    }
                    if !assign_tracked(board, Ghost(b0), place, d, &mut prog) {
                        proof {
                            lemma_keep_none(b0, pre_b);
                        }
                        return RuleOutcome::Contradiction;
                    }
                    proof {
                        lemma_keep_chain(b0, pre_b, *board);
                        if !prog {
                            // the one place was already settled: its domain
                            // held the digit and nothing else
                            assert(board.candidates@ == b0.candidates@);
                            assert(mask_has(b0.candidates@[place as int], d));
                            crate::domain::lemma_count_has(b0.candidates@[place as int], d, 9);
                            lemma_count_one_singleton(b0.candidates@[place as int], d);
                        }
                    }
                }
                proof {
                    if !prog {
                        assert(board.candidates@ == b0.candidates@);
                        assert forall|d2: u8, k2: int|
                            1 <= d2 < d + 1 && 0 <= k2 < 9 && #[trigger] lone_place(
                                b0.candidates@,
                                u as int,
                                d2,
                                k2,
                            ) implies is_singleton(
                            b0.candidates@[unit_cell_at(u as int, k2)],
                            d2,
                        ) by {
                            if d2 == d {
                                assert(uc@[k2] == unit_cell_at(u as int, k2));
                                assert(mask_has(b0.candidates@[uc@[k2] as int], d));
                                if places == 0 {
                                    assert(false);
                                } else if places >= 2 {
                                    // two distinct places contradict the
                                    // lone place
                                    assert(mask_has(
                                        b0.candidates@[uc@[kfirst] as int],
                                        d,
                                    ));
                                    assert(mask_has(
                                        b0.candidates@[uc@[ksecond] as int],
                                        d,
                                    ));
                                    assert(kfirst == k2 && ksecond == k2);
                                    assert(false);
                                } else {
                                    assert(kfirst == k2);
                                    assert(place == uc@[k2]);
                                }
                            }
                        }
                    }
                }
            }
        }
        if prog {
            RuleOutcome::Progress
        } else {
            RuleOutcome::NoProgress
        }
    }

    /// Naked pair: two cells of a unit sharing one two-digit domain have
    /// those digits crossed off the rest of the unit.
    #[verifier::loop_isolation(false)]
    #[verifier::rlimit(100)]
    pub fn naked_pair(&self, board: &mut Sudoku) -> (r: RuleOutcome)
        requires
            old(board).wf(),
            old(board).domains_ok(),
        ensures
            rule_post(*final(board), *old(board), r),
            rule_keeps(*final(board), *old(board), r),
            // no progress means every present naked pair has already had
            // its digits crossed off the rest of its unit
            r is NoProgress ==> naked_pairs_done(final(board).candidates@),
    {
        let ghost b0 = *old(board);
        let mut prog = false;
        for u in 0..27
            invariant
                rule_inv(*board, b0, prog),
                sols_kept(*board, b0),
                !prog ==> np_done_units(b0.candidates@, u as int),
        {
            let uc = unit_cells(u);
            proof {
                assert forall|k2: int| 0 <= k2 < 9 implies #[trigger] uc@[k2] < 81 by {
                    assert(unit_member(u as int, uc@[k2] as int));
                }
            }
            let ghost prog_u = prog;
            for i in 0..9
                invariant
                    rule_inv(*board, b0, prog),
                    sols_kept(*board, b0),
                    u < 27,
                    uc@.len() == 9,
                    forall|k2: int| 0 <= k2 < 9 ==> #[trigger] uc@[k2] < 81,
                    prog_u ==> prog,
                    !prog ==> np_done_units(b0.candidates@, u as int),
                    !prog ==> np_done_mins(b0.candidates@, u as int, i as int),
            {
                let m1 = board.candidates[uc[i]];
                let ghost snap_i = *board;
                let ghost prog_i = prog;
                if mask_size(m1) == 2 {
                    for j in 0..9
                        invariant
                            rule_inv(*board, b0, prog),
                            sols_kept(*board, b0),
                            cands_shrink(board.candidates@, snap_i.candidates@),
                            u < 27,
                            i < 9,
                            uc@.len() == 9,
                            forall|k2: int| 0 <= k2 < 9 ==> #[trigger] uc@[k2] < 81,
                            prog_i ==> prog,
                            !prog ==> (forall|j2: int|
                                i < j2 < j && #[trigger] np_pattern(
                                    b0.candidates@,
                                    u as int,
                                    i as int,
                                    j2,
                                ) ==> np_pair_elim(b0.candidates@, u as int, i as int, j2)),
                    {
                        if j > i && board.candidates[uc[j]] == m1 {
                            let ghost snap = *board;
                            let ghost prog_j = prog;
                            for t in 0..9
                                invariant
                                    rule_inv(*board, b0, prog),
                                    sols_kept(*board, b0),
                                    cands_shrink(board.candidates@, snap.candidates@),
                                    u < 27,
                                    i < 9,
                                    j < 9,
                                    i != j,
                                    uc@.len() == 9,
                                    forall|k2: int| 0 <= k2 < 9 ==> #[trigger] uc@[k2] < 81,
                                    prog_j ==> prog,
                                    !prog ==> (forall|t2: int, d: u8|
                                        0 <= t2 < t && t2 != i && t2 != j && 1 <= d <= 9
                                            && mask_has(m1, d) ==> !(#[trigger] mask_has(
                                            b0.candidates@[uc@[t2] as int],
                                            d,
                                        ))),
                            {
                                if t != i && t != j {
                                    let ghost prog_t = prog;
                                    for d in 1..10u8
                                        invariant
                                            rule_inv(*board, b0, prog),
                                            sols_kept(*board, b0),
                                            cands_shrink(board.candidates@, snap.candidates@),
                                            u < 27,
                                            i < 9,
                                            j < 9,
                                            t < 9,
                                            t != i,
                                            t != j,
                                            i != j,
                                            uc@.len() == 9,
                                            forall|k2: int| 0 <= k2 < 9 ==> #[trigger] uc@[k2]
                                                < 81,
                                            prog_t ==> prog,
                                            !prog ==> (forall|d2: u8|
                                                1 <= d2 < d && mask_has(m1, d2) ==> !(
                                                #[trigger] mask_has(
                                                    b0.candidates@[uc@[t as int] as int],
                                                    d2,
                                                ))),
                                    {
                                        if mask_has_exec(m1, d) {
                                            let ghost pre_b = *board;
                                            proof {
                                                // the pair cells use up both
                                                // digits of the shared
                                                // two-digit domain
                                                assert forall|sol: Seq<u8>| #[trigger]
                                                    solution_in(
                                                    sol,
                                                    board.candidates@,
                                                ) implies sol[uc@[t as int] as int] != d by {
                                                    let ci = uc@[i as int] as int;
                                                    let cj = uc@[j as int] as int;
                                                    let ct = uc@[t as int] as int;
                                                    assert(mask_has(
                                                        board.candidates@[ci],
                                                        sol[ci],
                                                    ));
                                                    assert(mask_has(
                                                        snap.candidates@[ci],
                                                        sol[ci],
                                                    ));
                                                    assert(mask_has(
                                                        snap_i.candidates@[ci],
                                                        sol[ci],
                                                    ));
                                                    assert(mask_has(m1, sol[ci]));
                                                    assert(mask_has(
                                                        board.candidates@[cj],
                                                        sol[cj],
                                                    ));
                                                    assert(mask_has(
                                                        snap.candidates@[cj],
                                                        sol[cj],
                                                    ));
                                                    assert(mask_has(m1, sol[cj]));
                                                    lemma_unit_peers(u as int, ci, cj);
                                                    assert(sol[ci] != sol[cj]);
                                                    lemma_pair_members(
                                                        m1,
                                                        sol[ci],
                                                        sol[cj],
                                                        d,
                                                    );
                                                    lemma_unit_peers(u as int, ct, ci);
                                                    lemma_unit_peers(u as int, ct, cj);
                                                    assert(sol[ct] != sol[ci]);
                                                    assert(sol[ct] != sol[cj]);
                                                }
                                            }
                                            if !eliminate_tracked(
                                                board,
                                                Ghost(b0),
                                                uc[t],
                                                d,
                                                &mut prog,
                                            ) {
                                                proof {
                                                    lemma_keep_none(b0, pre_b);
                                                }
                                                return RuleOutcome::Contradiction;
                                            }
                                            proof {
                                                lemma_keep_chain(b0, pre_b, *board);
                                                lemma_shrink_trans(
                                                    board.candidates@,
                                                    pre_b.candidates@,
                                                    snap.candidates@,
                                                );
                                                if !prog {
                                                    assert(board.candidates@
                                                        == b0.candidates@);
                                                }
                                            }
                                        }
                                    }
                                }
                            }
                            proof {
                                if !prog {
                                    // this matched pair is fully handled
                                    assert(board.candidates@ == b0.candidates@);
                                    assert forall|j2: int|
                                        i < j2 < j + 1 && #[trigger] np_pattern(
                                            b0.candidates@,
                                            u as int,
                                            i as int,
                                            j2,
                                        ) implies np_pair_elim(
                                        b0.candidates@,
                                        u as int,
                                        i as int,
                                        j2,
                                    ) by {
                                        if j2 == j as int {
                                            assert(m1 == b0.candidates@[uc@[i as int] as int]);
                                            assert forall|t2: int, d: u8|
                                                0 <= t2 < 9 && t2 != i as int && t2 != j2 && 1
                                                    <= d <= 9 && mask_has(
                                                    b0.candidates@[unit_cell_at(
                                                        u as int,
                                                        i as int,
                                                    )],
                                                    d,
                                                ) implies !(#[trigger] mask_has(
                                                b0.candidates@[unit_cell_at(u as int, t2)],
                                                d,
                                            )) by {
                                                assert(uc@[t2] == unit_cell_at(u as int, t2));
                                                assert(mask_has(m1, d));
                                            }
                                        }
                                    }
                                }
                            }
                        }
                    }
                }
                proof {
                    if !prog {
                        assert(board.candidates@ == b0.candidates@);
                        assert(m1 == b0.candidates@[uc@[i as int] as int]);
                        assert forall|i2: int, j2: int|
                            0 <= i2 < 9 && 0 <= j2 < 9 && i2 != j2 && (if i2 < j2 {
                                i2
                            } else {
                                j2
                            }) < i + 1 && #[trigger] np_pattern(
                                b0.candidates@,
                                u as int,
                                i2,
                                j2,
                            ) implies np_pair_elim(b0.candidates@, u as int, i2, j2) by {
                            let mn = if i2 < j2 {
                                i2
                            } else {
                                j2
                            };
                            if mn == i as int {
                                let mx = if i2 < j2 {
                                    j2
                                } else {
                                    i2
                                };
                                // both orientations share the same masks,
                                // so the scan of the smaller index covers
                                // them
                                assert(uc@[mn] == unit_cell_at(u as int, mn));
                                assert(uc@[mx] == unit_cell_at(u as int, mx));
                                assert(b0.candidates@[uc@[mx] as int] == m1);
                                assert(mask_count(m1) == 2);
                                assert(np_pattern(b0.candidates@, u as int, i as int, mx));
                                assert(np_pair_elim(b0.candidates@, u as int, i as int, mx));
                                assert forall|t2: int, d: u8|
                                    0 <= t2 < 9 && t2 != i2 && t2 != j2 && 1 <= d <= 9
                                        && mask_has(
                                        b0.candidates@[unit_cell_at(u as int, i2)],
                                        d,
                                    ) implies !(#[trigger] mask_has(
                                    b0.candidates@[unit_cell_at(u as int, t2)],
                                    d,
                                )) by {
                                    assert(mask_has(
                                        b0.candidates@[unit_cell_at(u as int, mn)],
                                        d,
                                    ));
                                }
                            }
                        }
                    }
                }
            }
        }
        if prog {
            RuleOutcome::Progress
        } else {
            RuleOutcome::NoProgress
        }
    }

    /// Three distinct places for a digit pair cannot fit a pattern
    /// confined to two cells.
    #[verifier::spinoff_prover]
    proof fn lemma_hp_three_places(
        cand: Seq<u16>,
        u: int,
        d1: u8,
        d2: u8,
        ka: int,
        kb: int,
        kh1: int,
        kh2: int,
        kh3: int,
    )
        requires
            hp_pattern(cand, u, d1, d2, ka, kb),
            0 <= ka < 9,
            0 <= kb < 9,
            0 <= kh1 < kh2 < kh3 < 9,
            mask_has(cand[unit_cell_at(u, kh1)], d1) || mask_has(cand[unit_cell_at(u, kh1)], d2),
            mask_has(cand[unit_cell_at(u, kh2)], d1) || mask_has(cand[unit_cell_at(u, kh2)], d2),
            mask_has(cand[unit_cell_at(u, kh3)], d1) || mask_has(cand[unit_cell_at(u, kh3)], d2),
        ensures
            kh1 == ka || kh1 == kb,
            kh2 == ka || kh2 == kb,
            kh3 == ka || kh3 == kb,
            false,
    {
        if kh1 != ka && kh1 != kb {
            assert(!mask_has(cand[unit_cell_at(u, kh1)], d1) && !mask_has(
                cand[unit_cell_at(u, kh1)],
                d2,
            ));
        }
        if kh2 != ka && kh2 != kb {
            assert(!mask_has(cand[unit_cell_at(u, kh2)], d1) && !mask_has(
                cand[unit_cell_at(u, kh2)],
                d2,
            ));
        }
        if kh3 != ka && kh3 != kb {
            assert(!mask_has(cand[unit_cell_at(u, kh3)], d1) && !mask_has(
                cand[unit_cell_at(u, kh3)],
                d2,
            ));
        }
    }

    /// Handles one digit pair within one unit: if the two digits are
    /// confined to the same two cells, every other digit is crossed off
    /// those cells.
    #[verifier::loop_isolation(false)]
    #[verifier::rlimit(100)]
    fn hidden_pair_digits(
        board: &mut Sudoku,
        Ghost(b0): Ghost<Sudoku>,
        uc: &Vec<usize>,
        Ghost(u): Ghost<int>,
        d1: u8,
        d2: u8,
        prog: &mut bool,
    ) -> (ok: bool)
        requires
            rule_inv(*old(board), b0, *old(prog)),
            sols_kept(*old(board), b0),
            0 <= u < 27,
            uc@.len() == 9,
            forall|k2: int| 0 <= k2 < 9 ==> #[trigger] uc@[k2] == unit_cell_at(u, k2),
            forall|k2: int| 0 <= k2 < 9 ==> #[trigger] uc@[k2] < 81,
            1 <= d1 <= 9,
            1 <= d2 <= 9,
            d1 < d2,
        ensures
            ok ==> rule_inv(*final(board), b0, *final(prog)),
            ok ==> sols_kept(*final(board), b0),
            final(board).wf(),
            final(board).board@ == b0.board@,
            cands_shrink(final(board).candidates@, b0.candidates@),
            *old(prog) ==> *final(prog),
            !ok ==> (forall|sol: Seq<u8>| !solution_in(sol, b0.candidates@)),
            ok && !*final(prog) ==> (forall|ka: int, kb: int|
                0 <= ka < 9 && 0 <= kb < 9 && #[trigger] hp_pattern(
                    b0.candidates@,
                    u,
                    d1,
                    d2,
                    ka,
                    kb,
                ) ==> hp_cells_clean(b0.candidates@, u, d1, d2, ka, kb)),
    {
        let mut hits: usize = 0;
        let mut ca: usize = 0;
        let mut cb: usize = 0;
        let ghost mut kh1: int = 0;
        let ghost mut kh2: int = 0;
        let ghost mut kh3: int = 0;
        for k in 0..9
            invariant
                board.wf(),
                hits <= k,
                hits >= 1 ==> ca < 81,
                hits >= 2 ==> cb < 81,
                hits == 0 ==> forall|k2: int| 0 <= k2 < k ==> !mask_has(
                    board.candidates@[#[trigger] uc@[k2] as int],
                    d1,
                ) && !mask_has(board.candidates@[uc@[k2] as int], d2),
                hits == 1 ==> forall|k2: int| 0 <= k2 < k && (mask_has(
                    board.candidates@[#[trigger] uc@[k2] as int],
                    d1,
                ) || mask_has(board.candidates@[uc@[k2] as int], d2)) ==> k2 == kh1,
                hits == 2 ==> forall|k2: int| 0 <= k2 < k && (mask_has(
                    board.candidates@[#[trigger] uc@[k2] as int],
                    d1,
                ) || mask_has(board.candidates@[uc@[k2] as int], d2)) ==> (k2 == kh1 || k2
                    == kh2),
                hits >= 1 ==> 0 <= kh1 < k && uc@[kh1] == ca && (mask_has(
                    board.candidates@[uc@[kh1] as int],
                    d1,
                ) || mask_has(board.candidates@[uc@[kh1] as int], d2)),
                hits == 2 ==> kh1 < kh2 < k && uc@[kh2] == cb && (mask_has(
                    board.candidates@[uc@[kh2] as int],
                    d1,
                ) || mask_has(board.candidates@[uc@[kh2] as int], d2)),
                hits >= 3 ==> kh1 < kh2 < kh3 < k && (mask_has(
                    board.candidates@[uc@[kh2] as int],
                    d1,
                ) || mask_has(board.candidates@[uc@[kh2] as int], d2)) && (mask_has(
                    board.candidates@[uc@[kh3] as int],
                    d1,
                ) || mask_has(board.candidates@[uc@[kh3] as int], d2)),
        {
            let mc = board.candidates[uc[k]];
            if mask_has_exec(mc, d1) || mask_has_exec(mc, d2) {
                proof {
                    if hits == 0 {
                        kh1 = k as int;
                    } else if hits == 1 {
                        kh2 = k as int;
                    } else if hits == 2 {
                        kh3 = k as int;
                    }
                }
                if hits == 0 {
                    ca = uc[k];
                } else {
                    cb = uc[k];
                }
                hits = hits + 1;
            }
        }
        let ghost scan = board.candidates@;
        let ghost prog_in = *prog;
        if hits == 2 {
            let ghost snap = *board;
            let ma = board.candidates[ca];
            let mb = board.candidates[cb];
            if mask_has_exec(ma, d1) && mask_has_exec(ma, d2) && mask_has_exec(mb, d1)
                && mask_has_exec(mb, d2) {
                for e in 1..10u8
                    invariant
                        rule_inv(*board, b0, *prog),
                        sols_kept(*board, b0),
                        cands_shrink(board.candidates@, snap.candidates@),
                        ca < 81,
                        cb < 81,
                        1 <= d1 <= 9,
                        1 <= d2 <= 9,
                        d1 != d2,
                        forall|k2: int| 0 <= k2 < 9 && (mask_has(
                            snap.candidates@[#[trigger] uc@[k2] as int],
                            d1,
                        ) || mask_has(snap.candidates@[uc@[k2] as int], d2)) ==> (uc@[k2] == ca
                            || uc@[k2] == cb),
                        prog_in ==> *prog,
                        !*prog ==> (forall|e2: u8|
                            1 <= e2 < e && e2 != d1 && e2 != d2 ==> !(#[trigger] mask_has(
                                b0.candidates@[ca as int],
                                e2,
                            ))),
                        !*prog ==> (forall|e2: u8|
                            1 <= e2 < e && e2 != d1 && e2 != d2 ==> !(#[trigger] mask_has(
                                b0.candidates@[cb as int],
                                e2,
                            ))),
                {
                    if e != d1 && e != d2 {
                        let ghost pre_a = *board;
                        proof {
                            lemma_hidden_pair_confined(
                                board.candidates@,
                                snap.candidates@,
                                u,
                                uc@,
                                d1,
                                d2,
                                ca as int,
                                cb as int,
                                e,
                            );
                        }
                        if !eliminate_tracked(board, Ghost(b0), ca, e, prog) {
                            proof {
                                lemma_keep_none(b0, pre_a);
                            }
                            return false;
                        }
                        proof {
                            lemma_keep_chain(b0, pre_a, *board);
                            lemma_shrink_trans(
                                board.candidates@,
                                pre_a.candidates@,
                                snap.candidates@,
                            );
                        }
                        let ghost pre_c = *board;
                        proof {
                            lemma_hidden_pair_confined(
                                board.candidates@,
                                snap.candidates@,
                                u,
                                uc@,
                                d1,
                                d2,
                                ca as int,
                                cb as int,
                                e,
                            );
                        }
                        if !eliminate_tracked(board, Ghost(b0), cb, e, prog) {
                            proof {
                                lemma_keep_none(b0, pre_c);
                            }
                            return false;
                        }
                        proof {
                            lemma_keep_chain(b0, pre_c, *board);
                            lemma_shrink_trans(
                                board.candidates@,
                                pre_c.candidates@,
                                snap.candidates@,
                            );
                            if !*prog {
                                assert(pre_a.candidates@ == b0.candidates@);
                                assert(pre_c.candidates@ == b0.candidates@);
                                assert(!mask_has(b0.candidates@[ca as int], e));
                                assert(!mask_has(b0.candidates@[cb as int], e));
                            }
                        }
                    }
                }
            }
            proof {
                if !*prog {
                    assert(board.candidates@ == b0.candidates@);
                    assert(scan == b0.candidates@);
                    assert forall|ka: int, kb: int|
                        0 <= ka < 9 && 0 <= kb < 9 && #[trigger] hp_pattern(
                            b0.candidates@,
                            u,
                            d1,
                            d2,
                            ka,
                            kb,
                        ) implies hp_cells_clean(b0.candidates@, u, d1, d2, ka, kb) by {
                        assert(uc@[ka] == unit_cell_at(u, ka));
                        assert(uc@[kb] == unit_cell_at(u, kb));
                        assert(uc@[kh1] == unit_cell_at(u, kh1));
                        assert(uc@[kh2] == unit_cell_at(u, kh2));
                        assert(mask_has(b0.candidates@[uc@[ka] as int], d1));
                        assert(mask_has(b0.candidates@[uc@[kb] as int], d1));
                        // the scan counted exactly the pattern's two cells
                        assert(ka == kh1 || ka == kh2);
                        assert(kb == kh1 || kb == kh2);
                        assert((ca == uc@[ka] && cb == uc@[kb]) || (ca == uc@[kb] && cb
                            == uc@[ka]));
                        // both cells still held both digits, so the branch
                        // that crosses off the other digits did run
                        assert(ma == b0.candidates@[ca as int]);
                        assert(mb == b0.candidates@[cb as int]);
                        assert(mask_has(ma, d1) && mask_has(ma, d2) && mask_has(mb, d1)
                            && mask_has(mb, d2));
                        assert forall|e: u8|
                            1 <= e <= 9 && e != d1 && e != d2 implies !mask_has(
                            b0.candidates@[ca as int],
                            e,
                        ) && !mask_has(b0.candidates@[cb as int], e) by {}
                    }
                }
            }
        } else {
            proof {
                if !*prog {
                    assert(board.candidates@ == b0.candidates@);
                    assert(scan == b0.candidates@);
                    assert forall|ka: int, kb: int|
                        0 <= ka < 9 && 0 <= kb < 9 && #[trigger] hp_pattern(
                            b0.candidates@,
                            u,
                            d1,
                            d2,
                            ka,
                            kb,
                        ) implies hp_cells_clean(b0.candidates@, u, d1, d2, ka, kb) by {
                        assert(uc@[ka] == unit_cell_at(u, ka));
                        assert(uc@[kb] == unit_cell_at(u, kb));
                        assert(mask_has(b0.candidates@[uc@[ka] as int], d1));
                        assert(mask_has(b0.candidates@[uc@[kb] as int], d1));
                        if hits == 0 {
                            assert(false);
                        } else if hits == 1 {
                            assert(ka == kh1 && kb == kh1);
                            assert(false);
                        } else {
                            // three or more counted places cannot fit in
                            // the pattern's two cells
                            assert(uc@[kh1] == unit_cell_at(u, kh1));
                            assert(uc@[kh2] == unit_cell_at(u, kh2));
                            assert(uc@[kh3] == unit_cell_at(u, kh3));
                            assert(mask_has(b0.candidates@[unit_cell_at(u, kh1)], d1)
                                || mask_has(b0.candidates@[unit_cell_at(u, kh1)], d2));
                            assert(mask_has(b0.candidates@[unit_cell_at(u, kh2)], d1)
                                || mask_has(b0.candidates@[unit_cell_at(u, kh2)], d2));
                            assert(mask_has(b0.candidates@[unit_cell_at(u, kh3)], d1)
                                || mask_has(b0.candidates@[unit_cell_at(u, kh3)], d2));
                            Self::lemma_hp_three_places(
                                b0.candidates@,
                                u,
                                d1,
                                d2,
                                ka,
                                kb,
                                kh1,
                                kh2,
                                kh3,
                            );
                        }
                    }
                }
            }
        }
        true
    }

    /// Hidden pair: two digits confined within a unit to the same two
    /// cells have every other digit crossed off those two cells.
    #[verifier::loop_isolation(false)]
    pub fn hidden_pair(&self, board: &mut Sudoku) -> (r: RuleOutcome)
        requires
            old(board).wf(),
            old(board).domains_ok(),
        ensures
            rule_post(*final(board), *old(board), r),
            rule_keeps(*final(board), *old(board), r),
            // no progress means every present hidden pair already holds
            // only its two digits
            r is NoProgress ==> hidden_pairs_done(final(board).candidates@),
    {
        let ghost b0 = *old(board);
        let mut prog = false;
        for u in 0..27
            invariant
                rule_inv(*board, b0, prog),
                sols_kept(*board, b0),
                !prog ==> hp_done_units(b0.candidates@, u as int),
        {
            let uc = unit_cells(u);
            proof {
                assert forall|k2: int| 0 <= k2 < 9 implies #[trigger] uc@[k2] < 81 by {
                    assert(unit_member(u as int, uc@[k2] as int));
                }
            }
            let ghost prog_u = prog;
            for d1 in 1..10u8
                invariant
                    rule_inv(*board, b0, prog),
                    sols_kept(*board, b0),
                    u < 27,
                    uc@.len() == 9,
                    forall|k2: int| 0 <= k2 < 9 ==> #[trigger] uc@[k2] == unit_cell_at(
                        u as int,
                        k2,
                    ),
                    forall|k2: int| 0 <= k2 < 9 ==> #[trigger] uc@[k2] < 81,
                    prog_u ==> prog,
                    !prog ==> hp_done_units(b0.candidates@, u as int),
                    !prog ==> hp_done_d1(b0.candidates@, u as int, d1),
            {
                let ghost prog_d1 = prog;
                for d2 in 1..10u8
                    invariant
                        rule_inv(*board, b0, prog),
                        sols_kept(*board, b0),
                        u < 27,
                        1 <= d1 <= 9,
                        uc@.len() == 9,
                        forall|k2: int| 0 <= k2 < 9 ==> #[trigger] uc@[k2] == unit_cell_at(
                            u as int,
                            k2,
                        ),
                        forall|k2: int| 0 <= k2 < 9 ==> #[trigger] uc@[k2] < 81,
                        prog_d1 ==> prog,
                        !prog ==> hp_done_units(b0.candidates@, u as int),
                        !prog ==> hp_done_d1(b0.candidates@, u as int, d1),
                        !prog ==> hp_done_d2(b0.candidates@, u as int, d1, d2),
                {
                    if d2 > d1 {
                        if !Self::hidden_pair_digits(
                            board,
                            Ghost(b0),
                            &uc,
                            Ghost(u as int),
                            d1,
                            d2,
                            &mut prog,
                        ) {
                            return RuleOutcome::Contradiction;
                        }
                    }
                }
            }
        }
        if prog {
            RuleOutcome::Progress
        } else {
            RuleOutcome::NoProgress
        }
    }

    /// Locked candidates, pointing: all of a box's places for a digit on
    /// one row (or column) cross the digit off the rest of that line.
    #[verifier::loop_isolation(false)]
    #[verifier::rlimit(100)]
    pub fn locked_candidates_type_1(&self, board: &mut Sudoku) -> (r: RuleOutcome)
        requires
            old(board).wf(),
            old(board).domains_ok(),
        ensures
            rule_post(*final(board), *old(board), r),
            rule_keeps(*final(board), *old(board), r),
            // no progress means every present pointing pattern has already
            // had its digit crossed off the rest of its line
            r is NoProgress ==> locked_type1_done(final(board).candidates@),

    {
        let ghost b0 = *old(board);
        let mut prog = false;
        for bx in 18..27usize
            invariant
                rule_inv(*board, b0, prog),
                sols_kept(*board, b0),
                !prog ==> lc1_done_boxes(b0.candidates@, bx - 18),
        {
            let uc = unit_cells(bx);
            proof {
                assert forall|k2: int| 0 <= k2 < 9 implies #[trigger] uc@[k2] < 81 by {
                    assert(unit_member(bx as int, uc@[k2] as int));
                }
            }
            let ghost prog_u = prog;
            for d in 1..10u8
                invariant
                    rule_inv(*board, b0, prog),
                    sols_kept(*board, b0),
                    18 <= bx < 27,
                    uc@.len() == 9,
                    forall|k2: int| 0 <= k2 < 9 ==> #[trigger] uc@[k2] == unit_cell_at(
                        bx as int,
                        k2,
                    ),
                    forall|k2: int| 0 <= k2 < 9 ==> #[trigger] uc@[k2] < 81,
                    prog_u ==> prog,
                    !prog ==> lc1_done_boxes(b0.candidates@, bx - 18),
                    !prog ==> lc1_done_digits(b0.candidates@, bx - 18, d),
            {
                let mut found = false;
                let mut same_row = true;
                let mut same_col = true;
                let mut row0: usize = 0;
                let mut col0: usize = 0;
                let ghost mut kfirst: int = 0;
                let ghost mut kra: int = 0;
                let ghost mut krb: int = 0;
                let ghost mut kca: int = 0;
                let ghost mut kcb: int = 0;
                for k in 0..9
                    invariant
                        board.wf(),
                        uc@.len() == 9,
                        forall|k2: int| 0 <= k2 < 9 ==> #[trigger] uc@[k2] < 81,
                        1 <= d <= 9,
                        found ==> row0 < 9 && col0 < 9,
                        !found ==> same_row && same_col,
                        !found ==> forall|k2: int| 0 <= k2 < k ==> !mask_has(
                            board.candidates@[#[trigger] uc@[k2] as int],
                            d,
                        ),
                        found ==> 0 <= kfirst < k && mask_has(
                            board.candidates@[uc@[kfirst] as int],
                            d,
                        ) && cell_row(uc@[kfirst] as int) == row0 && cell_col(
                            uc@[kfirst] as int,
                        ) == col0,
                        same_row ==> forall|k2: int| 0 <= k2 < k && mask_has(
                            board.candidates@[#[trigger] uc@[k2] as int],
                            d,
                        ) ==> cell_row(uc@[k2] as int) == row0,
                        same_col ==> forall|k2: int| 0 <= k2 < k && mask_has(
                            board.candidates@[#[trigger] uc@[k2] as int],
                            d,
                        ) ==> cell_col(uc@[k2] as int) == col0,
                        !same_row ==> 0 <= kra < 9 && 0 <= krb < 9 && mask_has(
                            board.candidates@[uc@[kra] as int],
                            d,
                        ) && mask_has(board.candidates@[uc@[krb] as int], d) && cell_row(
                            uc@[kra] as int,
                        ) != cell_row(uc@[krb] as int),
                        !same_col ==> 0 <= kca < 9 && 0 <= kcb < 9 && mask_has(
                            board.candidates@[uc@[kca] as int],
                            d,
                        ) && mask_has(board.candidates@[uc@[kcb] as int], d) && cell_col(
                            uc@[kca] as int,
                        ) != cell_col(uc@[kcb] as int),
                {
                    if mask_has_exec(board.candidates[uc[k]], d) {
                        let rr = row_of(uc[k]);
                        let cc = col_of(uc[k]);
                        if !found {
                            found = true;
                            row0 = rr;
                            col0 = cc;
                            proof {
                                kfirst = k as int;
                            }
                        } else {
                            if rr != row0 {
                                proof {
                                    if same_row {
                                        kra = kfirst;
                                        krb = k as int;
                                    }
                                }
                                same_row = false;
                            }
                            if cc != col0 {
                                proof {
                                    if same_col {
                                        kca = kfirst;
                                        kcb = k as int;
                                    }
                                }
                                same_col = false;
                            }
                        }
                    }
                }
                let ghost scan = board.candidates@;
                let ghost prog_d = prog;
                if found && (same_row || same_col) {
                    let ghost snap = *board;
                    let line = if same_row {
                        row0
                    } else {
                        col0 + 9
                    };
                    let lc = unit_cells(line);
                    proof {
                        assert forall|k2: int| 0 <= k2 < 9 implies #[trigger] lc@[k2] < 81 by {
                            assert(unit_member(line as int, lc@[k2] as int));
                        }
                    }
                    for k in 0..9
                        invariant
                            rule_inv(*board, b0, prog),
                            sols_kept(*board, b0),
                            cands_shrink(board.candidates@, snap.candidates@),
                            18 <= bx < 27,
                            1 <= d <= 9,
                            line < 18,
                            same_row ==> line == row0 && row0 < 9,
                            !same_row ==> line == col0 + 9 && col0 < 9,
                            lc@.len() == 9,
                            forall|k2: int| 0 <= k2 < 9 ==> #[trigger] lc@[k2] == unit_cell_at(
                                line as int,
                                k2,
                            ),
                            forall|k2: int| 0 <= k2 < 9 ==> #[trigger] lc@[k2] < 81,
                            prog_d ==> prog,
                            !prog ==> forall|k2: int| 0 <= k2 < k && cell_box(
                                #[trigger] lc@[k2] as int,
                            ) != bx - 18 ==> !mask_has(b0.candidates@[lc@[k2] as int], d),
                    {
                        let cell = lc[k];
                        if box_of(cell) != bx - 18 {
                            let ghost pre_b = *board;
                            proof {
                                // the box's one line holds the box's place
                                // for the digit; cells of that line outside
                                // the box see it as a peer
                                assert forall|sol: Seq<u8>| #[trigger] solution_in(
                                    sol,
                                    board.candidates@,
                                ) implies sol[cell as int] != d by {
                                    let ks = lemma_solution_place(
                                        sol,
                                        board.candidates@,
                                        bx as int,
                                        uc@,
                                        d,
                                    );
                                    let cs = uc@[ks] as int;
                                    assert(mask_has(snap.candidates@[cs], d));
                                    assert(unit_member(bx as int, cs));
                                    assert(unit_member(line as int, cell as int));
                                    if same_row {
                                        assert(cell_row(cs) == row0);
                                        assert(cell_row(cell as int) == row0);
                                    } else {
                                        assert(cell_col(cs) == col0);
                                        assert(cell_col(cell as int) == col0);
                                    }
                                    assert(cell as int != cs);
                                    assert(is_peer(cell as int, cs));
                                    assert(sol[cs] == d);
                                }
                            }
                            if !eliminate_tracked(board, Ghost(b0), cell, d, &mut prog) {
                                proof {
                                    lemma_keep_none(b0, pre_b);
                                }
                                return RuleOutcome::Contradiction;
                            }
                            proof {
                                lemma_keep_chain(b0, pre_b, *board);
                                lemma_shrink_trans(
                                    board.candidates@,
                                    pre_b.candidates@,
                                    snap.candidates@,
                                );
                                if !prog {
                                    assert(pre_b.candidates@ == b0.candidates@);
                                }
                            }
                        }
                    }
                    proof {
                        if !prog {
                            assert(board.candidates@ == b0.candidates@);
                            assert(scan == b0.candidates@);
                            let bb = (bx - 18) as int;
                            assert forall|rr: int|
                                0 <= rr < 9 && #[trigger] lc1_row_pattern(
                                    b0.candidates@,
                                    bb,
                                    d,
                                    rr,
                                ) implies lc1_row_clean(b0.candidates@, bb, d, rr) by {
                                let kx = choose|kx: int|
                                    0 <= kx < 9 && #[trigger] mask_has(
                                        b0.candidates@[unit_cell_at(18 + bb, kx)],
                                        d,
                                    );
                                assert(uc@[kx] == unit_cell_at(bx as int, kx));
                                assert(found);
                                assert(uc@[kfirst] == unit_cell_at(bx as int, kfirst));
                                assert(mask_has(
                                    b0.candidates@[unit_cell_at(bx as int, kfirst)],
                                    d,
                                ));
                                assert(row0 == rr);
                                if !same_row {
                                    assert(uc@[kra] == unit_cell_at(bx as int, kra));
                                    assert(uc@[krb] == unit_cell_at(bx as int, krb));
                                    assert(mask_has(
                                        b0.candidates@[unit_cell_at(bx as int, kra)],
                                        d,
                                    ));
                                    assert(mask_has(
                                        b0.candidates@[unit_cell_at(bx as int, krb)],
                                        d,
                                    ));
                                    assert(false);
                                }
                                assert forall|x: int|
                                    0 <= x < 81 && cell_row(x) == rr && cell_box(x)
                                        != bb implies !(#[trigger] mask_has(
                                    b0.candidates@[x],
                                    d,
                                )) by {
                                    let kxx = cell_col(x);
                                    assert(unit_cell_at(rr, kxx) == x);
                                    assert(lc@[kxx] == unit_cell_at(line as int, kxx));
                                }
                            }
                            assert forall|cc2: int|
                                0 <= cc2 < 9 && #[trigger] lc1_col_pattern(
                                    b0.candidates@,
                                    bb,
                                    d,
                                    cc2,
                                ) && lc1_two_rows(b0.candidates@, bb, d) implies lc1_col_clean(
                                b0.candidates@,
                                bb,
                                d,
                                cc2,
                            ) by {
                                let (k1, k2) = choose|k1: int, k2: int|
                                    0 <= k1 < 9 && 0 <= k2 < 9 && #[trigger] mask_has(
                                        b0.candidates@[unit_cell_at(18 + bb, k1)],
                                        d,
                                    ) && #[trigger] mask_has(
                                        b0.candidates@[unit_cell_at(18 + bb, k2)],
                                        d,
                                    ) && cell_row(unit_cell_at(18 + bb, k1)) != cell_row(
                                        unit_cell_at(18 + bb, k2),
                                    );
                                assert(uc@[k1] == unit_cell_at(bx as int, k1));
                                assert(uc@[k2] == unit_cell_at(bx as int, k2));
                                assert(found);
                                if same_row {
                                    assert(cell_row(uc@[k1] as int) == row0);
                                    assert(cell_row(uc@[k2] as int) == row0);
                                    assert(false);
                                }
                                assert(uc@[kfirst] == unit_cell_at(bx as int, kfirst));
                                assert(mask_has(
                                    b0.candidates@[unit_cell_at(bx as int, kfirst)],
                                    d,
                                ));
                                assert(col0 == cc2);
                                if !same_col {
                                    assert(uc@[kca] == unit_cell_at(bx as int, kca));
                                    assert(uc@[kcb] == unit_cell_at(bx as int, kcb));
                                    assert(mask_has(
                                        b0.candidates@[unit_cell_at(bx as int, kca)],
                                        d,
                                    ));
                                    assert(mask_has(
                                        b0.candidates@[unit_cell_at(bx as int, kcb)],
                                        d,
                                    ));
                                    assert(false);
                                }
                                assert forall|x: int|
                                    0 <= x < 81 && cell_col(x) == cc2 && cell_box(x)
                                        != bb implies !(#[trigger] mask_has(
                                    b0.candidates@[x],
                                    d,
                                )) by {
                                    let kxx = cell_row(x);
                                    assert(unit_cell_at(9 + cc2, kxx) == x);
                                    assert(lc@[kxx] == unit_cell_at(line as int, kxx));
                                }
                            }
                            assert(lc1_done_one(b0.candidates@, bb, d));
                            assert(lc1_done_one(b0.candidates@, bx - 18, d));
                        }
                    }
                } else {
                    proof {
                        if !prog {
                            assert(board.candidates@ == b0.candidates@);
                            assert(scan == b0.candidates@);
                            let bb = (bx - 18) as int;
                            assert forall|rr: int|
                                0 <= rr < 9 && #[trigger] lc1_row_pattern(
                                    b0.candidates@,
                                    bb,
                                    d,
                                    rr,
                                ) implies lc1_row_clean(b0.candidates@, bb, d, rr) by {
                                let kx = choose|kx: int|
                                    0 <= kx < 9 && #[trigger] mask_has(
                                        b0.candidates@[unit_cell_at(18 + bb, kx)],
                                        d,
                                    );
                                assert(uc@[kx] == unit_cell_at(bx as int, kx));
                                assert(found);
                                assert(uc@[kra] == unit_cell_at(bx as int, kra));
                                assert(uc@[krb] == unit_cell_at(bx as int, krb));
                                assert(mask_has(
                                    b0.candidates@[unit_cell_at(bx as int, kra)],
                                    d,
                                ));
                                assert(mask_has(
                                    b0.candidates@[unit_cell_at(bx as int, krb)],
                                    d,
                                ));
                                assert(false);
                            }
                            assert forall|cc2: int|
                                0 <= cc2 < 9 && #[trigger] lc1_col_pattern(
                                    b0.candidates@,
                                    bb,
                                    d,
                                    cc2,
                                ) && lc1_two_rows(b0.candidates@, bb, d) implies lc1_col_clean(
                                b0.candidates@,
                                bb,
                                d,
                                cc2,
                            ) by {
                                let kx = choose|kx: int|
                                    0 <= kx < 9 && #[trigger] mask_has(
                                        b0.candidates@[unit_cell_at(18 + bb, kx)],
                                        d,
                                    );
                                assert(uc@[kx] == unit_cell_at(bx as int, kx));
                                assert(found);
                                assert(uc@[kca] == unit_cell_at(bx as int, kca));
                                assert(uc@[kcb] == unit_cell_at(bx as int, kcb));
                                assert(mask_has(
                                    b0.candidates@[unit_cell_at(bx as int, kca)],
                                    d,
                                ));
                                assert(mask_has(
                                    b0.candidates@[unit_cell_at(bx as int, kcb)],
                                    d,
                                ));
                                assert(false);
                            }
                            assert(lc1_done_one(b0.candidates@, bb, d));
                            assert(lc1_done_one(b0.candidates@, bx - 18, d));
                        }
                    }
                }
            }
        }
        if prog {
            RuleOutcome::Progress
        } else {
            proof {
                assert forall|b: int, d: u8, r: int|
                    0 <= b < 9 && 1 <= d <= 9 && 0 <= r < 9 && #[trigger] lc1_row_pattern(
                        board.candidates@,
                        b,
                        d,
                        r,
                    ) implies lc1_row_clean(board.candidates@, b, d, r) by {
                    assert(lc1_done_one(b0.candidates@, b, d));
                }
                assert forall|b: int, d: u8, c: int|
                    0 <= b < 9 && 1 <= d <= 9 && 0 <= c < 9 && #[trigger] lc1_col_pattern(
                        board.candidates@,
                        b,
                        d,
                        c,
                    ) && lc1_two_rows(board.candidates@, b, d) implies lc1_col_clean(
                    board.candidates@,
                    b,
                    d,
                    c,
                ) by {
                    assert(lc1_done_one(b0.candidates@, b, d));
                }
            }
            RuleOutcome::NoProgress
        }
    }

    /// Locked candidates, claiming: all of a line's places for a digit in
    /// one box cross the digit off the rest of that box.
    #[verifier::loop_isolation(false)]
    #[verifier::rlimit(100)]
    pub fn locked_candidates_type_2(&self, board: &mut Sudoku) -> (r: RuleOutcome)
        requires
            old(board).wf(),
            old(board).domains_ok(),
        ensures
            rule_post(*final(board), *old(board), r),
            rule_keeps(*final(board), *old(board), r),
            // no progress means every present claiming pattern has already
            // had its digit crossed off the rest of its box
            r is NoProgress ==> locked_type2_done(final(board).candidates@),
    {
        let ghost b0 = *old(board);
        let mut prog = false;
        for u in 0..18usize
            invariant
                rule_inv(*board, b0, prog),
                sols_kept(*board, b0),
                !prog ==> lc2_done_lines(b0.candidates@, u as int),
        {
            let uc = unit_cells(u);
            proof {
                assert forall|k2: int| 0 <= k2 < 9 implies #[trigger] uc@[k2] < 81 by {
                    assert(unit_member(u as int, uc@[k2] as int));
                }
            }
            let ghost prog_u = prog;
            for d in 1..10u8
                invariant
                    rule_inv(*board, b0, prog),
                    sols_kept(*board, b0),
                    u < 18,
                    uc@.len() == 9,
                    forall|k2: int| 0 <= k2 < 9 ==> #[trigger] uc@[k2] == unit_cell_at(
                        u as int,
                        k2,
                    ),
                    forall|k2: int| 0 <= k2 < 9 ==> #[trigger] uc@[k2] < 81,
                    prog_u ==> prog,
                    !prog ==> lc2_done_lines(b0.candidates@, u as int),
                    !prog ==> lc2_done_digits(b0.candidates@, u as int, d),
            {
                let mut found = false;
                let mut same_box = true;
                let mut box0: usize = 0;
                let ghost mut kfirst: int = 0;
                let ghost mut kba: int = 0;
                let ghost mut kbb: int = 0;
                for k in 0..9
                    invariant
                        board.wf(),
                        uc@.len() == 9,
                        forall|k2: int| 0 <= k2 < 9 ==> #[trigger] uc@[k2] < 81,
                        1 <= d <= 9,
                        found ==> box0 < 9,
                        !found ==> same_box,
                        !found ==> forall|k2: int| 0 <= k2 < k ==> !mask_has(
                            board.candidates@[#[trigger] uc@[k2] as int],
                            d,
                        ),
                        found ==> 0 <= kfirst < k && mask_has(
                            board.candidates@[uc@[kfirst] as int],
                            d,
                        ) && cell_box(uc@[kfirst] as int) == box0,
                        same_box ==> forall|k2: int| 0 <= k2 < k && mask_has(
                            board.candidates@[#[trigger] uc@[k2] as int],
                            d,
                        ) ==> cell_box(uc@[k2] as int) == box0,
                        !same_box ==> 0 <= kba < 9 && 0 <= kbb < 9 && mask_has(
                            board.candidates@[uc@[kba] as int],
                            d,
                        ) && mask_has(board.candidates@[uc@[kbb] as int], d) && cell_box(
                            uc@[kba] as int,
                        ) != cell_box(uc@[kbb] as int),
                {
                    if mask_has_exec(board.candidates[uc[k]], d) {
                        let bb = box_of(uc[k]);
                        if !found {
                            found = true;
                            box0 = bb;
                            proof {
                                kfirst = k as int;
                            }
                        } else {
                            if bb != box0 {
                                proof {
                                    if same_box {
                                        kba = kfirst;
                                        kbb = k as int;
                                    }
                                }
                                same_box = false;
                            }
                        }
                    }
                }
                let ghost scan = board.candidates@;
                let ghost prog_d = prog;
                if found && same_box {
                    let ghost snap = *board;
                    let bc = unit_cells(18 + box0);
                    proof {
                        assert forall|k2: int| 0 <= k2 < 9 implies #[trigger] bc@[k2] < 81 by {
                            assert(unit_member(18 + box0 as int, bc@[k2] as int));
                        }
                    }
                    for k in 0..9
                        invariant
                            rule_inv(*board, b0, prog),
                            sols_kept(*board, b0),
                            cands_shrink(board.candidates@, snap.candidates@),
                            u < 18,
                            box0 < 9,
                            1 <= d <= 9,
                            bc@.len() == 9,
                            forall|k2: int| 0 <= k2 < 9 ==> #[trigger] bc@[k2] == unit_cell_at(
                                18 + box0 as int,
                                k2,
                            ),
                            forall|k2: int| 0 <= k2 < 9 ==> #[trigger] bc@[k2] < 81,
                            prog_d ==> prog,
                            !prog ==> forall|k2: int|
                                0 <= k2 < k && !unit_member(u as int, #[trigger] bc@[k2] as int)
                                    ==> !mask_has(b0.candidates@[bc@[k2] as int], d),
                    {
                        let cell = bc[k];
                        let in_line = if u < 9 {
                            row_of(cell) == u
                        } else {
                            col_of(cell) == u - 9
                        };
                        if !in_line {
                            let ghost pre_b = *board;
                            proof {
                                // the line's place for the digit sits in
                                // this box; box cells off the line see it
                                // as a peer
                                assert forall|sol: Seq<u8>| #[trigger] solution_in(
                                    sol,
                                    board.candidates@,
                                ) implies sol[cell as int] != d by {
                                    let ks = lemma_solution_place(
                                        sol,
                                        board.candidates@,
                                        u as int,
                                        uc@,
                                        d,
                                    );
                                    let cs = uc@[ks] as int;
                                    assert(mask_has(snap.candidates@[cs], d));
                                    assert(unit_member(u as int, cs));
                                    assert(cell_box(cs) == box0);
                                    assert(unit_member(18 + box0 as int, cell as int));
                                    if u < 9 {
                                        assert(cell_row(cs) == u as int);
                                        assert(cell_row(cell as int) != u as int);
                                    } else {
                                        assert(cell_col(cs) == u - 9);
                                        assert(cell_col(cell as int) != u - 9);
                                    }
                                    assert(cell as int != cs);
                                    assert(is_peer(cell as int, cs));
                                    assert(sol[cs] == d);
                                }
                            }
                            if !eliminate_tracked(board, Ghost(b0), cell, d, &mut prog) {
                                proof {
                                    lemma_keep_none(b0, pre_b);
                                }
                                return RuleOutcome::Contradiction;
                            }
                            proof {
                                lemma_keep_chain(b0, pre_b, *board);
                                lemma_shrink_trans(
                                    board.candidates@,
                                    pre_b.candidates@,
                                    snap.candidates@,
                                );
                                if !prog {
                                    assert(pre_b.candidates@ == b0.candidates@);
                                }
                            }
                        }
                    }
                    proof {
                        if !prog {
                            assert(board.candidates@ == b0.candidates@);
                            assert(scan == b0.candidates@);
                            assert forall|b2: int|
                                0 <= b2 < 9 && #[trigger] lc2_pattern(
                                    b0.candidates@,
                                    u as int,
                                    d,
                                    b2,
                                ) implies lc2_clean(b0.candidates@, u as int, d, b2) by {
                                assert(uc@[kfirst] == unit_cell_at(u as int, kfirst));
                                assert(mask_has(
                                    b0.candidates@[unit_cell_at(u as int, kfirst)],
                                    d,
                                ));
                                assert(box0 == b2);
                                assert forall|x: int|
                                    0 <= x < 81 && cell_box(x) == b2 && !unit_member(
                                        u as int,
                                        x,
                                    ) implies !(#[trigger] mask_has(b0.candidates@[x], d)) by {
                                    assert(unit_member(18 + b2, x));
                                    let kxx = choose|kxx: int|
                                        0 <= kxx < 9 && #[trigger] bc@[kxx] == x;
                                    assert(!unit_member(u as int, bc@[kxx] as int));
                                }
                            }
                            assert(lc2_done_one(b0.candidates@, u as int, d));
                        }
                    }
                } else {
                    proof {
                        if !prog {
                            assert(board.candidates@ == b0.candidates@);
                            assert(scan == b0.candidates@);
                            assert forall|b2: int|
                                0 <= b2 < 9 && #[trigger] lc2_pattern(
                                    b0.candidates@,
                                    u as int,
                                    d,
                                    b2,
                                ) implies lc2_clean(b0.candidates@, u as int, d, b2) by {
                                let kx = choose|kx: int|
                                    0 <= kx < 9 && #[trigger] mask_has(
                                        b0.candidates@[unit_cell_at(u as int, kx)],
                                        d,
                                    );
                                assert(uc@[kx] == unit_cell_at(u as int, kx));
                                assert(found);
                                assert(uc@[kba] == unit_cell_at(u as int, kba));
                                assert(uc@[kbb] == unit_cell_at(u as int, kbb));
                                assert(mask_has(
                                    b0.candidates@[unit_cell_at(u as int, kba)],
                                    d,
                                ));
                                assert(mask_has(
                                    b0.candidates@[unit_cell_at(u as int, kbb)],
                                    d,
                                ));
                                assert(false);
                            }
                            assert(lc2_done_one(b0.candidates@, u as int, d));
                        }
                    }
                }
            }
        }
        if prog {
            RuleOutcome::Progress
        } else {
            proof {
                assert forall|li: int, d: u8, b: int|
                    0 <= li < 18 && 1 <= d <= 9 && 0 <= b < 9 && #[trigger] lc2_pattern(
                        board.candidates@,
                        li,
                        d,
                        b,
                    ) implies lc2_clean(board.candidates@, li, d, b) by {
                    assert(lc2_done_one(b0.candidates@, li, d));
                }
            }
            RuleOutcome::NoProgress
        }
    }
}

impl RuleBasedSolver {
    /// X-Wing: a digit confined to the same two cross-positions in two
    /// parallel lines is crossed off those positions in every other line.
    #[verifier::loop_isolation(false)]
    #[verifier::rlimit(100)]
    #[verifier::spinoff_prover]
    pub fn x_wing(&self, board: &mut Sudoku) -> (r: RuleOutcome)
        requires
            old(board).wf(),
            old(board).domains_ok(),
        ensures
            rule_post(*final(board), *old(board), r),
            rule_keeps(*final(board), *old(board), r),
            // no progress means every present X-Wing has already had its
            // digit crossed off the covered positions
            r is NoProgress ==> xwing_done(final(board).candidates@),
    {
        let ghost b0 = *old(board);
        let mut prog = false;
        for base_i in 0..2usize
            invariant
                rule_inv(*board, b0, prog),
                sols_kept(*board, b0),
                !prog ==> xw_done_bases(b0.candidates@, base_i as int),
        {
            let base = 9 * base_i;
            let ghost prog_b = prog;
            for d in 1..10u8
                invariant
                    rule_inv(*board, b0, prog),
                    sols_kept(*board, b0),
                    base == 9 * base_i,
                    base == 0 || base == 9,
                    prog_b ==> prog,
                    !prog ==> xw_done_bases(b0.candidates@, base_i as int),
                    !prog ==> xw_done_digits(b0.candidates@, base as int, d),
            {
                let ghost prog_d = prog;
                for u1 in 0..9usize
                    invariant
                        rule_inv(*board, b0, prog),
                        sols_kept(*board, b0),
                        base == 9 * base_i,
                        base == 0 || base == 9,
                        1 <= d <= 9,
                        prog_d ==> prog,
                        !prog ==> xw_done_digits(b0.candidates@, base as int, d),
                        !prog ==> xw_done_u1(b0.candidates@, base as int, d, u1 as int),
                {
                    let uc1 = unit_cells(base + u1);
                    proof {
                        assert forall|k2: int| 0 <= k2 < 9 implies #[trigger] uc1@[k2] < 81 by {
                            assert(unit_member((base + u1) as int, uc1@[k2] as int));
                        }
                    }
                    let pm1 = pos_mask(board, &uc1, d);
                    let ghost snap1 = *board;
                    let sz1 = mask_size(pm1);
                    let ghost prog_u1 = prog;
                    if sz1 == 2 {
                        for u2 in 0..9usize
                            invariant
                                rule_inv(*board, b0, prog),
                                sols_kept(*board, b0),
                                cands_shrink(board.candidates@, snap1.candidates@),
                                base == 9 * base_i,
                                base == 0 || base == 9,
                                1 <= d <= 9,
                                u1 < 9,
                                prog_u1 ==> prog,
                                !prog ==> xw_done_u2(
                                    b0.candidates@,
                                    base as int,
                                    d,
                                    u1 as int,
                                    u2 as int,
                                ),
                        {
                            if u2 > u1 {
                                let uc2 = unit_cells(base + u2);
                                proof {
                                    assert forall|k2: int| 0 <= k2 < 9 implies #[trigger] uc2@[k2]
                                        < 81 by {
                                        assert(unit_member((base + u2) as int, uc2@[k2] as int));
                                    }
                                }
                                let pm2 = pos_mask(board, &uc2, d);
                                let ghost prog_u2 = prog;
                                if pm2 == pm1 {
                                    let ghost snap = *board;
                                    for u3 in 0..9usize
                                        invariant
                                            rule_inv(*board, b0, prog),
                                            sols_kept(*board, b0),
                                            cands_shrink(board.candidates@, snap.candidates@),
                                            base == 9 * base_i,
                                            base == 0 || base == 9,
                                            1 <= d <= 9,
                                            u1 < 9,
                                            u2 < 9,
                                            u1 != u2,
                                            prog_u2 ==> prog,
                                            !prog ==> (forall|u3p: int, k: int|
                                                0 <= u3p < u3 && u3p != u1 && u3p != u2 && 0 <= k
                                                    < 9 && mask_has(pm1, (k + 1) as u8)
                                                    ==> !(#[trigger] mask_has(
                                                    b0.candidates@[unit_cell_at(
                                                        base + u3p,
                                                        k,
                                                    )],
                                                    d,
                                                ))),
                                    {
                                        if u3 != u1 && u3 != u2 {
                                            let uc3 = unit_cells(base + u3);
                                            proof {
                                                assert forall|k2: int| 0 <= k2 < 9 implies
                                                    #[trigger] uc3@[k2] < 81 by {
                                                    assert(unit_member(
                                                        (base + u3) as int,
                                                        uc3@[k2] as int,
                                                    ));
                                                }
                                            }
                                            let ghost prog_u3 = prog;
                                            for k in 0..9usize
                                                invariant
                                                    rule_inv(*board, b0, prog),
                                                    sols_kept(*board, b0),
                                                    cands_shrink(
                                                        board.candidates@,
                                                        snap.candidates@,
                                                    ),
                                                    base == 9 * base_i,
                                                    base == 0 || base == 9,
                                                    1 <= d <= 9,
                                                    u1 < 9,
                                                    u2 < 9,
                                                    u3 < 9,
                                                    u1 != u2,
                                                    u3 != u1,
                                                    u3 != u2,
                                                    uc3@.len() == 9,
                                                    forall|k2: int| 0 <= k2 < 9 ==> #[trigger]
                                                        uc3@[k2] == unit_cell_at(
                                                        (base + u3) as int,
                                                        k2,
                                                    ),
                                                    forall|k2: int| 0 <= k2 < 9 ==> #[trigger]
                                                        uc3@[k2] < 81,
                                                    prog_u3 ==> prog,
                                                    !prog ==> (forall|k2: int|
                                                        0 <= k2 < k && mask_has(
                                                            pm1,
                                                            (k2 + 1) as u8,
                                                        ) ==> !(#[trigger] mask_has(
                                                            b0.candidates@[unit_cell_at(
                                                                base + u3,
                                                                k2,
                                                            )],
                                                            d,
                                                        ))),
                                            {
                                                if mask_has_exec(pm1, k as u8 + 1) {
                                                    let ghost pre_b = *board;
                                                    proof {
                                                        lemma_xwing_covered(
                                                            board.candidates@,
                                                            snap1.candidates@,
                                                            snap.candidates@,
                                                            base as int,
                                                            d,
                                                            u1 as int,
                                                            u2 as int,
                                                            uc1@,
                                                            uc2@,
                                                            uc3@,
                                                            pm1,
                                                            u3 as int,
                                                            k as int,
                                                        );
                                                    }
                                                    if !eliminate_tracked(
                                                        board,
                                                        Ghost(b0),
                                                        uc3[k],
                                                        d,
                                                        &mut prog,
                                                    ) {
                                                        proof {
                                                            lemma_keep_none(b0, pre_b);
                                                        }
                                                        return RuleOutcome::Contradiction;
                                                    }
                                                    proof {
                                                        lemma_keep_chain(b0, pre_b, *board);
                                                        lemma_shrink_trans(
                                                            board.candidates@,
                                                            pre_b.candidates@,
                                                            snap.candidates@,
                                                        );
                                                        if !prog {
                                                            assert(pre_b.candidates@
                                                                == b0.candidates@);
                                                        }
                                                    }
                                                }
                                            }
                                        }
                                    }
                                }
                                proof {
                                    if !prog {
                                        assert(board.candidates@ == b0.candidates@);
                                        assert forall|p: int, q: int| #[trigger] xw_pattern(
                                            b0.candidates@,
                                            base as int,
                                            d,
                                            u1 as int,
                                            u2 as int,
                                            p,
                                            q,
                                        ) implies xw_clean(
                                            b0.candidates@,
                                            base as int,
                                            d,
                                            u1 as int,
                                            u2 as int,
                                            p,
                                            q,
                                        ) by {
                                            lemma_xw_count(
                                                b0.candidates@,
                                                base as int,
                                                d,
                                                u1 as int,
                                                p,
                                                q,
                                                pm1,
                                                uc1@,
                                            );
                                            lemma_xw_count(
                                                b0.candidates@,
                                                base as int,
                                                d,
                                                u2 as int,
                                                p,
                                                q,
                                                pm2,
                                                uc2@,
                                            );
                                            assert forall|e: u8| mask_has(pm1, e)
                                                <==> mask_has(pm2, e) by {
                                                if 1 <= e <= 9 {
                                                    assert(mask_has(
                                                        pm1,
                                                        ((e - 1) + 1) as u8,
                                                    ) <==> (e - 1 == p || e - 1 == q));
                                                    assert(mask_has(
                                                        pm2,
                                                        ((e - 1) + 1) as u8,
                                                    ) <==> (e - 1 == p || e - 1 == q));
                                                }
                                            }
                                            crate::domain::lemma_mask_eq(pm1, pm2);
                                            // the covered positions were
                                            // all crossed off
                                            assert forall|u3p: int, k: int|
                                                0 <= u3p < 9 && u3p != u1 as int && u3p
                                                    != u2 as int && 0 <= k < 9 && (k == p || k
                                                    == q) implies !(#[trigger] mask_has(
                                                b0.candidates@[unit_cell_at(
                                                    (base as int) + u3p,
                                                    k,
                                                )],
                                                d,
                                            )) by {
                                                assert(mask_has(pm1, (k + 1) as u8));
                                            }
                                        }
                                        assert(xw_done_one(
                                            b0.candidates@,
                                            base as int,
                                            d,
                                            u1 as int,
                                            u2 as int,
                                        ));
                                    }
                                }
                            }
                        }
                    }
                    proof {
                        if !prog {
                            assert forall|u2p: int| (u1 as int) < u2p < 9 implies #[trigger]
                                xw_done_one(
                                b0.candidates@,
                                base as int,
                                d,
                                u1 as int,
                                u2p,
                            ) by {
                                if sz1 != 2 {
                                    assert forall|p: int, q: int| #[trigger] xw_pattern(
                                        b0.candidates@,
                                        base as int,
                                        d,
                                        u1 as int,
                                        u2p,
                                        p,
                                        q,
                                    ) implies xw_clean(
                                        b0.candidates@,
                                        base as int,
                                        d,
                                        u1 as int,
                                        u2p,
                                        p,
                                        q,
                                    ) by {
                                        lemma_xw_count(
                                            b0.candidates@,
                                            base as int,
                                            d,
                                            u1 as int,
                                            p,
                                            q,
                                            pm1,
                                            uc1@,
                                        );
                                        assert(false);
                                    }
                                }
                            }
                        }
                    }
                }
            }
        }
        if prog {
            RuleOutcome::Progress
        } else {
            proof {
                assert forall|base: int, d: u8, u1: int, u2: int, p: int, q: int|
                    (base == 0 || base == 9) && 1 <= d <= 9 && 0 <= u1 < u2 < 9 && #[trigger]
                        xw_pattern(board.candidates@, base, d, u1, u2, p, q) implies xw_clean(
                    board.candidates@,
                    base,
                    d,
                    u1,
                    u2,
                    p,
                    q,
                ) by {
                    if base == 0 {
                        assert(xw_done_one(b0.candidates@, 9 * 0int, d, u1, u2));
                        assert(xw_done_one(b0.candidates@, base, d, u1, u2));
                    } else {
                        assert(xw_done_one(b0.candidates@, 9 * 1int, d, u1, u2));
                        assert(xw_done_one(b0.candidates@, base, d, u1, u2));
                    }
                }
            }
            RuleOutcome::NoProgress
        }
    }

    /// Swordfish: the three-line generalization of X-Wing.
    #[verifier::loop_isolation(false)]
    #[verifier::rlimit(100)]
    #[verifier::spinoff_prover]
    pub fn swordfish(&self, board: &mut Sudoku) -> (r: RuleOutcome)
        requires
            old(board).wf(),
            old(board).domains_ok(),
        ensures
            rule_post(*final(board), *old(board), r),
            rule_keeps(*final(board), *old(board), r),
            // no progress means every present Swordfish has already had
            // its digit crossed off the covered positions
            r is NoProgress ==> swordfish_done(final(board).candidates@),
    {
        let ghost b0 = *old(board);
        let mut prog = false;
        for base_i in 0..2usize
            invariant
                rule_inv(*board, b0, prog),
                sols_kept(*board, b0),
                !prog ==> sf_done_bases(b0.candidates@, base_i as int),
        {
            let base = 9 * base_i;
            let ghost prog_b = prog;
            for d in 1..10u8
                invariant
                    rule_inv(*board, b0, prog),
                    sols_kept(*board, b0),
                    base == 9 * base_i,
                    base == 0 || base == 9,
                    prog_b ==> prog,
                    !prog ==> sf_done_bases(b0.candidates@, base_i as int),
                    !prog ==> sf_done_digits(b0.candidates@, base as int, d),
            {
                let ghost prog_d = prog;
                for u1 in 0..9usize
                    invariant
                        rule_inv(*board, b0, prog),
                        sols_kept(*board, b0),
                        base == 9 * base_i,
                        base == 0 || base == 9,
                        1 <= d <= 9,
                        prog_d ==> prog,
                        !prog ==> sf_done_digits(b0.candidates@, base as int, d),
                        !prog ==> sf_done_u1(b0.candidates@, base as int, d, u1 as int),
                {
                    let uc1 = unit_cells(base + u1);
                    proof {
                        assert forall|k2: int| 0 <= k2 < 9 implies #[trigger] uc1@[k2] < 81 by {
                            assert(unit_member((base + u1) as int, uc1@[k2] as int));
                        }
                    }
                    let pm1 = pos_mask(board, &uc1, d);
                    let ghost snap1 = *board;
                    let ghost prog_u1 = prog;
                    if pm1 != 0 {
                        for u2 in 0..9usize
                            invariant
                                rule_inv(*board, b0, prog),
                                sols_kept(*board, b0),
                                cands_shrink(board.candidates@, snap1.candidates@),
                                base == 9 * base_i,
                                base == 0 || base == 9,
                                1 <= d <= 9,
                                u1 < 9,
                                prog_u1 ==> prog,
                                !prog ==> sf_done_u2(
                                    b0.candidates@,
                                    base as int,
                                    d,
                                    u1 as int,
                                    u2 as int,
                                ),
                        {
                            if u2 > u1 {
                                let uc2 = unit_cells(base + u2);
                                proof {
                                    assert forall|k2: int| 0 <= k2 < 9 implies #[trigger] uc2@[k2]
                                        < 81 by {
                                        assert(unit_member((base + u2) as int, uc2@[k2] as int));
                                    }
                                }
                                let pm2 = pos_mask(board, &uc2, d);
                                let ghost snap2 = *board;
                                let ghost prog_u2 = prog;
                                if pm2 != 0 {
                                    for u3 in 0..9usize
                                        invariant
                                            rule_inv(*board, b0, prog),
                                            sols_kept(*board, b0),
                                            cands_shrink(board.candidates@, snap2.candidates@),
                                            base == 9 * base_i,
                                            base == 0 || base == 9,
                                            1 <= d <= 9,
                                            u1 < 9,
                                            u2 < 9,
                                            u1 != u2,
                                            prog_u2 ==> prog,
                                            !prog ==> sf_done_u3(
                                                b0.candidates@,
                                                base as int,
                                                d,
                                                u1 as int,
                                                u2 as int,
                                                u3 as int,
                                            ),
                                    {
                                        if u3 > u2 {
                                            let uc3 = unit_cells(base + u3);
                                            proof {
                                                assert forall|k2: int| 0 <= k2 < 9 implies
                                                    #[trigger] uc3@[k2] < 81 by {
                                                    assert(unit_member(
                                                        (base + u3) as int,
                                                        uc3@[k2] as int,
                                                    ));
                                                }
                                            }
                                            let pm3 = pos_mask(board, &uc3, d);
                                            let ghost snap3 = *board;
                                            let ghost prog_u3 = prog;
                                            let un = (pm1 | pm2) | pm3;
                                            if pm3 != 0 && mask_size(un) == 3 {
                                                for u4 in 0..9usize
                                                    invariant
                                                        rule_inv(*board, b0, prog),
                                                        sols_kept(*board, b0),
                                                        cands_shrink(
                                                            board.candidates@,
                                                            snap3.candidates@,
                                                        ),
                                                        base == 9 * base_i,
                                                        base == 0 || base == 9,
                                                        1 <= d <= 9,
                                                        u1 < 9,
                                                        u2 < 9,
                                                        u3 < 9,
                                                        u1 != u2,
                                                        u2 != u3,
                                                        u1 != u3,
                                                        prog_u3 ==> prog,
                                                        !prog ==> (forall|u4p: int, k: int|
                                                            0 <= u4p < u4 && u4p != u1 as int
                                                                && u4p != u2 as int && u4p
                                                                != u3 as int && 0 <= k < 9
                                                                && mask_has(un, (k + 1) as u8)
                                                                ==> !(#[trigger] mask_has(
                                                                b0.candidates@[unit_cell_at(
                                                                    base + u4p,
                                                                    k,
                                                                )],
                                                                d,
                                                            ))),
                                                {
                                                    if u4 != u1 && u4 != u2 && u4 != u3 {
                                                        let uc4 = unit_cells(base + u4);
                                                        proof {
                                                            assert forall|k2: int|
                                                                0 <= k2 < 9 implies #[trigger]
                                                                uc4@[k2] < 81 by {
                                                                assert(unit_member(
                                                                    (base + u4) as int,
                                                                    uc4@[k2] as int,
                                                                ));
                                                            }
                                                        }
                                                        let ghost prog_u4 = prog;
                                                        for k in 0..9usize
                                                            invariant
                                                                rule_inv(*board, b0, prog),
                                                                sols_kept(*board, b0),
                                                                cands_shrink(
                                                                    board.candidates@,
                                                                    snap3.candidates@,
                                                                ),
                                                                base == 9 * base_i,
                                                                base == 0 || base == 9,
                                                                1 <= d <= 9,
                                                                u1 < 9,
                                                                u2 < 9,
                                                                u3 < 9,
                                                                u4 < 9,
                                                                u1 != u2,
                                                                u2 != u3,
                                                                u1 != u3,
                                                                u4 != u1,
                                                                u4 != u2,
                                                                u4 != u3,
                                                                uc4@.len() == 9,
                                                                forall|k2: int| 0 <= k2 < 9
                                                                    ==> #[trigger] uc4@[k2]
                                                                    == unit_cell_at(
                                                                    (base + u4) as int,
                                                                    k2,
                                                                ),
                                                                forall|k2: int| 0 <= k2 < 9
                                                                    ==> #[trigger] uc4@[k2] < 81,
                                                                prog_u4 ==> prog,
                                                                !prog ==> (forall|k2: int|
                                                                    0 <= k2 < k && mask_has(
                                                                        un,
                                                                        (k2 + 1) as u8,
                                                                    ) ==> !(#[trigger] mask_has(
                                                                        b0.candidates@[unit_cell_at(
                                                                            base + u4,
                                                                            k2,
                                                                        )],
                                                                        d,
                                                                    ))),
                                                        {
                                                            if mask_has_exec(un, k as u8 + 1) {
                                                                let ghost pre_b = *board;
                                                                proof {
                                                                    lemma_sword_covered(
                                                                        board.candidates@,
                                                                        snap1.candidates@,
                                                                        snap2.candidates@,
                                                                        snap3.candidates@,
                                                                        base as int,
                                                                        d,
                                                                        u1 as int,
                                                                        u2 as int,
                                                                        u3 as int,
                                                                        uc1@,
                                                                        uc2@,
                                                                        uc3@,
                                                                        uc4@,
                                                                        pm1,
                                                                        pm2,
                                                                        pm3,
                                                                        un,
                                                                        u4 as int,
                                                                        k as int,
                                                                    );
                                                                }
                                                                if !eliminate_tracked(
                                                                    board,
                                                                    Ghost(b0),
                                                                    uc4[k],
                                                                    d,
                                                                    &mut prog,
                                                                ) {
                                                                    proof {
                                                                        lemma_keep_none(
                                                                            b0,
                                                                            pre_b,
                                                                        );
                                                                    }
                                                                    return RuleOutcome::Contradiction;
                                                                }
                                                                proof {
                                                                    lemma_keep_chain(
                                                                        b0,
                                                                        pre_b,
                                                                        *board,
                                                                    );
                                                                    lemma_shrink_trans(
                                                                        board.candidates@,
                                                                        pre_b.candidates@,
                                                                        snap3.candidates@,
                                                                    );
                                                                    if !prog {
                                                                        assert(pre_b.candidates@
                                                                            == b0.candidates@);
                                                                    }
                                                                }
                                                            }
                                                        }
                                                    }
                                                }
                                            }
                                            proof {
                                                if !prog {
                                                    assert(board.candidates@ == b0.candidates@);
                                                    assert forall|p: int, q: int, rr: int|
                                                        #[trigger] sf_pattern(
                                                            b0.candidates@,
                                                            base as int,
                                                            d,
                                                            u1 as int,
                                                            u2 as int,
                                                            u3 as int,
                                                            p,
                                                            q,
                                                            rr,
                                                        ) implies sf_clean(
                                                        b0.candidates@,
                                                        base as int,
                                                        d,
                                                        u1 as int,
                                                        u2 as int,
                                                        u3 as int,
                                                        p,
                                                        q,
                                                        rr,
                                                    ) by {
                                                        lemma_sf_count(
                                                            b0.candidates@,
                                                            base as int,
                                                            d,
                                                            u1 as int,
                                                            u2 as int,
                                                            u3 as int,
                                                            p,
                                                            q,
                                                            rr,
                                                            pm1,
                                                            pm2,
                                                            pm3,
                                                            un,
                                                            uc1@,
                                                            uc2@,
                                                            uc3@,
                                                        );
                                                        assert forall|u4p: int, k: int|
                                                            0 <= u4p < 9 && u4p != u1 as int
                                                                && u4p != u2 as int && u4p
                                                                != u3 as int && 0 <= k < 9 && (k
                                                                == p || k == q || k
                                                                == rr) implies !(#[trigger]
                                                        mask_has(
                                                            b0.candidates@[unit_cell_at(
                                                                (base as int) + u4p,
                                                                k,
                                                            )],
                                                            d,
                                                        )) by {
                                                            assert(mask_has(
                                                                un,
                                                                (k + 1) as u8,
                                                            ));
                                                        }
                                                    }
                                                    assert(sf_done_one(
                                                        b0.candidates@,
                                                        base as int,
                                                        d,
                                                        u1 as int,
                                                        u2 as int,
                                                        u3 as int,
                                                    ));
                                                }
                                            }
                                        }
                                    }
                                }
                                proof {
                                    if !prog {
                                        assert(board.candidates@ == b0.candidates@);
                                        assert forall|u3p: int| (u2 as int) < u3p < 9 implies
                                            #[trigger] sf_done_one(
                                            b0.candidates@,
                                            base as int,
                                            d,
                                            u1 as int,
                                            u2 as int,
                                            u3p,
                                        ) by {
                                            if pm2 == 0 {
                                                assert forall|p: int, q: int, rr: int|
                                                    #[trigger] sf_pattern(
                                                        b0.candidates@,
                                                        base as int,
                                                        d,
                                                        u1 as int,
                                                        u2 as int,
                                                        u3p,
                                                        p,
                                                        q,
                                                        rr,
                                                    ) implies sf_clean(
                                                    b0.candidates@,
                                                    base as int,
                                                    d,
                                                    u1 as int,
                                                    u2 as int,
                                                    u3p,
                                                    p,
                                                    q,
                                                    rr,
                                                ) by {
                                                    let kk = choose|kk: int|
                                                        0 <= kk < 9 && #[trigger] mask_has(
                                                            b0.candidates@[unit_cell_at(
                                                                (base as int) + u2 as int,
                                                                kk,
                                                            )],
                                                            d,
                                                        );
                                                    assert(uc2@[kk] == unit_cell_at(
                                                        (base + u2) as int,
                                                        kk,
                                                    ));
                                                    assert(mask_has(pm2, (kk + 1) as u8));
                                                    crate::domain::lemma_mask_has_nonzero(
                                                        pm2,
                                                        (kk + 1) as u8,
                                                    );
                                                    assert(false);
                                                }
                                            }
                                        }
                                    }
                                }
                            }
                        }
                    }
                    proof {
                        if !prog {
                            assert(board.candidates@ == b0.candidates@);
                            assert forall|u2p: int, u3p: int|
                                (u1 as int) < u2p < u3p < 9 implies #[trigger] sf_done_one(
                                b0.candidates@,
                                base as int,
                                d,
                                u1 as int,
                                u2p,
                                u3p,
                            ) by {
                                if pm1 == 0 {
                                    assert forall|p: int, q: int, rr: int|
                                        #[trigger] sf_pattern(
                                            b0.candidates@,
                                            base as int,
                                            d,
                                            u1 as int,
                                            u2p,
                                            u3p,
                                            p,
                                            q,
                                            rr,
                                        ) implies sf_clean(
                                        b0.candidates@,
                                        base as int,
                                        d,
                                        u1 as int,
                                        u2p,
                                        u3p,
                                        p,
                                        q,
                                        rr,
                                    ) by {
                                        let kk = choose|kk: int|
                                            0 <= kk < 9 && #[trigger] mask_has(
                                                b0.candidates@[unit_cell_at(
                                                    (base as int) + u1 as int,
                                                    kk,
                                                )],
                                                d,
                                            );
                                        assert(uc1@[kk] == unit_cell_at(
                                            (base + u1) as int,
                                            kk,
                                        ));
                                        assert(mask_has(pm1, (kk + 1) as u8));
                                        crate::domain::lemma_mask_has_nonzero(
                                            pm1,
                                            (kk + 1) as u8,
                                        );
                                        assert(false);
                                    }
                                }
                            }
                        }
                    }
                }
            }
        }
        if prog {
            RuleOutcome::Progress
        } else {
            proof {
                assert forall|base: int, d: u8, u1: int, u2: int, u3: int, p: int, q: int, rr: int|
                    (base == 0 || base == 9) && 1 <= d <= 9 && 0 <= u1 < u2 < u3 < 9 && #[trigger]
                        sf_pattern(board.candidates@, base, d, u1, u2, u3, p, q, rr)
                        implies sf_clean(board.candidates@, base, d, u1, u2, u3, p, q, rr) by {
                    if base == 0 {
                        assert(sf_done_one(b0.candidates@, 9 * 0int, d, u1, u2, u3));
                    } else {
                        assert(sf_done_one(b0.candidates@, 9 * 1int, d, u1, u2, u3));
                    }
                    assert(sf_done_one(b0.candidates@, base, d, u1, u2, u3));
                }
            }
            RuleOutcome::NoProgress
        }
    }
}




/// The combined outcome of two rule applications in sequence.
pub open spec fn combined(r1: RuleOutcome, r2: RuleOutcome) -> RuleOutcome {
    if r1 is Contradiction || r2 is Contradiction {
        RuleOutcome::Contradiction
    } else if r1 is Progress || r2 is Progress {
        RuleOutcome::Progress
    } else {
        RuleOutcome::NoProgress
    }
}

fn combine_outcome(r1: RuleOutcome, r2: RuleOutcome) -> (r: RuleOutcome)
    ensures
        r == combined(r1, r2),
{
    match (r1, r2) {
        (RuleOutcome::Contradiction, _) => RuleOutcome::Contradiction,
        (_, RuleOutcome::Contradiction) => RuleOutcome::Contradiction,
        (RuleOutcome::Progress, _) => RuleOutcome::Progress,
        (_, RuleOutcome::Progress) => RuleOutcome::Progress,
        _ => RuleOutcome::NoProgress,
    }
}

/// Two sound rule passes in sequence stay sound.
proof fn lemma_chain_keeps(b0: Sudoku, b1: Sudoku, b2: Sudoku, r1: RuleOutcome, r2: RuleOutcome)
    requires
        rule_keeps(b1, b0, r1),
        rule_keeps(b2, b1, r2),
        !(r1 is Contradiction),
    ensures
        rule_keeps(b2, b0, combined(r1, r2)),
{
    assert forall|sol: Seq<u8>| #[trigger] solution_in(sol, b0.candidates@) implies solution_in(
        sol,
        b2.candidates@,
    ) by {
        assert(solution_in(sol, b1.candidates@));
    }
    if r2 is Contradiction {
        assert forall|sol: Seq<u8>| !solution_in(sol, b0.candidates@) by {
            if solution_in(sol, b0.candidates@) {
                assert(solution_in(sol, b1.candidates@));
            }
        }
    }
}

/// Two rule passes in sequence guarantee their combined outcome.
proof fn lemma_chain(b0: Sudoku, b1: Sudoku, b2: Sudoku, r1: RuleOutcome, r2: RuleOutcome)
    requires
        rule_post(b1, b0, r1),
        rule_post(b2, b1, r2),
        !(r1 is Contradiction),
    ensures
        rule_post(b2, b0, combined(r1, r2)),
{
    lemma_shrink_trans(b2.candidates@, b1.candidates@, b0.candidates@);
    if r2 is Progress {
        lemma_shrink_total_le(b1.candidates@, b0.candidates@);
    }
}

impl RuleBasedSolver {
    /// Applies the basic rules once: naked single, hidden single, naked
    /// pair, hidden pair.
    pub fn apply_basic_rules(&self, board: &mut Sudoku) -> (r: RuleOutcome)
        requires
            old(board).wf(),
            old(board).domains_ok(),
        ensures
            rule_post(*final(board), *old(board), r),
            rule_keeps(*final(board), *old(board), r),
            // no progress means each basic pass, run on this very state,
            // certified its own fixpoint
            r is NoProgress ==> singleton_fixpoint(final(board).candidates@),
            r is NoProgress ==> hidden_singles_done(final(board).candidates@),
            r is NoProgress ==> naked_pairs_done(final(board).candidates@),
            r is NoProgress ==> hidden_pairs_done(final(board).candidates@),
    {
        let ghost b0 = *old(board);
        let mut acc = RuleOutcome::NoProgress;
        let ghost pre = *board;
        let r1 = self.naked_single(board);
        let ghost after_ns = *board;
        proof {
            lemma_chain(b0, pre, *board, acc, r1);
            lemma_chain_keeps(b0, pre, *board, acc, r1);
        }
        acc = combine_outcome(acc, r1);
        if let RuleOutcome::Contradiction = acc {
            return acc;
        }
        let ghost pre = *board;
        let r2 = self.hidden_single(board);
        let ghost after_hs = *board;
        proof {
            lemma_chain(b0, pre, *board, acc, r2);
            lemma_chain_keeps(b0, pre, *board, acc, r2);
        }
        acc = combine_outcome(acc, r2);
        if let RuleOutcome::Contradiction = acc {
            return acc;
        }
        let ghost pre = *board;
        let r3 = self.naked_pair(board);
        let ghost after_np = *board;
        proof {
            lemma_chain(b0, pre, *board, acc, r3);
            lemma_chain_keeps(b0, pre, *board, acc, r3);
        }
        acc = combine_outcome(acc, r3);
        if let RuleOutcome::Contradiction = acc {
            return acc;
        }
        let ghost pre = *board;
        let r4 = self.hidden_pair(board);
        proof {
            lemma_chain(b0, pre, *board, acc, r4);
            lemma_chain_keeps(b0, pre, *board, acc, r4);
            if combined(acc, r4) is NoProgress {
                // nothing changed after any pass: each pass's no-progress
                // outcome certified its fixpoint on this very state
                assert(r1 is NoProgress && r2 is NoProgress && r3 is NoProgress
                    && r4 is NoProgress);
                assert(singleton_fixpoint(after_ns.candidates@));
                assert(hidden_singles_done(after_hs.candidates@));
                assert(naked_pairs_done(after_np.candidates@));
                assert(hidden_pairs_done(board.candidates@));
                assert(board.candidates@ == after_ns.candidates@);
                assert(board.candidates@ == after_hs.candidates@);
                assert(board.candidates@ == after_np.candidates@);
            }
        }
        acc = combine_outcome(acc, r4);
        acc
    }

    /// Applies the intermediate rules once: both kinds of locked
    /// candidates.
    pub fn apply_intermediate_rules(&self, board: &mut Sudoku) -> (r: RuleOutcome)
        requires
            old(board).wf(),
            old(board).domains_ok(),
        ensures
            rule_post(*final(board), *old(board), r),
            rule_keeps(*final(board), *old(board), r),
            // no progress means both locked-candidates passes certified
            // their fixpoints on this very state
            r is NoProgress ==> locked_type1_done(final(board).candidates@),
            r is NoProgress ==> locked_type2_done(final(board).candidates@),
    {
        let ghost b0 = *old(board);
        let mut acc = RuleOutcome::NoProgress;
        let ghost pre = *board;
        let r1 = self.locked_candidates_type_1(board);
        let ghost after_l1 = *board;
        proof {
            lemma_chain(b0, pre, *board, acc, r1);
            lemma_chain_keeps(b0, pre, *board, acc, r1);
        }
        acc = combine_outcome(acc, r1);
        if let RuleOutcome::Contradiction = acc {
            return acc;
        }
        let ghost pre = *board;
        let r2 = self.locked_candidates_type_2(board);
        proof {
            lemma_chain(b0, pre, *board, acc, r2);
            lemma_chain_keeps(b0, pre, *board, acc, r2);
            if combined(acc, r2) is NoProgress {
                assert(r1 is NoProgress && r2 is NoProgress);
                assert(locked_type1_done(after_l1.candidates@));
                assert(locked_type2_done(board.candidates@));
                assert(board.candidates@ == after_l1.candidates@);
            }
        }
        acc = combine_outcome(acc, r2);
        acc
    }

    /// Applies the complex rules once: X-Wing and Swordfish.
    pub fn apply_complex_rules(&self, board: &mut Sudoku) -> (r: RuleOutcome)
        requires
            old(board).wf(),
            old(board).domains_ok(),
        ensures
            rule_post(*final(board), *old(board), r),
            rule_keeps(*final(board), *old(board), r),
            // no progress means both fish passes certified their
            // fixpoints on this very state
            r is NoProgress ==> xwing_done(final(board).candidates@),
            r is NoProgress ==> swordfish_done(final(board).candidates@),
    {
        let ghost b0 = *old(board);
        let mut acc = RuleOutcome::NoProgress;
        let ghost pre = *board;
        let r1 = self.x_wing(board);
        let ghost after_xw = *board;
        proof {
            lemma_chain(b0, pre, *board, acc, r1);
            lemma_chain_keeps(b0, pre, *board, acc, r1);
        }
        acc = combine_outcome(acc, r1);
        if let RuleOutcome::Contradiction = acc {
            return acc;
        }
        let ghost pre = *board;
        let r2 = self.swordfish(board);
        proof {
            lemma_chain(b0, pre, *board, acc, r2);
            lemma_chain_keeps(b0, pre, *board, acc, r2);
            if combined(acc, r2) is NoProgress {
                assert(r1 is NoProgress && r2 is NoProgress);
                assert(xwing_done(after_xw.candidates@));
                assert(swordfish_done(board.candidates@));
                assert(board.candidates@ == after_xw.candidates@);
            }
        }
        acc = combine_outcome(acc, r2);
        acc
    }

    /// Applies all rules to a fixpoint, then falls back to the
    /// constraint-programming search on the pruned domains if the puzzle
    /// is still unsettled. A contradiction reports failure for this
    /// branch.
    #[verifier::loop_isolation(false)]
    pub fn solve_board(&mut self, board: &mut Sudoku) -> (r: bool)
        requires
            old(board).wf(),
            old(board).domains_ok(),
        ensures
            final(board).wf(),
            final(board).board@ == old(board).board@,
            cands_shrink(final(board).candidates@, old(board).candidates@),
            r ==> all_singleton(final(board).candidates@) && final(board).domains_ok(),
            // success always reaches the settled-cell fixpoint, so with
            // every domain a singleton the induced board is a valid grid
            r ==> singleton_fixpoint(final(board).candidates@),
            // the rules are sound and the fallback search is complete:
            // success exhibits a solution of the starting domains, failure
            // certifies there was none
            r <==> (exists|sol: Seq<u8>| solution_in(sol, old(board).candidates@)),
    {
        let ghost b00 = *old(board);
        let mut progressed = true;
        while progressed
            invariant
                board.wf(),
                board.domains_ok(),
                board.board@ == b00.board@,
                cands_shrink(board.candidates@, b00.candidates@),
                singleton_fixpoint(b00.candidates@) ==> singleton_fixpoint(board.candidates@),
                !progressed ==> singleton_fixpoint(board.candidates@),
                sols_kept(*board, b00),
            decreases total_count(board.candidates@), (if progressed {
                1int
            } else {
                0int
            }),
        {
            let ghost pre = *board;
            let mut acc = RuleOutcome::NoProgress;
            let r1 = self.apply_basic_rules(board);
            proof {
                lemma_chain(pre, pre, *board, acc, r1);
            }
            acc = combine_outcome(acc, r1);
            if let RuleOutcome::Contradiction = acc {
                proof {
                    lemma_shrink_trans(board.candidates@, pre.candidates@, b00.candidates@);
                    lemma_keep_none(b00, pre);
                }
                return false;
            }
            proof {
                lemma_chain_keeps(pre, pre, *board, RuleOutcome::NoProgress, r1);
                lemma_keep_chain(b00, pre, *board);
            }
            let ghost mid1 = *board;
            let r2 = self.apply_intermediate_rules(board);
            proof {
                lemma_chain(pre, mid1, *board, acc, r2);
            }
            acc = combine_outcome(acc, r2);
            if let RuleOutcome::Contradiction = acc {
                proof {
                    lemma_shrink_trans(board.candidates@, pre.candidates@, b00.candidates@);
                    lemma_keep_none(b00, mid1);
                }
                return false;
            }
            proof {
                lemma_keep_chain(b00, mid1, *board);
            }
            let ghost mid2 = *board;
            let r3 = self.apply_complex_rules(board);
            proof {
                lemma_chain(pre, mid2, *board, acc, r3);
            }
            acc = combine_outcome(acc, r3);
            if let RuleOutcome::Contradiction = acc {
                proof {
                    lemma_shrink_trans(board.candidates@, pre.candidates@, b00.candidates@);
                    lemma_keep_none(b00, mid2);
                }
                return false;
            }
            proof {
                lemma_keep_chain(b00, mid2, *board);
            }
            progressed = matches!(acc, RuleOutcome::Progress);
            proof {
                lemma_shrink_trans(board.candidates@, pre.candidates@, b00.candidates@);
                if !progressed {
                    // no pass progressed: the basic pass certified the
                    // fixpoint and the later passes changed nothing
                    assert(r1 is NoProgress && r2 is NoProgress && r3 is NoProgress);
                    assert(singleton_fixpoint(mid1.candidates@));
                    assert(board.candidates@ == mid1.candidates@);
                }
            }
        }
        if self.solved(board) {
            proof {
                assert(singleton_fixpoint(board.candidates@));
                crate::search::lemma_settled_solution(board.candidates@);
                let sol = crate::search::settled_grid(board.candidates@);
                assert(solution_in(sol, board.candidates@));
                assert forall|c: int| 0 <= c < 81 implies mask_has(
                    #[trigger] b00.candidates@[c],
                    sol[c],
                ) by {
                    assert(mask_has(board.candidates@[c], sol[c]));
                }
                assert(solution_in(sol, old(board).candidates@));
            }
            return true;
        }
        let mut fallback = CSPSolver::new();
        let ghost mid = *board;
        proof {
            assert(singleton_fixpoint(mid.candidates@));
        }
        let r = fallback.search(board);
        proof {
            lemma_shrink_trans(board.candidates@, mid.candidates@, b00.candidates@);
            if exists|sol: Seq<u8>| solution_in(sol, b00.candidates@) {
                let sol = choose|sol: Seq<u8>| solution_in(sol, b00.candidates@);
                assert(solution_in(sol, mid.candidates@));
                assert(r);
            }
            if r {
                assert(singleton_fixpoint(board.candidates@));
                assert(exists|s2: Seq<u8>| solution_in(s2, mid.candidates@));
                let sol = choose|sol: Seq<u8>| solution_in(sol, mid.candidates@);
                assert(solution_in(sol, mid.candidates@));
                assert forall|c: int| 0 <= c < 81 implies mask_has(
                    #[trigger] b00.candidates@[c],
                    sol[c],
                ) by {
                    assert(mask_has(mid.candidates@[c], sol[c]));
                }
                assert(solution_in(sol, old(board).candidates@));
            }
        }
        r
    }
}

impl crate::solver::Solver for RuleBasedSolver {
    fn solve(&mut self, board: &mut Sudoku) -> (r: bool) {
        self.solve_board(board)
    }

    fn name(&self) -> String {
        String::from_str("Rule Based Solver")
    }

    fn initialize_candidates(&mut self, board: &mut Sudoku) -> (ok: bool) {
        board.initialize_candidates_lw()
    }

    fn is_correct(&self, board: &mut Sudoku) -> (r: bool) {
        board.candidates_correct()
    }
}


/// With the two digits confined within a unit to exactly the two pair
/// cells, every solution drawn from the current domains fills those two
/// cells with exactly those digits.
proof fn lemma_hidden_pair_confined(
    cand: Seq<u16>,
    snap: Seq<u16>,
    u: int,
    uc: Seq<usize>,
    d1: u8,
    d2: u8,
    ca: int,
    cb: int,
    e: u8,
)
    requires
        0 <= u < 27,
        1 <= d1 <= 9,
        1 <= d2 <= 9,
        d1 != d2,
        e != d1,
        e != d2,
        uc.len() == 9,
        forall|k2: int| 0 <= k2 < 9 ==> #[trigger] uc[k2] == unit_cell_at(u, k2),
        cands_shrink(cand, snap),
        forall|k2: int| 0 <= k2 < 9 && (mask_has(#[trigger] snap[uc[k2] as int], d1) || mask_has(
            snap[uc[k2] as int],
            d2,
        )) ==> (uc[k2] == ca || uc[k2] == cb),
    ensures
        forall|sol: Seq<u8>| #[trigger] solution_in(sol, cand) ==> sol[ca] != e && sol[cb] != e,
{
    assert forall|sol: Seq<u8>| #[trigger] solution_in(sol, cand) implies sol[ca] != e && sol[cb]
        != e by {
        let k1 = lemma_solution_place(sol, cand, u, uc, d1);
        let k2 = lemma_solution_place(sol, cand, u, uc, d2);
        assert(mask_has(snap[uc[k1] as int], d1));
        assert(mask_has(snap[uc[k2] as int], d2));
        assert(uc[k1] == ca || uc[k1] == cb);
        assert(uc[k2] == ca || uc[k2] == cb);
        assert(sol[uc[k1] as int] == d1);
        assert(sol[uc[k2] as int] == d2);
        assert(uc[k1] != uc[k2]);
        assert(sol[ca] == d1 || sol[ca] == d2);
        assert(sol[cb] == d1 || sol[cb] == d2);
    }
}


/// Two cells at the same cross-position of two parallel lines are peers;
/// a valid solution giving the digit to one keeps it off the other.
proof fn lemma_cross_distinct(sol: Seq<u8>, base: int, la: int, lb: int, p: int, d: u8)
    requires
        base == 0 || base == 9,
        0 <= la < 9,
        0 <= lb < 9,
        la != lb,
        0 <= p < 9,
        sol.len() == 81,
        crate::board::board_solved(sol),
        sol[unit_cell_at(base + la, p)] == d,
        1 <= d <= 9,
    ensures
        sol[unit_cell_at(base + lb, p)] != d,
{
    lemma_line_cell_coords(base + la, p);
    lemma_line_cell_coords(base + lb, p);
    let ca = unit_cell_at(base + la, p);
    let cb = unit_cell_at(base + lb, p);
    assert(ca != cb);
    assert(is_peer(ca, cb));
}

/// A line whose places for the digit are exactly two positions has a
/// two-bit position mask marking exactly those.
proof fn lemma_xw_count(
    cand: Seq<u16>,
    base: int,
    d: u8,
    u1: int,
    p: int,
    q: int,
    pm1: u16,
    uc1: Seq<usize>,
)
    requires
        0 <= p < q < 9,
        uc1.len() == 9,
        forall|k2: int| 0 <= k2 < 9 ==> #[trigger] uc1[k2] == unit_cell_at(base + u1, k2),
        forall|k: int|
            0 <= k < 9 ==> (#[trigger] mask_has(cand[unit_cell_at(base + u1, k)], d) <==> (k == p
                || k == q)),
        forall|e: u8| #[trigger] mask_has(pm1, e) <==> (1 <= e <= 9 && mask_has(
            cand[uc1[e - 1] as int],
            d,
        )),
        mask_wf(pm1),
    ensures
        mask_count(pm1) == 2,
        forall|k: int| 0 <= k < 9 ==> (#[trigger] mask_has(pm1, (k + 1) as u8) <==> (k == p || k
            == q)),
{
    assert forall|k: int| 0 <= k < 9 implies (#[trigger] mask_has(pm1, (k + 1) as u8) <==> (k
        == p || k == q)) by {
        assert(uc1[k] == unit_cell_at(base + u1, k));
    }
    assert(mask_has(pm1, (p + 1) as u8));
    assert(mask_has(pm1, (q + 1) as u8));
    assert forall|e: u8| #[trigger] mask_has(pm1, e) implies e == (p + 1) as u8 || e == (q
        + 1) as u8 by {
        assert(uc1[e - 1] == unit_cell_at(base + u1, e - 1));
        assert(mask_has(pm1, ((e - 1) + 1) as u8) <==> (e - 1 == p || e - 1 == q));
    }
    crate::domain::lemma_count_two_exact(pm1, (p + 1) as u8, (q + 1) as u8);
}

/// The X-Wing cover: with the digit confined to the same two positions in
/// two parallel lines, no solution puts it at those positions of any other
/// parallel line.
proof fn lemma_xwing_covered(
    cand: Seq<u16>,
    snap1: Seq<u16>,
    snap: Seq<u16>,
    base: int,
    d: u8,
    u1: int,
    u2: int,
    uc1: Seq<usize>,
    uc2: Seq<usize>,
    uc3: Seq<usize>,
    pm: u16,
    u3: int,
    k: int,
)
    requires
        base == 0 || base == 9,
        1 <= d <= 9,
        0 <= u1 < 9,
        0 <= u2 < 9,
        u1 != u2,
        0 <= u3 < 9,
        u3 != u1,
        u3 != u2,
        0 <= k < 9,
        uc1.len() == 9,
        uc2.len() == 9,
        uc3.len() == 9,
        forall|k2: int| 0 <= k2 < 9 ==> #[trigger] uc1[k2] == unit_cell_at(base + u1, k2),
        forall|k2: int| 0 <= k2 < 9 ==> #[trigger] uc2[k2] == unit_cell_at(base + u2, k2),
        forall|k2: int| 0 <= k2 < 9 ==> #[trigger] uc3[k2] == unit_cell_at(base + u3, k2),
        mask_count(pm) == 2,
        mask_has(pm, (k + 1) as u8),
        forall|e: u8| #[trigger] mask_has(pm, e) <==> (1 <= e <= 9 && mask_has(
            snap1[uc1[e - 1] as int],
            d,
        )),
        forall|e: u8| #[trigger] mask_has(pm, e) <==> (1 <= e <= 9 && mask_has(
            snap[uc2[e - 1] as int],
            d,
        )),
        cands_shrink(cand, snap),
        cands_shrink(snap, snap1),
    ensures
        forall|sol: Seq<u8>| #[trigger] solution_in(sol, cand) ==> sol[uc3[k] as int] != d,
{
    assert forall|sol: Seq<u8>| #[trigger] solution_in(sol, cand) implies sol[uc3[k] as int]
        != d by {
        let k1 = lemma_solution_place(sol, cand, base + u1, uc1, d);
        let k2v = lemma_solution_place(sol, cand, base + u2, uc2, d);
        assert(mask_has(snap[uc1[k1] as int], d));
        assert(mask_has(snap1[uc1[k1] as int], d));
        assert(mask_has(pm, (k1 + 1) as u8));
        assert(mask_has(snap[uc2[k2v] as int], d));
        assert(mask_has(pm, (k2v + 1) as u8));
        if k1 == k2v {
            lemma_cross_distinct(sol, base, u1, u2, k1, d);
            assert(false);
        }
        lemma_pair_members(pm, (k1 + 1) as u8, (k2v + 1) as u8, (k + 1) as u8);
        if sol[uc3[k] as int] == d {
            if k == k1 {
                lemma_cross_distinct(sol, base, u3, u1, k, d);
            } else {
                lemma_cross_distinct(sol, base, u3, u2, k, d);
            }
            assert(false);
        }
    }
}


/// Three lines whose places together are exactly three positions have a
/// three-bit union mask marking exactly those, each line contributing.
proof fn lemma_sf_count(
    cand: Seq<u16>,
    base: int,
    d: u8,
    u1: int,
    u2: int,
    u3: int,
    p: int,
    q: int,
    r: int,
    pm1: u16,
    pm2: u16,
    pm3: u16,
    un: u16,
    uc1: Seq<usize>,
    uc2: Seq<usize>,
    uc3: Seq<usize>,
)
    requires
        sf_pattern(cand, base, d, u1, u2, u3, p, q, r),
        uc1.len() == 9,
        uc2.len() == 9,
        uc3.len() == 9,
        forall|k2: int| 0 <= k2 < 9 ==> #[trigger] uc1[k2] == unit_cell_at(base + u1, k2),
        forall|k2: int| 0 <= k2 < 9 ==> #[trigger] uc2[k2] == unit_cell_at(base + u2, k2),
        forall|k2: int| 0 <= k2 < 9 ==> #[trigger] uc3[k2] == unit_cell_at(base + u3, k2),
        forall|e: u8| #[trigger] mask_has(pm1, e) <==> (1 <= e <= 9 && mask_has(
            cand[uc1[e - 1] as int],
            d,
        )),
        forall|e: u8| #[trigger] mask_has(pm2, e) <==> (1 <= e <= 9 && mask_has(
            cand[uc2[e - 1] as int],
            d,
        )),
        forall|e: u8| #[trigger] mask_has(pm3, e) <==> (1 <= e <= 9 && mask_has(
            cand[uc3[e - 1] as int],
            d,
        )),
        un == (pm1 | pm2) | pm3,
    ensures
        mask_count(un) == 3,
        forall|k: int| 0 <= k < 9 ==> (#[trigger] mask_has(un, (k + 1) as u8) <==> (k == p || k
            == q || k == r)),
        pm1 != 0,
        pm2 != 0,
        pm3 != 0,
{
    assert forall|e: u8| #[trigger] mask_has(un, e) <==> (mask_has(pm1, e) || mask_has(pm2, e)
        || mask_has(pm3, e)) by {
        lemma_mask_or(pm1, pm2, e);
        lemma_mask_or(pm1 | pm2, pm3, e);
    }
    assert forall|k: int| 0 <= k < 9 implies (#[trigger] mask_has(un, (k + 1) as u8) <==> (k == p
        || k == q || k == r)) by {
        let e = (k + 1) as u8;
        assert(uc1[k] == unit_cell_at(base + u1, k));
        assert(uc2[k] == unit_cell_at(base + u2, k));
        assert(uc3[k] == unit_cell_at(base + u3, k));
        assert(mask_has(pm1, e) <==> mask_has(cand[unit_cell_at(base + u1, k)], d));
        assert(mask_has(pm2, e) <==> mask_has(cand[unit_cell_at(base + u2, k)], d));
        assert(mask_has(pm3, e) <==> mask_has(cand[unit_cell_at(base + u3, k)], d));
        assert((mask_has(cand[unit_cell_at(base + u1, k)], d) || mask_has(
            cand[unit_cell_at(base + u2, k)],
            d,
        ) || mask_has(cand[unit_cell_at(base + u3, k)], d)) <==> (k == p || k == q || k == r));
    }
    assert(mask_has(un, (p + 1) as u8));
    assert(mask_has(un, (q + 1) as u8));
    assert(mask_has(un, (r + 1) as u8));
    assert forall|e: u8| #[trigger] mask_has(un, e) implies e == (p + 1) as u8 || e == (q
        + 1) as u8 || e == (r + 1) as u8 by {
        assert(uc1[e - 1] == unit_cell_at(base + u1, e - 1));
        assert(uc2[e - 1] == unit_cell_at(base + u2, e - 1));
        assert(uc3[e - 1] == unit_cell_at(base + u3, e - 1));
        assert(mask_has(un, ((e - 1) + 1) as u8) <==> (e - 1 == p || e - 1 == q || e - 1 == r));
    }
    crate::domain::lemma_count_three_exact(un, (p + 1) as u8, (q + 1) as u8, (r + 1) as u8);
    let k1 = choose|k: int| 0 <= k < 9 && #[trigger] mask_has(cand[unit_cell_at(base + u1, k)], d);
    assert(mask_has(pm1, (k1 + 1) as u8));
    crate::domain::lemma_mask_has_nonzero(pm1, (k1 + 1) as u8);
    let k2 = choose|k: int| 0 <= k < 9 && #[trigger] mask_has(cand[unit_cell_at(base + u2, k)], d);
    assert(mask_has(pm2, (k2 + 1) as u8));
    crate::domain::lemma_mask_has_nonzero(pm2, (k2 + 1) as u8);
    let k3 = choose|k: int| 0 <= k < 9 && #[trigger] mask_has(cand[unit_cell_at(base + u3, k)], d);
    assert(mask_has(pm3, (k3 + 1) as u8));
    crate::domain::lemma_mask_has_nonzero(pm3, (k3 + 1) as u8);
}

/// The Swordfish cover: with the digit confined to three positions across
/// three parallel lines, no solution puts it at those positions of any
/// other parallel line.
#[verifier::rlimit(100)]
proof fn lemma_sword_covered(
    cand: Seq<u16>,
    snap1: Seq<u16>,
    snap2: Seq<u16>,
    snap3: Seq<u16>,
    base: int,
    d: u8,
    u1: int,
    u2: int,
    u3: int,
    uc1: Seq<usize>,
    uc2: Seq<usize>,
    uc3: Seq<usize>,
    uc4: Seq<usize>,
    pm1: u16,
    pm2: u16,
    pm3: u16,
    un: u16,
    u4: int,
    k: int,
)
    requires
        base == 0 || base == 9,
        1 <= d <= 9,
        0 <= u1 < 9,
        0 <= u2 < 9,
        0 <= u3 < 9,
        0 <= u4 < 9,
        u1 != u2,
        u1 != u3,
        u2 != u3,
        u4 != u1,
        u4 != u2,
        u4 != u3,
        0 <= k < 9,
        uc1.len() == 9,
        uc2.len() == 9,
        uc3.len() == 9,
        uc4.len() == 9,
        forall|k2: int| 0 <= k2 < 9 ==> #[trigger] uc1[k2] == unit_cell_at(base + u1, k2),
        forall|k2: int| 0 <= k2 < 9 ==> #[trigger] uc2[k2] == unit_cell_at(base + u2, k2),
        forall|k2: int| 0 <= k2 < 9 ==> #[trigger] uc3[k2] == unit_cell_at(base + u3, k2),
        forall|k2: int| 0 <= k2 < 9 ==> #[trigger] uc4[k2] == unit_cell_at(base + u4, k2),
        un == (pm1 | pm2) | pm3,
        mask_count(un) == 3,
        mask_has(un, (k + 1) as u8),
        forall|e: u8| #[trigger] mask_has(pm1, e) <==> (1 <= e <= 9 && mask_has(
            snap1[uc1[e - 1] as int],
            d,
        )),
        forall|e: u8| #[trigger] mask_has(pm2, e) <==> (1 <= e <= 9 && mask_has(
            snap2[uc2[e - 1] as int],
            d,
        )),
        forall|e: u8| #[trigger] mask_has(pm3, e) <==> (1 <= e <= 9 && mask_has(
            snap3[uc3[e - 1] as int],
            d,
        )),
        cands_shrink(cand, snap3),
        cands_shrink(snap3, snap2),
        cands_shrink(snap2, snap1),
    ensures
        forall|sol: Seq<u8>| #[trigger] solution_in(sol, cand) ==> sol[uc4[k] as int] != d,
{
    assert forall|sol: Seq<u8>| #[trigger] solution_in(sol, cand) implies sol[uc4[k] as int]
        != d by {
        let k1 = lemma_solution_place(sol, cand, base + u1, uc1, d);
        let k2v = lemma_solution_place(sol, cand, base + u2, uc2, d);
        let k3 = lemma_solution_place(sol, cand, base + u3, uc3, d);
        assert(mask_has(snap3[uc1[k1] as int], d));
        assert(mask_has(snap2[uc1[k1] as int], d));
        assert(mask_has(snap1[uc1[k1] as int], d));
        assert(mask_has(pm1, (k1 + 1) as u8));
        assert(mask_has(snap3[uc2[k2v] as int], d));
        assert(mask_has(snap2[uc2[k2v] as int], d));
        assert(mask_has(pm2, (k2v + 1) as u8));
        assert(mask_has(snap3[uc3[k3] as int], d));
        assert(mask_has(pm3, (k3 + 1) as u8));
        lemma_mask_or(pm1, pm2, (k1 + 1) as u8);
        lemma_mask_or(pm1 | pm2, pm3, (k1 + 1) as u8);
        lemma_mask_or(pm1, pm2, (k2v + 1) as u8);
        lemma_mask_or(pm1 | pm2, pm3, (k2v + 1) as u8);
        lemma_mask_or(pm1, pm2, (k3 + 1) as u8);
        lemma_mask_or(pm1 | pm2, pm3, (k3 + 1) as u8);
        if k1 == k2v {
            lemma_cross_distinct(sol, base, u1, u2, k1, d);
            assert(false);
        }
        if k1 == k3 {
            lemma_cross_distinct(sol, base, u1, u3, k1, d);
            assert(false);
        }
        if k2v == k3 {
            lemma_cross_distinct(sol, base, u2, u3, k2v, d);
            assert(false);
        }
        lemma_triple_members(un, (k1 + 1) as u8, (k2v + 1) as u8, (k3 + 1) as u8, (k + 1) as u8);
        if sol[uc4[k] as int] == d {
            if k == k1 {
                lemma_cross_distinct(sol, base, u1, u4, k, d);
            } else if k == k2v {
                lemma_cross_distinct(sol, base, u2, u4, k, d);
            } else {
                lemma_cross_distinct(sol, base, u3, u4, k, d);
            }
            assert(false);
        }
    }
}

} // verus!
