//! The fixed 9x9 topology: cells, units (rows, columns, boxes) and peers.
//!
//! A cell is identified by its flat index `row * 9 + col` in `0..81`.
//! A unit index in `0..27` denotes rows `0..9`, columns `9..18` and boxes
//! `18..27`. Two distinct cells are peers when they share a unit; every cell
//! has exactly 20 peers.

use vstd::prelude::*;

verus! {

/// Row of a flat cell index.
pub open spec fn cell_row(c: int) -> int {
    c / 9
}

/// Column of a flat cell index.
pub open spec fn cell_col(c: int) -> int {
    c % 9
}

/// Box (3x3 block) of a flat cell index, numbered row-major in `0..9`.
pub open spec fn cell_box(c: int) -> int {
    3 * (cell_row(c) / 3) + cell_col(c) / 3
}

pub open spec fn valid_cell(c: int) -> bool {
    0 <= c < 81
}

/// Two cells lie in a common unit (row, column or box).
pub open spec fn same_unit(a: int, b: int) -> bool {
    cell_row(a) == cell_row(b) || cell_col(a) == cell_col(b) || cell_box(a) == cell_box(b)
}

/// `b` is a peer of `a`: a distinct cell sharing at least one unit with `a`.
pub open spec fn is_peer(a: int, b: int) -> bool {
    valid_cell(a) && valid_cell(b) && a != b && same_unit(a, b)
}

/// Peer-set membership is symmetric.
pub proof fn lemma_peer_symmetric(a: int, b: int)
    ensures
        is_peer(a, b) <==> is_peer(b, a),
{
}

/// Two distinct cells of one unit are peers.
pub proof fn lemma_unit_peers(u: int, c1: int, c2: int)
    requires
        unit_member(u, c1),
        unit_member(u, c2),
        c1 != c2,
    ensures
        is_peer(c1, c2),
{
}

/// Membership of cell `c` in unit `u` (rows `0..9`, columns `9..18`,
/// boxes `18..27`).
pub open spec fn unit_member(u: int, c: int) -> bool {
    &&& 0 <= u < 27
    &&& valid_cell(c)
    &&& if u < 9 {
        cell_row(c) == u
    } else if u < 18 {
        cell_col(c) == u - 9
    } else {
        cell_box(c) == u - 18
    }
}

/// The `k`-th cell of unit `u`, for `k` in `0..9`.
pub open spec fn unit_cell_at(u: int, k: int) -> int {
    if u < 9 {
        9 * u + k
    } else if u < 18 {
        9 * k + (u - 9)
    } else {
        27 * ((u - 18) / 3) + 3 * ((u - 18) % 3) + 9 * (k / 3) + k % 3
    }
}

/// Two cells in a common unit, both on the same row, column or box as each
/// other exactly when the unit says so; a unit holds 9 pairwise distinct
/// cells.
pub fn unit_cells(u: usize) -> (v: Vec<usize>)
    requires
        u < 27,
    ensures
        v@.len() == 9,
        forall|k: int| 0 <= k < 9 ==> #[trigger] v@[k] == unit_cell_at(u as int, k),
        forall|k: int| 0 <= k < 9 ==> unit_member(u as int, #[trigger] v@[k] as int),
        forall|c: int| unit_member(u as int, c) ==> exists|k: int|
            0 <= k < 9 && #[trigger] v@[k] == c,
        forall|k1: int, k2: int| 0 <= k1 < k2 < 9 ==> v@[k1] != v@[k2],
{
    let mut v: Vec<usize> = Vec::new();
    if u < 9 {
        for k in 0..9
            invariant
                u < 9,
                v@.len() == k,
                forall|i: int| 0 <= i < k ==> #[trigger] v@[i] == 9 * (u as int) + i,
        {
            v.push(9 * u + k);
        }
        proof {
            assert forall|c: int| unit_member(u as int, c) implies exists|k: int|
                0 <= k < 9 && #[trigger] v@[k] == c by {
                let k = cell_col(c);
                assert(c == 9 * (c / 9) + c % 9);
                assert(v@[k] == c);
            }
        }
    } else if u < 18 {
        let col = u - 9;
        for k in 0..9
            invariant
                col == u - 9,
                u < 18,
                9 <= u,
                v@.len() == k,
                forall|i: int| 0 <= i < k ==> #[trigger] v@[i] == 9 * i + (col as int),
        {
            v.push(9 * k + col);
        }
        proof {
            assert forall|c: int| unit_member(u as int, c) implies exists|k: int|
                0 <= k < 9 && #[trigger] v@[k] == c by {
                let k = cell_row(c);
                assert(c == 9 * (c / 9) + c % 9);
                assert(v@[k] == c);
            }
        }
    } else {
        let b = u - 18;
        let base = (b / 3) * 27 + (b % 3) * 3;
        for k in 0..9
            invariant
                b == u - 18,
                u < 27,
                18 <= u,
                base == (b / 3) * 27 + (b % 3) * 3,
                v@.len() == k,
                forall|i: int| 0 <= i < k ==> #[trigger] v@[i] == (base as int) + 9 * (i / 3)
                    + i % 3,
        {
            v.push(base + 9 * (k / 3) + k % 3);
        }
        proof {
            let bi = b as int;
            assert forall|k: int| 0 <= k < 9 implies unit_member(
                u as int,
                #[trigger] v@[k] as int,
            ) by {
                let c = v@[k] as int;
                assert(c == 27 * (bi / 3) + 3 * (bi % 3) + 9 * (k / 3) + k % 3);
                assert(cell_row(c) == 3 * (bi / 3) + k / 3) by (nonlinear_arith)
                    requires
                        c == 27 * (bi / 3) + 3 * (bi % 3) + 9 * (k / 3) + k % 3,
                        0 <= bi < 9,
                        0 <= k < 9,
                ;
                assert(cell_col(c) == 3 * (bi % 3) + k % 3) by (nonlinear_arith)
                    requires
                        c == 27 * (bi / 3) + 3 * (bi % 3) + 9 * (k / 3) + k % 3,
                        0 <= bi < 9,
                        0 <= k < 9,
                ;
                assert(cell_box(c) == bi) by (nonlinear_arith)
                    requires
                        cell_row(c) == 3 * (bi / 3) + k / 3,
                        cell_col(c) == 3 * (bi % 3) + k % 3,
                        cell_box(c) == 3 * (cell_row(c) / 3) + cell_col(c) / 3,
                        0 <= bi < 9,
                        0 <= k < 9,
                ;
            }
            assert forall|c: int| unit_member(u as int, c) implies exists|k: int|
                0 <= k < 9 && #[trigger] v@[k] == c by {
                let r = cell_row(c);
                let cc = cell_col(c);
                let k = 3 * (r % 3) + cc % 3;
                assert(cell_box(c) == bi);
                assert(3 * (r / 3) + cc / 3 == bi);
                assert(r / 3 == bi / 3 && cc / 3 == bi % 3) by (nonlinear_arith)
                    requires
                        3 * (r / 3) + cc / 3 == bi,
                        0 <= r < 9,
                        0 <= cc < 9,
                        0 <= bi < 9,
                ;
                assert(c == 9 * r + cc);
                assert(r == 3 * (r / 3) + r % 3);
                assert(cc == 3 * (cc / 3) + cc % 3);
                assert(v@[k] == (base as int) + 9 * (k / 3) + k % 3);
                assert(k / 3 == r % 3 && k % 3 == cc % 3) by (nonlinear_arith)
                    requires
                        k == 3 * (r % 3) + cc % 3,
                        0 <= r % 3 < 3,
                        0 <= cc % 3 < 3,
                ;
                assert(v@[k] == c);
            }
        }
    }
    v
}

/// The three unit indices that a cell belongs to: its row, its column and
/// its box.
pub fn units_of(c: usize) -> (us: Vec<usize>)
    requires
        c < 81,
    ensures
        us@.len() == 3,
        forall|j: int| 0 <= j < 3 ==> unit_member(#[trigger] us@[j] as int, c as int),
        us@[0] == cell_row(c as int),
        us@[1] == cell_col(c as int) + 9,
        us@[2] == cell_box(c as int) + 18,
{
    let row = c / 9;
    let col = c % 9;
    let bx = 3 * (row / 3) + col / 3;
    let mut us: Vec<usize> = Vec::new();
    us.push(row);
    us.push(col + 9);
    us.push(bx + 18);
    us
}


/// Whether `b` is a peer of `a`, decided from the coordinates.
pub fn is_peer_exec(a: usize, b: usize) -> (r: bool)
    requires
        a < 81,
        b < 81,
    ensures
        r == is_peer(a as int, b as int),
{
    if a == b {
        return false;
    }
    let ra = a / 9;
    let ca = a % 9;
    let rb = b / 9;
    let cb = b % 9;
    ra == rb || ca == cb || (3 * (ra / 3) + ca / 3) == (3 * (rb / 3) + cb / 3)
}

/// The two other row (or column) indices sharing a band of three with `x`,
/// in increasing order.
pub open spec fn band_others(x: int, x1: int, x2: int) -> bool {
    let b = 3 * (x / 3);
    if b == x {
        x1 == b + 1 && x2 == b + 2
    } else if b + 1 == x {
        x1 == b && x2 == b + 2
    } else {
        x1 == b && x2 == b + 1
    }
}

proof fn lemma_band_others(x: int, x1: int, x2: int)
    requires
        0 <= x < 9,
        band_others(x, x1, x2),
    ensures
        0 <= x1 < 9,
        0 <= x2 < 9,
        x1 != x,
        x2 != x,
        x1 < x2,
        x1 / 3 == x / 3,
        x2 / 3 == x / 3,
        forall|y: int| 0 <= y < 9 && y != x && #[trigger] (y / 3) == x / 3 ==> y == x1 || y == x2,
{
    assert forall|y: int| 0 <= y < 9 && y != x && #[trigger] (y / 3) == x / 3 implies y == x1 || y
        == x2 by {
        assert(y == 3 * (y / 3) + y % 3);
        assert(x == 3 * (x / 3) + x % 3);
    }
}

proof fn lemma_cell_split(b: int, r: int, cl: int)
    requires
        b == 9 * r + cl,
        0 <= cl < 9,
        0 <= r < 9,
    ensures
        cell_row(b) == r,
        cell_col(b) == cl,
        valid_cell(b),
{
    assert(b / 9 == r && b % 9 == cl) by (nonlinear_arith)
        requires
            b == 9 * r + cl,
            0 <= cl < 9,
            0 <= r < 9,
    ;
}

/// The layout of a freshly built peer list: the 8 row peers, the 8 column
/// peers, then the 4 remaining box peers.
spec fn peers_shape(ci: int, r1: int, r2: int, c1: int, c2: int, s: Seq<usize>) -> bool {
    let ri = cell_row(ci);
    let cli = cell_col(ci);
    &&& s.len() == 20
    &&& forall|k: int|
        0 <= k < 8 ==> #[trigger] s[k] == 9 * ri + (
        if k < cli {
            k
        } else {
            k + 1
        })
    &&& forall|k: int|
        8 <= k < 16 ==> #[trigger] s[k] == 9 * (
        if k - 8 < ri {
            k - 8
        } else {
            k - 7
        }) + cli
    &&& s[16] == 9 * r1 + c1
    &&& s[17] == 9 * r1 + c2
    &&& s[18] == 9 * r2 + c1
    &&& s[19] == 9 * r2 + c2
}

/// Coordinates of every entry of a peer list of that shape.
spec fn peers_coords(ci: int, r1: int, r2: int, c1: int, c2: int, s: Seq<usize>) -> bool {
    let ri = cell_row(ci);
    let cli = cell_col(ci);
    &&& s.len() == 20
    &&& forall|k: int|
        0 <= k < 8 ==> cell_row(#[trigger] s[k] as int) == ri && cell_col(s[k] as int) == (
        if k < cli {
            k
        } else {
            k + 1
        }) && valid_cell(s[k] as int)
    &&& forall|k: int|
        8 <= k < 16 ==> cell_col(#[trigger] s[k] as int) == cli && cell_row(s[k] as int) == (
        if k - 8 < ri {
            k - 8
        } else {
            k - 7
        }) && valid_cell(s[k] as int)
    &&& forall|k: int|
        16 <= k < 20 ==> cell_row(#[trigger] s[k] as int) == (
        if k < 18 {
            r1
        } else {
            r2
        }) && cell_col(s[k] as int) == (
        if k % 2 == 0 {
            c1
        } else {
            c2
        }) && valid_cell(s[k] as int)
}

proof fn lemma_peers_coords(ci: int, r1: int, r2: int, c1: int, c2: int, s: Seq<usize>)
    requires
        valid_cell(ci),
        peers_shape(ci, r1, r2, c1, c2, s),
        band_others(cell_row(ci), r1, r2),
        band_others(cell_col(ci), c1, c2),
    ensures
        peers_coords(ci, r1, r2, c1, c2, s),
{
    let ri = cell_row(ci);
    let cli = cell_col(ci);
    lemma_band_others(ri, r1, r2);
    lemma_band_others(cli, c1, c2);
    assert forall|k: int| 0 <= k < 8 implies cell_row(#[trigger] s[k] as int) == ri && cell_col(
        s[k] as int,
    ) == (
    if k < cli {
        k
    } else {
        k + 1
    }) && valid_cell(s[k] as int) by {
        lemma_cell_split(s[k] as int, ri, if k < cli { k } else { k + 1 });
    }
    assert forall|k: int| 8 <= k < 16 implies cell_col(#[trigger] s[k] as int) == cli && cell_row(
        s[k] as int,
    ) == (
    if k - 8 < ri {
        k - 8
    } else {
        k - 7
    }) && valid_cell(s[k] as int) by {
        lemma_cell_split(s[k] as int, if k - 8 < ri { k - 8 } else { k - 7 }, cli);
    }
    assert forall|k: int| 16 <= k < 20 implies cell_row(#[trigger] s[k] as int) == (
    if k < 18 {
        r1
    } else {
        r2
    }) && cell_col(s[k] as int) == (
    if k % 2 == 0 {
        c1
    } else {
        c2
    }) && valid_cell(s[k] as int) by {
        lemma_cell_split(
            s[k] as int,
            if k < 18 {
                r1
            } else {
                r2
            },
            if k % 2 == 0 {
                c1
            } else {
                c2
            },
        );
    }
}

proof fn lemma_peers_sound(ci: int, r1: int, r2: int, c1: int, c2: int, s: Seq<usize>)
    requires
        valid_cell(ci),
        peers_coords(ci, r1, r2, c1, c2, s),
        band_others(cell_row(ci), r1, r2),
        band_others(cell_col(ci), c1, c2),
    ensures
        forall|k: int| 0 <= k < 20 ==> is_peer(ci, #[trigger] s[k] as int),
{
    let ri = cell_row(ci);
    let cli = cell_col(ci);
    lemma_band_others(ri, r1, r2);
    lemma_band_others(cli, c1, c2);
    assert(ci == 9 * ri + cli);
    assert forall|k: int| 0 <= k < 20 implies is_peer(ci, #[trigger] s[k] as int) by {
        let b = s[k] as int;
        assert(b == 9 * cell_row(b) + cell_col(b));
        if k < 8 {
            assert(cell_col(b) != cli);
        } else if k < 16 {
            assert(cell_row(b) != ri);
        } else {
            assert(cell_row(b) != ri && cell_col(b) != cli);
            assert(cell_box(b) == cell_box(ci));
        }
    }
}

proof fn lemma_peers_complete(ci: int, r1: int, r2: int, c1: int, c2: int, s: Seq<usize>)
    requires
        valid_cell(ci),
        peers_shape(ci, r1, r2, c1, c2, s),
        band_others(cell_row(ci), r1, r2),
        band_others(cell_col(ci), c1, c2),
    ensures
        forall|b: int| is_peer(ci, b) ==> exists|k: int| 0 <= k < 20 && #[trigger] s[k] == b,
{
    let ri = cell_row(ci);
    let cli = cell_col(ci);
    lemma_band_others(ri, r1, r2);
    lemma_band_others(cli, c1, c2);
    assert forall|b: int| is_peer(ci, b) implies exists|k: int|
        0 <= k < 20 && #[trigger] s[k] == b by {
        let br = cell_row(b);
        let bc = cell_col(b);
        assert(b == 9 * br + bc);
        assert(ci == 9 * ri + cli);
        if br == ri {
            assert(bc != cli);
            let k = if bc < cli {
                bc
            } else {
                bc - 1
            };
            assert(s[k] == b);
        } else if bc == cli {
            let k = 8 + if br < ri {
                br
            } else {
                br - 1
            };
            assert(s[k] == b);
        } else {
            assert(cell_box(b) == cell_box(ci));
            assert(br / 3 == ri / 3 && bc / 3 == cli / 3);
            assert(br == r1 || br == r2);
            assert(bc == c1 || bc == c2);
            if br == r1 && bc == c1 {
                assert(s[16] == b);
            } else if br == r1 && bc == c2 {
                assert(s[17] == b);
            } else if br == r2 && bc == c1 {
                assert(s[18] == b);
            } else {
                assert(s[19] == b);
            }
        }
    }
}

proof fn lemma_peers_distinct(ci: int, r1: int, r2: int, c1: int, c2: int, s: Seq<usize>)
    requires
        valid_cell(ci),
        peers_coords(ci, r1, r2, c1, c2, s),
        band_others(cell_row(ci), r1, r2),
        band_others(cell_col(ci), c1, c2),
    ensures
        forall|k1: int, k2: int| 0 <= k1 < k2 < 20 ==> s[k1] != s[k2],
{
    let ri = cell_row(ci);
    let cli = cell_col(ci);
    lemma_band_others(ri, r1, r2);
    lemma_band_others(cli, c1, c2);
    assert forall|k1: int, k2: int| 0 <= k1 < k2 < 20 implies s[k1] != s[k2] by {
        let a = s[k1] as int;
        let b = s[k2] as int;
        assert(a == 9 * cell_row(a) + cell_col(a));
        assert(b == 9 * cell_row(b) + cell_col(b));
    }
}

/// The 20 peers of a cell: the 8 other cells of its row, the 8 other cells
/// of its column, and the 4 cells of its box lying on neither.
pub fn peers_of(c: usize) -> (ps: Vec<usize>)
    requires
        c < 81,
    ensures
        ps@.len() == 20,
        forall|k: int| 0 <= k < 20 ==> is_peer(c as int, #[trigger] ps@[k] as int),
        forall|b: int| is_peer(c as int, b) ==> exists|k: int|
            0 <= k < 20 && #[trigger] ps@[k] == b,
        forall|k1: int, k2: int| 0 <= k1 < k2 < 20 ==> ps@[k1] != ps@[k2],
{
    let row = c / 9;
    let col = c % 9;
    let brow = 3 * (row / 3);
    let bcol = 3 * (col / 3);
    let mut ps: Vec<usize> = Vec::new();
    for j in 0..9
        invariant
            row == c as int / 9,
            col == c as int % 9,
            c < 81,
            ps@.len() == if j <= col {
                j as int
            } else {
                j - 1
            },
            forall|k: int| 0 <= k < ps@.len() ==> #[trigger] ps@[k] == 9 * (row as int) + (
            if k < col {
                k
            } else {
                k + 1
            }),
    {
        if j != col {
            ps.push(9 * row + j);
        }
    }
    for i in 0..9
        invariant
            row == c as int / 9,
            col == c as int % 9,
            c < 81,
            ps@.len() == 8 + if i <= row {
                i as int
            } else {
                i - 1
            },
            forall|k: int| 0 <= k < 8 ==> #[trigger] ps@[k] == 9 * (row as int) + (
            if k < col {
                k
            } else {
                k + 1
            }),
            forall|k: int| 8 <= k < ps@.len() ==> #[trigger] ps@[k] == 9 * (
            if k - 8 < row {
                k - 8
            } else {
                k - 7
            }) + col,
    {
        if i != row {
            ps.push(9 * i + col);
        }
    }
    let (r1, r2) = if brow == row {
        (brow + 1, brow + 2)
    } else if brow + 1 == row {
        (brow, brow + 2)
    } else {
        (brow, brow + 1)
    };
    let (c1, c2) = if bcol == col {
        (bcol + 1, bcol + 2)
    } else if bcol + 1 == col {
        (bcol, bcol + 2)
    } else {
        (bcol, bcol + 1)
    };
    ps.push(9 * r1 + c1);
    ps.push(9 * r1 + c2);
    ps.push(9 * r2 + c1);
    ps.push(9 * r2 + c2);
    proof {
        let ci = c as int;
        assert(ci == 9 * (ci / 9) + ci % 9);
        assert(peers_shape(ci, r1 as int, r2 as int, c1 as int, c2 as int, ps@));
        assert(band_others(cell_row(ci), r1 as int, r2 as int));
        assert(band_others(cell_col(ci), c1 as int, c2 as int));
        lemma_peers_coords(ci, r1 as int, r2 as int, c1 as int, c2 as int, ps@);
        lemma_peers_sound(ci, r1 as int, r2 as int, c1 as int, c2 as int, ps@);
        lemma_peers_complete(ci, r1 as int, r2 as int, c1 as int, c2 as int, ps@);
        lemma_peers_distinct(ci, r1 as int, r2 as int, c1 as int, c2 as int, ps@);
    }
    ps
}


/// The row of a cell, computed.
pub fn row_of(c: usize) -> (r: usize)
    requires
        c < 81,
    ensures
        r == cell_row(c as int),
        r < 9,
{
    proof {
        assert(c as int / 9 < 9) by (nonlinear_arith)
            requires
                c < 81,
        ;
    }
    c / 9
}

/// The column of a cell, computed.
pub fn col_of(c: usize) -> (r: usize)
    requires
        c < 81,
    ensures
        r == cell_col(c as int),
        r < 9,
{
    c % 9
}

/// The box of a cell, computed.
pub fn box_of(c: usize) -> (r: usize)
    requires
        c < 81,
    ensures
        r == cell_box(c as int),
        r < 9,
{
    let row = row_of(c);
    let col = col_of(c);
    3 * (row / 3) + col / 3
}

/// The coordinates of a line unit's cells: a row unit's `k`-th cell sits
/// at column `k`; a column unit's `k`-th cell sits at row `k`.
pub proof fn lemma_line_cell_coords(u: int, k: int)
    requires
        0 <= u < 18,
        0 <= k < 9,
    ensures
        u < 9 ==> cell_row(unit_cell_at(u, k)) == u && cell_col(unit_cell_at(u, k)) == k,
        u >= 9 ==> cell_row(unit_cell_at(u, k)) == k && cell_col(unit_cell_at(u, k)) == u - 9,
        valid_cell(unit_cell_at(u, k)),
{
    let c = unit_cell_at(u, k);
    if u < 9 {
        assert(cell_row(c) == u && cell_col(c) == k) by (nonlinear_arith)
            requires
                c == 9 * u + k,
                0 <= u < 9,
                0 <= k < 9,
                cell_row(c) == c / 9,
                cell_col(c) == c % 9,
        ;
    } else {
        assert(cell_row(c) == k && cell_col(c) == u - 9) by (nonlinear_arith)
            requires
                c == 9 * k + (u - 9),
                9 <= u < 18,
                0 <= k < 9,
                cell_row(c) == c / 9,
                cell_col(c) == c % 9,
        ;
    }
}

} // verus!
