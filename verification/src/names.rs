//! Textual cell names ("A1".."I9") and the characters of puzzle strings.

use vstd::prelude::*;

verus! {

/// Relies on std's `String::push`: appends exactly the one character.
#[verifier::external_body]
pub fn push_char(s: &mut String, c: char)
    ensures
        final(s)@ == old(s)@.push(c),
{
    s.push(c);
}

/// The character rendering digit `d`: '1'..'9', or '.' for a blank (0).
pub open spec fn digit_char(d: u8) -> char {
    if d == 1 {
        '1'
    } else if d == 2 {
        '2'
    } else if d == 3 {
        '3'
    } else if d == 4 {
        '4'
    } else if d == 5 {
        '5'
    } else if d == 6 {
        '6'
    } else if d == 7 {
        '7'
    } else if d == 8 {
        '8'
    } else if d == 9 {
        '9'
    } else {
        '.'
    }
}

/// The digit a puzzle character denotes; 0 both for the blank '.' and for
/// any character that is no digit at all.
pub open spec fn char_value(ch: char) -> u8 {
    if ch == '1' {
        1
    } else if ch == '2' {
        2
    } else if ch == '3' {
        3
    } else if ch == '4' {
        4
    } else if ch == '5' {
        5
    } else if ch == '6' {
        6
    } else if ch == '7' {
        7
    } else if ch == '8' {
        8
    } else if ch == '9' {
        9
    } else {
        0
    }
}

/// A character a puzzle string may hold: a digit '1'..'9' or the blank '.'.
pub open spec fn valid_puzzle_char(ch: char) -> bool {
    ch == '.' || char_value(ch) != 0
}

/// The row letter of row index `r`: 'A'..'I'.
pub open spec fn row_char(r: int) -> char {
    if r == 0 {
        'A'
    } else if r == 1 {
        'B'
    } else if r == 2 {
        'C'
    } else if r == 3 {
        'D'
    } else if r == 4 {
        'E'
    } else if r == 5 {
        'F'
    } else if r == 6 {
        'G'
    } else if r == 7 {
        'H'
    } else {
        'I'
    }
}

/// The column character of column index `c`: '1'..'9'.
pub open spec fn col_char(c: int) -> char {
    digit_char((c + 1) as u8)
}

/// Rendering a digit and reading the character back is the identity.
pub proof fn lemma_digit_char_value(d: u8)
    requires
        d <= 9,
    ensures
        char_value(digit_char(d)) == d,
        valid_puzzle_char(digit_char(d)),
{
}

/// Reading a valid puzzle character and rendering the digit back is the
/// identity.
pub proof fn lemma_char_value_digit(ch: char)
    requires
        valid_puzzle_char(ch),
    ensures
        digit_char(char_value(ch)) == ch,
        char_value(ch) <= 9,
{
}

fn digit_to_char(d: u8) -> (ch: char)
    requires
        d <= 9,
    ensures
        ch == digit_char(d),
{
    if d == 1 {
        '1'
    } else if d == 2 {
        '2'
    } else if d == 3 {
        '3'
    } else if d == 4 {
        '4'
    } else if d == 5 {
        '5'
    } else if d == 6 {
        '6'
    } else if d == 7 {
        '7'
    } else if d == 8 {
        '8'
    } else if d == 9 {
        '9'
    } else {
        '.'
    }
}

fn row_to_char(r: usize) -> (ch: char)
    requires
        r < 9,
    ensures
        ch == row_char(r as int),
{
    if r == 0 {
        'A'
    } else if r == 1 {
        'B'
    } else if r == 2 {
        'C'
    } else if r == 3 {
        'D'
    } else if r == 4 {
        'E'
    } else if r == 5 {
        'F'
    } else if r == 6 {
        'G'
    } else if r == 7 {
        'H'
    } else {
        'I'
    }
}

/// The name of the cell at the given coordinates: a row letter 'A'..'I'
/// followed by a column character '1'..'9'.
pub fn coords_to_cell(row: usize, col: usize) -> (s: String)
    requires
        row < 9,
        col < 9,
    ensures
        s@.len() == 2,
        s@[0] == row_char(row as int),
        s@[1] == col_char(col as int),
{
    let mut s = String::new();
    push_char(&mut s, row_to_char(row));
    push_char(&mut s, digit_to_char(col as u8 + 1));
    s
}

/// The coordinates of a named cell: the inverse of `coords_to_cell`.
pub fn cell_to_coords(cell: &str) -> (rc: (usize, usize))
    requires
        cell@.len() == 2,
        exists|r: int| 0 <= r < 9 && cell@[0] == row_char(r),
        exists|c: int| 0 <= c < 9 && cell@[1] == col_char(c),
    ensures
        rc.0 < 9,
        rc.1 < 9,
        cell@[0] == row_char(rc.0 as int),
        cell@[1] == col_char(rc.1 as int),
{
    let ch0 = cell.get_char(0);
    let ch1 = cell.get_char(1);
    let row: usize = if ch0 == 'A' {
        0
    } else if ch0 == 'B' {
        1
    } else if ch0 == 'C' {
        2
    } else if ch0 == 'D' {
        3
    } else if ch0 == 'E' {
        4
    } else if ch0 == 'F' {
        5
    } else if ch0 == 'G' {
        6
    } else if ch0 == 'H' {
        7
    } else {
        8
    };
    let col: usize = if ch1 == '1' {
        0
    } else if ch1 == '2' {
        1
    } else if ch1 == '3' {
        2
    } else if ch1 == '4' {
        3
    } else if ch1 == '5' {
        4
    } else if ch1 == '6' {
        5
    } else if ch1 == '7' {
        6
    } else if ch1 == '8' {
        7
    } else {
        8
    };
    proof {
        let r0 = choose|r: int| 0 <= r < 9 && cell@[0] == row_char(r);
        let c0 = choose|c: int| 0 <= c < 9 && cell@[1] == col_char(c);
        assert(row == r0);
        assert(col == c0);
    }
    (row, col)
}

/// Every two-character combination of a row name from `a` and a column name
/// from `b`, in row-major order.
pub fn cross(a: &Vec<char>, b: &Vec<char>) -> (v: Vec<String>)
    requires
        a@.len() * b@.len() <= usize::MAX,
    ensures
        v@.len() == a@.len() * b@.len(),
        forall|i: int, j: int| 0 <= i < a@.len() && 0 <= j < b@.len() ==> {
            let s = #[trigger] v@[i * b@.len() + j];
            s@ == seq![a@[i], b@[j]]
        },
{
    let mut v: Vec<String> = Vec::new();
    let alen = a.len();
    let blen = b.len();
    for i in 0..alen
        invariant
            alen == a@.len(),
            blen == b@.len(),
            alen * blen <= usize::MAX,
            v@.len() == i * blen,
            forall|i2: int, j2: int| 0 <= i2 < i && 0 <= j2 < blen ==> {
                let s = #[trigger] v@[i2 * (blen as int) + j2];
                s@ == seq![a@[i2], b@[j2]]
            },
    {
        proof {
            assert((i + 1) * blen == i * blen + blen) by (nonlinear_arith);
            assert((i + 1) * (blen as int) <= (alen as int) * (blen as int)) by (nonlinear_arith)
                requires
                    i + 1 <= alen as int,
                    blen as int >= 0,
            ;
        }
        for j in 0..blen
            invariant
                alen == a@.len(),
                blen == b@.len(),
                i < alen,
                (i + 1) * blen <= alen * blen,
                alen * blen <= usize::MAX,
                (i + 1) * (blen as int) == i * (blen as int) + blen,
                v@.len() == i * blen + j,
                forall|i2: int, j2: int| 0 <= i2 < i && 0 <= j2 < blen ==> {
                    let s = #[trigger] v@[i2 * (blen as int) + j2];
                    s@ == seq![a@[i2], b@[j2]]
                },
                forall|j2: int| 0 <= j2 < j ==> {
                    let s = #[trigger] v@[i * (blen as int) + j2];
                    s@ == seq![a@[i as int], b@[j2]]
                },
        {
            let mut s = String::new();
            push_char(&mut s, a[i]);
            push_char(&mut s, b[j]);
            proof {
                assert(s@ =~= seq![a@[i as int], b@[j as int]]);
            }
            v.push(s);
            proof {
                assert forall|i2: int, j2: int| 0 <= i2 < i && 0 <= j2 < blen implies {
                    let s2 = #[trigger] v@[i2 * (blen as int) + j2];
                    s2@ == seq![a@[i2], b@[j2]]
                } by {
                    assert(i2 * (blen as int) + j2 < i * (blen as int)) by (nonlinear_arith)
                        requires
                            0 <= i2 < i as int,
                            0 <= j2 < blen as int,
                    ;
                }
            }
        }
    }
    proof {
        assert(v@.len() == (alen as int) * (blen as int));
    }
    v
}

} // verus!
