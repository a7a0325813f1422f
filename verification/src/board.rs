//! The board: a 9x9 grid of assigned digits (0 = blank) together with the
//! per-cell candidate domains that the candidate-based strategies maintain.

use vstd::prelude::*;
use vstd::pervasive::VecAdditionalExecFns;

use crate::domain::{mask_wf, mask_count, FULL_MASK, lemma_mask_full};
use crate::names::{
    digit_char, char_value, valid_puzzle_char, push_char, lemma_digit_char_value,
    lemma_char_value_digit,
};
use crate::topology::is_peer;

verus! {

/// Why a puzzle string was rejected.
#[derive(Clone, Copy, Debug, PartialEq, Eq, Structural)]
pub enum ParseError {
    /// The string does not hold exactly 81 characters.
    BadLength,
    /// Some character is neither a digit '1'..'9' nor the blank '.'.
    BadChar,
}

impl ParseError {
    /// A description of the rejection.
    pub fn message(&self) -> (s: String)
        ensures
            self is BadLength ==> s@ == "puzzle string must be 81 characters long"@,
            self is BadChar ==> s@
                == "each character must be a digit from 1 to 9 or a dot"@,
    {
        match self {
            ParseError::BadLength => String::from_str("puzzle string must be 81 characters long"),
            ParseError::BadChar => String::from_str(
                "each character must be a digit from 1 to 9 or a dot",
            ),
        }
    }
}

/// A well-formed grid: 81 entries, each a digit 0..=9.
pub open spec fn board_wf(b: Seq<u8>) -> bool {
    b.len() == 81 && forall|c: int| 0 <= c < 81 ==> b[c] <= 9
}

/// No two peers carry the same non-zero digit: every row, column and box
/// holds each digit at most once.
pub open spec fn board_partial_valid(b: Seq<u8>) -> bool {
    forall|c1: int, c2: int| #[trigger] is_peer(c1, c2) && b[c1] != 0 ==> b[c1] != b[c2]
}

/// A full solution: valid and with no blank cell.
pub open spec fn board_solved(b: Seq<u8>) -> bool {
    board_partial_valid(b) && forall|c: int| 0 <= c < 81 ==> b[c] != 0
}

/// A complete valid solution that extends the given partial grid.
pub open spec fn solution_of(sol: Seq<u8>, b: Seq<u8>) -> bool {
    &&& sol.len() == 81
    &&& board_solved(sol)
    &&& forall|c: int| 0 <= c < 81 ==> #[trigger] sol[c] <= 9
    &&& forall|c: int| 0 <= c < 81 && b[c] != 0 ==> #[trigger] sol[c] == b[c]
}

/// A valid puzzle string: 81 characters, each a digit or the blank '.'.
pub open spec fn valid_puzzle(s: Seq<char>) -> bool {
    s.len() == 81 && forall|i: int| 0 <= i < 81 ==> valid_puzzle_char(#[trigger] s[i])
}

/// The grid a puzzle string denotes.
pub open spec fn parsed_board(s: Seq<char>) -> Seq<u8> {
    Seq::new(81, |i: int| char_value(s[i]))
}

/// The puzzle string a grid denotes; blanks render as '.'.
pub open spec fn rendered_board(b: Seq<u8>) -> Seq<char> {
    Seq::new(81, |i: int| digit_char(b[i]))
}

/// Round trip: parsing a valid puzzle string and rendering the resulting
/// grid reproduces the string exactly.
pub proof fn lemma_parse_render_round_trip(s: Seq<char>)
    requires
        valid_puzzle(s),
    ensures
        rendered_board(parsed_board(s)) == s,
{
    assert forall|i: int| 0 <= i < 81 implies rendered_board(parsed_board(s))[i] == s[i] by {
        lemma_char_value_digit(s[i]);
    }
    assert(rendered_board(parsed_board(s)) =~= s);
}

/// Round trip the other way: rendering a grid and parsing the string back
/// reproduces the grid exactly.
pub proof fn lemma_render_parse_round_trip(b: Seq<u8>)
    requires
        board_wf(b),
    ensures
        valid_puzzle(rendered_board(b)),
        parsed_board(rendered_board(b)) == b,
{
    assert forall|i: int| 0 <= i < 81 implies valid_puzzle_char(
        #[trigger] rendered_board(b)[i],
    ) && parsed_board(rendered_board(b))[i] == b[i] by {
        lemma_digit_char_value(b[i]);
    }
    assert(parsed_board(rendered_board(b)) =~= b);
}


/// How many of the first `n` cells are blank.
pub open spec fn zeros_upto(b: Seq<u8>, n: int) -> nat
    decreases n,
{
    if n <= 0 {
        0
    } else {
        zeros_upto(b, n - 1) + if b[n - 1] == 0 {
            1nat
        } else {
            0nat
        }
    }
}

/// How many cells of the board are blank.
pub open spec fn zeros(b: Seq<u8>) -> nat {
    zeros_upto(b, 81)
}

/// The blank count grows with the bound.
pub proof fn lemma_zeros_upto_le(b: Seq<u8>, k1: int, k2: int)
    requires
        k1 <= k2,
    ensures
        zeros_upto(b, k1) <= zeros_upto(b, k2),
    decreases k2 - k1,
{
    if k1 < k2 {
        lemma_zeros_upto_le(b, k1, k2 - 1);
    }
}

/// Filling one blank cell lowers the blank count by one.
pub proof fn lemma_zeros_fill(b: Seq<u8>, c: int, v: u8, n: int)
    requires
        0 <= c < n <= b.len(),
        b[c] == 0,
        v != 0,
    ensures
        zeros_upto(b.update(c, v), n) == zeros_upto(b, n) - 1,
    decreases n,
{
    if c == n - 1 {
        lemma_zeros_same(b, b.update(c, v), n - 1);
    } else {
        lemma_zeros_fill(b, c, v, n - 1);
    }
}

/// The blank count only looks at the cells below the bound.
pub proof fn lemma_zeros_same(b1: Seq<u8>, b2: Seq<u8>, n: int)
    requires
        forall|c: int| 0 <= c < n ==> b1[c] == b2[c],
    ensures
        zeros_upto(b1, n) == zeros_upto(b2, n),
    decreases n,
{
    if n > 0 {
        lemma_zeros_same(b1, b2, n - 1);
    }
}

/// Placing a digit that no peer carries into a blank cell keeps the board
/// valid.
pub proof fn lemma_place_valid(b: Seq<u8>, cell: int, num: u8)
    requires
        board_partial_valid(b),
        b.len() == 81,
        0 <= cell < 81,
        b[cell] == 0,
        num != 0,
        forall|p: int| is_peer(cell, p) ==> b[p] != num,
    ensures
        board_partial_valid(b.update(cell, num)),
{
    let b2 = b.update(cell, num);
    assert forall|c1: int, c2: int| #[trigger] is_peer(c1, c2) && b2[c1] != 0 implies b2[c1]
        != b2[c2] by {
        if c1 == cell {
            assert(b2[c2] == b[c2]);
        } else if c2 == cell {
            assert(is_peer(cell, c1));
            assert(b[c1] != num);
        }
    }
}

/// The board: assigned digits plus candidate domains, both indexed by the
/// flat cell index `row * 9 + col`.
pub struct Sudoku {
    /// Assigned digits; 0 means unassigned.
    pub board: Vec<u8>,
    /// The candidate domain of each cell.
    pub candidates: Vec<u16>,
}

impl Sudoku {
    /// Basic well-formedness: 81 cells, digits 0..=9, domains over 1..=9.
    pub open spec fn wf(&self) -> bool {
        &&& self.board@.len() == 81
        &&& self.candidates@.len() == 81
        &&& forall|c: int| 0 <= c < 81 ==> self.board@[c] <= 9
        &&& forall|c: int| 0 <= c < 81 ==> mask_wf(#[trigger] self.candidates@[c])
    }

    /// No cell's domain is empty.
    pub open spec fn domains_ok(&self) -> bool {
        forall|c: int| 0 <= c < 81 ==> #[trigger] self.candidates@[c] != 0
    }

    /// Creates a board, blank or from an 81-character puzzle string, with
    /// every candidate domain full.
    pub fn new(puzzle: Option<&str>) -> (r: Result<Sudoku, ParseError>)
        ensures
            match r {
                Ok(s) => {
                    &&& s.wf()
                    &&& s.domains_ok()
                    &&& forall|c: int| 0 <= c < 81 ==> #[trigger] s.candidates@[c] == FULL_MASK
                    &&& match puzzle {
                        Some(p) => valid_puzzle(p@) && s.board@ == parsed_board(p@),
                        None => s.board@ == Seq::new(81, |i: int| 0u8),
                    }
                },
                Err(e) => match puzzle {
                    Some(p) => match e {
                        ParseError::BadLength => p@.len() != 81,
                        ParseError::BadChar => p@.len() == 81 && exists|i: int|
                            0 <= i < 81 && !valid_puzzle_char(#[trigger] p@[i]),
                    },
                    None => false,
                },
            },
    {
        let board = match puzzle {
            Some(p) => match Self::from_string(p) {
                Ok(b) => b,
                Err(e) => {
                    return Err(e);
                },
            },
            None => {
                let mut b: Vec<u8> = Vec::new();
                for i in 0..81
                    invariant
                        b@ =~= Seq::new(i as nat, |k: int| 0u8),
                {
                    b.push(0);
                }
                proof {
                    assert(b@ =~= Seq::new(81, |i: int| 0u8));
                }
                b
            },
        };
        let mut candidates: Vec<u16> = Vec::new();
        for i in 0..81
            invariant
                candidates@.len() == i,
                forall|c: int| 0 <= c < i ==> #[trigger] candidates@[c] == FULL_MASK,
        {
            candidates.push(FULL_MASK);
        }
        proof {
            lemma_mask_full(1);
        }
        Ok(Sudoku { board, candidates })
    }

    /// Parses an 81-character puzzle string into a flat grid. Rejects a
    /// string of any other length, and any character that is neither a digit
    /// '1'..'9' nor the blank '.'.
    pub fn from_string(s: &str) -> (r: Result<Vec<u8>, ParseError>)
        ensures
            match r {
                Ok(b) => valid_puzzle(s@) && b@ == parsed_board(s@) && board_wf(b@),
                Err(e) => match e {
                    ParseError::BadLength => s@.len() != 81,
                    ParseError::BadChar => s@.len() == 81 && exists|i: int|
                        0 <= i < 81 && !valid_puzzle_char(#[trigger] s@[i]),
                },
            },
    {
        let n = s.unicode_len();
        if n != 81 {
            return Err(ParseError::BadLength);
        }
        let mut b: Vec<u8> = Vec::new();
        for i in 0..81
            invariant
                s@.len() == 81,
                b@.len() == i,
                forall|k: int| 0 <= k < i ==> #[trigger] b@[k] == char_value(s@[k]),
                forall|k: int| 0 <= k < i ==> valid_puzzle_char(#[trigger] s@[k]),
        {
            let ch = s.get_char(i);
            let d: u8 = if ch == '.' {
                0
            } else if ch == '1' {
                1
            } else if ch == '2' {
                2
            } else if ch == '3' {
                3
            } else if ch == '4' {
                4
            } else if ch == '5' {
                5
            } else if ch == '6' {
                6
            } else if ch == '7' {
                7
            } else if ch == '8' {
                8
            } else if ch == '9' {
                9
            } else {
                return Err(ParseError::BadChar);
            };
            b.push(d);
        }
        proof {
            assert(b@ =~= parsed_board(s@));
        }
        Ok(b)
    }

    /// Renders the grid back into an 81-character string; blanks render as
    /// the placeholder '.'.
    pub fn board_string(&self) -> (r: String)
        requires
            self.wf(),
        ensures
            r@ == rendered_board(self.board@),
    {
        let mut r = String::new();
        for i in 0..81
            invariant
                self.wf(),
                r@.len() == i,
                forall|k: int| 0 <= k < i ==> #[trigger] r@[k] == digit_char(self.board@[k]),
        {
            let d = self.board[i];
            let ch = if d == 1 {
                '1'
            } else if d == 2 {
                '2'
            } else if d == 3 {
                '3'
            } else if d == 4 {
                '4'
            } else if d == 5 {
                '5'
            } else if d == 6 {
                '6'
            } else if d == 7 {
                '7'
            } else if d == 8 {
                '8'
            } else if d == 9 {
                '9'
            } else {
                '.'
            };
            push_char(&mut r, ch);
        }
        proof {
            assert(r@ =~= rendered_board(self.board@));
        }
        r
    }

    /// The assigned digit of a cell; 0 means unassigned.
    pub fn get(&self, row: usize, col: usize) -> (d: u8)
        requires
            self.wf(),
            row < 9,
            col < 9,
        ensures
            d == self.board@[row * 9 + col],
    {
        self.board[row * 9 + col]
    }

    /// The candidate domain of a cell, as a digit mask.
    pub fn cell_candidates(&self, cell: usize) -> (m: u16)
        requires
            self.wf(),
            cell < 81,
        ensures
            m == self.candidates@[cell as int],
    {
        self.candidates[cell]
    }

    /// An independent copy of the whole state, for speculative mutation.
    pub fn duplicate(&self) -> (r: Sudoku)
        ensures
            r.board@ == self.board@,
            r.candidates@ == self.candidates@,
    {
        let board = self.board.clone();
        let candidates = self.candidates.clone();
        proof {
            assert(board@ =~= self.board@);
            assert(candidates@ =~= self.candidates@);
        }
        Sudoku { board, candidates }
    }

    /// Whether `num` may be placed at the given blank cell: the cell is
    /// unassigned and no peer already carries `num`.
    pub fn is_valid(&self, row: usize, col: usize, num: u8) -> (r: bool)
        requires
            self.wf(),
            row < 9,
            col < 9,
            1 <= num <= 9,
        ensures
            r <==> (self.board@[row * 9 + col] == 0 && forall|p: int|
                is_peer(row * 9 + col, p) ==> self.board@[p] != num),
    {
        let c = row * 9 + col;
        if self.board[c] != 0 {
            return false;
        }
        let ps = crate::topology::peers_of(c);
        for k in 0..20
            invariant
                self.wf(),
                c == row * 9 + col,
                c < 81,
                ps@.len() == 20,
                forall|k2: int| 0 <= k2 < 20 ==> is_peer(c as int, #[trigger] ps@[k2] as int),
                forall|b: int| is_peer(c as int, b) ==> exists|k2: int|
                    0 <= k2 < 20 && #[trigger] ps@[k2] == b,
                forall|k2: int| 0 <= k2 < k ==> self.board@[#[trigger] ps@[k2] as int] != num,
        {
            if self.board[ps[k]] == num {
                return false;
            }
        }
        proof {
            assert forall|p: int| is_peer(c as int, p) implies self.board@[p] != num by {
                let k2 = choose|k2: int| 0 <= k2 < 20 && ps@[k2] == p;
            }
        }
        true
    }


    /// Writes every settled (single-candidate) domain into the grid, then
    /// checks the grid against the Sudoku constraints.
    #[verifier::loop_isolation(false)]
    pub fn candidates_correct(&mut self) -> (r: bool)
        requires
            old(self).wf(),
        ensures
            final(self).wf(),
            final(self).candidates@ == old(self).candidates@,
            forall|c: int| 0 <= c < 81 && mask_count(old(self).candidates@[c]) == 1
                ==> crate::domain::is_singleton(
                old(self).candidates@[c],
                #[trigger] final(self).board@[c],
            ),
            forall|c: int| 0 <= c < 81 && mask_count(old(self).candidates@[c]) != 1
                ==> #[trigger] final(self).board@[c] == old(self).board@[c],
            r == board_partial_valid(final(self).board@),
    {
        for c in 0..81
            invariant
                self.wf(),
                self.candidates@ == old(self).candidates@,
                forall|x: int| 0 <= x < c && mask_count(old(self).candidates@[x]) == 1
                    ==> crate::domain::is_singleton(
                    old(self).candidates@[x],
                    #[trigger] self.board@[x],
                ),
                forall|x: int| (c <= x < 81 || mask_count(old(self).candidates@[x]) != 1)
                    && 0 <= x < 81 ==> #[trigger] self.board@[x] == old(self).board@[x],
        {
            let m = self.candidates[c];
            if crate::domain::mask_size(m) == 1 {
                proof {
                    crate::domain::lemma_count_pos_nonzero(m);
                }
                let d = crate::domain::mask_first(m);
                proof {
                    crate::domain::lemma_count_one_singleton(m, d);
                }
                self.board.set(c, d);
            }
        }
        self.board_correct()
    }

    /// Whether the assigned digits break no Sudoku constraint: every row,
    /// column and box holds each digit at most once among its non-zero
    /// entries. A full solution additionally has no zero entry.
    pub fn board_correct(&self) -> (r: bool)
        requires
            self.wf(),
        ensures
            r == board_partial_valid(self.board@),
    {
        for c1 in 0..81
            invariant
                self.wf(),
                forall|x: int, y: int| #[trigger] is_peer(x, y) && 0 <= x < c1
                    && self.board@[x] != 0 ==> self.board@[x] != self.board@[y],
        {
            if self.board[c1] != 0 {
                for c2 in 0..81
                    invariant
                        self.wf(),
                        c1 < 81,
                        self.board@[c1 as int] != 0,
                        forall|x: int, y: int| #[trigger] is_peer(x, y) && 0 <= x < c1
                            && self.board@[x] != 0 ==> self.board@[x] != self.board@[y],
                        forall|y: int| #[trigger] is_peer(c1 as int, y) && 0 <= y < c2
                            ==> self.board@[c1 as int] != self.board@[y],
                {
                    if c1 != c2 && self.board[c1] == self.board[c2] {
                        if crate::topology::is_peer_exec(c1, c2) {
                            return false;
                        }
                    }
                }
            }
        }
        true
    }
}

} // verus!
