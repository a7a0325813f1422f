use sudoku_csp::board::{ParseError, Sudoku};
use sudoku_csp::domain::{mask_has_exec, mask_size};

fn full_grid_string() -> String {
    let mut s = String::new();
    for i in 0..9usize {
        for j in 0..9usize {
            let d = (i * 3 + i / 3 + j) % 9 + 1;
            s.push(char::from(b'0' + d as u8));
        }
    }
    s
}

#[test]
fn parse_then_render_reproduces_the_string() {
    let mut p = String::new();
    p.push_str("53..7....6..195....98....6.8...6...34..8.3..17...2...6.6....28....419..5....8..79");
    assert_eq!(p.len(), 81);
    let s = Sudoku::new(Some(&p)).unwrap();
    assert_eq!(s.board_string(), p);
}

#[test]
fn parse_then_render_full_grid() {
    let p = full_grid_string();
    let s = Sudoku::new(Some(&p)).unwrap();
    assert_eq!(s.board_string(), p);
}

#[test]
fn empty_board_renders_as_placeholders() {
    let s = Sudoku::new(None).unwrap();
    let dots: String = std::iter::repeat('.').take(81).collect();
    assert_eq!(s.board_string(), dots);
}

#[test]
fn wrong_length_is_rejected() {
    assert!(matches!(Sudoku::from_string("123"), Err(ParseError::BadLength)));
    let long: String = std::iter::repeat('.').take(82).collect();
    assert!(matches!(Sudoku::from_string(&long), Err(ParseError::BadLength)));
    assert!(matches!(Sudoku::new(Some("")), Err(ParseError::BadLength)));
}

#[test]
fn invalid_character_is_rejected() {
    let mut p: String = std::iter::repeat('.').take(80).collect();
    p.push('x');
    assert!(matches!(Sudoku::from_string(&p), Err(ParseError::BadChar)));
    let mut q: String = std::iter::repeat('.').take(80).collect();
    q.push('0');
    assert!(matches!(Sudoku::from_string(&q), Err(ParseError::BadChar)));
}

#[test]
fn parse_errors_carry_messages() {
    assert_eq!(
        ParseError::BadLength.message(),
        "puzzle string must be 81 characters long"
    );
    assert_eq!(
        ParseError::BadChar.message(),
        "each character must be a digit from 1 to 9 or a dot"
    );
}

#[test]
fn board_correct_accepts_valid_and_rejects_duplicates() {
    let p = full_grid_string();
    let s = Sudoku::new(Some(&p)).unwrap();
    assert!(s.board_correct());
    let mut bad = Sudoku::new(Some(&p)).unwrap();
    // force a duplicate into row 0
    bad.board[1] = bad.board[0];
    assert!(!bad.board_correct());
    let empty = Sudoku::new(None).unwrap();
    assert!(empty.board_correct());
}

#[test]
fn is_valid_respects_peers() {
    let mut p: String = String::new();
    p.push('5');
    for _ in 0..80 {
        p.push('.');
    }
    let s = Sudoku::new(Some(&p)).unwrap();
    // an occupied cell takes nothing
    assert!(!s.is_valid(0, 0, 5));
    // the same row, column and box refuse the 5
    assert!(!s.is_valid(0, 8, 5));
    assert!(!s.is_valid(8, 0, 5));
    assert!(!s.is_valid(2, 2, 5));
    // an unrelated cell accepts it
    assert!(s.is_valid(4, 4, 5));
    // another digit next to the 5 is fine
    assert!(s.is_valid(0, 8, 6));
}

#[test]
fn assign_leaves_exactly_the_one_candidate() {
    let mut s = Sudoku::new(None).unwrap();
    assert!(s.assign(0, 5));
    let m = s.cell_candidates(0);
    assert_eq!(mask_size(m), 1);
    assert!(mask_has_exec(m, 5));
    // the peers lost the digit, other cells kept all nine
    let row_peer = s.cell_candidates(1);
    assert!(!mask_has_exec(row_peer, 5));
    assert_eq!(mask_size(row_peer), 8);
    let far = s.cell_candidates(4 * 9 + 4);
    assert_eq!(mask_size(far), 9);
}

#[test]
fn assign_twice_is_a_fixed_point() {
    let mut s = Sudoku::new(None).unwrap();
    assert!(s.assign(10, 3));
    let snap: Vec<u16> = (0..81).map(|c| s.cell_candidates(c)).collect();
    assert!(s.assign(10, 3));
    let snap2: Vec<u16> = (0..81).map(|c| s.cell_candidates(c)).collect();
    assert_eq!(snap, snap2);
}

#[test]
fn eliminate_twice_gives_the_same_domain_as_once() {
    let mut s = Sudoku::new(None).unwrap();
    assert!(s.eliminate(0, 3));
    let snap: Vec<u16> = (0..81).map(|c| s.cell_candidates(c)).collect();
    assert!(s.eliminate(0, 3));
    let snap2: Vec<u16> = (0..81).map(|c| s.cell_candidates(c)).collect();
    assert_eq!(snap, snap2);
    assert_eq!(mask_size(s.cell_candidates(0)), 8);
    assert!(!mask_has_exec(s.cell_candidates(0), 3));
}

#[test]
fn eliminating_the_last_candidate_is_a_contradiction() {
    let mut s = Sudoku::new(None).unwrap();
    assert!(s.assign(0, 5));
    assert!(!s.eliminate(0, 5));
}

#[test]
fn candidates_correct_writes_settled_cells() {
    let mut s = Sudoku::new(None).unwrap();
    assert!(s.assign(0, 5));
    assert!(s.assign(1, 6));
    assert!(s.candidates_correct());
    assert_eq!(s.get(0, 0), 5);
    assert_eq!(s.get(0, 1), 6);
    assert_eq!(s.get(0, 2), 0);
}
