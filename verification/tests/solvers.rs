use sudoku_csp::anneal::StochasticSolver;
use sudoku_csp::board::Sudoku;
use sudoku_csp::rules::{RuleBasedSolver, RuleOutcome};
use sudoku_csp::score::{board_score, PERFECT_SCORE};
use sudoku_csp::search::{BruteForceSolver, CSPSolver};
use sudoku_csp::solver::Solver;

fn full_grid_string() -> String {
    let mut s = String::new();
    for i in 0..9usize {
        for j in 0..9usize {
            let d = (i * 3 + i / 3 + j) % 9 + 1;
            s.push(char::from(b'0' + d as u8));
        }
    }
    s
}

const EASY_PUZZLE: &str =
    "53..7....6..195....98....6.8...6...34..8.3..17...2...6.6....28....419..5....8..79";
const EASY_SOLUTION: &str =
    "534678912672195348198342567859761423426853791713924856961537284287419635345286179";

#[test]
fn brute_force_solves_the_empty_puzzle() {
    let dots: String = std::iter::repeat('.').take(81).collect();
    let mut board = Sudoku::new(Some(&dots)).unwrap();
    let mut solver = BruteForceSolver::new();
    assert!(solver.initialize_candidates(&mut board));
    assert!(solver.solve(&mut board));
    assert!(solver.is_correct(&mut board));
    for row in 0..9 {
        for col in 0..9 {
            assert_ne!(board.get(row, col), 0);
        }
    }
}

#[test]
fn brute_force_finishes_an_easy_puzzle_and_keeps_the_givens() {
    let mut board = Sudoku::new(Some(EASY_PUZZLE)).unwrap();
    let mut solver = BruteForceSolver::new();
    assert!(solver.initialize_candidates(&mut board));
    assert!(solver.solve(&mut board));
    assert!(solver.is_correct(&mut board));
    assert_eq!(board.board_string(), EASY_SOLUTION);
}

#[test]
fn duplicate_in_a_row_is_rejected_by_initialization() {
    let mut p = String::new();
    p.push('5');
    p.push('.');
    p.push('5');
    for _ in 0..78 {
        p.push('.');
    }
    let mut board = Sudoku::new(Some(&p)).unwrap();
    assert!(!board.initialize_candidates_heavy());
    let mut board2 = Sudoku::new(Some(&p)).unwrap();
    assert!(!board2.initialize_candidates_lw());
    let mut board3 = Sudoku::new(Some(&p)).unwrap();
    let mut solver = BruteForceSolver::new();
    assert!(!solver.initialize_candidates(&mut board3));
}

#[test]
fn deduction_alone_finishes_a_single_blank_puzzle() {
    let mut p = full_grid_string();
    let missing = p.remove(40);
    p.insert(40, '.');
    let mut board = Sudoku::new(Some(&p)).unwrap();
    let solver = RuleBasedSolver::new();
    assert!(board.initialize_candidates_lw());
    // the lightweight domains already pin the blank cell; the rules make
    // no further move and no search is needed
    let outcome = {
        let mut b = Sudoku::new(Some(&p)).unwrap();
        assert!(b.initialize_candidates_lw());
        solver.apply_basic_rules(&mut b)
    };
    assert!(!matches!(outcome, RuleOutcome::Contradiction));
    let fallback = CSPSolver::new();
    assert!(fallback.solved(&board));
    let mut solver = RuleBasedSolver::new();
    let mut board2 = Sudoku::new(Some(&p)).unwrap();
    assert!(solver.initialize_candidates(&mut board2));
    assert!(solver.solve(&mut board2));
    assert!(solver.is_correct(&mut board2));
    assert_eq!(board2.board_string(), full_grid_string());
    assert_ne!(missing, '.');
}

#[test]
fn csp_solver_finishes_an_easy_puzzle() {
    let mut board = Sudoku::new(Some(EASY_PUZZLE)).unwrap();
    let mut solver = CSPSolver::new();
    assert!(solver.initialize_candidates(&mut board));
    assert!(solver.solve(&mut board));
    assert!(solver.is_correct(&mut board));
    assert_eq!(board.board_string(), EASY_SOLUTION);
}

#[test]
fn rule_based_solver_finishes_an_easy_puzzle() {
    let mut board = Sudoku::new(Some(EASY_PUZZLE)).unwrap();
    let mut solver = RuleBasedSolver::new();
    assert!(solver.initialize_candidates(&mut board));
    assert!(solver.solve(&mut board));
    assert!(solver.is_correct(&mut board));
    assert_eq!(board.board_string(), EASY_SOLUTION);
}

#[test]
fn csp_initialize_orders_the_queue_by_domain_size() {
    let mut board = Sudoku::new(Some(EASY_PUZZLE)).unwrap();
    let mut solver = CSPSolver::new();
    assert!(solver.initialize(&mut board));
    let sizes: Vec<usize> = solver
        .queue
        .iter()
        .map(|&c| sudoku_csp::domain::mask_size(board.cell_candidates(c)))
        .collect();
    for w in sizes.windows(2) {
        assert!(w[0] <= w[1]);
    }
    for &n in sizes.iter() {
        assert!(n >= 2);
    }
}

#[test]
fn solver_names_are_stable() {
    assert_eq!(BruteForceSolver::new().name(), "Brute Force Solver");
    assert_eq!(CSPSolver::new().name(), "Constraint Programming Solver");
    assert_eq!(RuleBasedSolver::new().name(), "Rule Based Solver");
    assert_eq!(StochasticSolver::new(16, 1000, 10, 1).name(), "Stochastic Solver");
}

#[test]
fn perfect_board_scores_the_target() {
    let p = full_grid_string();
    let board = Sudoku::new(Some(&p)).unwrap();
    assert_eq!(board_score(&board), PERFECT_SCORE);
}

#[test]
fn flawed_board_scores_strictly_worse() {
    let p = full_grid_string();
    let mut board = Sudoku::new(Some(&p)).unwrap();
    // duplicate a digit within row 0
    board.board[1] = board.board[0];
    assert!(board_score(&board) > PERFECT_SCORE);
}

#[test]
fn annealing_reaches_the_target_on_a_near_complete_puzzle() {
    let mut p = full_grid_string();
    // blank two cells of the first row; the missing digits are refilled by
    // the shuffled permutation step and repaired by swaps
    p.replace_range(0..1, ".");
    p.replace_range(1..2, ".");
    let mut board = Sudoku::new(Some(&p)).unwrap();
    let mut solver = StochasticSolver::new(16, 1000, 200_000, 7);
    assert!(solver.initialize_candidates(&mut board));
    assert!(solver.solve(&mut board));
    assert!(solver.is_correct(&mut board));
    assert_eq!(board_score(&board), PERFECT_SCORE);
    for row in 0..9 {
        for col in 0..9 {
            assert_ne!(board.get(row, col), 0);
        }
    }
}

#[test]
fn annealing_gives_up_at_the_iteration_cap() {
    // with a zero iteration cap, only a miraculous initial fill could
    // reach the target; this seed's fill does not
    let dots: String = std::iter::repeat('.').take(81).collect();
    let mut board = Sudoku::new(Some(&dots)).unwrap();
    let mut solver = StochasticSolver::new(16, 1000, 0, 3);
    assert!(!solver.solve_board(&mut board));
    assert!(board_score(&board) > PERFECT_SCORE);
}

#[test]
fn import_sudoku_prepares_domains() {
    let mut board = Sudoku::new(None).unwrap();
    let grid: Vec<u8> = Sudoku::from_string(EASY_PUZZLE).unwrap();
    assert!(board.import_sudoku(grid));
    assert_eq!(board.board_string(), EASY_PUZZLE);
    // an assigned cell is settled on its value
    assert_eq!(sudoku_csp::domain::mask_size(board.cell_candidates(0)), 1);
    assert!(sudoku_csp::domain::mask_has_exec(board.cell_candidates(0), 5));
    // importing a contradictory grid is rejected
    let mut board2 = Sudoku::new(None).unwrap();
    let mut p = String::new();
    p.push('5');
    p.push('5');
    for _ in 0..79 {
        p.push('.');
    }
    let bad: Vec<u8> = Sudoku::from_string(&p).unwrap();
    assert!(!board2.import_sudoku(bad));
}

#[test]
fn rule_passes_report_no_contradiction_on_a_valid_puzzle() {
    let mut board = Sudoku::new(Some(EASY_PUZZLE)).unwrap();
    assert!(board.initialize_candidates_lw());
    let solver = RuleBasedSolver::new();
    let r1 = solver.apply_basic_rules(&mut board);
    assert!(!matches!(r1, RuleOutcome::Contradiction));
    let r2 = solver.apply_intermediate_rules(&mut board);
    assert!(!matches!(r2, RuleOutcome::Contradiction));
    let r3 = solver.apply_complex_rules(&mut board);
    assert!(!matches!(r3, RuleOutcome::Contradiction));
    // the basic rules alone make progress on this puzzle
    assert!(matches!(r1, RuleOutcome::Progress));
}

#[test]
fn unique_elements_counts_distinct_nonzero_digits() {
    let v: Vec<u8> = vec![1, 2, 3, 4, 5, 6, 7, 8, 9];
    assert_eq!(Sudoku::unique_elements(&v), 9);
    let w: Vec<u8> = vec![1, 1, 2, 0, 0, 0, 0, 0, 0];
    assert_eq!(Sudoku::unique_elements(&w), 2);
    let z: Vec<u8> = vec![0, 0, 0, 0, 0, 0, 0, 0, 0];
    assert_eq!(Sudoku::unique_elements(&z), 0);
}
