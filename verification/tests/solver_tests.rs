use sudoku::board::Board;
use sudoku::board::Pos;
use sudoku::solver::BoardStatus;

const NUM_SQUARES: Pos = 81;

const SOLVED_PUZZLE_STR: &str = "8,2,7,1,5,4,3,9,6,\
9,6,5,3,2,7,1,4,8,\
3,4,1,6,8,9,7,5,2,\
5,9,3,4,6,8,2,7,1,\
4,7,2,5,1,3,6,8,9,\
6,1,8,9,7,2,4,3,5,\
7,8,6,2,3,5,9,1,4,\
1,5,4,7,9,6,8,2,3,\
2,3,9,8,4,1,5,6,7";

const UNSOLVED_PUZZLE_STR: &str = "8,2,7,1,0,4,0,0,6,\
0,6,5,3,2,7,1,4,8,\
0,4,1,6,0,0,7,5,0,\
5,0,3,4,6,0,0,7,1,\
0,7,2,5,1,0,6,0,9,\
6,1,8,0,0,0,4,0,5,\
7,0,6,0,3,5,0,0,0,\
0,5,4,7,0,6,0,2,3,\
2,3,0,8,4,1,5,0,7";

const INVALID_PUZZLE_STR: &str = "8,2,7,1,5,4,3,9,6,\
0,6,5,3,2,7,1,4,8,\
3,4,1,6,8,9,7,5,2,\
5,9,3,4,6,8,2,7,1,\
4,7,2,5,1,3,4,8,9,\
6,1,8,9,7,2,4,3,5,\
7,8,6,2,3,5,9,1,4,\
1,5,4,7,9,6,8,2,3,\
2,3,9,8,4,1,5,6,7";

#[test]
fn test_solve() {
    let solved = Board::from_string(SOLVED_PUZZLE_STR);
    let mut unsolved = Board::from_string(UNSOLVED_PUZZLE_STR);
    let solve_result = unsolved.solve_standard();
    assert!(solve_result.is_solved());
    for i in 0..NUM_SQUARES {
        assert_eq!(solved.squares[i], unsolved.squares[i]);
    }
}

#[test]
fn test_solve_no_infinite_recursion() {
    let mut blank_board = Board::default();
    assert_eq!(None, blank_board.get_val((0, 0)).unwrap());
    assert!(blank_board.check_status().is_valid());
    let result = blank_board.solve_standard().is_solved();
    assert!(!result);
    assert_eq!(None, blank_board.get_val((0, 0)).unwrap());
}

#[test]
fn test_invalid_solve() {
    let mut unsolvable = Board::from_string(INVALID_PUZZLE_STR);
    assert!(!unsolvable.solve_standard().is_solved());
}

#[test]
fn test_is_valid() {
    let solved = Board::from_string(SOLVED_PUZZLE_STR);
    assert!(solved.check_status().is_valid());
    let unsolved = Board::from_string(UNSOLVED_PUZZLE_STR);
    assert!(unsolved.check_status().is_valid());
    let invalid = Board::from_string(INVALID_PUZZLE_STR);
    assert!(!invalid.check_status().is_valid());
}

#[test]
fn solve_parallel_fills_the_sample() {
    let mut unsolved = Board::from_string(UNSOLVED_PUZZLE_STR);
    assert_eq!(BoardStatus::Solved, unsolved.solve_parallel());
    assert_eq!(SOLVED_PUZZLE_STR, unsolved.to_string());
    assert!(Board::from_string(UNSOLVED_PUZZLE_STR).is_solvable());
    assert!(!Board::default().is_solvable());
}

const HARD_PUZZLE_STR: &str = "0,0,0,0,3,0,8,0,9,\
0,6,0,9,0,0,5,3,0,\
0,0,0,0,0,0,0,6,0,\
0,4,0,0,0,1,0,0,0,\
5,0,8,0,0,0,4,0,1,\
0,0,0,7,0,0,0,2,0,\
0,2,0,0,0,0,0,0,0,\
0,1,7,0,0,6,0,4,0,\
8,0,5,0,7,0,0,0,0";

#[test]
fn test_solve_ordered() {
    let solved = Board::from_string(SOLVED_PUZZLE_STR);
    let mut unsolved = Board::from_string(UNSOLVED_PUZZLE_STR);
    let solve_result = unsolved.solve_ordered();
    assert!(solve_result.is_solved());
    for i in 0..NUM_SQUARES {
        assert_eq!(solved.squares[i], unsolved.squares[i]);
    }
}

#[test]
fn test_solve_search() {
    let mut board = Board::from_string(HARD_PUZZLE_STR);
    assert!(board.solve_search());
}

#[test]
fn test_solve_search_bad_mini() {
    let puzzle = "4,2,0,0,1,3,0,0,0,0,3,2,0,0,1,4";
    let mut board = Board::from_string(puzzle);
    assert!(!board.solve_search());
}

#[test]
fn search_leaves_a_solution_of_the_puzzle() {
    let puzzle = Board::from_string(HARD_PUZZLE_STR);
    let mut board = puzzle.clone();
    assert!(board.solve_search());
    assert_eq!(BoardStatus::Solved, board.check_status());
    assert_eq!(0, board.num_remaining());
    for i in 0..NUM_SQUARES {
        if puzzle.squares[i].is_some() {
            assert_eq!(puzzle.squares[i], board.squares[i]);
        }
    }
}

#[test]
fn the_three_solvers_agree() {
    for text in [UNSOLVED_PUZZLE_STR, HARD_PUZZLE_STR, SOLVED_PUZZLE_STR] {
        let mut standard = Board::from_string(text);
        let mut ordered = Board::from_string(text);
        let mut parallel = Board::from_string(text);
        let a = standard.solve_standard();
        let b = ordered.solve_ordered();
        let c = parallel.solve_parallel();
        assert_eq!(a, b);
        assert_eq!(a, c);
        assert_eq!(standard.squares, ordered.squares);
        assert_eq!(standard.squares, parallel.squares);
    }
}

#[test]
fn status_of_boards() {
    assert_eq!(BoardStatus::Solved, Board::from_string(SOLVED_PUZZLE_STR).check_status());
    assert_eq!(BoardStatus::Valid, Board::from_string(UNSOLVED_PUZZLE_STR).check_status());
    assert_eq!(BoardStatus::Invalid, Board::from_string(INVALID_PUZZLE_STR).check_status());
    assert_eq!(BoardStatus::Valid, Board::default().check_status());
    assert_eq!(BoardStatus::Solved, Board::from_base_num(0).check_status());
    // Two equal values in one row.
    assert_eq!(BoardStatus::Invalid, Board::from_string("1,0,0,1,0,0,0,0,0,0,0,0,0,0,0,0").check_status());
    // Two equal values in one column, and in one block.
    assert_eq!(BoardStatus::Invalid, Board::from_string("1,0,0,0,0,0,0,0,0,0,0,0,1,0,0,0").check_status());
    assert_eq!(BoardStatus::Invalid, Board::from_string("1,0,0,0,0,1,0,0,0,0,0,0,0,0,0,0").check_status());
    // No clash, but cell 3 has no candidate left.
    assert_eq!(BoardStatus::Invalid, Board::from_string("1,2,3,0,0,0,0,4,0,0,0,0,0,0,0,0").check_status());
    assert!(BoardStatus::Solved.is_finished());
    assert!(BoardStatus::Invalid.is_finished());
    assert!(!BoardStatus::Valid.is_finished());
    assert!(BoardStatus::Valid.is_valid());
    assert!(!BoardStatus::Valid.is_solved());
}

#[test]
fn test_solve_search_parallel() {
    let mut board = Board::from_string(HARD_PUZZLE_STR);
    assert!(board.solve_search_parallel());
}

#[test]
fn test_solve_search_parallel_bad_mini() {
    let puzzle = "4,2,0,0,1,3,0,0,0,0,3,2,0,0,1,4";
    let mut board = Board::from_string(puzzle);
    assert!(!board.solve_search_parallel());
}

#[test]
fn both_searches_find_the_same_solution_of_the_hard_puzzle() {
    let mut plain = Board::from_string(HARD_PUZZLE_STR);
    let mut threaded = Board::from_string(HARD_PUZZLE_STR);
    assert!(plain.solve_search());
    assert!(threaded.solve_search_parallel());
    assert_eq!(BoardStatus::Solved, threaded.check_status());
    assert_eq!(plain.squares, threaded.squares);
}

#[test]
fn depth_first_search() {
    // Without depth the board is only classified.
    let mut board = Board::from_string(UNSOLVED_PUZZLE_STR);
    assert_eq!(BoardStatus::Valid, board.solve_search_dfs(Some(0)));
    assert_eq!(UNSOLVED_PUZZLE_STR, board.to_string());
    assert_eq!(BoardStatus::Valid, board.solve_search_dfs(Some(-3)));
    assert_eq!(UNSOLVED_PUZZLE_STR, board.to_string());
    // With depth the forced values are filled in.
    assert_eq!(BoardStatus::Solved, board.solve_search_dfs(Some(1)));
    assert_eq!(SOLVED_PUZZLE_STR, board.to_string());
    let mut board = Board::from_string(UNSOLVED_PUZZLE_STR);
    assert_eq!(BoardStatus::Solved, board.solve_search_dfs(None));
    assert_eq!(SOLVED_PUZZLE_STR, board.to_string());
    // An empty board of side 4: with depth 1 every trial comes back
    // unfinished, so the board stays empty.
    let mut blank = Board::from_base_num(2);
    assert_eq!(BoardStatus::Valid, blank.solve_search_dfs(Some(1)));
    assert_eq!(0, blank.num_filled());
    // Without a bound the search goes back on a branch that ends invalid.
    let mut blank = Board::from_base_num(2);
    assert_eq!(BoardStatus::Solved, blank.solve_search_dfs(None));
    assert_eq!(BoardStatus::Solved, blank.check_status());
    assert_eq!(0, blank.num_remaining());
}

#[test]
fn depth_first_search_drops_invalid_branches() {
    // The first trial, 1 in cell 0, forces 2 into two cells of row 0.
    let text = "0,0,0,0,0,0,0,0,0,3,4,0,0,4,3,0";
    let puzzle = Board::from_string(text);
    let mut board = puzzle.clone();
    assert_eq!(BoardStatus::Solved, board.solve_search_dfs(None));
    assert_eq!(BoardStatus::Solved, board.check_status());
    assert_eq!(0, board.num_remaining());
    for i in 0..16 {
        assert!(puzzle.squares[i].is_none() || puzzle.squares[i] == board.squares[i]);
    }
    // Bounded, the same board is left with what the bound allows.
    let mut bounded = puzzle.clone();
    let status = bounded.solve_search_dfs(Some(1));
    assert_eq!(status, bounded.check_status());
    assert_ne!(BoardStatus::Invalid, status);
    for i in 0..16 {
        assert!(puzzle.squares[i].is_none() || puzzle.squares[i] == bounded.squares[i]);
    }
    // A board without a solution comes back unsolved, with its filled cells.
    let mut none = Board::from_string("1,2,0,0,3,4,0,0,0,0,1,3,0,0,2,4");
    assert_eq!(BoardStatus::Invalid, none.solve_search_dfs(None));
    let given = Board::from_string(HARD_PUZZLE_STR);
    let mut hard = given.clone();
    assert_eq!(BoardStatus::Solved, hard.solve_search_dfs(None));
    assert_eq!(BoardStatus::Solved, hard.check_status());
    for i in 0..81 {
        assert!(given.squares[i].is_none() || given.squares[i] == hard.squares[i]);
    }
}
