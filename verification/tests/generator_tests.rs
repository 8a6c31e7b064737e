use sudoku::board::{Board, BoardError};
use sudoku::solver::BoardStatus;

const SOLVED_PUZZLE_STR: &str = "8,2,7,1,5,4,3,9,6,\
9,6,5,3,2,7,1,4,8,\
3,4,1,6,8,9,7,5,2,\
5,9,3,4,6,8,2,7,1,\
4,7,2,5,1,3,6,8,9,\
6,1,8,9,7,2,4,3,5,\
7,8,6,2,3,5,9,1,4,\
1,5,4,7,9,6,8,2,3,\
2,3,9,8,4,1,5,6,7";

const SWAPPED_ROW_STR: &str = "9,6,5,3,2,7,1,4,8,\
8,2,7,1,5,4,3,9,6,\
3,4,1,6,8,9,7,5,2,\
5,9,3,4,6,8,2,7,1,\
4,7,2,5,1,3,6,8,9,\
6,1,8,9,7,2,4,3,5,\
7,8,6,2,3,5,9,1,4,\
1,5,4,7,9,6,8,2,3,\
2,3,9,8,4,1,5,6,7";

const SWAPPED_COL_STR: &str = "2,8,7,1,5,4,3,9,6,\
6,9,5,3,2,7,1,4,8,\
4,3,1,6,8,9,7,5,2,\
9,5,3,4,6,8,2,7,1,\
7,4,2,5,1,3,6,8,9,\
1,6,8,9,7,2,4,3,5,\
8,7,6,2,3,5,9,1,4,\
5,1,4,7,9,6,8,2,3,\
3,2,9,8,4,1,5,6,7";

#[test]
fn test_swap_rows() {
    let mut board = Board::from_string(SOLVED_PUZZLE_STR);
    assert_eq!(SOLVED_PUZZLE_STR, board.to_string());
    assert!(board.check_status().is_valid());
    board._swap_rows(0, 1);
    assert_ne!(SOLVED_PUZZLE_STR, board.to_string());
    assert_eq!(SWAPPED_ROW_STR, board.to_string());
}

#[test]
fn test_swap_cols() {
    let mut board = Board::from_string(SOLVED_PUZZLE_STR);
    assert_eq!(SOLVED_PUZZLE_STR, board.to_string());
    assert!(board.check_status().is_valid());
    board._swap_cols(0, 1);
    assert_ne!(SOLVED_PUZZLE_STR, board.to_string());
    assert_eq!(SWAPPED_COL_STR, board.to_string());
}

#[test]
fn swapped_rows_of_a_block_leave_the_board_valid() {
    let mut board = Board::from_string(SOLVED_PUZZLE_STR);
    board._swap_rows(0, 1);
    assert!(board.check_status().is_valid());
    assert_ne!(SOLVED_PUZZLE_STR, board.to_string());
    board._swap_rows(1, 1);
    assert_eq!(SWAPPED_ROW_STR, board.to_string());
    board._swap_rows(1, 0);
    assert_eq!(SOLVED_PUZZLE_STR, board.to_string());
}

#[test]
fn mirror_and_rotate() {
    let mut board = Board::from_string("1,2,3,4,0,0,0,0,0,0,0,0,4,0,0,0");
    board._mirror();
    assert_eq!("4,3,2,1,0,0,0,0,0,0,0,0,0,0,0,4", board.to_string());
    board._mirror();
    assert_eq!("1,2,3,4,0,0,0,0,0,0,0,0,4,0,0,0", board.to_string());
    board._rotate();
    // Anti-clockwise: the first row becomes the first column, read upwards.
    assert_eq!("4,0,0,0,3,0,0,0,2,0,0,0,1,0,0,4", board.to_string());
    board._rotate();
    board._rotate();
    board._rotate();
    assert_eq!("1,2,3,4,0,0,0,0,0,0,0,0,4,0,0,0", board.to_string());
}

#[test]
fn random_values_are_a_shuffle_of_the_range() {
    let board = Board::default();
    for _ in 0..20 {
        let vals = board.rand_vals();
        let mut seen: Vec<i32> = vals.iter().map(|v| v.unwrap()).collect();
        seen.sort();
        assert_eq!(vec![1, 2, 3, 4, 5, 6, 7, 8, 9], seen);
    }
    assert_eq!(0, Board::from_base_num(0).rand_vals().len());
}

#[test]
fn random_houses() {
    let mut board = Board::from_base_num(2);
    board.set_row_rand(2);
    assert_eq!(4, board.num_filled());
    let mut row: Vec<i32> = board.get_row_values(2).iter().map(|v| v.unwrap()).collect();
    row.sort();
    assert_eq!(vec![1, 2, 3, 4], row);
    board.set_col_rand(0);
    let mut col: Vec<i32> = board.get_col_values(0).iter().map(|v| v.unwrap()).collect();
    col.sort();
    assert_eq!(vec![1, 2, 3, 4], col);
    board.set_grid_rand(3);
    let mut block: Vec<i32> = board.get_grid_values(3).iter().map(|v| v.unwrap()).collect();
    block.sort();
    assert_eq!(vec![1, 2, 3, 4], block);
}

#[test]
fn reduce_at_keeps_what_the_solution_needs() {
    let mut board = Board::from_string(SOLVED_PUZZLE_STR);
    board.reduce_at(0);
    assert_eq!(None, board.squares[0]);
    assert_eq!(80, board.num_filled());
    // An empty cell stays empty.
    board.reduce_at(0);
    assert_eq!(80, board.num_filled());
    // Cells 1 and 3 clash. Without another cell the board still has no
    // solution, so that cell stays; without cell 3 it has one.
    let mut clash = Board::from_string("0,1,0,1,0,0,2,0,0,0,0,0,0,0,0,0");
    clash.reduce_at(6);
    assert_eq!("0,1,0,1,0,0,2,0,0,0,0,0,0,0,0,0", clash.to_string());
    clash.reduce_at(3);
    assert_eq!("0,1,0,0,0,0,2,0,0,0,0,0,0,0,0,0", clash.to_string());
}

#[test]
fn reduce_only_empties_cells_and_keeps_a_solution() {
    let full = Board::from_string(SOLVED_PUZZLE_STR);
    let mut board = full.clone();
    board.reduce();
    for i in 0..81 {
        assert!(board.squares[i].is_none() || board.squares[i] == full.squares[i]);
    }
    assert!(board.check_status().is_valid());
    assert!(board.solve_search());
}

fn check_generated(base: usize, made: Result<Board, BoardError>) -> bool {
    match made {
        Ok(board) => {
            assert_eq!(base, board.base_num);
            assert_eq!(base * base * base * base, board.squares.len());
            assert_ne!(BoardStatus::Invalid, board.check_status());
            assert_eq!(base > 0, board.num_remaining() > 0);
            let mut copy = board.clone();
            assert!(copy.solve_search());
            assert_eq!(BoardStatus::Solved, copy.check_status());
            for i in 0..board.squares.len() {
                assert!(board.squares[i].is_none() || board.squares[i] == copy.squares[i]);
            }
            true
        }
        Err(e) => {
            assert_eq!(BoardError::GenerationError, e);
            false
        }
    }
}

#[test]
fn generated_boards_can_be_solved() {
    assert!(check_generated(0, Board::generate_new(0)));
    assert!(check_generated(1, Board::generate_new(1)));
    // Two diagonal blocks of a board of side 4 may leave no solution.
    let mut made = 0;
    for _ in 0..200 {
        if check_generated(2, Board::generate_new(2)) {
            made += 1;
        }
    }
    assert!(made > 0);
    // Half of the seedings of that size have no solution.
    assert!(made < 200);
}

#[test]
fn generated_board_of_side_nine() {
    let mut made = false;
    for _ in 0..10 {
        made = made || check_generated(3, Board::generate_new(3));
    }
    assert!(made);
}

#[test]
fn diagonal_blocks_without_a_solution() {
    // No clash, but the cell in row 1 and column 2 has no candidate: its
    // row holds 3 and 4, its column 1 and 2.
    let mut board = Board::from_string("1,2,0,0,3,4,0,0,0,0,1,3,0,0,2,4");
    assert_eq!(BoardStatus::Invalid, board.check_status());
    assert!(!board.solve_search_parallel());
    let mut board = Board::from_string("1,2,0,0,3,4,0,0,0,0,1,3,0,0,2,4");
    assert!(!board.solve_search());
}

#[test]
fn generation_error_has_its_message() {
    let refused: Result<Board, BoardError> = Err(BoardError::GenerationError);
    assert_eq!("Error generating board", refused.unwrap_err().message());
}

fn seeded() -> Board {
    let mut board = Board::from_base_num(3);
    let mut i = 0;
    while i < board.side_length {
        let grid_num = board.get_grid_num((i, i));
        board.set_grid_rand(grid_num);
        i += 3;
    }
    assert_eq!(27, board.num_filled());
    assert_ne!(BoardStatus::Invalid, board.check_status());
    board
}

#[test]
fn a_seeded_board_is_solved_in_full_and_stays_solvable_when_reduced() {
    let mut solved = 0;
    for _ in 0..10 {
        let mut board = seeded();
        if !board.solve_search_parallel() {
            continue;
        }
        solved += 1;
        assert_eq!(0, board.num_remaining());
        assert_eq!(BoardStatus::Solved, board.check_status());
        let full = board.clone();
        board.reduce();
        assert!(board.num_remaining() > 0);
        let mut again = board.clone();
        assert!(again.solve_search());
        assert_eq!(0, again.num_remaining());
        for i in 0..81 {
            assert!(board.squares[i].is_none() || board.squares[i] == full.squares[i]);
        }
    }
    assert!(solved > 0);
}

#[test]
fn values_drawn_by_given_picks() {
    let board = Board::from_base_num(2);
    // Each pick takes the value at its place; the last value moves there.
    assert_eq!(
        vec![Some(1), Some(4), Some(3), Some(2)],
        board.shuffle_by(&vec![0, 0, 0, 0])
    );
    assert_eq!(
        vec![Some(4), Some(3), Some(2), Some(1)],
        board.shuffle_by(&vec![3, 2, 1, 0])
    );
    assert_eq!(
        vec![Some(2), Some(4), Some(3), Some(1)],
        board.shuffle_by(&vec![1, 1, 1, 0])
    );
    assert_eq!(vec![Some(1)], Board::from_base_num(1).shuffle_by(&vec![0]));
    assert_eq!(0, Board::from_base_num(0).shuffle_by(&vec![]).len());
}

#[test]
fn seeds_fill_the_diagonal_blocks_only() {
    for base in 0..4 {
        let seed = Board::seed_diagonal(base);
        let side = base * base;
        assert_eq!(base, seed.base_num);
        assert_eq!(base * side, seed.num_filled());
        for block in 0..side {
            let mut values: Vec<i32> = seed.get_grid_values(block).iter().flatten().cloned().collect();
            values.sort();
            if block / base == block % base {
                let range: Vec<i32> = (1..side as i32 + 1).collect();
                assert_eq!(range, values);
            } else {
                assert_eq!(0, values.len());
            }
        }
    }
}

#[test]
fn a_seed_gives_a_puzzle_exactly_when_it_has_a_solution() {
    let without = Board::from_string("1,2,0,0,3,4,0,0,0,0,1,3,0,0,2,4");
    assert_eq!(Err(BoardError::GenerationError), Board::generate_from(without));
    let with = Board::from_string("1,2,0,0,3,4,0,0,0,0,1,2,0,0,3,4");
    let puzzle = Board::generate_from(with.clone()).expect("Error generating board");
    assert_eq!(2, puzzle.base_num);
    assert!(puzzle.num_remaining() > 0);
    let mut solved = puzzle.clone();
    assert!(solved.solve_search());
    // A full board comes back with a cell emptied.
    let full = Board::from_string("1,2,3,4,3,4,1,2,2,1,4,3,4,3,2,1");
    let reduced = Board::generate_from(full.clone()).expect("Error generating board");
    assert!(reduced.num_remaining() > 0);
    for i in 0..16 {
        assert!(reduced.squares[i].is_none() || reduced.squares[i] == full.squares[i]);
    }
    // A board with a clash has no solution.
    let clash = Board::from_string("1,1,0,0,0,0,0,0,0,0,0,0,0,0,0,0");
    assert_eq!(Err(BoardError::GenerationError), Board::generate_from(clash));
    for _ in 0..50 {
        let seed = Board::seed_diagonal(2);
        let mut copy = seed.clone();
        let solvable = copy.solve_search();
        assert_eq!(solvable, Board::generate_from(seed).is_ok());
    }
}
