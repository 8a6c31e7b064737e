use sudoku::board::{Board, BoardError, Pos, Position};

const BASE_NUM: Pos = 3;
const GROUP_NUM: Pos = BASE_NUM * BASE_NUM;
const NUM_SQUARES: Pos = GROUP_NUM * GROUP_NUM;

const SOLVED_PUZZLE_STR: &str = "8,2,7,1,5,4,3,9,6,\
9,6,5,3,2,7,1,4,8,\
3,4,1,6,8,9,7,5,2,\
5,9,3,4,6,8,2,7,1,\
4,7,2,5,1,3,6,8,9,\
6,1,8,9,7,2,4,3,5,\
7,8,6,2,3,5,9,1,4,\
1,5,4,7,9,6,8,2,3,\
2,3,9,8,4,1,5,6,7";

const UNSOLVED_PUZZLE_STR: &str = "8,2,7,1,0,4,0,0,6,\
0,6,5,3,2,7,1,4,8,\
0,4,1,6,0,0,7,5,0,\
5,0,3,4,6,0,0,7,1,\
0,7,2,5,1,0,6,0,9,\
6,1,8,0,0,0,4,0,5,\
7,0,6,0,3,5,0,0,0,\
0,5,4,7,0,6,0,2,3,\
2,3,0,8,4,1,5,0,7";

const EMPTY_PUZZLE_STR: &str = "0,0,0,0,0,0,0,0,0,\
0,0,0,0,0,0,0,0,0,\
0,0,0,0,0,0,0,0,0,\
0,0,0,0,0,0,0,0,0,\
0,0,0,0,0,0,0,0,0,\
0,0,0,0,0,0,0,0,0,\
0,0,0,0,0,0,0,0,0,\
0,0,0,0,0,0,0,0,0,\
0,0,0,0,0,0,0,0,0";

#[test]
fn test_board_length() {
    let new_board = Board::default();
    match new_board.base_num {
        2 => {
            assert_eq!(16, new_board.squares.len());
        }
        3 => {
            assert_eq!(81, new_board.squares.len());
        }
        4 => {
            assert_eq!(256, new_board.squares.len());
        }
        _ => {
            panic!("Bad board length!");
        }
    };
}

#[test]
fn test_board_cleared() {
    let new_board = Board::default();
    for i in 0..new_board.base_num {
        assert_eq!(None, new_board.squares[i]);
        assert_ne!(Some(0), new_board.squares[i]);
    }
}

#[test]
fn test_board_from_string() {
    let puzzle_string = String::from(SOLVED_PUZZLE_STR);
    let new_board = Board::from_string(&puzzle_string);

    assert_eq!(Some(8), new_board.squares[0]);
    assert_eq!(Some(2), new_board.squares[1]);
    assert_eq!(Some(1), new_board.squares[3]);
    assert_eq!(Some(9), new_board.squares[9]);
    assert_eq!(Some(2), new_board.squares[13]);
    assert_eq!(Some(7), new_board.squares[80]);

    assert_ne!(Some(0), new_board.squares[0]);
    assert_ne!(Some(80), new_board.squares[80]);
    assert_ne!(None, new_board.squares[0]);
    assert_ne!(None, new_board.squares[80]);
}

#[test]
fn test_board_from_string_blanks() {
    // There is an extra zero in here.
    let puzzle_string = String::from(UNSOLVED_PUZZLE_STR);
    let new_board = Board::from_string(&puzzle_string);

    assert_eq!(Some(8), new_board.squares[0]);
    assert_eq!(Some(2), new_board.squares[1]);

    assert_eq!(None, new_board.squares[9]);
    assert_ne!(Some(0), new_board.squares[9]);

    assert_eq!(Some(7), new_board.squares[80]);

    assert_ne!(Some(0), new_board.squares[0]);
    assert_ne!(Some(80), new_board.squares[80]);
    assert_ne!(None, new_board.squares[0]);
    assert_ne!(None, new_board.squares[80]);
}

#[test]
fn test_board_to_string() {
    let solved_board = Board::from_string(SOLVED_PUZZLE_STR);
    assert_eq!(String::from(SOLVED_PUZZLE_STR), solved_board.to_string());
    let unsolved_board = Board::from_string(UNSOLVED_PUZZLE_STR);
    assert_eq!(
        String::from(UNSOLVED_PUZZLE_STR),
        unsolved_board.to_string()
    );
    let blank_board = Board::from_string(EMPTY_PUZZLE_STR);
    assert_eq!(String::from(EMPTY_PUZZLE_STR), blank_board.to_string());
}

#[test]
fn test_multiple_boards() {
    let puzzle_string_1 = String::from(SOLVED_PUZZLE_STR);
    let board_1 = Board::from_string(&puzzle_string_1);

    let puzzle_string_2 = String::from(
        "807154396965327148341689752593468271472513689618972435786235914154796823239841567",
    );
    let mut board_2 = Board::from_string(&puzzle_string_2);

    assert_eq!(Some(8), board_1.squares[0]);
    assert_eq!(Some(2), board_1.squares[1]);

    assert_eq!(Some(8), board_2.squares[0]);
    assert_eq!(None, board_2.squares[1]);

    assert_ne!(board_1.squares[1], board_2.squares[1]);

    board_2.squares[1] = Some(2);
    assert_eq!(board_1.squares[1], board_2.squares[1]);
}

#[test]
fn test_get_coord() {
    let puzzle_string = String::from(UNSOLVED_PUZZLE_STR);
    let new_board = Board::from_string(&puzzle_string);

    assert_eq!(Some(8), new_board.get_val((0, 0)).unwrap());
    assert_eq!(Some(2), new_board.get_val((1, 0)).unwrap());

    assert_eq!(None, new_board.get_val((0, 1)).unwrap());
}

#[test]
fn test_get_col() {
    let puzzle_string = String::from(SOLVED_PUZZLE_STR);
    let new_board = Board::from_string(&puzzle_string);

    let col = new_board.get_col_values(0);
    assert_eq!(col[0], new_board.squares[0]);
    assert_eq!(col[1], new_board.squares[9]);
    assert_eq!(col[2], new_board.squares[18]);
    assert_eq!(col[3], new_board.squares[27]);
    assert_eq!(col[4], new_board.squares[36]);
    assert_eq!(col[5], new_board.squares[45]);
    assert_eq!(col[6], new_board.squares[54]);
    assert_eq!(col[7], new_board.squares[63]);
    assert_eq!(col[8], new_board.squares[72]);
}

#[test]
fn test_get_row() {
    let puzzle_string = String::from(SOLVED_PUZZLE_STR);
    let new_board = Board::from_string(&puzzle_string);

    let row = new_board.get_row_values(0);
    assert_eq!(row[0], new_board.squares[0]);
    assert_eq!(row[1], new_board.squares[1]);
    assert_eq!(row[2], new_board.squares[2]);
    assert_eq!(row[3], new_board.squares[3]);
    assert_eq!(row[4], new_board.squares[4]);
    assert_eq!(row[5], new_board.squares[5]);
    assert_eq!(row[6], new_board.squares[6]);
    assert_eq!(row[7], new_board.squares[7]);
    assert_eq!(row[8], new_board.squares[8]);

    let row = new_board.get_row_values(8);
    assert_eq!(row[0], new_board.squares[72]);
    assert_eq!(row[8], new_board.squares[80]);
}

#[test]
fn test_get_grid() {
    let puzzle_string = String::from(SOLVED_PUZZLE_STR);
    let new_board = Board::from_string(&puzzle_string);

    let grid = new_board.get_grid_values(0);
    assert_eq!(grid[0], new_board.squares[0]);
    assert_eq!(grid[1], new_board.squares[1]);
    assert_eq!(grid[2], new_board.squares[2]);

    assert_eq!(grid[3], new_board.squares[9]);
    assert_eq!(grid[4], new_board.squares[10]);
    assert_eq!(grid[5], new_board.squares[11]);

    assert_eq!(grid[6], new_board.squares[18]);
    assert_eq!(grid[7], new_board.squares[19]);
    assert_eq!(grid[8], new_board.squares[20]);

    let grid = new_board.get_grid_values(3);
    assert_eq!(grid[0], new_board.squares[27]);
}

#[test]
fn test_indicies_values() {
    let puzzle_string = String::from(SOLVED_PUZZLE_STR);
    let board = Board::from_string(&puzzle_string);
    for i in 0..board.side_length {
        let row_inds = board.get_row_indices(i);
        let row_vals = board.get_row_values(i);
        let col_inds = board.get_col_indices(i);
        let col_vals = board.get_col_values(i);
        let grid_inds = board.get_grid_indices(i);
        let grid_vals = board.get_grid_values(i);
        for j in 0..board.side_length {
            let ind = row_inds[j];
            assert_eq!(row_vals[j], board.squares[ind]);
        }
        for j in 0..board.side_length {
            let ind = col_inds[j];
            assert_eq!(col_vals[j], board.squares[ind]);
        }
        for j in 0..board.side_length {
            let ind = grid_inds[j];
            assert_eq!(grid_vals[j], board.squares[ind]);
        }
    }
}

#[test]
fn test_set_coord() {
    let mut solved_board = Board::from_string(&SOLVED_PUZZLE_STR);
    let mut unsolved_board = Board::from_string(&UNSOLVED_PUZZLE_STR);

    for i in 0..solved_board.num_squares {
        let (x, y) = (i).into_coord(solved_board.side_length);
        let val = solved_board.get_val((x, y)).unwrap();
        solved_board.set_val((x, y), val).unwrap();
        unsolved_board.set_val((x, y), val).unwrap();
    }
}

#[test]
#[should_panic]
fn test_set_coord_invalid_0() {
    let mut new_board = Board::from_string(&SOLVED_PUZZLE_STR);
    for i in 0..new_board.num_squares {
        new_board.set_val(i, Some(0)).unwrap();
    }
}

#[test]
#[should_panic]
fn test_set_coord_invalid_10() {
    let mut new_board = Board::from_string(&SOLVED_PUZZLE_STR);
    for i in 0..new_board.num_squares {
        new_board.set_val(i, Some(10)).unwrap();
    }
}

#[test]
#[should_panic]
fn test_set_coord_invalid_neg1() {
    let mut new_board = Board::from_string(&SOLVED_PUZZLE_STR);
    for i in 0..NUM_SQUARES {
        new_board.set_val(i, Some(10)).unwrap();
    }
}

#[test]
fn set_val_refuses_values_out_of_range_and_keeps_the_cell() {
    let mut board = Board::from_string(UNSOLVED_PUZZLE_STR);
    assert_eq!(Err(BoardError::InvalidValue), board.set_val(0, Some(0)));
    assert_eq!(Err(BoardError::InvalidValue), board.set_val(0, Some(10)));
    assert_eq!(Err(BoardError::InvalidValue), board.set_val((4, 0), Some(-1)));
    assert_eq!(Ok(Some(8)), board.get_val(0));
    assert_eq!(Ok(None), board.get_val((4, 0)));
    assert_eq!(UNSOLVED_PUZZLE_STR, board.to_string());
}

#[test]
fn positions_off_the_board_are_refused() {
    let mut board = Board::from_string(UNSOLVED_PUZZLE_STR);
    assert_eq!(Err(BoardError::IndexOutOfRange), board.get_val(81));
    assert_eq!(Err(BoardError::IndexOutOfRange), board.get_val((0, 9)));
    assert_eq!(Err(BoardError::IndexOutOfRange), board.set_val(81, Some(1)));
    // The index is looked at before the value.
    assert_eq!(Err(BoardError::IndexOutOfRange), board.set_val(81, Some(0)));
    assert_eq!(UNSOLVED_PUZZLE_STR, board.to_string());
    assert_eq!(Ok(()), board.set_val((4, 0), Some(9)));
    assert_eq!(Ok(Some(9)), board.get_val(4));
    assert_eq!(Ok(()), board.set_val(4, None));
    assert_eq!(UNSOLVED_PUZZLE_STR, board.to_string());
}

#[test]
fn error_messages() {
    assert_eq!("Index out of range!", BoardError::IndexOutOfRange.message());
    assert_eq!("Invalid value!", BoardError::InvalidValue.message());
    assert_eq!("Error generating board", BoardError::GenerationError.message());
}

#[test]
fn index_and_coordinate_agree_on_every_cell() {
    for width in 1..17usize {
        for p in 0..width * width {
            let coord = p.into_coord(width);
            assert_eq!(p, coord.into_pos(width));
            assert_eq!(p.row_num(width), coord.row_num(width));
            assert_eq!(p.col_num(width), coord.col_num(width));
        }
    }
}

#[test]
fn block_numbers() {
    // base * (row / base) + col / base
    assert_eq!(0, (0usize, 0usize).grid_num(9, 3));
    assert_eq!(1, (3usize, 2usize).grid_num(9, 3));
    assert_eq!(4, (4usize, 4usize).grid_num(9, 3));
    assert_eq!(8, (8usize, 8usize).grid_num(9, 3));
    assert_eq!(6, (2usize, 8usize).grid_num(9, 3));
    assert_eq!(8, 80usize.grid_num(9, 3));
    assert_eq!(3, 27usize.grid_num(9, 3));
    assert_eq!(13, (5usize, 12usize).grid_num(16, 4));
    // A column off the grid counts on: 3 * (0 / 3) + 9 / 3.
    assert_eq!(3, (9usize, 0usize).grid_num(9, 3));
    let board = Board::from_base_num(2);
    assert_eq!(3, board.get_grid_num((3, 3)));
    assert_eq!(2, board.get_grid_num(8usize));
    assert_eq!(2, board.get_row_num(8usize));
    assert_eq!(1, board.get_col_num(5usize));
}

#[test]
fn boards_of_other_sizes() {
    let small = Board::from_base_num(2);
    assert_eq!((16, 4, 1, 4, 2), (small.num_squares, small.side_length, small.min_value, small.max_value, small.base_num));
    let large = Board::from_size(256);
    assert_eq!((256, 16, 1, 16, 4), (large.num_squares, large.side_length, large.min_value, large.max_value, large.base_num));
    let none = Board::from_base_num(0);
    assert_eq!(0, none.squares.len());
    // 80 is no fourth power: the roots are rounded down.
    let odd = Board::from_size(80);
    assert_eq!((80, 8, 2), (odd.squares.len(), odd.side_length, odd.base_num));
    assert_eq!(16, small.num_remaining());
    assert_eq!(0, small.num_filled());
}

#[test]
fn tokens_that_give_an_empty_cell() {
    let board = Board::from_string("1, x, 5, -2, +3, 04, , 4,\t 2 ,0,3,4 ,1,2,3,4,1");
    assert_eq!(16, board.squares.len());
    assert_eq!(
        vec![Some(1), None, None, None, Some(3), Some(4), Some(4), Some(2), None, Some(3), Some(4), Some(1), Some(2), Some(3), Some(4), Some(1)],
        board.squares
    );
    let dense = Board::from_string("12 34\n4a21 0.03 4321");
    assert_eq!(
        vec![Some(1), Some(2), Some(3), Some(4), Some(4), None, Some(2), Some(1), None, None, None, Some(3), Some(4), Some(3), Some(2), Some(1)],
        dense.squares
    );
    assert_eq!("1,2,3,4,4,0,2,1,0,0,0,3,4,3,2,1", dense.to_string());
    assert_eq!(0, Board::from_string("  ").squares.len());
    assert_eq!(vec![Some(1)], Board::from_string("1").squares);
    assert_eq!(vec![None], Board::from_string("99999999999999999999,").squares);
}

#[test]
fn text_round_trip() {
    for text in [SOLVED_PUZZLE_STR, UNSOLVED_PUZZLE_STR, EMPTY_PUZZLE_STR] {
        let board = Board::from_string(text);
        let again = Board::from_string(&board.to_string());
        assert_eq!(board.squares, again.squares);
        assert_eq!(board.base_num, again.base_num);
    }
    let mut wide = Board::from_base_num(4);
    wide.set_val((3, 2), Some(16)).unwrap();
    wide.set_val(7, Some(10)).unwrap();
    let again = Board::from_string(&wide.to_string());
    assert_eq!(wide.squares, again.squares);
    assert!(wide.to_string().starts_with("0,0,0,0,0,0,0,10,0"));
}

#[test]
fn set_whole_houses() {
    let mut board = Board::from_base_num(2);
    board.set_row(1, vec![Some(1), Some(2), Some(3), Some(4)]);
    assert_eq!("0,0,0,0,1,2,3,4,0,0,0,0,0,0,0,0", board.to_string());
    board.set_col(3, vec![Some(2), None, Some(1), Some(3)]);
    assert_eq!("0,0,0,2,1,2,3,0,0,0,0,1,0,0,0,3", board.to_string());
    board.set_grid(2, vec![Some(4), Some(3), Some(2), Some(1)]);
    assert_eq!("0,0,0,2,1,2,3,0,4,3,0,1,2,1,0,3", board.to_string());
    assert_eq!(vec![8, 9, 12, 13], board.get_grid_indices(2));
    assert_eq!(vec![3, 7, 11, 15], board.get_col_indices(3));
    assert_eq!(vec![4, 5, 6, 7], board.get_row_indices(1));
    assert_eq!(10, board.num_filled());
    assert_eq!(6, board.num_remaining());
    let copy = board.clone();
    assert_eq!(board.squares, copy.squares);
}

#[test]
fn boards_are_equal_when_their_cells_are() {
    let board = Board::from_string(UNSOLVED_PUZZLE_STR);
    assert_eq!(board, Board::from_string(&board.to_string()));
    assert_eq!(board, board.clone());
    assert_ne!(board, Board::from_string(SOLVED_PUZZLE_STR));
    assert_ne!(board, Board::from_base_num(2));
    assert_eq!(Board::default(), Board::from_string(EMPTY_PUZZLE_STR));
    let solved = Board::from_string(SOLVED_PUZZLE_STR);
    assert_eq!(solved, Board::from_string(&solved.to_string()));
}

#[test]
fn well_formed_boards() {
    assert!(Board::default().is_well_formed());
    assert!(Board::from_string(UNSOLVED_PUZZLE_STR).is_well_formed());
    assert!(Board::from_base_num(0).is_well_formed());
    assert!(Board::from_base_num(1).is_well_formed());
    // 80 cells are no board.
    assert!(!Board::from_size(80).is_well_formed());
    assert!(!Board::from_string("1,2,3").is_well_formed());
    let mut board = Board::from_base_num(2);
    board.squares[3] = Some(5);
    assert!(!board.is_well_formed());
    board.squares[3] = Some(4);
    assert!(board.is_well_formed());
    board.max_value = 5;
    assert!(!board.is_well_formed());
}
