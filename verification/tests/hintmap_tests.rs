use sudoku::board::Board;
use sudoku::hintmap::HintMap;

const UNSOLVED_PUZZLE_STR: &str = "8,2,7,1,0,4,0,0,6,\
0,6,5,3,2,7,1,4,8,\
0,4,1,6,0,0,7,5,0,\
5,0,3,4,6,0,0,7,1,\
0,7,2,5,1,0,6,0,9,\
6,1,8,0,0,0,4,0,5,\
7,0,6,0,3,5,0,0,0,\
0,5,4,7,0,6,0,2,3,\
2,3,0,8,4,1,5,0,7";

#[test]
fn test_hint_map() {
    let unsolved = Board::from_string(UNSOLVED_PUZZLE_STR);
    let hmap = HintMap::from_board(&unsolved);
    assert_eq!(vec![9], hmap.get_hints(9));
}

#[test]
fn hints_of_filled_and_empty_cells() {
    let board = Board::from_string("1,0,0,0,0,0,0,0,0,0,0,0,0,0,0,0");
    let hmap = HintMap::from_board(&board);
    assert_eq!(Vec::<i32>::new(), hmap.get_hints(0));
    assert_eq!(vec![2, 3, 4], hmap.get_hints(1));
    assert_eq!(vec![2, 3, 4], hmap.get_hints((0, 1)));
    assert_eq!(vec![2, 3, 4], hmap.get_hints(5));
    assert_eq!(vec![1, 2, 3, 4], hmap.get_hints(15));
    assert_eq!(15, hmap.hints.len());
    assert_eq!(4, hmap.side_length);
    assert_eq!(None, hmap.find_square_answer(0));
    assert_eq!(None, hmap.find_square_answer(1));
}

#[test]
fn naked_and_hidden_singles() {
    // Cell 3 has the one candidate 4.
    let board = Board::from_string("1,2,3,0,0,0,0,0,0,0,0,0,0,0,0,0");
    let hmap = HintMap::from_board(&board);
    assert_eq!(vec![4], hmap.get_hints(3));
    assert_eq!(Some(4), hmap.find_square_answer(3));
    // Cell 0 lists every value; of its row only cell 0 can take the 1, as
    // column 1 and the block of cells 2 and 3 hold one already.
    let board = Board::from_string("0,0,0,0,0,0,0,1,0,1,0,0,0,0,0,0");
    let hmap = HintMap::from_board(&board);
    assert_eq!(vec![1, 2, 3, 4], hmap.get_hints(0));
    assert_eq!(vec![2, 3, 4], hmap.get_hints(1));
    assert_eq!(Some(1), hmap.find_square_answer(0));
    assert_eq!(None, hmap.find_square_answer(1));
}

#[test]
fn ordered_by_count_then_index() {
    let board = Board::from_string("1,2,3,0,0,0,0,0,0,0,0,0,0,0,0,0");
    let hmap = HintMap::from_board(&board);
    let ordered = hmap.get_ordered();
    assert_eq!(13, ordered.len());
    assert_eq!((3, vec![4]), ordered[0]);
    let keys: Vec<(usize, usize)> = ordered.iter().map(|e| (e.1.len(), e.0)).collect();
    let mut sorted = keys.clone();
    sorted.sort();
    assert_eq!(sorted, keys);
    for (cell, list) in ordered {
        assert_eq!(list, hmap.get_hints(cell));
    }
}
