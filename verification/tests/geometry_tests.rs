use sudoku::board::{get_col_indices, get_grid_indices, get_row_indices, Coord, Pos, Position};
use sudoku::geometry::isqrt;

const GROUP_NUM: Pos = 9;

fn point_to_coord(pt: Pos) -> Coord {
    (pt).into_coord(GROUP_NUM)
}

fn coord_to_point(crd: Coord) -> Pos {
    (crd).into_pos(GROUP_NUM)
}

fn get_col_num(pt: Pos) -> Pos {
    let (col_num, _) = (pt).into_coord(GROUP_NUM);
    col_num
}

fn get_row_num(pt: Pos) -> Pos {
    let (_, row_num) = (pt).into_coord(GROUP_NUM);
    row_num
}

#[test]
fn test_point_to_coord() {
    assert_eq!((0, 0), point_to_coord(0));
    assert_eq!((1, 0), point_to_coord(1));
    assert_eq!((8, 0), point_to_coord(8));

    assert_eq!((0, 1), point_to_coord(9));
    assert_eq!((1, 1), point_to_coord(10));

    assert_eq!((8, 8), point_to_coord(80));
}

#[test]
fn test_coord_to_point() {
    assert_eq!(0, coord_to_point((0, 0)));
    assert_eq!(1, coord_to_point((1, 0)));
    assert_eq!(2, coord_to_point((2, 0)));

    assert_eq!(9, coord_to_point((0, 1)));
    assert_eq!(10, coord_to_point((1, 1)));
    assert_eq!(11, coord_to_point((2, 1)));

    assert_eq!(80, coord_to_point((8, 8)));
}

#[test]
fn test_get_row_num() {
    assert_eq!(0, get_row_num(0));
    assert_eq!(0, get_row_num(1));
    assert_eq!(0, get_row_num(2));
    assert_eq!(0, get_row_num(8));

    assert_eq!(1, get_row_num(9));
    assert_eq!(2, get_row_num(18));
    assert_eq!(3, get_row_num(27));

    assert_eq!(7, get_row_num(63));
    assert_eq!(8, get_row_num(72));
    assert_eq!(8, get_row_num(80));
}

#[test]
fn test_get_col_num() {
    assert_eq!(0, get_col_num(0));
    assert_eq!(1, get_col_num(1));
    assert_eq!(2, get_col_num(2));
    assert_eq!(3, get_col_num(3));
    assert_eq!(4, get_col_num(4));
    assert_eq!(5, get_col_num(5));
    assert_eq!(6, get_col_num(6));
    assert_eq!(7, get_col_num(7));
    assert_eq!(8, get_col_num(8));

    assert_eq!(0, get_col_num(9));
    assert_eq!(1, get_col_num(10));

    assert_eq!(8, get_col_num(80));
}

#[test]
fn index_lists_of_houses() {
    assert_eq!(vec![18, 19, 20, 21, 22, 23, 24, 25, 26], get_row_indices(2, 9));
    assert_eq!(vec![2, 11, 20, 29, 38, 47, 56, 65, 74], get_col_indices(2, 9));
    assert_eq!(vec![6, 7, 8, 15, 16, 17, 24, 25, 26], get_grid_indices(2, 9));
    assert_eq!(vec![30, 31, 32, 39, 40, 41, 48, 49, 50], get_grid_indices(4, 9));
    assert_eq!(vec![10, 11, 14, 15], get_grid_indices(3, 4));
    assert_eq!(vec![0], get_grid_indices(0, 1));
    assert_eq!(Vec::<usize>::new(), get_row_indices(0, 0));
    // A row below the grid, and a width that is no square: blocks of side 2.
    assert_eq!(vec![108, 109, 110, 111, 112, 113, 114, 115, 116], get_row_indices(12, 9));
    assert_eq!(vec![50, 51, 58, 59], get_grid_indices(7, 8));
}

#[test]
fn square_roots_are_rounded_down() {
    let expected = [0, 1, 1, 1, 2, 2, 2, 2, 2, 3, 3];
    for n in 0..expected.len() {
        assert_eq!(expected[n], isqrt(n));
    }
    assert_eq!(9, isqrt(81));
    assert_eq!(9, isqrt(99));
    assert_eq!(10, isqrt(100));
    assert_eq!((1usize << (usize::BITS / 2)) - 1, isqrt(usize::MAX));
    assert_eq!(65535, isqrt(4294967295));
    assert_eq!(46340, isqrt(2147483647));
}
