use puzzle::{Grid, TileValue};

/// The cells of `grid`, read row by row from the top.
fn cells<const N: usize>(grid: &Grid<N>) -> Vec<TileValue> {
    let mut cells = Vec::new();
    let mut cursor = grid.iter();
    while let Some(tile) = cursor.next() {
        cells.push(*tile.tile);
    }
    cells
}

/// Whether `grid` holds one empty cell and each tile from 1 to `N * N - 1`
/// once.
fn is_arrangement<const N: usize>(grid: &Grid<N>) -> bool {
    let mut found = cells(grid);
    found.sort();
    let mut expected: Vec<TileValue> = vec![None];
    for tile in 1..(N * N) as u32 {
        expected.push(Some(tile));
    }
    found == expected
}

#[test]
fn new_board_holds_one_empty_cell_and_every_tile_once() {
    for _ in 0..20 {
        assert!(is_arrangement(&Grid::<4>::new()));
    }
}

#[test]
fn new_boards_of_other_sizes_hold_every_tile_once() {
    assert!(is_arrangement(&Grid::<2>::new()));
    assert!(is_arrangement(&Grid::<3>::new()));
    assert!(is_arrangement(&Grid::<5>::new()));
    assert!(is_arrangement(&Grid::<8>::new()));
}

#[test]
fn new_board_of_one_cell_is_the_empty_cell() {
    assert_eq!(cells(&Grid::<1>::new()), vec![None]);
}

#[test]
fn new_board_without_cells_is_empty() {
    assert_eq!(cells(&Grid::<0>::new()), Vec::<TileValue>::new());
}

#[test]
fn new_boards_come_in_a_shuffled_order() {
    // Dealt unshuffled, the tiles would stand in falling order, the empty
    // cell last.
    let mut unshuffled: Vec<TileValue> = (1..16).rev().map(Some).collect();
    unshuffled.push(None);
    let boards: Vec<Vec<TileValue>> = (0..20).map(|_| cells(&Grid::<4>::new())).collect();
    assert!(boards.iter().any(|board| *board != unshuffled));
    assert!(boards.iter().any(|board| *board != boards[0]));
}

#[test]
fn values_are_dealt_from_the_last_to_the_first() {
    let grid = Grid::<2>::from_values(vec![Some(3), Some(2), None, Some(1)]).unwrap();
    assert_eq!(cells(&grid), vec![Some(1), None, Some(2), Some(3)]);
}

#[test]
fn values_beyond_the_cells_are_left_over() {
    let grid =
        Grid::<2>::from_values(vec![Some(9), Some(8), Some(3), Some(2), None, Some(1)]).unwrap();
    assert_eq!(cells(&grid), vec![Some(1), None, Some(2), Some(3)]);
}

#[test]
fn too_few_values_make_no_board() {
    assert!(Grid::<2>::from_values(vec![Some(3), Some(2), None]).is_none());
    assert!(Grid::<2>::from_values(Vec::new()).is_none());
    assert!(Grid::<4>::from_values(vec![None; 15]).is_none());
    assert!(Grid::<1>::from_values(Vec::new()).is_none());
}

#[test]
fn exactly_enough_values_make_a_board() {
    assert!(Grid::<4>::from_values(vec![None; 16]).is_some());
    assert!(Grid::<1>::from_values(vec![Some(7)]).is_some());
    assert!(Grid::<0>::from_values(Vec::new()).is_some());
}

#[test]
fn any_values_can_be_dealt() {
    let grid = Grid::<2>::from_values(vec![Some(u32::MAX), Some(0), Some(5), Some(5)]).unwrap();
    assert_eq!(
        cells(&grid),
        vec![Some(5), Some(5), Some(0), Some(u32::MAX)]
    );
}
