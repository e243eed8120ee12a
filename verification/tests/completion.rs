use puzzle::{Grid, TileValue};

/// The values of `cells`, a 0 standing for the empty cell.
fn values_of(cells: &[u32]) -> Vec<TileValue> {
    cells
        .iter()
        .map(|&v| if v == 0 { None } else { Some(v) })
        .collect()
}

/// The board whose rows, read from the top, hold `cells`.
fn board<const N: usize>(cells: &[u32]) -> Grid<N> {
    let mut values = values_of(cells);
    values.reverse();
    Grid::from_values(values).unwrap()
}

const SOLVED: [u32; 16] = [1, 2, 3, 4, 5, 6, 7, 8, 9, 10, 11, 12, 13, 14, 15, 0];

#[test]
fn solved_board_is_complete() {
    let grid = board::<4>(&SOLVED);
    assert!(grid.is_complete());
}

#[test]
fn solved_board_with_any_two_cells_exchanged_is_not_complete() {
    for a in 0..16 {
        for b in (a + 1)..16 {
            let mut cells = SOLVED;
            cells.swap(a, b);
            let grid = board::<4>(&cells);
            assert!(!grid.is_complete(), "cells {a} and {b} exchanged");
        }
    }
}

#[test]
fn board_with_the_empty_cell_first_is_not_complete() {
    let grid = board::<4>(&[0, 1, 2, 3, 4, 5, 6, 7, 8, 9, 10, 11, 12, 13, 14, 15]);
    assert!(!grid.is_complete());
}

#[test]
fn board_with_a_tile_in_the_last_cell_is_not_complete() {
    let grid = board::<4>(&[1, 2, 3, 4, 5, 6, 7, 8, 9, 10, 11, 12, 13, 14, 15, 16]);
    assert!(!grid.is_complete());
}

#[test]
fn board_with_two_empty_cells_is_not_complete() {
    let grid = board::<4>(&[1, 2, 3, 4, 5, 6, 0, 8, 9, 10, 11, 12, 13, 14, 15, 0]);
    assert!(!grid.is_complete());
}

#[test]
fn solved_boards_of_other_sizes_are_complete() {
    assert!(board::<1>(&[0]).is_complete());
    assert!(board::<2>(&[1, 2, 3, 0]).is_complete());
    assert!(board::<3>(&[1, 2, 3, 4, 5, 6, 7, 8, 0]).is_complete());
    assert!(board::<5>(&[
        1, 2, 3, 4, 5, 6, 7, 8, 9, 10, 11, 12, 13, 14, 15, 16, 17, 18, 19, 20, 21, 22, 23, 24, 0
    ])
    .is_complete());
}

#[test]
fn unsolved_boards_of_other_sizes_are_not_complete() {
    assert!(!board::<1>(&[1]).is_complete());
    assert!(!board::<2>(&[1, 2, 0, 3]).is_complete());
    assert!(!board::<3>(&[1, 2, 3, 4, 5, 6, 8, 7, 0]).is_complete());
}

#[test]
fn board_without_cells_is_complete() {
    let grid = Grid::<0>::from_values(Vec::new()).unwrap();
    assert!(grid.is_complete());
}

#[test]
fn completion_does_not_change_the_board() {
    let grid = board::<4>(&SOLVED);
    assert!(grid.is_complete());
    assert!(grid.is_complete());
    let mut seen = Vec::new();
    let mut cursor = grid.iter();
    while let Some(tile) = cursor.next() {
        seen.push(*tile.tile);
    }
    assert_eq!(seen, values_of(&SOLVED));
}
