use puzzle::{Grid, GridTile, TileValue};

/// The board whose rows, read from the top, hold `cells`, a 0 standing for
/// the empty cell.
fn board<const N: usize>(cells: &[u32]) -> Grid<N> {
    let mut values: Vec<TileValue> = cells
        .iter()
        .map(|&v| if v == 0 { None } else { Some(v) })
        .collect();
    values.reverse();
    Grid::from_values(values).unwrap()
}

/// What a traversal of `grid` yields, as triples of column, row and value.
fn triples<const N: usize>(grid: &Grid<N>) -> Vec<(usize, usize, TileValue)> {
    let mut triples = Vec::new();
    let mut cursor = grid.iter();
    while let Some(tile) = cursor.next() {
        triples.push((tile.x, tile.y, *tile.tile));
    }
    triples
}

/// The tiles made of `triples`.
fn tiles(triples: &[(usize, usize, TileValue)]) -> Vec<GridTile<'_>> {
    triples
        .iter()
        .map(|(x, y, tile)| GridTile {
            tile,
            x: *x,
            y: *y,
        })
        .collect()
}

#[test]
fn traversal_goes_row_by_row_from_left_to_right() {
    let grid = board::<2>(&[1, 0, 2, 3]);
    assert_eq!(
        triples(&grid),
        vec![
            (0, 0, Some(1)),
            (1, 0, None),
            (0, 1, Some(2)),
            (1, 1, Some(3)),
        ]
    );
}

#[test]
fn traversal_yields_every_cell_once() {
    let grid = board::<4>(&[1, 2, 3, 4, 5, 6, 0, 8, 9, 10, 11, 12, 13, 14, 15, 7]);
    let seen = triples(&grid);
    assert_eq!(seen.len(), 16);
    for (k, (x, y, _)) in seen.iter().enumerate() {
        assert_eq!((*x, *y), (k % 4, k / 4));
    }
    let values: Vec<u32> = seen.iter().map(|(_, _, tile)| tile.unwrap_or(0)).collect();
    assert_eq!(
        values,
        vec![1, 2, 3, 4, 5, 6, 0, 8, 9, 10, 11, 12, 13, 14, 15, 7]
    );
}

#[test]
fn traversal_ends_and_stays_ended() {
    let grid = board::<2>(&[1, 0, 2, 3]);
    let mut cursor = grid.iter();
    for _ in 0..4 {
        assert!(cursor.next().is_some());
    }
    assert!(cursor.next().is_none());
    assert!(cursor.next().is_none());
}

#[test]
fn traversal_can_be_started_anew() {
    let grid = board::<3>(&[1, 2, 3, 4, 0, 5, 6, 7, 8]);
    let first = triples(&grid);
    let second = triples(&grid);
    assert_eq!(first, second);
    let mut one = grid.iter();
    let mut other = grid.iter();
    one.next();
    one.next();
    let tile = other.next().unwrap();
    assert_eq!((tile.x, tile.y, *tile.tile), (0, 0, Some(1)));
}

#[test]
fn traversal_of_a_board_without_cells_yields_nothing() {
    let grid = Grid::<0>::from_values(Vec::new()).unwrap();
    assert!(grid.iter().next().is_none());
}

#[test]
fn board_rebuilt_from_its_traversal_is_the_same() {
    let grid = board::<4>(&[1, 2, 3, 4, 5, 6, 0, 8, 9, 10, 11, 12, 13, 14, 15, 7]);
    let seen = triples(&grid);
    let rebuilt = Grid::<4>::from_tiles(&tiles(&seen)).unwrap();
    assert_eq!(triples(&rebuilt), seen);
}

#[test]
fn new_board_rebuilt_from_its_traversal_is_the_same() {
    for _ in 0..10 {
        let grid = Grid::<4>::new();
        let seen = triples(&grid);
        let rebuilt = Grid::<4>::from_tiles(&tiles(&seen)).unwrap();
        assert_eq!(triples(&rebuilt), seen);
    }
}

#[test]
fn rebuilt_board_behaves_as_the_board_it_was_read_from() {
    let mut grid = board::<4>(&[1, 2, 3, 4, 5, 6, 0, 8, 9, 10, 11, 12, 13, 14, 15, 7]);
    let seen = triples(&grid);
    let mut rebuilt = Grid::<4>::from_tiles(&tiles(&seen)).unwrap();
    assert_eq!(rebuilt.find_empty(0, 1), grid.find_empty(0, 1));
    grid.shift_tiles(0, 1);
    rebuilt.shift_tiles(0, 1);
    assert_eq!(triples(&rebuilt), triples(&grid));
    assert_eq!(rebuilt.is_complete(), grid.is_complete());
}

#[test]
fn tiles_of_the_wrong_number_rebuild_nothing() {
    let seen = triples(&board::<2>(&[1, 0, 2, 3]));
    assert!(Grid::<2>::from_tiles(&tiles(&seen[..3])).is_none());
    assert!(Grid::<2>::from_tiles(&tiles(&[])).is_none());
    assert!(Grid::<3>::from_tiles(&tiles(&seen)).is_none());
    let mut longer = seen.clone();
    longer.push((0, 2, Some(4)));
    assert!(Grid::<2>::from_tiles(&tiles(&longer)).is_none());
}

#[test]
fn tiles_out_of_order_rebuild_nothing() {
    let mut seen = triples(&board::<2>(&[1, 0, 2, 3]));
    seen.swap(1, 2);
    assert!(Grid::<2>::from_tiles(&tiles(&seen)).is_none());
}

#[test]
fn tile_in_the_wrong_place_rebuilds_nothing() {
    let seen = triples(&board::<2>(&[1, 0, 2, 3]));
    let mut wrong_column = seen.clone();
    wrong_column[3].0 = 0;
    assert!(Grid::<2>::from_tiles(&tiles(&wrong_column)).is_none());
    let mut wrong_row = seen.clone();
    wrong_row[0].1 = 1;
    assert!(Grid::<2>::from_tiles(&tiles(&wrong_row)).is_none());
    let mut off_board = seen;
    off_board[2].1 = 2;
    assert!(Grid::<2>::from_tiles(&tiles(&off_board)).is_none());
}

#[test]
fn no_tiles_rebuild_the_board_without_cells() {
    assert!(Grid::<0>::from_tiles(&tiles(&[])).is_some());
}
