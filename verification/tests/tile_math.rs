use mapbox_wallpaper_generator::tile_math::{
    tile_grid_offsets, GridError, TileOffset, LOGICAL_TILE_SIZE_PX, PHYSICAL_TILE_SIZE_PX,
};

#[test]
fn returns_expected_tile_count() {
    let grid = tile_grid_offsets(5, 3).unwrap();
    assert_eq!(grid.len(), 15);
}

#[test]
fn adjacent_tile_centers_are_1280_logical_px_apart() {
    let grid = tile_grid_offsets(3, 1).unwrap();
    let left = grid.iter().find(|t| t.col == 0).unwrap();
    let mid = grid.iter().find(|t| t.col == 1).unwrap();
    let right = grid.iter().find(|t| t.col == 2).unwrap();
    assert_eq!(mid.dx_px - left.dx_px, LOGICAL_TILE_SIZE_PX as i64);
    assert_eq!(right.dx_px - mid.dx_px, LOGICAL_TILE_SIZE_PX as i64);
}

#[test]
fn rejects_empty_grid() {
    assert_eq!(tile_grid_offsets(0, 1), Err(GridError::EmptyGrid));
    assert_eq!(tile_grid_offsets(1, 0), Err(GridError::EmptyGrid));
    assert_eq!(tile_grid_offsets(0, 0), Err(GridError::EmptyGrid));
}

#[test]
fn grid_is_row_major_and_centered() {
    let grid = tile_grid_offsets(2, 3).unwrap();
    let expected = vec![
        TileOffset { row: 0, col: 0, dx_px: -640, dy_px: -1280 },
        TileOffset { row: 0, col: 1, dx_px: 640, dy_px: -1280 },
        TileOffset { row: 1, col: 0, dx_px: -640, dy_px: 0 },
        TileOffset { row: 1, col: 1, dx_px: 640, dy_px: 0 },
        TileOffset { row: 2, col: 0, dx_px: -640, dy_px: 1280 },
        TileOffset { row: 2, col: 1, dx_px: 640, dy_px: 1280 },
    ];
    assert_eq!(grid, expected);
}

#[test]
fn single_tile_sits_on_the_center() {
    let grid = tile_grid_offsets(1, 1).unwrap();
    assert_eq!(grid, vec![TileOffset { row: 0, col: 0, dx_px: 0, dy_px: 0 }]);
}

#[test]
fn default_grid_spans_the_documented_resolution() {
    let grid = tile_grid_offsets(5, 3).unwrap();
    let first = grid[0];
    let last = grid[grid.len() - 1];
    assert_eq!(first, TileOffset { row: 0, col: 0, dx_px: -2560, dy_px: -1280 });
    assert_eq!(last, TileOffset { row: 2, col: 4, dx_px: 2560, dy_px: 1280 });
    assert_eq!(5 * PHYSICAL_TILE_SIZE_PX, 12800);
    assert_eq!(3 * PHYSICAL_TILE_SIZE_PX, 7680);
}
