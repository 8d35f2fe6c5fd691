use rurp::bounds::Bounds;
use rurp::grid::{Grid, GridError};

fn conus_bounds() -> Bounds {
    Bounds::new(-2_221_060, 523_589, 3_181_702, 3_363_319).unwrap()
}

fn stub_bounds() -> Bounds {
    Bounds::new(0, 0, 10, 10).unwrap()
}

fn check_from_bounds(resolution: usize, expected_height: usize, expected_width: usize, nodata: i64) {
    let bounds = conus_bounds();
    let grid = Grid::empty_from_bounds(&bounds, resolution, nodata).unwrap();
    let (left, bottom, right, top) = bounds.to_tuple();

    assert_eq!(grid.width(), expected_width);
    assert_eq!(grid.height(), expected_height);
    assert_eq!(grid.data().len(), expected_width * expected_height);

    assert_eq!(grid.value(0, 0), nodata);
    assert_eq!(grid.x(0, 0), left);
    assert_eq!(grid.y(0, 0), bottom);

    let max_y = expected_height - 1;
    let max_x = expected_width - 1;
    assert_eq!(grid.value(max_y, max_x), nodata);
    assert_eq!(grid.x(max_y, max_x), right);
    assert_eq!(grid.y(max_y, max_x), top);

    let mid_y = expected_height / 2;
    let mid_x = expected_width / 2;
    assert_eq!(grid.value(mid_y, mid_x), nodata);
    let mid_world_x = (right as i64 + left as i64) / 2;
    let mid_world_y = (top as i64 + bottom as i64) / 2;
    assert!((grid.x(mid_y, mid_x) as i64 - mid_world_x).abs() < resolution as i64);
    assert!((grid.y(mid_y, mid_x) as i64 - mid_world_y).abs() < resolution as i64);
}

#[test]
fn test_from_bounds() {
    check_from_bounds(4000, 710, 1351, i64::MIN);
    check_from_bounds(8000, 355, 676, -9999);
    check_from_bounds(1200, 2367, 4503, i64::MAX);
}

#[test]
fn test_properties() {
    for (bounds, resolution, expected_height, expected_width) in
        [(stub_bounds(), 1, 10, 10), (conus_bounds(), 8000, 355, 676)]
    {
        let grid = Grid::empty_from_bounds(&bounds, resolution, -1).unwrap();
        assert_eq!(grid.width(), expected_width);
        assert_eq!(grid.height(), expected_height);
        assert_eq!(grid.bounds(), bounds);
        assert_eq!(grid.world_width(), bounds.right() as i64 - bounds.left() as i64);
        assert_eq!(grid.world_height(), bounds.top() as i64 - bounds.bottom() as i64);
        assert_eq!(grid.nodata(), -1);
    }
}

#[test]
fn test_ceiling_rule() {
    let bounds = Bounds::new(0, 0, 10, 15).unwrap();
    let grid = Grid::empty_from_bounds(&bounds, 4, 0).unwrap();
    assert_eq!(grid.width(), 3);
    assert_eq!(grid.height(), 4);
}

#[test]
fn test_zero_resolution_is_rejected() {
    let result = Grid::empty_from_bounds(&stub_bounds(), 0, 0);
    assert_eq!(result.unwrap_err(), GridError::InvalidResolution);
    assert!(GridError::InvalidResolution.message().contains("resolution"));
}

#[test]
fn test_single_cell_grid() {
    let grid = Grid::empty_from_bounds(&stub_bounds(), 10, 7).unwrap();
    assert_eq!(grid.width(), 1);
    assert_eq!(grid.height(), 1);
    assert_eq!(grid.x(0, 0), 0);
    assert_eq!(grid.y(0, 0), 0);
    assert_eq!(grid.data(), &vec![7]);
}

#[test]
fn test_coordinates_increase() {
    let grid = Grid::empty_from_bounds(&stub_bounds(), 1, 0).unwrap();
    let xs: Vec<i32> = (0..10).map(|j| grid.x(0, j)).collect();
    let ys: Vec<i32> = (0..10).map(|i| grid.y(i, 0)).collect();
    assert_eq!(xs, vec![0, 1, 2, 3, 4, 5, 6, 7, 8, 10]);
    assert_eq!(ys, vec![0, 1, 2, 3, 4, 5, 6, 7, 8, 10]);
    assert_eq!(grid.x(9, 3), 3);
    assert_eq!(grid.y(3, 9), 3);
}

#[test]
fn test_transform() {
    // positions are exact fractions: column = num / world_width, row = num / world_height
    let grid = Grid::empty_from_bounds(&stub_bounds(), 1, 0).unwrap();
    assert_eq!(grid.screen_to_world(0, 0), (0, 0));
    assert_eq!(grid.world_to_screen(0, 0), (0, 0));

    let bounds = conus_bounds();
    let grid = Grid::empty_from_bounds(&bounds, 8000, 0).unwrap();
    let (w, h) = (grid.width() as i128, grid.height() as i128);
    let (ww, wh) = (grid.world_width() as i128, grid.world_height() as i128);
    assert_eq!(grid.world_to_screen(-2_221_060, 523_589), (0, 0));
    let (x_num, y_num) = grid.screen_to_world(0, 0);
    assert_eq!((x_num / w, y_num / h), (-2_221_060, 523_589));
    assert_eq!((x_num % w, y_num % h), (0, 0));
    assert_eq!(grid.world_to_screen(3_181_702, 3_363_319), (w * ww, h * wh));
}

#[test]
fn test_transform_is_fractional() {
    let bounds = Bounds::new(0, 0, 3, 3).unwrap();
    let grid = Grid::empty_from_bounds(&bounds, 2, 0).unwrap();
    assert_eq!((grid.width(), grid.height()), (2, 2));
    // world (1, 1) is at grid position (2/3, 2/3)
    assert_eq!(grid.world_to_screen(1, 1), (2, 2));
    // grid position (1/3, 1) is at world (1/2, 3/2)
    assert_eq!(grid.screen_to_world(1, 3), (1, 3));
}

#[test]
fn test_transform_round_trip() {
    let bounds = Bounds::new(-1, -1, 10, 15).unwrap();
    let grid = Grid::empty_from_bounds(&bounds, 3, 0).unwrap();
    assert_eq!(grid.width(), 4);
    assert_eq!(grid.height(), 6);
    let (w, h) = (grid.width() as i128, grid.height() as i128);
    for x in -5..=14 {
        for y in -5..=20 {
            let (c, r) = grid.world_to_screen(x, y);
            assert_eq!(c, (x as i128 + 1) * w);
            assert_eq!(r, (y as i128 + 1) * h);
            assert_eq!(grid.screen_to_world(c, r), (x as i128 * w, y as i128 * h));
        }
    }
    for c in -30..=60 {
        for r in -30..=60 {
            let (x_num, y_num) = grid.screen_to_world(c, r);
            assert_eq!(grid.world_fraction_to_screen(x_num, y_num), (c, r));
        }
    }
}

#[test]
fn test_set_value() {
    let mut grid = Grid::empty_from_bounds(&stub_bounds(), 1, -1).unwrap();
    grid.set_value(3, 4, 42);
    assert_eq!(grid.value(3, 4), 42);
    assert_eq!(grid.data()[3 * 10 + 4], 42);
    assert_eq!(grid.value(4, 3), -1);
    assert_eq!(grid.data().iter().filter(|v| **v == -1).count(), 99);
}

#[test]
fn test_rasterize_square() {
    let mut grid = Grid::empty_from_bounds(&stub_bounds(), 1, -9999).unwrap();
    let mut square = Vec::new();
    for row in 2..7 {
        for col in 2..7 {
            square.push((row, col));
        }
    }
    grid.rasterize_polygons(&vec![square], &vec![50]);
    for row in 0..10 {
        for col in 0..10 {
            let inside = (2..7).contains(&row) && (2..7).contains(&col);
            let expected = if inside { 50 } else { -9999 };
            assert_eq!(grid.value(row, col), expected);
        }
    }
}

#[test]
fn test_rasterize_last_region_wins() {
    let mut grid = Grid::empty_from_bounds(&stub_bounds(), 1, -1).unwrap();
    grid.set_value(9, 9, 5);
    let first = vec![(0, 0), (0, 1), (1, 1)];
    let second = vec![(1, 1), (2, 2), (20, 20)];
    let third = vec![(0, 0)];
    grid.rasterize_polygons(&vec![first, second, third], &vec![10, 20]);
    assert_eq!(grid.value(0, 0), 10);
    assert_eq!(grid.value(0, 1), 10);
    assert_eq!(grid.value(1, 1), 20);
    assert_eq!(grid.value(2, 2), 20);
    assert_eq!(grid.value(9, 9), -1);
    assert_eq!(grid.data().iter().filter(|v| **v == -1).count(), 96);
}

fn check_world_cells(bounds: &Bounds, resolution: usize) {
    let mut grid = Grid::empty_from_bounds(bounds, resolution, -1).unwrap();
    for row in 0..grid.height() {
        for col in 0..grid.width() {
            grid.set_value(row, col, (row + col) as i64);
        }
    }
    let cells = grid.world_cells();
    assert_eq!(cells.len(), grid.width() * grid.height());
    let mut expected = Vec::new();
    for row in 0..grid.height() {
        for col in 0..grid.width() {
            expected.push((grid.x(row, col), grid.y(row, col), (row + col) as i64));
        }
    }
    assert_eq!(cells, expected);
    assert_eq!(cells[0], (bounds.left(), bounds.bottom(), 0));
    let last = (grid.height() - 1 + grid.width() - 1) as i64;
    assert_eq!(cells[cells.len() - 1], (bounds.right(), bounds.top(), last));
    assert_eq!(grid.world_cells(), cells);
}

#[test]
fn test_iter_word_mut() {
    check_world_cells(&stub_bounds(), 1);
    check_world_cells(&conus_bounds(), 8000);
}

#[test]
fn test_too_large_message() {
    assert!(GridError::TooLarge.message().contains("too many cells"));
    assert_ne!(GridError::TooLarge, GridError::InvalidResolution);
}
