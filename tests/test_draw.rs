use rurp::bounds::Bounds;
use rurp::draw::{grid_intensities, normalize, MAX_INTENSITY, NODATA_INTENSITY};
use rurp::grid::Grid;

#[test]
fn test_normalize() {
    let src_domain = (0, 1);
    let dst_domain = (0, 100);
    assert_eq!(normalize(0, src_domain, dst_domain), 0);
    assert_eq!(normalize(1, src_domain, dst_domain), 100);
    assert_eq!(normalize(1, (0, 2), dst_domain), 50);
}

#[test]
fn test_normalize_2() {
    let src_domain = (-4, 1);
    let dst_domain = (100, 200);
    assert_eq!(normalize(-4, src_domain, dst_domain), 100);
    assert_eq!(normalize(-3, (-8, 2), dst_domain), 150);
    assert_eq!(normalize(-1, src_domain, dst_domain), 160);
    assert_eq!(normalize(1, src_domain, dst_domain), 200);
}

#[test]
fn test_normalize_3() {
    let src_domain = (-3, -3);
    let dst_domain = (1, 65534);
    assert_eq!(normalize(-3, src_domain, dst_domain), 65534);
}

#[test]
fn test_normalize_rounds_to_nearest() {
    assert_eq!(normalize(1, (0, 3), (0, 1)), 0);
    assert_eq!(normalize(2, (0, 3), (0, 1)), 1);
    assert_eq!(normalize(1, (0, 2), (0, 1)), 1);
    assert_eq!(normalize(i64::MAX, (i64::MIN, i64::MAX), (0, 65535)), 65535);
    assert_eq!(normalize(-1, (0, 2), (0, 1)), -1);
}

#[test]
fn test_normalize_outside_domain() {
    assert_eq!(normalize(2, (0, 1), (0, 100)), 200);
    assert_eq!(normalize(-1, (0, 1), (0, 100)), -100);
    assert_eq!(normalize(5, (5, 5), (0, 100)), 100);
    assert_eq!(normalize(0, (1, 0), (0, 100)), 100);
    assert_eq!(normalize(1, (0, 1), (100, 0)), 0);
    assert_eq!(normalize(i64::MIN, (i64::MAX, i64::MIN), (i32::MIN, i32::MAX)), i32::MAX as i128);
}

#[test]
fn test_draw_a_grid() {
    let bounds = Bounds::new(0, 0, 500, 250).unwrap();
    let mut grid = Grid::empty_from_bounds(&bounds, 1, -1).unwrap();
    for row in 0..grid.height() {
        for col in 0..grid.width() {
            grid.set_value(row, col, (row + col) as i64);
        }
    }
    let pixels = grid_intensities(&grid);
    assert_eq!(pixels.len(), 500 * 250);
    let width = grid.width();
    // image row 0 shows grid row 249
    assert_eq!(pixels[0] as i128, normalize(249, (0, 748), (1, 65534)));
    assert_eq!(pixels[249 * width], 1);
    assert_eq!(pixels[499], MAX_INTENSITY);
}

#[test]
fn test_nodata_cells_are_blank() {
    let bounds = Bounds::new(0, 0, 2, 2).unwrap();
    let mut grid = Grid::empty_from_bounds(&bounds, 1, -1).unwrap();
    grid.set_value(0, 0, 7);
    let pixels = grid_intensities(&grid);
    assert_eq!(pixels, vec![NODATA_INTENSITY, NODATA_INTENSITY, MAX_INTENSITY, NODATA_INTENSITY]);
}
