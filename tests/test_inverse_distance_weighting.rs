use rurp::bounds::Bounds;
use rurp::grid::Grid;
use rurp::interpolate::inverse_distance_weighting::{
    candidates, coincident_index, estimate_cell, interpolate, Estimate, Neighbor,
};
use rurp::point::Point;

fn stub_grid() -> Grid {
    Grid::empty_from_bounds(&Bounds::new(0, 0, 10, 10).unwrap(), 1, -9999).unwrap()
}

fn blend(neighbors: &[Neighbor], power: f64) -> f64 {
    let weights: Vec<f64> = neighbors
        .iter()
        .map(|n| (n.distance_sq as f64).powf(-power / 2.0))
        .collect();
    let total: f64 = weights.iter().sum();
    neighbors
        .iter()
        .zip(weights.iter())
        .map(|(n, w)| n.value as f64 * w / total)
        .sum()
}

#[test]
fn test_two_point_scenario() {
    let grid = stub_grid();
    assert_eq!(grid.width(), 10);
    assert_eq!(grid.height(), 10);
    let points = vec![Point::new(2, 2, vec![0]), Point::new(8, 8, vec![100])];
    let estimates = interpolate(&grid, &points, 100, 0);
    assert_eq!(estimates.len(), 100);

    assert_eq!((grid.x(2, 2), grid.y(2, 2)), (2, 2));
    assert!(matches!(estimates[2 * 10 + 2], Estimate::Exact(0)));
    assert_eq!((grid.x(8, 8), grid.y(8, 8)), (8, 8));
    assert!(matches!(estimates[8 * 10 + 8], Estimate::Exact(100)));

    assert_eq!((grid.x(5, 5), grid.y(5, 5)), (5, 5));
    match &estimates[5 * 10 + 5] {
        Estimate::Weighted(ns) => {
            assert_eq!(
                ns,
                &vec![
                    Neighbor { index: 0, distance_sq: 18, value: 0 },
                    Neighbor { index: 1, distance_sq: 18, value: 100 },
                ]
            );
            let v = blend(ns, 2.0);
            assert!(v > 0.0 && v < 100.0);
            assert!((v - 50.0).abs() < 1e-9);
        }
        _ => panic!("expected a weighted estimate"),
    }
}

#[test]
fn test_coincident_point_decides() {
    let points = vec![
        Point::new(9, 9, vec![7]),
        Point::new(3, 4, vec![-12]),
        Point::new(3, 5, vec![1000]),
    ];
    assert_eq!(coincident_index(&points, 3, 4), Some(1));
    assert_eq!(coincident_index(&points, 0, 0), None);
    assert!(matches!(estimate_cell(&points, 3, 4, 10_000, 3), Estimate::Exact(-12)));
}

#[test]
fn test_first_coincident_point_wins() {
    let points = vec![Point::new(1, 1, vec![4]), Point::new(1, 1, vec![8])];
    assert!(matches!(estimate_cell(&points, 1, 1, 0, 0), Estimate::Exact(4)));
}

#[test]
fn test_no_candidates_is_nodata() {
    let points = vec![Point::new(0, 0, vec![1])];
    assert!(matches!(estimate_cell(&points, 10, 0, 81, 0), Estimate::NoData));
    assert!(matches!(estimate_cell(&points, 9, 0, 81, 0), Estimate::Weighted(_)));
}

#[test]
fn test_too_few_candidates_is_nodata() {
    let points = vec![
        Point::new(0, 0, vec![1]),
        Point::new(1, 0, vec![2]),
        Point::new(50, 50, vec![3]),
    ];
    assert!(matches!(estimate_cell(&points, 0, 1, 25, 3), Estimate::NoData));
    assert!(matches!(estimate_cell(&points, 0, 0, 25, 3), Estimate::NoData));
    match estimate_cell(&points, 0, 1, 25, 2) {
        Estimate::Weighted(ns) => {
            assert_eq!(ns.len(), 2);
            assert_eq!(ns[0].distance_sq, 1);
            assert_eq!(ns[1].distance_sq, 2);
        }
        _ => panic!("expected a weighted estimate"),
    }
}

#[test]
fn test_radius_is_a_hard_cutoff() {
    let points = vec![
        Point::new(0, 0, vec![1]),
        Point::new(3, 4, vec![2]),
        Point::new(3, 5, vec![3]),
    ];
    let ns = candidates(&points, 0, 0, 25);
    assert_eq!(
        ns,
        vec![
            Neighbor { index: 0, distance_sq: 0, value: 1 },
            Neighbor { index: 1, distance_sq: 25, value: 2 },
        ]
    );
    let all = candidates(&points, 0, 0, u128::MAX);
    assert_eq!(all.len(), 3);
    assert_eq!(all[2].distance_sq, 34);
}

#[test]
fn test_radius_grid_keeps_far_cells_empty() {
    let grid = stub_grid();
    let points = vec![Point::new(0, 0, vec![5])];
    let estimates = interpolate(&grid, &points, 2, 0);
    assert!(matches!(estimates[0], Estimate::Exact(5)));
    assert!(matches!(estimates[1], Estimate::Weighted(_)));
    assert!(matches!(estimates[9 * 10 + 9], Estimate::NoData));
}
