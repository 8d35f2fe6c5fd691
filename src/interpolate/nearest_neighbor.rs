use vstd::prelude::*;
use crate::grid::{cell_index, lemma_cell_index_bounds, Grid, GridView};
use crate::interpolate::InterpolationError;
use crate::point::{all_valued, point_dist_sq, squared_distance, Point};

verus! {

/// Index of the nearest of the first `n` points to (`x`, `y`); of several
/// equally near points, the first.
pub open spec fn nearest_upto(points: Seq<Point>, x: int, y: int, n: int) -> int
    decreases n,
{
    if n <= 1 {
        0
    } else {
        let k = nearest_upto(points, x, y, n - 1);
        if point_dist_sq(points[n - 1], x, y) < point_dist_sq(points[k], x, y) {
            n - 1
        } else {
            k
        }
    }
}

/// Index of the nearest point to (`x`, `y`); of several equally near points,
/// the first.
pub open spec fn nearest(points: Seq<Point>, x: int, y: int) -> int {
    nearest_upto(points, x, y, points.len() as int)
}

/// `nearest_upto` picks the first of the closest among the first `n` points.
pub proof fn lemma_nearest_upto(points: Seq<Point>, x: int, y: int, n: int)
    requires
        1 <= n <= points.len(),
    ensures
        0 <= nearest_upto(points, x, y, n) < n,
        forall|j: int|
            0 <= j < n ==> point_dist_sq(points[nearest_upto(points, x, y, n)], x, y)
                <= #[trigger] point_dist_sq(points[j], x, y),
        forall|j: int|
            0 <= j < nearest_upto(points, x, y, n) ==> point_dist_sq(
                points[nearest_upto(points, x, y, n)],
                x,
                y,
            ) < #[trigger] point_dist_sq(points[j], x, y),
    decreases n,
{
    if n > 1 {
        lemma_nearest_upto(points, x, y, n - 1);
    }
}

/// The point that `nearest` picks is at least as close as every other point,
/// and strictly closer than every point listed before it.
pub proof fn lemma_nearest_is_closest(points: Seq<Point>, x: int, y: int)
    requires
        points.len() >= 1,
    ensures
        0 <= nearest(points, x, y) < points.len(),
        forall|j: int|
            0 <= j < points.len() ==> point_dist_sq(points[nearest(points, x, y)], x, y)
                <= #[trigger] point_dist_sq(points[j], x, y),
        forall|j: int|
            0 <= j < nearest(points, x, y) ==> point_dist_sq(points[nearest(points, x, y)], x, y)
                < #[trigger] point_dist_sq(points[j], x, y),
{
    lemma_nearest_upto(points, x, y, points.len() as int);
}

/// Index of the point nearest to (`x`, `y`); of several equally near points,
/// the first.
pub fn nearest_index(points: &Vec<Point>, x: i32, y: i32) -> (r: usize)
    requires
        points@.len() >= 1,
    ensures
        r == nearest(points@, x as int, y as int),
{
    let mut best: usize = 0;
    let mut best_d = squared_distance(points[0].x, points[0].y, x, y);
    let mut i: usize = 1;
    while i < points.len()
        invariant
            1 <= i <= points@.len(),
            best == nearest_upto(points@, x as int, y as int, i as int),
            best < points@.len(),
            best_d == point_dist_sq(points@[best as int], x as int, y as int),
        decreases points@.len() - i,
    {
        proof {
            lemma_nearest_upto(points@, x as int, y as int, i as int);
        }
        let d = squared_distance(points[i].x, points[i].y, x, y);
        if d < best_d {
            best = i;
            best_d = d;
        }
        i = i + 1;
    }
    best
}

/// The value that nearest-neighbour interpolation gives a cell at (`x`, `y`).
pub open spec fn nearest_value(points: Seq<Point>, x: int, y: int) -> i64 {
    points[nearest(points, x, y)].label()
}

/// Fills every cell with the value of the sample nearest to it, which
/// partitions the grid into the Voronoi regions of the samples.
///
/// Fails with `EmptyPointSet`, leaving the grid as it was, when there are
/// no samples.
pub fn interpolate(grid: &mut Grid, points: &Vec<Point>) -> (r: Result<(), InterpolationError>)
    requires
        old(grid).wf(),
        all_valued(points@),
    ensures
        final(grid).wf(),
        points@.len() == 0 ==> r == Err::<(), InterpolationError>(
            InterpolationError::EmptyPointSet,
        ) && final(grid)@ == old(grid)@,
        points@.len() > 0 ==> r is Ok,
        final(grid)@ == (GridView { data: final(grid)@.data, ..old(grid)@ }),
        r is Ok ==> forall|row: int, col: int|
            0 <= row < old(grid)@.height && 0 <= col < old(grid)@.width ==> #[trigger] final(grid).cell(row, col)
                == nearest_value(points@, old(grid)@.xs[col] as int, old(grid)@.ys[row] as int),
{
    if points.len() == 0 {
        return Err(InterpolationError::EmptyPointSet);
    }
    let width = grid.width();
    let height = grid.height();
    let ghost g = grid@;
    let mut data: Vec<i64> = Vec::new();
    let mut row: usize = 0;
    while row < height
        invariant
            grid@ == g,
            grid.wf(),
            width == g.width,
            height == g.height,
            points@.len() >= 1,
            all_valued(points@),
            row <= height,
            data@.len() == row * width,
            forall|r: int, c: int|
                0 <= r < row && 0 <= c < width ==> #[trigger] data@[cell_index(r, c, width as int)]
                    == nearest_value(points@, g.xs[c] as int, g.ys[r] as int),
        decreases height - row,
    {
        let mut col: usize = 0;
        while col < width
            invariant
                grid@ == g,
                grid.wf(),
                width == g.width,
                height == g.height,
                points@.len() >= 1,
                all_valued(points@),
                row < height,
                col <= width,
                data@.len() == row * width + col,
                forall|r: int, c: int|
                    0 <= r < row && 0 <= c < width ==> #[trigger] data@[cell_index(
                        r,
                        c,
                        width as int,
                    )] == nearest_value(points@, g.xs[c] as int, g.ys[r] as int),
                forall|c: int|
                    0 <= c < col ==> #[trigger] data@[cell_index(row as int, c, width as int)]
                        == nearest_value(points@, g.xs[c] as int, g.ys[row as int] as int),
            decreases width - col,
        {
            let x = grid.x(row, col);
            let y = grid.y(row, col);
            let k = nearest_index(points, x, y);
            proof {
                lemma_nearest_is_closest(points@, x as int, y as int);
            }
            let ghost before = data@;
            data.push(points[k].values[0]);
            proof {
                assert forall|r: int, c: int|
                    0 <= r < row && 0 <= c < width implies #[trigger] data@[cell_index(
                        r,
                        c,
                        width as int,
                    )] == nearest_value(points@, g.xs[c] as int, g.ys[r] as int) by {
                    lemma_cell_index_bounds(r, c, width as int, row as int);
                    assert(width * row == row * width) by (nonlinear_arith);
                    assert(before[cell_index(r, c, width as int)] == data@[cell_index(r, c, width as int)]);
                }
            }
            col = col + 1;
        }
        proof {
            assert((row + 1) * width == row * width + width) by (nonlinear_arith);
        }
        row = row + 1;
    }
    proof {
        assert(height * width == width * height) by (nonlinear_arith);
        assert(data@.len() == g.data.len());
    }
    grid.replace_data(data);
    Ok(())
}

} // verus!
