use vstd::prelude::*;
use crate::grid::{cell_index, lemma_cell_index_bounds, Grid};
use crate::point::{all_valued, point_dist_sq, squared_distance, Point};

verus! {

/// A sample found near a cell: its index, its squared distance to the cell
/// and its value.
#[derive(Debug, Clone, Copy, PartialEq, Eq, Structural)]
pub struct Neighbor {
    pub index: usize,
    pub distance_sq: u128,
    pub value: i64,
}

/// What the samples say about one cell under inverse distance weighting.
#[derive(Debug, Clone)]
pub enum Estimate {
    /// Too little evidence: the cell keeps its no-data value.
    NoData,
    /// A sample sits on the cell; its weight is infinite and its value is
    /// the cell's value.
    Exact(i64),
    /// The cell's value is the average of these samples' values, each
    /// weighted by `distance ^ -power`.
    Weighted(Vec<Neighbor>),
}

/// Indices, in order, of those of the first `n` points whose squared distance
/// to (`x`, `y`) is at most `radius_sq`.
pub open spec fn within_upto(points: Seq<Point>, x: int, y: int, radius_sq: int, n: int) -> Seq<
    int,
>
    decreases n,
{
    if n <= 0 {
        Seq::empty()
    } else if point_dist_sq(points[n - 1], x, y) <= radius_sq {
        within_upto(points, x, y, radius_sq, n - 1).push(n - 1)
    } else {
        within_upto(points, x, y, radius_sq, n - 1)
    }
}

/// Indices, in order, of the points whose squared distance to (`x`, `y`) is
/// at most `radius_sq`.
pub open spec fn within(points: Seq<Point>, x: int, y: int, radius_sq: int) -> Seq<int> {
    within_upto(points, x, y, radius_sq, points.len() as int)
}

/// The first of the first `n` points that sits exactly on (`x`, `y`).
pub open spec fn coincident_upto(points: Seq<Point>, x: int, y: int, n: int) -> Option<int>
    decreases n,
{
    if n <= 0 {
        None
    } else {
        match coincident_upto(points, x, y, n - 1) {
            Some(j) => Some(j),
            None => if point_dist_sq(points[n - 1], x, y) == 0 {
                Some(n - 1)
            } else {
                None
            },
        }
    }
}

/// The first point that sits exactly on (`x`, `y`).
pub open spec fn coincident(points: Seq<Point>, x: int, y: int) -> Option<int> {
    coincident_upto(points, x, y, points.len() as int)
}

/// `ns` describes, in order, the points at indices `idx`, seen from (`x`, `y`).
pub open spec fn describes(ns: Seq<Neighbor>, points: Seq<Point>, x: int, y: int, idx: Seq<int>) -> bool {
    &&& ns.len() == idx.len()
    &&& forall|i: int|
        0 <= i < ns.len() ==> {
            &&& #[trigger] ns[i].index == idx[i]
            &&& ns[i].distance_sq == point_dist_sq(points[idx[i]], x, y)
            &&& ns[i].value == points[idx[i]].label()
        }
}

/// Whether there is too little evidence at (`x`, `y`): no sample within the
/// radius, or fewer than `min_neighbors`.
pub open spec fn lacks_evidence(
    points: Seq<Point>,
    x: int,
    y: int,
    radius_sq: int,
    min_neighbors: int,
) -> bool {
    let n = within(points, x, y, radius_sq).len();
    n == 0 || n < min_neighbors
}

/// `e` is the estimate for a cell at (`x`, `y`): no data when evidence is
/// lacking; else the value of the first sample on the cell, if any; else
/// every sample within the radius, in order.
pub open spec fn is_estimate(
    e: Estimate,
    points: Seq<Point>,
    x: int,
    y: int,
    radius_sq: int,
    min_neighbors: int,
) -> bool {
    if lacks_evidence(points, x, y, radius_sq, min_neighbors) {
        e is NoData
    } else {
        match coincident(points, x, y) {
            Some(j) => e == Estimate::Exact(points[j].label()),
            None => e matches Estimate::Weighted(ns) && describes(
                ns@,
                points,
                x,
                y,
                within(points, x, y, radius_sq),
            ),
        }
    }
}

proof fn lemma_within_upto_indices(points: Seq<Point>, x: int, y: int, radius_sq: int, n: int)
    requires
        0 <= n <= points.len(),
    ensures
        forall|i: int|
            0 <= i < within_upto(points, x, y, radius_sq, n).len() ==> 0 <= #[trigger] within_upto(
                points,
                x,
                y,
                radius_sq,
                n,
            )[i] < n,
    decreases n,
{
    if n > 0 {
        lemma_within_upto_indices(points, x, y, radius_sq, n - 1);
        let prev = within_upto(points, x, y, radius_sq, n - 1);
        let cur = within_upto(points, x, y, radius_sq, n);
        assert forall|i: int| 0 <= i < cur.len() implies 0 <= #[trigger] cur[i] < n by {
            if i < prev.len() {
                assert(cur[i] == prev[i]);
            }
        }
    }
}

/// Exactly the samples within `radius_sq` (squared) of (`x`, `y`), in order.
pub fn candidates(points: &Vec<Point>, x: i32, y: i32, radius_sq: u128) -> (r: Vec<Neighbor>)
    requires
        all_valued(points@),
    ensures
        describes(r@, points@, x as int, y as int, within(points@, x as int, y as int, radius_sq as int)),
{
    let mut r: Vec<Neighbor> = Vec::new();
    let mut i: usize = 0;
    while i < points.len()
        invariant
            i <= points@.len(),
            all_valued(points@),
            describes(
                r@,
                points@,
                x as int,
                y as int,
                within_upto(points@, x as int, y as int, radius_sq as int, i as int),
            ),
        decreases points@.len() - i,
    {
        let p = &points[i];
        let d = squared_distance(p.x, p.y, x, y);
        let ghost before = r@;
        if d <= radius_sq {
            proof {
                assert(points@[i as int].values@.len() > 0);
            }
            r.push(Neighbor { index: i, distance_sq: d, value: p.values[0] });
        }
        proof {
            lemma_within_upto_indices(points@, x as int, y as int, radius_sq as int, i + 1);
            let w = within_upto(points@, x as int, y as int, radius_sq as int, i as int);
            let w1 = within_upto(points@, x as int, y as int, radius_sq as int, i + 1);
            if d <= radius_sq {
                assert(w1 == w.push(i as int));
            } else {
                assert(w1 == w);
            }
            assert forall|k: int| 0 <= k < r@.len() implies {
                &&& #[trigger] r@[k].index == w1[k]
                &&& r@[k].distance_sq == point_dist_sq(points@[w1[k]], x as int, y as int)
                &&& r@[k].value == points@[w1[k]].label()
            } by {
                if k < w.len() {
                    assert(w1[k] == w[k]);
                    assert(r@[k] == before[k]);
                } else {
                    assert(k == w.len());
                    assert(w1[k] == i);
                    assert(r@[k].index == i);
                }
            }
        }
        i = i + 1;
    }
    r
}

/// Index of the first sample that sits exactly on (`x`, `y`), if any.
pub fn coincident_index(points: &Vec<Point>, x: i32, y: i32) -> (r: Option<usize>)
    ensures
        r matches Some(j) ==> coincident(points@, x as int, y as int) == Some(j as int),
        r is None ==> coincident(points@, x as int, y as int) is None,
{
    let mut i: usize = 0;
    while i < points.len()
        invariant
            i <= points@.len(),
            coincident_upto(points@, x as int, y as int, i as int) is None,
        decreases points@.len() - i,
    {
        if squared_distance(points[i].x, points[i].y, x, y) == 0 {
            proof {
                lemma_coincident_stays(points@, x as int, y as int, i + 1, points@.len() as int);
            }
            return Some(i);
        }
        i = i + 1;
    }
    None
}

/// Once found among the first `m` points, the first coincident point stays
/// the first among more.
proof fn lemma_coincident_stays(points: Seq<Point>, x: int, y: int, m: int, n: int)
    requires
        0 <= m <= n,
        coincident_upto(points, x, y, m) is Some,
    ensures
        coincident_upto(points, x, y, n) == coincident_upto(points, x, y, m),
    decreases n - m,
{
    if n > m {
        lemma_coincident_stays(points, x, y, m, n - 1);
    }
}

/// The estimate for a cell at (`x`, `y`) from the samples within
/// `radius_sq` (squared) of it, given that at least `min_neighbors` are
/// needed.
pub fn estimate_cell(
    points: &Vec<Point>,
    x: i32,
    y: i32,
    radius_sq: u128,
    min_neighbors: usize,
) -> (r: Estimate)
    requires
        all_valued(points@),
    ensures
        is_estimate(r, points@, x as int, y as int, radius_sq as int, min_neighbors as int),
{
    let ns = candidates(points, x, y, radius_sq);
    if ns.len() == 0 || ns.len() < min_neighbors {
        return Estimate::NoData;
    }
    match coincident_index(points, x, y) {
        Some(j) => {
            proof {
                lemma_coincident_index_bound(points@, x as int, y as int, points@.len() as int);
                assert(points@[j as int].values@.len() > 0);
            }
            Estimate::Exact(points[j].values[0])
        },
        None => Estimate::Weighted(ns),
    }
}

proof fn lemma_coincident_index_bound(points: Seq<Point>, x: int, y: int, n: int)
    requires
        0 <= n,
    ensures
        coincident_upto(points, x, y, n) matches Some(j) ==> 0 <= j < n,
    decreases n,
{
    if n > 0 {
        lemma_coincident_index_bound(points, x, y, n - 1);
    }
}

/// The estimate for every cell of `grid`, row-major: the samples within
/// `radius` of the cell's world position, with at least `min_neighbors` of
/// them needed. The grid itself is not changed.
pub fn interpolate(grid: &Grid, points: &Vec<Point>, radius: u64, min_neighbors: usize) -> (r: Vec<
    Estimate,
>)
    requires
        grid.wf(),
        all_valued(points@),
    ensures
        r@.len() == grid@.data.len(),
        forall|row: int, col: int|
            0 <= row < grid@.height && 0 <= col < grid@.width ==> is_estimate(
                #[trigger] r@[cell_index(row, col, grid@.width as int)],
                points@,
                grid@.xs[col] as int,
                grid@.ys[row] as int,
                radius * radius,
                min_neighbors as int,
            ),
{
    proof {
        assert(radius * radius <= u128::MAX) by (nonlinear_arith)
            requires
                radius <= u64::MAX,
        ;
    }
    let radius_sq: u128 = radius as u128 * radius as u128;
    let width = grid.width();
    let height = grid.height();
    let ghost g = grid@;
    let mut r: Vec<Estimate> = Vec::new();
    let mut row: usize = 0;
    while row < height
        invariant
            grid@ == g,
            grid.wf(),
            width == g.width,
            height == g.height,
            radius_sq == radius * radius,
            all_valued(points@),
            row <= height,
            r@.len() == row * width,
            forall|i: int, c: int|
                0 <= i < row && 0 <= c < width ==> is_estimate(
                    #[trigger] r@[cell_index(i, c, width as int)],
                    points@,
                    g.xs[c] as int,
                    g.ys[i] as int,
                    radius * radius,
                    min_neighbors as int,
                ),
        decreases height - row,
    {
        let mut col: usize = 0;
        while col < width
            invariant
                grid@ == g,
                grid.wf(),
                width == g.width,
                height == g.height,
                radius_sq == radius * radius,
                all_valued(points@),
                row < height,
                col <= width,
                r@.len() == row * width + col,
                forall|i: int, c: int|
                    0 <= i < row && 0 <= c < width ==> is_estimate(
                        #[trigger] r@[cell_index(i, c, width as int)],
                        points@,
                        g.xs[c] as int,
                        g.ys[i] as int,
                        radius * radius,
                        min_neighbors as int,
                    ),
                forall|c: int|
                    0 <= c < col ==> is_estimate(
                        #[trigger] r@[cell_index(row as int, c, width as int)],
                        points@,
                        g.xs[c] as int,
                        g.ys[row as int] as int,
                        radius * radius,
                        min_neighbors as int,
                    ),
            decreases width - col,
        {
            let x = grid.x(row, col);
            let y = grid.y(row, col);
            let e = estimate_cell(points, x, y, radius_sq, min_neighbors);
            let ghost before = r@;
            r.push(e);
            proof {
                assert forall|i: int, c: int| 0 <= i < row && 0 <= c < width implies is_estimate(
                    #[trigger] r@[cell_index(i, c, width as int)],
                    points@,
                    g.xs[c] as int,
                    g.ys[i] as int,
                    radius * radius,
                    min_neighbors as int,
                ) by {
                    lemma_cell_index_bounds(i, c, width as int, row as int);
                    assert(width * row == row * width) by (nonlinear_arith);
                    assert(before[cell_index(i, c, width as int)] == r@[cell_index(i, c, width as int)]);
                }
                assert(r@[cell_index(row as int, col as int, width as int)] == e);
            }
            col = col + 1;
        }
        proof {
            assert((row + 1) * width == row * width + width) by (nonlinear_arith);
        }
        row = row + 1;
    }
    proof {
        assert(height * width == width * height) by (nonlinear_arith);
    }
    r
}

/// A cell with no sample within the radius, or with fewer than
/// `min_neighbors`, gets no estimate.
pub proof fn lemma_lacking_evidence_gives_nodata(
    e: Estimate,
    points: Seq<Point>,
    x: int,
    y: int,
    radius_sq: int,
    min_neighbors: int,
)
    requires
        is_estimate(e, points, x, y, radius_sq, min_neighbors),
        within(points, x, y, radius_sq).len() == 0 || within(points, x, y, radius_sq).len()
            < min_neighbors,
    ensures
        e is NoData,
{
}

/// The radius is a hard cutoff: every sample that a weighted estimate
/// averages lies within it.
pub proof fn lemma_weighted_samples_within_radius(
    e: Estimate,
    points: Seq<Point>,
    x: int,
    y: int,
    radius_sq: int,
    min_neighbors: int,
)
    requires
        is_estimate(e, points, x, y, radius_sq, min_neighbors),
    ensures
        e matches Estimate::Weighted(ns) ==> forall|i: int|
            0 <= i < ns@.len() ==> #[trigger] ns@[i].distance_sq <= radius_sq,
{
    if let Estimate::Weighted(ns) = e {
        let w = within(points, x, y, radius_sq);
        lemma_within_upto_close(points, x, y, radius_sq, points.len() as int);
        assert forall|i: int| 0 <= i < ns@.len() implies #[trigger] ns@[i].distance_sq
            <= radius_sq by {
            assert(ns@[i].index == w[i]);
        }
    }
}

proof fn lemma_within_upto_close(points: Seq<Point>, x: int, y: int, radius_sq: int, n: int)
    requires
        0 <= n <= points.len(),
    ensures
        forall|i: int|
            0 <= i < within_upto(points, x, y, radius_sq, n).len() ==> point_dist_sq(
                points[#[trigger] within_upto(points, x, y, radius_sq, n)[i]],
                x,
                y,
            ) <= radius_sq,
    decreases n,
{
    if n > 0 {
        lemma_within_upto_close(points, x, y, radius_sq, n - 1);
        let prev = within_upto(points, x, y, radius_sq, n - 1);
        let cur = within_upto(points, x, y, radius_sq, n);
        assert forall|i: int| 0 <= i < cur.len() implies point_dist_sq(
            points[#[trigger] cur[i]],
            x,
            y,
        ) <= radius_sq by {
            if i < prev.len() {
                assert(cur[i] == prev[i]);
            }
        }
    }
}

/// When a cell has enough evidence, a sample sitting exactly on it decides
/// its value, whatever the other samples: the estimate is that sample's
/// value (the first such sample's, when several coincide).
pub proof fn lemma_sample_on_cell_decides(
    e: Estimate,
    points: Seq<Point>,
    x: int,
    y: int,
    radius_sq: int,
    min_neighbors: int,
    j: int,
)
    requires
        is_estimate(e, points, x, y, radius_sq, min_neighbors),
        radius_sq >= 0,
        within(points, x, y, radius_sq).len() >= min_neighbors,
        0 <= j < points.len(),
        point_dist_sq(points[j], x, y) == 0,
        forall|k: int| 0 <= k < j ==> point_dist_sq(#[trigger] points[k], x, y) != 0,
    ensures
        e == Estimate::Exact(points[j].label()),
{
    lemma_coincident_first(points, x, y, j, j);
    lemma_coincident_stays(points, x, y, j + 1, points.len() as int);
    lemma_within_upto_has(points, x, y, radius_sq, j, points.len() as int);
}

proof fn lemma_coincident_first(points: Seq<Point>, x: int, y: int, j: int, n: int)
    requires
        0 <= n <= j,
        forall|k: int| 0 <= k < j ==> point_dist_sq(#[trigger] points[k], x, y) != 0,
    ensures
        coincident_upto(points, x, y, n) is None,
    decreases n,
{
    if n > 0 {
        lemma_coincident_first(points, x, y, j, n - 1);
    }
}

proof fn lemma_within_upto_has(points: Seq<Point>, x: int, y: int, radius_sq: int, j: int, n: int)
    requires
        0 <= j < n <= points.len(),
        point_dist_sq(points[j], x, y) <= radius_sq,
    ensures
        within_upto(points, x, y, radius_sq, n).len() > 0,
    decreases n,
{
    if n - 1 > j {
        lemma_within_upto_has(points, x, y, radius_sq, j, n - 1);
    }
}

} // verus!
