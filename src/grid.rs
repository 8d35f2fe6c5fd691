use vstd::prelude::*;
use vstd::arithmetic::div_mod::{
    lemma_div_is_ordered, lemma_div_multiples_vanish, lemma_div_pos_is_pos,
    lemma_fundamental_div_mod, lemma_mod_bound,
};
use vstd::arithmetic::mul::lemma_mul_inequality;
use crate::bounds::Bounds;

verus! {

/// Why a grid could not be built.
#[derive(Debug, Clone, Copy, PartialEq, Eq, Structural)]
pub enum GridError {
    /// The resolution is zero.
    InvalidResolution,
    /// The number of cells does not fit in `usize`.
    TooLarge,
}

impl GridError {
    /// A human-readable description of the error.
    pub fn message(&self) -> (r: &'static str)
        ensures
            *self == GridError::InvalidResolution ==> r@ == "resolution must be positive"@,
            *self == GridError::TooLarge ==> r@ == "grid has too many cells"@,
    {
        match self {
            GridError::InvalidResolution => "resolution must be positive",
            GridError::TooLarge => "grid has too many cells",
        }
    }
}

/// Number of cells of `resolution` world units needed to cover `world` units:
/// the least `n` with `n * resolution >= world`.
pub open spec fn cells_along(world: int, resolution: int) -> int {
    (world - 1) / resolution + 1
}

/// The `i`-th of `n` evenly spaced coordinates running from `start` to `end`,
/// rounded down to a whole world unit.
pub open spec fn linspace_at(start: int, end: int, n: int, i: int) -> int {
    if n <= 1 {
        start
    } else {
        start + (i * (end - start)) / (n - 1)
    }
}

/// Position of cell (`row`, `col`) in the row-major cell sequence.
pub open spec fn cell_index(row: int, col: int, width: int) -> int {
    row * width + col
}

/// Floor division: `n / d` is the quotient rounded down.
pub proof fn lemma_floor_div(n: int, d: int)
    requires
        d > 0,
    ensures
        d * (n / d) <= n < d * (n / d) + d,
{
    lemma_fundamental_div_mod(n, d);
    lemma_mod_bound(n, d);
}

/// `cells_along` is the least count of cells that covers the extent.
pub proof fn lemma_cells_along(world: int, resolution: int)
    requires
        world >= 1,
        resolution >= 1,
    ensures
        1 <= cells_along(world, resolution) <= world,
        cells_along(world, resolution) * resolution >= world,
        (cells_along(world, resolution) - 1) * resolution < world,
{
    let q = (world - 1) / resolution;
    lemma_floor_div(world - 1, resolution);
    lemma_div_pos_is_pos(world - 1, resolution);
    assert(q * resolution <= world - 1) by (nonlinear_arith)
        requires
            resolution * q <= world - 1,
    ;
    assert(q <= world - 1) by (nonlinear_arith)
        requires
            q * resolution <= world - 1,
            resolution >= 1,
            q >= 0,
    ;
    assert((q + 1) * resolution >= world) by (nonlinear_arith)
        requires
            world - 1 < resolution * q + resolution,
    ;
}

/// Evenly spaced coordinates stay inside `[start, end]` and hit both ends.
pub proof fn lemma_linspace_bounds(start: int, end: int, n: int, i: int)
    requires
        start < end,
        n >= 1,
        0 <= i < n,
    ensures
        start <= linspace_at(start, end, n, i) <= end,
        i == 0 ==> linspace_at(start, end, n, i) == start,
        n > 1 && i == n - 1 ==> linspace_at(start, end, n, i) == end,
{
    if n > 1 {
        let w = end - start;
        lemma_mul_inequality(i, n - 1, w);
        assert(0 <= i * w) by (nonlinear_arith)
            requires
                i >= 0,
                w > 0,
        ;
        lemma_div_is_ordered(i * w, (n - 1) * w, n - 1);
        lemma_div_multiples_vanish(w, n - 1);
        assert((n - 1) * w == w * (n - 1)) by (nonlinear_arith);
        lemma_div_pos_is_pos(i * w, n - 1);
        if i == 0 {
            assert(i * w == 0);
        }
    }
}

/// The cell at (`row`, `col`) lies inside a grid of the given size.
pub proof fn lemma_cell_index_bounds(row: int, col: int, width: int, height: int)
    requires
        0 <= row < height,
        0 <= col < width,
    ensures
        0 <= cell_index(row, col, width) < width * height,
{
    assert(0 <= row * width + col < width * height) by (nonlinear_arith)
        requires
            0 <= row < height,
            0 <= col < width,
    ;
}

/// Largest magnitude of a position numerator that the transforms accept;
/// every numerator that `world_to_screen` returns is far below it.
pub const POSITION_LIMIT: i128 = 0x4000_0000_0000_0000_0000_0000_0000_0000;

/// Grid-space position, along one axis, of the world coordinate
/// `v_num / cells`: translated by `-origin`, then scaled by
/// `cells / world`, it is `(v_num - origin * cells) / world`. The result is
/// that numerator; the denominator is the axis's world extent.
pub open spec fn screen_num(v_num: int, origin: int, cells: int) -> int {
    v_num - origin * cells
}

/// World coordinate, along one axis, of the grid-space position
/// `c_num / world`: scaled by `world / cells`, then translated by `origin`,
/// it is `(c_num + origin * cells) / cells`. The result is that numerator;
/// the denominator is the axis's cell count.
pub open spec fn world_num(c_num: int, origin: int, cells: int) -> int {
    c_num + origin * cells
}

/// Distinct cells have distinct positions in the row-major sequence.
pub proof fn lemma_cell_index_injective(r1: int, c1: int, r2: int, c2: int, width: int)
    requires
        0 <= c1 < width,
        0 <= c2 < width,
        0 <= r1,
        0 <= r2,
        cell_index(r1, c1, width) == cell_index(r2, c2, width),
    ensures
        r1 == r2 && c1 == c2,
{
    assert(r1 == r2) by (nonlinear_arith)
        requires
            0 <= c1 < width,
            0 <= c2 < width,
            0 <= r1,
            0 <= r2,
            r1 * width + c1 == r2 * width + c2,
    ;
}

/// Whether `cells` lists cell (`row`, `col`).
pub open spec fn covers(cells: Seq<(usize, usize)>, row: int, col: int) -> bool {
    exists|i: int| 0 <= i < cells.len() && cells[i].0 == row && cells[i].1 == col
}

/// Value of cell (`row`, `col`) after painting the first `n` cell lists in
/// order over a `background`: the label of the last list that covers the
/// cell, or the background when none does.
pub open spec fn painted(
    coverage: Seq<Vec<(usize, usize)>>,
    labels: Seq<i64>,
    n: int,
    row: int,
    col: int,
    background: i64,
) -> i64
    decreases n,
{
    if n <= 0 {
        background
    } else if covers(coverage[n - 1]@, row, col) {
        labels[n - 1]
    } else {
        painted(coverage, labels, n - 1, row, col, background)
    }
}

/// What a grid holds, seen as mathematical values.
pub struct GridView {
    /// Cell values, row-major: row 0 is the bottom row.
    pub data: Seq<i64>,
    /// World x coordinate of each column.
    pub xs: Seq<i32>,
    /// World y coordinate of each row.
    pub ys: Seq<i32>,
    pub width: nat,
    pub height: nat,
    pub nodata: i64,
    pub bounds: Bounds,
}

/// A raster over a rectangular extent: `height` rows of `width` cells, each
/// holding one value, with the world coordinate of every cell.
#[derive(Debug)]
pub struct Grid {
    data: Vec<i64>,
    xs: Vec<i32>,
    ys: Vec<i32>,
    bounds: Bounds,
    height: usize,
    width: usize,
    nodata: i64,
}

impl View for Grid {
    type V = GridView;

    closed spec fn view(&self) -> GridView {
        GridView {
            data: self.data@,
            xs: self.xs@,
            ys: self.ys@,
            width: self.width as nat,
            height: self.height as nat,
            nodata: self.nodata,
            bounds: self.bounds,
        }
    }
}

impl Grid {
    /// The grid's shape and coordinates agree with its bounds.
    pub open spec fn wf(&self) -> bool {
        let v = self@;
        let b = v.bounds;
        &&& b.wf()
        &&& 1 <= v.width <= b.spec_world_width()
        &&& 1 <= v.height <= b.spec_world_height()
        &&& v.data.len() == v.width * v.height
        &&& v.width * v.height <= usize::MAX
        &&& v.xs.len() == v.width
        &&& v.ys.len() == v.height
        &&& forall|j: int|
            0 <= j < v.width ==> v.xs[j] == linspace_at(
                b.spec_left() as int,
                b.spec_right() as int,
                v.width as int,
                j,
            )
        &&& forall|i: int|
            0 <= i < v.height ==> v.ys[i] == linspace_at(
                b.spec_bottom() as int,
                b.spec_top() as int,
                v.height as int,
                i,
            )
    }

    /// Value of cell (`row`, `col`).
    pub open spec fn cell(&self, row: int, col: int) -> i64 {
        self@.data[cell_index(row, col, self@.width as int)]
    }

    /// What `empty_from_bounds` returns on the given arguments.
    pub open spec fn empty_result(bounds: Bounds, resolution: int) -> Option<GridError> {
        if resolution == 0 {
            Some(GridError::InvalidResolution)
        } else if cells_along(bounds.spec_world_width(), resolution) * cells_along(
            bounds.spec_world_height(),
            resolution,
        ) > usize::MAX {
            Some(GridError::TooLarge)
        } else {
            None
        }
    }

    /// Creates a grid covering `bounds` with square cells of `resolution`
    /// world units, every cell holding `nodata`.
    ///
    /// The grid has `ceil(world_width / resolution)` columns and
    /// `ceil(world_height / resolution)` rows; column and row coordinates run
    /// evenly from `left` to `right` and from `bottom` to `top`.
    pub fn empty_from_bounds(bounds: &Bounds, resolution: usize, nodata: i64) -> (r: Result<
        Grid,
        GridError,
    >)
        ensures
            bounds.wf(),
            r is Err <==> Grid::empty_result(*bounds, resolution as int) is Some,
            r matches Err(e) ==> Some(e) == Grid::empty_result(*bounds, resolution as int),
            r matches Ok(g) ==> {
                &&& g.wf()
                &&& g@.bounds == *bounds
                &&& g@.nodata == nodata
                &&& g@.width == cells_along(bounds.spec_world_width(), resolution as int)
                &&& g@.height == cells_along(bounds.spec_world_height(), resolution as int)
                &&& g@.data == Seq::new(g@.width * g@.height, |_i: int| nodata)
            },
    {
        proof {
            use_type_invariant(bounds);
            Bounds::lemma_inv_is_wf(bounds);
        }
        if resolution == 0 {
            return Err(GridError::InvalidResolution);
        }
        let left = bounds.left();
        let bottom = bounds.bottom();
        let right = bounds.right();
        let top = bounds.top();
        let world_width: u64 = (right as i64 - left as i64) as u64;
        let world_height: u64 = (top as i64 - bottom as i64) as u64;
        let res: u64 = resolution as u64;
        let width64: u64 = (world_width - 1) / res + 1;
        let height64: u64 = (world_height - 1) / res + 1;
        proof {
            lemma_cells_along(world_width as int, res as int);
            lemma_cells_along(world_height as int, res as int);
        }
        if width64 > usize::MAX as u64 || height64 > usize::MAX as u64 {
            proof {
                assert(width64 * height64 > usize::MAX) by (nonlinear_arith)
                    requires
                        width64 > usize::MAX || height64 > usize::MAX,
                        width64 >= 1,
                        height64 >= 1,
                ;
            }
            return Err(GridError::TooLarge);
        }
        let width = width64 as usize;
        let height = height64 as usize;
        let total = match width.checked_mul(height) {
            Some(t) => t,
            None => {
                return Err(GridError::TooLarge);
            },
        };
        let mut data: Vec<i64> = Vec::new();
        while data.len() < total
            invariant
                data.len() <= total,
                data@ == Seq::new(data.len() as nat, |_i: int| nodata),
            decreases total - data.len(),
        {
            data.push(nodata);
        }
        let xs = Grid::spaced(left, right, width);
        let ys = Grid::spaced(bottom, top, height);
        let g = Grid { data, xs, ys, bounds: *bounds, height, width, nodata };
        assert(g@.data =~= Seq::new(g@.width * g@.height, |_i: int| nodata));
        Ok(g)
    }

    /// `n` evenly spaced coordinates from `start` to `end`.
    fn spaced(start: i32, end: i32, n: usize) -> (r: Vec<i32>)
        requires
            start < end,
            1 <= n <= end - start,
        ensures
            r@.len() == n,
            forall|j: int| 0 <= j < n ==> r@[j] == linspace_at(start as int, end as int, n as int, j),
    {
        let span: u64 = (end as i64 - start as i64) as u64;
        let mut r: Vec<i32> = Vec::new();
        let mut j: usize = 0;
        while j < n
            invariant
                j <= n,
                1 <= n <= span,
                span == end - start,
                span <= 0xFFFF_FFFF,
                r@.len() == j,
                forall|k: int| 0 <= k < j ==> r@[k] == linspace_at(start as int, end as int, n as int, k),
            decreases n - j,
        {
            proof {
                lemma_linspace_bounds(start as int, end as int, n as int, j as int);
            }
            let v: i32 = if n == 1 {
                start
            } else {
                proof {
                    assert(j * span <= span * span) by (nonlinear_arith)
                        requires
                            j < n,
                            n <= span,
                    ;
                    assert(span * span <= u64::MAX) by (nonlinear_arith)
                        requires
                            span <= 0xFFFF_FFFF,
                    ;
                }
                let step: u64 = (j as u64 * span) / (n as u64 - 1);
                (start as i64 + step as i64) as i32
            };
            r.push(v);
            j = j + 1;
        }
        r
    }
}

impl Grid {
    /// The cell values, row-major, row 0 at the bottom.
    pub fn data(&self) -> (r: &Vec<i64>)
        ensures
            r@ == self@.data,
    {
        &self.data
    }

    /// The extent the grid covers.
    pub fn bounds(&self) -> (r: Bounds)
        ensures
            r == self@.bounds,
    {
        self.bounds
    }

    /// Number of rows.
    pub fn height(&self) -> (r: usize)
        ensures
            r == self@.height,
    {
        self.height
    }

    /// Number of columns.
    pub fn width(&self) -> (r: usize)
        ensures
            r == self@.width,
    {
        self.width
    }

    /// Height of the extent in world units.
    pub fn world_height(&self) -> (r: i64)
        requires
            self.wf(),
        ensures
            r == self@.bounds.spec_world_height(),
    {
        self.bounds.top() as i64 - self.bounds.bottom() as i64
    }

    /// Width of the extent in world units.
    pub fn world_width(&self) -> (r: i64)
        requires
            self.wf(),
        ensures
            r == self@.bounds.spec_world_width(),
    {
        self.bounds.right() as i64 - self.bounds.left() as i64
    }

    /// The value that marks a cell as holding no estimate.
    pub fn nodata(&self) -> (r: i64)
        ensures
            r == self@.nodata,
    {
        self.nodata
    }

    /// World x coordinate of cell (`row`, `col`).
    pub fn x(&self, row: usize, col: usize) -> (r: i32)
        requires
            self.wf(),
            row < self@.height,
            col < self@.width,
        ensures
            r == self@.xs[col as int],
    {
        self.xs[col]
    }

    /// World y coordinate of cell (`row`, `col`).
    pub fn y(&self, row: usize, col: usize) -> (r: i32)
        requires
            self.wf(),
            row < self@.height,
            col < self@.width,
        ensures
            r == self@.ys[row as int],
    {
        self.ys[row]
    }

    /// Value of cell (`row`, `col`).
    pub fn value(&self, row: usize, col: usize) -> (r: i64)
        requires
            self.wf(),
            row < self@.height,
            col < self@.width,
        ensures
            r == self.cell(row as int, col as int),
    {
        proof {
            lemma_cell_index_bounds(row as int, col as int, self.width as int, self.height as int);
        }
        self.data[row * self.width + col]
    }

    /// Sets cell (`row`, `col`) to `v`, leaving every other cell as it was.
    pub fn set_value(&mut self, row: usize, col: usize, v: i64)
        requires
            old(self).wf(),
            row < old(self)@.height,
            col < old(self)@.width,
        ensures
            final(self).wf(),
            final(self)@ == (GridView {
                data: old(self)@.data.update(
                    cell_index(row as int, col as int, old(self)@.width as int),
                    v,
                ),
                ..old(self)@
            }),
    {
        proof {
            lemma_cell_index_bounds(row as int, col as int, self.width as int, self.height as int);
        }
        let i = row * self.width + col;
        self.data.set(i, v);
    }

    /// Replaces every cell value at once, keeping shape and coordinates.
    pub(crate) fn replace_data(&mut self, data: Vec<i64>)
        requires
            old(self).wf(),
            data@.len() == old(self)@.data.len(),
        ensures
            final(self).wf(),
            final(self)@ == (GridView { data: data@, ..old(self)@ }),
    {
        self.data = data;
    }

    /// Maps the world point (`x`, `y`) to grid space: translate by
    /// (`-left`, `-bottom`), then scale by (`width / world_width`,
    /// `height / world_height`). The position is exact: column
    /// `r.0 / world_width` and row `r.1 / world_height`.
    pub fn world_to_screen(&self, x: i32, y: i32) -> (r: (i128, i128))
        requires
            self.wf(),
        ensures
            r.0 == screen_num(x * self@.width, self@.bounds.spec_left() as int, self@.width as int),
            r.1 == screen_num(
                y * self@.height,
                self@.bounds.spec_bottom() as int,
                self@.height as int,
            ),
            r.0 == (x - self@.bounds.spec_left()) * self@.width,
            r.1 == (y - self@.bounds.spec_bottom()) * self@.height,
            -POSITION_LIMIT <= r.0 <= POSITION_LIMIT,
            -POSITION_LIMIT <= r.1 <= POSITION_LIMIT,
    {
        let dx: i128 = x as i128 - self.bounds.left() as i128;
        let dy: i128 = y as i128 - self.bounds.bottom() as i128;
        let w: i128 = self.width as i128;
        let h: i128 = self.height as i128;
        proof {
            assert(-0x1_0000_0000_0000_0000 <= dx * w <= 0x1_0000_0000_0000_0000) by (nonlinear_arith)
                requires
                    -0x1_0000_0000 <= dx <= 0x1_0000_0000,
                    0 <= w <= 0x1_0000_0000,
            ;
            assert(-0x1_0000_0000_0000_0000 <= dy * h <= 0x1_0000_0000_0000_0000) by (nonlinear_arith)
                requires
                    -0x1_0000_0000 <= dy <= 0x1_0000_0000,
                    0 <= h <= 0x1_0000_0000,
            ;
            assert(x * w - self@.bounds.spec_left() * w == dx * w) by (nonlinear_arith)
                requires
                    dx == x - self@.bounds.spec_left(),
            ;
            assert(y * h - self@.bounds.spec_bottom() * h == dy * h) by (nonlinear_arith)
                requires
                    dy == y - self@.bounds.spec_bottom(),
            ;
        }
        (dx * w, dy * h)
    }

    /// Maps the world point (`x_num / width`, `y_num / height`) to grid
    /// space, exactly as `world_to_screen` does for whole coordinates.
    pub fn world_fraction_to_screen(&self, x_num: i128, y_num: i128) -> (r: (i128, i128))
        requires
            self.wf(),
            -POSITION_LIMIT <= x_num <= POSITION_LIMIT,
            -POSITION_LIMIT <= y_num <= POSITION_LIMIT,
        ensures
            r.0 == screen_num(x_num as int, self@.bounds.spec_left() as int, self@.width as int),
            r.1 == screen_num(y_num as int, self@.bounds.spec_bottom() as int, self@.height as int),
    {
        let (ox, oy) = self.origin_nums();
        (x_num - ox, y_num - oy)
    }

    /// Maps the grid-space position (`col_num / world_width`,
    /// `row_num / world_height`) to the world: scale by
    /// (`world_width / width`, `world_height / height`), then translate by
    /// (`left`, `bottom`). The position is exact: x is `r.0 / width` and y is
    /// `r.1 / height`.
    pub fn screen_to_world(&self, col_num: i128, row_num: i128) -> (r: (i128, i128))
        requires
            self.wf(),
            -POSITION_LIMIT <= col_num <= POSITION_LIMIT,
            -POSITION_LIMIT <= row_num <= POSITION_LIMIT,
        ensures
            r.0 == world_num(col_num as int, self@.bounds.spec_left() as int, self@.width as int),
            r.1 == world_num(row_num as int, self@.bounds.spec_bottom() as int, self@.height as int),
    {
        let (ox, oy) = self.origin_nums();
        (col_num + ox, row_num + oy)
    }

    /// (`left * width`, `bottom * height`): the world origin as numerators.
    fn origin_nums(&self) -> (r: (i128, i128))
        requires
            self.wf(),
        ensures
            r.0 == self@.bounds.spec_left() * self@.width,
            r.1 == self@.bounds.spec_bottom() * self@.height,
            -0x1_0000_0000_0000_0000 <= r.0 <= 0x1_0000_0000_0000_0000,
            -0x1_0000_0000_0000_0000 <= r.1 <= 0x1_0000_0000_0000_0000,
    {
        let l: i128 = self.bounds.left() as i128;
        let b: i128 = self.bounds.bottom() as i128;
        let w: i128 = self.width as i128;
        let h: i128 = self.height as i128;
        proof {
            assert(-0x1_0000_0000_0000_0000 <= l * w <= 0x1_0000_0000_0000_0000) by (nonlinear_arith)
                requires
                    -0x8000_0000 <= l <= 0x8000_0000,
                    0 <= w <= 0x1_0000_0000,
            ;
            assert(-0x1_0000_0000_0000_0000 <= b * h <= 0x1_0000_0000_0000_0000) by (nonlinear_arith)
                requires
                    -0x8000_0000 <= b <= 0x8000_0000,
                    0 <= h <= 0x1_0000_0000,
            ;
        }
        (l * w, b * h)
    }
}

impl Grid {
    /// Paints labelled regions onto the grid. `coverage[k]` lists the
    /// (row, col) cells that region `k` covers and `labels[k]` is its label;
    /// pairs are taken in order, up to the shorter of the two lists. Every
    /// cell ends up holding the label of the last region that covers it, or
    /// `nodata` when none does; listed cells outside the grid are ignored.
    pub fn rasterize_polygons(&mut self, coverage: &Vec<Vec<(usize, usize)>>, labels: &Vec<i64>)
        requires
            old(self).wf(),
        ensures
            final(self).wf(),
            final(self)@.data.len() == old(self)@.data.len(),
            final(self)@ == (GridView { data: final(self)@.data, ..old(self)@ }),
            forall|row: int, col: int|
                0 <= row < old(self)@.height && 0 <= col < old(self)@.width ==> #[trigger] final(self).cell(row, col) == painted(
                    coverage@,
                    labels@,
                    if coverage@.len() < labels@.len() {
                        coverage@.len() as int
                    } else {
                        labels@.len() as int
                    },
                    row,
                    col,
                    old(self)@.nodata,
                ),
    {
        let n: usize = if coverage.len() < labels.len() {
            coverage.len()
        } else {
            labels.len()
        };
        let width = self.width;
        let height = self.height;
        let nodata = self.nodata;
        let total = self.data.len();
        let mut data: Vec<i64> = Vec::new();
        while data.len() < total
            invariant
                data.len() <= total,
                data@ == Seq::new(data.len() as nat, |_i: int| nodata),
            decreases total - data.len(),
        {
            data.push(nodata);
        }
        proof {
            assert forall|row: int, col: int|
                0 <= row < height && 0 <= col < width implies #[trigger] data@[cell_index(
                    row,
                    col,
                    width as int,
                )] == painted(coverage@, labels@, 0, row, col, nodata) by {
                lemma_cell_index_bounds(row, col, width as int, height as int);
            }
        }
        let mut k: usize = 0;
        while k < n
            invariant
                self.wf(),
                width == self@.width,
                height == self@.height,
                nodata == self@.nodata,
                total == self@.data.len(),
                data@.len() == total,
                n <= coverage@.len(),
                n <= labels@.len(),
                k <= n,
                forall|row: int, col: int|
                    0 <= row < height && 0 <= col < width ==> #[trigger] data@[cell_index(
                        row,
                        col,
                        width as int,
                    )] == painted(coverage@, labels@, k as int, row, col, nodata),
            decreases n - k,
        {
            let cells = &coverage[k];
            let label = labels[k];
            let mut m: usize = 0;
            while m < cells.len()
                invariant
                    self.wf(),
                    width == self@.width,
                    height == self@.height,
                    total == self@.data.len(),
                    data@.len() == total,
                    k < n,
                    n <= coverage@.len(),
                    n <= labels@.len(),
                    cells == coverage@[k as int],
                    label == labels@[k as int],
                    m <= cells@.len(),
                    forall|row: int, col: int|
                        0 <= row < height && 0 <= col < width ==> #[trigger] data@[cell_index(
                            row,
                            col,
                            width as int,
                        )] == if covers(cells@.subrange(0, m as int), row, col) {
                            label
                        } else {
                            painted(coverage@, labels@, k as int, row, col, nodata)
                        },
                decreases cells@.len() - m,
            {
                let (r0, c0) = cells[m];
                let ghost before = data@;
                if r0 < height && c0 < width {
                    proof {
                        lemma_cell_index_bounds(r0 as int, c0 as int, width as int, height as int);
                    }
                    data.set(r0 * width + c0, label);
                }
                proof {
                    let sub = cells@.subrange(0, m as int);
                    let sub1 = cells@.subrange(0, m + 1);
                    assert forall|row: int, col: int|
                        0 <= row < height && 0 <= col < width implies #[trigger] data@[cell_index(
                            row,
                            col,
                            width as int,
                        )] == if covers(sub1, row, col) {
                            label
                        } else {
                            painted(coverage@, labels@, k as int, row, col, nodata)
                        } by {
                        lemma_cell_index_bounds(row, col, width as int, height as int);
                        if covers(sub, row, col) {
                            let i = choose|i: int|
                                0 <= i < sub.len() && sub[i].0 == row && sub[i].1 == col;
                            assert(sub1[i] == sub[i]);
                        }
                        if row == r0 && col == c0 {
                            assert(sub1[m as int] == cells@[m as int]);
                        } else {
                            if covers(sub1, row, col) {
                                let i = choose|i: int|
                                    0 <= i < sub1.len() && sub1[i].0 == row && sub1[i].1 == col;
                                assert(i < m);
                                assert(sub[i] == sub1[i]);
                            }
                            if r0 < height && c0 < width {
                                if cell_index(row, col, width as int) == cell_index(
                                    r0 as int,
                                    c0 as int,
                                    width as int,
                                ) {
                                    lemma_cell_index_injective(
                                        row,
                                        col,
                                        r0 as int,
                                        c0 as int,
                                        width as int,
                                    );
                                }
                            }
                            assert(data@[cell_index(row, col, width as int)] == before[cell_index(
                                row,
                                col,
                                width as int,
                            )]);
                        }
                    }
                }
                m = m + 1;
            }
            proof {
                assert(cells@.subrange(0, cells@.len() as int) =~= cells@);
            }
            k = k + 1;
        }
        self.data = data;
    }
}

impl Grid {
    /// The first cell sits on the lower-left corner of the extent, and when the
    /// grid has at least two rows and two columns, the last cell sits on the
    /// upper-right corner.
    pub proof fn lemma_corners(g: &Grid)
        requires
            g.wf(),
        ensures
            g@.xs[0] == g@.bounds.spec_left(),
            g@.ys[0] == g@.bounds.spec_bottom(),
            g@.width >= 2 ==> g@.xs[g@.width - 1] == g@.bounds.spec_right(),
            g@.height >= 2 ==> g@.ys[g@.height - 1] == g@.bounds.spec_top(),
    {
        let b = g@.bounds;
        lemma_linspace_bounds(b.spec_left() as int, b.spec_right() as int, g@.width as int, 0);
        lemma_linspace_bounds(b.spec_bottom() as int, b.spec_top() as int, g@.height as int, 0);
        lemma_linspace_bounds(
            b.spec_left() as int,
            b.spec_right() as int,
            g@.width as int,
            g@.width - 1,
        );
        lemma_linspace_bounds(
            b.spec_bottom() as int,
            b.spec_top() as int,
            g@.height as int,
            g@.height - 1,
        );
    }

    /// Column coordinates strictly increase from left to right, and row
    /// coordinates strictly increase from the bottom row to the top row.
    pub proof fn lemma_coordinates_increase(g: &Grid, a: int, b: int)
        requires
            g.wf(),
            0 <= a < b,
        ensures
            b < g@.width ==> g@.xs[a] < g@.xs[b],
            b < g@.height ==> g@.ys[a] < g@.ys[b],
    {
        let bd = g@.bounds;
        if b < g@.width {
            lemma_linspace_increases(
                bd.spec_left() as int,
                bd.spec_right() as int,
                g@.width as int,
                a,
                b,
            );
        }
        if b < g@.height {
            lemma_linspace_increases(
                bd.spec_bottom() as int,
                bd.spec_top() as int,
                g@.height as int,
                a,
                b,
            );
        }
    }

    /// The two transforms are mutual inverses: grid space to world and back
    /// gives every grid-space position again, and world to grid space and
    /// back gives every world position again. A whole world point (`x`, `y`)
    /// lands at the translate-then-scale position
    /// (`(x - left) * width / world_width`, `(y - bottom) * height / world_height`),
    /// so the lower-left corner goes to (0, 0) and the upper-right corner to
    /// (`width`, `height`).
    pub proof fn lemma_transform_round_trip(
        g: &Grid,
        x_num: int,
        y_num: int,
        col_num: int,
        row_num: int,
        x: int,
        y: int,
    )
        requires
            g.wf(),
        ensures
            ({
                let b = g@.bounds;
                let (l, w, ww) = (b.spec_left() as int, g@.width as int, b.spec_world_width());
                let (d, h, wh) = (b.spec_bottom() as int, g@.height as int, b.spec_world_height());
                &&& screen_num(world_num(col_num, l, w), l, w) == col_num
                &&& screen_num(world_num(row_num, d, h), d, h) == row_num
                &&& world_num(screen_num(x_num, l, w), l, w) == x_num
                &&& world_num(screen_num(y_num, d, h), d, h) == y_num
                &&& screen_num(x * w, l, w) == (x - l) * w
                &&& screen_num(y * h, d, h) == (y - d) * h
                &&& screen_num(l * w, l, w) == 0
                &&& screen_num(d * h, d, h) == 0
                &&& screen_num(b.spec_right() * w, l, w) == w * ww
                &&& screen_num(b.spec_top() * h, d, h) == h * wh
            }),
    {
        let b = g@.bounds;
        let (l, w) = (b.spec_left() as int, g@.width as int);
        let (d, h) = (b.spec_bottom() as int, g@.height as int);
        assert(x * w - l * w == (x - l) * w) by (nonlinear_arith);
        assert(y * h - d * h == (y - d) * h) by (nonlinear_arith);
        assert(b.spec_right() * w - l * w == w * (b.spec_right() - l)) by (nonlinear_arith);
        assert(b.spec_top() * h - d * h == h * (b.spec_top() - d)) by (nonlinear_arith);
    }
}

/// For every valid extent and positive resolution, the evenly spaced
/// coordinates of the grid that `empty_from_bounds` lays out start at
/// `left` and `bottom`, and, when there are at least two columns or rows,
/// end at `right` and `top`.
pub proof fn lemma_corners_from_bounds(bounds: Bounds, resolution: int)
    requires
        bounds.wf(),
        resolution >= 1,
    ensures
        ({
            let (l, r) = (bounds.spec_left() as int, bounds.spec_right() as int);
            let (d, t) = (bounds.spec_bottom() as int, bounds.spec_top() as int);
            let w = cells_along(bounds.spec_world_width(), resolution);
            let h = cells_along(bounds.spec_world_height(), resolution);
            &&& 1 <= w && 1 <= h
            &&& linspace_at(l, r, w, 0) == l
            &&& linspace_at(d, t, h, 0) == d
            &&& w >= 2 ==> linspace_at(l, r, w, w - 1) == r
            &&& h >= 2 ==> linspace_at(d, t, h, h - 1) == t
        }),
{
    let (l, r) = (bounds.spec_left() as int, bounds.spec_right() as int);
    let (d, t) = (bounds.spec_bottom() as int, bounds.spec_top() as int);
    lemma_cells_along(bounds.spec_world_width(), resolution);
    lemma_cells_along(bounds.spec_world_height(), resolution);
    let w = cells_along(bounds.spec_world_width(), resolution);
    let h = cells_along(bounds.spec_world_height(), resolution);
    lemma_linspace_bounds(l, r, w, 0);
    lemma_linspace_bounds(d, t, h, 0);
    lemma_linspace_bounds(l, r, w, w - 1);
    lemma_linspace_bounds(d, t, h, h - 1);
}

/// With no more samples than units to span, evenly spaced coordinates
/// strictly increase.
pub proof fn lemma_linspace_increases(start: int, end: int, n: int, a: int, b: int)
    requires
        start < end,
        1 <= n <= end - start,
        0 <= a < b < n,
    ensures
        linspace_at(start, end, n, a) < linspace_at(start, end, n, b),
{
    let w = end - start;
    let qa = (a * w) / (n - 1);
    let qb = (b * w) / (n - 1);
    lemma_floor_div(a * w, n - 1);
    lemma_floor_div(b * w, n - 1);
    assert(qa < qb) by (nonlinear_arith)
        requires
            (n - 1) * qa <= a * w,
            b * w < (n - 1) * qb + (n - 1),
            a < b,
            n - 1 < w,
            n >= 2,
    ;
}

impl Grid {
    /// Every cell as (world x, world y, value), row-major from the bottom
    /// row. Each call walks the grid afresh.
    pub fn world_cells(&self) -> (r: Vec<(i32, i32, i64)>)
        requires
            self.wf(),
        ensures
            r@.len() == self@.data.len(),
            forall|row: int, col: int|
                0 <= row < self@.height && 0 <= col < self@.width ==> #[trigger] r@[cell_index(
                    row,
                    col,
                    self@.width as int,
                )] == (self@.xs[col], self@.ys[row], self.cell(row, col)),
    {
        let width = self.width;
        let height = self.height;
        let mut r: Vec<(i32, i32, i64)> = Vec::new();
        let mut row: usize = 0;
        while row < height
            invariant
                self.wf(),
                width == self@.width,
                height == self@.height,
                row <= height,
                r@.len() == row * width,
                forall|i: int, c: int|
                    0 <= i < row && 0 <= c < width ==> #[trigger] r@[cell_index(i, c, width as int)]
                        == (self@.xs[c], self@.ys[i], self.cell(i, c)),
            decreases height - row,
        {
            let mut col: usize = 0;
            while col < width
                invariant
                    self.wf(),
                    width == self@.width,
                    height == self@.height,
                    row < height,
                    col <= width,
                    r@.len() == row * width + col,
                    forall|i: int, c: int|
                        0 <= i < row && 0 <= c < width ==> #[trigger] r@[cell_index(
                            i,
                            c,
                            width as int,
                        )] == (self@.xs[c], self@.ys[i], self.cell(i, c)),
                    forall|c: int|
                        0 <= c < col ==> #[trigger] r@[cell_index(row as int, c, width as int)] == (
                            self@.xs[c],
                            self@.ys[row as int],
                            self.cell(row as int, c),
                        ),
                decreases width - col,
            {
                let item = (self.xs[col], self.ys[row], self.value(row, col));
                let ghost before = r@;
                r.push(item);
                proof {
                    assert forall|i: int, c: int| 0 <= i < row && 0 <= c < width implies #[trigger] r@[cell_index(
                        i,
                        c,
                        width as int,
                    )] == (self@.xs[c], self@.ys[i], self.cell(i, c)) by {
                        lemma_cell_index_bounds(i, c, width as int, row as int);
                        assert(width * row == row * width) by (nonlinear_arith);
                        assert(before[cell_index(i, c, width as int)] == r@[cell_index(i, c, width as int)]);
                    }
                }
                col = col + 1;
            }
            proof {
                assert((row + 1) * width == row * width + width) by (nonlinear_arith);
            }
            row = row + 1;
        }
        proof {
            assert(height * width == width * height) by (nonlinear_arith);
        }
        r
    }
}

} // verus!
