use vstd::prelude::*;
use crate::grid::{cell_index, lemma_cell_index_bounds, Grid};

verus! {

/// Intensity of a cell that holds no data.
pub const NODATA_INTENSITY: u16 = 0;

/// Lowest intensity of a cell that holds data.
pub const MIN_INTENSITY: u16 = 1;

/// Highest intensity of a cell that holds data.
pub const MAX_INTENSITY: u16 = 65534;

/// The integer nearest to `n / d` (for `d > 0`), halves rounded away from
/// zero.
pub open spec fn round_div(n: int, d: int) -> int {
    if n >= 0 {
        (2 * n + d) / (2 * d)
    } else {
        -((-2 * n + d) / (2 * d))
    }
}

/// `round_div(n, d)` is within one half of `n / d`, and exactly one half
/// away only where `n / d` lies halfway, on the side away from zero.
pub proof fn lemma_round_div_nearest(n: int, d: int)
    requires
        d > 0,
    ensures
        -d <= 2 * (d * round_div(n, d) - n) <= d,
        n >= 0 ==> -d < 2 * (d * round_div(n, d) - n),
        n < 0 ==> 2 * (d * round_div(n, d) - n) < d,
{
    if n >= 0 {
        let q = (2 * n + d) / (2 * d);
        crate::grid::lemma_floor_div(2 * n + d, 2 * d);
        assert(-d < 2 * (d * q - n) <= d) by (nonlinear_arith)
            requires
                (2 * d) * q <= 2 * n + d,
                2 * n + d < (2 * d) * q + 2 * d,
        ;
    } else {
        let q = (-2 * n + d) / (2 * d);
        crate::grid::lemma_floor_div(-2 * n + d, 2 * d);
        assert(-d <= 2 * (d * (-q) - n) < d) by (nonlinear_arith)
            requires
                (2 * d) * q <= -2 * n + d,
                -2 * n + d < (2 * d) * q + 2 * d,
        ;
    }
}

/// `value` carried linearly from `[src_min, src_max]` onto
/// `[dst_min, dst_max]`, that is
/// `(value - src_min) * (dst_max - dst_min) / (src_max - src_min) + dst_min`,
/// rounded to the nearest integer (halves away from zero); `dst_max` when
/// the source domain is a single value.
pub open spec fn normalized(value: int, src_min: int, src_max: int, dst_min: int, dst_max: int) -> int {
    if src_min == src_max {
        dst_max
    } else if src_min < src_max {
        dst_min + round_div((value - src_min) * (dst_max - dst_min), src_max - src_min)
    } else {
        dst_min + round_div((src_min - value) * (dst_max - dst_min), src_min - src_max)
    }
}

/// Maps `value` linearly from `src_domain` onto `dst_domain`, rounding to
/// the nearest integer; a single-value source domain maps to the top of the
/// destination. Values of the source domain land in the destination domain.
pub fn normalize(value: i64, src_domain: (i64, i64), dst_domain: (i32, i32)) -> (r: i128)
    ensures
        r == normalized(
            value as int,
            src_domain.0 as int,
            src_domain.1 as int,
            dst_domain.0 as int,
            dst_domain.1 as int,
        ),
        src_domain.0 <= value <= src_domain.1 && dst_domain.0 <= dst_domain.1 ==> dst_domain.0 <= r
            <= dst_domain.1,
{
    let (src_min, src_max) = src_domain;
    let (dst_min, dst_max) = dst_domain;
    if src_min == src_max {
        return dst_max as i128;
    }
    let range: i128 = dst_max as i128 - dst_min as i128;
    let (offset, span): (i128, i128) = if src_min < src_max {
        (value as i128 - src_min as i128, src_max as i128 - src_min as i128)
    } else {
        (src_min as i128 - value as i128, src_min as i128 - src_max as i128)
    };
    proof {
        assert(-0x2_0000_0000_0000_0000_0000_0000 <= offset * range <= 0x2_0000_0000_0000_0000_0000_0000)
            by (nonlinear_arith)
            requires
                -0x2_0000_0000_0000_0000 <= offset <= 0x2_0000_0000_0000_0000,
                -0x1_0000_0000 <= range <= 0x1_0000_0000,
        ;
    }
    let n: i128 = offset * range;
    let q: i128 = if n >= 0 {
        ((2 * n + span) as u128 / (2 * span) as u128) as i128
    } else {
        -(((-2 * n + span) as u128 / (2 * span) as u128) as i128)
    };
    proof {
        crate::grid::lemma_floor_div(2 * n + span, 2 * span);
        crate::grid::lemma_floor_div(-2 * n + span, 2 * span);
        assert(q == round_div(n as int, span as int));
        if src_min <= value <= src_max && dst_min <= dst_max {
            assert(0 <= q <= range) by (nonlinear_arith)
                requires
                    q == (2 * n + span) / (2 * span),
                    2 * span * q <= 2 * n + span,
                    2 * n + span < 2 * span * q + 2 * span,
                    n == offset * range,
                    0 <= offset <= span,
                    0 <= range,
                    span >= 1,
            ;
        }
    }
    dst_min as i128 + q
}

/// Least and greatest of the first `n` values of `s` that differ from
/// `nodata`; `None` when there is none.
pub open spec fn domain_upto(s: Seq<i64>, nodata: i64, n: int) -> Option<(i64, i64)>
    decreases n,
{
    if n <= 0 {
        None
    } else {
        let v = s[n - 1];
        let d = domain_upto(s, nodata, n - 1);
        if v == nodata {
            d
        } else {
            match d {
                None => Some((v, v)),
                Some((lo, hi)) => Some(
                    (if v < lo {
                        v
                    } else {
                        lo
                    }, if v > hi {
                        v
                    } else {
                        hi
                    }),
                ),
            }
        }
    }
}

/// Least and greatest value of `s` that differ from `nodata`.
pub open spec fn data_domain(s: Seq<i64>, nodata: i64) -> Option<(i64, i64)> {
    domain_upto(s, nodata, s.len() as int)
}

/// Intensity of a cell holding `v`: `NODATA_INTENSITY` for `nodata`, else
/// `v` carried from the data domain onto `[MIN_INTENSITY, MAX_INTENSITY]`.
pub open spec fn intensity(v: i64, nodata: i64, domain: Option<(i64, i64)>) -> int {
    if v == nodata {
        NODATA_INTENSITY as int
    } else {
        match domain {
            Some((lo, hi)) => normalized(
                v as int,
                lo as int,
                hi as int,
                MIN_INTENSITY as int,
                MAX_INTENSITY as int,
            ),
            None => NODATA_INTENSITY as int,
        }
    }
}

/// The domain covers every value that differs from `nodata`.
pub proof fn lemma_domain_covers(s: Seq<i64>, nodata: i64, n: int)
    requires
        0 <= n <= s.len(),
    ensures
        forall|i: int|
            0 <= i < n && #[trigger] s[i] != nodata ==> (domain_upto(s, nodata, n) matches Some(
                (lo, hi),
            ) && lo <= s[i] <= hi),
        domain_upto(s, nodata, n) matches Some((lo, hi)) ==> lo <= hi,
    decreases n,
{
    if n > 0 {
        lemma_domain_covers(s, nodata, n - 1);
    }
}

/// The domain is `None` exactly when every value is `nodata`; otherwise
/// its two ends are values of `s` that differ from `nodata`, so they are
/// the least and greatest such values.
pub proof fn lemma_domain_attained(s: Seq<i64>, nodata: i64, n: int)
    requires
        0 <= n <= s.len(),
    ensures
        domain_upto(s, nodata, n) is None <==> forall|i: int| 0 <= i < n ==> #[trigger] s[i] == nodata,
        domain_upto(s, nodata, n) matches Some((lo, hi)) ==> {
            &&& exists|i: int| 0 <= i < n && s[i] != nodata && #[trigger] s[i] == lo
            &&& exists|j: int| 0 <= j < n && s[j] != nodata && #[trigger] s[j] == hi
        },
    decreases n,
{
    if n > 0 {
        lemma_domain_attained(s, nodata, n - 1);
        let v = s[n - 1];
        if v == nodata {
            if domain_upto(s, nodata, n - 1) is None {
                assert forall|i: int| 0 <= i < n implies #[trigger] s[i] == nodata by {
                    if i < n - 1 {
                        assert(s[i] == nodata);
                    }
                }
            }
        } else {
            assert(!(forall|i: int| 0 <= i < n ==> #[trigger] s[i] == nodata));
            match domain_upto(s, nodata, n - 1) {
                None => {
                    assert(s[n - 1] == v);
                },
                Some((lo, hi)) => {
                    let i = choose|i: int| 0 <= i < n - 1 && s[i] != nodata && #[trigger] s[i] == lo;
                    let j = choose|j: int| 0 <= j < n - 1 && s[j] != nodata && #[trigger] s[j] == hi;
                    assert(s[i] == lo);
                    assert(s[j] == hi);
                    assert(s[n - 1] == v);
                },
            }
        }
    } else {
        assert forall|i: int| 0 <= i < n implies #[trigger] s[i] == nodata by {}
    }
}

/// Intensities of the cells as an image, row-major, with image row 0
/// showing the grid's top row: cell (`row`, `col`) lands at image row
/// `height - 1 - row`.
pub fn grid_intensities(grid: &Grid) -> (r: Vec<u16>)
    requires
        grid.wf(),
    ensures
        r@.len() == grid@.data.len(),
        forall|row: int, col: int|
            0 <= row < grid@.height && 0 <= col < grid@.width ==> r@[cell_index(
                grid@.height - 1 - row,
                col,
                grid@.width as int,
            )] == intensity(
                #[trigger] grid.cell(row, col),
                grid@.nodata,
                data_domain(grid@.data, grid@.nodata),
            ),
{
    let data = grid.data();
    let nodata = grid.nodata();
    let width = grid.width();
    let height = grid.height();
    let mut domain: Option<(i64, i64)> = None;
    let mut i: usize = 0;
    while i < data.len()
        invariant
            i <= data@.len(),
            domain == domain_upto(data@, nodata, i as int),
        decreases data@.len() - i,
    {
        let v = data[i];
        if v != nodata {
            domain = match domain {
                None => Some((v, v)),
                Some((lo, hi)) => Some(
                    (if v < lo {
                        v
                    } else {
                        lo
                    }, if v > hi {
                        v
                    } else {
                        hi
                    }),
                ),
            };
        }
        i = i + 1;
    }
    proof {
        lemma_domain_covers(data@, nodata, data@.len() as int);
    }
    let ghost g = grid@;
    let mut r: Vec<u16> = Vec::new();
    let mut out_row: usize = 0;
    while out_row < height
        invariant
            grid@ == g,
            grid.wf(),
            data@ == g.data,
            nodata == g.nodata,
            width == g.width,
            height == g.height,
            domain == data_domain(g.data, nodata),
            forall|k: int|
                0 <= k < data@.len() && #[trigger] data@[k] != nodata ==> (domain matches Some(
                    (lo, hi),
                ) && lo <= data@[k] <= hi),
            out_row <= height,
            r@.len() == out_row * width,
            forall|o: int, c: int|
                0 <= o < out_row && 0 <= c < width ==> #[trigger] r@[cell_index(o, c, width as int)]
                    == intensity(
                    grid.cell(height - 1 - o, c),
                    nodata,
                    domain,
                ),
        decreases height - out_row,
    {
        let row = height - 1 - out_row;
        let mut col: usize = 0;
        while col < width
            invariant
                grid@ == g,
                grid.wf(),
                data@ == g.data,
                nodata == g.nodata,
                width == g.width,
                height == g.height,
                domain == data_domain(g.data, nodata),
                forall|k: int|
                    0 <= k < data@.len() && #[trigger] data@[k] != nodata ==> (domain matches Some(
                        (lo, hi),
                    ) && lo <= data@[k] <= hi),
                out_row < height,
                row == height - 1 - out_row,
                col <= width,
                r@.len() == out_row * width + col,
                forall|o: int, c: int|
                    0 <= o < out_row && 0 <= c < width ==> #[trigger] r@[cell_index(
                        o,
                        c,
                        width as int,
                    )] == intensity(grid.cell(height - 1 - o, c), nodata, domain),
                forall|c: int|
                    0 <= c < col ==> #[trigger] r@[cell_index(out_row as int, c, width as int)]
                        == intensity(grid.cell(row as int, c), nodata, domain),
            decreases width - col,
        {
            let v = grid.value(row, col);
            proof {
                lemma_cell_index_bounds(row as int, col as int, width as int, height as int);
            }
            let px: u16 = if v == nodata {
                NODATA_INTENSITY
            } else {
                match domain {
                    Some((lo, hi)) => normalize(
                        v,
                        (lo, hi),
                        (MIN_INTENSITY as i32, MAX_INTENSITY as i32),
                    ) as u16,
                    None => NODATA_INTENSITY,
                }
            };
            let ghost before = r@;
            r.push(px);
            proof {
                assert forall|o: int, c: int| 0 <= o < out_row && 0 <= c < width implies #[trigger] r@[cell_index(
                    o,
                    c,
                    width as int,
                )] == intensity(grid.cell(height - 1 - o, c), nodata, domain) by {
                    lemma_cell_index_bounds(o, c, width as int, out_row as int);
                    assert(width * out_row == out_row * width) by (nonlinear_arith);
                    assert(before[cell_index(o, c, width as int)] == r@[cell_index(o, c, width as int)]);
                }
            }
            col = col + 1;
        }
        proof {
            assert((out_row + 1) * width == out_row * width + width) by (nonlinear_arith);
        }
        out_row = out_row + 1;
    }
    proof {
        assert(height * width == width * height) by (nonlinear_arith);
        assert forall|row: int, col: int|
            0 <= row < height && 0 <= col < width implies r@[cell_index(
                height - 1 - row,
                col,
                width as int,
            )] == intensity(#[trigger] grid.cell(row, col), nodata, domain) by {
            let o = height - 1 - row;
            assert(r@[cell_index(o, col, width as int)] == intensity(grid.cell(height - 1 - o, col), nodata, domain));
        }
    }
    r
}

} // verus!
