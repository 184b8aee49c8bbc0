//! The sampled region as a grid of pixels and samples, its division into
//! horizontal strips, and the traversal that fills a sample buffer.

use vstd::prelude::*;
use vstd::arithmetic::div_mod::{lemma_fundamental_div_mod, lemma_fundamental_div_mod_converse};
use crate::distribute::{share, share_start, share_sum, shares, lemma_share_bounds, lemma_share_start_step, lemma_shares_cover_total, lemma_share_start_total};

verus! {

/// How to sample one rectangular region: its size in pixels, the number of
/// samples per pixel in each direction, and the iteration limit.
///
/// A region may be a strip of a larger picture; `first_row` counts the pixel
/// rows of that picture that lie below the region. Rows are counted from the
/// bottom.
#[derive(Debug, Clone, Copy, PartialEq, Eq, Structural)]
pub struct SetDefinition {
    pub first_row: u32,
    pub width_px: u32,
    pub height_px: u32,
    pub oversampling: u32,
    pub max_iterations: u32,
}

/// The iteration counts of all the samples of a region, row by row from the
/// bottom row up; 0 stands for a sample that never escaped.
#[derive(Debug, Clone, PartialEq, Eq)]
pub struct SetData {
    pub def: SetDefinition,
    pub data: Vec<u32>,
}

impl SetData {
    /// A buffer is well formed where its region is and it holds one entry
    /// for every sample of the region.
    pub open spec fn wf(self) -> bool {
        &&& self.def.wf()
        &&& self.data.len() == self.def.sample_count()
    }
}

impl SetDefinition {
    /// The number of samples in one row of samples.
    pub open spec fn row_len(self) -> int {
        self.width_px * self.oversampling
    }

    /// The number of rows of samples.
    pub open spec fn rows(self) -> int {
        self.height_px * self.oversampling
    }

    /// The number of samples in the region.
    pub open spec fn sample_count(self) -> int {
        self.rows() * self.row_len()
    }

    /// Whether the numbers of all the pixel rows of the region fit in 32
    /// bits.
    pub open spec fn rows_fit(self) -> bool {
        self.first_row + self.height_px <= u32::MAX
    }

    /// A region is well formed where it is at least one pixel wide, takes at
    /// least one sample per pixel, and its row numbers and its number of
    /// samples fit in 32 bits.
    pub open spec fn wf(self) -> bool {
        &&& self.width_px > 0
        &&& self.oversampling >= 1
        &&& self.rows_fit()
        &&& self.sample_count() <= u32::MAX
    }

    /// Strip `i` of `count`: as wide as this region, with its share of the
    /// pixel rows, lying directly on top of strip `i - 1`.
    pub open spec fn strip(self, count: int, i: int) -> SetDefinition {
        SetDefinition {
            first_row: (self.first_row + share_start(self.height_px as int, count, i)) as u32,
            height_px: share(self.height_px as int, count, i) as u32,
            ..self
        }
    }

    /// The strips that `split` makes, from the bottom one up.
    pub open spec fn spec_split(self, count: int) -> Seq<SetDefinition> {
        Seq::new(count as nat, |i: int| self.strip(count, i))
    }

    /// A region of the given size that is a picture of its own.
    pub fn new(width_px: u32, height_px: u32, oversampling: u32, max_iterations: u32) -> (def:
        SetDefinition)
        requires
            width_px > 0,
            oversampling >= 1,
            (height_px * oversampling) * (width_px * oversampling) <= u32::MAX,
        ensures
            def.wf(),
            def == (SetDefinition {
                first_row: 0,
                width_px,
                height_px,
                oversampling,
                max_iterations,
            }),
    {
        SetDefinition { first_row: 0, width_px, height_px, oversampling, max_iterations }
    }

    /// Splits this region into `count` regions covering the same area, so
    /// that they can be sampled independently and put together again.
    ///
    /// The area is cut into horizontal strips, listed from the bottom up.
    /// Every strip is as wide as the region; its height is the region's
    /// height divided by `count`, and the strips with the lowest indices
    /// are one row higher where the division leaves a remainder.
    pub fn split(&self, count: u32) -> (strips: Vec<SetDefinition>)
        requires
            self.rows_fit(),
            count > 0,
        ensures
            strips@ == self.spec_split(count as int),
            strips.len() == count,
            forall|i: int| 0 <= i < count ==> (#[trigger] strips[i]).rows_fit(),
            self.wf() ==> forall|i: int| 0 <= i < count ==> (#[trigger] strips[i]).wf(),
    {
        let heights = shares(self.height_px, count);
        let mut first_row: u32 = self.first_row;
        let mut defs: Vec<SetDefinition> = Vec::with_capacity(count as usize);
        let mut i: u32 = 0;
        proof {
            lemma_share_start_step(self.height_px as int, count as int, 0);
        }
        while i < count
            invariant
                self.rows_fit(),
                count > 0,
                i <= count,
                heights.len() == count,
                forall|j: int|
                    0 <= j < count ==> heights[j] == share(self.height_px as int, count as int, j),
                first_row == self.first_row + share_start(
                    self.height_px as int,
                    count as int,
                    i as int,
                ),
                defs.len() == i,
                forall|j: int| 0 <= j < i ==> defs[j] == self.strip(count as int, j),
            decreases count - i,
        {
            let height: u32 = heights[i as usize];
            proof {
                lemma_share_bounds(self.height_px as int, count as int, i as int);
                lemma_share_start_step(self.height_px as int, count as int, i as int);
            }
            let def = SetDefinition { first_row, height_px: height, ..*self };
            defs.push(def);
            first_row = first_row + height;
            i += 1;
        }
        proof {
            assert(defs@ =~= self.spec_split(count as int));
            assert forall|j: int| 0 <= j < count implies (#[trigger] defs[j]).rows_fit() by {
                lemma_strip_inside(*self, count as int, j);
            }
            if self.wf() {
                assert forall|j: int| 0 <= j < count implies (#[trigger] defs[j]).wf() by {
                    lemma_strip_inside(*self, count as int, j);
                }
            }
        }
        defs
    }
}

/// Every strip of a region lies inside the region and has no more samples
/// than the region, so that it is well formed where the region is.
pub proof fn lemma_strip_inside(def: SetDefinition, count: int, i: int)
    requires
        def.rows_fit(),
        0 <= i < count,
    ensures
        def.strip(count, i).rows_fit(),
        def.wf() ==> def.strip(count, i).wf(),
        def.strip(count, i).sample_count() <= def.sample_count(),
        def.strip(count, i).first_row == def.first_row + share_start(def.height_px as int, count, i),
        def.strip(count, i).height_px == share(def.height_px as int, count, i),
        def.strip(count, i).first_row + def.strip(count, i).height_px <= def.first_row
            + def.height_px,
{
    lemma_share_bounds(def.height_px as int, count, i);
    let strip = def.strip(count, i);
    assert(strip.height_px <= def.height_px);
    assert(strip.rows() * strip.row_len() <= def.rows() * def.row_len()) by (nonlinear_arith)
        requires
            strip.rows() == strip.height_px * def.oversampling,
            def.rows() == def.height_px * def.oversampling,
            strip.row_len() == def.row_len(),
            0 <= def.row_len(),
            0 <= strip.height_px <= def.height_px,
            0 <= def.oversampling,
    ;
}

/// The heights of the first `n` of `strips` added up.
pub open spec fn heights_sum(strips: Seq<SetDefinition>, n: nat) -> int
    decreases n,
{
    if n == 0 {
        0
    } else {
        heights_sum(strips, (n - 1) as nat) + strips[n - 1].height_px
    }
}

proof fn lemma_heights_sum_is_share_sum(def: SetDefinition, count: int, n: nat)
    requires
        0 < count,
        n <= count,
    ensures
        heights_sum(def.spec_split(count), n) == share_sum(def.height_px as int, count, n),
    decreases n,
{
    if n > 0 {
        lemma_heights_sum_is_share_sum(def, count, (n - 1) as nat);
        lemma_share_bounds(def.height_px as int, count, n - 1);
    }
}

/// The heights of the strips of a region add up to the height of the
/// region, and exactly `height_px % count` strips, those with the lowest
/// indices, are one row higher than the others.
pub proof fn lemma_split_heights(def: SetDefinition, count: int)
    requires
        0 < count,
    ensures
        def.spec_split(count).len() == count,
        heights_sum(def.spec_split(count), count as nat) == def.height_px,
        0 <= (def.height_px as int) % count < count,
        forall|i: int|
            0 <= i < (def.height_px as int) % count ==> (#[trigger] def.spec_split(count)[i]).height_px
                == (def.height_px as int) / count + 1,
        forall|i: int|
            (def.height_px as int) % count <= i < count ==> (#[trigger] def.spec_split(
                count,
            )[i]).height_px == (def.height_px as int) / count,
{
    lemma_heights_sum_is_share_sum(def, count, count as nat);
    lemma_shares_cover_total(def.height_px as int, count);
    assert forall|i: int| 0 <= i < count implies (#[trigger] def.spec_split(count)[i]).height_px
        == share(def.height_px as int, count, i) by {
        lemma_share_bounds(def.height_px as int, count, i);
    }
}

/// The strips of a region cover it without gap or overlap: the first
/// begins where the region begins, each next one where the one before it
/// ends, and the last ends where the region ends. All else they share with
/// the region.
pub proof fn lemma_split_stacks(def: SetDefinition, count: int)
    requires
        def.rows_fit(),
        0 < count,
    ensures
        def.spec_split(count)[0].first_row == def.first_row,
        forall|i: int|
            0 <= i < count - 1 ==> (#[trigger] def.spec_split(count)[i + 1]).first_row
                == def.spec_split(count)[i].first_row + def.spec_split(count)[i].height_px,
        def.spec_split(count)[count - 1].first_row + def.spec_split(count)[count - 1].height_px
            == def.first_row + def.height_px,
        forall|i: int|
            0 <= i < count ==> {
                let strip = #[trigger] def.spec_split(count)[i];
                &&& strip.width_px == def.width_px
                &&& strip.oversampling == def.oversampling
                &&& strip.max_iterations == def.max_iterations
            },
{
    let h = def.height_px as int;
    lemma_share_start_step(h, count, 0);
    lemma_share_start_total(h, count);
    lemma_strip_inside(def, count, 0);
    lemma_strip_inside(def, count, count - 1);
    lemma_share_start_step(h, count, count - 1);
    assert forall|i: int| 0 <= i < count - 1 implies (#[trigger] def.spec_split(count)[i
        + 1]).first_row == def.spec_split(count)[i].first_row + def.spec_split(
        count,
    )[i].height_px by {
        lemma_strip_inside(def, count, i);
        lemma_strip_inside(def, count, i + 1);
        lemma_share_start_step(h, count, i);
    }
}

/// The buffer that holds `f(row, column)` for every place of a grid, row by
/// row.
pub open spec fn grid_samples(rows: int, row_len: int, f: spec_fn(int, int) -> u32) -> Seq<u32> {
    Seq::new((rows * row_len) as nat, |k: int| f(k / row_len, k % row_len))
}

/// The place `r` of row `i` of a grid stands at `i * row_len + r` in its
/// buffer.
pub proof fn lemma_grid_place(rows: int, row_len: int, f: spec_fn(int, int) -> u32, i: int, r: int)
    requires
        0 <= i < rows,
        0 <= r < row_len,
    ensures
        0 <= i * row_len + r < grid_samples(rows, row_len, f).len(),
        grid_samples(rows, row_len, f)[i * row_len + r] == f(i, r),
{
    lemma_place_order(i, r, rows, 0, row_len);
    assert(0 <= i * row_len) by (nonlinear_arith)
        requires
            0 <= i,
            0 < row_len,
    ;
    lemma_fundamental_div_mod_converse(i * row_len + r, row_len, i, r);
}

/// A buffer that holds `f(i, r)` at `i * row_len + r` for every place of a
/// grid is the buffer of the grid.
pub proof fn lemma_buffer_is_grid(
    data: Seq<u32>,
    rows: int,
    row_len: int,
    f: spec_fn(int, int) -> u32,
)
    requires
        0 <= rows,
        0 < row_len,
        data.len() == rows * row_len,
        forall|i: int, r: int|
            0 <= i < rows && 0 <= r < row_len ==> #[trigger] data[i * row_len + r] == f(i, r),
    ensures
        data == grid_samples(rows, row_len, f),
{
    let grid = grid_samples(rows, row_len, f);
    assert forall|k: int| 0 <= k < data.len() implies data[k] == grid[k] by {
        lemma_fundamental_div_mod(k, row_len);
        let i = k / row_len;
        let r = k % row_len;
        assert(0 <= i < rows) by (nonlinear_arith)
            requires
                k == row_len * i + r,
                0 <= r < row_len,
                0 <= k < rows * row_len,
        ;
        assert(row_len * i == i * row_len) by (nonlinear_arith);
        assert(data[i * row_len + r] == f(i, r));
    }
    assert(data =~= grid);
}

/// A grid of `below + above` rows is the grid of its lowest `below` rows
/// followed by the grid of the rows on top of them.
pub proof fn lemma_grid_stack(below: int, above: int, row_len: int, f: spec_fn(int, int) -> u32)
    requires
        0 <= below,
        0 <= above,
        0 < row_len,
    ensures
        grid_samples(below + above, row_len, f) == grid_samples(below, row_len, f) + grid_samples(
            above,
            row_len,
            |i: int, r: int| f(below + i, r),
        ),
{
    let whole = grid_samples(below + above, row_len, f);
    let low = grid_samples(below, row_len, f);
    let high = grid_samples(above, row_len, |i: int, r: int| f(below + i, r));
    assert((below + above) * row_len == below * row_len + above * row_len) by (nonlinear_arith);
    assert(0 <= below * row_len && 0 <= above * row_len) by (nonlinear_arith)
        requires
            0 <= below,
            0 <= above,
            0 < row_len,
    ;
    assert forall|k: int| 0 <= k < whole.len() implies whole[k] == (low + high)[k] by {
        if k >= low.len() {
            let local = k - below * row_len;
            lemma_fundamental_div_mod(local, row_len);
            assert(k == (below + local / row_len) * row_len + local % row_len) by (nonlinear_arith)
                requires
                    k == local + below * row_len,
                    local == row_len * (local / row_len) + local % row_len,
            ;
            lemma_fundamental_div_mod_converse(
                k,
                row_len,
                below + local / row_len,
                local % row_len,
            );
        }
    }
    assert(whole =~= low + high);
}

/// Samples every place of the region and returns the results row by row,
/// from the bottom row of samples up and from left to right in each row.
///
/// `escape_at` is called once for each place with the number of its row of
/// samples and the number of its column, both counted from 0 inside the
/// region, and gives the iteration count of the sample there.
pub fn calc_set<F: Fn(u32, u32) -> u32>(set_def: &SetDefinition, escape_at: F) -> (set: SetData)
    requires
        set_def.wf(),
        forall|i: u32, r: u32|
            i < set_def.rows() && r < set_def.row_len() ==> escape_at.requires((i, r)),
    ensures
        set.def == *set_def,
        set.data.len() == set_def.sample_count(),
        forall|i: int, r: int|
            0 <= i < set_def.rows() && 0 <= r < set_def.row_len() ==> escape_at.ensures(
                (i as u32, r as u32),
                #[trigger] set.data[i * set_def.row_len() + r],
            ),
{
    let mut point_data: Vec<u32> = Vec::new();
    if set_def.height_px == 0 {
        assert(set_def.rows() * set_def.row_len() == 0) by (nonlinear_arith)
            requires
                set_def.rows() == 0 * set_def.oversampling,
        ;
        return SetData { def: *set_def, data: point_data };
    }
    proof {
        lemma_grid_fits(set_def.height_px as int, set_def.width_px as int, set_def.oversampling as int);
    }
    let rows: u32 = set_def.height_px * set_def.oversampling;
    let row_len: u32 = set_def.width_px * set_def.oversampling;
    let mut i: u32 = 0;
    while i < rows
        invariant
            rows == set_def.rows(),
            row_len == set_def.row_len(),
            i <= rows,
            point_data.len() == i * row_len,
            forall|a: u32, b: u32| a < rows && b < row_len ==> escape_at.requires((a, b)),
            forall|a: int, b: int|
                0 <= a < i && 0 <= b < row_len ==> escape_at.ensures(
                    (a as u32, b as u32),
                    #[trigger] point_data[a * row_len + b],
                ),
        decreases rows - i,
    {
        let mut r: u32 = 0;
        while r < row_len
            invariant
                i < rows,
                r <= row_len,
                point_data.len() == i * row_len + r,
                forall|a: u32, b: u32| a < rows && b < row_len ==> escape_at.requires((a, b)),
                forall|a: int, b: int|
                    0 <= a < i && 0 <= b < row_len ==> escape_at.ensures(
                        (a as u32, b as u32),
                        #[trigger] point_data[a * row_len + b],
                    ),
                forall|b: int|
                    0 <= b < r ==> escape_at.ensures(
                        (i, b as u32),
                        #[trigger] point_data[i * row_len + b],
                    ),
            decreases row_len - r,
        {
            let escape_iters = escape_at(i, r);
            let ghost before = point_data@;
            point_data.push(escape_iters);
            proof {
                assert forall|a: int, b: int| 0 <= a < i && 0 <= b < row_len implies escape_at.ensures(
                    (a as u32, b as u32),
                    #[trigger] point_data[a * row_len + b],
                ) by {
                    lemma_place_order(a, b, i as int, 0, row_len as int);
                    assert(point_data[a * row_len + b] == before[a * row_len + b]);
                }
            }
            r += 1;
        }
        proof {
            assert((i + 1) * row_len == i * row_len + row_len) by (nonlinear_arith);
        }
        i += 1;
    }
    SetData { def: *set_def, data: point_data }
}

/// In a region with at least one row of pixels, the number of rows of
/// samples and the length of a row are no larger than the number of
/// samples.
proof fn lemma_grid_fits(height_px: int, width_px: int, oversampling: int)
    requires
        1 <= height_px,
        1 <= width_px,
        1 <= oversampling,
    ensures
        1 <= height_px * oversampling <= (height_px * oversampling) * (width_px * oversampling),
        1 <= width_px * oversampling <= (height_px * oversampling) * (width_px * oversampling),
{
    let rows = height_px * oversampling;
    let row_len = width_px * oversampling;
    assert(1 <= rows) by (nonlinear_arith)
        requires
            rows == height_px * oversampling,
            1 <= height_px,
            1 <= oversampling,
    ;
    assert(1 <= row_len) by (nonlinear_arith)
        requires
            row_len == width_px * oversampling,
            1 <= width_px,
            1 <= oversampling,
    ;
    assert(rows <= rows * row_len && row_len <= rows * row_len) by (nonlinear_arith)
        requires
            1 <= rows,
            1 <= row_len,
    ;
}

/// A place in an earlier row stands before every place of a later row.
pub proof fn lemma_place_order(a: int, b: int, i: int, r: int, row_len: int)
    requires
        0 <= a < i,
        0 <= b < row_len,
        0 <= r,
    ensures
        0 <= a * row_len + b < i * row_len + r,
{
    assert(0 <= a * row_len && a * row_len + row_len <= i * row_len) by (nonlinear_arith)
        requires
            0 <= a < i,
            0 < row_len,
    ;
}

} // verus!
