//! From a buffer of iteration counts to a picture: the range of the
//! counts, the palette for that range, and the colour of every pixel.

use vstd::prelude::*;
use bmp::Image;
use crate::colour::{
    Colour, palette, pixel_colour, spec_palette, spec_pixel_colour, samples_in_buffer,
    samples_in_palette,
    sample_index, lemma_sample_index_bound,
};
use crate::image::{image_width, image_height, image_pixels, image_size_fits};
use crate::region::{SetData, lemma_place_order};

verus! {

/// The smallest entry of a buffer that is not empty.
pub open spec fn min_of(s: Seq<u32>) -> u32
    decreases s.len(),
{
    if s.len() <= 1 {
        s[0]
    } else {
        let m = min_of(s.drop_last());
        if s.last() < m {
            s.last()
        } else {
            m
        }
    }
}

/// The largest entry of a buffer that is not empty.
pub open spec fn max_of(s: Seq<u32>) -> u32
    decreases s.len(),
{
    if s.len() <= 1 {
        s[0]
    } else {
        let m = max_of(s.drop_last());
        if s.last() > m {
            s.last()
        } else {
            m
        }
    }
}

/// The smallest and the largest entry occur in the buffer, and every entry
/// lies between them.
pub proof fn lemma_range_bounds(s: Seq<u32>)
    requires
        s.len() > 0,
    ensures
        forall|k: int| 0 <= k < s.len() ==> min_of(s) <= #[trigger] s[k] <= max_of(s),
        exists|k: int| 0 <= k < s.len() && #[trigger] s[k] == min_of(s),
        exists|k: int| 0 <= k < s.len() && #[trigger] s[k] == max_of(s),
    decreases s.len(),
{
    if s.len() > 1 {
        let front = s.drop_last();
        lemma_range_bounds(front);
        let lo = choose|k: int| 0 <= k < front.len() && #[trigger] front[k] == min_of(front);
        let hi = choose|k: int| 0 <= k < front.len() && #[trigger] front[k] == max_of(front);
        assert(s[lo] == front[lo]);
        assert(s[hi] == front[hi]);
        assert(s[s.len() - 1] == s.last());
        assert forall|k: int| 0 <= k < s.len() implies min_of(s) <= #[trigger] s[k] <= max_of(s) by {
            if k < front.len() {
                assert(s[k] == front[k]);
            }
        }
    } else {
        assert(s[0] == min_of(s));
    }
}

/// Finds the smallest and the largest iteration count of a buffer, in this
/// order.
pub fn escape_iter_range(set_vec: &Vec<u32>) -> (range: (u32, u32))
    requires
        set_vec.len() > 0,
    ensures
        range.0 == min_of(set_vec@),
        range.1 == max_of(set_vec@),
        forall|k: int| 0 <= k < set_vec.len() ==> range.0 <= #[trigger] set_vec[k] <= range.1,
        exists|k: int| 0 <= k < set_vec.len() && #[trigger] set_vec[k] == range.0,
        exists|k: int| 0 <= k < set_vec.len() && #[trigger] set_vec[k] == range.1,
{
    let mut min: u32 = set_vec[0];
    let mut max: u32 = set_vec[0];
    let mut i: usize = 1;
    assert(set_vec@.take(1).len() == 1);
    while i < set_vec.len()
        invariant
            1 <= i <= set_vec.len(),
            min == min_of(set_vec@.take(i as int)),
            max == max_of(set_vec@.take(i as int)),
        decreases set_vec.len() - i,
    {
        let val: u32 = set_vec[i];
        assert(set_vec@.take(i + 1).drop_last() =~= set_vec@.take(i as int));
        if val > max {
            max = val;
        }
        if val < min {
            min = val;
        }
        i += 1;
    }
    proof {
        assert(set_vec@.take(set_vec.len() as int) =~= set_vec@);
        lemma_range_bounds(set_vec@);
    }
    (min, max)
}

/// The colours that the default gradient passes through: dark blue, light
/// blue, white, orange, dark red.
pub open spec fn spec_default_vertices() -> Seq<Colour> {
    seq![
        Colour { r: 0x01, g: 0x0d, b: 0x62 },
        Colour { r: 0x63, g: 0xb8, b: 0xec },
        Colour { r: 0xff, g: 0xff, b: 0xff },
        Colour { r: 0xff, g: 0xb7, b: 0x00 },
        Colour { r: 0x61, g: 0x10, b: 0x12 },
    ]
}

/// The colours that the default gradient passes through.
pub fn default_vertices() -> (vertices: Vec<Colour>)
    ensures
        vertices@ == spec_default_vertices(),
{
    let mut vertices: Vec<Colour> = Vec::with_capacity(5);
    vertices.push(Colour::new(0x01, 0x0d, 0x62));
    vertices.push(Colour::new(0x63, 0xb8, 0xec));
    vertices.push(Colour::new(0xff, 0xff, 0xff));
    vertices.push(Colour::new(0xff, 0xb7, 0x00));
    vertices.push(Colour::new(0x61, 0x10, 0x12));
    assert(vertices@ =~= spec_default_vertices());
    vertices
}

/// The number of colours in the palette of a buffer: one for every
/// iteration count from the smallest in the buffer to the largest.
pub open spec fn palette_size(data: Seq<u32>) -> int {
    max_of(data) - min_of(data) + 1
}

/// Whether a picture can be made of the buffer with a gradient through
/// `vertices`: the buffer is well formed and not empty, and its iteration
/// counts span at least as many values as there are vertices, and at least
/// two.
pub open spec fn renderable(set: SetData, vertices: Seq<Colour>) -> bool {
    &&& set.wf()
    &&& set.data.len() > 0
    &&& vertices.len() >= 2
    &&& vertices.len() <= palette_size(set.data@) <= u32::MAX
}

/// The colour of the pixel in column `x` of row `y` of the picture, rows
/// counted from the top: the average colour of the pixel's samples, which
/// lie in row `height_px - 1 - y` of the buffer's pixel rows, under the
/// palette made for the range of the buffer's iteration counts.
pub open spec fn spec_render_pixel(set: SetData, vertices: Seq<Colour>, x: int, y: int) -> Colour {
    spec_pixel_colour(
        set.data@,
        x,
        set.def.height_px - 1 - y,
        set.def.width_px as int,
        set.def.oversampling as int,
        min_of(set.data@),
        spec_palette(palette_size(set.data@), vertices),
    )
}

/// Every pixel of a well-formed buffer has its samples inside the buffer,
/// and each of them that escaped has an entry in the palette made for the
/// buffer.
proof fn lemma_pixel_in_reach(set: SetData, colours: Seq<Colour>, x: int, row: int)
    requires
        set.wf(),
        set.data.len() > 0,
        colours.len() == palette_size(set.data@),
        0 <= x < set.def.width_px,
        0 <= row < set.def.height_px,
    ensures
        set.def.oversampling * set.def.oversampling <= u32::MAX,
        samples_in_buffer(
            set.data.len() as int,
            x,
            row,
            set.def.width_px as int,
            set.def.oversampling as int,
        ),
        samples_in_palette(
            set.data@,
            x,
            row,
            set.def.width_px as int,
            set.def.oversampling as int,
            min_of(set.data@),
            colours,
        ),
{
    let w = set.def.width_px as int;
    let h = set.def.height_px as int;
    let os = set.def.oversampling as int;
    assert((row + 1) * os * w * os <= (h * os) * (w * os)) by (nonlinear_arith)
        requires
            0 <= row < h,
            0 < w,
            1 <= os,
    ;
    lemma_range_bounds(set.data@);
    assert((h * os) * (w * os) == set.def.sample_count());
    lemma_sample_index_bound(w, os, x, row, 0, 0);
    assert forall|i: int, r: int| 0 <= i < os && 0 <= r < os implies 0 <= #[trigger] sample_index(
        w,
        os,
        x,
        row,
        i,
        r,
    ) < set.data.len() by {
        lemma_sample_index_bound(w, os, x, row, i, r);
    }
    assert forall|i: int, r: int| 0 <= i < os && 0 <= r < os implies {
        let iters = #[trigger] set.data@[sample_index(w, os, x, row, i, r)];
        iters != 0 ==> min_of(set.data@) <= iters && iters - min_of(set.data@) < colours.len()
    } by {
        lemma_sample_index_bound(w, os, x, row, i, r);
    }
}

/// Works out the colour of every pixel of the picture of a buffer, row by
/// row from the top row down and from left to right in each row.
///
/// The palette runs through `vertices` and has one colour for every
/// iteration count from the smallest in the buffer to the largest.
pub fn render_pixels(set: &SetData, vertices: &Vec<Colour>) -> (grid: Vec<Colour>)
    requires
        renderable(*set, vertices@),
    ensures
        grid.len() == set.def.width_px * set.def.height_px,
        forall|x: int, y: int|
            0 <= x < set.def.width_px && 0 <= y < set.def.height_px ==> #[trigger] grid[y
                * set.def.width_px + x] == spec_render_pixel(*set, vertices@, x, y),
{
    let (min_iter, max_iter) = escape_iter_range(&set.data);
    let num_colours: u32 = max_iter - min_iter + 1;
    let colours = palette(num_colours, vertices);
    let width: u32 = set.def.width_px;
    let height: u32 = set.def.height_px;
    let mut grid: Vec<Colour> = Vec::new();
    let mut y: u32 = 0;
    while y < height
        invariant
            renderable(*set, vertices@),
            width == set.def.width_px,
            height == set.def.height_px,
            min_iter == min_of(set.data@),
            colours@ == spec_palette(palette_size(set.data@), vertices@),
            colours.len() == palette_size(set.data@),
            y <= height,
            grid.len() == y * width,
            forall|a: int, b: int|
                0 <= a < width && 0 <= b < y ==> #[trigger] grid[b * width + a]
                    == spec_render_pixel(*set, vertices@, a, b),
        decreases height - y,
    {
        let imag_idx: u32 = height - y - 1;
        let mut x: u32 = 0;
        while x < width
            invariant
                renderable(*set, vertices@),
                width == set.def.width_px,
                height == set.def.height_px,
                min_iter == min_of(set.data@),
                colours@ == spec_palette(palette_size(set.data@), vertices@),
                colours.len() == palette_size(set.data@),
                y < height,
                imag_idx == height - y - 1,
                x <= width,
                grid.len() == y * width + x,
                forall|a: int, b: int|
                    0 <= a < width && 0 <= b < y ==> #[trigger] grid[b * width + a]
                        == spec_render_pixel(*set, vertices@, a, b),
                forall|a: int|
                    0 <= a < x ==> #[trigger] grid[y * width + a] == spec_render_pixel(
                        *set,
                        vertices@,
                        a,
                        y as int,
                    ),
            decreases width - x,
        {
            proof {
                lemma_pixel_in_reach(*set, colours@, x as int, imag_idx as int);
            }
            let clr = pixel_colour(
                &set.data,
                x,
                imag_idx,
                width,
                set.def.oversampling,
                min_iter,
                &colours,
            );
            let ghost before = grid@;
            grid.push(clr);
            proof {
                assert forall|a: int, b: int| 0 <= a < width && 0 <= b < y implies #[trigger] grid[b
                    * width + a] == spec_render_pixel(*set, vertices@, a, b) by {
                    lemma_place_order(b, a, y as int, 0, width as int);
                    assert(grid[b * width + a] == before[b * width + a]);
                }
            }
            x += 1;
        }
        proof {
            assert((y + 1) * width == y * width + width) by (nonlinear_arith);
        }
        y += 1;
    }
    proof {
        assert(height * width == width * height) by (nonlinear_arith);
    }
    grid
}

/// Renders a buffer of iteration counts into an image with the default
/// gradient.
///
/// The image is as large as the buffer's region, and every pixel has the
/// average colour of its samples. The buffer holds its rows from the bottom
/// up and the image from the top down, so the rows change places.
pub fn render(set: &SetData) -> (img: Image)
    requires
        renderable(*set, spec_default_vertices()),
        image_size_fits(set.def.width_px as int, set.def.height_px as int),
    ensures
        image_width(img) == set.def.width_px,
        image_height(img) == set.def.height_px,
        image_pixels(img).len() == set.def.width_px * set.def.height_px,
        forall|x: int, y: int|
            0 <= x < set.def.width_px && 0 <= y < set.def.height_px ==> #[trigger] image_pixels(
                img,
            )[y * set.def.width_px + x] == (bmp::Pixel {
                r: spec_render_pixel(*set, spec_default_vertices(), x, y).r,
                g: spec_render_pixel(*set, spec_default_vertices(), x, y).g,
                b: spec_render_pixel(*set, spec_default_vertices(), x, y).b,
            }),
{
    let palette_vertices = default_vertices();
    let grid = render_pixels(set, &palette_vertices);
    let width: u32 = set.def.width_px;
    let height: u32 = set.def.height_px;
    proof {
        assert(height * width == width * height) by (nonlinear_arith);
        assert(width * height <= u32::MAX) by (nonlinear_arith)
            requires
                4 * (width + 2) * height + 54 <= u32::MAX,
        ;
    }
    let mut img = Image::new(width, height);
    let ghost verts = spec_default_vertices();
    let mut y: u32 = 0;
    while y < height
        invariant
            width == set.def.width_px,
            height == set.def.height_px,
            width > 0,
            y <= height,
            grid.len() == height * width,
            width * height <= u32::MAX,
            image_width(img) == width,
            image_height(img) == height,
            image_pixels(img).len() == height * width,
            forall|a: int, b: int|
                0 <= a < width && 0 <= b < height ==> #[trigger] grid[b * width + a]
                    == spec_render_pixel(*set, verts, a, b),
            forall|a: int, b: int|
                0 <= a < width && 0 <= b < y ==> #[trigger] image_pixels(img)[b * width + a] == (
                bmp::Pixel {
                    r: spec_render_pixel(*set, verts, a, b).r,
                    g: spec_render_pixel(*set, verts, a, b).g,
                    b: spec_render_pixel(*set, verts, a, b).b,
                }),
        decreases height - y,
    {
        let mut x: u32 = 0;
        while x < width
            invariant
                width == set.def.width_px,
                height == set.def.height_px,
                width > 0,
                y < height,
                x <= width,
                grid.len() == height * width,
            width * height <= u32::MAX,
                image_width(img) == width,
                image_height(img) == height,
                image_pixels(img).len() == height * width,
                forall|a: int, b: int|
                    0 <= a < width && 0 <= b < height ==> #[trigger] grid[b * width + a]
                        == spec_render_pixel(*set, verts, a, b),
                forall|a: int, b: int|
                    0 <= a < width && 0 <= b < y ==> #[trigger] image_pixels(img)[b * width + a]
                        == (bmp::Pixel {
                        r: spec_render_pixel(*set, verts, a, b).r,
                        g: spec_render_pixel(*set, verts, a, b).g,
                        b: spec_render_pixel(*set, verts, a, b).b,
                    }),
                forall|a: int|
                    0 <= a < x ==> #[trigger] image_pixels(img)[y * width + a] == (bmp::Pixel {
                        r: spec_render_pixel(*set, verts, a, y as int).r,
                        g: spec_render_pixel(*set, verts, a, y as int).g,
                        b: spec_render_pixel(*set, verts, a, y as int).b,
                    }),
            decreases width - x,
        {
            proof {
                lemma_place_order(y as int, x as int, height as int, 0, width as int);
            }
            let at: usize = (y as usize) * (width as usize) + (x as usize);
            let clr = grid[at];
            let ghost before = image_pixels(img);
            img.set_pixel(x, y, clr.pixel());
            proof {
                assert forall|a: int, b: int| 0 <= a < width && 0 <= b < y implies #[trigger] image_pixels(
                    img,
                )[b * width + a] == before[b * width + a] by {
                    lemma_place_order(b, a, y as int, x as int, width as int);
                }
            }
            x += 1;
        }
        y += 1;
    }
    img
}

} // verus!
