//! Colours with three 8-bit channels, gradients through a list of colours,
//! and the colour of a pixel averaged over its samples.

use vstd::prelude::*;
use vstd::arithmetic::div_mod::lemma_div_multiples_vanish;
use crate::vector3d::{Vector3d, trunc_div, fits_i64};
use crate::distribute::{share, share_start, shares, lemma_share_start_step, lemma_share_start_total, lemma_share_start_monotonic, lemma_share_positive, lemma_share_bounds};

verus! {

/// A 24-bit RGB colour.
#[derive(Debug, Clone, Copy, PartialEq, Eq, Structural)]
pub struct Colour {
    pub r: u8,
    pub g: u8,
    pub b: u8,
}

/// The channel value nearest to `v`: `v` itself where a channel can hold it,
/// else the end of the channel's range on the side of `v`.
pub open spec fn clamp_channel(v: int) -> u8 {
    if v < 0 {
        0u8
    } else if v > 255 {
        255u8
    } else {
        v as u8
    }
}

/// The colour drawn for samples that never escaped.
pub open spec fn black() -> Colour {
    Colour { r: 0, g: 0, b: 0 }
}

fn channel_of(v: i64) -> (c: u8)
    ensures
        c == clamp_channel(v as int),
{
    if v < 0 {
        0
    } else if v > 255 {
        255
    } else {
        v as u8
    }
}

impl Colour {
    /// The vector whose components are the channels of this colour.
    pub open spec fn vector(self) -> Vector3d {
        Vector3d { x: self.r as i64, y: self.g as i64, z: self.b as i64 }
    }

    /// The colour whose channels are the components of `v`, each brought
    /// into the range of a channel.
    pub open spec fn of_vector(v: Vector3d) -> Colour {
        Colour {
            r: clamp_channel(v.x as int),
            g: clamp_channel(v.y as int),
            b: clamp_channel(v.z as int),
        }
    }

    pub fn new(r: u8, g: u8, b: u8) -> (c: Colour)
        ensures
            c == (Colour { r, g, b }),
    {
        Colour { r, g, b }
    }

    /// Converts a vector to a colour; components outside the range of a
    /// channel become the nearest channel value.
    pub fn from_vector3d(vec3d: &Vector3d) -> (c: Colour)
        ensures
            c == Colour::of_vector(*vec3d),
    {
        Colour::new(channel_of(vec3d.x), channel_of(vec3d.y), channel_of(vec3d.z))
    }

    /// Reads a colour from the low 24 bits of `colour`: red in bits 16 to
    /// 23, green in bits 8 to 15, blue in bits 0 to 7. Higher bits are
    /// ignored.
    pub fn from_24bit_int(colour: u32) -> (c: Colour)
        ensures
            c.r == (colour / 0x10000) % 0x100,
            c.g == (colour / 0x100) % 0x100,
            c.b == colour % 0x100,
    {
        let red: u32 = (colour & 0xff0000) >> 16;
        let green: u32 = (colour & 0x00ff00) >> 8;
        let blue: u32 = colour & 0x0000ff;
        assert(((colour & 0xff0000) >> 16) == (colour / 0x10000) % 0x100) by (bit_vector);
        assert(((colour & 0x00ff00) >> 8) == (colour / 0x100) % 0x100) by (bit_vector);
        assert((colour & 0x0000ff) == colour % 0x100) by (bit_vector);
        Colour::new(red as u8, green as u8, blue as u8)
    }

    pub fn to_vector3d(&self) -> (v: Vector3d)
        ensures
            v == self.vector(),
    {
        Vector3d::new(self.r as i64, self.g as i64, self.b as i64)
    }
}

/// A colour survives the way to a vector and back unchanged.
pub proof fn lemma_vector_round_trip(c: Colour)
    ensures
        Colour::of_vector(c.vector()) == c,
{
}

/// Whether every step from one vertex to the next can be held in a vector.
pub open spec fn steps_fit(vertices: Seq<Vector3d>) -> bool {
    forall|i: int|
        0 <= i < vertices.len() - 1 ==> {
            &&& fits_i64(#[trigger] vertices[i + 1].x - vertices[i].x)
            &&& fits_i64(vertices[i + 1].y - vertices[i].y)
            &&& fits_i64(vertices[i + 1].z - vertices[i].z)
        }
}

/// The vector that leads from vertex `i` to vertex `i + 1`.
pub open spec fn step_between(vertices: Seq<Vector3d>, i: int) -> Vector3d {
    Vector3d {
        x: (vertices[i + 1].x - vertices[i].x) as i64,
        y: (vertices[i + 1].y - vertices[i].y) as i64,
        z: (vertices[i + 1].z - vertices[i].z) as i64,
    }
}

/// Converts a list of absolute vectors to the list of relative vectors from
/// each vertex to the next.
///
/// The result has one element less than the input, and is empty where the
/// input has fewer than two elements.
pub fn relative_vectors(vertices: &Vec<Vector3d>) -> (steps: Vec<Vector3d>)
    requires
        steps_fit(vertices@),
    ensures
        vertices.len() < 2 ==> steps.len() == 0,
        vertices.len() >= 2 ==> steps.len() == vertices.len() - 1,
        forall|i: int| 0 <= i < steps.len() ==> steps[i] == step_between(vertices@, i),
{
    let mut steps: Vec<Vector3d> = Vec::new();
    if vertices.len() < 2 {
        return steps;
    }
    let mut i: usize = 0;
    while i < vertices.len() - 1
        invariant
            vertices.len() >= 2,
            i <= vertices.len() - 1,
            steps.len() == i,
            steps_fit(vertices@),
            forall|j: int| 0 <= j < i ==> steps[j] == step_between(vertices@, j),
        decreases vertices.len() - i,
    {
        assert(fits_i64(vertices@[i + 1].x - vertices@[i as int].x));
        steps.push(vertices[i + 1].sub(vertices[i]));
        i += 1;
    }
    steps
}

/// One channel of the point `step` steps along a leg of `gaps` equal steps
/// that leads from `start` to `end`, rounded toward zero.
pub open spec fn blend_channel(start: u8, end: u8, step: int, gaps: int) -> u8 {
    clamp_channel(trunc_div(start * gaps + (end - start) * step, gaps))
}

/// The colour `step` steps along a leg of `gaps` equal steps from `start`
/// to `end`: each channel is interpolated linearly and rounded toward zero.
pub open spec fn blend(start: Colour, end: Colour, step: int, gaps: int) -> Colour {
    Colour {
        r: blend_channel(start.r, end.r, step, gaps),
        g: blend_channel(start.g, end.g, step, gaps),
        b: blend_channel(start.b, end.b, step, gaps),
    }
}

/// The colours that a leg of `len` steps adds after its start vertex: the
/// interpolated colours at steps 1 to `len - 1` of the `len` equal steps
/// from `start` to `end`, then the end vertex itself.
pub open spec fn leg_colours(start: Colour, end: Colour, len: nat) -> Seq<Colour> {
    Seq::new(
        len,
        |j: int|
            if j == len - 1 {
                end
            } else {
                blend(start, end, j + 1, len as int)
            },
    )
}

/// The palette of `size` colours through `vertices` as far as the end of
/// leg `n`: the first vertex, then the colours of each leg in turn.
///
/// The `size - 1` steps between neighbouring entries are dealt over the legs
/// as evenly as possible, and each leg is cut into as many equal steps as it
/// was dealt.
pub open spec fn palette_legs(size: int, vertices: Seq<Colour>, n: nat) -> Seq<Colour>
    decreases n,
{
    if n == 0 {
        seq![vertices[0]]
    } else {
        let legs = vertices.len() - 1;
        palette_legs(size, vertices, (n - 1) as nat) + leg_colours(
            vertices[n - 1],
            vertices[n as int],
            share(size - 1, legs, n - 1) as nat,
        )
    }
}

/// The palette of `size` colours through `vertices`.
pub open spec fn spec_palette(size: int, vertices: Seq<Colour>) -> Seq<Colour> {
    palette_legs(size, vertices, (vertices.len() - 1) as nat)
}

/// The index at which vertex `i` stands in a palette of `size` colours
/// through `count` vertices.
pub open spec fn vertex_index(size: int, count: int, i: int) -> int {
    share_start(size - 1, count - 1, i)
}

/// The palette as far as leg `n` ends with vertex `n`, and every earlier
/// vertex stands unchanged at its index.
pub proof fn lemma_palette_legs(size: int, vertices: Seq<Colour>, n: nat)
    requires
        vertices.len() >= 2,
        size >= vertices.len(),
        n <= vertices.len() - 1,
    ensures
        palette_legs(size, vertices, n).len() == 1 + vertex_index(size, vertices.len() as int, n as int),
        forall|i: int|
            0 <= i <= n ==> palette_legs(size, vertices, n)[#[trigger] vertex_index(
                size,
                vertices.len() as int,
                i,
            )] == vertices[i],
    decreases n,
{
    let legs = vertices.len() - 1;
    lemma_share_start_step(size - 1, legs, 0);
    if n > 0 {
        let before = palette_legs(size, vertices, (n - 1) as nat);
        let len = share(size - 1, legs, n - 1);
        let leg = leg_colours(vertices[n - 1], vertices[n as int], len as nat);
        lemma_palette_legs(size, vertices, (n - 1) as nat);
        lemma_share_start_step(size - 1, legs, n - 1);
        lemma_share_positive(size - 1, legs, n - 1);
        assert forall|i: int| 0 <= i <= n implies palette_legs(size, vertices, n)[#[trigger] vertex_index(
            size,
            vertices.len() as int,
            i,
        )] == vertices[i] by {
            let at = vertex_index(size, vertices.len() as int, i);
            lemma_share_bounds(size - 1, legs, i);
            if i < n {
                lemma_share_start_monotonic(size - 1, legs, i, n - 1);
                assert((before + leg)[at] == before[at]);
            } else {
                assert((before + leg)[at] == leg[len - 1]);
            }
        }
    }
}

/// A palette has `size` colours, begins with the first vertex, ends with
/// the last, and shows every vertex unchanged at its index.
pub proof fn lemma_palette_vertices(size: int, vertices: Seq<Colour>)
    requires
        vertices.len() >= 2,
        size >= vertices.len(),
    ensures
        spec_palette(size, vertices).len() == size,
        spec_palette(size, vertices)[0] == vertices[0],
        spec_palette(size, vertices)[size - 1] == vertices[vertices.len() - 1],
        forall|i: int|
            0 <= i < vertices.len() ==> 0 <= #[trigger] vertex_index(size, vertices.len() as int, i)
                < size && spec_palette(size, vertices)[vertex_index(
                size,
                vertices.len() as int,
                i,
            )] == vertices[i],
        forall|i: int|
            0 <= i < vertices.len() - 1 ==> #[trigger] vertex_index(
                size,
                vertices.len() as int,
                i + 1,
            ) == vertex_index(size, vertices.len() as int, i) + share(
                size - 1,
                vertices.len() - 1,
                i,
            ),
{
    let legs = vertices.len() - 1;
    let count = vertices.len() as int;
    lemma_palette_legs(size, vertices, legs as nat);
    lemma_share_start_total(size - 1, legs);
    lemma_share_start_step(size - 1, legs, 0);
    assert(vertex_index(size, count, 0) == 0);
    assert(vertex_index(size, count, legs) == size - 1);
    assert forall|i: int| 0 <= i < vertices.len() implies 0 <= #[trigger] vertex_index(
        size,
        count,
        i,
    ) < size by {
        lemma_share_bounds(size - 1, legs, i);
    }
    assert forall|i: int| 0 <= i < vertices.len() - 1 implies #[trigger] vertex_index(
        size,
        count,
        i + 1,
    ) == vertex_index(size, count, i) + share(size - 1, legs, i) by {
        lemma_share_start_step(size - 1, legs, i);
    }
}

/// The colour `step` steps along the leg from `start` by `leg`, where the
/// leg is cut into `gaps` equal steps.
fn leg_point(
    start: Vector3d,
    leg: Vector3d,
    step: u32,
    gaps: u32,
    Ghost(from): Ghost<Colour>,
    Ghost(to): Ghost<Colour>,
) -> (c: Colour)
    requires
        0 < gaps,
        step <= gaps,
        start == from.vector(),
        leg.x == to.r - from.r,
        leg.y == to.g - from.g,
        leg.z == to.b - from.b,
    ensures
        c == blend(from, to, step as int, gaps as int),
{
    let gaps_wide: i64 = gaps as i64;
    let step_wide: i64 = step as i64;
    proof {
        lemma_scaled_fits(start.x as int, gaps_wide as int);
        lemma_scaled_fits(start.y as int, gaps_wide as int);
        lemma_scaled_fits(start.z as int, gaps_wide as int);
        lemma_scaled_fits(leg.x as int, step_wide as int);
        lemma_scaled_fits(leg.y as int, step_wide as int);
        lemma_scaled_fits(leg.z as int, step_wide as int);
    }
    let point = start.mul(gaps_wide).add(leg.mul(step_wide)).div(gaps_wide);
    Colour::from_vector3d(&point)
}

/// A channel or a difference of channels, multiplied by a 32-bit count,
/// stays far inside the range of a vector's component.
proof fn lemma_scaled_fits(v: int, n: int)
    requires
        -255 <= v <= 255,
        0 <= n <= u32::MAX,
    ensures
        -255 * 0x1_0000_0000 <= v * n <= 255 * 0x1_0000_0000,
{
    assert(-255 * 0x1_0000_0000 <= v * n <= 255 * 0x1_0000_0000) by (nonlinear_arith)
        requires
            -255 <= v <= 255,
            0 <= n <= 0xffff_ffff,
    ;
}

/// Creates a list of `size` colours along the path that `colours` describes
/// through the cube of RGB colours.
///
/// The path runs in straight legs from each vertex to the next. The first
/// and the last colour of the result are the first and the last vertex, and
/// every vertex appears unchanged, at the index that dealing the `size - 1`
/// steps evenly over the legs gives it. Between two vertices the colours lie
/// at equal steps along the leg.
///
/// The interpolation is exact: a channel is the whole part of the exact
/// quotient. Arithmetic in double-precision floating point comes out one
/// lower on rare inputs, where rounding leaves a whole number just out of
/// reach: of 15 colours from (0, 0, 0) to (122, 0, 0), entry 7 has the red
/// channel 61 here, the whole part of 7 times 122 over 14.
pub fn palette(size: u32, colours: &Vec<Colour>) -> (out: Vec<Colour>)
    requires
        colours.len() >= 2,
        size >= colours.len(),
    ensures
        out@ == spec_palette(size as int, colours@),
        out.len() == size,
        out[0] == colours[0],
        out[size - 1] == colours[colours.len() - 1],
        forall|i: int|
            0 <= i < colours.len() ==> out[#[trigger] vertex_index(
                size as int,
                colours.len() as int,
                i,
            )] == colours[i],
{
    let num_cols: u32 = size - 1;
    let mut vertices: Vec<Vector3d> = Vec::with_capacity(colours.len());
    let mut v: usize = 0;
    while v < colours.len()
        invariant
            v <= colours.len(),
            vertices.len() == v,
            forall|j: int| 0 <= j < v ==> vertices[j] == colours[j].vector(),
        decreases colours.len() - v,
    {
        vertices.push(Vector3d::from_colour(&colours[v]));
        v += 1;
    }
    let rel_vecs = relative_vectors(&vertices);
    let num_segs: u32 = (colours.len() - 1) as u32;
    let seg_sizes = shares(num_cols, num_segs);
    let mut palette: Vec<Colour> = Vec::with_capacity(size as usize);
    palette.push(colours[0]);
    proof {
        lemma_share_positive(num_cols as int, num_segs as int, 0);
        assert(palette@ =~= palette_legs(size as int, colours@, 0));
    }
    let mut i: usize = 0;
    while i < rel_vecs.len()
        invariant
            colours.len() >= 2,
            size >= colours.len(),
            num_cols == size - 1,
            num_segs == colours.len() - 1,
            vertices.len() == colours.len(),
            rel_vecs.len() == num_segs,
            seg_sizes.len() == num_segs,
            i <= num_segs,
            forall|j: int| 0 <= j < colours.len() ==> vertices[j] == colours[j].vector(),
            forall|j: int| 0 <= j < num_segs ==> rel_vecs[j] == step_between(vertices@, j),
            forall|j: int|
                0 <= j < num_segs ==> seg_sizes[j] == share(num_cols as int, num_segs as int, j),
            palette@ == palette_legs(size as int, colours@, i as nat),
        decreases num_segs - i,
    {
        let start = vertices[i];
        let vec = rel_vecs[i];
        let seg_size: u32 = seg_sizes[i];
        let ghost before = palette@;
        let ghost from = colours[i as int];
        let ghost to = colours[i + 1];
        proof {
            lemma_share_positive(num_cols as int, num_segs as int, i as int);
            assert(vec == step_between(vertices@, i as int));
        }
        let mut c: u32 = 1;
        while c < seg_size
            invariant
                1 <= c <= seg_size,
                start == from.vector(),
                vec.x == to.r - from.r,
                vec.y == to.g - from.g,
                vec.z == to.b - from.b,
                palette@ == before + Seq::new(
                    (c - 1) as nat,
                    |j: int| blend(from, to, j + 1, seg_size as int),
                ),
            decreases seg_size - c,
        {
            let col = leg_point(start, vec, c, seg_size, Ghost(from), Ghost(to));
            palette.push(col);
            c += 1;
            assert(palette@ =~= before + Seq::new(
                (c - 1) as nat,
                |j: int| blend(from, to, j + 1, seg_size as int),
            ));
        }
        palette.push(colours[i + 1]);
        i += 1;
        assert(palette@ =~= palette_legs(size as int, colours@, i as nat));
    }
    proof {
        lemma_palette_vertices(size as int, colours@);
    }
    palette
}

/// The colour that stands for an iteration count: black for 0, the count
/// of a sample that never escaped, else the palette entry for the count.
pub open spec fn sample_colour(iters: u32, min_iter: u32, colours: Seq<Colour>) -> Colour {
    if iters == 0 {
        black()
    } else {
        colours[iters - min_iter]
    }
}

/// The index of a sample in a buffer that holds the samples row by row.
///
/// The pixel stands in column `real_idx` and row `imag_idx` of an image
/// `width_px` pixels wide, with `oversampling` samples per pixel in each
/// direction; the sample is number `r` in row `i` of the pixel's samples.
/// The first sample of the pixel comes after all the sample rows of the
/// pixel rows below and the samples of the pixels to the left; each further
/// row of samples lies one row of the buffer on.
pub open spec fn sample_index(
    width_px: int,
    oversampling: int,
    real_idx: int,
    imag_idx: int,
    i: int,
    r: int,
) -> int {
    width_px * imag_idx * oversampling * oversampling + real_idx * oversampling + i * width_px
        * oversampling + r
}

/// Whether all the samples of the pixel lie in a buffer of `len` entries.
pub open spec fn samples_in_buffer(
    len: int,
    real_idx: int,
    imag_idx: int,
    width_px: int,
    oversampling: int,
) -> bool {
    forall|i: int, r: int|
        0 <= i < oversampling && 0 <= r < oversampling ==> 0 <= #[trigger] sample_index(
            width_px,
            oversampling,
            real_idx,
            imag_idx,
            i,
            r,
        ) < len
}

/// The index of a sample is the number of its row of samples times the
/// length of a row, plus the number of its column.
pub proof fn lemma_sample_index_place(
    width_px: int,
    oversampling: int,
    real_idx: int,
    imag_idx: int,
    i: int,
    r: int,
)
    ensures
        sample_index(width_px, oversampling, real_idx, imag_idx, i, r) == (imag_idx * oversampling
            + i) * (width_px * oversampling) + (real_idx * oversampling + r),
{
    assert(width_px * imag_idx * oversampling * oversampling + i * width_px * oversampling == (
    imag_idx * oversampling + i) * (width_px * oversampling)) by (nonlinear_arith);
}

/// The channel sums of the colours of the `n` samples that start at `base`.
pub open spec fn run_total(
    set: Seq<u32>,
    base: int,
    n: nat,
    min_iter: u32,
    colours: Seq<Colour>,
) -> (int, int, int)
    decreases n,
{
    if n == 0 {
        (0, 0, 0)
    } else {
        let t = run_total(set, base, (n - 1) as nat, min_iter, colours);
        let c = sample_colour(set[base + n - 1], min_iter, colours);
        (t.0 + c.r, t.1 + c.g, t.2 + c.b)
    }
}

/// The channel sums of the colours of a pixel's samples in its first `rows`
/// sample rows.
pub open spec fn block_total(
    set: Seq<u32>,
    width_px: int,
    oversampling: int,
    real_idx: int,
    imag_idx: int,
    rows: nat,
    min_iter: u32,
    colours: Seq<Colour>,
) -> (int, int, int)
    decreases rows,
{
    if rows == 0 {
        (0, 0, 0)
    } else {
        let t = block_total(
            set,
            width_px,
            oversampling,
            real_idx,
            imag_idx,
            (rows - 1) as nat,
            min_iter,
            colours,
        );
        let row = run_total(
            set,
            sample_index(width_px, oversampling, real_idx, imag_idx, rows - 1, 0),
            oversampling as nat,
            min_iter,
            colours,
        );
        (t.0 + row.0, t.1 + row.1, t.2 + row.2)
    }
}

/// The colour of a pixel: the average of the colours of its samples, each
/// channel rounded toward zero.
pub open spec fn spec_pixel_colour(
    set: Seq<u32>,
    real_idx: int,
    imag_idx: int,
    width_px: int,
    oversampling: int,
    min_iter: u32,
    colours: Seq<Colour>,
) -> Colour {
    let t = block_total(
        set,
        width_px,
        oversampling,
        real_idx,
        imag_idx,
        oversampling as nat,
        min_iter,
        colours,
    );
    let n = oversampling * oversampling;
    Colour { r: clamp_channel(t.0 / n), g: clamp_channel(t.1 / n), b: clamp_channel(t.2 / n) }
}

/// Whether every sample of the pixel that escaped has an entry in the
/// palette.
pub open spec fn samples_in_palette(
    set: Seq<u32>,
    real_idx: int,
    imag_idx: int,
    width_px: int,
    oversampling: int,
    min_iter: u32,
    colours: Seq<Colour>,
) -> bool {
    forall|i: int, r: int|
        0 <= i < oversampling && 0 <= r < oversampling ==> {
            let iters = #[trigger] set[sample_index(
                width_px,
                oversampling,
                real_idx,
                imag_idx,
                i,
                r,
            )];
            iters != 0 ==> min_iter <= iters && iters - min_iter < colours.len()
        }
}

/// Every sample of a pixel lies inside a buffer that holds all the sample
/// rows up to the pixel's last one.
pub proof fn lemma_sample_index_bound(
    width_px: int,
    oversampling: int,
    real_idx: int,
    imag_idx: int,
    i: int,
    r: int,
)
    requires
        1 <= oversampling,
        0 <= real_idx < width_px,
        0 <= imag_idx,
        0 <= i < oversampling,
        0 <= r < oversampling,
    ensures
        0 <= sample_index(width_px, oversampling, real_idx, imag_idx, i, r) < (imag_idx + 1)
            * oversampling * width_px * oversampling,
        0 <= real_idx * oversampling + r < width_px * oversampling,
        0 <= (imag_idx * oversampling + i) * (width_px * oversampling),
        oversampling * oversampling <= (imag_idx + 1) * oversampling * width_px * oversampling,
{
    let stride = width_px * oversampling;
    let row = imag_idx * oversampling + i;
    let col = real_idx * oversampling + r;
    lemma_sample_index_place(width_px, oversampling, real_idx, imag_idx, i, r);
    assert(0 <= col < stride) by (nonlinear_arith)
        requires
            col == real_idx * oversampling + r,
            stride == width_px * oversampling,
            0 <= real_idx < width_px,
            0 <= r < oversampling,
    ;
    assert(0 <= row && row + 1 <= (imag_idx + 1) * oversampling) by (nonlinear_arith)
        requires
            row == imag_idx * oversampling + i,
            0 <= imag_idx,
            0 <= i < oversampling,
    ;
    assert(0 <= row * stride && row * stride + stride <= ((imag_idx + 1) * oversampling) * stride)
        by (nonlinear_arith)
        requires
            0 <= row,
            row + 1 <= (imag_idx + 1) * oversampling,
            0 <= stride,
    ;
    assert(((imag_idx + 1) * oversampling) * stride == (imag_idx + 1) * oversampling * width_px
        * oversampling) by (nonlinear_arith)
        requires
            stride == width_px * oversampling,
    ;
    assert(oversampling * oversampling <= ((imag_idx + 1) * oversampling) * stride)
        by (nonlinear_arith)
        requires
            stride == width_px * oversampling,
            1 <= oversampling,
            1 <= width_px,
            0 <= imag_idx,
    ;
}

/// The channel sums of `n` samples are not negative and at most 255 times
/// `n`, where every sample that escaped has an entry in the palette.
proof fn lemma_run_total_bounds(
    set: Seq<u32>,
    base: int,
    n: nat,
    min_iter: u32,
    colours: Seq<Colour>,
)
    ensures
        0 <= run_total(set, base, n, min_iter, colours).0 <= 255 * n,
        0 <= run_total(set, base, n, min_iter, colours).1 <= 255 * n,
        0 <= run_total(set, base, n, min_iter, colours).2 <= 255 * n,
    decreases n,
{
    if n > 0 {
        lemma_run_total_bounds(set, base, (n - 1) as nat, min_iter, colours);
    }
}

/// The channel sums of the first `rows` sample rows of a pixel are not
/// negative and at most 255 times the number of samples in those rows.
proof fn lemma_block_total_bounds(
    set: Seq<u32>,
    width_px: int,
    oversampling: int,
    real_idx: int,
    imag_idx: int,
    rows: nat,
    min_iter: u32,
    colours: Seq<Colour>,
)
    requires
        0 <= oversampling,
    ensures
        0 <= block_total(set, width_px, oversampling, real_idx, imag_idx, rows, min_iter, colours).0
            <= 255 * (rows * oversampling),
        0 <= block_total(set, width_px, oversampling, real_idx, imag_idx, rows, min_iter, colours).1
            <= 255 * (rows * oversampling),
        0 <= block_total(set, width_px, oversampling, real_idx, imag_idx, rows, min_iter, colours).2
            <= 255 * (rows * oversampling),
    decreases rows,
{
    if rows > 0 {
        lemma_block_total_bounds(
            set,
            width_px,
            oversampling,
            real_idx,
            imag_idx,
            (rows - 1) as nat,
            min_iter,
            colours,
        );
        lemma_run_total_bounds(
            set,
            sample_index(width_px, oversampling, real_idx, imag_idx, rows - 1, 0),
            oversampling as nat,
            min_iter,
            colours,
        );
        assert(rows * oversampling == (rows - 1) * oversampling + oversampling)
            by (nonlinear_arith);
    } else {
        assert(0 * oversampling == 0);
    }
}

/// The product of two 32-bit counts fits in 64 bits with room to add a
/// third, and is at least 1 where both are.
proof fn lemma_product_fits(a: int, b: int)
    requires
        0 <= a <= u32::MAX,
        0 <= b <= u32::MAX,
    ensures
        0 <= a * b <= 0xffff_fffe_0000_0001,
        1 <= a && 1 <= b ==> 1 <= a * b,
{
    assert(0 <= a * b <= 0xffff_fffe_0000_0001 && (1 <= a && 1 <= b ==> 1 <= a * b))
        by (nonlinear_arith)
        requires
            0 <= a <= 0xffff_ffff,
            0 <= b <= 0xffff_ffff,
    ;
}

/// Works out the colour of one pixel from the iteration counts of its
/// samples.
///
/// `set` holds the samples row by row; the pixel has `oversampling` samples
/// in each direction. Each sample is given its colour, black for a count of
/// 0 and `colours[count - min_iter]` otherwise, and the pixel gets the
/// average of these colours, each channel rounded toward zero.
pub fn pixel_colour(
    set: &Vec<u32>,
    real_idx: u32,
    imag_idx: u32,
    width_px: u32,
    oversampling: u32,
    min_iter: u32,
    colours: &Vec<Colour>,
) -> (colour: Colour)
    requires
        1 <= oversampling,
        oversampling * oversampling <= u32::MAX,
        samples_in_buffer(
            set.len() as int,
            real_idx as int,
            imag_idx as int,
            width_px as int,
            oversampling as int,
        ),
        samples_in_palette(
            set@,
            real_idx as int,
            imag_idx as int,
            width_px as int,
            oversampling as int,
            min_iter,
            colours@,
        ),
    ensures
        colour == spec_pixel_colour(
            set@,
            real_idx as int,
            imag_idx as int,
            width_px as int,
            oversampling as int,
            min_iter,
            colours@,
        ),
        (forall|i: int, r: int|
            0 <= i < oversampling && 0 <= r < oversampling ==> #[trigger] set[sample_index(
                width_px as int,
                oversampling as int,
                real_idx as int,
                imag_idx as int,
                i,
                r,
            )] == set[sample_index(
                width_px as int,
                oversampling as int,
                real_idx as int,
                imag_idx as int,
                0,
                0,
            )]) ==> colour == sample_colour(
            set[sample_index(
                width_px as int,
                oversampling as int,
                real_idx as int,
                imag_idx as int,
                0,
                0,
            )],
            min_iter,
            colours@,
        ),
{
    proof {
        lemma_product_fits(width_px as int, oversampling as int);
        lemma_product_fits(real_idx as int, oversampling as int);
        lemma_product_fits(imag_idx as int, oversampling as int);
        lemma_product_fits(oversampling as int, oversampling as int);
    }
    let stride: u64 = (width_px as u64) * (oversampling as u64);
    let col_base: u64 = (real_idx as u64) * (oversampling as u64);
    let row_base: u64 = (imag_idx as u64) * (oversampling as u64);
    let mut total_col = Vector3d::new(0, 0, 0);
    let mut i: u32 = 0;
    while i < oversampling
        invariant
            1 <= oversampling,
            oversampling * oversampling <= u32::MAX,
            samples_in_buffer(
                set.len() as int,
                real_idx as int,
                imag_idx as int,
                width_px as int,
                oversampling as int,
            ),
            samples_in_palette(
                set@,
                real_idx as int,
                imag_idx as int,
                width_px as int,
                oversampling as int,
                min_iter,
                colours@,
            ),
            stride == width_px * oversampling,
            col_base == real_idx * oversampling,
            row_base == imag_idx * oversampling,
            row_base <= 0xffff_fffe_0000_0001,
            1 <= oversampling * oversampling,
            i <= oversampling,
            (total_col.x as int, total_col.y as int, total_col.z as int) == block_total(
                set@,
                width_px as int,
                oversampling as int,
                real_idx as int,
                imag_idx as int,
                i as nat,
                min_iter,
                colours@,
            ),
        decreases oversampling - i,
    {
        let ghost done = block_total(
            set@,
            width_px as int,
            oversampling as int,
            real_idx as int,
            imag_idx as int,
            i as nat,
            min_iter,
            colours@,
        );
        let ghost run_base = sample_index(
            width_px as int,
            oversampling as int,
            real_idx as int,
            imag_idx as int,
            i as int,
            0,
        );
        proof {
            lemma_sample_index_place(
                width_px as int,
                oversampling as int,
                real_idx as int,
                imag_idx as int,
                i as int,
                0,
            );
            lemma_block_total_bounds(
                set@,
                width_px as int,
                oversampling as int,
                real_idx as int,
                imag_idx as int,
                i as nat,
                min_iter,
                colours@,
            );
            assert(i * oversampling + oversampling <= oversampling * oversampling)
                by (nonlinear_arith)
                requires
                    i < oversampling,
            ;
        }
        let row_start: u64 = (row_base + i as u64) * stride + col_base;
        let mut r: u32 = 0;
        while r < oversampling
            invariant
                1 <= oversampling,
                i < oversampling,
                samples_in_buffer(
                    set.len() as int,
                    real_idx as int,
                    imag_idx as int,
                    width_px as int,
                    oversampling as int,
                ),
                samples_in_palette(
                    set@,
                    real_idx as int,
                    imag_idx as int,
                    width_px as int,
                    oversampling as int,
                    min_iter,
                    colours@,
                ),
                r <= oversampling,
                row_start == run_base,
                run_base == sample_index(
                    width_px as int,
                    oversampling as int,
                    real_idx as int,
                    imag_idx as int,
                    i as int,
                    0,
                ),
                0 <= done.0 <= 255 * (i * oversampling),
                0 <= done.1 <= 255 * (i * oversampling),
                0 <= done.2 <= 255 * (i * oversampling),
                i * oversampling + oversampling <= oversampling * oversampling,
                oversampling * oversampling <= u32::MAX,
                total_col.x == done.0 + run_total(set@, run_base, r as nat, min_iter, colours@).0,
                total_col.y == done.1 + run_total(set@, run_base, r as nat, min_iter, colours@).1,
                total_col.z == done.2 + run_total(set@, run_base, r as nat, min_iter, colours@).2,
            decreases oversampling - r,
        {
            proof {
                lemma_sample_index_place(
                    width_px as int,
                    oversampling as int,
                    real_idx as int,
                    imag_idx as int,
                    i as int,
                    r as int,
                );
                lemma_run_total_bounds(set@, run_base, r as nat, min_iter, colours@);
                lemma_product_fits(real_idx as int, oversampling as int);
                assert(sample_index(
                    width_px as int,
                    oversampling as int,
                    real_idx as int,
                    imag_idx as int,
                    i as int,
                    r as int,
                ) == run_base + r);
            }
            let idx: u64 = row_start + r as u64;
            let iters: u32 = set[idx as usize];
            let col = if iters == 0 {
                Colour::new(0, 0, 0)
            } else {
                colours[(iters - min_iter) as usize]
            };
            assert(col == sample_colour(set@[run_base + r], min_iter, colours@));
            total_col = total_col.add(col.to_vector3d());
            r += 1;
        }
        i += 1;
    }
    proof {
        lemma_sample_index_place(
            width_px as int,
            oversampling as int,
            real_idx as int,
            imag_idx as int,
            0,
            0,
        );
        lemma_block_total_bounds(
            set@,
            width_px as int,
            oversampling as int,
            real_idx as int,
            imag_idx as int,
            oversampling as nat,
            min_iter,
            colours@,
        );
    }
    let samples: i64 = ((oversampling as u64) * (oversampling as u64)) as i64;
    let average_col = total_col.div(samples);
    proof {
        let first = set@[sample_index(
            width_px as int,
            oversampling as int,
            real_idx as int,
            imag_idx as int,
            0,
            0,
        )];
        if forall|i: int, r: int|
            0 <= i < oversampling && 0 <= r < oversampling ==> #[trigger] set@[sample_index(
                width_px as int,
                oversampling as int,
                real_idx as int,
                imag_idx as int,
                i,
                r,
            )] == first {
            lemma_uniform_pixel(
                set@,
                real_idx as int,
                imag_idx as int,
                width_px as int,
                oversampling as int,
                min_iter,
                colours@,
                first,
            );
        }
    }
    Colour::from_vector3d(&average_col)
}

proof fn lemma_uniform_run(
    set: Seq<u32>,
    base: int,
    n: nat,
    min_iter: u32,
    colours: Seq<Colour>,
    iters: u32,
)
    requires
        forall|k: int| 0 <= k < n ==> #[trigger] set[base + k] == iters,
    ensures
        run_total(set, base, n, min_iter, colours) == (
            n * sample_colour(iters, min_iter, colours).r,
            n * sample_colour(iters, min_iter, colours).g,
            n * sample_colour(iters, min_iter, colours).b,
        ),
    decreases n,
{
    let c = sample_colour(iters, min_iter, colours);
    if n > 0 {
        lemma_uniform_run(set, base, (n - 1) as nat, min_iter, colours, iters);
        assert(set[base + (n - 1)] == iters);
        assert(n * c.r == (n - 1) * c.r + c.r) by (nonlinear_arith);
        assert(n * c.g == (n - 1) * c.g + c.g) by (nonlinear_arith);
        assert(n * c.b == (n - 1) * c.b + c.b) by (nonlinear_arith);
    } else {
        assert(0 * c.r == 0 && 0 * c.g == 0 && 0 * c.b == 0);
    }
}

proof fn lemma_uniform_block(
    set: Seq<u32>,
    width_px: int,
    oversampling: int,
    real_idx: int,
    imag_idx: int,
    rows: nat,
    min_iter: u32,
    colours: Seq<Colour>,
    iters: u32,
)
    requires
        0 <= oversampling,
        forall|i: int, r: int|
            0 <= i < rows && 0 <= r < oversampling ==> #[trigger] set[sample_index(
                width_px,
                oversampling,
                real_idx,
                imag_idx,
                i,
                r,
            )] == iters,
    ensures
        block_total(set, width_px, oversampling, real_idx, imag_idx, rows, min_iter, colours) == (
            rows * oversampling * sample_colour(iters, min_iter, colours).r,
            rows * oversampling * sample_colour(iters, min_iter, colours).g,
            rows * oversampling * sample_colour(iters, min_iter, colours).b,
        ),
    decreases rows,
{
    let c = sample_colour(iters, min_iter, colours);
    let os = oversampling;
    if rows > 0 {
        lemma_uniform_block(
            set,
            width_px,
            oversampling,
            real_idx,
            imag_idx,
            (rows - 1) as nat,
            min_iter,
            colours,
            iters,
        );
        let base = sample_index(width_px, oversampling, real_idx, imag_idx, rows - 1, 0);
        assert forall|k: int| 0 <= k < os implies #[trigger] set[base + k] == iters by {
            assert(base + k == sample_index(
                width_px,
                oversampling,
                real_idx,
                imag_idx,
                rows - 1,
                k,
            ));
        }
        lemma_uniform_run(set, base, os as nat, min_iter, colours, iters);
        assert(rows * os * c.r == (rows - 1) * os * c.r + os * c.r) by (nonlinear_arith);
        assert(rows * os * c.g == (rows - 1) * os * c.g + os * c.g) by (nonlinear_arith);
        assert(rows * os * c.b == (rows - 1) * os * c.b + os * c.b) by (nonlinear_arith);
    } else {
        assert(0 * os * c.r == 0 && 0 * os * c.g == 0 && 0 * os * c.b == 0) by (nonlinear_arith);
    }
}

/// Where all the samples of a pixel have the same iteration count, the
/// pixel has exactly the colour of that count: the palette entry for it, or
/// black for 0. Averaging equal colours changes nothing.
pub proof fn lemma_uniform_pixel(
    set: Seq<u32>,
    real_idx: int,
    imag_idx: int,
    width_px: int,
    oversampling: int,
    min_iter: u32,
    colours: Seq<Colour>,
    iters: u32,
)
    requires
        1 <= oversampling,
        forall|i: int, r: int|
            0 <= i < oversampling && 0 <= r < oversampling ==> #[trigger] set[sample_index(
                width_px,
                oversampling,
                real_idx,
                imag_idx,
                i,
                r,
            )] == iters,
    ensures
        spec_pixel_colour(set, real_idx, imag_idx, width_px, oversampling, min_iter, colours)
            == sample_colour(iters, min_iter, colours),
        iters != 0 ==> spec_pixel_colour(
            set,
            real_idx,
            imag_idx,
            width_px,
            oversampling,
            min_iter,
            colours,
        ) == colours[iters - min_iter],
{
    let c = sample_colour(iters, min_iter, colours);
    let n = oversampling * oversampling;
    lemma_uniform_block(
        set,
        width_px,
        oversampling,
        real_idx,
        imag_idx,
        oversampling as nat,
        min_iter,
        colours,
        iters,
    );
    assert(0 < n) by (nonlinear_arith)
        requires
            n == oversampling * oversampling,
            1 <= oversampling,
    ;
    lemma_div_multiples_vanish(c.r as int, n);
    lemma_div_multiples_vanish(c.g as int, n);
    lemma_div_multiples_vanish(c.b as int, n);
    assert(n * c.r == oversampling * oversampling * c.r);
    assert(n * c.g == oversampling * oversampling * c.g);
    assert(n * c.b == oversampling * oversampling * c.b);
}

/// A colour between two vertices lies between them in every channel: at
/// step 0 of a leg stands the start, at the last step the end, and in
/// between no channel leaves the range that the two vertices span.
pub proof fn lemma_blend_between(start: Colour, end: Colour, step: int, gaps: int)
    requires
        0 < gaps,
        0 <= step <= gaps,
    ensures
        blend(start, end, 0, gaps) == start,
        blend(start, end, gaps, gaps) == end,
        channel_between(start.r, end.r, blend(start, end, step, gaps).r),
        channel_between(start.g, end.g, blend(start, end, step, gaps).g),
        channel_between(start.b, end.b, blend(start, end, step, gaps).b),
{
    lemma_blend_channel_between(start.r, end.r, step, gaps);
    lemma_blend_channel_between(start.g, end.g, step, gaps);
    lemma_blend_channel_between(start.b, end.b, step, gaps);
}

/// Whether `c` lies in the range that `a` and `b` span.
pub open spec fn channel_between(a: u8, b: u8, c: u8) -> bool {
    (a <= c <= b) || (b <= c <= a)
}

proof fn lemma_blend_channel_between(start: u8, end: u8, step: int, gaps: int)
    requires
        0 < gaps,
        0 <= step <= gaps,
    ensures
        blend_channel(start, end, 0, gaps) == start,
        blend_channel(start, end, gaps, gaps) == end,
        channel_between(start, end, blend_channel(start, end, step, gaps)),
{
    let s = start as int;
    let e = end as int;
    lemma_div_multiples_vanish(s, gaps);
    lemma_div_multiples_vanish(e, gaps);
    assert(s * gaps + (e - s) * 0 == gaps * s) by (nonlinear_arith);
    assert(s * gaps + (e - s) * gaps == gaps * e) by (nonlinear_arith);
    let num = s * gaps + (e - s) * step;
    let lo = if s <= e { s } else { e };
    let hi = if s <= e { e } else { s };
    assert(lo * gaps <= num <= hi * gaps) by (nonlinear_arith)
        requires
            num == s * gaps + (e - s) * step,
            0 <= step <= gaps,
            lo == if s <= e { s } else { e },
            hi == if s <= e { e } else { s },
    ;
    assert(0 <= num);
    assert(lo <= num / gaps <= hi) by (nonlinear_arith)
        requires
            lo * gaps <= num <= hi * gaps,
            0 < gaps,
    ;
}

} // verus!
