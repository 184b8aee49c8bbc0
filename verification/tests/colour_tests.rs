use mandelbrot::colour::{palette, pixel_colour, relative_vectors, Colour};
use mandelbrot::vector3d::Vector3d;

#[test]
fn relative_vectors_empty() {
    assert!(relative_vectors(&vec![]).is_empty());
}

#[test]
fn relative_vectors_one_element() {
    let v = vec![Vector3d::new(1, 2, 3)];
    assert!(relative_vectors(&v).is_empty());
}

#[test]
fn relative_vectors_not_empty() {
    let v = vec![
        Vector3d::new(1, 2, 3),
        Vector3d::new(1, 3, 4),
        Vector3d::new(3, 2, 4),
    ];
    let exp = vec![Vector3d::new(0, 1, 1), Vector3d::new(2, -1, 0)];
    assert_eq!(relative_vectors(&v), exp);
}

#[test]
fn palette_2_colours_on_axis() {
    let cols = palette(6, &vec![Colour::new(0, 0, 0), Colour::new(255, 0, 0)]);
    let expected = vec![
        Colour::new(0, 0, 0),
        Colour::new(51, 0, 0),
        Colour::new(102, 0, 0),
        Colour::new(153, 0, 0),
        Colour::new(204, 0, 0),
        Colour::new(255, 0, 0),
    ];
    assert_eq!(cols, expected);
}

#[test]
fn palette_2_colours_long_diagonal() {
    let cols = palette(6, &vec![Colour::new(0, 0, 0), Colour::new(255, 255, 255)]);
    let expected = vec![
        Colour::new(0, 0, 0),
        Colour::new(51, 51, 51),
        Colour::new(102, 102, 102),
        Colour::new(153, 153, 153),
        Colour::new(204, 204, 204),
        Colour::new(255, 255, 255),
    ];
    assert_eq!(cols, expected);
}

#[test]
fn palette_3_colours_along_axes() {
    let colours = &vec![
        Colour::new(0, 0, 0),
        Colour::new(255, 0, 0),
        Colour::new(255, 255, 0),
    ];
    let cols = palette(11, colours);
    let expected = vec![
        Colour::new(0, 0, 0),
        Colour::new(51, 0, 0),
        Colour::new(102, 0, 0),
        Colour::new(153, 0, 0),
        Colour::new(204, 0, 0),
        Colour::new(255, 0, 0),
        Colour::new(255, 51, 0),
        Colour::new(255, 102, 0),
        Colour::new(255, 153, 0),
        Colour::new(255, 204, 0),
        Colour::new(255, 255, 0),
    ];
    assert_eq!(cols, expected);
}

#[test]
fn palette_red_vertex_at_index_5() {
    let cols = palette(
        11,
        &vec![Colour::new(0, 0, 0), Colour::new(255, 0, 0), Colour::new(255, 255, 0)],
    );
    assert_eq!(cols.len(), 11);
    assert_eq!(cols[5], Colour::new(255, 0, 0));
}

#[test]
fn palette_of_vertices_only() {
    let vertices = vec![Colour::new(1, 2, 3), Colour::new(200, 100, 0), Colour::new(9, 9, 9)];
    assert_eq!(palette(3, &vertices), vertices);
}

#[test]
fn palette_rounds_toward_zero() {
    // three steps from 0 to 10: 10/3 and 20/3 lose their fractions
    let cols = palette(4, &vec![Colour::new(0, 10, 100), Colour::new(10, 0, 100)]);
    let expected = vec![
        Colour::new(0, 10, 100),
        Colour::new(3, 6, 100),
        Colour::new(6, 3, 100),
        Colour::new(10, 0, 100),
    ];
    assert_eq!(cols, expected);
}

#[test]
fn palette_leg_with_extra_step_is_cut_into_its_own_steps() {
    // 3 steps over 2 legs: the first leg has 2 steps, the second 1
    let vertices = vec![Colour::new(0, 0, 0), Colour::new(255, 0, 0), Colour::new(255, 255, 0)];
    let expected = vec![
        Colour::new(0, 0, 0),
        Colour::new(127, 0, 0),
        Colour::new(255, 0, 0),
        Colour::new(255, 255, 0),
    ];
    assert_eq!(palette(4, &vertices), expected);
}

#[test]
fn palette_is_exact_where_rounding_would_fall_short() {
    let cols = palette(15, &vec![Colour::new(0, 0, 0), Colour::new(122, 0, 0)]);
    // 7 * 122 / 14 is 61 exactly
    assert_eq!(cols[7], Colour::new(61, 0, 0));
    assert_eq!(cols[1], Colour::new(8, 0, 0));
    assert_eq!(cols[13], Colour::new(113, 0, 0));
}

#[test]
fn palette_vertices_stand_at_their_indices() {
    let vertices = vec![
        Colour::new(1, 13, 98),
        Colour::new(99, 184, 236),
        Colour::new(255, 255, 255),
        Colour::new(255, 183, 0),
        Colour::new(97, 16, 18),
    ];
    // 22 steps over 4 legs: 6, 6, 5, 5
    let cols = palette(23, &vertices);
    assert_eq!(cols.len(), 23);
    assert_eq!(cols[0], vertices[0]);
    assert_eq!(cols[6], vertices[1]);
    assert_eq!(cols[12], vertices[2]);
    assert_eq!(cols[17], vertices[3]);
    assert_eq!(cols[22], vertices[4]);
    // step 2 of the third leg, whose step is a fifth of the leg:
    // 255 - 2 * 72 / 5 is 226.2, 255 - 2 * 255 / 5 is 153
    assert_eq!(cols[14], Colour::new(255, 226, 153));
    // step 5 of the first leg, which has 6 steps: (1 * 1 + 5 * 99) / 6,
    // (1 * 13 + 5 * 184) / 6, (1 * 98 + 5 * 236) / 6
    assert_eq!(cols[5], Colour::new(82, 155, 213));
}

#[test]
fn colour_from_24bit_int_reads_three_bytes() {
    assert_eq!(Colour::from_24bit_int(0x010d62), Colour::new(1, 13, 98));
    assert_eq!(Colour::from_24bit_int(0xffb700), Colour::new(255, 183, 0));
    assert_eq!(Colour::from_24bit_int(0), Colour::new(0, 0, 0));
    assert_eq!(Colour::from_24bit_int(0xab123456), Colour::new(0x12, 0x34, 0x56));
}

#[test]
fn colour_to_vector_and_back() {
    let c = Colour::new(7, 0, 255);
    assert_eq!(c.to_vector3d(), Vector3d::new(7, 0, 255));
    assert_eq!(Vector3d::from_colour(&c), Vector3d::new(7, 0, 255));
    assert_eq!(Colour::from_vector3d(&c.to_vector3d()), c);
}

#[test]
fn colour_from_vector_keeps_to_the_channel_range() {
    let c = Colour::from_vector3d(&Vector3d::new(-4, 256, 255));
    assert_eq!(c, Colour::new(0, 255, 255));
    assert_eq!(Colour::from_vector3d(&Vector3d::new(0, 1000, i64::MIN)), Colour::new(0, 255, 0));
}

#[test]
fn colour_as_pixel() {
    let p = Colour::new(1, 2, 3).pixel();
    assert_eq!((p.r, p.g, p.b), (1, 2, 3));
}

#[test]
fn pixel_colour_uniform_samples_give_the_palette_colour() {
    let colours = vec![Colour::new(10, 20, 30), Colour::new(41, 52, 63), Colour::new(7, 7, 7)];
    // one pixel row of two pixels, 3 x 3 samples each, every count 6
    let set = vec![6u32; 18];
    assert_eq!(pixel_colour(&set, 0, 0, 2, 3, 5, &colours), Colour::new(41, 52, 63));
    assert_eq!(pixel_colour(&set, 1, 0, 2, 3, 5, &colours), Colour::new(41, 52, 63));
    assert_eq!(pixel_colour(&set, 1, 0, 2, 3, 4, &colours), Colour::new(7, 7, 7));
}

#[test]
fn pixel_colour_averages_and_rounds_toward_zero() {
    let colours = vec![Colour::new(10, 0, 255), Colour::new(20, 1, 255), Colour::new(40, 2, 254)];
    // 2 pixels by 2 pixels, 2 x 2 samples each; rows of 4 samples, bottom row first
    let set = vec![
        3, 4, 5, 5, //
        0, 5, 5, 5, //
        3, 3, 4, 0, //
        3, 3, 0, 0,
    ];
    // pixel (0, 0): counts 3, 4, 0, 5 -> (10 + 20 + 0 + 40) / 4, (0 + 1 + 0 + 2) / 4, (255 + 255 + 0 + 254) / 4
    assert_eq!(pixel_colour(&set, 0, 0, 2, 2, 3, &colours), Colour::new(17, 0, 191));
    // pixel (1, 0): counts 5, 5, 5, 5
    assert_eq!(pixel_colour(&set, 1, 0, 2, 2, 3, &colours), Colour::new(40, 2, 254));
    // pixel (0, 1): counts 3, 3, 3, 3
    assert_eq!(pixel_colour(&set, 0, 1, 2, 2, 3, &colours), Colour::new(10, 0, 255));
    // pixel (1, 1): counts 4, 0, 0, 0 -> 20 / 4, 1 / 4, 255 / 4
    assert_eq!(pixel_colour(&set, 1, 1, 2, 2, 3, &colours), Colour::new(5, 0, 63));
}

#[test]
fn pixel_colour_of_samples_that_never_escaped_is_black() {
    let colours = vec![Colour::new(10, 20, 30)];
    let set = vec![0u32; 4];
    assert_eq!(pixel_colour(&set, 0, 0, 1, 2, 9, &colours), Colour::new(0, 0, 0));
}

#[test]
fn pixel_colour_reads_the_samples_at_their_places_in_the_buffer() {
    let colours = vec![Colour::new(4, 8, 12), Colour::new(40, 80, 120)];
    // 3 pixels by 1 pixel, 2 x 2 samples each: rows of 6 samples
    let set = vec![
        1, 1, 2, 2, 1, 2, //
        1, 1, 2, 2, 2, 1,
    ];
    assert_eq!(pixel_colour(&set, 0, 0, 3, 2, 1, &colours), Colour::new(4, 8, 12));
    assert_eq!(pixel_colour(&set, 1, 0, 3, 2, 1, &colours), Colour::new(40, 80, 120));
    assert_eq!(pixel_colour(&set, 2, 0, 3, 2, 1, &colours), Colour::new(22, 44, 66));
}
