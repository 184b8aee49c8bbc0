use mandelbrot::colour::{palette, Colour};
use mandelbrot::region::{SetData, SetDefinition};
use mandelbrot::render::{default_vertices, escape_iter_range, render, render_pixels};

#[test]
fn escape_iter_range_finds_smallest_and_largest() {
    assert_eq!(escape_iter_range(&vec![4, 9, 2, 7, 2, 9]), (2, 9));
    assert_eq!(escape_iter_range(&vec![5]), (5, 5));
    assert_eq!(escape_iter_range(&vec![0, u32::MAX, 3]), (0, u32::MAX));
    assert_eq!(escape_iter_range(&vec![8, 7, 6]), (6, 8));
    assert_eq!(escape_iter_range(&vec![6, 7, 8]), (6, 8));
}

#[test]
fn default_vertices_are_the_five_stops() {
    let expected = vec![
        Colour::from_24bit_int(0x010d62),
        Colour::from_24bit_int(0x63b8ec),
        Colour::from_24bit_int(0xffffff),
        Colour::from_24bit_int(0xffb700),
        Colour::from_24bit_int(0x611012),
    ];
    assert_eq!(default_vertices(), expected);
}

// 3 pixels by 2 pixels, one sample each; the bottom row comes first
fn small_set() -> SetData {
    SetData { def: SetDefinition::new(3, 2, 1, 20), data: vec![3, 4, 5, 0, 7, 6] }
}

#[test]
fn render_pixels_turns_the_rows_upside_down() {
    let set = small_set();
    let vertices = vec![Colour::new(0, 0, 0), Colour::new(70, 140, 210)];
    // counts 0 to 7: a palette of 8 colours, entry k for count k
    let colours = palette(8, &vertices);
    assert_eq!(colours[3], Colour::new(30, 60, 90));
    let grid = render_pixels(&set, &vertices);
    let expected = vec![
        Colour::new(0, 0, 0),
        colours[7],
        colours[6],
        colours[3],
        colours[4],
        colours[5],
    ];
    assert_eq!(grid, expected);
}

#[test]
fn render_pixels_averages_the_samples_of_a_pixel() {
    // 1 pixel by 2 pixels, 2 x 2 samples each
    let set = SetData {
        def: SetDefinition::new(1, 2, 2, 20),
        data: vec![
            1, 1, //
            1, 1, //
            2, 3, //
            0, 2,
        ],
    };
    let vertices = vec![Colour::new(0, 0, 0), Colour::new(30, 60, 91)];
    // counts 0 to 3: entry k of the palette stands for count k
    let grid = render_pixels(&set, &vertices);
    assert_eq!(grid, vec![Colour::new((20 + 30 + 20) / 4, (40 + 60 + 40) / 4, (60 + 91 + 60) / 4), Colour::new(10, 20, 30)]);
}

#[test]
fn render_fills_the_image_with_the_pixel_colours() {
    let set = small_set();
    let img = render(&set);
    assert_eq!(img.get_width(), 3);
    assert_eq!(img.get_height(), 2);
    let grid = render_pixels(&set, &default_vertices());
    let colours = palette(8, &default_vertices());
    assert_eq!(grid[1], colours[7]);
    assert_eq!(grid[1], Colour::from_24bit_int(0x611012));
    for y in 0..2u32 {
        for x in 0..3u32 {
            let p = img.get_pixel(x, y);
            let c = grid[(y * 3 + x) as usize];
            assert_eq!((p.r, p.g, p.b), (c.r, c.g, c.b));
        }
    }
    let top_left = img.get_pixel(0, 0);
    assert_eq!((top_left.r, top_left.g, top_left.b), (0, 0, 0));
    let bottom_left = img.get_pixel(0, 1);
    assert_eq!((bottom_left.r, bottom_left.g, bottom_left.b), (colours[3].r, colours[3].g, colours[3].b));
}
