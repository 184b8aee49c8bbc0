use mandelbrot::distribute::shares;
use mandelbrot::escape::escape_iterations;
use mandelbrot::parallel::{assemble, parallel_strips, STRIPS_PER_WORKER};
use mandelbrot::region::{calc_set, SetData, SetDefinition};

// The imaginary coordinate of the bottom of each strip, where the bottom of
// the first lies at `imag` and a pixel is `px_size` high.
fn strip_origins(strips: &Vec<SetDefinition>, imag: f64, px_size: f64) -> Vec<f64> {
    let mut origins = Vec::new();
    let mut at = imag;
    for strip in strips.iter() {
        origins.push(at);
        at += strip.height_px as f64 * px_size;
    }
    origins
}

#[test]
fn split_simple() {
    let def = SetDefinition {
        first_row: 0,
        width_px: 200,
        height_px: 100,
        oversampling: 2,
        max_iterations: 100,
    };
    let expected = vec![
        SetDefinition { first_row: 0, height_px: 25, ..def },
        SetDefinition { first_row: 25, height_px: 25, ..def },
        SetDefinition { first_row: 50, height_px: 25, ..def },
        SetDefinition { first_row: 75, height_px: 25, ..def },
    ];
    assert_eq!(def.split(4), expected);
    assert_eq!(strip_origins(&def.split(4), 2.0, 0.01), vec![2.0, 2.25, 2.5, 2.75]);
}

#[test]
fn split_with_remainder() {
    let def = SetDefinition {
        first_row: 0,
        width_px: 200,
        height_px: 100,
        oversampling: 2,
        max_iterations: 100,
    };
    let expected = vec![
        SetDefinition { first_row: 0, height_px: 34, ..def },
        SetDefinition { first_row: 34, height_px: 33, ..def },
        SetDefinition { first_row: 67, height_px: 33, ..def },
    ];
    assert_eq!(def.split(3), expected);
    assert_eq!(strip_origins(&def.split(3), 2.0, 0.01), vec![2.0, 2.34, 2.67]);
}

#[test]
fn split_heights_sum_to_the_height() {
    for height in [0u32, 1, 7, 100, 101, 1199] {
        for count in [1u32, 2, 3, 10, 80, 1200] {
            let def = SetDefinition::new(5, height, 1, 10);
            let strips = def.split(count);
            assert_eq!(strips.len(), count as usize);
            let sum: u32 = strips.iter().map(|s| s.height_px).sum();
            assert_eq!(sum, height);
            let mut next_row = 0;
            for (i, strip) in strips.iter().enumerate() {
                let extra = if (i as u32) < height % count { 1 } else { 0 };
                assert_eq!(strip.height_px, height / count + extra);
                assert_eq!(strip.first_row, next_row);
                assert_eq!(strip.width_px, 5);
                assert_eq!(strip.oversampling, 1);
                assert_eq!(strip.max_iterations, 10);
                next_row += strip.height_px;
            }
        }
    }
}

#[test]
fn split_of_a_strip_stays_inside_it() {
    let def = SetDefinition { first_row: 40, width_px: 3, height_px: 5, oversampling: 1, max_iterations: 9 };
    let strips = def.split(2);
    assert_eq!(
        strips,
        vec![
            SetDefinition { first_row: 40, height_px: 3, ..def },
            SetDefinition { first_row: 43, height_px: 2, ..def },
        ]
    );
}

#[test]
fn split_of_a_region_with_more_samples_than_a_buffer_holds() {
    let def = SetDefinition {
        first_row: 5,
        width_px: 100_000,
        height_px: u32::MAX - 5,
        oversampling: 3,
        max_iterations: 9,
    };
    let strips = def.split(4);
    let heights: Vec<u32> = strips.iter().map(|s| s.height_px).collect();
    assert_eq!(heights, vec![1_073_741_823, 1_073_741_823, 1_073_741_822, 1_073_741_822]);
    let rows: Vec<u32> = strips.iter().map(|s| s.first_row).collect();
    assert_eq!(rows, vec![5, 1_073_741_828, 2_147_483_651, 3_221_225_473]);
    assert_eq!(strips[3].first_row + strips[3].height_px, u32::MAX);
}

#[test]
fn split_into_more_strips_than_rows() {
    let def = SetDefinition::new(3, 2, 1, 9);
    let heights: Vec<u32> = def.split(4).iter().map(|s| s.height_px).collect();
    assert_eq!(heights, vec![1, 1, 0, 0]);
}

#[test]
fn shares_deal_the_remainder_to_the_first_parts() {
    assert_eq!(shares(10, 5), vec![2, 2, 2, 2, 2]);
    assert_eq!(shares(10, 4), vec![3, 3, 2, 2]);
    assert_eq!(shares(0, 3), vec![0, 0, 0]);
    assert_eq!(shares(2, 3), vec![1, 1, 0]);
    assert_eq!(shares(u32::MAX, 2), vec![0x8000_0000, 0x7fff_ffff]);
}

#[test]
fn new_region_is_a_picture_of_its_own() {
    assert_eq!(
        SetDefinition::new(1200, 1600, 2, 400),
        SetDefinition { first_row: 0, width_px: 1200, height_px: 1600, oversampling: 2, max_iterations: 400 }
    );
}

#[test]
fn calc_set_walks_rows_from_the_bottom_and_left_to_right() {
    let def = SetDefinition::new(3, 2, 2, 50);
    let set = calc_set(&def, |i: u32, r: u32| 100 * i + r);
    assert_eq!(set.def, def);
    assert_eq!(set.data.len(), 3 * 2 * 2 * 2);
    let expected: Vec<u32> = vec![
        0, 1, 2, 3, 4, 5, //
        100, 101, 102, 103, 104, 105, //
        200, 201, 202, 203, 204, 205, //
        300, 301, 302, 303, 304, 305,
    ];
    assert_eq!(set.data, expected);
}

#[test]
fn calc_set_of_an_empty_region() {
    let def = SetDefinition::new(3, 0, 2, 50);
    let set = calc_set(&def, |_i: u32, _r: u32| 1);
    assert!(set.data.is_empty());
}

#[test]
fn parallel_strips_are_ten_for_each_worker() {
    assert_eq!(STRIPS_PER_WORKER, 10);
    let def = SetDefinition::new(4, 45, 1, 9);
    assert_eq!(parallel_strips(&def, 2), def.split(20));
    assert_eq!(parallel_strips(&def, 1).len(), 10);
    assert_eq!(parallel_strips(&def, 8).len(), 80);
}

// The escape count of `point` under z -> z * z + point.
fn escape_count(point: (f64, f64), max_iterations: u32, escape_radius: f64) -> u32 {
    let escape_value = escape_radius * escape_radius;
    escape_iterations(point, max_iterations, move |z: (f64, f64)| {
        let zr2 = z.0 * z.0;
        let zi2 = z.1 * z.1;
        let zri = z.0 * z.1;
        if zr2 + zi2 > escape_value {
            None
        } else {
            Some((zr2 - zi2 + point.0, zri + zri + point.1))
        }
    })
}

// Samples `strip`, a part of a picture whose sample rows are counted from
// the bottom of the picture.
fn sample_strip(strip: &SetDefinition) -> SetData {
    let first = strip.first_row * strip.oversampling;
    let step = 3.0 / (strip.width_px * strip.oversampling) as f64;
    let max_iterations = strip.max_iterations;
    calc_set(strip, move |i: u32, r: u32| {
        escape_count((-2.0 + r as f64 * step, -1.0 + (first + i) as f64 * step), max_iterations, 10.0)
    })
}

#[test]
fn assembled_strips_equal_the_region_sampled_as_a_whole() {
    let def = SetDefinition::new(30, 23, 2, 60);
    let whole = sample_strip(&def);
    assert_eq!(whole.data.len(), 30 * 23 * 4);
    assert!(whole.data.iter().any(|&n| n == 0));
    assert!(whole.data.iter().any(|&n| n > 3));
    for threads in [1u32, 2, 4, 8] {
        let strips = parallel_strips(&def, threads);
        let mut results: Vec<(usize, SetData)> =
            strips.iter().enumerate().map(|(idx, strip)| (idx, sample_strip(strip))).collect();
        // results arrive in any order
        results.reverse();
        results.rotate_left(3);
        let put_together = assemble(&def, results).unwrap();
        assert_eq!(put_together.def, def);
        assert_eq!(put_together.data, whole.data);
    }
    let single = assemble(&def, vec![(0, sample_strip(&def.split(1)[0]))]).unwrap();
    assert_eq!(single.data, whole.data);
}

fn part(idx: usize, data: Vec<u32>) -> (usize, SetData) {
    (idx, SetData { def: SetDefinition::new(1, 1, 1, 1), data })
}

#[test]
fn assemble_orders_by_strip_number() {
    let def = SetDefinition::new(1, 6, 1, 9);
    let sets = vec![part(2, vec![5, 6]), part(0, vec![1, 2, 3]), part(3, vec![]), part(1, vec![4])];
    let whole = assemble(&def, sets).unwrap();
    assert_eq!(whole.def, def);
    assert_eq!(whole.data, vec![1, 2, 3, 4, 5, 6]);
}

#[test]
fn assemble_of_nothing_is_empty() {
    let def = SetDefinition::new(1, 0, 1, 9);
    let whole = assemble(&def, vec![]).unwrap();
    assert!(whole.data.is_empty());
}

#[test]
fn assemble_refuses_a_strip_that_came_twice() {
    let def = SetDefinition::new(1, 2, 1, 9);
    assert_eq!(assemble(&def, vec![part(0, vec![1]), part(0, vec![2])]), None);
    assert_eq!(assemble(&def, vec![part(1, vec![1]), part(1, vec![2])]), None);
}

#[test]
fn assemble_refuses_a_strip_number_out_of_range() {
    let def = SetDefinition::new(1, 2, 1, 9);
    assert_eq!(assemble(&def, vec![part(0, vec![1]), part(2, vec![2])]), None);
    assert_eq!(assemble(&def, vec![part(1, vec![1])]), None);
}
