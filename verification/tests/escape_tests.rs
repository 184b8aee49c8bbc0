use mandelbrot::escape::escape_iterations;

// One round of z -> z * z + point: nothing where |z| exceeds `escape_radius`.
fn count(point: (f64, f64), max_iterations: u32, escape_radius: f64) -> u32 {
    let escape_value = escape_radius * escape_radius;
    escape_iterations(point, max_iterations, move |z: (f64, f64)| {
        let zr2 = z.0 * z.0;
        let zi2 = z.1 * z.1;
        let zri = z.0 * z.1;
        if zr2 + zi2 > escape_value {
            None
        } else {
            Some((zr2 - zi2 + point.0, zri + zri + point.1))
        }
    })
}

#[test]
fn escape_iterations_of_a_point_in_the_set_is_zero() {
    assert_eq!(count((0.0, 0.0), 100, 2.0), 0);
    assert_eq!(count((-1.0, 0.0), 1000, 10.0), 0);
}

#[test]
fn escape_iterations_counts_from_zero() {
    // 1, 2, 5: the magnitude 2 does not exceed the radius 2, the magnitude 5 does
    assert_eq!(count((1.0, 0.0), 100, 2.0), 2);
    // 1, 2, 5, 26: round 3 is the first above 10
    assert_eq!(count((1.0, 0.0), 100, 10.0), 3);
    assert_eq!(count((0.0, 1.5), 100, 2.0), 1);
}

#[test]
fn escape_iterations_immediate_escape_reports_zero() {
    assert_eq!(count((3.0, 0.0), 1, 2.0), 0);
    assert_eq!(count((3.0, 0.0), 100, 2.0), 0);
    assert_eq!(count((0.0, -2.5), 1, 2.0), 0);
}

#[test]
fn escape_iterations_stops_at_the_limit() {
    // escapes in round 3, which the limits 3 and below do not reach
    assert_eq!(count((1.0, 0.0), 4, 10.0), 3);
    assert_eq!(count((1.0, 0.0), 3, 10.0), 0);
    assert_eq!(count((1.0, 0.0), 1, 10.0), 0);
    assert_eq!(count((1.0, 0.0), 0, 10.0), 0);
}

#[test]
fn escape_iterations_is_below_the_limit_and_repeatable() {
    for limit in [1u32, 2, 5, 50] {
        for step in 0..40 {
            let point = (-2.0 + step as f64 * 0.1, 0.3);
            let n = count(point, limit, 2.0);
            assert!(n < limit);
            assert_eq!(n, count(point, limit, 2.0));
        }
    }
}

#[test]
fn escape_iterations_counts_the_rounds_of_any_step() {
    // a countdown escapes when it reaches 0
    let countdown = |n: u32| if n == 0 { None } else { Some(n - 1) };
    assert_eq!(escape_iterations(5u32, 10, countdown), 5);
    assert_eq!(escape_iterations(5u32, 6, countdown), 5);
    assert_eq!(escape_iterations(5u32, 5, countdown), 0);
    assert_eq!(escape_iterations(0u32, 5, countdown), 0);
}
