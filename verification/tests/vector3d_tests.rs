use mandelbrot::vector3d::Vector3d;

#[test]
fn div() {
    let v3d = Vector3d::new(3, 6, 9);
    assert_eq!(v3d.div(3), Vector3d::new(1, 2, 3));
}

#[test]
fn mul() {
    let v3d = Vector3d::new(3, 6, 9);
    assert_eq!(v3d.mul(3), Vector3d::new(9, 18, 27));
}

#[test]
fn sub() {
    let v3d1 = Vector3d::new(3, 6, 9);
    let v3d2 = Vector3d::new(1, 2, 3);
    assert_eq!(v3d1.sub(v3d2), Vector3d::new(2, 4, 6));
}

#[test]
fn add() {
    let v3d1 = Vector3d::new(3, 6, 9);
    let v3d2 = Vector3d::new(1, 2, 3);
    assert_eq!(v3d1.add(v3d2), Vector3d::new(4, 8, 12));
}

#[test]
fn div_rounds_toward_zero_for_every_sign() {
    assert_eq!(Vector3d::new(7, -7, 0).div(2), Vector3d::new(3, -3, 0));
    assert_eq!(Vector3d::new(7, -7, 1).div(-2), Vector3d::new(-3, 3, 0));
    assert_eq!(Vector3d::new(i64::MIN, i64::MAX, -1).div(i64::MIN), Vector3d::new(1, 0, 0));
    assert_eq!(
        Vector3d::new(i64::MIN, i64::MAX, 9).div(-2),
        Vector3d::new(1 << 62, -(i64::MAX / 2), -4)
    );
    assert_eq!(Vector3d::new(i64::MAX, -5, 5).div(-1), Vector3d::new(-i64::MAX, 5, -5));
}

#[test]
fn mul_by_negative_and_zero() {
    assert_eq!(Vector3d::new(3, -6, 9).mul(-2), Vector3d::new(-6, 12, -18));
    assert_eq!(Vector3d::new(3, -6, 9).mul(0), Vector3d::new(0, 0, 0));
}
