use maasbree::canvas::Canvas;
use maasbree::depth::Depth;

fn depth(z: f64) -> Depth {
    Depth::from_bits(z.to_bits())
}

fn pixel(canvas: &Canvas, x: usize, y: usize) -> [u8; 4] {
    let i = 4 * (y * canvas.width() + x);
    let buf = canvas.buf();
    [buf[i], buf[i + 1], buf[i + 2], buf[i + 3]]
}

fn stored(canvas: &Canvas, x: usize, y: usize) -> f64 {
    f64::from_bits(canvas.z_buf()[y * canvas.width() + x].to_bits())
}

fn is_cleared(canvas: &Canvas) -> bool {
    canvas.buf().chunks(4).all(|p| p == [0, 0, 0, 255])
        && canvas.z_buf().iter().all(|d| f64::from_bits(d.to_bits()) == f64::NEG_INFINITY)
}

#[test]
fn new_canvas_is_cleared_and_sized() {
    let canvas = Canvas::new(4, 3).unwrap();
    assert_eq!(canvas.width(), 4);
    assert_eq!(canvas.height(), 3);
    assert_eq!(canvas.buf().len(), 48);
    assert_eq!(canvas.z_buf().len(), 12);
    assert!(is_cleared(&canvas));
}

#[test]
fn new_canvas_without_pixels() {
    let canvas = Canvas::new(0, 7).unwrap();
    assert_eq!(canvas.buf().len(), 0);
    assert_eq!(canvas.z_buf().len(), 0);
    let mut canvas = Canvas::new(5, 0).unwrap();
    canvas.put_pixel(0, 0, depth(1.0), [1, 2, 3]);
    canvas.clear();
    assert_eq!(canvas.buf().len(), 0);
}

#[test]
fn new_canvas_too_large_is_refused() {
    assert!(Canvas::new(usize::MAX, 2).is_none());
    assert!(Canvas::new(usize::MAX / 4 + 1, 1).is_none());
    assert!(Canvas::new(1 << (usize::BITS / 2), 1 << (usize::BITS / 2)).is_none());
}

#[test]
fn farther_write_is_rejected() {
    let mut canvas = Canvas::new(4, 4).unwrap();
    canvas.clear();
    canvas.put_pixel(1, 1, depth(0.5), [10, 20, 30]);
    canvas.put_pixel(1, 1, depth(0.1), [99, 99, 99]);
    assert_eq!(pixel(&canvas, 1, 1), [10, 20, 30, 255]);
    assert_eq!(stored(&canvas, 1, 1), 0.5);
}

#[test]
fn closer_write_replaces() {
    let mut canvas = Canvas::new(4, 4).unwrap();
    canvas.put_pixel(2, 3, depth(-3.0), [1, 2, 3]);
    canvas.put_pixel(2, 3, depth(-2.5), [4, 5, 6]);
    assert_eq!(pixel(&canvas, 2, 3), [4, 5, 6, 255]);
    assert_eq!(stored(&canvas, 2, 3), -2.5);
}

#[test]
fn equal_depth_does_not_replace() {
    let mut canvas = Canvas::new(2, 2).unwrap();
    canvas.put_pixel(0, 1, depth(0.25), [1, 1, 1]);
    canvas.put_pixel(0, 1, depth(0.25), [2, 2, 2]);
    assert_eq!(pixel(&canvas, 0, 1), [1, 1, 1, 255]);
    canvas.put_pixel(1, 1, depth(0.0), [3, 3, 3]);
    canvas.put_pixel(1, 1, depth(-0.0), [4, 4, 4]);
    assert_eq!(pixel(&canvas, 1, 1), [3, 3, 3, 255]);
}

#[test]
fn writes_outside_are_ignored() {
    let mut canvas = Canvas::new(4, 4).unwrap();
    canvas.clear();
    canvas.put_pixel(-1, 0, depth(1.0), [1, 2, 3]);
    canvas.put_pixel(4, 0, depth(1.0), [1, 2, 3]);
    assert!(is_cleared(&canvas));
    canvas.put_pixel(0, -1, depth(1.0), [1, 2, 3]);
    canvas.put_pixel(0, 4, depth(1.0), [1, 2, 3]);
    canvas.put_pixel(-1, 1, depth(1.0), [1, 2, 3]);
    canvas.put_pixel(i32::MAX, i32::MAX, depth(1.0), [1, 2, 3]);
    canvas.put_pixel(i32::MIN, i32::MIN, depth(1.0), [1, 2, 3]);
    assert!(is_cleared(&canvas));
}

#[test]
fn last_pixel_can_be_written() {
    let mut canvas = Canvas::new(4, 4).unwrap();
    canvas.put_pixel(3, 3, depth(0.0), [7, 8, 9]);
    assert_eq!(pixel(&canvas, 3, 3), [7, 8, 9, 255]);
    assert_eq!(&canvas.buf()[60..64], &[7, 8, 9, 255]);
}

#[test]
fn write_lands_at_row_major_place() {
    let mut canvas = Canvas::new(4, 3).unwrap();
    canvas.put_pixel(2, 1, depth(1.5), [10, 20, 30]);
    assert_eq!(&canvas.buf()[24..28], &[10, 20, 30, 255]);
    assert_eq!(f64::from_bits(canvas.z_buf()[6].to_bits()), 1.5);
    let changed = canvas.buf().chunks(4).filter(|p| *p != [0, 0, 0, 255]).count();
    assert_eq!(changed, 1);
}

#[test]
fn undefined_and_least_depths_never_land() {
    let mut canvas = Canvas::new(2, 2).unwrap();
    canvas.put_pixel(0, 0, depth(f64::NAN), [1, 2, 3]);
    canvas.put_pixel(1, 0, depth(f64::NEG_INFINITY), [1, 2, 3]);
    assert!(is_cleared(&canvas));
    canvas.put_pixel(1, 1, depth(f64::MIN), [1, 2, 3]);
    assert_eq!(pixel(&canvas, 1, 1), [1, 2, 3, 255]);
}

#[test]
fn clear_resets_everything() {
    let mut canvas = Canvas::new(3, 2).unwrap();
    canvas.put_pixel(0, 0, depth(1.0), [1, 2, 3]);
    canvas.put_pixel(2, 1, depth(2.0), [4, 5, 6]);
    canvas.clear();
    assert!(is_cleared(&canvas));
    assert_eq!(canvas.width(), 3);
    assert_eq!(canvas.height(), 2);
}

#[test]
fn clear_twice_is_clear_once() {
    let mut once = Canvas::new(3, 3).unwrap();
    once.put_pixel(1, 1, depth(1.0), [9, 9, 9]);
    once.clear();
    let mut twice = Canvas::new(3, 3).unwrap();
    twice.put_pixel(1, 1, depth(1.0), [9, 9, 9]);
    twice.clear();
    twice.clear();
    assert_eq!(once.buf(), twice.buf());
    let a: Vec<u64> = once.z_buf().iter().map(|d| d.to_bits()).collect();
    let b: Vec<u64> = twice.z_buf().iter().map(|d| d.to_bits()).collect();
    assert_eq!(a, b);
}

#[test]
fn depth_order_is_the_order_of_the_numbers() {
    let samples = [
        f64::NEG_INFINITY,
        f64::MIN,
        -1.0e300,
        -2.5,
        -1.0,
        -f64::MIN_POSITIVE,
        -5e-324,
        -0.0,
        0.0,
        5e-324,
        f64::MIN_POSITIVE,
        0.1,
        0.5,
        1.0,
        1.0000000000000002,
        255.0,
        1.0e300,
        f64::MAX,
        f64::INFINITY,
        f64::NAN,
        -f64::NAN,
    ];
    for a in samples {
        for b in samples {
            assert_eq!(depth(a).gt(depth(b)), a > b, "{a} > {b}");
        }
    }
}

#[test]
fn depth_keeps_its_bits() {
    assert_eq!(Depth::from_bits(0x3ff0_0000_0000_0000).to_bits(), 1.0f64.to_bits());
    assert_eq!(Depth::neg_infinity().to_bits(), f64::NEG_INFINITY.to_bits());
    assert_eq!(maasbree::depth::NEG_INFINITY_BITS, f64::NEG_INFINITY.to_bits());
    assert_eq!(maasbree::depth::INFINITY_BITS, f64::INFINITY.to_bits());
    assert_eq!(maasbree::depth::SIGN_BIT, (-0.0f64).to_bits());
}
