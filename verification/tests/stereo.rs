use stegsolve_rs::analysis::pixels::RgbaImage;
use stegsolve_rs::presentation::stereo::render_stereo;

#[test]
fn test_stereo_offset_zero() {
    let mut img_buf = RgbaImage::new(2, 2);
    img_buf.put_pixel(0, 0, [255, 0, 0, 255]);
    let stereo = render_stereo(&img_buf, 0);
    assert_eq!(stereo.get_pixel(0, 0), [255, 0, 0, 255]);
}

#[test]
fn test_stereo_offset_positive() {
    let mut img_buf = RgbaImage::new(2, 1);
    img_buf.put_pixel(0, 0, [255, 0, 0, 255]);
    img_buf.put_pixel(1, 0, [0, 255, 0, 255]);
    // Offset 1: blends (0,0) with (1,0)
    let stereo = render_stereo(&img_buf, 1);
    let p = stereo.get_pixel(0, 0);
    assert_eq!(p[0], 127);
    assert_eq!(p[1], 127);
}

#[test]
fn stereo_past_the_edges_blends_with_black() {
    let mut img = RgbaImage::new(2, 1);
    img.put_pixel(0, 0, [100, 50, 20, 7]);
    img.put_pixel(1, 0, [200, 40, 10, 9]);
    let right = render_stereo(&img, 1);
    assert_eq!(right.get_pixel(1, 0), [100, 20, 5, 255]);
    let left = render_stereo(&img, -1);
    assert_eq!(left.get_pixel(0, 0), [50, 25, 10, 255]);
    assert_eq!(left.get_pixel(1, 0), [150, 45, 15, 255]);
    assert_eq!(render_stereo(&img, i32::MIN).get_pixel(1, 0), [100, 20, 5, 255]);
    assert_eq!(right.dimensions(), (2, 1));
}
