use raytracer::framebuffer::Framebuffer;
use raytracer::present::{render_framebuffer_to_pixels, Rgb, HEIGHT, WIDTH};

fn rgb(r: u8, g: u8, b: u8) -> Rgb {
    Rgb { r, g, b }
}

#[test]
fn window_size() {
    assert_eq!(WIDTH, 800);
    assert_eq!(HEIGHT, 600);
}

#[test]
fn packs_each_pixel_as_rgba() {
    let mut fb = Framebuffer::new(800, 2, rgb(0, 0, 0));
    fb.set_pixel(0, 0, rgb(1, 2, 3));
    fb.set_pixel(799, 0, rgb(4, 5, 6));
    fb.set_pixel(0, 1, rgb(7, 8, 9));
    let mut frame = vec![0xAAu8; 800 * 2 * 4];
    render_framebuffer_to_pixels(&fb, &mut frame);
    assert_eq!(&frame[0..4], &[1, 2, 3, 255]);
    assert_eq!(&frame[4..8], &[0, 0, 0, 255]);
    assert_eq!(&frame[799 * 4..800 * 4], &[4, 5, 6, 255]);
    assert_eq!(&frame[800 * 4..800 * 4 + 4], &[7, 8, 9, 255]);
    assert!(frame.chunks(4).all(|c| c[3] == 255));
}

#[test]
fn trailing_partial_pixel_is_untouched() {
    let fb = Framebuffer::new(800, 1, rgb(10, 20, 30));
    let mut frame = vec![0xAAu8; 4 * 3 + 3];
    render_framebuffer_to_pixels(&fb, &mut frame);
    assert_eq!(&frame[0..12], &[10, 20, 30, 255, 10, 20, 30, 255, 10, 20, 30, 255]);
    assert_eq!(&frame[12..], &[0xAA, 0xAA, 0xAA]);
}

#[test]
fn empty_frame_stays_empty() {
    let fb = Framebuffer::new(800, 0, rgb(1, 1, 1));
    let mut frame: Vec<u8> = vec![];
    render_framebuffer_to_pixels(&fb, &mut frame);
    assert!(frame.is_empty());
}

#[test]
fn wider_framebuffer_is_read_in_rows_of_window_width() {
    let mut fb = Framebuffer::new(801, 2, rgb(0, 0, 0));
    fb.set_pixel(0, 1, rgb(9, 9, 9));
    fb.set_pixel(800, 0, rgb(5, 5, 5));
    let mut frame = vec![0u8; 801 * 4];
    render_framebuffer_to_pixels(&fb, &mut frame);
    // Byte group 800 is pixel (0, 1): rows are WIDTH wide, whatever the buffer's width.
    assert_eq!(&frame[800 * 4..801 * 4], &[9, 9, 9, 255]);
}
