use raytracer::framebuffer::Framebuffer;

#[test]
fn new_fills_every_pixel() {
    let fb = Framebuffer::new(3, 2, 7u8);
    assert_eq!(fb.width(), 3);
    assert_eq!(fb.height(), 2);
    for y in 0..2 {
        for x in 0..3 {
            assert_eq!(fb.get_pixel(x, y), 7);
        }
    }
}

#[test]
fn write_then_read_back() {
    let mut fb = Framebuffer::new(4, 3, 0u32);
    fb.set_pixel(2, 1, 42);
    assert_eq!(fb.get_pixel(2, 1), 42);
    for y in 0..3 {
        for x in 0..4 {
            if (x, y) != (2, 1) {
                assert_eq!(fb.get_pixel(x, y), 0);
            }
        }
    }
}

#[test]
fn rows_are_stored_row_by_row() {
    let mut fb = Framebuffer::new(2, 2, 0u8);
    fb.set_pixel(1, 0, 1);
    fb.set_pixel(0, 1, 2);
    assert_eq!(fb.get_pixel(1, 0), 1);
    assert_eq!(fb.get_pixel(0, 1), 2);
    assert_eq!(fb.get_pixel(0, 0), 0);
    assert_eq!(fb.get_pixel(1, 1), 0);
}

#[test]
fn write_outside_the_grid_is_ignored() {
    let mut fb = Framebuffer::new(2, 2, 5u8);
    fb.set_pixel(2, 0, 9);
    fb.set_pixel(0, 2, 9);
    fb.set_pixel(usize::MAX, usize::MAX, 9);
    for y in 0..2 {
        for x in 0..2 {
            assert_eq!(fb.get_pixel(x, y), 5);
        }
    }
}

#[test]
fn last_write_wins() {
    let mut fb = Framebuffer::new(1, 1, 0i32);
    fb.set_pixel(0, 0, 1);
    fb.set_pixel(0, 0, -3);
    assert_eq!(fb.get_pixel(0, 0), -3);
}

#[test]
fn empty_grid() {
    let mut fb = Framebuffer::new(0, 5, 1u8);
    fb.set_pixel(0, 0, 2);
    assert_eq!(fb.width(), 0);
    assert_eq!(fb.height(), 5);
}
