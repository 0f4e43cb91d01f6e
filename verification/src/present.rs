use vstd::prelude::*;

use crate::framebuffer::Framebuffer;

verus! {

/// Width, in pixels, of the window the frame is shown in.
pub const WIDTH: u32 = 800;

/// Height, in pixels, of the window the frame is shown in.
pub const HEIGHT: u32 = 600;

/// A colour quantised to one byte per channel.
#[derive(Clone, Copy, Debug, PartialEq, Eq)]
pub struct Rgb {
    pub r: u8,
    pub g: u8,
    pub b: u8,
}

/// Byte `k` of a frame of RGBA bytes once `framebuffer` has been packed into
/// it: every whole group of four bytes `i` receives the red, green and blue of
/// pixel `(i % WIDTH, i / WIDTH)` and an opaque alpha; a trailing partial group
/// is left as it was.
pub open spec fn packed_byte(framebuffer: Framebuffer<Rgb>, frame: Seq<u8>, k: int) -> u8 {
    let i = k / 4;
    if i < frame.len() / 4 {
        let c = framebuffer.pixel(i % (WIDTH as int), i / (WIDTH as int));
        if k % 4 == 0 {
            c.r
        } else if k % 4 == 1 {
            c.g
        } else if k % 4 == 2 {
            c.b
        } else {
            255
        }
    } else {
        frame[k]
    }
}

/// Pixel `(x, y)` of the framebuffer lands in byte group `y * WIDTH + x` of the
/// frame (when that group is whole): its red, green and blue in that order,
/// then an opaque alpha of 255.
pub proof fn lemma_packed_pixel(framebuffer: Framebuffer<Rgb>, frame: Seq<u8>, x: int, y: int)
    requires
        0 <= x < WIDTH,
        0 <= y,
        y * WIDTH + x < frame.len() / 4,
    ensures
        packed_byte(framebuffer, frame, 4 * (y * WIDTH + x)) == framebuffer.pixel(x, y).r,
        packed_byte(framebuffer, frame, 4 * (y * WIDTH + x) + 1) == framebuffer.pixel(x, y).g,
        packed_byte(framebuffer, frame, 4 * (y * WIDTH + x) + 2) == framebuffer.pixel(x, y).b,
        packed_byte(framebuffer, frame, 4 * (y * WIDTH + x) + 3) == 255,
{
    let g = y * 800 + x;
    assert(g / 800 == y && g % 800 == x) by (nonlinear_arith)
        requires
            g == y * 800 + x,
            0 <= x < 800,
            0 <= y,
    ;
    assert((4 * g) / 4 == g && (4 * g) % 4 == 0);
    assert((4 * g + 1) / 4 == g && (4 * g + 1) % 4 == 1);
    assert((4 * g + 2) / 4 == g && (4 * g + 2) % 4 == 2);
    assert((4 * g + 3) / 4 == g && (4 * g + 3) % 4 == 3);
}

/// What the whole byte groups receive depends on the framebuffer alone, not on
/// what the frame held before; only a trailing partial group keeps its bytes.
pub proof fn lemma_packing_ignores_old_frame(
    framebuffer: Framebuffer<Rgb>,
    frame1: Seq<u8>,
    frame2: Seq<u8>,
    k: int,
)
    requires
        frame1.len() == frame2.len(),
        0 <= k < 4 * (frame1.len() / 4),
    ensures
        packed_byte(framebuffer, frame1, k) == packed_byte(framebuffer, frame2, k),
{
    assert(k / 4 < frame1.len() / 4);
}

/// Copies the framebuffer into `frame`, four bytes (red, green, blue, alpha)
/// per pixel, pixels taken row by row in rows `WIDTH` wide.
pub fn render_framebuffer_to_pixels(framebuffer: &Framebuffer<Rgb>, frame: &mut [u8])
    requires
        framebuffer.wf(),
        WIDTH <= framebuffer.spec_width(),
        old(frame)@.len() / 4 <= WIDTH * framebuffer.spec_height(),
    ensures
        final(frame)@ == Seq::new(
            old(frame)@.len(),
            |k: int| packed_byte(*framebuffer, old(frame)@, k),
        ),
        final(frame)@.len() == old(frame)@.len(),
        forall|x: int, y: int|
            0 <= x < WIDTH && 0 <= y && y * WIDTH + x < old(frame)@.len() / 4 ==> {
                &&& final(frame)@[4 * (y * WIDTH + x)] == (#[trigger] framebuffer.pixel(x, y)).r
                &&& final(frame)@[4 * (y * WIDTH + x) + 1] == framebuffer.pixel(x, y).g
                &&& final(frame)@[4 * (y * WIDTH + x) + 2] == framebuffer.pixel(x, y).b
                &&& final(frame)@[4 * (y * WIDTH + x) + 3] == 255
            },
        forall|k: int|
            4 * (old(frame)@.len() / 4) <= k < old(frame)@.len() ==> #[trigger] final(frame)@[k] == old(frame)@[k],
{
    let ghost orig = frame@;
    let len: usize = frame.len();
    let n: usize = len / 4;
    let w: usize = WIDTH as usize;
    let mut i: usize = 0;
    while i < n
        invariant
            len == orig.len(),
            n == len / 4,
            w == WIDTH,
            n <= WIDTH * framebuffer.spec_height(),
            framebuffer.wf(),
            WIDTH <= framebuffer.spec_width(),
            i <= n,
            frame@.len() == len,
            forall|k: int| 0 <= k < 4 * i ==> frame@[k] == packed_byte(*framebuffer, orig, k),
            forall|k: int| 4 * i <= k < len ==> frame@[k] == orig[k],
        decreases n - i,
    {
        let x: usize = i % w;
        let y: usize = i / w;
        assert(y < framebuffer.spec_height()) by (nonlinear_arith)
            requires
                i < n,
                n <= w * framebuffer.spec_height(),
                y == i / w,
                w > 0,
        ;
        let c = framebuffer.get_pixel(x, y);
        let base: usize = 4 * i;
        frame[base] = c.r;
        frame[base + 1] = c.g;
        frame[base + 2] = c.b;
        frame[base + 3] = 255;
        assert forall|k: int| 4 * i <= k < 4 * i + 4 implies frame@[k] == packed_byte(
            *framebuffer,
            orig,
            k,
        ) by {
            assert(k / 4 == i as int);
            assert(k % 4 == k - 4 * i);
        }
        i = i + 1;
    }
    assert(frame@ =~= Seq::new(orig.len(), |k: int| packed_byte(*framebuffer, orig, k)));
    assert forall|x: int, y: int|
        0 <= x < WIDTH && 0 <= y && y * WIDTH + x < orig.len() / 4 implies {
            &&& frame@[4 * (y * WIDTH + x)] == (#[trigger] framebuffer.pixel(x, y)).r
            &&& frame@[4 * (y * WIDTH + x) + 1] == framebuffer.pixel(x, y).g
            &&& frame@[4 * (y * WIDTH + x) + 2] == framebuffer.pixel(x, y).b
            &&& frame@[4 * (y * WIDTH + x) + 3] == 255
        } by {
        lemma_packed_pixel(*framebuffer, orig, x, y);
    }
}

} // verus!
