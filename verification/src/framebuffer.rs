use vstd::prelude::*;

verus! {

/// A `width` by `height` grid of pixels, stored row by row: the pixel at
/// column `x` and row `y` is element `y * width + x` of the buffer.
pub struct Framebuffer<T> {
    width: usize,
    height: usize,
    buffer: Vec<T>,
}

/// Position of the pixel `(x, y)` in the row-major buffer of a grid `width` wide.
pub open spec fn pixel_index(width: int, x: int, y: int) -> int {
    y * width + x
}

/// A row-major position inside a `width` by `height` grid stays below `width * height`.
pub proof fn lemma_pixel_index_bounds(width: int, height: int, x: int, y: int)
    requires
        0 <= x < width,
        0 <= y < height,
    ensures
        0 <= pixel_index(width, x, y) < width * height,
{
    assert(0 <= y * width + x < width * height) by (nonlinear_arith)
        requires
            0 <= x < width,
            0 <= y < height,
    ;
}

/// Distinct cells of a grid have distinct row-major positions.
pub proof fn lemma_pixel_index_injective(width: int, x1: int, y1: int, x2: int, y2: int)
    requires
        0 <= x1 < width,
        0 <= x2 < width,
        0 <= y1,
        0 <= y2,
        pixel_index(width, x1, y1) == pixel_index(width, x2, y2),
    ensures
        x1 == x2,
        y1 == y2,
{
    assert(y1 == y2) by (nonlinear_arith)
        requires
            0 <= x1 < width,
            0 <= x2 < width,
            0 <= y1,
            0 <= y2,
            y1 * width + x1 == y2 * width + x2,
    ;
}

impl<T> View for Framebuffer<T> {
    type V = Seq<T>;

    /// The pixels, row by row.
    closed spec fn view(&self) -> Seq<T> {
        self.buffer@
    }
}

impl<T> Framebuffer<T> {
    pub closed spec fn spec_width(&self) -> usize {
        self.width
    }

    pub closed spec fn spec_height(&self) -> usize {
        self.height
    }

    /// The buffer holds exactly one pixel per cell of the grid.
    pub closed spec fn wf(&self) -> bool {
        &&& self.width * self.height <= usize::MAX
        &&& self.buffer@.len() == self.width * self.height
    }

    /// The pixel at column `x`, row `y`.
    pub open spec fn pixel(&self, x: int, y: int) -> T {
        self@[pixel_index(self.spec_width() as int, x, y)]
    }

    /// Whether `(x, y)` names a cell of the grid.
    pub open spec fn in_bounds(&self, x: int, y: int) -> bool {
        0 <= x < self.spec_width() && 0 <= y < self.spec_height()
    }

    #[verifier::when_used_as_spec(spec_width)]
    pub fn width(&self) -> (w: usize)
        ensures
            w == self.spec_width(),
    {
        self.width
    }

    #[verifier::when_used_as_spec(spec_height)]
    pub fn height(&self) -> (h: usize)
        ensures
            h == self.spec_height(),
    {
        self.height
    }
}

impl<T: Copy> Framebuffer<T> {
    /// A grid of the given size with every pixel set to `fill`.
    pub fn new(width: usize, height: usize, fill: T) -> (fb: Self)
        requires
            width * height <= usize::MAX,
        ensures
            fb.wf(),
            fb.spec_width() == width,
            fb.spec_height() == height,
            fb@ == Seq::new((width * height) as nat, |i: int| fill),
            forall|x: int, y: int| fb.in_bounds(x, y) ==> #[trigger] fb.pixel(x, y) == fill,
    {
        let n: usize = width * height;
        let mut buffer: Vec<T> = Vec::new();
        let mut i: usize = 0;
        while i < n
            invariant
                i <= n,
                buffer@ == Seq::new(i as nat, |k: int| fill),
            decreases n - i,
        {
            buffer.push(fill);
            i = i + 1;
        }
        let fb = Framebuffer { width, height, buffer };
        assert forall|x: int, y: int| fb.in_bounds(x, y) implies #[trigger] fb.pixel(x, y) == fill by {
            lemma_pixel_index_bounds(width as int, height as int, x, y);
        }
        fb
    }

    /// The pixel at column `x`, row `y`.
    pub fn get_pixel(&self, x: usize, y: usize) -> (c: T)
        requires
            self.wf(),
            self.in_bounds(x as int, y as int),
        ensures
            c == self.pixel(x as int, y as int),
            c == self@[y * self.spec_width() + x],
    {
        proof {
            lemma_pixel_index_bounds(self.width as int, self.height as int, x as int, y as int);
        }
        self.buffer[y * self.width + x]
    }

    /// Writes `color` at column `x`, row `y`; a position outside the grid is
    /// ignored.
    pub fn set_pixel(&mut self, x: usize, y: usize, color: T)
        requires
            old(self).wf(),
        ensures
            final(self).wf(),
            final(self).spec_width() == old(self).spec_width(),
            final(self).spec_height() == old(self).spec_height(),
            final(self)@ == (if old(self).in_bounds(x as int, y as int) {
                old(self)@.update(pixel_index(old(self).spec_width() as int, x as int, y as int), color)
            } else {
                old(self)@
            }),
            old(self).in_bounds(x as int, y as int) ==> final(self)@ == old(self)@.update(
                y * old(self).spec_width() + x,
                color,
            ),
            !old(self).in_bounds(x as int, y as int) ==> final(self)@ == old(self)@,
    {
        if x < self.width && y < self.height {
            proof {
                lemma_pixel_index_bounds(self.width as int, self.height as int, x as int, y as int);
            }
            let i: usize = y * self.width + x;
            self.buffer.set(i, color);
        }
    }
}

/// Writing a colour at a cell of the grid and reading that cell back gives the
/// colour written, and every other cell keeps the colour it had: `after` is
/// `before` with `color` written at `(x, y)`, as `set_pixel` leaves it.
pub proof fn lemma_write_then_read<T>(
    before: Framebuffer<T>,
    after: Framebuffer<T>,
    x: int,
    y: int,
    color: T,
    x2: int,
    y2: int,
)
    requires
        before.wf(),
        before.in_bounds(x, y),
        before.in_bounds(x2, y2),
        after.spec_width() == before.spec_width(),
        after.spec_height() == before.spec_height(),
        after@ == before@.update(pixel_index(before.spec_width() as int, x, y), color),
    ensures
        after.pixel(x, y) == color,
        (x2 != x || y2 != y) ==> after.pixel(x2, y2) == before.pixel(x2, y2),
{
    let w = before.spec_width() as int;
    let h = before.spec_height() as int;
    lemma_pixel_index_bounds(w, h, x, y);
    lemma_pixel_index_bounds(w, h, x2, y2);
    if x2 != x || y2 != y {
        if pixel_index(w, x, y) == pixel_index(w, x2, y2) {
            lemma_pixel_index_injective(w, x, y, x2, y2);
        }
    }
}

} // verus!
