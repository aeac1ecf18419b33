//! Drawing on a framebuffer owned as a byte buffer, four bytes per pixel,
//! rows one after the other.

use vstd::prelude::*;

verus! {

/// One pixel's colour, in framebuffer byte order.
#[derive(Clone, Copy, Debug, PartialEq, Eq, Structural)]
pub struct RGBA {
    pub red: u8,
    pub green: u8,
    pub blue: u8,
    pub alpha: u8,
}

/// The opaque colour `0x00BBGGRR`: red in the low byte.
pub open spec fn rgba_of(color: u32) -> RGBA {
    RGBA {
        red: (color & 0xff) as u8,
        green: ((color >> 8) & 0xff) as u8,
        blue: ((color >> 16) & 0xff) as u8,
        alpha: 0xff,
    }
}

impl RGBA {
    /// The opaque colour `0x00BBGGRR`: red in the low byte.
    pub fn new(color: u32) -> (r: RGBA)
        ensures
            r == rgba_of(color),
    {
        RGBA {
            red: (color & 0xFF) as u8,
            green: ((color >> 8) & 0xFF) as u8,
            blue: ((color >> 16) & 0xFF) as u8,
            alpha: 0xFF,
        }
    }

    /// The four bytes of the colour.
    pub open spec fn spec_bytes(self) -> Seq<u8> {
        seq![self.red, self.green, self.blue, self.alpha]
    }

    /// The four bytes of the colour, as stored in the framebuffer.
    pub fn as_bytes(&self) -> (r: [u8; 4])
        ensures
            r@ == self.spec_bytes(),
    {
        let r = [self.red, self.green, self.blue, self.alpha];
        proof {
            assert(r@ =~= self.spec_bytes());
        }
        r
    }
}

/// Offset of the first byte of pixel `(x, y)` in rows of `width` pixels.
pub open spec fn pixel_offset(width: int, x: int, y: int) -> int {
    (y * width + x) * 4
}

/// Whether pixel `(x, y)` lies on the screen and in the buffer.
pub open spec fn visible(buf: Seq<u8>, width: int, height: int, x: int, y: int) -> bool {
    0 <= x < width && 0 <= y < height && pixel_offset(width, x, y) + 4 <= buf.len()
}

/// Whether pixel `(x, y)` holds colour `c`.
pub open spec fn pixel_is(buf: Seq<u8>, width: int, x: int, y: int, c: RGBA) -> bool {
    let o = pixel_offset(width, x, y);
    buf.subrange(o, o + 4) == c.spec_bytes()
}

/// Two different pixels of rows of `width` pixels use different bytes.
pub proof fn lemma_pixels_disjoint(width: int, x1: int, y1: int, x2: int, y2: int)
    requires
        0 <= x1 < width,
        0 <= x2 < width,
        0 <= y1,
        0 <= y2,
        x1 != x2 || y1 != y2,
    ensures
        pixel_offset(width, x1, y1) + 4 <= pixel_offset(width, x2, y2) || pixel_offset(width, x2, y2)
            + 4 <= pixel_offset(width, x1, y1),
{
    if y1 < y2 {
        assert(y1 * width + x1 + 1 <= y2 * width + x2) by (nonlinear_arith)
            requires
                y1 < y2,
                0 <= x1 < width,
                0 <= x2,
        ;
    } else if y2 < y1 {
        assert(y2 * width + x2 + 1 <= y1 * width + x1) by (nonlinear_arith)
            requires
                y2 < y1,
                0 <= x2 < width,
                0 <= x1,
        ;
    }
}

/// Whether byte `i` of a buffer of `len` bytes belongs to a pixel of the
/// block `[x0, x1)` by `[y0, y1)` that is shown on a `width` by `height`
/// screen.
pub open spec fn block_byte(len: int, width: int, height: int, i: int, x0: int, x1: int, y0: int, y1: int) -> bool {
    exists|x: int, y: int|
        x0 <= x < x1 && y0 <= y < y1 && 0 <= x < width && 0 <= y < height && #[trigger] pixel_offset(
            width,
            x,
            y,
        ) + 4 <= len && pixel_offset(width, x, y) <= i < pixel_offset(width, x, y) + 4
}

/// A byte of a block belongs to every block that contains it.
proof fn lemma_block_grows(
    len: int,
    width: int,
    height: int,
    i: int,
    x0: int,
    x1: int,
    y0: int,
    y1: int,
    u0: int,
    u1: int,
    v0: int,
    v1: int,
)
    requires
        block_byte(len, width, height, i, x0, x1, y0, y1),
        u0 <= x0,
        x1 <= u1,
        v0 <= y0,
        y1 <= v1,
    ensures
        block_byte(len, width, height, i, u0, u1, v0, v1),
{
    let (x, y) = choose|x: int, y: int|
        x0 <= x < x1 && y0 <= y < y1 && 0 <= x < width && 0 <= y < height && #[trigger] pixel_offset(
            width,
            x,
            y,
        ) + 4 <= len && pixel_offset(width, x, y) <= i < pixel_offset(width, x, y) + 4;
    assert(pixel_offset(width, x, y) + 4 <= len);
}

/// A framebuffer of `width` by `height` pixels.
pub struct Graphic {
    frame_buffer: Vec<u8>,
    height: u32,
    width: u32,
}

impl Graphic {
    /// The framebuffer's bytes.
    pub closed spec fn buffer(&self) -> Seq<u8> {
        self.frame_buffer@
    }

    /// Width in pixels.
    pub closed spec fn w(&self) -> u32 {
        self.width
    }

    /// Height in pixels.
    pub closed spec fn h(&self) -> u32 {
        self.height
    }

    /// Width in pixels.
    pub fn width(&self) -> (r: u32)
        ensures
            r == self.w(),
    {
        self.width
    }

    /// Height in pixels.
    pub fn height(&self) -> (r: u32)
        ensures
            r == self.h(),
    {
        self.height
    }

    /// Whether pixel `(x, y)` is drawn on.
    pub open spec fn shows(&self, x: int, y: int) -> bool {
        visible(self.buffer(), self.w() as int, self.h() as int, x, y)
    }

    /// Whether pixel `(x, y)`, if shown, holds colour `c`.
    pub open spec fn drawn(&self, x: int, y: int, c: RGBA) -> bool {
        self.shows(x, y) ==> pixel_is(self.buffer(), self.w() as int, x, y, c)
    }

    /// Every pixel that held colour `c` in `before` still holds it.
    pub open spec fn keeps(&self, before: Graphic, c: RGBA) -> bool {
        &&& self.buffer().len() == before.buffer().len()
        &&& self.w() == before.w()
        &&& self.h() == before.h()
        &&& forall|x: int, y: int| #[trigger] before.drawn(x, y, c) ==> self.drawn(x, y, c)
    }

    /// A screen of `width` by `height` pixels over `frame_buffer`.
    pub fn new(frame_buffer: Vec<u8>, width: u32, height: u32) -> (r: Graphic)
        ensures
            r.buffer() == frame_buffer@,
            r.w() == width,
            r.h() == height,
    {
        Graphic { frame_buffer, height, width }
    }

    /// The framebuffer's bytes.
    pub fn frame_buffer(&self) -> (r: &Vec<u8>)
        ensures
            r@ == self.buffer(),
    {
        &self.frame_buffer
    }

    /// Paints pixel `pos` with `color`, where it is shown; elsewhere does
    /// nothing.
    pub fn fill_single_pixel(&mut self, color: u32, pos: (u32, u32))
        ensures
            final(self).w() == old(self).w(),
            final(self).h() == old(self).h(),
            final(self).buffer().len() == old(self).buffer().len(),
            ({
                let o = pixel_offset(old(self).w() as int, pos.0 as int, pos.1 as int);
                forall|i: int|
                    0 <= i < old(self).buffer().len() ==> #[trigger] final(self).buffer()[i] == if old(
                        self,
                    ).shows(pos.0 as int, pos.1 as int) && o <= i < o + 4 {
                        rgba_of(color).spec_bytes()[i - o]
                    } else {
                        old(self).buffer()[i]
                    }
            }),
    {
        let x = pos.0 as u64;
        let y = pos.1 as u64;
        let width = self.width as u64;
        if x < width && y < self.height as u64 {
            proof {
                assert(y * width + x <= 0xffff_ffffu64 * 0xffff_ffffu64 + 0xffff_ffffu64) by (nonlinear_arith)
                    requires
                        y <= 0xffff_ffff,
                        width <= 0xffff_ffff,
                        x <= 0xffff_ffff,
                ;
            }
            let pix = y * width + x;
            if pix < self.frame_buffer.len() as u64 / 4 {
                let offset = pix * 4;
                let bytes = RGBA::new(color).as_bytes();
                let o = offset as usize;
                let mut k: usize = 0;
                while k < 4
                    invariant
                        k <= 4,
                        o + 4 <= self.frame_buffer@.len(),
                        o as int == pixel_offset(width as int, x as int, y as int),
                        self.width == old(self).width,
                        self.height == old(self).height,
                        self.frame_buffer@.len() == old(self).frame_buffer@.len(),
                        bytes@ == rgba_of(color).spec_bytes(),
                        forall|i: int|
                            0 <= i < old(self).buffer().len() ==> #[trigger] self.frame_buffer@[i] == if o
                                <= i < o + k {
                                bytes@[i - o]
                            } else {
                                old(self).frame_buffer@[i]
                            },
                    decreases 4 - k,
                {
                    self.frame_buffer.set(o + k, bytes[k]);
                    k = k + 1;
                }
            }
        }
    }

    /// Painting pixel `pos` with `color` keeps every pixel that had the colour
    /// and leaves `pos` with it where shown.
    proof fn lemma_fill_keeps(before: Graphic, after: Graphic, color: u32, pos: (u32, u32))
        requires
            after.w() == before.w(),
            after.h() == before.h(),
            after.buffer().len() == before.buffer().len(),
            ({
                let o = pixel_offset(before.w() as int, pos.0 as int, pos.1 as int);
                forall|i: int|
                    0 <= i < before.buffer().len() ==> #[trigger] after.buffer()[i] == if before.shows(
                        pos.0 as int,
                        pos.1 as int,
                    ) && o <= i < o + 4 {
                        rgba_of(color).spec_bytes()[i - o]
                    } else {
                        before.buffer()[i]
                    }
            }),
        ensures
            after.keeps(before, rgba_of(color)),
            after.drawn(pos.0 as int, pos.1 as int, rgba_of(color)),
    {
        let c = rgba_of(color);
        let w = before.w() as int;
        let o = pixel_offset(w, pos.0 as int, pos.1 as int);
        assert forall|x: int, y: int| #[trigger] before.drawn(x, y, c) implies after.drawn(x, y, c) by {
            if after.shows(x, y) {
                let p = pixel_offset(w, x, y);
                if before.shows(pos.0 as int, pos.1 as int) && !(x == pos.0 && y == pos.1) {
                    lemma_pixels_disjoint(w, x, y, pos.0 as int, pos.1 as int);
                }
                assert(after.buffer().subrange(p, p + 4) =~= c.spec_bytes()) by {
                    assert forall|i: int| 0 <= i < 4 implies after.buffer().subrange(p, p + 4)[i]
                        == c.spec_bytes()[i] by {
                        assert(before.buffer().subrange(p, p + 4)[i] == c.spec_bytes()[i]);
                    }
                }
            }
        }
        if after.shows(pos.0 as int, pos.1 as int) {
            assert(after.buffer().subrange(o, o + 4) =~= c.spec_bytes());
        }
    }

    /// Paints `pos` with `color` where shown, keeping every pixel that had it.
    fn paint(&mut self, color: u32, pos: (u32, u32))
        ensures
            final(self).keeps(*old(self), rgba_of(color)),
            final(self).drawn(pos.0 as int, pos.1 as int, rgba_of(color)),
            forall|i: int|
                0 <= i < old(self).buffer().len() && !(old(self).shows(pos.0 as int, pos.1 as int)
                    && pixel_offset(old(self).w() as int, pos.0 as int, pos.1 as int) <= i
                    < pixel_offset(old(self).w() as int, pos.0 as int, pos.1 as int) + 4)
                    ==> #[trigger] final(self).buffer()[i] == old(self).buffer()[i],
    {
        let ghost before = *self;
        self.fill_single_pixel(color, pos);
        proof {
            Graphic::lemma_fill_keeps(before, *self, color, pos);
        }
    }

    /// Paints every whole pixel of the buffer with `color`.
    pub fn clear_screen(&mut self, color: u32)
        ensures
            final(self).w() == old(self).w(),
            final(self).h() == old(self).h(),
            final(self).buffer().len() == old(self).buffer().len(),
            forall|i: int|
                0 <= i < old(self).buffer().len() ==> #[trigger] final(self).buffer()[i] == if i < old(
                    self,
                ).buffer().len() / 4 * 4 {
                    rgba_of(color).spec_bytes()[i % 4]
                } else {
                    old(self).buffer()[i]
                },
    {
        let bytes = RGBA::new(color).as_bytes();
        let whole = self.frame_buffer.len() / 4 * 4;
        let mut i: usize = 0;
        while i < whole
            invariant
                i <= whole,
                whole == old(self).buffer().len() / 4 * 4,
                self.width == old(self).width,
                self.height == old(self).height,
                self.frame_buffer@.len() == old(self).frame_buffer@.len(),
                bytes@ == rgba_of(color).spec_bytes(),
                forall|j: int|
                    0 <= j < old(self).buffer().len() ==> #[trigger] self.frame_buffer@[j] == if j < i {
                        bytes@[j % 4]
                    } else {
                        old(self).frame_buffer@[j]
                    },
            decreases whole - i,
        {
            self.frame_buffer.set(i, bytes[i % 4]);
            i = i + 1;
        }
    }

    /// Draws the segment from `pos1` to `pos2` with Bresenham's algorithm;
    /// pixels off the screen are skipped.
    pub fn draw_line(&mut self, color: u32, pos1: (u32, u32), pos2: (u32, u32))
        ensures
            final(self).keeps(*old(self), rgba_of(color)),
            final(self).drawn(pos1.0 as int, pos1.1 as int, rgba_of(color)),
            final(self).drawn(pos2.0 as int, pos2.1 as int, rgba_of(color)),
    {
        let mut xi = pos1.0 as i64;
        let mut yi = pos1.1 as i64;
        let x2 = pos2.0 as i64;
        let y2 = pos2.1 as i64;
        let sx: i64 = if xi < x2 { 1 } else { -1 };
        let sy: i64 = if yi < y2 { 1 } else { -1 };
        let dx: i64 = if xi < x2 { x2 - xi } else { xi - x2 };
        let dy: i64 = if yi < y2 { yi - y2 } else { y2 - yi };
        let mut err: i64 = dx + dy;
        let ghost before = *self;
        self.paint(color, (xi as u32, yi as u32));
        let ghost first = *self;
        // each step moves at least one coordinate towards the end point
        let mut steps: i64 = dx - dy;
        while (xi != x2 || yi != y2) && steps > 0
            invariant
                0 <= dx <= 0xffff_ffff,
                -0xffff_ffff <= dy <= 0,
                -0xffff_ffff <= err <= 0xffff_ffff,
                0 <= xi <= 0xffff_ffff,
                0 <= yi <= 0xffff_ffff,
                0 <= x2 <= 0xffff_ffff,
                0 <= y2 <= 0xffff_ffff,
                sx == 1 || sx == -1,
                sy == 1 || sy == -1,
                steps >= 0,
                self.keeps(before, rgba_of(color)),
                self.keeps(first, rgba_of(color)),
                first.drawn(pos1.0 as int, pos1.1 as int, rgba_of(color)),
            decreases steps,
        {
            let e2 = err * 2;
            let mut nerr = err;
            let mut nx = xi;
            let mut ny = yi;
            if e2 >= dy && xi != x2 {
                nerr = nerr + dy;
                nx = xi + sx;
            }
            if e2 <= dx && yi != y2 {
                nerr = nerr + dx;
                ny = yi + sy;
            }
            if -0xffff_ffff <= nerr && nerr <= 0xffff_ffff && 0 <= nx && nx <= 0xffff_ffff && 0 <= ny
                && ny <= 0xffff_ffff {
                err = nerr;
                xi = nx;
                yi = ny;
                self.paint(color, (xi as u32, yi as u32));
                steps = steps - 1;
            } else {
                // the error term and the position stay within these bounds
                steps = 0;
            }
        }
        // the end point, which the steps above reach
        self.paint(color, pos2);
    }

    /// Paints `(x, y)` where both lie in the range of a screen coordinate and
    /// the pixel is shown.
    fn paint_at(&mut self, color: u32, x: i64, y: i64)
        ensures
            final(self).keeps(*old(self), rgba_of(color)),
            0 <= x <= u32::MAX && 0 <= y <= u32::MAX ==> final(self).drawn(x as int, y as int, rgba_of(color)),
    {
        if 0 <= x && x <= u32::MAX as i64 && 0 <= y && y <= u32::MAX as i64 {
            self.paint(color, (x as u32, y as u32));
        }
    }

    /// Draws the outline of the rectangle with corners `pos` and
    /// `(pos.0 + h, pos.1 + w)`.
    pub fn draw_rect(&mut self, color: u32, pos: (u32, u32), h: u32, w: u32)
        requires
            pos.0 + h <= u32::MAX,
            pos.1 + w <= u32::MAX,
        ensures
            final(self).keeps(*old(self), rgba_of(color)),
            final(self).drawn(pos.0 as int, pos.1 as int, rgba_of(color)),
            final(self).drawn(pos.0 as int, pos.1 + w, rgba_of(color)),
            final(self).drawn(pos.0 + h, pos.1 as int, rgba_of(color)),
    {
        self.draw_line(color, pos, (pos.0 + h, pos.1));
        self.draw_line(color, (pos.0, pos.1 + w), (pos.0 + h, pos.1 + w));
        self.draw_line(color, pos, (pos.0, pos.1 + w));
        self.draw_line(color, (pos.0 + h, pos.1), (pos.0 + h, pos.1 + w));
    }

    /// Fills the block of pixels `[pos.0, pos.0 + h)` by `[pos.1, pos.1 + w)`.
    pub fn draw_block(&mut self, color: u32, pos: (u32, u32), h: u32, w: u32)
        requires
            pos.0 + h <= u32::MAX,
            pos.1 + w <= u32::MAX,
        ensures
            final(self).keeps(*old(self), rgba_of(color)),
            forall|x: int, y: int|
                pos.0 <= x < pos.0 + h && pos.1 <= y < pos.1 + w ==> #[trigger] final(self).drawn(
                    x,
                    y,
                    rgba_of(color),
                ),
            forall|i: int|
                0 <= i < old(self).buffer().len() && !block_byte(
                    old(self).buffer().len() as int,
                    old(self).w() as int,
                    old(self).h() as int,
                    i,
                    pos.0 as int,
                    pos.0 + h,
                    pos.1 as int,
                    pos.1 + w,
                ) ==> #[trigger] final(self).buffer()[i] == old(self).buffer()[i],
    {
        let x = pos.0;
        let y = pos.1;
        let ghost before = *self;
        let mut xi = x;
        while xi < x + h
            invariant
                x <= xi <= x + h,
                x + h <= u32::MAX,
                y + w <= u32::MAX,
                self.keeps(before, rgba_of(color)),
                forall|px: int, py: int|
                    x <= px < xi && y <= py < y + w ==> #[trigger] self.drawn(px, py, rgba_of(color)),
                forall|i: int|
                    0 <= i < before.buffer().len() && !block_byte(
                        before.buffer().len() as int,
                        before.w() as int,
                        before.h() as int,
                        i,
                        x as int,
                        xi as int,
                        y as int,
                        y + w,
                    ) ==> #[trigger] self.buffer()[i] == before.buffer()[i],
            decreases x + h - xi,
        {
            let mut yi = y;
            let ghost row = *self;
            while yi < y + w
                invariant
                    x <= xi < x + h,
                    y <= yi <= y + w,
                    x + h <= u32::MAX,
                    y + w <= u32::MAX,
                    self.keeps(before, rgba_of(color)),
                    self.keeps(row, rgba_of(color)),
                    forall|px: int, py: int|
                        x <= px < xi && y <= py < y + w ==> #[trigger] row.drawn(px, py, rgba_of(color)),
                    forall|py: int| y <= py < yi ==> #[trigger] self.drawn(xi as int, py, rgba_of(color)),
                    forall|i: int|
                        0 <= i < before.buffer().len() && !block_byte(
                            before.buffer().len() as int,
                            before.w() as int,
                            before.h() as int,
                            i,
                            x as int,
                            xi as int,
                            y as int,
                            y + w,
                        ) && !block_byte(
                            before.buffer().len() as int,
                            before.w() as int,
                            before.h() as int,
                            i,
                            xi as int,
                            xi + 1,
                            y as int,
                            yi as int,
                        ) ==> #[trigger] self.buffer()[i] == before.buffer()[i],
                decreases y + w - yi,
            {
                let ghost prev = *self;
                self.paint(color, (xi, yi));
                proof {
                    let len = before.buffer().len() as int;
                    let bw = before.w() as int;
                    let bh = before.h() as int;
                    assert forall|i: int|
                        0 <= i < len && !block_byte(len, bw, bh, i, x as int, xi as int, y as int, y + w)
                            && !block_byte(len, bw, bh, i, xi as int, xi + 1, y as int, yi + 1) implies #[trigger] self.buffer()[i]
                        == before.buffer()[i] by {
                        if block_byte(len, bw, bh, i, xi as int, xi + 1, y as int, yi as int) {
                            lemma_block_grows(len, bw, bh, i, xi as int, xi + 1, y as int, yi as int, xi as int, xi + 1, y as int, yi + 1);
                        }
                        if prev.shows(xi as int, yi as int) && pixel_offset(bw, xi as int, yi as int) <= i
                            < pixel_offset(bw, xi as int, yi as int) + 4 {
                            assert(pixel_offset(bw, xi as int, yi as int) + 4 <= len);
                            assert(block_byte(len, bw, bh, i, xi as int, xi + 1, y as int, yi + 1));
                        }
                        assert(self.buffer()[i] == prev.buffer()[i]);
                    }
                    assert forall|py: int| y <= py < yi + 1 implies #[trigger] self.drawn(
                        xi as int,
                        py,
                        rgba_of(color),
                    ) by {
                        if py < yi {
                            assert(prev.drawn(xi as int, py, rgba_of(color)));
                        }
                    }
                }
                yi = yi + 1;
            }
            proof {
                let len = before.buffer().len() as int;
                let bw = before.w() as int;
                let bh = before.h() as int;
                assert forall|i: int|
                    0 <= i < len && !block_byte(len, bw, bh, i, x as int, xi + 1, y as int, y + w) implies #[trigger] self.buffer()[i]
                    == before.buffer()[i] by {
                    if block_byte(len, bw, bh, i, x as int, xi as int, y as int, y + w) {
                        lemma_block_grows(len, bw, bh, i, x as int, xi as int, y as int, y + w, x as int, xi + 1, y as int, y + w);
                    }
                    if block_byte(len, bw, bh, i, xi as int, xi + 1, y as int, yi as int) {
                        lemma_block_grows(len, bw, bh, i, xi as int, xi + 1, y as int, yi as int, x as int, xi + 1, y as int, y + w);
                    }
                }
                assert forall|px: int, py: int|
                    x <= px < xi + 1 && y <= py < y + w implies #[trigger] self.drawn(px, py, rgba_of(color)) by {
                    if px < xi {
                        assert(row.drawn(px, py, rgba_of(color)));
                    }
                }
            }
            xi = xi + 1;
        }
    }

    /// Paints the eight points symmetric to `(x, y)` about the centre
    /// `(x0, y0)`, one in each octant.
    pub fn draw_circle_octants(&mut self, x0: u32, y0: u32, x: i64, y: i64, color: u32)
        requires
            -0x1_0000_0000 <= x <= 0x1_0000_0000,
            -0x1_0000_0000 <= y <= 0x1_0000_0000,
        ensures
            final(self).keeps(*old(self), rgba_of(color)),
            0 <= x0 + x <= u32::MAX && 0 <= y0 + y <= u32::MAX ==> final(self).drawn(
                x0 + x,
                y0 + y,
                rgba_of(color),
            ),
            0 <= x0 - x <= u32::MAX && 0 <= y0 + y <= u32::MAX ==> final(self).drawn(
                x0 - x,
                y0 + y,
                rgba_of(color),
            ),
            0 <= x0 + x <= u32::MAX && 0 <= y0 - y <= u32::MAX ==> final(self).drawn(
                x0 + x,
                y0 - y,
                rgba_of(color),
            ),
            0 <= x0 - x <= u32::MAX && 0 <= y0 - y <= u32::MAX ==> final(self).drawn(
                x0 - x,
                y0 - y,
                rgba_of(color),
            ),
            0 <= x0 + y <= u32::MAX && 0 <= y0 + x <= u32::MAX ==> final(self).drawn(
                x0 + y,
                y0 + x,
                rgba_of(color),
            ),
            0 <= x0 - y <= u32::MAX && 0 <= y0 + x <= u32::MAX ==> final(self).drawn(
                x0 - y,
                y0 + x,
                rgba_of(color),
            ),
            0 <= x0 + y <= u32::MAX && 0 <= y0 - x <= u32::MAX ==> final(self).drawn(
                x0 + y,
                y0 - x,
                rgba_of(color),
            ),
            0 <= x0 - y <= u32::MAX && 0 <= y0 - x <= u32::MAX ==> final(self).drawn(
                x0 - y,
                y0 - x,
                rgba_of(color),
            ),
    {
        let cx = x0 as i64;
        let cy = y0 as i64;
        self.paint_at(color, cx + x, cy + y);
        self.paint_at(color, cx - x, cy + y);
        self.paint_at(color, cx + x, cy - y);
        self.paint_at(color, cx - x, cy - y);
        self.paint_at(color, cx + y, cy + x);
        self.paint_at(color, cx - y, cy + x);
        self.paint_at(color, cx + y, cy - x);
        self.paint_at(color, cx - y, cy - x);
    }

    /// Draws the circle of radius `rd` about `pos` with the midpoint
    /// algorithm.
    pub fn draw_circle(&mut self, color: u32, pos: (u32, u32), rd: u32)
        ensures
            final(self).keeps(*old(self), rgba_of(color)),
            pos.1 + rd <= u32::MAX ==> final(self).drawn(pos.0 as int, pos.1 + rd, rgba_of(color)),
            rd <= pos.1 ==> final(self).drawn(pos.0 as int, pos.1 - rd, rgba_of(color)),
            pos.0 + rd <= u32::MAX ==> final(self).drawn(pos.0 + rd, pos.1 as int, rgba_of(color)),
            rd <= pos.0 ==> final(self).drawn(pos.0 - rd, pos.1 as int, rgba_of(color)),
    {
        let r = rd as i64;
        let mut xi: i64 = 0;
        let mut yi: i64 = r;
        let mut p: i64 = 1 - r;
        self.draw_circle_octants(pos.0, pos.1, xi, yi, color);
        let ghost first = *self;
        while xi < yi
            invariant
                0 <= r <= u32::MAX,
                0 <= xi <= r,
                0 <= yi <= r,
                -2 * r - 1 <= p <= 2 * r + 1 + 3 * xi,
                self.keeps(*old(self), rgba_of(color)),
                self.keeps(first, rgba_of(color)),
                pos.1 + rd <= u32::MAX ==> first.drawn(pos.0 as int, pos.1 + rd, rgba_of(color)),
                rd <= pos.1 ==> first.drawn(pos.0 as int, pos.1 - rd, rgba_of(color)),
                pos.0 + rd <= u32::MAX ==> first.drawn(pos.0 + rd, pos.1 as int, rgba_of(color)),
                rd <= pos.0 ==> first.drawn(pos.0 - rd, pos.1 as int, rgba_of(color)),
            decreases yi + 1 - xi,
        {
            xi = xi + 1;
            if p <= 0 {
                p = p + 2 * xi + 1;
            } else {
                yi = yi - 1;
                p = p + 2 * xi - 2 * yi + 1;
            }
            self.draw_circle_octants(pos.0, pos.1, xi, yi, color);
        }
    }
}

} // verus!
