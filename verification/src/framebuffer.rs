//! Render targets: anything pixels can be written to, and a packed
//! 0x00RRGGBB frame buffer for display.
use vstd::prelude::*;

use crate::tgaimage::{TGAColor, TGAImage, color_kept, lemma_get_after_set, lemma_upper_after_set, upper_channels};

verus! {

/// The colour with every channel 0.
pub open spec fn no_color() -> TGAColor {
    TGAColor { r: 0, g: 0, b: 0, a: 0 }
}

/// A surface of `width` by `height` pixels that colours can be written to.
pub trait FrameBufferTarget {
    spec fn target_width(&self) -> nat;

    spec fn target_height(&self) -> nat;

    /// What the target shows at (x, y); `no_color()` outside it.
    spec fn target_pixel(&self, x: int, y: int) -> TGAColor;

    /// What a pixel of this target shows after `c` was written to it.
    spec fn target_kept(&self, c: TGAColor) -> TGAColor;

    /// What writing pixels leaves alone besides what they show: for an
    /// image, its bytes per pixel and the channels past the fourth.
    spec fn target_rest(&self) -> (nat, Seq<u8>);

    /// The position and colour of each `set` call made on the target so
    /// far, in order.
    spec fn target_log(&self) -> Seq<(usize, usize, TGAColor)>;

    /// Writes `color` to (x, y); does nothing outside the target.
    fn set(&mut self, x: usize, y: usize, color: &TGAColor)
        ensures
            final(self).target_width() == old(self).target_width(),
            final(self).target_height() == old(self).target_height(),
            forall|c: TGAColor| #[trigger] final(self).target_kept(c) == old(self).target_kept(c),
            final(self).target_rest() == old(self).target_rest(),
            final(self).target_log() == old(self).target_log().push((x, y, *color)),
            forall|x2: int, y2: int|
                #[trigger] final(self).target_pixel(x2, y2) == if x2 == x && y2 == y && x
                    < old(self).target_width() && y < old(self).target_height() {
                    old(self).target_kept(*color)
                } else {
                    old(self).target_pixel(x2, y2)
                },
    ;

    fn width(&self) -> (r: usize)
        ensures
            r == self.target_width(),
    ;

    fn height(&self) -> (r: usize)
        ensures
            r == self.target_height(),
    ;
}

/// The 0x00RRGGBB word of a colour; alpha is dropped.
pub open spec fn pack(c: TGAColor) -> u32 {
    (c.r * 65536 + c.g * 256 + c.b) as u32
}

/// The colour of a 0x00RRGGBB word, fully opaque.
pub open spec fn unpack(p: u32) -> TGAColor {
    TGAColor { r: ((p / 65536) % 256) as u8, g: ((p / 256) % 256) as u8, b: (p % 256) as u8, a: 255 }
}

/// Each 0x00RRGGBB word as the three bytes b, g, r.
pub open spec fn bgr_bytes(pixels: Seq<u32>) -> Seq<u8> {
    Seq::new(
        3 * pixels.len(),
        |k: int|
            {
                let p = pixels[k / 3];
                if k % 3 == 0 {
                    (p % 256) as u8
                } else if k % 3 == 1 {
                    ((p / 256) % 256) as u8
                } else {
                    ((p / 65536) % 256) as u8
                }
            },
    )
}

/// A colour as a frame buffer shows it after it was written: opaque.
pub open spec fn opaque(c: TGAColor) -> TGAColor {
    TGAColor { r: c.r, g: c.g, b: c.b, a: 255 }
}

/// The 0x00RRGGBB word of a colour; alpha is dropped.
pub fn pack_color(c: &TGAColor) -> (p: u32)
    ensures
        p == pack(*c),
{
    let r = c.r as u32;
    let g = c.g as u32;
    let b = c.b as u32;
    let p = (r << 16) | (g << 8) | b;
    assert(p == r * 65536 + g * 256 + b) by (bit_vector)
        requires r < 256, g < 256, b < 256, p == (r << 16) | (g << 8) | b;
    p
}

pub proof fn lemma_unpack_pack(c: TGAColor)
    ensures
        unpack(pack(c)) == opaque(c),
{
    let r = c.r as int;
    let g = c.g as int;
    let b = c.b as int;
    let p = r * 65536 + g * 256 + b;
    assert(p / 65536 == r && (p / 256) % 256 == g && p % 256 == b) by (nonlinear_arith)
        requires 0 <= r < 256, 0 <= g < 256, 0 <= b < 256, p == r * 65536 + g * 256 + b;
}

/// A `width` by `height` buffer of 0x00RRGGBB pixels, row by row from the
/// top-left corner.
pub struct FrameBuffer {
    buffer: Vec<u32>,
    width: usize,
    height: usize,
    /// The `set` calls made on the buffer so far, in order.
    log: Ghost<Seq<(usize, usize, TGAColor)>>,
}

impl FrameBuffer {
    /// The buffer always holds exactly `width * height` pixels.
    #[verifier::type_invariant]
    pub closed spec fn wf(&self) -> bool {
        self.buffer.len() == self.width * self.height
    }

    /// A well-formed buffer holds one word per pixel.
    pub proof fn lemma_wf_len(&self)
        requires
            self.wf(),
        ensures
            self.spec_pixels().len() == self.spec_width() * self.spec_height(),
    {
    }

    pub closed spec fn spec_width(&self) -> nat {
        self.width as nat
    }

    pub closed spec fn spec_height(&self) -> nat {
        self.height as nat
    }

    pub closed spec fn spec_pixels(&self) -> Seq<u32> {
        self.buffer@
    }

    /// The position and colour of each `set` call made on the buffer, in
    /// order.
    pub closed spec fn spec_log(&self) -> Seq<(usize, usize, TGAColor)> {
        self.log@
    }

    /// What `get` returns at (x, y).
    pub open spec fn spec_get(&self, x: int, y: int) -> Option<TGAColor> {
        if 0 <= x < self.spec_width() && 0 <= y < self.spec_height() {
            Some(unpack(self.spec_pixels()[x + y * self.spec_width()]))
        } else {
            None
        }
    }

    /// A black `width` by `height` buffer.
    pub fn new(width: usize, height: usize) -> (fb: FrameBuffer)
        requires
            width * height <= usize::MAX,
        ensures
            fb.wf(),
            fb.spec_width() == width,
            fb.spec_height() == height,
            fb.spec_pixels() == Seq::new((width * height) as nat, |i: int| 0u32),
    {
        let buffer: Vec<u32> = vec![0u32; width * height];
        let fb = FrameBuffer { buffer, width, height, log: Ghost(Seq::empty()) };
        assert(fb.buffer@ == Seq::new((width * height) as nat, |i: int| 0u32));
        fb
    }

    /// Replaces all pixels at once.
    pub fn set_buffer(&mut self, buffer: Vec<u32>)
        requires
            buffer.len() == old(self).spec_width() * old(self).spec_height(),
        ensures
            final(self).wf(),
            final(self).spec_width() == old(self).spec_width(),
            final(self).spec_height() == old(self).spec_height(),
            final(self).spec_pixels() == buffer@,
    {
        self.buffer = buffer;
    }

    /// Fills every pixel with `color`.
    pub fn clear_color(&mut self, color: &TGAColor)
        ensures
            final(self).wf(),
            final(self).spec_width() == old(self).spec_width(),
            final(self).spec_height() == old(self).spec_height(),
            final(self).spec_pixels() == Seq::new(old(self).spec_pixels().len(), |i: int| pack(*color)),
    {
        proof {
            use_type_invariant(&*self);
        }
        let pixel = pack_color(color);
        let n = self.buffer.len();
        let mut i: usize = 0;
        while i < n
            invariant
                n == self.buffer.len(),
                n == self.width * self.height,
                self.width == old(self).width,
                self.height == old(self).height,
                i <= n,
                forall|j: int| 0 <= j < i ==> self.buffer@[j] == pixel,
            decreases n - i,
        {
            self.buffer[i] = pixel;
            i = i + 1;
        }
        assert(self.buffer@ =~= Seq::new(old(self).spec_pixels().len(), |i: int| pack(*color)));
    }

    /// Writes `color` (without its alpha) at (x, y); does nothing outside
    /// the buffer.
    pub fn set(&mut self, x: usize, y: usize, color: &TGAColor)
        ensures
            final(self).wf(),
            final(self).spec_width() == old(self).spec_width(),
            final(self).spec_height() == old(self).spec_height(),
            final(self).spec_pixels() == if x < old(self).spec_width() && y < old(self).spec_height() {
                old(self).spec_pixels().update(x + y * old(self).spec_width(), pack(*color))
            } else {
                old(self).spec_pixels()
            },
            final(self).spec_log() == old(self).spec_log().push((x, y, *color)),
    {
        proof {
            use_type_invariant(&*self);
            self.log@ = self.log@.push((x, y, *color));
        }
        if x >= self.width || y >= self.height {
            return;
        }
        proof {
            crate::tgaimage::lemma_pixel_in_bounds(x as int, y as int, self.width as int, self.height as int, 1);
        }
        let pixel = pack_color(color);
        let idx = x + y * self.width;
        self.buffer[idx] = pixel;
    }

    /// The colour at (x, y), fully opaque; `None` outside the buffer.
    pub fn get(&self, x: usize, y: usize) -> (r: Option<TGAColor>)
        ensures
            r == self.spec_get(x as int, y as int),
    {
        proof {
            use_type_invariant(self);
        }
        if x >= self.width || y >= self.height {
            return None;
        }
        proof {
            crate::tgaimage::lemma_pixel_in_bounds(x as int, y as int, self.width as int, self.height as int, 1);
        }
        let pixel = self.buffer[x + y * self.width];
        let r = ((pixel >> 16) & 0xFF) as u8;
        let g = ((pixel >> 8) & 0xFF) as u8;
        let b = (pixel & 0xFF) as u8;
        assert(((pixel >> 16) & 0xFF) == (pixel / 65536) % 256) by (bit_vector);
        assert(((pixel >> 8) & 0xFF) == (pixel / 256) % 256) by (bit_vector);
        assert((pixel & 0xFF) == pixel % 256) by (bit_vector);
        Some(TGAColor { r, g, b, a: 255 })
    }

    /// The buffer as a 3-byte-per-pixel image: each 0x00RRGGBB word becomes
    /// the bytes b, g, r.
    pub fn to_image(&self) -> (img: TGAImage)
        ensures
            img.wf(),
            img.spec_width() == self.spec_width(),
            img.spec_height() == self.spec_height(),
            img.spec_bpp() == 3,
            img.spec_bytes() == bgr_bytes(self.spec_pixels()),
    {
        proof {
            use_type_invariant(self);
        }
        let n = self.buffer.len();
        let mut out: Vec<u8> = Vec::new();
        let mut i: usize = 0;
        while i < n
            invariant
                n == self.buffer@.len(),
                n == self.width * self.height,
                i <= n,
                out@ == bgr_bytes(self.buffer@.subrange(0, i as int)),
            decreases n - i,
        {
            let pixel = self.buffer[i];
            let ghost before = out@;
            out.push((pixel & 0xFF) as u8);
            out.push(((pixel >> 8) & 0xFF) as u8);
            out.push(((pixel >> 16) & 0xFF) as u8);
            proof {
                assert((pixel & 0xFF) == pixel % 256) by (bit_vector);
                assert(((pixel >> 8) & 0xFF) == (pixel / 256) % 256) by (bit_vector);
                assert(((pixel >> 16) & 0xFF) == (pixel / 65536) % 256) by (bit_vector);
                let next = self.buffer@.subrange(0, i + 1);
                assert forall|k: int| 0 <= k < 3 * (i + 1) implies #[trigger] bgr_bytes(next)[k] == out@[k] by {
                    let q = k / 3;
                    let r = k % 3;
                    vstd::arithmetic::div_mod::lemma_fundamental_div_mod(k, 3);
                    if k < 3 * i {
                        assert(q < i);
                        assert(bgr_bytes(self.buffer@.subrange(0, i as int))[k] == before[k]);
                    } else {
                        vstd::arithmetic::div_mod::lemma_fundamental_div_mod_converse(k, 3, i as int, k - 3 * i);
                    }
                }
                assert(out@ =~= bgr_bytes(next));
            }
            i = i + 1;
        }
        assert(self.buffer@.subrange(0, n as int) =~= self.buffer@);
        assert(n * 3 == self.width * self.height * 3);
        TGAImage::from_bytes(self.width, self.height, 3, out)
    }

    /// All pixels, row by row.
    pub fn as_buffer(&self) -> (r: &[u32])
        ensures
            r@ == self.spec_pixels(),
    {
        self.buffer.as_slice()
    }
}

impl FrameBufferTarget for FrameBuffer {
    open spec fn target_width(&self) -> nat {
        self.spec_width()
    }

    open spec fn target_height(&self) -> nat {
        self.spec_height()
    }

    open spec fn target_pixel(&self, x: int, y: int) -> TGAColor {
        match self.spec_get(x, y) {
            Some(c) => c,
            None => no_color(),
        }
    }

    open spec fn target_kept(&self, c: TGAColor) -> TGAColor {
        opaque(c)
    }

    open spec fn target_rest(&self) -> (nat, Seq<u8>) {
        (0, Seq::empty())
    }

    open spec fn target_log(&self) -> Seq<(usize, usize, TGAColor)> {
        self.spec_log()
    }

    fn set(&mut self, x: usize, y: usize, color: &TGAColor) {
        proof {
            use_type_invariant(&*self);
        }
        let ghost before = *self;
        FrameBuffer::set(self, x, y, color);
        proof {
            lemma_unpack_pack(*color);
            let w = before.spec_width() as int;
            let h = before.spec_height() as int;
            assert forall|x2: int, y2: int|
                #[trigger] self.target_pixel(x2, y2) == if x2 == x && y2 == y && x < w && y < h {
                    opaque(*color)
                } else {
                    before.target_pixel(x2, y2)
                } by {
                if x < w && y < h {
                    crate::tgaimage::lemma_pixel_in_bounds(x as int, y as int, w, h, 1);
                }
                if 0 <= x2 < w && 0 <= y2 < h && x < w && y < h && (x2 != x || y2 != y) {
                    lemma_distinct_cells(x as int, y as int, x2, y2, w);
                    crate::tgaimage::lemma_pixel_in_bounds(x2, y2, w, h, 1);
                }
            }
        }
    }

    fn width(&self) -> (r: usize) {
        self.width
    }

    fn height(&self) -> (r: usize) {
        self.height
    }
}

/// Two different pixels of a `w`-wide buffer sit at different indices.
pub proof fn lemma_distinct_cells(x: int, y: int, x2: int, y2: int, w: int)
    requires
        0 <= x < w,
        0 <= y,
        0 <= x2 < w,
        0 <= y2,
        x != x2 || y != y2,
    ensures
        x + y * w != x2 + y2 * w,
{
    crate::tgaimage::lemma_distinct_pixels(x, y, 0, x2, y2, 0, w, 1);
    assert((x + y * w) * 1 == x + y * w);
    assert((x2 + y2 * w) * 1 == x2 + y2 * w);
}

impl FrameBufferTarget for TGAImage {
    open spec fn target_width(&self) -> nat {
        self.spec_width()
    }

    open spec fn target_height(&self) -> nat {
        self.spec_height()
    }

    open spec fn target_pixel(&self, x: int, y: int) -> TGAColor {
        match self.spec_get(x, y) {
            Some(c) => c,
            None => no_color(),
        }
    }

    open spec fn target_kept(&self, c: TGAColor) -> TGAColor {
        color_kept(c, self.spec_bpp())
    }

    open spec fn target_rest(&self) -> (nat, Seq<u8>) {
        (self.spec_bpp(), upper_channels(self.spec_bytes(), self.spec_bpp()))
    }

    open spec fn target_log(&self) -> Seq<(usize, usize, TGAColor)> {
        self.spec_log()
    }

    fn set(&mut self, x: usize, y: usize, color: &TGAColor) {
        proof {
            use_type_invariant(&*self);
        }
        let ghost before = *self;
        TGAImage::set(self, x, y, *color);
        proof {
            lemma_upper_after_set(before, *self, x as int, y as int, *color);
            let w = before.spec_width() as int;
            let h = before.spec_height() as int;
            assert forall|x2: int, y2: int|
                #[trigger] self.target_pixel(x2, y2) == if x2 == x && y2 == y && x < w && y < h {
                    color_kept(*color, before.spec_bpp())
                } else {
                    before.target_pixel(x2, y2)
                } by {
                lemma_get_after_set(before, *self, x as int, y as int, *color, x2, y2);
                if x2 == x && y2 == y && before.spec_holds(x as int, y as int) {
                    assert(self.spec_get(x2, y2) == Some(color_kept(*color, before.spec_bpp())));
                    assert(self.target_pixel(x2, y2) == color_kept(*color, before.spec_bpp()));
                }
                if x2 != x || y2 != y {
                    assert(self.spec_get(x2, y2) == before.spec_get(x2, y2));
                }
                if x2 == x && y2 == y && x < w && y < h && !before.spec_holds(x as int, y as int) {
                    // An image without bytes has zero bytes per pixel.
                    before.lemma_wf_len();
                    assert(before.spec_bytes().len() == 0);
                    if before.spec_bpp() > 0 {
                        assert(w * h * before.spec_bpp() > 0) by (nonlinear_arith)
                            requires 0 <= x < w, 0 <= y < h, before.spec_bpp() > 0;
                    }
                }
            }
        }
    }

    fn width(&self) -> (r: usize) {
        TGAImage::width(self)
    }

    fn height(&self) -> (r: usize) {
        TGAImage::height(self)
    }
}

/// Reading a pixel back after writing it gives the written colour, made
/// opaque; every other pixel reads as before.
pub proof fn lemma_fb_get_after_set(fb: FrameBuffer, after: FrameBuffer, x: int, y: int, c: TGAColor, x2: int, y2: int)
    requires
        fb.wf(),
        after.spec_width() == fb.spec_width(),
        after.spec_height() == fb.spec_height(),
        after.spec_pixels() == if 0 <= x < fb.spec_width() && 0 <= y < fb.spec_height() {
            fb.spec_pixels().update(x + y * fb.spec_width(), pack(c))
        } else {
            fb.spec_pixels()
        },
    ensures
        after.spec_get(x, y) == if 0 <= x < fb.spec_width() && 0 <= y < fb.spec_height() {
            Some(opaque(c))
        } else {
            None::<TGAColor>
        },
        x2 != x || y2 != y ==> after.spec_get(x2, y2) == fb.spec_get(x2, y2),
{
    let w = fb.spec_width() as int;
    let h = fb.spec_height() as int;
    lemma_unpack_pack(c);
    if 0 <= x < w && 0 <= y < h {
        crate::tgaimage::lemma_pixel_in_bounds(x, y, w, h, 1);
        if 0 <= x2 < w && 0 <= y2 < h && (x2 != x || y2 != y) {
            lemma_distinct_cells(x, y, x2, y2, w);
            crate::tgaimage::lemma_pixel_in_bounds(x2, y2, w, h, 1);
        }
    }
}

/// After `clear_color`, every pixel reads as that colour, made opaque.
pub proof fn lemma_fb_get_after_clear(fb: FrameBuffer, c: TGAColor, x: int, y: int)
    requires
        fb.wf(),
        fb.spec_pixels() == Seq::new(fb.spec_pixels().len(), |i: int| pack(c)),
        0 <= x < fb.spec_width(),
        0 <= y < fb.spec_height(),
    ensures
        fb.spec_get(x, y) == Some(opaque(c)),
{
    crate::tgaimage::lemma_pixel_in_bounds(x, y, fb.spec_width() as int, fb.spec_height() as int, 1);
    lemma_unpack_pack(c);
}

/// The image a frame buffer is saved as shows the buffer's pixels: each
/// reads back with the buffer's r, g and b, and alpha 0, as the image
/// stores no alpha.
pub proof fn lemma_image_shows_buffer(fb: FrameBuffer, img: TGAImage, x: int, y: int)
    requires
        fb.wf(),
        img.spec_width() == fb.spec_width(),
        img.spec_height() == fb.spec_height(),
        img.spec_bpp() == 3,
        img.spec_bytes() == bgr_bytes(fb.spec_pixels()),
    ensures
        img.spec_get(x, y) == match fb.spec_get(x, y) {
            Some(c) => Some(TGAColor { r: c.r, g: c.g, b: c.b, a: 0 }),
            None => None::<TGAColor>,
        },
{
    let w = fb.spec_width() as int;
    let h = fb.spec_height() as int;
    if 0 <= x < w && 0 <= y < h {
        crate::tgaimage::lemma_pixel_in_bounds(x, y, w, h, 1);
        let i = x + y * w;
        let bytes = img.spec_bytes();
        let p = fb.spec_pixels()[i];
        assert(bytes.len() == 3 * (w * h));
        assert((3 * i) / 3 == i && (3 * i) % 3 == 0);
        assert((3 * i + 1) / 3 == i && (3 * i + 1) % 3 == 1);
        assert((3 * i + 2) / 3 == i && (3 * i + 2) % 3 == 2);
        assert(crate::tgaimage::pixel_offset(w, 3, x, y) == 3 * i);
        assert(bytes[3 * i] == (p % 256) as u8);
        assert(bytes[3 * i + 1] == ((p / 256) % 256) as u8);
        assert(bytes[3 * i + 2] == ((p / 65536) % 256) as u8);
    }
}

/// An image is determined by its size, what its pixels show and what
/// writing pixels leaves alone: two images that agree on these hold the
/// same bytes.
pub proof fn lemma_image_determined(a: TGAImage, b: TGAImage)
    requires
        a.wf(),
        b.wf(),
        a.spec_width() == b.spec_width(),
        a.spec_height() == b.spec_height(),
        a.target_rest() == b.target_rest(),
        forall|x: int, y: int| #[trigger] a.target_pixel(x, y) == b.target_pixel(x, y),
    ensures
        a.spec_bytes() == b.spec_bytes(),
{
    let w = a.spec_width() as int;
    let h = a.spec_height() as int;
    let bpp = a.spec_bpp() as int;
    a.lemma_wf_len();
    b.lemma_wf_len();
    assert forall|k: int| 0 <= k < a.spec_bytes().len() implies a.spec_bytes()[k] == b.spec_bytes()[k] by {
        crate::tgaimage::lemma_byte_decompose(k, w, h, bpp);
        let x = crate::tgaimage::byte_x(k, w, bpp);
        let y = crate::tgaimage::byte_y(k, w, bpp);
        let ch = crate::tgaimage::byte_channel(k, bpp);
        if ch < 4 {
            assert(a.target_pixel(x, y) == b.target_pixel(x, y));
        } else {
            assert(upper_channels(a.spec_bytes(), a.spec_bpp())[k] == upper_channels(b.spec_bytes(), b.spec_bpp())[k]);
        }
    }
    assert(a.spec_bytes() =~= b.spec_bytes());
}

} // verus!
