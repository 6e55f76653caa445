use vstd::prelude::*;

use crate::tgaformat::{TgaFault, decode_tga, encode_tga, lemma_read_len, lemma_tga_roundtrip, tga_decode, tga_file};

verus! {

#[verifier::external_type_specification]
#[verifier::external_body]
pub struct ExIoError(std::io::Error);

/// `std::io::Error::from(std::io::ErrorKind::UnexpectedEof)`, the error a
/// read that runs out of input gives.  Nothing is claimed of the value.
#[verifier::external_body]
fn unexpected_eof() -> std::io::Error {
    std::io::Error::from(std::io::ErrorKind::UnexpectedEof)
}

/// Why reading or writing a TGA file failed.
#[derive(Debug)]
pub enum TgaError {
    /// The file could not be opened, read or written, or it ended early.
    Io(std::io::Error),
    /// The header describes no image this library handles.
    BadHeader(&'static str),
    /// The data type code is not 2, 3, 10 or 11.
    UnsupportedFormat(u8),
    /// The pixel data does not fit the header.
    BadData(&'static str),
}

impl From<std::io::Error> for TgaError {
    fn from(e: std::io::Error) -> (r: Self)
        ensures
            r == TgaError::Io(e),
    {
        TgaError::Io(e)
    }
}

impl vstd::std_specs::convert::FromSpecImpl<std::io::Error> for TgaError {
    open spec fn obeys_from_spec() -> bool {
        true
    }

    open spec fn from_spec(v: std::io::Error) -> Self {
        TgaError::Io(v)
    }
}

/// The error the reader reports for a fault of the file's bytes.
pub open spec fn reports(e: TgaError, f: TgaFault) -> bool {
    match f {
        TgaFault::Truncated => e is Io,
        TgaFault::Unsupported(code) => e == TgaError::UnsupportedFormat(code),
        TgaFault::BadHeader => e == TgaError::BadHeader("bad bpp or width/height value"),
        TgaFault::Overrun => e == TgaError::BadData("too many pixels read"),
    }
}

/// `Display` of `std::io::Error`.  Its text comes from the system, so
/// nothing is claimed of it.
#[verifier::external_body]
fn io_error_text(e: &std::io::Error) -> String {
    format!("{}", e)
}

pub open spec fn digit_char(d: nat) -> char {
    if d == 0 {
        '0'
    } else if d == 1 {
        '1'
    } else if d == 2 {
        '2'
    } else if d == 3 {
        '3'
    } else if d == 4 {
        '4'
    } else if d == 5 {
        '5'
    } else if d == 6 {
        '6'
    } else if d == 7 {
        '7'
    } else if d == 8 {
        '8'
    } else {
        '9'
    }
}

/// The decimal digits of `n`, most significant first, with no leading zero.
pub open spec fn decimal_text(n: nat) -> Seq<char>
    decreases n,
{
    if n < 10 {
        seq![digit_char(n)]
    } else {
        decimal_text(n / 10) + seq![digit_char(n % 10)]
    }
}

/// The digit `d` as text.
fn digit_text(d: u8) -> (s: &'static str)
    requires
        d < 10,
    ensures
        s@ == seq![digit_char(d as nat)],
{
    proof {
        reveal_strlit("0");
        reveal_strlit("1");
        reveal_strlit("2");
        reveal_strlit("3");
        reveal_strlit("4");
        reveal_strlit("5");
        reveal_strlit("6");
        reveal_strlit("7");
        reveal_strlit("8");
        reveal_strlit("9");
    }
    match d {
        0 => "0",
        1 => "1",
        2 => "2",
        3 => "3",
        4 => "4",
        5 => "5",
        6 => "6",
        7 => "7",
        8 => "8",
        _ => "9",
    }
}

/// Appends the decimal digits of `n` to `s`.
fn push_decimal(s: &mut String, n: u8)
    ensures
        final(s)@ == old(s)@ + decimal_text(n as nat),
{
    proof {
        reveal_with_fuel(decimal_text, 3);
    }
    if n >= 100 {
        s.append(digit_text(n / 100));
        s.append(digit_text(n / 10 % 10));
        s.append(digit_text(n % 10));
        assert(decimal_text(n as nat) =~= seq![digit_char((n / 100) as nat), digit_char((n / 10 % 10) as nat), digit_char((n % 10) as nat)]);
    } else if n >= 10 {
        s.append(digit_text(n / 10));
        s.append(digit_text(n % 10));
        assert(decimal_text(n as nat) =~= seq![digit_char((n / 10) as nat), digit_char((n % 10) as nat)]);
    } else {
        s.append(digit_text(n));
    }
}

impl TgaError {
    /// The error's text: what went wrong, then the detail.
    pub fn to_string(&self) -> (s: String)
        ensures
            match self {
                TgaError::Io(_) => s@.len() >= "I/O error: "@.len() && s@.take(
                    "I/O error: "@.len() as int,
                ) == "I/O error: "@,
                TgaError::BadHeader(msg) => s@ == "Invalid TGA header: "@ + msg@,
                TgaError::UnsupportedFormat(code) => s@ == "Unsupported TGA format (data type code "@
                    + decimal_text(*code as nat) + "). Only 2, 3, 10, 11 are supported."@,
                TgaError::BadData(msg) => s@ == "Corrupt TGA data: "@ + msg@,
            },
    {
        match self {
            TgaError::Io(e) => {
                let mut s = String::from_str("I/O error: ");
                let text = io_error_text(e);
                s.append(text.as_str());
                assert(s@.take("I/O error: "@.len() as int) =~= "I/O error: "@);
                s
            },
            TgaError::BadHeader(msg) => {
                let mut s = String::from_str("Invalid TGA header: ");
                s.append(msg);
                s
            },
            TgaError::UnsupportedFormat(code) => {
                let mut s = String::from_str("Unsupported TGA format (data type code ");
                push_decimal(&mut s, *code);
                s.append("). Only 2, 3, 10, 11 are supported.");
                s
            },
            TgaError::BadData(msg) => {
                let mut s = String::from_str("Corrupt TGA data: ");
                s.append(msg);
                s
            },
        }
    }
}

/// An 8-bit-per-channel colour.  Images store the channels in the order
/// b, g, r, a and keep only as many of them as they have bytes per pixel.
#[derive(Clone, Copy, Debug, PartialEq, Eq, Structural)]
pub struct TGAColor {
    pub r: u8,
    pub g: u8,
    pub b: u8,
    pub a: u8,
}

impl TGAColor {
    pub fn new(r: u8, g: u8, b: u8, a: u8) -> (c: Self)
        ensures
            c == (TGAColor { r, g, b, a }),
    {
        TGAColor { r, g, b, a }
    }
}

impl Default for TGAColor {
    /// Fully transparent black.
    fn default() -> (c: Self)
        ensures
            c == (TGAColor { r: 0, g: 0, b: 0, a: 0 }),
    {
        TGAColor { r: 0, g: 0, b: 0, a: 0 }
    }
}


/// The pixel formats an image can be created with.
pub enum TGAImageType {
    Grayscale,
    RGB,
    RGBA,
}

impl TGAImageType {
    /// Bytes per pixel of the format: 1, 3 or 4.
    pub fn bytes_per_pixel(&self) -> (n: u8)
        ensures
            n == match self {
                TGAImageType::Grayscale => 1u8,
                TGAImageType::RGB => 3u8,
                TGAImageType::RGBA => 4u8,
            },
    {
        match self {
            TGAImageType::Grayscale => 1,
            TGAImageType::RGB => 3,
            TGAImageType::RGBA => 4,
        }
    }
}

/// Byte offset of the first channel of pixel (x, y) in a row-major buffer
/// of `w` pixels per row and `bpp` bytes per pixel.
pub open spec fn pixel_offset(w: int, bpp: int, x: int, y: int) -> int {
    (x + y * w) * bpp
}

/// The colour read from the `bpp` bytes at `idx`: channels b, g, r, a in
/// that order, the ones the pixel does not store reading as 0.
pub open spec fn color_at(data: Seq<u8>, idx: int, bpp: nat) -> TGAColor {
    TGAColor {
        b: if bpp > 0 { data[idx] } else { 0 },
        g: if bpp > 1 { data[idx + 1] } else { 0 },
        r: if bpp > 2 { data[idx + 2] } else { 0 },
        a: if bpp > 3 { data[idx + 3] } else { 0 },
    }
}

/// `data` with the channels of `c` that a `bpp`-byte pixel stores written
/// at `idx` (b, g, r, a in that order).
pub open spec fn color_written(data: Seq<u8>, idx: int, bpp: nat, c: TGAColor) -> Seq<u8> {
    let d0 = if bpp > 0 { data.update(idx, c.b) } else { data };
    let d1 = if bpp > 1 { d0.update(idx + 1, c.g) } else { d0 };
    let d2 = if bpp > 2 { d1.update(idx + 2, c.r) } else { d1 };
    if bpp > 3 { d2.update(idx + 3, c.a) } else { d2 }
}

/// Channel `ch` of a colour in storage order b, g, r, a.
pub open spec fn channel(c: TGAColor, ch: int) -> u8 {
    if ch == 0 {
        c.b
    } else if ch == 1 {
        c.g
    } else if ch == 2 {
        c.r
    } else {
        c.a
    }
}

/// The bytes of an image filled with `c`: the first four channels of every
/// pixel take the colour's b, g, r, a; further channels keep their bytes.
pub open spec fn filled(data: Seq<u8>, bpp: nat, c: TGAColor) -> Seq<u8> {
    Seq::new(
        data.len(),
        |k: int|
            if byte_channel(k, bpp as int) < 4 {
                channel(c, byte_channel(k, bpp as int))
            } else {
                data[k]
            },
    )
}

/// What a `bpp`-byte pixel keeps of a colour: the channels it cannot store
/// read back as 0.
pub open spec fn color_kept(c: TGAColor, bpp: nat) -> TGAColor {
    TGAColor {
        b: if bpp > 0 { c.b } else { 0 },
        g: if bpp > 1 { c.g } else { 0 },
        r: if bpp > 2 { c.r } else { 0 },
        a: if bpp > 3 { c.a } else { 0 },
    }
}

pub proof fn lemma_pixel_in_bounds(x: int, y: int, w: int, h: int, bpp: int)
    requires
        0 <= x < w,
        0 <= y < h,
        1 <= bpp,
    ensures
        0 <= y * w <= x + y * w,
        x + y * w < w * h,
        w * h <= w * h * bpp,
        0 <= (x + y * w) * bpp,
        (x + y * w) * bpp + bpp <= w * h * bpp,
{
    assert(0 <= y * w) by (nonlinear_arith)
        requires 0 <= y, 0 <= w;
    assert(x + y * w + 1 <= w * h) by (nonlinear_arith)
        requires 0 <= x < w, 0 <= y < h;
    assert(w * h <= w * h * bpp) by (nonlinear_arith)
        requires 0 <= w * h, 1 <= bpp;
    assert((x + y * w) * bpp + bpp <= w * h * bpp) by (nonlinear_arith)
        requires x + y * w + 1 <= w * h, 1 <= bpp, 0 <= x + y * w;
    assert(0 <= (x + y * w) * bpp) by (nonlinear_arith)
        requires 0 <= x + y * w, 1 <= bpp;
}

/// Column of the pixel that byte `k` belongs to.
pub open spec fn byte_x(k: int, w: int, bpp: int) -> int {
    (k / bpp) % w
}

/// Row of the pixel that byte `k` belongs to.
pub open spec fn byte_y(k: int, w: int, bpp: int) -> int {
    (k / bpp) / w
}

/// Channel of byte `k` within its pixel.
pub open spec fn byte_channel(k: int, bpp: int) -> int {
    k % bpp
}

/// The bytes of a `w`-pixel-wide image mirrored left to right.
pub open spec fn flipped_h(data: Seq<u8>, w: nat, bpp: nat) -> Seq<u8> {
    Seq::new(
        data.len(),
        |k: int|
            data[pixel_offset(w as int, bpp as int, w - 1 - byte_x(k, w as int, bpp as int), byte_y(k, w as int, bpp as int))
                + byte_channel(k, bpp as int)],
    )
}

/// The bytes of a `w` by `h` image mirrored top to bottom.
pub open spec fn flipped_v(data: Seq<u8>, w: nat, h: nat, bpp: nat) -> Seq<u8> {
    Seq::new(
        data.len(),
        |k: int|
            data[pixel_offset(w as int, bpp as int, byte_x(k, w as int, bpp as int), h - 1 - byte_y(k, w as int, bpp as int))
                + byte_channel(k, bpp as int)],
    )
}

/// A byte index below `w * h * bpp` names a channel of a pixel inside the image.
pub proof fn lemma_byte_decompose(k: int, w: int, h: int, bpp: int)
    requires
        0 <= k < w * h * bpp,
        0 <= w,
        0 <= h,
        0 <= bpp,
    ensures
        0 < w,
        0 < h,
        0 < bpp,
        0 <= byte_x(k, w, bpp) < w,
        0 <= byte_y(k, w, bpp) < h,
        0 <= byte_channel(k, bpp) < bpp,
        k == pixel_offset(w, bpp, byte_x(k, w, bpp), byte_y(k, w, bpp)) + byte_channel(k, bpp),
{
    if w == 0 || h == 0 || bpp == 0 {
        assert(w * h * bpp == 0) by (nonlinear_arith)
            requires w == 0 || h == 0 || bpp == 0;
    }
    let p = k / bpp;
    let b = k % bpp;
    vstd::arithmetic::div_mod::lemma_fundamental_div_mod(k, bpp);
    vstd::arithmetic::div_mod::lemma_mod_pos_bound(k, bpp);
    assert(0 <= p < w * h) by (nonlinear_arith)
        requires k == bpp * p + b, 0 <= b < bpp, 0 <= k < w * h * bpp, 0 < bpp;
    vstd::arithmetic::div_mod::lemma_fundamental_div_mod(p, w);
    vstd::arithmetic::div_mod::lemma_mod_pos_bound(p, w);
    let x = p % w;
    let y = p / w;
    assert(0 <= y < h) by (nonlinear_arith)
        requires p == w * y + x, 0 <= x < w, 0 <= p < w * h;
    assert(k == (x + y * w) * bpp + b) by (nonlinear_arith)
        requires k == bpp * p + b, p == w * y + x;
}

/// The byte of channel `b` of pixel (x, y) decomposes back into x, y and b.
pub proof fn lemma_byte_compose(x: int, y: int, b: int, w: int, bpp: int)
    requires
        0 <= x < w,
        0 <= y,
        0 <= b < bpp,
    ensures
        byte_x(pixel_offset(w, bpp, x, y) + b, w, bpp) == x,
        byte_y(pixel_offset(w, bpp, x, y) + b, w, bpp) == y,
        byte_channel(pixel_offset(w, bpp, x, y) + b, bpp) == b,
{
    let k = (x + y * w) * bpp + b;
    assert(k == (x + y * w) * bpp + b);
    vstd::arithmetic::div_mod::lemma_fundamental_div_mod_converse(k, bpp, x + y * w, b);
    assert(x + y * w == y * w + x);
    vstd::arithmetic::div_mod::lemma_fundamental_div_mod_converse(x + y * w, w, y, x);
}

/// Channel `c` of pixel (x, y) of the mirrored bytes is channel `c` of
/// pixel (w - 1 - x, y) of the bytes before mirroring.
pub proof fn lemma_flipped_h_at(data: Seq<u8>, w: nat, h: nat, bpp: nat, x: int, y: int, c: int)
    requires
        data.len() == w * h * bpp,
        0 <= x < w,
        0 <= y < h,
        0 <= c < bpp,
    ensures
        flipped_h(data, w, bpp)[pixel_offset(w as int, bpp as int, x, y) + c]
            == data[pixel_offset(w as int, bpp as int, w - 1 - x, y) + c],
        0 <= pixel_offset(w as int, bpp as int, x, y) + c < data.len(),
{
    lemma_byte_compose(x, y, c, w as int, bpp as int);
    lemma_pixel_in_bounds(x, y, w as int, h as int, bpp as int);
}

/// Channel `c` of pixel (x, y) of the top-to-bottom mirror is channel `c` of
/// pixel (x, h - 1 - y) of the bytes before mirroring.
pub proof fn lemma_flipped_v_at(data: Seq<u8>, w: nat, h: nat, bpp: nat, x: int, y: int, c: int)
    requires
        data.len() == w * h * bpp,
        0 <= x < w,
        0 <= y < h,
        0 <= c < bpp,
    ensures
        flipped_v(data, w, h, bpp)[pixel_offset(w as int, bpp as int, x, y) + c]
            == data[pixel_offset(w as int, bpp as int, x, h - 1 - y) + c],
        0 <= pixel_offset(w as int, bpp as int, x, y) + c < data.len(),
{
    lemma_byte_compose(x, y, c, w as int, bpp as int);
    lemma_pixel_in_bounds(x, y, w as int, h as int, bpp as int);
}

/// Mirroring left to right twice gives back the bytes it started from.
pub proof fn lemma_flip_h_twice(data: Seq<u8>, w: nat, h: nat, bpp: nat)
    requires
        data.len() == w * h * bpp,
    ensures
        flipped_h(flipped_h(data, w, bpp), w, bpp) == data,
{
    let once = flipped_h(data, w, bpp);
    let twice = flipped_h(once, w, bpp);
    assert forall|k: int| 0 <= k < data.len() implies twice[k] == data[k] by {
        lemma_byte_decompose(k, w as int, h as int, bpp as int);
        let x = byte_x(k, w as int, bpp as int);
        let y = byte_y(k, w as int, bpp as int);
        let c = byte_channel(k, bpp as int);
        lemma_flipped_h_at(once, w, h, bpp, x, y, c);
        lemma_flipped_h_at(data, w, h, bpp, w - 1 - x, y, c);
    }
    assert(twice =~= data);
}

/// Mirroring top to bottom twice gives back the bytes it started from.
pub proof fn lemma_flip_v_twice(data: Seq<u8>, w: nat, h: nat, bpp: nat)
    requires
        data.len() == w * h * bpp,
    ensures
        flipped_v(flipped_v(data, w, h, bpp), w, h, bpp) == data,
{
    let once = flipped_v(data, w, h, bpp);
    let twice = flipped_v(once, w, h, bpp);
    assert forall|k: int| 0 <= k < data.len() implies twice[k] == data[k] by {
        lemma_byte_decompose(k, w as int, h as int, bpp as int);
        let x = byte_x(k, w as int, bpp as int);
        let y = byte_y(k, w as int, bpp as int);
        let c = byte_channel(k, bpp as int);
        lemma_flipped_v_at(once, w, h, bpp, x, y, c);
        lemma_flipped_v_at(data, w, h, bpp, x, h - 1 - y, c);
    }
    assert(twice =~= data);
}

/// Channels of two different pixels live at different bytes.
pub proof fn lemma_distinct_pixels(x: int, y: int, c: int, x2: int, y2: int, c2: int, w: int, bpp: int)
    requires
        0 <= x < w,
        0 <= y,
        0 <= c < bpp,
        0 <= x2 < w,
        0 <= y2,
        0 <= c2 < bpp,
        x != x2 || y != y2,
    ensures
        pixel_offset(w, bpp, x, y) + c != pixel_offset(w, bpp, x2, y2) + c2,
{
    lemma_byte_compose(x, y, c, w, bpp);
    lemma_byte_compose(x2, y2, c2, w, bpp);
}

/// Channel `c2` of pixel (x2, y2) differs from the first four channel
/// bytes of another pixel (x, y).
proof fn lemma_distinct_channel(x: int, y: int, x2: int, y2: int, c2: int, w: int, bpp: int)
    requires
        0 <= x < w,
        0 <= y,
        0 <= x2 < w,
        0 <= y2,
        0 <= c2,
        x != x2 || y != y2,
    ensures
        c2 < bpp ==> {
            &&& 0 < bpp ==> pixel_offset(w, bpp, x, y) != pixel_offset(w, bpp, x2, y2) + c2
            &&& 1 < bpp ==> pixel_offset(w, bpp, x, y) + 1 != pixel_offset(w, bpp, x2, y2) + c2
            &&& 2 < bpp ==> pixel_offset(w, bpp, x, y) + 2 != pixel_offset(w, bpp, x2, y2) + c2
            &&& 3 < bpp ==> pixel_offset(w, bpp, x, y) + 3 != pixel_offset(w, bpp, x2, y2) + c2
        },
{
    if c2 < bpp {
        if 0 < bpp {
            lemma_distinct_pixels(x, y, 0, x2, y2, c2, w, bpp);
        }
        if 1 < bpp {
            lemma_distinct_pixels(x, y, 1, x2, y2, c2, w, bpp);
        }
        if 2 < bpp {
            lemma_distinct_pixels(x, y, 2, x2, y2, c2, w, bpp);
        }
        if 3 < bpp {
            lemma_distinct_pixels(x, y, 3, x2, y2, c2, w, bpp);
        }
    }
}

/// An uncompressed image: `w * h` pixels of `bpp` bytes each, stored row by
/// row from the top-left corner, each pixel as b, g, r, a.
pub struct TGAImage {
    w: usize,
    h: usize,
    bpp: u8,
    data: Vec<u8>,
    /// The `set` calls made on the image so far, in order.
    log: Ghost<Seq<(usize, usize, TGAColor)>>,
}

impl TGAImage {
    /// The buffer always holds exactly `w * h * bpp` bytes.
    #[verifier::type_invariant]
    pub closed spec fn wf(&self) -> bool {
        self.data.len() == self.w * self.h * self.bpp
    }

    pub closed spec fn spec_width(&self) -> nat {
        self.w as nat
    }

    /// A well-formed image holds `width * height * bpp` bytes.
    pub proof fn lemma_wf_len(&self)
        requires
            self.wf(),
        ensures
            self.spec_bytes().len() == self.spec_width() * self.spec_height() * self.spec_bpp(),
    {
    }

    pub closed spec fn spec_height(&self) -> nat {
        self.h as nat
    }

    pub closed spec fn spec_bpp(&self) -> nat {
        self.bpp as nat
    }

    /// The pixel bytes, row by row.
    pub closed spec fn spec_bytes(&self) -> Seq<u8> {
        self.data@
    }

    /// The position and colour of each `set` call made on the image, in
    /// order.
    pub closed spec fn spec_log(&self) -> Seq<(usize, usize, TGAColor)> {
        self.log@
    }

    /// True when (x, y) names a stored pixel.
    pub open spec fn spec_holds(&self, x: int, y: int) -> bool {
        &&& self.spec_bytes().len() != 0
        &&& 0 <= x < self.spec_width()
        &&& 0 <= y < self.spec_height()
    }

    /// The colour `get` returns at (x, y).
    pub open spec fn spec_get(&self, x: int, y: int) -> Option<TGAColor> {
        if self.spec_holds(x, y) {
            Some(
                color_at(
                    self.spec_bytes(),
                    pixel_offset(self.spec_width() as int, self.spec_bpp() as int, x, y),
                    self.spec_bpp(),
                ),
            )
        } else {
            None
        }
    }

    /// The bytes after `set(x, y, c)`.
    pub open spec fn spec_set_bytes(&self, x: int, y: int, c: TGAColor) -> Seq<u8> {
        if self.spec_holds(x, y) {
            color_written(
                self.spec_bytes(),
                pixel_offset(self.spec_width() as int, self.spec_bpp() as int, x, y),
                self.spec_bpp(),
                c,
            )
        } else {
            self.spec_bytes()
        }
    }

    /// The image whose pixel bytes, row by row, are `data`.
    pub(crate) fn from_bytes(w: usize, h: usize, bpp: u8, data: Vec<u8>) -> (img: Self)
        requires
            data.len() == w * h * bpp,
        ensures
            img.wf(),
            img.spec_width() == w,
            img.spec_height() == h,
            img.spec_bpp() == bpp,
            img.spec_bytes() == data@,
    {
        TGAImage { w, h, bpp, data, log: Ghost(Seq::empty()) }
    }

    /// A `w` by `h` image of `bpp` bytes per pixel, every byte 0.
    pub fn new(w: usize, h: usize, bpp: u8) -> (img: Self)
        requires
            w * h * bpp <= usize::MAX,
        ensures
            img.wf(),
            img.spec_width() == w,
            img.spec_height() == h,
            img.spec_bpp() == bpp,
            img.spec_bytes() == Seq::new((w * h * bpp) as nat, |i: int| 0u8),
    {
        if bpp >= 1 {
            assert(w * h <= w * h * bpp) by (nonlinear_arith)
                requires bpp >= 1;
        }
        let n: usize = if bpp == 0 { 0 } else { w * h * (bpp as usize) };
        assert(n == w * h * bpp) by (nonlinear_arith)
            requires bpp == 0 ==> n == 0, bpp != 0 ==> n == w * h * (bpp as usize);
        let data: Vec<u8> = vec![0u8; n];
        let img = TGAImage { w, h, bpp, data, log: Ghost(Seq::empty()) };
        assert(img.data@ == Seq::new((w * h * bpp) as nat, |i: int| 0u8));
        img
    }

    pub fn width(&self) -> (r: usize)
        ensures
            r == self.spec_width(),
    {
        self.w
    }

    pub fn height(&self) -> (r: usize)
        ensures
            r == self.spec_height(),
    {
        self.h
    }

    pub fn bytes_per_pixel(&self) -> (r: u8)
        ensures
            r == self.spec_bpp(),
    {
        self.bpp
    }

    /// The colour of pixel (x, y); `None` outside the image or when the image
    /// stores no bytes.
    pub fn get(&self, x: usize, y: usize) -> (r: Option<TGAColor>)
        ensures
            r == self.spec_get(x as int, y as int),
    {
        proof {
            use_type_invariant(self);
        }
        if self.data.len() == 0 || x >= self.w || y >= self.h {
            return None;
        }
        let bpp = self.bpp;
        proof {
            if bpp == 0 {
                assert(self.w * self.h * 0 == 0);
            }
            lemma_pixel_in_bounds(x as int, y as int, self.w as int, self.h as int, bpp as int);
        }
        let idx: usize = (x + y * self.w) * (bpp as usize);
        let mut c = TGAColor { r: 0, g: 0, b: 0, a: 0 };
        if bpp > 0 {
            c.b = self.data[idx];
        }
        if bpp > 1 {
            c.g = self.data[idx + 1];
        }
        if bpp > 2 {
            c.r = self.data[idx + 2];
        }
        if bpp > 3 {
            c.a = self.data[idx + 3];
        }
        Some(c)
    }

    /// Writes the channels of `c` that the pixel stores; does nothing outside
    /// the image or when the image stores no bytes.
    pub fn set(&mut self, x: usize, y: usize, c: TGAColor)
        ensures
            final(self).wf(),
            final(self).spec_width() == old(self).spec_width(),
            final(self).spec_height() == old(self).spec_height(),
            final(self).spec_bpp() == old(self).spec_bpp(),
            final(self).spec_bytes() == old(self).spec_set_bytes(x as int, y as int, c),
            final(self).spec_log() == old(self).spec_log().push((x, y, c)),
    {
        proof {
            use_type_invariant(&*self);
            self.log@ = self.log@.push((x, y, c));
        }
        if self.data.len() == 0 || x >= self.w || y >= self.h {
            proof {
                use_type_invariant(&*self);
            }
            return;
        }
        let bpp = self.bpp;
        proof {
            if bpp == 0 {
                assert(self.w * self.h * 0 == 0);
            }
            lemma_pixel_in_bounds(x as int, y as int, self.w as int, self.h as int, bpp as int);
        }
        let idx: usize = (x + y * self.w) * (bpp as usize);
        if bpp > 0 {
            self.data[idx] = c.b;
        }
        if bpp > 1 {
            self.data[idx + 1] = c.g;
        }
        if bpp > 2 {
            self.data[idx + 2] = c.r;
        }
        if bpp > 3 {
            self.data[idx + 3] = c.a;
        }
        proof {
            use_type_invariant(&*self);
        }
    }

    /// Paints every pixel with `c`, as far as the pixels store its channels.
    pub fn set_background_color(&mut self, c: &TGAColor)
        ensures
            final(self).wf(),
            final(self).spec_width() == old(self).spec_width(),
            final(self).spec_height() == old(self).spec_height(),
            final(self).spec_bpp() == old(self).spec_bpp(),
            final(self).spec_bytes() == filled(old(self).spec_bytes(), old(self).spec_bpp(), *c),
            forall|x: int, y: int|
                #[trigger] final(self).spec_get(x, y) == if old(self).spec_holds(x, y) {
                    Some(color_kept(*c, old(self).spec_bpp()))
                } else {
                    None::<TGAColor>
                },
    {
        proof {
            use_type_invariant(&*self);
        }
        let n = self.data.len();
        let bpp = self.bpp as usize;
        let ghost old_data = self.data@;
        let mut k: usize = 0;
        while k < n
            invariant
                n == self.data@.len(),
                n == self.w * self.h * self.bpp,
                bpp == self.bpp,
                self.w == old(self).w,
                self.h == old(self).h,
                self.bpp == old(self).bpp,
                old_data == old(self).data@,
                old_data.len() == n,
                k <= n,
                forall|i: int| 0 <= i < k ==> #[trigger] self.data@[i] == filled(old_data, bpp as nat, *c)[i],
                forall|i: int| k <= i < n ==> #[trigger] self.data@[i] == old_data[i],
            decreases n - k,
        {
            proof {
                if bpp == 0 {
                    assert(self.w * self.h * 0 == 0);
                }
            }
            let ch = k % bpp;
            if ch == 0 {
                self.data[k] = c.b;
            } else if ch == 1 {
                self.data[k] = c.g;
            } else if ch == 2 {
                self.data[k] = c.r;
            } else if ch == 3 {
                self.data[k] = c.a;
            }
            assert(ch == byte_channel(k as int, bpp as int));
            k = k + 1;
        }
        assert(self.data@ =~= filled(old_data, bpp as nat, *c));
        proof {
            let w = self.w as int;
            let h = self.h as int;
            let b = bpp as int;
            assert forall|x: int, y: int|
                #[trigger] self.spec_get(x, y) == if old(self).spec_holds(x, y) {
                    Some(color_kept(*c, bpp as nat))
                } else {
                    None::<TGAColor>
                } by {
                if old(self).spec_holds(x, y) {
                    if b > 0 {
                        lemma_byte_compose(x, y, 0, w, b);
                    }
                    if b > 1 {
                        lemma_byte_compose(x, y, 1, w, b);
                    }
                    if b > 2 {
                        lemma_byte_compose(x, y, 2, w, b);
                    }
                    if b > 3 {
                        lemma_byte_compose(x, y, 3, w, b);
                    }
                    if b == 0 {
                        assert(w * h * 0 == 0);
                    }
                    lemma_pixel_in_bounds(x, y, w, h, b);
                }
            }
        }
    }

    /// Mirrors the image left to right.
    pub fn flip_horizontally(&mut self)
        ensures
            final(self).spec_width() == old(self).spec_width(),
            final(self).spec_height() == old(self).spec_height(),
            final(self).spec_bpp() == old(self).spec_bpp(),
            final(self).spec_bytes() == flipped_h(
                old(self).spec_bytes(),
                old(self).spec_width(),
                old(self).spec_bpp(),
            ),
            forall|x: int, y: int|
                #[trigger] final(self).spec_get(x, y) == old(self).spec_get(
                    old(self).spec_width() - 1 - x,
                    y,
                ),
    {
        proof {
            use_type_invariant(&*self);
        }
        let n = self.data.len();
        let w = self.w;
        let bpp = self.bpp as usize;
        let ghost old_data = self.data@;
        let h = self.h;
        let mut out: Vec<u8> = Vec::with_capacity(n);
        let mut k: usize = 0;
        while k < n
            invariant
                n == self.data@.len(),
                n == w * h * bpp,
                old_data == self.data@,
                w == self.w,
                h == self.h,
                bpp == self.bpp,
                k <= n,
                out@ == flipped_h(old_data, w as nat, bpp as nat).subrange(0, k as int),
            decreases n - k,
        {
            proof {
                lemma_byte_decompose(k as int, w as int, h as int, bpp as int);
            }
            let p = k / bpp;
            let b = k % bpp;
            let x = p % w;
            let y = p / w;
            proof {
                lemma_pixel_in_bounds((w - 1 - x) as int, y as int, w as int, h as int, bpp as int);
            }
            let src = ((w - 1 - x) + y * w) * bpp + b;
            out.push(self.data[src]);
            proof {
                assert(out@ =~= flipped_h(old_data, w as nat, bpp as nat).subrange(0, k + 1));
            }
            k = k + 1;
        }
        assert(out@ =~= flipped_h(old_data, w as nat, bpp as nat));
        self.data = out;
        proof {
            assert forall|x: int, y: int|
                #[trigger] self.spec_get(x, y) == old(self).spec_get(w - 1 - x, y) by {
                if self.spec_holds(x, y) {
                    let bp = bpp as nat;
                    if bp > 0 {
                        lemma_flipped_h_at(old_data, w as nat, h as nat, bp, x, y, 0);
                    }
                    if bp > 1 {
                        lemma_flipped_h_at(old_data, w as nat, h as nat, bp, x, y, 1);
                    }
                    if bp > 2 {
                        lemma_flipped_h_at(old_data, w as nat, h as nat, bp, x, y, 2);
                    }
                    if bp > 3 {
                        lemma_flipped_h_at(old_data, w as nat, h as nat, bp, x, y, 3);
                    }
                }
            }
        }
    }

    /// Mirrors the image top to bottom.
    pub fn flip_vertically(&mut self)
        ensures
            final(self).spec_width() == old(self).spec_width(),
            final(self).spec_height() == old(self).spec_height(),
            final(self).spec_bpp() == old(self).spec_bpp(),
            final(self).spec_bytes() == flipped_v(
                old(self).spec_bytes(),
                old(self).spec_width(),
                old(self).spec_height(),
                old(self).spec_bpp(),
            ),
            forall|x: int, y: int|
                #[trigger] final(self).spec_get(x, y) == old(self).spec_get(
                    x,
                    old(self).spec_height() - 1 - y,
                ),
    {
        proof {
            use_type_invariant(&*self);
        }
        let n = self.data.len();
        let w = self.w;
        let h = self.h;
        let bpp = self.bpp as usize;
        let ghost old_data = self.data@;
        let mut out: Vec<u8> = Vec::with_capacity(n);
        let mut k: usize = 0;
        while k < n
            invariant
                n == self.data@.len(),
                n == w * h * bpp,
                old_data == self.data@,
                w == self.w,
                h == self.h,
                bpp == self.bpp,
                k <= n,
                out@ == flipped_v(old_data, w as nat, h as nat, bpp as nat).subrange(0, k as int),
            decreases n - k,
        {
            proof {
                lemma_byte_decompose(k as int, w as int, h as int, bpp as int);
            }
            let p = k / bpp;
            let b = k % bpp;
            let x = p % w;
            let y = p / w;
            proof {
                lemma_pixel_in_bounds(x as int, (h - 1 - y) as int, w as int, h as int, bpp as int);
            }
            let src = (x + (h - 1 - y) * w) * bpp + b;
            out.push(self.data[src]);
            proof {
                assert(out@ =~= flipped_v(old_data, w as nat, h as nat, bpp as nat).subrange(0, k + 1));
            }
            k = k + 1;
        }
        assert(out@ =~= flipped_v(old_data, w as nat, h as nat, bpp as nat));
        self.data = out;
        proof {
            assert forall|x: int, y: int|
                #[trigger] self.spec_get(x, y) == old(self).spec_get(x, h - 1 - y) by {
                if self.spec_holds(x, y) {
                    let bp = bpp as nat;
                    if bp > 0 {
                        lemma_flipped_v_at(old_data, w as nat, h as nat, bp, x, y, 0);
                    }
                    if bp > 1 {
                        lemma_flipped_v_at(old_data, w as nat, h as nat, bp, x, y, 1);
                    }
                    if bp > 2 {
                        lemma_flipped_v_at(old_data, w as nat, h as nat, bp, x, y, 2);
                    }
                    if bp > 3 {
                        lemma_flipped_v_at(old_data, w as nat, h as nat, bp, x, y, 3);
                    }
                }
            }
        }
    }

    /// The image a TGA file holds, as `tga_decode` describes it: rows top
    /// first, pixels left to right.
    pub fn from_tga_bytes(bytes: &[u8]) -> (r: Result<TGAImage, TgaError>)
        ensures
            match tga_decode(bytes@) {
                Ok((w, h, bpp, d)) => r matches Ok(img) && img.wf() && img.spec_width() == w
                    && img.spec_height() == h && img.spec_bpp() == bpp && img.spec_bytes() == d,
                Err(f) => r matches Err(e) && reports(e, f),
            },
    {
        match decode_tga(bytes) {
            Ok((w, h, bpp, desc, data)) => {
                proof {
                    lemma_read_len(bytes@);
                }
                let mut img = TGAImage { w, h, bpp, data, log: Ghost(Seq::empty()) };
                if desc & 0x20 == 0 {
                    img.flip_vertically();
                }
                if desc & 0x10 != 0 {
                    img.flip_horizontally();
                }
                proof {
                    use_type_invariant(&img);
                }
                Ok(img)
            },
            Err(TgaFault::Truncated) => Err(TgaError::Io(unexpected_eof())),
            Err(TgaFault::Unsupported(code)) => Err(TgaError::UnsupportedFormat(code)),
            Err(TgaFault::BadHeader) => Err(TgaError::BadHeader("bad bpp or width/height value")),
            Err(TgaFault::Overrun) => Err(TgaError::BadData("too many pixels read")),
        }
    }

    /// The bytes of the TGA file for this image.  `vflip` marks the rows as
    /// stored bottom first; `rle` stores the pixels in run-length packets.
    /// Only images of 1, 3 or 4 bytes per pixel can be written.
    pub fn to_tga_bytes(&self, vflip: bool, rle: bool) -> (r: Result<Vec<u8>, TgaError>)
        ensures
            !(self.spec_bpp() == 1 || self.spec_bpp() == 3 || self.spec_bpp() == 4) ==> r == Err::<
                Vec<u8>,
                TgaError,
            >(TgaError::BadHeader("invalid bytes per pixel: must be 1 (grayscale), 3 (RGB), or 4 (RGBA)")),
            self.spec_bpp() == 1 || self.spec_bpp() == 3 || self.spec_bpp() == 4 ==> (r matches Ok(v)
                && v@ == tga_file(
                self.spec_width(),
                self.spec_height(),
                self.spec_bpp(),
                self.spec_bytes(),
                vflip,
                rle,
            )),
    {
        proof {
            use_type_invariant(self);
        }
        if self.bpp != 1 && self.bpp != 3 && self.bpp != 4 {
            return Err(
                TgaError::BadHeader(
                    "invalid bytes per pixel: must be 1 (grayscale), 3 (RGB), or 4 (RGBA)",
                ),
            );
        }
        Ok(encode_tga(self.w, self.h, self.bpp, self.data.as_slice(), vflip, rle))
    }
}

/// Reading a pixel back after `set` gives the written colour cut to the
/// channels the image stores; every other pixel reads as before.
pub proof fn lemma_get_after_set(img: TGAImage, after: TGAImage, x: int, y: int, c: TGAColor, x2: int, y2: int)
    requires
        img.wf(),
        after.spec_width() == img.spec_width(),
        after.spec_height() == img.spec_height(),
        after.spec_bpp() == img.spec_bpp(),
        after.spec_bytes() == img.spec_set_bytes(x, y, c),
    ensures
        after.spec_get(x, y) == (if img.spec_holds(x, y) {
            Some(color_kept(c, img.spec_bpp()))
        } else {
            None::<TGAColor>
        }),
        x2 != x || y2 != y ==> after.spec_get(x2, y2) == img.spec_get(x2, y2),
{
    let w = img.spec_width() as int;
    let h = img.spec_height() as int;
    let bpp = img.spec_bpp() as int;
    if img.spec_holds(x, y) {
        if bpp == 0 {
            assert(w * h * 0 == 0);
        }
        lemma_pixel_in_bounds(x, y, w, h, bpp);
        if (x2 != x || y2 != y) && img.spec_holds(x2, y2) {
            lemma_pixel_in_bounds(x2, y2, w, h, bpp);
            lemma_distinct_channel(x, y, x2, y2, 0, w, bpp);
            lemma_distinct_channel(x, y, x2, y2, 1, w, bpp);
            lemma_distinct_channel(x, y, x2, y2, 2, w, bpp);
            lemma_distinct_channel(x, y, x2, y2, 3, w, bpp);
            assert(after.spec_get(x2, y2) == img.spec_get(x2, y2));
        }
    }
}

/// The bytes of the channels past the fourth of every pixel, in place;
/// the bytes of channels b, g, r and a read as 0.
pub open spec fn upper_channels(data: Seq<u8>, bpp: nat) -> Seq<u8> {
    Seq::new(data.len(), |k: int| if byte_channel(k, bpp as int) < 4 { 0u8 } else { data[k] })
}

/// Writing a pixel leaves the channels past the fourth of every pixel as
/// they were.
pub proof fn lemma_upper_after_set(img: TGAImage, after: TGAImage, x: int, y: int, c: TGAColor)
    requires
        img.wf(),
        after.spec_bpp() == img.spec_bpp(),
        after.spec_bytes() == img.spec_set_bytes(x, y, c),
    ensures
        upper_channels(after.spec_bytes(), after.spec_bpp()) == upper_channels(img.spec_bytes(), img.spec_bpp()),
{
    let w = img.spec_width() as int;
    let h = img.spec_height() as int;
    let bpp = img.spec_bpp() as int;
    let data = img.spec_bytes();
    if img.spec_holds(x, y) {
        if bpp == 0 {
            assert(w * h * 0 == 0);
        }
        lemma_pixel_in_bounds(x, y, w, h, bpp);
        let idx = pixel_offset(w, bpp, x, y);
        assert forall|k: int| 0 <= k < data.len() implies #[trigger] upper_channels(after.spec_bytes(), bpp as nat)[k]
            == upper_channels(data, bpp as nat)[k] by {
            if idx <= k < idx + 4 && k < idx + bpp {
                lemma_byte_compose(x, y, k - idx, w, bpp);
            }
        }
        assert(upper_channels(after.spec_bytes(), bpp as nat) =~= upper_channels(data, bpp as nat));
    }
}

/// Writing an image to TGA bytes and reading them back gives the same
/// image; with `vflip` its rows come back in the opposite order.
pub proof fn lemma_image_roundtrip(img: &TGAImage, vflip: bool, rle: bool)
    requires
        img.wf(),
        1 <= img.spec_width() <= 65535,
        1 <= img.spec_height() <= 65535,
        img.spec_bpp() == 1 || img.spec_bpp() == 3 || img.spec_bpp() == 4,
    ensures
        tga_decode(
            tga_file(img.spec_width(), img.spec_height(), img.spec_bpp(), img.spec_bytes(), vflip, rle),
        ) == Ok::<(nat, nat, nat, Seq<u8>), TgaFault>(
            (img.spec_width(), img.spec_height(), img.spec_bpp(), if vflip {
                flipped_v(img.spec_bytes(), img.spec_width(), img.spec_height(), img.spec_bpp())
            } else {
                img.spec_bytes()
            }),
        ),
{
    lemma_tga_roundtrip(img.spec_width(), img.spec_height(), img.spec_bpp(), img.spec_bytes(), vflip, rle);
}

} // verus!
