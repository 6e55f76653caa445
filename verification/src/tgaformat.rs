//! The bytes of a TGA file: an 18-byte header, the pixel data (plain or in
//! run-length packets) and the 26-byte TGA 2.0 footer.
use vstd::prelude::*;

use crate::rle::{
    RleFault, lemma_decode_len, lemma_mul_mono, lemma_rle_roundtrip, push_range, rle_decode, rle_decode_bytes,
    rle_encode, rle_encode_bytes,
};
use crate::tgaimage::{flipped_h, flipped_v};

verus! {

/// Why a byte string is not a TGA image this library reads.
#[derive(Clone, Copy, Debug, PartialEq, Eq, Structural)]
pub enum TgaFault {
    /// The bytes end before the image does.
    Truncated,
    /// The data type code is not 2, 3, 10 or 11.
    Unsupported(u8),
    /// Zero width or height, a pixel size other than 1, 3 or 4 bytes, or more
    /// pixel bytes than the machine can address.
    BadHeader,
    /// A run-length packet holds more pixels than the image.
    Overrun,
}

/// A little-endian 16-bit field.
pub open spec fn le16(lo: u8, hi: u8) -> nat {
    (lo + 256 * hi) as nat
}

/// The data type code the writer uses.
pub open spec fn type_code(bpp: nat, rle: bool) -> u8 {
    if bpp == 1 {
        if rle { 11 } else { 3 }
    } else {
        if rle { 10 } else { 2 }
    }
}

/// The image descriptor the writer uses: bit 5 set for rows stored top
/// first, and 8 alpha bits for 4-byte pixels.
pub open spec fn descriptor(bpp: nat, vflip: bool) -> u8 {
    (if vflip { 0u8 } else { 0x20u8 }) | (if bpp == 4 { 8u8 } else { 0u8 })
}

/// The header the writer emits.  Width and height are stored modulo 65536.
pub open spec fn tga_header(w: nat, h: nat, bpp: nat, vflip: bool, rle: bool) -> Seq<u8> {
    let w16 = w % 65536;
    let h16 = h % 65536;
    seq![
        0u8, 0u8, type_code(bpp, rle),
        0u8, 0u8, 0u8, 0u8, 0u8,
        0u8, 0u8, 0u8, 0u8,
        (w16 % 256) as u8, (w16 / 256) as u8,
        (h16 % 256) as u8, (h16 / 256) as u8,
        (bpp * 8) as u8, descriptor(bpp, vflip),
    ]
}

/// Empty developer and extension area offsets, then "TRUEVISION-XFILE." and a NUL.
pub open spec fn tga_footer() -> Seq<u8> {
    seq![0u8, 0u8, 0u8, 0u8, 0u8, 0u8, 0u8, 0u8]
        + seq![84u8, 82u8, 85u8, 69u8, 86u8, 73u8, 83u8, 73u8, 79u8, 78u8, 45u8, 88u8, 70u8, 73u8, 76u8, 69u8, 46u8, 0u8]
}

/// The file the writer produces for a `w` by `h` image of `bpp`-byte pixels.
pub open spec fn tga_file(w: nat, h: nat, bpp: nat, data: Seq<u8>, vflip: bool, rle: bool) -> Seq<u8> {
    tga_header(w, h, bpp, vflip, rle) + (if rle {
        rle_encode(data, bpp, w * h, 0)
    } else {
        data
    }) + tga_footer()
}

/// Where the pixel data starts: after the header, the image id and the
/// colour map.
pub open spec fn pixel_start(s: Seq<u8>) -> nat {
    (18 + s[0] + s[1] * le16(s[5], s[6]) * (s[7] / 8)) as nat
}

pub open spec fn supported_code(code: u8) -> bool {
    code == 2 || code == 3 || code == 10 || code == 11
}

/// What the reader makes of a file before it orients the rows: width,
/// height, bytes per pixel, image descriptor and pixel bytes as stored.
pub open spec fn tga_read(s: Seq<u8>) -> Result<(nat, nat, nat, u8, Seq<u8>), TgaFault> {
    if s.len() < 18 {
        Err(TgaFault::Truncated)
    } else if !supported_code(s[2]) {
        Err(TgaFault::Unsupported(s[2]))
    } else {
        let w = le16(s[12], s[13]);
        let h = le16(s[14], s[15]);
        let bpp = (s[16] / 8) as nat;
        if w == 0 || h == 0 || !(bpp == 1 || bpp == 3 || bpp == 4) || w * h * bpp > usize::MAX {
            Err(TgaFault::BadHeader)
        } else {
            let start = pixel_start(s);
            let body = if start <= s.len() {
                s.skip(start as int)
            } else {
                Seq::<u8>::empty()
            };
            if s[2] == 2 || s[2] == 3 {
                if body.len() < w * h * bpp {
                    Err(TgaFault::Truncated)
                } else {
                    Ok((w, h, bpp, s[17], body.take((w * h * bpp) as int)))
                }
            } else {
                match rle_decode(body, bpp, w * h) {
                    Ok(d) => Ok((w, h, bpp, s[17], d)),
                    Err(RleFault::Truncated) => Err(TgaFault::Truncated),
                    Err(RleFault::Overrun) => Err(TgaFault::Overrun),
                }
            }
        }
    }
}

/// What the reader makes of a file: width, height, bytes per pixel and the
/// pixel bytes with the top row first and the leftmost pixel first.  Rows
/// stored bottom first (descriptor bit 5 clear) are mirrored top to bottom;
/// pixels stored right to left (bit 4 set) are mirrored left to right.
pub open spec fn tga_decode(s: Seq<u8>) -> Result<(nat, nat, nat, Seq<u8>), TgaFault> {
    match tga_read(s) {
        Ok((w, h, bpp, desc, d)) => {
            let d1 = if desc & 0x20u8 == 0u8 {
                flipped_v(d, w, h, bpp)
            } else {
                d
            };
            let d2 = if desc & 0x10u8 != 0u8 {
                flipped_h(d1, w, bpp)
            } else {
                d1
            };
            Ok((w, h, bpp, d2))
        },
        Err(f) => Err(f),
    }
}

/// The data type code the writer emits names the pixels' colour kind and
/// their compression: a grayscale code (3 or 11) exactly for one-byte
/// pixels, a run-length code (10 or 11) exactly when `rle` asks for it,
/// and always one the reader supports.
pub proof fn lemma_type_code_kind(w: nat, h: nat, bpp: nat, data: Seq<u8>, vflip: bool, rle: bool)
    ensures
        ({
            let code = tga_file(w, h, bpp, data, vflip, rle)[2];
            &&& (code == 3 || code == 11) <==> bpp == 1
            &&& (code == 10 || code == 11) <==> rle
            &&& supported_code(code)
        }),
{
    let body = if rle {
        rle_encode(data, bpp, w * h, 0)
    } else {
        data
    };
    let f = tga_file(w, h, bpp, data, vflip, rle);
    assert(f == tga_header(w, h, bpp, vflip, rle) + body + tga_footer());
    assert(f[2] == tga_header(w, h, bpp, vflip, rle)[2]);
}

/// The file with its image ID taken out: ID length 0 and the ID bytes
/// dropped, the rest of the header and everything after the ID as before.
pub open spec fn without_id(s: Seq<u8>) -> Seq<u8> {
    seq![0u8] + s.subrange(1, 18) + s.skip(18 + s[0])
}

/// The reader skips the image ID before the pixel data, run-length encoded
/// or not: a file reads the same with its ID taken out.
pub proof fn lemma_read_skips_id(s: Seq<u8>)
    requires
        s.len() >= 18 + s[0],
    ensures
        tga_read(s) == tga_read(without_id(s)),
        tga_decode(s) == tga_decode(without_id(s)),
{
    let t = without_id(s);
    assert(t.len() == s.len() - s[0]);
    assert(t[0] == 0);
    assert forall|i: int| 1 <= i < 18 implies t[i] == s[i] by {}
    assert(t[1] == s[1] && t[2] == s[2] && t[5] == s[5] && t[6] == s[6] && t[7] == s[7]);
    assert(t[12] == s[12] && t[13] == s[13] && t[14] == s[14] && t[15] == s[15]);
    assert(t[16] == s[16] && t[17] == s[17]);
    assert(pixel_start(t) == pixel_start(s) - s[0]);
    let start = pixel_start(s);
    if start <= s.len() {
        assert(s.skip(start as int) =~= t.skip(pixel_start(t) as int));
    }
}

/// The reader's pixel bytes always fill the image it reports.
pub proof fn lemma_read_len(s: Seq<u8>)
    ensures
        tga_read(s) matches Ok((w, h, bpp, desc, d)) ==> d.len() == w * h * bpp,
{
    if s.len() >= 18 && supported_code(s[2]) {
        let w = le16(s[12], s[13]);
        let h = le16(s[14], s[15]);
        let bpp = (s[16] / 8) as nat;
        let start = pixel_start(s);
        let body = if start <= s.len() {
            s.skip(start as int)
        } else {
            Seq::<u8>::empty()
        };
        lemma_decode_len(body, bpp, w * h);
    }
}

/// Writing an image and reading the file back gives the same image; with
/// `vflip` the rows come back in the opposite order, since the file then
/// says that its first row is the bottom one.
pub proof fn lemma_tga_roundtrip(w: nat, h: nat, bpp: nat, data: Seq<u8>, vflip: bool, rle: bool)
    requires
        1 <= w <= 65535,
        1 <= h <= 65535,
        bpp == 1 || bpp == 3 || bpp == 4,
        data.len() == w * h * bpp,
        data.len() <= usize::MAX,
    ensures
        tga_decode(tga_file(w, h, bpp, data, vflip, rle)) == Ok::<(nat, nat, nat, Seq<u8>), TgaFault>(
            (w, h, bpp, if vflip {
                flipped_v(data, w, h, bpp)
            } else {
                data
            }),
        ),
{
    let s = tga_file(w, h, bpp, data, vflip, rle);
    let header = tga_header(w, h, bpp, vflip, rle);
    let body = if rle {
        rle_encode(data, bpp, w * h, 0)
    } else {
        data
    };
    assert(s == header + body + tga_footer());
    assert(header.len() == 18);
    assert(s[2] == type_code(bpp, rle));
    assert(le16(s[12], s[13]) == w);
    assert(le16(s[14], s[15]) == h);
    assert(s[16] == (bpp * 8) as u8);
    assert(s[0] == 0 && s[1] == 0);
    assert(pixel_start(s) == 18);
    assert(s.skip(18) =~= body + tga_footer());
    assert(s[17] == descriptor(bpp, vflip));
    assert((0x20u8 | 8u8) & 0x20u8 != 0u8) by (bit_vector);
    assert((0x20u8 | 0u8) & 0x20u8 != 0u8) by (bit_vector);
    assert((0u8 | 8u8) & 0x20u8 == 0u8) by (bit_vector);
    assert((0u8 | 0u8) & 0x20u8 == 0u8) by (bit_vector);
    assert((0x20u8 | 8u8) & 0x10u8 == 0u8) by (bit_vector);
    assert((0x20u8 | 0u8) & 0x10u8 == 0u8) by (bit_vector);
    assert((0u8 | 8u8) & 0x10u8 == 0u8) by (bit_vector);
    assert((0u8 | 0u8) & 0x10u8 == 0u8) by (bit_vector);
    assert(w * h * bpp == (w * h) * bpp);
    assert(supported_code(s[2]));
    assert((s[16] / 8) as nat == bpp);
    if rle {
        lemma_rle_roundtrip(data, bpp, w * h, 0, tga_footer());
        assert(data.subrange(0, (w * h * bpp) as int) =~= data);
        assert(rle_decode(s.skip(18), bpp, w * h) == Ok::<Seq<u8>, RleFault>(data));
        assert(tga_read(s) == Ok::<(nat, nat, nat, u8, Seq<u8>), TgaFault>((w, h, bpp, descriptor(bpp, vflip), data)));
    } else {
        assert((body + tga_footer()).take((w * h * bpp) as int) =~= data);
        assert(tga_read(s) == Ok::<(nat, nat, nat, u8, Seq<u8>), TgaFault>((w, h, bpp, descriptor(bpp, vflip), data)));
    }
}

fn push_header(out: &mut Vec<u8>, w: usize, h: usize, bpp: u8, vflip: bool, rle: bool)
    requires
        bpp == 1 || bpp == 3 || bpp == 4,
    ensures
        final(out)@ == old(out)@ + tga_header(w as nat, h as nat, bpp as nat, vflip, rle),
{
    let ghost start = out@;
    let code: u8 = if bpp == 1 {
        if rle { 11 } else { 3 }
    } else {
        if rle { 10 } else { 2 }
    };
    let mut desc: u8 = if vflip { 0x00 } else { 0x20 };
    if bpp == 4 {
        desc = desc | 8;
    }
    proof {
        assert(0u8 | 0u8 == 0u8) by (bit_vector);
        assert(0x20u8 | 0u8 == 0x20u8) by (bit_vector);
    }
    assert(desc == descriptor(bpp as nat, vflip));
    let w16 = w % 65536;
    let h16 = h % 65536;
    out.push(0);
    out.push(0);
    out.push(code);
    out.push(0);
    out.push(0);
    out.push(0);
    out.push(0);
    out.push(0);
    out.push(0);
    out.push(0);
    out.push(0);
    out.push(0);
    out.push((w16 % 256) as u8);
    out.push((w16 / 256) as u8);
    out.push((h16 % 256) as u8);
    out.push((h16 / 256) as u8);
    out.push(bpp * 8);
    out.push(desc);
    assert(out@ =~= start + tga_header(w as nat, h as nat, bpp as nat, vflip, rle));
}

fn push_footer(out: &mut Vec<u8>)
    ensures
        final(out)@ == old(out)@ + tga_footer(),
{
    let ghost start = out@;
    out.push(0);
    out.push(0);
    out.push(0);
    out.push(0);
    out.push(0);
    out.push(0);
    out.push(0);
    out.push(0);
    out.push(84);
    out.push(82);
    out.push(85);
    out.push(69);
    out.push(86);
    out.push(73);
    out.push(83);
    out.push(73);
    out.push(79);
    out.push(78);
    out.push(45);
    out.push(88);
    out.push(70);
    out.push(73);
    out.push(76);
    out.push(69);
    out.push(46);
    out.push(0);
    assert(out@ =~= start + tga_footer());
}

/// The bytes of the file `tga_file` describes.
pub fn encode_tga(w: usize, h: usize, bpp: u8, data: &[u8], vflip: bool, rle: bool) -> (out: Vec<u8>)
    requires
        bpp == 1 || bpp == 3 || bpp == 4,
        data.len() == w * h * bpp,
    ensures
        out@ == tga_file(w as nat, h as nat, bpp as nat, data@, vflip, rle),
{
    let mut out: Vec<u8> = Vec::new();
    push_header(&mut out, w, h, bpp, vflip, rle);
    let ghost header = out@;
    if rle {
        proof {
            assert(w * h * bpp == (w * h) * bpp);
            if bpp >= 1 {
                assert(w * h <= w * h * bpp) by (nonlinear_arith)
                    requires bpp >= 1;
            }
        }
        rle_encode_bytes(data, bpp as usize, w * h, &mut out);
    } else {
        push_range(&mut out, data, 0, data.len());
        assert(data@.subrange(0, data@.len() as int) =~= data@);
    }
    let ghost with_body = out@;
    push_footer(&mut out);
    out
}

/// Reads the header and the pixel bytes as stored, as `tga_read` describes.
pub fn decode_tga(s: &[u8]) -> (r: Result<(usize, usize, u8, u8, Vec<u8>), TgaFault>)
    ensures
        tga_read(s@) == match r {
            Ok((w, h, bpp, desc, v)) => Ok((w as nat, h as nat, bpp as nat, desc, v@)),
            Err(f) => Err::<(nat, nat, nat, u8, Seq<u8>), TgaFault>(f),
        },
{
    if s.len() < 18 {
        return Err(TgaFault::Truncated);
    }
    let code = s[2];
    if code != 2 && code != 3 && code != 10 && code != 11 {
        return Err(TgaFault::Unsupported(code));
    }
    let w: usize = s[12] as usize + 256 * (s[13] as usize);
    let h: usize = s[14] as usize + 256 * (s[15] as usize);
    let bpp: u8 = s[16] / 8;
    if w == 0 || h == 0 || (bpp != 1 && bpp != 3 && bpp != 4) {
        return Err(TgaFault::BadHeader);
    }
    let cmap_len: usize = s[5] as usize + 256 * (s[6] as usize);
    proof {
        lemma_mul_mono(s[1] as int, 255, cmap_len as int);
        lemma_mul_mono(cmap_len as int, 65535, 255);
        lemma_mul_mono((s[1] * cmap_len) as int, 255int * 65535, (s[7] / 8) as int);
        lemma_mul_mono((s[7] / 8) as int, 31, 255int * 65535);
        lemma_mul_mono(w as int, 65535, h as int);
        lemma_mul_mono(h as int, 65535, 65535);
    }
    let npix: usize = w * h;
    let nbytes: usize = match npix.checked_mul(bpp as usize) {
        Some(n) => n,
        None => {
            assert(w * h * bpp > usize::MAX);
            return Err(TgaFault::BadHeader);
        },
    };
    assert(nbytes == w * h * bpp);
    assert(w * h * bpp >= 1) by (nonlinear_arith)
        requires w >= 1, h >= 1, bpp >= 1;
    let start: usize = 18 + s[0] as usize + (s[1] as usize) * cmap_len * ((s[7] / 8) as usize);
    assert(start == pixel_start(s@));
    let ghost body = if start <= s@.len() {
        s@.skip(start as int)
    } else {
        Seq::<u8>::empty()
    };
    if code == 2 || code == 3 {
        if start > s.len() || s.len() - start < nbytes {
            return Err(TgaFault::Truncated);
        }
        let mut out: Vec<u8> = Vec::new();
        push_range(&mut out, s, start, start + nbytes);
        assert(out@ =~= body.take(nbytes as int));
        Ok((w, h, bpp, s[17], out))
    } else {
        let from = if start <= s.len() {
            start
        } else {
            s.len()
        };
        assert(s@.skip(from as int) =~= body);
        match rle_decode_bytes(s, from, bpp as usize, npix) {
            Ok(out) => Ok((w, h, bpp, s[17], out)),
            Err(RleFault::Truncated) => Err(TgaFault::Truncated),
            Err(RleFault::Overrun) => Err(TgaFault::Overrun),
        }
    }
}

} // verus!
