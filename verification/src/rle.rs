//! Run-length packets of the TGA format.
//!
//! A packet starts with one header byte `hdr`.  Below 128 it is a raw packet
//! of `hdr + 1` pixels, stored one after another.  From 128 on it is a run
//! packet of `hdr - 127` copies of the single pixel that follows.
use vstd::prelude::*;

verus! {

/// Why a packet stream could not be decoded.
#[derive(Clone, Copy, Debug, PartialEq, Eq, Structural)]
pub enum RleFault {
    /// The stream ended before the image was complete.
    Truncated,
    /// A packet holds more pixels than the image has left.
    Overrun,
}

/// `k` copies of the pixel `p`, one after another.
pub open spec fn repeat(p: Seq<u8>, k: nat) -> Seq<u8>
    decreases k,
{
    if k == 0 {
        Seq::<u8>::empty()
    } else {
        repeat(p, (k - 1) as nat) + p
    }
}

/// The bytes of pixel `i`.
pub open spec fn pixel(data: Seq<u8>, bpp: nat, i: nat) -> Seq<u8> {
    data.subrange((i * bpp) as int, (i * bpp + bpp) as int)
}

/// Pixel `i` and pixel `i + 1` hold the same bytes.
pub open spec fn same_as_next(data: Seq<u8>, bpp: nat, i: nat) -> bool {
    forall|t: int| 0 <= t < bpp ==> #[trigger] data[i * bpp + t] == data[i * bpp + bpp + t]
}

/// Decoding `n` pixels of `bpp` bytes from the packets at the start of `s`.
/// Bytes after the last packet are ignored.  A packet is checked in the order
/// its bytes are read: a pixel that is not there makes the stream
/// `Truncated`; a pixel beyond the `n` still owed makes it `Overrun`.
pub open spec fn rle_decode(s: Seq<u8>, bpp: nat, n: nat) -> Result<Seq<u8>, RleFault>
    decreases s.len(),
{
    if n == 0 {
        Ok(Seq::<u8>::empty())
    } else if s.len() == 0 {
        Err(RleFault::Truncated)
    } else if s[0] < 128 {
        let count = s[0] + 1;
        let avail = s.len() - 1;
        if count > n {
            if avail >= (n + 1) * bpp {
                Err(RleFault::Overrun)
            } else {
                Err(RleFault::Truncated)
            }
        } else if avail < count * bpp {
            Err(RleFault::Truncated)
        } else {
            match rle_decode(s.skip((1 + count * bpp) as int), bpp, (n - count) as nat) {
                Ok(rest) => Ok(s.subrange(1, (1 + count * bpp) as int) + rest),
                Err(e) => Err(e),
            }
        }
    } else {
        let count = s[0] - 127;
        if s.len() - 1 < bpp {
            Err(RleFault::Truncated)
        } else if count > n {
            Err(RleFault::Overrun)
        } else {
            match rle_decode(s.skip((1 + bpp) as int), bpp, (n - count) as nat) {
                Ok(rest) => Ok(repeat(s.subrange(1, (1 + bpp) as int), count as nat) + rest),
                Err(e) => Err(e),
            }
        }
    }
}

/// `r` with `prefix` put in front of the decoded bytes.
pub open spec fn prepend(prefix: Seq<u8>, r: Result<Seq<u8>, RleFault>) -> Result<Seq<u8>, RleFault> {
    match r {
        Ok(rest) => Ok(prefix + rest),
        Err(e) => Err(e),
    }
}

/// The packet the encoder cuts at pixel `cur`: its length in pixels and
/// whether it is raw.  It starts as a raw packet of one pixel and grows one
/// pixel at a time, at most to 128 pixels and to the end of the image.  The
/// second pixel decides the kind: equal to the first makes a run.  A raw
/// packet stops before a pixel that equals its successor; a run stops at the
/// first pixel that differs.
pub open spec fn rle_scan(data: Seq<u8>, bpp: nat, npix: nat, cur: nat, rl: nat, raw: bool) -> (nat, bool)
    decreases 128 - rl,
{
    if rl < 128 && cur + rl < npix {
        let succ_eq = same_as_next(data, bpp, (cur + rl - 1) as nat);
        let raw2 = if rl == 1 {
            !succ_eq
        } else {
            raw
        };
        if raw2 && succ_eq {
            ((rl - 1) as nat, raw2)
        } else if !raw2 && !succ_eq {
            (rl, raw2)
        } else {
            rle_scan(data, bpp, npix, cur, rl + 1, raw2)
        }
    } else {
        (rl, raw)
    }
}

/// The packet that starts at pixel `cur`.
pub open spec fn rle_chunk(data: Seq<u8>, bpp: nat, npix: nat, cur: nat) -> (nat, bool) {
    rle_scan(data, bpp, npix, cur, 1, true)
}

/// The bytes of the packet of `rl` pixels that starts at pixel `cur`.
pub open spec fn rle_packet(data: Seq<u8>, bpp: nat, cur: nat, rl: nat, raw: bool) -> Seq<u8> {
    if raw {
        seq![(rl - 1) as u8] + data.subrange((cur * bpp) as int, ((cur + rl) * bpp) as int)
    } else {
        seq![(rl + 127) as u8] + pixel(data, bpp, cur)
    }
}

/// A packet ends strictly after it starts and never past the image, holds
/// at most 128 pixels, and a run only covers equal pixels.
pub proof fn lemma_scan(data: Seq<u8>, bpp: nat, npix: nat, cur: nat, rl: nat, raw: bool)
    requires
        1 <= rl <= 128,
        cur + rl <= npix,
        rl == 1 ==> raw,
        !raw ==> forall|i: nat| cur <= i < cur + rl - 1 ==> #[trigger] same_as_next(data, bpp, i),
    ensures
        1 <= rle_scan(data, bpp, npix, cur, rl, raw).0 <= 128,
        cur + rle_scan(data, bpp, npix, cur, rl, raw).0 <= npix,
        !rle_scan(data, bpp, npix, cur, rl, raw).1 ==> forall|i: nat|
            cur <= i < cur + rle_scan(data, bpp, npix, cur, rl, raw).0 - 1
                ==> #[trigger] same_as_next(data, bpp, i),
    decreases 128 - rl,
{
    if rl < 128 && cur + rl < npix {
        let succ_eq = same_as_next(data, bpp, (cur + rl - 1) as nat);
        let raw2 = if rl == 1 {
            !succ_eq
        } else {
            raw
        };
        if raw2 && succ_eq {
        } else if !raw2 && !succ_eq {
        } else {
            assert forall|i: nat| !raw2 && cur <= i < cur + (rl + 1) - 1 implies #[trigger] same_as_next(
                data,
                bpp,
                i,
            ) by {
                if i < cur + rl - 1 {
                } else {
                    assert(i == (cur + rl - 1) as nat);
                }
            }
            lemma_scan(data, bpp, npix, cur, rl + 1, raw2);
        }
    }
}

pub proof fn lemma_chunk(data: Seq<u8>, bpp: nat, npix: nat, cur: nat)
    requires
        cur < npix,
    ensures
        1 <= rle_chunk(data, bpp, npix, cur).0 <= 128,
        cur + rle_chunk(data, bpp, npix, cur).0 <= npix,
        !rle_chunk(data, bpp, npix, cur).1 ==> forall|i: nat|
            cur <= i < cur + rle_chunk(data, bpp, npix, cur).0 - 1
                ==> #[trigger] same_as_next(data, bpp, i),
{
    lemma_scan(data, bpp, npix, cur, 1, true);
}

/// The packets for pixels `cur..npix`.
pub open spec fn rle_encode(data: Seq<u8>, bpp: nat, npix: nat, cur: nat) -> Seq<u8>
    decreases npix - cur,
{
    if cur < npix {
        let (rl, raw) = rle_chunk(data, bpp, npix, cur);
        proof {
            lemma_chunk(data, bpp, npix, cur);
        }
        rle_packet(data, bpp, cur, rl, raw) + rle_encode(data, bpp, npix, cur + rl)
    } else {
        Seq::<u8>::empty()
    }
}

pub proof fn lemma_mul_succ(a: int, b: int)
    ensures
        (a + 1) * b == a * b + b,
{
    assert((a + 1) * b == a * b + b) by (nonlinear_arith);
}

pub proof fn lemma_mul_add(a: int, c: int, b: int)
    ensures
        (a + c) * b == a * b + c * b,
{
    assert((a + c) * b == a * b + c * b) by (nonlinear_arith);
}

pub proof fn lemma_mul_mono(a: int, c: int, b: int)
    requires
        0 <= a <= c,
        0 <= b,
    ensures
        0 <= a * b <= c * b,
{
    assert(0 <= a * b <= c * b) by (nonlinear_arith)
        requires 0 <= a <= c, 0 <= b;
}

pub proof fn lemma_repeat_len(p: Seq<u8>, k: nat)
    ensures
        repeat(p, k).len() == k * p.len(),
    decreases k,
{
    if k > 0 {
        lemma_repeat_len(p, (k - 1) as nat);
        lemma_mul_succ((k - 1) as int, p.len() as int);
        assert(repeat(p, k).len() == repeat(p, (k - 1) as nat).len() + p.len());
        assert(((k - 1) + 1) as int == k as int);
    } else {
        assert(k * p.len() == 0) by (nonlinear_arith)
            requires k == 0;
    }
}

/// Pixels joined by `same_as_next` all equal the first one.
proof fn lemma_run_pixels(data: Seq<u8>, bpp: nat, cur: nat, j: nat)
    requires
        (cur + j + 1) * bpp <= data.len(),
        forall|i: nat| cur <= i < cur + j ==> #[trigger] same_as_next(data, bpp, i),
    ensures
        pixel(data, bpp, cur + j) == pixel(data, bpp, cur),
    decreases j,
{
    if j > 0 {
        let k = (cur + j - 1) as nat;
        lemma_mul_succ(k as int, bpp as int);
        lemma_mul_succ((cur + j) as int, bpp as int);
        lemma_mul_mono(k as int, (cur + j) as int, bpp as int);
        lemma_run_pixels(data, bpp, cur, (j - 1) as nat);
        assert(same_as_next(data, bpp, k));
        assert(pixel(data, bpp, cur + j) =~= pixel(data, bpp, k)) by {
            assert forall|t: int| 0 <= t < bpp implies #[trigger] pixel(data, bpp, cur + j)[t]
                == pixel(data, bpp, k)[t] by {
                assert(data[k * bpp + t] == data[k * bpp + bpp + t]);
            }
        }
    }
}

/// A run of equal pixels reads as that many copies of its first pixel.
proof fn lemma_run_bytes(data: Seq<u8>, bpp: nat, cur: nat, rl: nat)
    requires
        (cur + rl) * bpp <= data.len(),
        forall|i: nat| cur <= i < cur + rl - 1 ==> #[trigger] same_as_next(data, bpp, i),
    ensures
        repeat(pixel(data, bpp, cur), rl) == data.subrange((cur * bpp) as int, ((cur + rl) * bpp) as int),
    decreases rl,
{
    if rl > 0 {
        let k = (rl - 1) as nat;
        lemma_mul_succ((cur + k) as int, bpp as int);
        lemma_mul_mono(cur as int, (cur + k) as int, bpp as int);
        lemma_run_bytes(data, bpp, cur, k);
        lemma_run_pixels(data, bpp, cur, k);
        assert(data.subrange((cur * bpp) as int, ((cur + rl) * bpp) as int) =~= data.subrange((cur * bpp) as int, ((cur + k) * bpp) as int, ) + pixel(data, bpp, cur + k));
    } else {
        assert(data.subrange((cur * bpp) as int, ((cur + rl) * bpp) as int) =~= Seq::<u8>::empty());
    }
}

/// Decoding the packets of pixels `cur..npix`, with anything after them,
/// gives back exactly the bytes of those pixels.
pub proof fn lemma_rle_roundtrip(data: Seq<u8>, bpp: nat, npix: nat, cur: nat, tail: Seq<u8>)
    requires
        1 <= bpp,
        data.len() == npix * bpp,
        cur <= npix,
    ensures
        rle_decode(rle_encode(data, bpp, npix, cur) + tail, bpp, (npix - cur) as nat) == Ok::<
            Seq<u8>,
            RleFault,
        >(data.subrange((cur * bpp) as int, (npix * bpp) as int)),
    decreases npix - cur,
{
    let s = rle_encode(data, bpp, npix, cur) + tail;
    let n = (npix - cur) as nat;
    if cur == npix {
        assert(data.subrange((cur * bpp) as int, (npix * bpp) as int) =~= Seq::<u8>::empty());
    } else {
        let (rl, raw) = rle_chunk(data, bpp, npix, cur);
        lemma_chunk(data, bpp, npix, cur);
        let rest = rle_encode(data, bpp, npix, cur + rl);
        let packet = rle_packet(data, bpp, cur, rl, raw);
        assert(rle_encode(data, bpp, npix, cur) == packet + rest);
        lemma_mul_add(cur as int, rl as int, bpp as int);
        lemma_mul_mono((cur + rl) as int, npix as int, bpp as int);
        lemma_mul_mono(cur as int, (cur + rl) as int, bpp as int);
        lemma_mul_mono(rl as int, n as int, bpp as int);
        lemma_mul_add(cur as int, n as int, bpp as int);
        lemma_rle_roundtrip(data, bpp, npix, cur + rl, tail);
        let later = data.subrange(((cur + rl) * bpp) as int, (npix * bpp) as int);
        assert(s == packet + (rest + tail)) by {
            assert(s =~= packet + (rest + tail));
        }
        if raw {
            let body = data.subrange((cur * bpp) as int, ((cur + rl) * bpp) as int);
            assert(body.len() == rl * bpp);
            assert(s[0] == (rl - 1) as u8);
            assert(s.skip((1 + rl * bpp) as int) =~= rest + tail);
            assert(s.subrange(1, (1 + rl * bpp) as int) =~= body);
            assert(body + later =~= data.subrange((cur * bpp) as int, (npix * bpp) as int));
        } else {
            let p = pixel(data, bpp, cur);
            lemma_mul_succ(cur as int, bpp as int);
            lemma_mul_mono((cur + 1) as int, (cur + rl) as int, bpp as int);
            assert(s[0] == (rl + 127) as u8);
            assert(s.skip((1 + bpp) as int) =~= rest + tail);
            assert(s.subrange(1, (1 + bpp) as int) =~= p);
            lemma_run_bytes(data, bpp, cur, rl);
            assert(repeat(p, rl) + later =~= data.subrange((cur * bpp) as int, (npix * bpp) as int));
        }
    }
}

/// Decoding `n` pixels gives `n * bpp` bytes.
pub proof fn lemma_decode_len(s: Seq<u8>, bpp: nat, n: nat)
    ensures
        rle_decode(s, bpp, n) matches Ok(d) ==> d.len() == n * bpp,
    decreases s.len(),
{
    if n == 0 {
        assert(n * bpp == 0) by (nonlinear_arith)
            requires n == 0;
    } else if s.len() == 0 {
    } else if s[0] < 128 {
        let count = s[0] + 1;
        if count <= n && s.len() - 1 >= count * bpp {
            lemma_decode_len(s.skip(1 + count * bpp), bpp, (n - count) as nat);
            lemma_mul_add(count as int, (n - count) as int, bpp as int);
        }
    } else {
        let count = s[0] - 127;
        if s.len() - 1 >= bpp && count <= n {
            lemma_decode_len(s.skip((1 + bpp) as int), bpp, (n - count) as nat);
            lemma_repeat_len(s.subrange(1, (1 + bpp) as int), count as nat);
            lemma_mul_add(count as int, (n - count) as int, bpp as int);
        }
    }
}

/// Appends `src[from..to]` to `out`.
pub fn push_range(out: &mut Vec<u8>, src: &[u8], from: usize, to: usize)
    requires
        from <= to <= src.len(),
    ensures
        final(out)@ == old(out)@ + src@.subrange(from as int, to as int),
{
    let ghost start = out@;
    let mut j = from;
    while j < to
        invariant
            from <= j <= to,
            to <= src.len(),
            out@ == start + src@.subrange(from as int, j as int),
        decreases to - j,
    {
        out.push(src[j]);
        assert(out@ =~= start + src@.subrange(from as int, j + 1));
        j = j + 1;
    }
}

/// Decodes `n` pixels of `bpp` bytes from the packets that start at byte
/// `start` of `s`.
pub fn rle_decode_bytes(s: &[u8], start: usize, bpp: usize, n: usize) -> (r: Result<Vec<u8>, RleFault>)
    requires
        start <= s.len(),
        n * bpp <= usize::MAX,
    ensures
        rle_decode(s@.skip(start as int), bpp as nat, n as nat) == match r {
            Ok(v) => Ok(v@),
            Err(e) => Err::<Seq<u8>, RleFault>(e),
        },
{
    let mut out: Vec<u8> = Vec::new();
    let mut pos = start;
    let mut cur: usize = 0;
    let ghost whole = rle_decode(s@.skip(start as int), bpp as nat, n as nat);
    assert(s@.skip(start as int) =~= s@.skip(pos as int));
    assert(out@ + Seq::<u8>::empty() =~= Seq::<u8>::empty());
    while cur < n
        invariant
            start <= pos <= s.len(),
            cur <= n,
            n * bpp <= usize::MAX,
            whole == rle_decode(s@.skip(start as int), bpp as nat, n as nat),
            whole == prepend(out@, rle_decode(s@.skip(pos as int), bpp as nat, (n - cur) as nat)),
        decreases s.len() - pos,
    {
        let ghost t = s@.skip(pos as int);
        let ghost rem = (n - cur) as nat;
        if pos >= s.len() {
            return Err(RleFault::Truncated);
        }
        let hdr = s[pos];
        let remaining = n - cur;
        let avail = s.len() - pos - 1;
        assert(t[0] == hdr);
        assert(t.len() - 1 == avail);
        proof {
            lemma_mul_mono(remaining as int, n as int, bpp as int);
            lemma_mul_succ(remaining as int, bpp as int);
        }
        if hdr < 128 {
            let count = hdr as usize + 1;
            if count > remaining {
                if avail >= remaining * bpp && avail - remaining * bpp >= bpp {
                    return Err(RleFault::Overrun);
                } else {
                    return Err(RleFault::Truncated);
                }
            }
            proof {
                lemma_mul_mono(count as int, remaining as int, bpp as int);
            }
            let len = count * bpp;
            if avail < len {
                return Err(RleFault::Truncated);
            }
            let ghost before = out@;
            push_range(&mut out, s, pos + 1, pos + 1 + len);
            assert(t.subrange(1, 1 + count * bpp) =~= s@.subrange(pos + 1, pos + 1 + len));
            assert(t.skip(1 + count * bpp) =~= s@.skip(pos + 1 + len));
            assert(before + (s@.subrange(pos + 1, pos + 1 + len) + Seq::<u8>::empty())
                =~= out@ + Seq::<u8>::empty());
            assert(forall|rest: Seq<u8>| before + (s@.subrange(pos + 1, pos + 1 + len) + rest)
                =~= out@ + rest);
            pos = pos + 1 + len;
            cur = cur + count;
        } else {
            let count = hdr as usize - 127;
            if avail < bpp {
                return Err(RleFault::Truncated);
            }
            if count > remaining {
                return Err(RleFault::Overrun);
            }
            let ghost before = out@;
            let ghost color = s@.subrange(pos + 1, pos + 1 + bpp);
            let mut i: usize = 0;
            while i < count
                invariant
                    i <= count,
                    pos + 1 + bpp <= s.len(),
                    color == s@.subrange(pos + 1, pos + 1 + bpp),
                    out@ == before + repeat(color, i as nat),
                decreases count - i,
            {
                push_range(&mut out, s, pos + 1, pos + 1 + bpp);
                i = i + 1;
            }
            assert(t.subrange(1, 1 + bpp) =~= color);
            assert(t.skip(1 + bpp) =~= s@.skip(pos + 1 + bpp));
            assert(forall|rest: Seq<u8>| before + (repeat(color, count as nat) + rest)
                =~= out@ + rest);
            pos = pos + 1 + bpp;
            cur = cur + count;
        }
    }
    assert(out@ + Seq::<u8>::empty() =~= out@);
    Ok(out)
}

/// Appends the packets for all `npix` pixels of `data` to `out`.
pub fn rle_encode_bytes(data: &[u8], bpp: usize, npix: usize, out: &mut Vec<u8>)
    requires
        data.len() == npix * bpp,
    ensures
        final(out)@ == old(out)@ + rle_encode(data@, bpp as nat, npix as nat, 0),
{
    let ghost all = rle_encode(data@, bpp as nat, npix as nat, 0);
    let ghost start = old(out)@;
    let mut curpix: usize = 0;
    while curpix < npix
        invariant
            curpix <= npix,
            data.len() == npix * bpp,
            start + all == out@ + rle_encode(data@, bpp as nat, npix as nat, curpix as nat),
        decreases npix - curpix,
    {
        proof {
            lemma_chunk(data@, bpp as nat, npix as nat, curpix as nat);
            lemma_mul_mono(curpix as int, npix as int, bpp as int);
        }
        let ghost chunk = rle_chunk(data@, bpp as nat, npix as nat, curpix as nat);
        let chunk_start = curpix * bpp;
        let mut curbyte = curpix * bpp;
        let mut run_length: usize = 1;
        let mut raw = true;
        let mut done = false;
        while !done && curpix + run_length < npix && run_length < 128
            invariant
                data.len() == npix * bpp,
                curpix < npix,
                1 <= run_length <= 128,
                curpix + run_length <= npix,
                !done ==> curbyte == (curpix + run_length - 1) * bpp,
                run_length == 1 ==> raw,
                !raw ==> forall|i: nat|
                    curpix <= i < curpix + run_length - 1 ==> #[trigger] same_as_next(data@, bpp as nat, i),
                done ==> chunk == (run_length as nat, raw),
                !done ==> chunk == rle_scan(data@, bpp as nat, npix as nat, curpix as nat, run_length as nat, raw),
            decreases 3 * (128 - run_length) + (if done { 0int } else { 4int }),
        {
            let ghost i = (curpix + run_length - 1) as nat;
            proof {
                lemma_mul_succ(i as int, bpp as int);
                lemma_mul_succ((i + 1) as int, bpp as int);
                lemma_mul_mono((i + 2) as int, npix as int, bpp as int);
            }
            let mut succ_eq = true;
            let mut t: usize = 0;
            while t < bpp && succ_eq
                invariant
                    t <= bpp,
                    curbyte + bpp + bpp <= data.len(),
                    succ_eq ==> forall|u: int| 0 <= u < t ==> #[trigger] data@[curbyte + u] == data@[curbyte + bpp + u],
                    !succ_eq ==> exists|u: int| 0 <= u < bpp && #[trigger] data@[curbyte + u] != data@[curbyte + bpp + u],
                decreases (bpp - t) + (if succ_eq { 1int } else { 0int }),
            {
                if data[curbyte + t] != data[curbyte + t + bpp] {
                    succ_eq = false;
                } else {
                    t = t + 1;
                }
            }
            assert(succ_eq == same_as_next(data@, bpp as nat, i)) by {
                assert(curbyte == i * bpp);
                if succ_eq {
                    assert forall|u: int| 0 <= u < bpp implies #[trigger] data@[i * bpp + u]
                        == data@[i * bpp + bpp + u] by {
                        assert(data@[curbyte + u] == data@[curbyte + bpp + u]);
                    }
                } else {
                    let u = choose|u: int| 0 <= u < bpp && #[trigger] data@[curbyte + u] != data@[curbyte + bpp + u];
                    assert(data@[i * bpp + u] != data@[i * bpp + bpp + u]);
                }
            }
            curbyte = curbyte + bpp;
            if run_length == 1 {
                raw = !succ_eq;
            }
            if raw && succ_eq {
                run_length = run_length - 1;
                done = true;
            } else if !raw && !succ_eq {
                done = true;
            } else {
                proof {
                    assert forall|j: nat| !raw && curpix <= j < curpix + (run_length + 1) - 1 implies
                        #[trigger] same_as_next(data@, bpp as nat, j) by {
                        if j == i {
                        }
                    }
                }
                run_length = run_length + 1;
            }
        }
        assert(chunk == (run_length as nat, raw));
        let ghost before = out@;
        proof {
            lemma_mul_add(curpix as int, run_length as int, bpp as int);
            lemma_mul_mono((curpix + run_length) as int, npix as int, bpp as int);
            lemma_mul_succ(curpix as int, bpp as int);
            lemma_mul_mono((curpix + 1) as int, npix as int, bpp as int);
        }
        if raw {
            out.push((run_length - 1) as u8);
            push_range(out, data, chunk_start, chunk_start + run_length * bpp);
        } else {
            out.push((run_length + 127) as u8);
            push_range(out, data, chunk_start, chunk_start + bpp);
        }
        assert(out@ =~= before + rle_packet(data@, bpp as nat, curpix as nat, run_length as nat, raw));
        assert(rle_encode(data@, bpp as nat, npix as nat, curpix as nat) == rle_packet(
            data@,
            bpp as nat,
            curpix as nat,
            run_length as nat,
            raw,
        ) + rle_encode(data@, bpp as nat, npix as nat, (curpix + run_length) as nat));
        assert(start + all =~= out@ + rle_encode(
            data@,
            bpp as nat,
            npix as nat,
            (curpix + run_length) as nat,
        ));
        curpix = curpix + run_length;
    }
    assert(out@ + rle_encode(data@, bpp as nat, npix as nat, curpix as nat) =~= out@);
}

} // verus!
