//! TGA images: true-colour pictures of 24 or 32 bits a pixel, stored plainly
//! or run-length coded, read into RGBA images and written back bottom-up.
use vstd::prelude::*;
use crate::text::{decimal, push_decimal, string_of, push_str};
use crate::textures::{Image, ImageView, image_wf, rows_flipped};

verus! {

/// A little-endian 16-bit number at `i`.
pub open spec fn u16_at(b: Seq<u8>, i: int) -> nat {
    (b[i] as nat + 256 * b[i + 1] as nat) as nat
}

/// Byte `c` of the RGBA pixel stored at `base` in blue-green-red(-alpha) order;
/// a pixel of three bytes is opaque.
pub open spec fn tga_byte(src: Seq<u8>, base: int, bpp: nat, c: int) -> u8 {
    if c == 0 {
        src[base + 2]
    } else if c == 1 {
        src[base + 1]
    } else if c == 2 {
        src[base]
    } else if bpp == 4 {
        src[base + 3]
    } else {
        255
    }
}

/// The RGBA bytes of the pixel stored at `base`.
pub open spec fn pixel_bytes(src: Seq<u8>, base: int, bpp: nat) -> Seq<u8> {
    Seq::new(4, |c: int| tga_byte(src, base, bpp, c))
}

/// The first `k` pixels stored in `src`, one after another, as RGBA bytes.
pub open spec fn raw_pixels(src: Seq<u8>, bpp: nat, k: nat) -> Seq<u8> {
    Seq::new(k * 4, |i: int| tga_byte(src, (i / 4) * bpp, bpp, i % 4))
}

/// `k` copies of the first pixel stored in `src`, as RGBA bytes.
pub open spec fn repeated_pixel(src: Seq<u8>, bpp: nat, k: nat) -> Seq<u8> {
    Seq::new(k * 4, |i: int| tga_byte(src, 0, bpp, i % 4))
}

/// The first `need` pixels of a run-length coded stream, as RGBA bytes, or
/// `None` when the stream ends first. Each packet starts with a head byte: its
/// low seven bits plus one give the run; with the top bit set one pixel follows
/// that stands for the whole run, else the run's pixels follow one by one.
pub open spec fn rle_pixels(src: Seq<u8>, bpp: nat, need: nat) -> Option<Seq<u8>>
    decreases src.len(),
{
    if need == 0 {
        Some(Seq::empty())
    } else if src.len() == 0 {
        None
    } else {
        let head = src[0];
        let rest = src.drop_first();
        let run = (head % 128) as nat + 1;
        let k = if run < need {
            run
        } else {
            need
        };
        if head >= 128 {
            if rest.len() < bpp {
                None
            } else {
                match rle_pixels(rest.skip(bpp as int), bpp, (need - k) as nat) {
                    Some(t) => Some(repeated_pixel(rest, bpp, k) + t),
                    None => None,
                }
            }
        } else {
            if rest.len() < run * bpp {
                None
            } else {
                match rle_pixels(rest.skip((run * bpp) as int), bpp, (need - k) as nat) {
                    Some(t) => Some(raw_pixels(rest, bpp, k) + t),
                    None => None,
                }
            }
        }
    }
}

/// The header of a TGA passes every check up to the pixel data: it is long
/// enough, has no colour map, is plain or run-length true colour, of 24 or 32 bits.
pub open spec fn tga_header_ok(b: Seq<u8>) -> bool {
    &&& b.len() >= 18
    &&& b[1] == 0
    &&& (b[2] == 2 || b[2] == 10)
    &&& (b[16] == 24 || b[16] == 32)
}

/// What a TGA file holds: an RGBA image whose first row is the top one when the
/// file says so and the bottom one otherwise, or the reason it cannot be read.
pub open spec fn spec_tga_decode(b: Seq<u8>) -> Result<ImageView, Seq<char>> {
    if b.len() < 18 {
        Err("tga too short"@)
    } else if b[1] != 0 {
        Err("colour-mapped tga not supported"@)
    } else if b[2] != 2 && b[2] != 10 {
        Err("unsupported tga type "@ + decimal(b[2] as nat))
    } else if b[16] != 24 && b[16] != 32 {
        Err("unsupported tga depth "@ + decimal(b[16] as nat))
    } else {
        let w = u16_at(b, 12);
        let h = u16_at(b, 14);
        let bpp = (b[16] / 8) as nat;
        let src = b.skip(18 + b[0] as int);
        let n = w * h;
        let px = if b[2] == 2 {
            if src.len() < n * bpp {
                None
            } else {
                Some(raw_pixels(src, bpp, n))
            }
        } else {
            rle_pixels(src, bpp, n)
        };
        match px {
            None => Err(
                if b[2] == 2 {
                    "tga pixel data truncated"@
                } else {
                    "tga rle truncated"@
                },
            ),
            Some(rgba) => Ok(
                ImageView {
                    w,
                    h,
                    rgba: if (b[17] / 32) % 2 == 1 {
                        rows_flipped(rgba, (w * 4) as int, h as int)
                    } else {
                        rgba
                    },
                },
            ),
        }
    }
}

/// A decoding outcome as plain values.
pub open spec fn decoded_view(r: Result<Image, String>) -> Result<ImageView, Seq<char>> {
    match r {
        Ok(img) => Ok(img@),
        Err(e) => Err(e@),
    }
}

fn push_pixel(out: &mut Vec<u8>, b: &[u8], base: usize, bpp: usize)
    requires
        bpp == 3 || bpp == 4,
        base + bpp <= b@.len(),
    ensures
        final(out)@ == old(out)@ + pixel_bytes(b@, base as int, bpp as nat),
{
    let _len = b.len();
    let a = if bpp == 4 { b[base + 3] } else { 255u8 };
    out.push(b[base + 2]);
    out.push(b[base + 1]);
    out.push(b[base]);
    out.push(a);
    assert(final(out)@ =~= old(out)@ + pixel_bytes(b@, base as int, bpp as nat));
}

proof fn lemma_pixel_of_skip(b: Seq<u8>, off: int, base: int, bpp: nat, c: int)
    requires
        0 <= off,
        0 <= base,
        off + base + bpp <= b.len(),
        bpp == 3 || bpp == 4,
        0 <= c < 4,
    ensures
        tga_byte(b.skip(off), base, bpp, c) == tga_byte(b, off + base, bpp, c),
{
}

proof fn lemma_quarter(i: int, k: int)
    requires
        4 * k <= i < 4 * k + 4,
    ensures
        i / 4 == k,
        i % 4 == i - 4 * k,
{
}

/// Pushing the next stored pixel extends the run of raw pixels by one.
proof fn lemma_raw_step(b: Seq<u8>, off: int, bpp: nat, k: nat)
    requires
        0 <= off,
        off + (k + 1) * bpp <= b.len(),
        bpp == 3 || bpp == 4,
    ensures
        raw_pixels(b.skip(off), bpp, k) + pixel_bytes(b, off + k * bpp, bpp) == raw_pixels(
            b.skip(off),
            bpp,
            k + 1,
        ),
{
    let lhs = raw_pixels(b.skip(off), bpp, k) + pixel_bytes(b, off + k * bpp, bpp);
    let rhs = raw_pixels(b.skip(off), bpp, k + 1);
    assert forall|i: int| 0 <= i < (k + 1) * 4 implies lhs[i] == rhs[i] by {
        let q = i / 4;
        assert(0 <= q <= k);
        assert(q * bpp + bpp <= (k + 1) * bpp) by (nonlinear_arith)
            requires q <= k;
        assert(0 <= q * bpp) by (nonlinear_arith)
            requires q >= 0;
        if i >= 4 * k {
            lemma_quarter(i, k as int);
            lemma_pixel_of_skip(b, off, (k * bpp) as int, bpp, i % 4);
        } else {
            assert(i < k * 4);
            lemma_pixel_of_skip(b, off, q * bpp, bpp, i % 4);
        }
    }
    assert(lhs =~= rhs);
}

/// Pushing the run's pixel once more extends the repeated run by one.
proof fn lemma_repeat_step(b: Seq<u8>, off: int, bpp: nat, k: nat)
    requires
        0 <= off,
        off + bpp <= b.len(),
        bpp == 3 || bpp == 4,
    ensures
        repeated_pixel(b.skip(off), bpp, k) + pixel_bytes(b, off, bpp) == repeated_pixel(
            b.skip(off),
            bpp,
            k + 1,
        ),
{
    let lhs = repeated_pixel(b.skip(off), bpp, k) + pixel_bytes(b, off, bpp);
    let rhs = repeated_pixel(b.skip(off), bpp, k + 1);
    assert forall|i: int| 0 <= i < (k + 1) * 4 implies lhs[i] == rhs[i] by {
        lemma_pixel_of_skip(b, off, 0, bpp, i % 4);
        if i >= 4 * k {
            lemma_quarter(i, k as int);
        }
    }
    assert(lhs =~= rhs);
}

/// `k` stored pixels from `off`, pushed one after another.
fn push_raw(out: &mut Vec<u8>, b: &[u8], off: usize, bpp: usize, k: usize)
    requires
        bpp == 3 || bpp == 4,
        off + k * bpp <= b@.len(),
    ensures
        final(out)@ == old(out)@ + raw_pixels(b@.skip(off as int), bpp as nat, k as nat),
{
    let _len = b.len();
    let mut j: usize = 0;
    let mut base = off;
    while j < k
        invariant
            b@.len() <= usize::MAX,
            bpp == 3 || bpp == 4,
            off + k * bpp <= b@.len(),
            j <= k,
            base == off + j * bpp,
            out@ == old(out)@ + raw_pixels(b@.skip(off as int), bpp as nat, j as nat),
        decreases k - j,
    {
        proof {
            assert(off + (j + 1) * bpp <= off + k * bpp) by (nonlinear_arith)
                requires j < k, bpp >= 0;
            lemma_raw_step(b@, off as int, bpp as nat, j as nat);
        }
        push_pixel(out, b, base, bpp);
        proof {
            assert(out@ =~= old(out)@ + raw_pixels(b@.skip(off as int), bpp as nat, (j + 1) as nat));
            assert(base + bpp == off + (j + 1) * bpp) by (nonlinear_arith)
                requires base == off + j * bpp;
        }
        base = base + bpp;
        j += 1;
    }
}

/// The pixel at `off`, pushed `k` times.
fn push_repeated(out: &mut Vec<u8>, b: &[u8], off: usize, bpp: usize, k: usize)
    requires
        bpp == 3 || bpp == 4,
        off + bpp <= b@.len(),
    ensures
        final(out)@ == old(out)@ + repeated_pixel(b@.skip(off as int), bpp as nat, k as nat),
{
    let mut j: usize = 0;
    while j < k
        invariant
            bpp == 3 || bpp == 4,
            off + bpp <= b@.len(),
            j <= k,
            out@ == old(out)@ + repeated_pixel(b@.skip(off as int), bpp as nat, j as nat),
        decreases k - j,
    {
        proof {
            lemma_repeat_step(b@, off as int, bpp as nat, j as nat);
        }
        push_pixel(out, b, off, bpp);
        proof {
            assert(out@ =~= old(out)@ + repeated_pixel(b@.skip(off as int), bpp as nat, (j + 1) as nat));
        }
        j += 1;
    }
}

/// The length of a packet's run that still counts, when `need` pixels are wanted.
pub open spec fn run_taken(head: u8, need: nat) -> nat {
    let run = (head % 128) as nat + 1;
    if run < need {
        run
    } else {
        need
    }
}

/// Unfolds a repeat packet of the run-length stream at `pos`.
proof fn lemma_rle_repeat(b: Seq<u8>, pos: int, bpp: nat, need: nat)
    requires
        0 <= pos < b.len(),
        need > 0,
        b[pos] >= 128,
    ensures
        rle_pixels(b.skip(pos), bpp, need) == if b.len() - (pos + 1) < bpp {
            None
        } else {
            match rle_pixels(b.skip(pos + 1 + bpp), bpp, (need - run_taken(b[pos], need)) as nat) {
                Some(t) => Some(repeated_pixel(b.skip(pos + 1), bpp, run_taken(b[pos], need)) + t),
                None => None,
            }
        },
{
    let src = b.skip(pos);
    assert(src.drop_first() =~= b.skip(pos + 1));
    if b.len() - (pos + 1) >= bpp {
        assert(b.skip(pos + 1).skip(bpp as int) =~= b.skip(pos + 1 + bpp));
    }
}

/// Unfolds a packet of stored pixels of the run-length stream at `pos`.
proof fn lemma_rle_raw(b: Seq<u8>, pos: int, bpp: nat, need: nat)
    requires
        0 <= pos < b.len(),
        need > 0,
        b[pos] < 128,
    ensures
        rle_pixels(b.skip(pos), bpp, need) == if b.len() - (pos + 1) < ((b[pos] % 128) as nat + 1) * bpp {
            None
        } else {
            match rle_pixels(
                b.skip(pos + 1 + ((b[pos] % 128) as nat + 1) * bpp),
                bpp,
                (need - run_taken(b[pos], need)) as nat,
            ) {
                Some(t) => Some(raw_pixels(b.skip(pos + 1), bpp, run_taken(b[pos], need)) + t),
                None => None,
            }
        },
{
    let src = b.skip(pos);
    assert(src.drop_first() =~= b.skip(pos + 1));
    let run = (b[pos] % 128) as nat + 1;
    if b.len() - (pos + 1) >= run * bpp {
        assert(b.skip(pos + 1).skip((run * bpp) as int) =~= b.skip(pos + 1 + run * bpp));
    }
}

proof fn lemma_rle_empty(b: Seq<u8>, pos: int, bpp: nat, need: nat)
    requires
        pos == b.len(),
        need > 0,
    ensures
        rle_pixels(b.skip(pos), bpp, need) is None,
{
    assert(b.skip(pos).len() == 0);
}

/// The first `n` pixels of the run-length stream that starts at `start`, or
/// `None` when the stream ends first.
fn read_rle(b: &[u8], start: usize, bytes_pp: usize, n: usize) -> (r: Option<Vec<u8>>)
    requires
        bytes_pp == 3 || bytes_pp == 4,
        start <= b@.len(),
        n * 4 <= usize::MAX,
    ensures
        match r {
            Some(v) => rle_pixels(b@.skip(start as int), bytes_pp as nat, n as nat) == Some(v@),
            None => rle_pixels(b@.skip(start as int), bytes_pp as nat, n as nat) is None,
        },
{
    let ghost src = b@.skip(start as int);
    let mut rgba: Vec<u8> = Vec::new();
    let mut count: usize = 0;
    let mut pos: usize = start;
    while count < n
        invariant
            bytes_pp == 3 || bytes_pp == 4,
            pos <= b@.len(),
            count <= n,
            n * 4 <= usize::MAX,
            src == b@.skip(start as int),
            rle_pixels(src, bytes_pp as nat, n as nat) == match rle_pixels(
                b@.skip(pos as int),
                bytes_pp as nat,
                (n - count) as nat,
            ) {
                Some(t) => Some(rgba@ + t),
                None => None,
            },
        decreases n - count,
    {
        if pos >= b.len() {
            proof {
                lemma_rle_empty(b@, pos as int, bytes_pp as nat, (n - count) as nat);
            }
            return None;
        }
        let head = b[pos];
        let run = (head % 128) as usize + 1;
        let left = n - count;
        let k = if run < left { run } else { left };
        let ghost before = rgba@;
        let ghost at = pos as int;
        let ghost need = (n - count) as nat;
        if head >= 128 {
            proof {
                lemma_rle_repeat(b@, at, bytes_pp as nat, need);
            }
            if b.len() - (pos + 1) < bytes_pp {
                return None;
            }
            push_repeated(&mut rgba, b, pos + 1, bytes_pp, k);
            pos = pos + 1 + bytes_pp;
            proof {
                let t0 = repeated_pixel(b@.skip(at + 1), bytes_pp as nat, k as nat);
                match rle_pixels(b@.skip(pos as int), bytes_pp as nat, (n - count - k) as nat) {
                    Some(t) => {
                        assert(before + (t0 + t) =~= rgba@ + t);
                    },
                    None => {},
                }
            }
        } else {
            proof {
                lemma_rle_raw(b@, at, bytes_pp as nat, need);
            }
            if b.len() - (pos + 1) < run * bytes_pp {
                return None;
            }
            push_raw(&mut rgba, b, pos + 1, bytes_pp, k);
            pos = pos + 1 + run * bytes_pp;
            proof {
                let t0 = raw_pixels(b@.skip(at + 1), bytes_pp as nat, k as nat);
                match rle_pixels(b@.skip(pos as int), bytes_pp as nat, (n - count - k) as nat) {
                    Some(t) => {
                        assert(before + (t0 + t) =~= rgba@ + t);
                    },
                    None => {},
                }
            }
        }
        count = count + k;
    }
    proof {
        assert(rle_pixels(b@.skip(pos as int), bytes_pp as nat, 0) == Some(Seq::<u8>::empty()));
        assert(rgba@ + Seq::<u8>::empty() =~= rgba@);
    }
    Some(rgba)
}

/// A decoded run-length stream holds four bytes for each pixel asked for.
proof fn lemma_rle_len(src: Seq<u8>, bpp: nat, need: nat)
    ensures
        rle_pixels(src, bpp, need) matches Some(t) ==> t.len() == need * 4,
    decreases src.len(),
{
    if need > 0 && src.len() > 0 {
        let head = src[0];
        let rest = src.drop_first();
        let run = (head % 128) as nat + 1;
        let k = if run < need {
            run
        } else {
            need
        };
        if head >= 128 {
            if rest.len() >= bpp {
                lemma_rle_len(rest.skip(bpp as int), bpp, (need - k) as nat);
            }
        } else {
            if rest.len() >= run * bpp {
                lemma_rle_len(rest.skip((run * bpp) as int), bpp, (need - k) as nat);
            }
        }
    }
}

/// Reads a TGA file into an RGBA image, top row first when the file is stored
/// top-down and bottom row first otherwise.
pub fn decode(b: &[u8]) -> (r: Result<Image, String>)
    requires
        tga_header_ok(b@) ==> 18 + b@[0] <= b@.len(),
        tga_header_ok(b@) ==> u16_at(b@, 12) * u16_at(b@, 14) * 4 <= usize::MAX,
    ensures
        decoded_view(r) == spec_tga_decode(b@),
        r is Ok ==> image_wf(r->Ok_0@),
{
    if b.len() < 18 {
        proof {
            reveal_strlit("tga too short");
        }
        return Err(string_of("tga too short"));
    }
    let id_len = b[0] as usize;
    if b[1] != 0 {
        return Err(string_of("colour-mapped tga not supported"));
    }
    let kind = b[2];
    if kind != 2 && kind != 10 {
        let mut s = string_of("unsupported tga type ");
        push_decimal(&mut s, kind as u64);
        return Err(s);
    }
    let w = (b[12] as usize) + 256 * (b[13] as usize);
    let h = (b[14] as usize) + 256 * (b[15] as usize);
    let bpp = b[16];
    if bpp != 24 && bpp != 32 {
        let mut s = string_of("unsupported tga depth ");
        push_decimal(&mut s, bpp as u64);
        return Err(s);
    }
    let top_left = (b[17] / 32) % 2 == 1;
    let bytes_pp: usize = if bpp == 32 { 4 } else { 3 };
    let start = 18 + id_len;
    let ghost src = b@.skip(start as int);
    proof {
        assert(w * h * 4 <= usize::MAX);
        assert(w * h <= w * h * 4) by (nonlinear_arith)
            requires w * h >= 0;
        assert(w * h * bytes_pp <= w * h * 4) by (nonlinear_arith)
            requires w * h >= 0, bytes_pp <= 4;
    }
    let n = w * h;
    let mut rgba: Vec<u8> = Vec::new();
    if kind == 2 {
        if b.len() - start < n * bytes_pp {
            return Err(string_of("tga pixel data truncated"));
        }
        push_raw(&mut rgba, b, start, bytes_pp, n);
        assert(rgba@ =~= raw_pixels(src, bytes_pp as nat, n as nat));
    } else {
        match read_rle(b, start, bytes_pp, n) {
            Some(px) => {
                proof {
                    lemma_rle_len(src, bytes_pp as nat, n as nat);
                }
                rgba = px;
            },
            None => {
                return Err(string_of("tga rle truncated"));
            },
        }
    }
    proof {
        assert(rgba@.len() == w * h * 4);
    }
    let mut img = Image { w, h, rgba };
    if top_left {
        img.flip_rows();
    }
    Ok(img)
}

/// The bytes of a bottom-up, uncompressed 32-bit TGA of an RGBA image: the
/// header, then each whole pixel as blue, green, red and alpha.
pub open spec fn spec_tga_encode(v: ImageView) -> Seq<u8> {
    let w = v.w as u16;
    let h = v.h as u16;
    seq![0u8, 0, 2, 0, 0, 0, 0, 0, 0, 0, 0, 0, (w % 256) as u8, (w / 256) as u8, (h % 256) as u8, (h / 256) as u8, 32, 8]
        + swapped_pixels(v.rgba)
}

/// Whole RGBA pixels with red and blue swapped; a trailing part pixel is dropped.
pub open spec fn swapped_pixels(rgba: Seq<u8>) -> Seq<u8> {
    Seq::new(
        (rgba.len() / 4) * 4,
        |j: int|
            {
                let k = j % 4;
                if k == 0 {
                    rgba[j + 2]
                } else if k == 2 {
                    rgba[j - 2]
                } else {
                    rgba[j]
                }
            },
    )
}

/// Whole RGBA pixels with red and blue swapped.
fn swap_red_blue(px: &[u8]) -> (out: Vec<u8>)
    ensures
        out@ == swapped_pixels(px@),
{
    let n = px.len() / 4;
    let mut out: Vec<u8> = Vec::new();
    let mut k: usize = 0;
    while k < n
        invariant
            n == px@.len() / 4,
            px@.len() <= usize::MAX,
            k <= n,
            out@.len() == k * 4,
            forall|j: int| 0 <= j < out@.len() ==> out@[j] == swapped_pixels(px@)[j],
        decreases n - k,
    {
        proof {
            assert(k * 4 + 4 <= px@.len()) by (nonlinear_arith)
                requires k < n, n == px@.len() / 4;
        }
        let i = k * 4;
        out.push(px[i + 2]);
        out.push(px[i + 1]);
        out.push(px[i]);
        out.push(px[i + 3]);
        k += 1;
    }
    assert(out@ =~= swapped_pixels(px@));
    out
}

/// Writes an image as a bottom-up, uncompressed 32-bit TGA.
pub fn encode_rgba_bottom_up(img: &Image) -> (out: Vec<u8>)
    ensures
        out@ == spec_tga_encode(img@),
{
    let w = img.w as u16;
    let h = img.h as u16;
    let mut out: Vec<u8> = vec![0u8, 0, 2, 0, 0, 0, 0, 0, 0, 0, 0, 0];
    out.push((w % 256) as u8);
    out.push((w / 256) as u8);
    out.push((h % 256) as u8);
    out.push((h / 256) as u8);
    out.push(32);
    out.push(8);
    let mut px = swap_red_blue(img.rgba.as_slice());
    out.append(&mut px);
    assert(out@ =~= spec_tga_encode(img@));
    out
}

/// An image written as TGA reads back as the same image, for any image whose
/// sides fit the format's 16-bit fields.
pub proof fn lemma_tga_round_trip(v: ImageView)
    requires
        image_wf(v),
        v.w < 65536,
        v.h < 65536,
    ensures
        spec_tga_decode(spec_tga_encode(v)) == Ok::<ImageView, Seq<char>>(v),
{
    let b = spec_tga_encode(v);
    let w = v.w as u16;
    let h = v.h as u16;
    assert(w == v.w && h == v.h);
    assert(b[12] as nat + 256 * b[13] as nat == v.w);
    assert(b[14] as nat + 256 * b[15] as nat == v.h);
    let src = b.skip(18);
    let n = v.w * v.h;
    assert(v.rgba.len() == n * 4);
    assert(swapped_pixels(v.rgba).len() == n * 4) by (nonlinear_arith)
        requires v.rgba.len() == n * 4, swapped_pixels(v.rgba).len() == (v.rgba.len() / 4) * 4;
    assert(src =~= swapped_pixels(v.rgba));
    assert forall|i: int| 0 <= i < n * 4 implies raw_pixels(src, 4, n)[i] == v.rgba[i] by {
        let q = i / 4;
        let c = i % 4;
        assert(i == q * 4 + c);
        if c == 0 {
            assert(src[q * 4 + 2] == v.rgba[q * 4]);
        }
    }
    assert(raw_pixels(src, 4, n) =~= v.rgba);
}

} // verus!
