//! Generator settings kept in a map file: `-- gen.` comment lines read back
//! into the generator's form, and base64 text for the embedded images.
use vstd::prelude::*;
use crate::text::{
    push_char, chars_of, string_from, string_of, trim, trimmed, starts_with, has_prefix,
    char_pos, next_char, lemma_char_pos, sub_chars, parse_i32, parse_u32, to_i32, to_u32,
    split_on, split_chars, seqs_of, extend_chars, decimal, signed_decimal, push_decimal,
    push_signed, push_str, replace_all, replace_chars, join,
};
use crate::generator_panel::{Form, FormView, OwnImage, OwnImageView};
use crate::blueprint_editor::{Blueprint, BlueprintView, encode_png, encoded_outcome, png_encoded, png_fits};
use crate::wire::{Options, OptionsView};
use crate::textures::{decode_png, png_decoded, frame_rgba};
use vstd::string::StringSliceAdditionalSpecFns;
use vstd::utf8::{encode_utf8, is_ascii_chars};

verus! {

/// The base64 digit of a sextet.
pub open spec fn b64_char(v: int) -> char {
    if v < 26 {
        (65 + v) as char
    } else if v < 52 {
        (97 + v - 26) as char
    } else if v < 62 {
        (48 + v - 52) as char
    } else if v == 62 {
        '+'
    } else {
        '/'
    }
}

/// The four characters that one group of one to three bytes encodes to.
pub open spec fn enc_group(g: Seq<u8>) -> Seq<char> {
    let b0 = g[0] as int;
    let b1 = if g.len() > 1 { g[1] as int } else { 0 };
    let b2 = if g.len() > 2 { g[2] as int } else { 0 };
    seq![
        b64_char(b0 / 4),
        b64_char((b0 % 4) * 16 + b1 / 16),
        if g.len() > 1 { b64_char((b1 % 16) * 4 + b2 / 64) } else { '=' },
        if g.len() > 2 { b64_char(b2 % 64) } else { '=' },
    ]
}

/// Standard base64 with padding: each group of three bytes becomes four characters.
pub open spec fn spec_b64_encode(b: Seq<u8>) -> Seq<char>
    decreases b.len(),
{
    if b.len() == 0 {
        Seq::empty()
    } else if b.len() <= 3 {
        enc_group(b)
    } else {
        enc_group(b.take(3)) + spec_b64_encode(b.skip(3))
    }
}


fn digit_of(v: u32) -> (c: char)
    requires
        v < 64,
    ensures
        c == b64_char(v as int),
{
    if v < 26 {
        ((65 + v) as u8) as char
    } else if v < 52 {
        ((97 + v - 26) as u8) as char
    } else if v < 62 {
        ((48 + v - 52) as u8) as char
    } else if v == 62 {
        '+'
    } else {
        '/'
    }
}

proof fn lemma_sextets(b0: u8, b1: u8, b2: u8)
    ensures
        ({
            let n = ((b0 as u32) << 16u32) | ((b1 as u32) << 8u32) | (b2 as u32);
            &&& (n >> 18u32) & 63 == b0 as int / 4
            &&& (n >> 12u32) & 63 == (b0 as int % 4) * 16 + b1 as int / 16
            &&& (n >> 6u32) & 63 == (b1 as int % 16) * 4 + b2 as int / 64
            &&& n & 63 == b2 as int % 64
        }),
{
    let n = ((b0 as u32) << 16u32) | ((b1 as u32) << 8u32) | (b2 as u32);
    assert((n >> 18u32) & 63 == (b0 / 4) as u32 && (n >> 12u32) & 63 == ((b0 % 4) as u32) * 16 + (b1
        / 16) as u32 && (n >> 6u32) & 63 == ((b1 % 16) as u32) * 4 + (b2 / 64) as u32 && n & 63 == (b2
        % 64) as u32) by (bit_vector)
        requires
            n == ((b0 as u32) << 16u32) | ((b1 as u32) << 8u32) | (b2 as u32),
    ;
}

/// The bytes as standard padded base64 text.
pub fn base64_encode(bytes: &[u8]) -> (out: String)
    ensures
        out@ == spec_b64_encode(bytes@),
{
    let mut out = String::new();
    let mut i: usize = 0;
    let len = bytes.len();
    assert(bytes@.skip(0) =~= bytes@);
    assert(out@ =~= Seq::<char>::empty());
    while i < len
        invariant
            len == bytes@.len(),
            i <= len,
            out@ + spec_b64_encode(bytes@.skip(i as int)) == spec_b64_encode(bytes@),
        decreases len - i,
    {
        let rest = len - i;
        let b0 = bytes[i];
        let b1 = if rest > 1 { bytes[i + 1] } else { 0 };
        let b2 = if rest > 2 { bytes[i + 2] } else { 0 };
        let n = ((b0 as u32) << 16u32) | ((b1 as u32) << 8u32) | (b2 as u32);
        proof {
            lemma_sextets(b0, b1, b2);
        }
        let ghost before = out@;
        push_char(&mut out, digit_of((n >> 18u32) & 63));
        push_char(&mut out, digit_of((n >> 12u32) & 63));
        push_char(&mut out, if rest > 1 { digit_of((n >> 6u32) & 63) } else { '=' });
        push_char(&mut out, if rest > 2 { digit_of(n & 63) } else { '=' });
        proof {
            let s = bytes@.skip(i as int);
            let g = if rest > 3 { s.take(3) } else { s };
            assert(g[0] == b0);
            assert(rest > 1 ==> g[1] == b1);
            assert(rest > 2 ==> g[2] == b2);
            assert(out@ =~= before + enc_group(g));
            if rest > 3 {
                assert(s.skip(3) =~= bytes@.skip(i + 3));
                assert(spec_b64_encode(s) == enc_group(g) + spec_b64_encode(bytes@.skip(i + 3)));
            } else {
                assert(bytes@.skip(len as int) =~= Seq::<u8>::empty());
            }
        }
        i = if rest > 3 { i + 3 } else { len };
    }
    proof {
        assert(bytes@.skip(len as int) =~= Seq::<u8>::empty());
        assert(out@ =~= spec_b64_encode(bytes@));
    }
    out
}


/// The sextet that a base64 digit stands for.
pub open spec fn b64_value(c: u8) -> Option<u8> {
    if 65 <= c <= 90 {
        Some((c - 65) as u8)
    } else if 97 <= c <= 122 {
        Some((c - 97 + 26) as u8)
    } else if 48 <= c <= 57 {
        Some((c - 48 + 52) as u8)
    } else if c == 43 {
        Some(62u8)
    } else if c == 47 {
        Some(63u8)
    } else {
        None
    }
}

/// Space, tab and line breaks, which base64 text may hold anywhere.
pub open spec fn b64_blank(c: u8) -> bool {
    c == 32 || c == 13 || c == 10 || c == 9
}

/// The sextets of the text up to its first `=`, blanks skipped; nothing when
/// a character before that is neither a digit nor a blank.
pub open spec fn sextets(t: Seq<u8>) -> Option<Seq<u8>>
    decreases t.len(),
{
    if t.len() == 0 || t[0] == 61 {
        Some(Seq::empty())
    } else if b64_blank(t[0]) {
        sextets(t.drop_first())
    } else {
        match b64_value(t[0]) {
            Some(v) => match sextets(t.drop_first()) {
                Some(r) => Some(seq![v] + r),
                None => None,
            },
            None => None,
        }
    }
}

/// The whole bytes that one to four sextets carry.
pub open spec fn dec_group(v: Seq<u8>) -> Seq<u8> {
    let v0 = v[0] as int;
    let v1 = if v.len() > 1 { v[1] as int } else { 0 };
    let v2 = if v.len() > 2 { v[2] as int } else { 0 };
    let v3 = if v.len() > 3 { v[3] as int } else { 0 };
    let a = (v0 * 4 + v1 / 16) as u8;
    let b = ((v1 % 16) * 16 + v2 / 4) as u8;
    let c = ((v2 % 4) * 64 + v3) as u8;
    if v.len() <= 1 {
        Seq::empty()
    } else if v.len() == 2 {
        seq![a]
    } else if v.len() == 3 {
        seq![a, b]
    } else {
        seq![a, b, c]
    }
}

/// The bytes of a run of sextets, taken four at a time.
pub open spec fn dec_sextets(v: Seq<u8>) -> Seq<u8>
    decreases v.len(),
{
    if v.len() == 0 {
        Seq::empty()
    } else if v.len() <= 4 {
        dec_group(v)
    } else {
        dec_group(v.take(4)) + dec_sextets(v.skip(4))
    }
}

/// What base64 text decodes to.
pub open spec fn spec_b64_decode(t: Seq<u8>) -> Option<Seq<u8>> {
    match sextets(t) {
        Some(v) => Some(dec_sextets(v)),
        None => None,
    }
}

fn value_of(c: u8) -> (r: Option<u8>)
    ensures
        r == b64_value(c),
{
    if 65 <= c && c <= 90 {
        Some(c - 65)
    } else if 97 <= c && c <= 122 {
        Some(c - 97 + 26)
    } else if 48 <= c && c <= 57 {
        Some(c - 48 + 52)
    } else if c == 43 {
        Some(62)
    } else if c == 47 {
        Some(63)
    } else {
        None
    }
}

/// The bytes of base64 text; blanks are skipped, the first `=` ends the text,
/// and any other character that is not a digit gives nothing.
pub fn base64_decode(text: &str) -> (r: Option<Vec<u8>>)
    ensures
        match r {
            Some(v) => spec_b64_decode(text.spec_bytes()) == Some(v@),
            None => spec_b64_decode(text.spec_bytes()) is None,
        },
{
    let t = text.as_bytes();
    let ghost tb = t@;
    let mut vals: Vec<u8> = Vec::new();
    let mut i: usize = 0;
    let len = t.len();
    assert(tb.skip(0) =~= tb);
    assert(vals@ + Seq::<u8>::empty() =~= Seq::<u8>::empty());
    proof {
        match sextets(tb) {
            Some(r) => assert(vals@ + r =~= r),
            None => {},
        }
    }
    while i < len
        invariant_except_break
            i <= len,
            len == tb.len(),
            tb == t@,
            tb == text.spec_bytes(),
            sextets(tb) == match sextets(tb.skip(i as int)) {
                Some(r) => Some(vals@ + r),
                None => None,
            },
            forall|k: int| 0 <= k < vals@.len() ==> vals@[k] < 64,
        ensures
            tb == text.spec_bytes(),
            sextets(tb) == Some(vals@),
            forall|k: int| 0 <= k < vals@.len() ==> vals@[k] < 64,
        decreases len - i,
    {
        let c = t[i];
        proof {
            assert(tb.skip(i as int)[0] == c);
            assert(tb.skip(i as int).drop_first() =~= tb.skip(i + 1));
        }
        if c == 61 {
            break;
        }
        if c == 32 || c == 13 || c == 10 || c == 9 {
            i += 1;
            continue;
        }
        match value_of(c) {
            Some(v) => {
                let ghost before = vals@;
                vals.push(v);
                proof {
                    match sextets(tb.skip(i + 1)) {
                        Some(r) => assert(before + (seq![v] + r) =~= vals@ + r),
                        None => {},
                    }
                }
            },
            None => {
                proof {
                    assert(tb.skip(i as int).len() > 0);
                    assert(sextets(tb.skip(i as int)) is None);
                    assert(sextets(tb) is None);
                    assert(tb == text.spec_bytes());
                    assert(spec_b64_decode(text.spec_bytes()) is None);
                }
                return None;
            },
        }
        i += 1;
    }
    proof {
        if i == len {
            assert(tb.skip(i as int) =~= Seq::<u8>::empty());
            assert(vals@ + Seq::<u8>::empty() =~= vals@);
        }
    }
    let mut out: Vec<u8> = Vec::new();
    let n = vals.len();
    let mut k: usize = 0;
    assert(vals@.skip(0) =~= vals@);
    while k < n
        invariant
            n == vals@.len(),
            k <= n,
            forall|j: int| 0 <= j < vals@.len() ==> vals@[j] < 64,
            out@ + dec_sextets(vals@.skip(k as int)) == dec_sextets(vals@),
        decreases n - k,
    {
        let rest = n - k;
        let v0 = vals[k];
        let v1 = if rest > 1 { vals[k + 1] } else { 0 };
        let v2 = if rest > 2 { vals[k + 2] } else { 0 };
        let v3 = if rest > 3 { vals[k + 3] } else { 0 };
        let ghost before = out@;
        let a = ((v0 << 2u8) | (v1 >> 4u8)) as u8;
        let b = (((v1 & 15) << 4u8) | (v2 >> 2u8)) as u8;
        let c = (((v2 & 3) << 6u8) | v3) as u8;
        proof {
            assert(a == ((v0 as int) * 4 + (v1 as int) / 16) as u8 && b == (((v1 as int) % 16) * 16 + (v2
                as int) / 4) as u8 && c == (((v2 as int) % 4) * 64 + v3 as int) as u8) by (bit_vector)
                requires
                    v0 < 64,
                    v1 < 64,
                    v2 < 64,
                    v3 < 64,
                    a == ((v0 << 2u8) | (v1 >> 4u8)) as u8,
                    b == (((v1 & 15) << 4u8) | (v2 >> 2u8)) as u8,
                    c == (((v2 & 3) << 6u8) | v3) as u8,
            ;
        }
        if rest > 1 {
            out.push(a);
        }
        if rest > 2 {
            out.push(b);
        }
        if rest > 3 {
            out.push(c);
        }
        proof {
            let s = vals@.skip(k as int);
            let g = if rest > 4 { s.take(4) } else { s };
            assert(g[0] == v0);
            assert(rest > 1 ==> g[1] == v1);
            assert(rest > 2 ==> g[2] == v2);
            assert(rest > 3 ==> g[3] == v3);
            assert(out@ =~= before + dec_group(g));
            if rest > 4 {
                assert(s.skip(4) =~= vals@.skip(k + 4));
            } else {
                assert(vals@.skip(n as int) =~= Seq::<u8>::empty());
            }
        }
        k = if rest > 4 { k + 4 } else { n };
    }
    proof {
        assert(vals@.skip(n as int) =~= Seq::<u8>::empty());
        assert(out@ =~= dec_sextets(vals@));
    }
    Some(out)
}


/// The sextets that the base64 text of one group of one to three bytes carries.
pub open spec fn group_vals(g: Seq<u8>) -> Seq<u8> {
    let b0 = g[0] as int;
    let b1 = if g.len() > 1 { g[1] as int } else { 0 };
    let b2 = if g.len() > 2 { g[2] as int } else { 0 };
    let all = seq![
        (b0 / 4) as u8,
        ((b0 % 4) * 16 + b1 / 16) as u8,
        ((b1 % 16) * 4 + b2 / 64) as u8,
        (b2 % 64) as u8,
    ];
    all.take(g.len() as int + 1)
}

pub open spec fn all_vals(b: Seq<u8>) -> Seq<u8>
    decreases b.len(),
{
    if b.len() == 0 {
        Seq::empty()
    } else if b.len() <= 3 {
        group_vals(b)
    } else {
        group_vals(b.take(3)) + all_vals(b.skip(3))
    }
}

proof fn lemma_char_value(v: int)
    requires
        0 <= v < 64,
    ensures
        b64_value(b64_char(v) as u8) == Some(v as u8),
        (b64_char(v) as u8) != 61,
        !b64_blank(b64_char(v) as u8),
        (b64_char(v) as int) < 128,
{
}

proof fn lemma_sextets_prefix(d: Seq<u8>, y: Seq<u8>, vals: Seq<u8>)
    requires
        d.len() == vals.len(),
        forall|i: int| 0 <= i < d.len() ==> b64_value(#[trigger] d[i]) == Some(vals[i]) && d[i] != 61
            && !b64_blank(d[i]),
    ensures
        sextets(d + y) == match sextets(y) {
            Some(r) => Some(vals + r),
            None => None,
        },
    decreases d.len(),
{
    if d.len() == 0 {
        assert(d + y =~= y);
        match sextets(y) {
            Some(r) => assert(vals + r =~= r),
            None => {},
        }
    } else {
        let s = d + y;
        assert(s[0] == d[0]);
        assert(s.drop_first() =~= d.drop_first() + y);
        assert forall|i: int| 0 <= i < d.drop_first().len() implies b64_value(#[trigger] d.drop_first()[i])
            == Some(vals.drop_first()[i]) && d.drop_first()[i] != 61 && !b64_blank(d.drop_first()[i]) by {
            assert(d.drop_first()[i] == d[i + 1]);
        }
        lemma_sextets_prefix(d.drop_first(), y, vals.drop_first());
        match sextets(y) {
            Some(r) => assert(seq![vals[0]] + (vals.drop_first() + r) =~= vals + r),
            None => {},
        }
    }
}

/// The bytes of the characters of ASCII text.
pub open spec fn ascii_bytes(s: Seq<char>) -> Seq<u8> {
    Seq::new(s.len(), |i: int| s[i] as u8)
}

proof fn lemma_group_text(g: Seq<u8>, y: Seq<u8>)
    requires
        1 <= g.len() <= 3,
    ensures
        g.len() == 3 ==> sextets(ascii_bytes(enc_group(g)) + y) == match sextets(y) {
            Some(r) => Some(group_vals(g) + r),
            None => None,
        },
        g.len() < 3 ==> sextets(ascii_bytes(enc_group(g)) + y) == Some(group_vals(g)),
        dec_group(group_vals(g)) == g,
        is_ascii_chars(enc_group(g)),
{
    let e = enc_group(g);
    let a = ascii_bytes(e);
    let vals = group_vals(g);
    let b0 = g[0] as int;
    let b1 = if g.len() > 1 { g[1] as int } else { 0 };
    let b2 = if g.len() > 2 { g[2] as int } else { 0 };
    lemma_char_value(b0 / 4);
    lemma_char_value((b0 % 4) * 16 + b1 / 16);
    lemma_char_value((b1 % 16) * 4 + b2 / 64);
    lemma_char_value(b2 % 64);
    let k = g.len() as int + 1;
    let d = a.take(k);
    let tail = a.skip(k) + y;
    assert(a + y =~= d + tail);
    assert forall|i: int| 0 <= i < d.len() implies b64_value(#[trigger] d[i]) == Some(vals[i]) && d[i]
        != 61 && !b64_blank(d[i]) by {}
    lemma_sextets_prefix(d, tail, vals);
    if g.len() < 3 {
        assert(tail[0] == 61);
        assert(sextets(tail) == Some(Seq::<u8>::empty()));
        assert(vals + Seq::<u8>::empty() =~= vals);
    } else {
        assert(tail =~= y);
    }
    let dg = dec_group(vals);
    if g.len() == 1 {
        assert(dg =~= g);
    } else if g.len() == 2 {
        assert(dg =~= g);
    } else {
        assert(dg =~= g);
    }
    assert forall|i| 0 <= i < e.len() implies '\0' <= #[trigger] e[i] <= '\u{7f}' by {}
}

proof fn lemma_text_vals(b: Seq<u8>)
    ensures
        sextets(ascii_bytes(spec_b64_encode(b))) == Some(all_vals(b)),
        dec_sextets(all_vals(b)) == b,
        is_ascii_chars(spec_b64_encode(b)),
    decreases b.len(),
{
    if b.len() == 0 {
        assert(ascii_bytes(spec_b64_encode(b)) =~= Seq::<u8>::empty());
        assert(is_ascii_chars(spec_b64_encode(b)));
    } else if b.len() <= 3 {
        lemma_group_text(b, Seq::empty());
        assert(ascii_bytes(enc_group(b)) + Seq::<u8>::empty() =~= ascii_bytes(enc_group(b)));
        if b.len() == 3 {
            assert(group_vals(b) + Seq::<u8>::empty() =~= group_vals(b));
        }
    } else {
        let g = b.take(3);
        let r = b.skip(3);
        lemma_text_vals(r);
        lemma_group_text(g, ascii_bytes(spec_b64_encode(r)));
        assert(ascii_bytes(spec_b64_encode(b)) =~= ascii_bytes(enc_group(g)) + ascii_bytes(
            spec_b64_encode(r),
        ));
        let v = all_vals(b);
        assert(group_vals(g).len() == 4);
        assert(v.take(4) =~= group_vals(g));
        assert(v.skip(4) =~= all_vals(r));
        assert(g + r =~= b);
        assert(is_ascii_chars(spec_b64_encode(b))) by {
            let e = spec_b64_encode(b);
            assert(e =~= enc_group(g) + spec_b64_encode(r));
            assert forall|i| 0 <= i < e.len() implies '\0' <= #[trigger] e[i] <= '\u{7f}' by {
                if i < 4 {
                    assert(e[i] == enc_group(g)[i]);
                } else {
                    assert(e[i] == spec_b64_encode(r)[i - 4]);
                }
            }
        }
    }
}

/// Decoding the base64 text of any bytes gives the bytes back.
pub proof fn lemma_b64_round_trip(b: Seq<u8>)
    ensures
        spec_b64_decode(encode_utf8(spec_b64_encode(b))) == Some(b),
{
    lemma_text_vals(b);
    let e = spec_b64_encode(b);
    vstd::utf8::is_ascii_chars_encode_utf8(e);
    assert(encode_utf8(e) =~= ascii_bytes(e));
}


/// The start of a settings line.
pub const PREFIX: &'static str = "-- gen.";

/// A settings line's key and value: after the prefix, the key runs to the
/// first space and the value, trimmed, is the rest.
pub open spec fn key_value(line: Seq<char>) -> Option<(Seq<char>, Seq<char>)> {
    let t = trim(line);
    if starts_with(t, PREFIX@) {
        let rest = t.skip(PREFIX@.len() as int);
        let i = char_pos(rest, ' ');
        if i < rest.len() {
            Some((rest.take(i as int), trim(rest.skip(i as int + 1))))
        } else {
            Some((rest, Seq::empty()))
        }
    } else {
        None
    }
}

/// The keys and values of the settings lines, in order.
pub open spec fn pairs_of(lines: Seq<Seq<char>>) -> Seq<(Seq<char>, Seq<char>)>
    decreases lines.len(),
{
    if lines.len() == 0 {
        Seq::empty()
    } else {
        match key_value(lines.last()) {
            Some(kv) => pairs_of(lines.drop_last()).push(kv),
            None => pairs_of(lines.drop_last()),
        }
    }
}

/// Whether a value says yes.
pub open spec fn truthy(v: Seq<char>) -> bool {
    let t = trim(v);
    t == "1"@ || t == "true"@ || t == "yes"@ || t == "on"@
}

/// A value read as a number, or `or` where it does not read.
pub open spec fn int_or(v: Seq<char>, or: i32) -> i32 {
    match parse_i32(trim(v)) {
        Some(x) => x,
        None => or,
    }
}

/// A number read as `u8`.
pub open spec fn parse_u8(s: Seq<char>) -> Option<u8> {
    match parse_u32(s) {
        Some(v) => if v <= 255 {
            Some(v as u8)
        } else {
            None
        },
        None => None,
    }
}

/// The numbers of a comma-separated list that read as numbers.
pub open spec fn numbers_of(pieces: Seq<Seq<char>>) -> Seq<u32>
    decreases pieces.len(),
{
    if pieces.len() == 0 {
        Seq::empty()
    } else {
        match parse_u32(trim(pieces.last())) {
            Some(x) => numbers_of(pieces.drop_last()).push(x),
            None => numbers_of(pieces.drop_last()),
        }
    }
}

/// The place of the first name equal to `t`.
pub open spec fn name_index(names: Seq<Seq<char>>, t: Seq<char>) -> Option<nat>
    decreases names.len(),
{
    if names.len() == 0 {
        None
    } else if names[0] == t {
        Some(0)
    } else {
        match name_index(names.drop_first(), t) {
            Some(i) => Some(i + 1),
            None => None,
        }
    }
}

/// The place among the generator's numbers of a numeric setting's key.
pub open spec fn int_key(k: Seq<char>) -> Option<nat> {
    if k == "provinces"@ {
        Some(2)
    } else if k == "sea_part"@ {
        Some(3)
    } else if k == "mount_part"@ {
        Some(4)
    } else if k == "forest_part"@ {
        Some(5)
    } else if k == "farm_part"@ {
        Some(6)
    } else if k == "swamp_part"@ {
        Some(7)
    } else if k == "waste_part"@ {
        Some(8)
    } else if k == "highland_part"@ {
        Some(9)
    } else if k == "kelp_part"@ {
        Some(10)
    } else if k == "gorge_part"@ {
        Some(11)
    } else if k == "river_part"@ {
        Some(12)
    } else if k == "hills"@ {
        Some(13)
    } else if k == "rugedness"@ {
        Some(14)
    } else if k == "sea_size"@ {
        Some(15)
    } else if k == "extra_islands"@ {
        Some(16)
    } else if k == "bridges"@ {
        Some(17)
    } else if k == "blue_acc"@ {
        Some(18)
    } else if k == "cave_part"@ {
        Some(19)
    } else {
        None
    }
}

/// The place among the generator's switches of a switch setting's key.
pub open spec fn flag_key(k: Seq<char>) -> Option<nat> {
    if k == "no_water_prov"@ {
        Some(0)
    } else if k == "hwrap"@ {
        Some(1)
    } else if k == "vwrap"@ {
        Some(2)
    } else if k == "cave_world"@ {
        Some(3)
    } else if k == "caves_plane"@ {
        Some(4)
    } else {
        None
    }
}

/// Where the reading of the settings stands.
pub struct DecodeView {
    pub form: FormView,
    pub pool: Option<Seq<char>>,
    pub app: Option<Seq<char>>,
    pub known: nat,
    pub unknown: nat,
    pub own_label: Option<Seq<char>>,
    pub own_png: Seq<Seq<char>>,
    pub cave_label: Option<Seq<char>>,
    pub cave_png: Seq<Seq<char>>,
}

/// The form's value for a key: a known key sets its setting (a value that
/// does not read keeps the setting as it was) and counts as known; any other
/// key counts as unknown. Image lines are gathered for later.
#[verifier::opaque]
pub open spec fn apply_pair(st: DecodeView, k: Seq<char>, v: Seq<char>, layouts: Seq<Seq<char>>, caves: Seq<Seq<char>>) -> DecodeView {
    let f = st.form;
    let t = trim(v);
    let hit = DecodeView { known: st.known + 1, ..st };
    if k == "app"@ {
        DecodeView { app: Some(v), ..hit }
    } else if k == "pool"@ {
        DecodeView { pool: Some(v), ..hit }
    } else if k == "seed"@ {
        DecodeView {
            form: FormView {
                seed: match parse_u32(t) {
                    Some(x) => x,
                    None => f.seed,
                },
                ..f
            },
            ..hit
        }
    } else if k == "name"@ {
        DecodeView { form: FormView { name: v, ..f }, ..hit }
    } else if k == "new_game"@ {
        DecodeView { form: FormView { new_game: truthy(v), ..f }, ..hit }
    } else if k == "players"@ {
        DecodeView { form: FormView { players: int_or(v, f.players), ..f }, ..hit }
    } else if k == "per_player"@ {
        DecodeView { form: FormView { per_player_bucket: int_or(v, f.per_player_bucket), ..f }, ..hit }
    } else if k == "custom_count"@ {
        DecodeView { form: FormView { custom_count: truthy(v), ..f }, ..hit }
    } else if k == "auto_size"@ {
        DecodeView { form: FormView { auto_size: truthy(v), ..f }, ..hit }
    } else if k == "width"@ {
        DecodeView { form: FormView { width: int_or(v, f.width), ..f }, ..hit }
    } else if k == "height"@ {
        DecodeView { form: FormView { height: int_or(v, f.height), ..f }, ..hit }
    } else if k == "layout"@ {
        DecodeView {
            form: FormView {
                layout: match name_index(layouts, t) {
                    Some(i) => i as usize,
                    None => f.layout,
                },
                ..f
            },
            ..hit
        }
    } else if k == "cave_layout"@ {
        DecodeView {
            form: FormView {
                cave_layout: match name_index(caves, t) {
                    Some(i) => i as usize,
                    None => f.cave_layout,
                },
                ..f
            },
            ..hit
        }
    } else if int_key(k) is Some {
        let i = int_key(k)->0 as int;
        DecodeView {
            form: FormView {
                opts: OptionsView { ints: f.opts.ints.update(i, int_or(v, f.opts.ints[i])), ..f.opts },
                ..f
            },
            ..hit
        }
    } else if flag_key(k) is Some {
        let i = flag_key(k)->0 as int;
        DecodeView {
            form: FormView { opts: OptionsView { flags: f.opts.flags.update(i, truthy(v)), ..f.opts }, ..f },
            ..hit
        }
    } else if k == "roster"@ {
        DecodeView { form: FormView { roster: numbers_of(split_on(v, ',')), ..f }, ..hit }
    } else if k == "era"@ {
        DecodeView {
            form: FormView {
                era: match parse_u8(t) {
                    Some(e) => e,
                    None => f.era,
                },
                ..f
            },
            ..hit
        }
    } else if k == "generic_starts"@ {
        DecodeView { form: FormView { generic_starts: truthy(v), ..f }, ..hit }
    } else if k == "auto_starts"@ {
        DecodeView { form: FormView { auto_starts: truthy(v), ..f }, ..hit }
    } else if k == "own.label"@ {
        DecodeView { own_label: Some(v), ..hit }
    } else if k == "own.png"@ {
        DecodeView { own_png: st.own_png.push(v), ..hit }
    } else if k == "cave_own.label"@ {
        DecodeView { cave_label: Some(v), ..hit }
    } else if k == "cave_own.png"@ {
        DecodeView { cave_png: st.cave_png.push(v), ..hit }
    } else {
        DecodeView { unknown: st.unknown + 1, ..st }
    }
}

/// The form after all the pairs, from the first on.
pub open spec fn apply_all(st: DecodeView, kvs: Seq<(Seq<char>, Seq<char>)>, layouts: Seq<Seq<char>>, caves: Seq<Seq<char>>) -> DecodeView
    decreases kvs.len(),
{
    if kvs.len() == 0 {
        st
    } else {
        let (k, v) = kvs.last();
        apply_pair(apply_all(st, kvs.drop_last(), layouts, caves), k, v, layouts, caves)
    }
}

/// A chunk of an image's base64 text: what follows its first space (its
/// number), or all of it.
pub open spec fn chunk_body(c: Seq<char>) -> Seq<char> {
    let i = char_pos(c, ' ');
    if i < c.len() {
        c.skip(i as int + 1)
    } else {
        c
    }
}

/// The base64 text of an image's chunks, each trimmed, one after another.
pub open spec fn chunks_text(cs: Seq<Seq<char>>) -> Seq<char>
    decreases cs.len(),
{
    if cs.len() == 0 {
        Seq::empty()
    } else {
        chunks_text(cs.drop_last()) + trim(chunk_body(cs.last()))
    }
}

/// What the PNG reader makes of the bytes: the width, height and RGBA rows of
/// the first frame, where it reads and is 8-bit RGBA or RGB.
pub open spec fn png_image(bytes: Seq<u8>) -> Option<(u32, u32, Seq<u8>)> {
    match png_decoded(bytes) {
        Ok((w, h, c, d, data)) => match frame_rgba(c, d, data) {
            Some(rgba) => Some((w, h, rgba)),
            None => None,
        },
        Err(_) => None,
    }
}

/// RGBA pixels as BGRA, or back: the first and third byte of each whole
/// pixel swap.
pub open spec fn swap_rb(s: Seq<u8>) -> Seq<u8> {
    Seq::new(
        ((s.len() / 4) * 4) as nat,
        |i: int|
            if i % 4 == 0 {
                s[i + 2]
            } else if i % 4 == 2 {
                s[i - 2]
            } else {
                s[i]
            },
    )
}

/// The image kept in the settings: its chunks' base64 text, read as a PNG,
/// with its label ("saved image" where it has none).
pub open spec fn image_from(label: Option<Seq<char>>, chunks: Seq<Seq<char>>) -> Option<OwnImageView> {
    if chunks.len() == 0 {
        None
    } else {
        match spec_b64_decode(encode_utf8(chunks_text(chunks))) {
            None => None,
            Some(png) => match png_image(png) {
                None => None,
                Some((w, h, rgba)) => Some(
                    OwnImageView {
                        label: match label {
                            Some(l) => l,
                            None => "saved image"@,
                        },
                        image: BlueprintView { w: w as i32, h: h as i32, bgra: swap_rb(rgba) },
                    },
                ),
            },
        }
    }
}

/// What reading settings gives: the form, the generator's random pool and
/// the app version the map was made with, and how many keys were known and
/// not.
pub struct Applied {
    pub form: Form,
    pub pool: Option<String>,
    pub app: Option<String>,
    pub known: usize,
    pub unknown: usize,
}

/// A text that may be missing, as plain values.
pub open spec fn opt_text(o: Option<String>) -> Option<Seq<char>> {
    match o {
        Some(s) => Some(s@),
        None => None,
    }
}

/// The settings read back into a form. Where the lines hold no settings line
/// there is nothing; else the keys apply to the form given, from the first
/// line on, the images are read from their chunks, and the seed counts as
/// chosen by hand.
pub open spec fn spec_decode(lines: Seq<Seq<char>>, base: FormView, layouts: Seq<Seq<char>>, caves: Seq<Seq<char>>) -> Option<DecodeView> {
    let kvs = pairs_of(lines);
    if kvs.len() == 0 {
        None
    } else {
        let start = DecodeView {
            form: base,
            pool: None,
            app: None,
            known: 0,
            unknown: 0,
            own_label: None,
            own_png: Seq::empty(),
            cave_label: None,
            cave_png: Seq::empty(),
        };
        let st = apply_all(start, kvs, layouts, caves);
        Some(
            DecodeView {
                form: FormView {
                    own: image_from(st.own_label, st.own_png),
                    cave_own: image_from(st.cave_label, st.cave_png),
                    manual_seed: true,
                    ..st.form
                },
                ..st
            },
        )
    }
}


fn same_seq(a: &[char], b: &[char]) -> (r: bool)
    ensures
        r == (a@ == b@),
{
    if a.len() != b.len() {
        return false;
    }
    let mut i: usize = 0;
    while i < a.len()
        invariant
            i <= a@.len(),
            a@.len() == b@.len(),
            forall|j: int| 0 <= j < i ==> a@[j] == b@[j],
        decreases a@.len() - i,
    {
        if a[i] != b[i] {
            return false;
        }
        i += 1;
    }
    assert(a@ =~= b@);
    true
}

fn is_key(k: &Vec<char>, lit: &str) -> (r: bool)
    ensures
        r == (k@ == lit@),
{
    let b = chars_of(lit);
    same_seq(k.as_slice(), b.as_slice())
}

fn set_int(o: &mut Options, i: usize, v: i32)
    requires
        i < 20,
    ensures
        final(o)@ == (OptionsView { ints: old(o)@.ints.update(i as int, v), ..old(o)@ }),
{
    if i == 0 {
        o.width = v;
    } else if i == 1 {
        o.height = v;
    } else if i == 2 {
        o.provinces = v;
    } else if i == 3 {
        o.sea_part = v;
    } else if i == 4 {
        o.mount_part = v;
    } else if i == 5 {
        o.forest_part = v;
    } else if i == 6 {
        o.farm_part = v;
    } else if i == 7 {
        o.swamp_part = v;
    } else if i == 8 {
        o.waste_part = v;
    } else if i == 9 {
        o.highland_part = v;
    } else if i == 10 {
        o.kelp_part = v;
    } else if i == 11 {
        o.gorge_part = v;
    } else if i == 12 {
        o.river_part = v;
    } else if i == 13 {
        o.hills = v;
    } else if i == 14 {
        o.rugedness = v;
    } else if i == 15 {
        o.sea_size = v;
    } else if i == 16 {
        o.extra_islands = v;
    } else if i == 17 {
        o.bridges = v;
    } else if i == 18 {
        o.blue_acc = v;
    } else {
        o.cave_part = v;
    }
    assert(o@.ints =~= old(o)@.ints.update(i as int, v));
}

fn get_int(o: &Options, i: usize) -> (r: i32)
    requires
        i < 20,
    ensures
        r == o@.ints[i as int],
{
    if i == 0 {
        o.width
    } else if i == 1 {
        o.height
    } else if i == 2 {
        o.provinces
    } else if i == 3 {
        o.sea_part
    } else if i == 4 {
        o.mount_part
    } else if i == 5 {
        o.forest_part
    } else if i == 6 {
        o.farm_part
    } else if i == 7 {
        o.swamp_part
    } else if i == 8 {
        o.waste_part
    } else if i == 9 {
        o.highland_part
    } else if i == 10 {
        o.kelp_part
    } else if i == 11 {
        o.gorge_part
    } else if i == 12 {
        o.river_part
    } else if i == 13 {
        o.hills
    } else if i == 14 {
        o.rugedness
    } else if i == 15 {
        o.sea_size
    } else if i == 16 {
        o.extra_islands
    } else if i == 17 {
        o.bridges
    } else if i == 18 {
        o.blue_acc
    } else {
        o.cave_part
    }
}

fn set_flag(o: &mut Options, i: usize, v: bool)
    requires
        i < 5,
    ensures
        final(o)@ == (OptionsView { flags: old(o)@.flags.update(i as int, v), ..old(o)@ }),
{
    if i == 0 {
        o.no_water_prov = v;
    } else if i == 1 {
        o.hwrap = v;
    } else if i == 2 {
        o.vwrap = v;
    } else if i == 3 {
        o.cave_world = v;
    } else {
        o.caves_plane = v;
    }
    assert(o@.flags =~= old(o)@.flags.update(i as int, v));
}

fn int_key_of(k: &Vec<char>) -> (r: Option<usize>)
    ensures
        match r {
            Some(i) => int_key(k@) == Some(i as nat) && 2 <= i < 20,
            None => int_key(k@) is None,
        },
{
    proof {
        reveal_strlit("app");
        reveal_strlit("pool");
        reveal_strlit("seed");
        reveal_strlit("name");
        reveal_strlit("new_game");
        reveal_strlit("players");
        reveal_strlit("per_player");
        reveal_strlit("custom_count");
        reveal_strlit("auto_size");
        reveal_strlit("width");
        reveal_strlit("height");
        reveal_strlit("layout");
        reveal_strlit("cave_layout");
        reveal_strlit("provinces");
        reveal_strlit("sea_part");
        reveal_strlit("mount_part");
        reveal_strlit("forest_part");
        reveal_strlit("farm_part");
        reveal_strlit("swamp_part");
        reveal_strlit("waste_part");
        reveal_strlit("highland_part");
        reveal_strlit("kelp_part");
        reveal_strlit("gorge_part");
        reveal_strlit("river_part");
        reveal_strlit("hills");
        reveal_strlit("rugedness");
        reveal_strlit("sea_size");
        reveal_strlit("extra_islands");
        reveal_strlit("bridges");
        reveal_strlit("blue_acc");
        reveal_strlit("cave_part");
        reveal_strlit("no_water_prov");
        reveal_strlit("hwrap");
        reveal_strlit("vwrap");
        reveal_strlit("cave_world");
        reveal_strlit("caves_plane");
        reveal_strlit("roster");
        reveal_strlit("era");
        reveal_strlit("generic_starts");
        reveal_strlit("auto_starts");
        reveal_strlit("own.label");
        reveal_strlit("own.png");
        reveal_strlit("cave_own.label");
        reveal_strlit("cave_own.png");
    }
    if is_key(k, "provinces") {
        return Some(2);
    }
    if is_key(k, "sea_part") {
        return Some(3);
    }
    if is_key(k, "mount_part") {
        return Some(4);
    }
    if is_key(k, "forest_part") {
        return Some(5);
    }
    if is_key(k, "farm_part") {
        return Some(6);
    }
    if is_key(k, "swamp_part") {
        return Some(7);
    }
    if is_key(k, "waste_part") {
        return Some(8);
    }
    if is_key(k, "highland_part") {
        return Some(9);
    }
    if is_key(k, "kelp_part") {
        return Some(10);
    }
    if is_key(k, "gorge_part") {
        return Some(11);
    }
    if is_key(k, "river_part") {
        return Some(12);
    }
    if is_key(k, "hills") {
        return Some(13);
    }
    if is_key(k, "rugedness") {
        return Some(14);
    }
    if is_key(k, "sea_size") {
        return Some(15);
    }
    if is_key(k, "extra_islands") {
        return Some(16);
    }
    if is_key(k, "bridges") {
        return Some(17);
    }
    if is_key(k, "blue_acc") {
        return Some(18);
    }
    if is_key(k, "cave_part") {
        return Some(19);
    }
    None
}

fn flag_key_of(k: &Vec<char>) -> (r: Option<usize>)
    ensures
        match r {
            Some(i) => flag_key(k@) == Some(i as nat) && i < 5,
            None => flag_key(k@) is None,
        },
{
    proof {
        reveal_strlit("app");
        reveal_strlit("pool");
        reveal_strlit("seed");
        reveal_strlit("name");
        reveal_strlit("new_game");
        reveal_strlit("players");
        reveal_strlit("per_player");
        reveal_strlit("custom_count");
        reveal_strlit("auto_size");
        reveal_strlit("width");
        reveal_strlit("height");
        reveal_strlit("layout");
        reveal_strlit("cave_layout");
        reveal_strlit("provinces");
        reveal_strlit("sea_part");
        reveal_strlit("mount_part");
        reveal_strlit("forest_part");
        reveal_strlit("farm_part");
        reveal_strlit("swamp_part");
        reveal_strlit("waste_part");
        reveal_strlit("highland_part");
        reveal_strlit("kelp_part");
        reveal_strlit("gorge_part");
        reveal_strlit("river_part");
        reveal_strlit("hills");
        reveal_strlit("rugedness");
        reveal_strlit("sea_size");
        reveal_strlit("extra_islands");
        reveal_strlit("bridges");
        reveal_strlit("blue_acc");
        reveal_strlit("cave_part");
        reveal_strlit("no_water_prov");
        reveal_strlit("hwrap");
        reveal_strlit("vwrap");
        reveal_strlit("cave_world");
        reveal_strlit("caves_plane");
        reveal_strlit("roster");
        reveal_strlit("era");
        reveal_strlit("generic_starts");
        reveal_strlit("auto_starts");
        reveal_strlit("own.label");
        reveal_strlit("own.png");
        reveal_strlit("cave_own.label");
        reveal_strlit("cave_own.png");
    }
    if is_key(k, "no_water_prov") {
        return Some(0);
    }
    if is_key(k, "hwrap") {
        return Some(1);
    }
    if is_key(k, "vwrap") {
        return Some(2);
    }
    if is_key(k, "cave_world") {
        return Some(3);
    }
    if is_key(k, "caves_plane") {
        return Some(4);
    }
    None
}

fn key_value_of(line: &[char]) -> (r: Option<(Vec<char>, Vec<char>)>)
    ensures
        match r {
            Some((k, v)) => key_value(line@) == Some((k@, v@)),
            None => key_value(line@) is None,
        },
{
    let t = trimmed(line);
    let p = chars_of(PREFIX);
    if !has_prefix(t.as_slice(), p.as_slice()) {
        return None;
    }
    let rest = sub_chars(t.as_slice(), p.len(), t.len());
    assert(rest@ =~= t@.skip(PREFIX@.len() as int));
    let i = next_char(rest.as_slice(), 0, ' ');
    proof {
        assert(rest@.skip(0) =~= rest@);
        lemma_char_pos(rest@, ' ');
    }
    if i < rest.len() {
        let k = sub_chars(rest.as_slice(), 0, i);
        let tail = sub_chars(rest.as_slice(), i + 1, rest.len());
        assert(k@ =~= rest@.take(i as int));
        assert(tail@ =~= rest@.skip(i + 1));
        Some((k, trimmed(tail.as_slice())))
    } else {
        Some((rest, Vec::new()))
    }
}

fn truthy_of(v: &Vec<char>) -> (b: bool)
    ensures
        b == truthy(v@),
{
    let t = trimmed(v.as_slice());
    is_key(&t, "1") || is_key(&t, "true") || is_key(&t, "yes") || is_key(&t, "on")
}

fn int_or_of(v: &Vec<char>, or: i32) -> (r: i32)
    ensures
        r == int_or(v@, or),
{
    let t = trimmed(v.as_slice());
    match to_i32(t.as_slice()) {
        Some(x) => x,
        None => or,
    }
}

fn parse_u8_of(t: &[char]) -> (r: Option<u8>)
    ensures
        r == parse_u8(t@),
{
    match to_u32(t) {
        Some(v) => if v <= 255 {
            Some(v as u8)
        } else {
            None
        },
        None => None,
    }
}

fn numbers_from(v: &Vec<char>) -> (r: Vec<u32>)
    ensures
        r@ == numbers_of(split_on(v@, ',')),
{
    let pieces = split_chars(v.as_slice(), ',');
    let ghost ps = seqs_of(pieces@);
    let mut r: Vec<u32> = Vec::new();
    let mut i: usize = 0;
    assert(ps.take(0) =~= Seq::<Seq<char>>::empty());
    while i < pieces.len()
        invariant
            i <= pieces@.len(),
            ps == seqs_of(pieces@),
            r@ == numbers_of(ps.take(i as int)),
        decreases pieces@.len() - i,
    {
        proof {
            assert(ps.take(i + 1).drop_last() =~= ps.take(i as int));
            assert(ps[i as int] == pieces@[i as int]@);
        }
        let t = trimmed(pieces[i].as_slice());
        match to_u32(t.as_slice()) {
            Some(x) => {
                r.push(x);
            },
            None => {},
        }
        i += 1;
    }
    assert(ps.take(pieces@.len() as int) =~= ps);
    r
}

/// The names as plain values.
pub open spec fn names_view(names: Seq<&str>) -> Seq<Seq<char>> {
    names.map_values(|n: &str| n@)
}

fn name_index_of(names: &[&str], t: &Vec<char>) -> (r: Option<usize>)
    ensures
        match r {
            Some(i) => name_index(names_view(names@), t@) == Some(i as nat),
            None => name_index(names_view(names@), t@) is None,
        },
{
    let ghost nv = names_view(names@);
    let mut i: usize = 0;
    assert(nv.skip(0) =~= nv);
    while i < names.len()
        invariant
            i <= names@.len(),
            nv == names_view(names@),
            name_index(nv, t@) == match name_index(nv.skip(i as int), t@) {
                Some(j) => Some((j + i) as nat),
                None => None::<nat>,
            },
        decreases names@.len() - i,
    {
        assert(nv.skip(i as int)[0] == names@[i as int]@);
        assert(nv.skip(i as int).drop_first() =~= nv.skip(i + 1));
        let c = chars_of(names[i]);
        if same_seq(c.as_slice(), t.as_slice()) {
            return Some(i);
        }
        i += 1;
    }
    None
}

struct DecodeState {
    form: Form,
    pool: Option<String>,
    app: Option<String>,
    known: usize,
    unknown: usize,
    own_label: Option<Vec<char>>,
    own_png: Vec<Vec<char>>,
    cave_label: Option<Vec<char>>,
    cave_png: Vec<Vec<char>>,
}

/// Characters that may be missing, as plain values.
pub open spec fn opt_chars(o: Option<Vec<char>>) -> Option<Seq<char>> {
    match o {
        Some(c) => Some(c@),
        None => None,
    }
}

impl DecodeState {
    spec fn view(&self) -> DecodeView {
        DecodeView {
            form: self.form@,
            pool: opt_text(self.pool),
            app: opt_text(self.app),
            known: self.known as nat,
            unknown: self.unknown as nat,
            own_label: opt_chars(self.own_label),
            own_png: seqs_of(self.own_png@),
            cave_label: opt_chars(self.cave_label),
            cave_png: seqs_of(self.cave_png@),
        }
    }
}

#[verifier::spinoff_prover]
#[verifier::rlimit(100)]
fn apply(st: &mut DecodeState, k: &Vec<char>, v: &Vec<char>, layouts: &[&str], caves: &[&str])
    requires
        old(st).known + old(st).unknown < usize::MAX,
    ensures
        final(st).view() == apply_pair(old(st).view(), k@, v@, names_view(layouts@), names_view(caves@)),
        final(st).known + final(st).unknown == old(st).known + old(st).unknown + 1,
{
    proof {
        reveal(apply_pair);
    }
    proof {
        reveal_strlit("app");
        reveal_strlit("pool");
        reveal_strlit("seed");
        reveal_strlit("name");
        reveal_strlit("new_game");
        reveal_strlit("players");
        reveal_strlit("per_player");
        reveal_strlit("custom_count");
        reveal_strlit("auto_size");
        reveal_strlit("width");
        reveal_strlit("height");
        reveal_strlit("layout");
        reveal_strlit("cave_layout");
        reveal_strlit("provinces");
        reveal_strlit("sea_part");
        reveal_strlit("mount_part");
        reveal_strlit("forest_part");
        reveal_strlit("farm_part");
        reveal_strlit("swamp_part");
        reveal_strlit("waste_part");
        reveal_strlit("highland_part");
        reveal_strlit("kelp_part");
        reveal_strlit("gorge_part");
        reveal_strlit("river_part");
        reveal_strlit("hills");
        reveal_strlit("rugedness");
        reveal_strlit("sea_size");
        reveal_strlit("extra_islands");
        reveal_strlit("bridges");
        reveal_strlit("blue_acc");
        reveal_strlit("cave_part");
        reveal_strlit("no_water_prov");
        reveal_strlit("hwrap");
        reveal_strlit("vwrap");
        reveal_strlit("cave_world");
        reveal_strlit("caves_plane");
        reveal_strlit("roster");
        reveal_strlit("era");
        reveal_strlit("generic_starts");
        reveal_strlit("auto_starts");
        reveal_strlit("own.label");
        reveal_strlit("own.png");
        reveal_strlit("cave_own.label");
        reveal_strlit("cave_own.png");
    }
    let t = trimmed(v.as_slice());
    let ghost before = st.view();
    let mut hit = true;
    if is_key(k, "app") {
        st.app = Some(string_from(v.as_slice()));
    } else if is_key(k, "pool") {
        st.pool = Some(string_from(v.as_slice()));
    } else if is_key(k, "seed") {
        match to_u32(t.as_slice()) {
            Some(x) => {
                st.form.seed = x;
            },
            None => {},
        }
    } else if is_key(k, "name") {
        st.form.name = string_from(v.as_slice());
    } else if is_key(k, "new_game") {
        st.form.new_game = truthy_of(v);
    } else if is_key(k, "players") {
        st.form.players = int_or_of(v, st.form.players);
    } else if is_key(k, "per_player") {
        st.form.per_player_bucket = int_or_of(v, st.form.per_player_bucket);
    } else if is_key(k, "custom_count") {
        st.form.custom_count = truthy_of(v);
    } else if is_key(k, "auto_size") {
        st.form.auto_size = truthy_of(v);
    } else if is_key(k, "width") {
        st.form.width = int_or_of(v, st.form.width);
    } else if is_key(k, "height") {
        st.form.height = int_or_of(v, st.form.height);
    } else if is_key(k, "layout") {
        match name_index_of(layouts, &t) {
            Some(i) => {
                st.form.layout = i;
            },
            None => {},
        }
    } else if is_key(k, "cave_layout") {
        match name_index_of(caves, &t) {
            Some(i) => {
                st.form.cave_layout = i;
            },
            None => {},
        }
    } else {
        match int_key_of(k) {
            Some(i) => {
                let cur = get_int(&st.form.opts, i);
                set_int(&mut st.form.opts, i, int_or_of(v, cur));
            },
            None => match flag_key_of(k) {
                Some(i) => {
                    set_flag(&mut st.form.opts, i, truthy_of(v));
                },
                None => {
                    if is_key(k, "roster") {
                        st.form.roster = numbers_from(v);
                    } else if is_key(k, "era") {
                        match parse_u8_of(t.as_slice()) {
                            Some(e) => {
                                st.form.era = e;
                            },
                            None => {},
                        }
                    } else if is_key(k, "generic_starts") {
                        st.form.generic_starts = truthy_of(v);
                    } else if is_key(k, "auto_starts") {
                        st.form.auto_starts = truthy_of(v);
                    } else if is_key(k, "own.label") {
                        st.own_label = Some(sub_chars(v.as_slice(), 0, v.len()));
                        assert(v@.subrange(0, v@.len() as int) =~= v@);
                    } else if is_key(k, "own.png") {
                        let ghost b = st.own_png@;
                        st.own_png.push(sub_chars(v.as_slice(), 0, v.len()));
                        assert(v@.subrange(0, v@.len() as int) =~= v@);
                        assert(seqs_of(st.own_png@) =~= seqs_of(b).push(v@));
                    } else if is_key(k, "cave_own.label") {
                        st.cave_label = Some(sub_chars(v.as_slice(), 0, v.len()));
                        assert(v@.subrange(0, v@.len() as int) =~= v@);
                    } else if is_key(k, "cave_own.png") {
                        let ghost b = st.cave_png@;
                        st.cave_png.push(sub_chars(v.as_slice(), 0, v.len()));
                        assert(v@.subrange(0, v@.len() as int) =~= v@);
                        assert(seqs_of(st.cave_png@) =~= seqs_of(b).push(v@));
                    } else {
                        hit = false;
                    }
                }
            },
        }
    }
    if hit {
        st.known = st.known + 1;
    } else {
        st.unknown = st.unknown + 1;
    }
    proof {
        assert(st.view() =~~= apply_pair(before, k@, v@, names_view(layouts@), names_view(caves@)));
    }
}

fn chunks_text_of(cs: &Vec<Vec<char>>) -> (r: Vec<char>)
    ensures
        r@ == chunks_text(seqs_of(cs@)),
{
    let ghost s = seqs_of(cs@);
    let mut r: Vec<char> = Vec::new();
    let mut i: usize = 0;
    assert(s.take(0) =~= Seq::<Seq<char>>::empty());
    while i < cs.len()
        invariant
            i <= cs@.len(),
            s == seqs_of(cs@),
            r@ == chunks_text(s.take(i as int)),
        decreases cs@.len() - i,
    {
        proof {
            assert(s.take(i + 1).drop_last() =~= s.take(i as int));
            assert(s[i as int] == cs@[i as int]@);
        }
        let c = &cs[i];
        let sp = next_char(c.as_slice(), 0, ' ');
        proof {
            assert(c@.skip(0) =~= c@);
            lemma_char_pos(c@, ' ');
        }
        let body = if sp < c.len() {
            sub_chars(c.as_slice(), sp + 1, c.len())
        } else {
            sub_chars(c.as_slice(), 0, c.len())
        };
        proof {
            if sp < c@.len() {
                assert(body@ =~= c@.skip(sp + 1));
            } else {
                assert(body@ =~= c@);
            }
        }
        let t = trimmed(body.as_slice());
        extend_chars(&mut r, t.as_slice());
        i += 1;
    }
    assert(s.take(cs@.len() as int) =~= s);
    r
}

fn swap_pixels(rgba: &Vec<u8>) -> (r: Vec<u8>)
    ensures
        r@ == swap_rb(rgba@),
{
    let len = rgba.len();
    let n = len / 4;
    let mut r: Vec<u8> = Vec::new();
    let mut i: usize = 0;
    while i < n
        invariant
            i <= n,
            len == rgba@.len(),
            n == rgba@.len() / 4,
            r@.len() == 4 * i,
            forall|j: int| 0 <= j < r@.len() ==> r@[j] == swap_rb(rgba@)[j],
        decreases n - i,
    {
        assert(4 * i + 3 < len) by (nonlinear_arith)
            requires
                i < n,
                n == len / 4,
        ;
        let b = 4 * i;
        r.push(rgba[b + 2]);
        r.push(rgba[b + 1]);
        r.push(rgba[b]);
        r.push(rgba[b + 3]);
        proof {
            assert forall|j: int| 0 <= j < r@.len() implies r@[j] == swap_rb(rgba@)[j] by {
                if j >= 4 * i {
                    assert(j % 4 == j - 4 * i);
                }
            }
        }
        i += 1;
    }
    assert(r@ =~= swap_rb(rgba@));
    r
}

fn image_of(label: &Option<Vec<char>>, chunks: &Vec<Vec<char>>) -> (r: Option<OwnImage>)
    ensures
        match r {
            Some(img) => image_from(opt_chars(*label), seqs_of(chunks@)) == Some(img@),
            None => image_from(opt_chars(*label), seqs_of(chunks@)) is None,
        },
{
    if chunks.len() == 0 {
        return None;
    }
    let text = chunks_text_of(chunks);
    let s = string_from(text.as_slice());
    let png = match base64_decode(s.as_str()) {
        Some(p) => p,
        None => {
            return None;
        },
    };
    let img = match decode_png(png.as_slice()) {
        Ok(i) => i,
        Err(_) => {
            return None;
        },
    };
    let bgra = swap_pixels(&img.rgba);
    let name = match label {
        Some(l) => string_from(l.as_slice()),
        None => string_of("saved image"),
    };
    Some(OwnImage { label: name, image: Blueprint { w: img.w as i32, h: img.h as i32, bgra } })
}

/// The settings read back from a map's lines into the form given, with the
/// names of the surface and cave layouts that a `layout` or `cave_layout`
/// key may name. Nothing where the lines hold no settings line.
#[verifier::spinoff_prover]
#[verifier::rlimit(60)]
pub fn decode(lines: &[String], base: Form, layouts: &[&str], caves: &[&str]) -> (r: Option<Applied>)
    ensures
        match r {
            None => spec_decode(lines@.map_values(|l: String| l@), base@, names_view(layouts@), names_view(caves@)) is None,
            Some(a) => spec_decode(lines@.map_values(|l: String| l@), base@, names_view(layouts@), names_view(caves@))
                == Some(
                DecodeView {
                    form: a.form@,
                    pool: opt_text(a.pool),
                    app: opt_text(a.app),
                    known: a.known as nat,
                    unknown: a.unknown as nat,
                    ..spec_decode(lines@.map_values(|l: String| l@), base@, names_view(layouts@), names_view(caves@))->0
                },
            ),
        },
{
    let ghost ls = lines@.map_values(|l: String| l@);
    let mut kvs: Vec<(Vec<char>, Vec<char>)> = Vec::new();
    let mut i: usize = 0;
    assert(ls.take(0) =~= Seq::<Seq<char>>::empty());
    while i < lines.len()
        invariant
            i <= lines@.len(),
            ls == lines@.map_values(|l: String| l@),
            kvs@.len() <= i,
            kvs@.map_values(|p: (Vec<char>, Vec<char>)| (p.0@, p.1@)) == pairs_of(ls.take(i as int)),
        decreases lines@.len() - i,
    {
        proof {
            assert(ls.take(i + 1).drop_last() =~= ls.take(i as int));
            assert(ls[i as int] == lines@[i as int]@);
        }
        let cs = chars_of(lines[i].as_str());
        match key_value_of(cs.as_slice()) {
            Some(kv) => {
                let ghost before = kvs@;
                kvs.push(kv);
                proof {
                    assert(kvs@.map_values(|p: (Vec<char>, Vec<char>)| (p.0@, p.1@)) =~= before.map_values(
                        |p: (Vec<char>, Vec<char>)| (p.0@, p.1@),
                    ).push((kv.0@, kv.1@)));
                }
            },
            None => {},
        }
        i += 1;
    }
    assert(ls.take(lines@.len() as int) =~= ls);
    let ghost kv = kvs@.map_values(|p: (Vec<char>, Vec<char>)| (p.0@, p.1@));
    if kvs.len() == 0 {
        return None;
    }
    let mut st = DecodeState {
        form: base,
        pool: None,
        app: None,
        known: 0,
        unknown: 0,
        own_label: None,
        own_png: Vec::new(),
        cave_label: None,
        cave_png: Vec::new(),
    };
    let ghost start = st.view();
    proof {
        assert(seqs_of(st.own_png@) =~= Seq::<Seq<char>>::empty());
        assert(seqs_of(st.cave_png@) =~= Seq::<Seq<char>>::empty());
        assert(kv.take(0) =~= Seq::<(Seq<char>, Seq<char>)>::empty());
    }
    let mut j: usize = 0;
    while j < kvs.len()
        invariant
            j <= kvs@.len(),
            kvs@.len() <= lines@.len(),
            kv == kvs@.map_values(|p: (Vec<char>, Vec<char>)| (p.0@, p.1@)),
            st.known + st.unknown == j,
            st.view() == apply_all(start, kv.take(j as int), names_view(layouts@), names_view(caves@)),
        decreases kvs@.len() - j,
    {
        proof {
            assert(kv.take(j + 1).drop_last() =~= kv.take(j as int));
            assert(kv[j as int] == (kvs@[j as int].0@, kvs@[j as int].1@));
        }
        apply(&mut st, &kvs[j].0, &kvs[j].1, layouts, caves);
        j += 1;
    }
    assert(kv.take(kvs@.len() as int) =~= kv);
    let own = image_of(&st.own_label, &st.own_png);
    let cave_own = image_of(&st.cave_label, &st.cave_png);
    let mut form = st.form;
    form.own = own;
    form.cave_own = cave_own;
    form.manual_seed = true;
    let a = Applied { form, pool: st.pool, app: st.app, known: st.known, unknown: st.unknown };
    proof {
        let d = spec_decode(ls, base@, names_view(layouts@), names_view(caves@))->0;
        assert(a.form@ =~~= d.form);
    }
    Some(a)
}


/// The first line of the settings; it is no settings line itself.
pub const HEADER: &'static str = "-- generator settings; loading this map restores them";

/// How many characters of an image's base64 text go on one line.
pub const CHUNK: usize = 120;

/// A settings line: the prefix, the key, a space and the value, each `#` of
/// the value turned to `_`.
pub open spec fn setting_line(key: Seq<char>, value: Seq<char>) -> Seq<char> {
    PREFIX@ + key + " "@ + replace_all(value, "#"@, "_"@)
}

/// A switch written as a setting.
pub open spec fn flag_text(b: bool) -> Seq<char> {
    if b {
        "1"@
    } else {
        "0"@
    }
}

/// A number written as a setting.
pub open spec fn int_text(x: i32) -> Seq<char> {
    signed_decimal(x as int)
}

/// The generator's numbers and switches as settings lines, in the order
/// they are written.
pub open spec fn option_lines(o: OptionsView) -> Seq<Seq<char>> {
    seq![
        setting_line("provinces"@, int_text(o.ints[2])),
        setting_line("sea_part"@, int_text(o.ints[3])),
        setting_line("mount_part"@, int_text(o.ints[4])),
        setting_line("forest_part"@, int_text(o.ints[5])),
        setting_line("farm_part"@, int_text(o.ints[6])),
        setting_line("swamp_part"@, int_text(o.ints[7])),
        setting_line("waste_part"@, int_text(o.ints[8])),
        setting_line("highland_part"@, int_text(o.ints[9])),
        setting_line("kelp_part"@, int_text(o.ints[10])),
        setting_line("gorge_part"@, int_text(o.ints[11])),
        setting_line("river_part"@, int_text(o.ints[12])),
        setting_line("hills"@, int_text(o.ints[13])),
        setting_line("rugedness"@, int_text(o.ints[14])),
        setting_line("sea_size"@, int_text(o.ints[15])),
        setting_line("extra_islands"@, int_text(o.ints[16])),
        setting_line("bridges"@, int_text(o.ints[17])),
        setting_line("no_water_prov"@, flag_text(o.flags[0])),
        setting_line("hwrap"@, flag_text(o.flags[1])),
        setting_line("vwrap"@, flag_text(o.flags[2])),
        setting_line("blue_acc"@, int_text(o.ints[18])),
        setting_line("cave_world"@, flag_text(o.flags[3])),
        setting_line("caves_plane"@, flag_text(o.flags[4])),
        setting_line("cave_part"@, int_text(o.ints[19])),
    ]
}

/// The nations of a roster, as numbers between commas.
pub open spec fn roster_text(r: Seq<u32>) -> Seq<char> {
    join(r.map_values(|x: u32| decimal(x as nat)), ","@)
}

/// A label on one line: its line breaks become spaces.
pub open spec fn label_text(l: Seq<char>) -> Seq<char> {
    l.map_values(|c: char| if c == '\r' || c == '\n' { ' ' } else { c })
}

/// How many lines the base64 text of an image takes.
pub open spec fn chunk_count(n: nat) -> nat {
    ((n + CHUNK - 1) / CHUNK as int) as nat
}

/// The `i`-th piece of an image's base64 text.
pub open spec fn chunk_of(text: Seq<char>, i: int) -> Seq<char> {
    let end = if (i + 1) * CHUNK < text.len() {
        (i + 1) * CHUNK
    } else {
        text.len() as int
    };
    text.subrange(i * CHUNK, end)
}

/// The lines that hold an image's base64 text, each numbered as "i/total".
pub open spec fn chunk_lines(key: Seq<char>, text: Seq<char>) -> Seq<Seq<char>> {
    let total = chunk_count(text.len());
    Seq::new(
        total,
        |i: int|
            setting_line(
                key,
                decimal((i + 1) as nat) + "/"@ + decimal(total) + " "@ + chunk_of(text, i),
            ),
    )
}

/// An own image's PNG can be written: its size, as the encoder takes it,
/// counts its bytes in a `usize`.
pub open spec fn image_fits(img: Option<OwnImageView>) -> bool {
    match img {
        None => true,
        Some(o) => png_fits((o.image.w as usize) as u32, (o.image.h as usize) as u32),
    }
}

/// The lines that keep an own image: its label, then its pixels as a PNG in
/// base64, where the PNG writer takes them.
pub open spec fn image_lines(key: Seq<char>, img: Option<OwnImageView>) -> Seq<Seq<char>> {
    match img {
        None => Seq::empty(),
        Some(o) => seq![setting_line(key + ".label"@, label_text(o.label))] + match png_encoded(
            (o.image.w as usize) as u32,
            (o.image.h as usize) as u32,
            swap_rb(o.image.bgra),
        ) {
            Ok(png) => chunk_lines(key + ".png"@, spec_b64_encode(png)),
            Err(_) => Seq::empty(),
        },
    }
}

/// The settings lines of a form, with the app's version, the generator's
/// random pool and the names of the surface and cave layouts.
pub open spec fn spec_encode(
    form: FormView,
    app: Seq<char>,
    pool: Seq<char>,
    layouts: Seq<Seq<char>>,
    caves: Seq<Seq<char>>,
) -> Seq<Seq<char>> {
    seq![
        HEADER@,
        setting_line("app"@, app),
        setting_line("pool"@, pool),
        setting_line("seed"@, decimal(form.seed as nat)),
        setting_line("name"@, form.name),
        setting_line("new_game"@, flag_text(form.new_game)),
        setting_line("players"@, int_text(form.players)),
        setting_line("per_player"@, int_text(form.per_player_bucket)),
        setting_line("custom_count"@, flag_text(form.custom_count)),
        setting_line("auto_size"@, flag_text(form.auto_size)),
        setting_line("width"@, int_text(form.width)),
        setting_line("height"@, int_text(form.height)),
        setting_line("layout"@, layouts[form.layout as int]),
        setting_line("cave_layout"@, caves[form.cave_layout as int]),
    ] + option_lines(form.opts) + (if form.roster.len() > 0 {
        seq![setting_line("roster"@, roster_text(form.roster))]
    } else {
        Seq::empty()
    }) + seq![
        setting_line("era"@, decimal(form.era as nat)),
        setting_line("generic_starts"@, flag_text(form.generic_starts)),
        setting_line("auto_starts"@, flag_text(form.auto_starts)),
    ] + image_lines("own"@, form.own) + image_lines("cave_own"@, form.cave_own)
}

/// Texts as plain values.
pub open spec fn texts(v: Seq<String>) -> Seq<Seq<char>> {
    v.map_values(|s: String| s@)
}

fn push_line(out: &mut Vec<String>, key: &str, value: &str)
    ensures
        texts(final(out)@) == texts(old(out)@).push(setting_line(key@, value@)),
{
    let v = chars_of(value);
    let h = chars_of("#");
    let u = chars_of("_");
    let clean = replace_chars(v.as_slice(), h.as_slice(), u.as_slice());
    let mut line = string_of(PREFIX);
    push_str(&mut line, key);
    push_str(&mut line, " ");
    push_str(&mut line, string_from(clean.as_slice()).as_str());
    let ghost before = out@;
    out.push(line);
    proof {
        assert(line@ =~= setting_line(key@, value@));
        assert(texts(out@) =~= texts(before).push(line@));
    }
}

fn flag_str(b: bool) -> (s: &'static str)
    ensures
        s@ == flag_text(b),
{
    if b {
        "1"
    } else {
        "0"
    }
}

fn int_string(x: i32) -> (s: String)
    ensures
        s@ == int_text(x),
{
    let mut s = String::new();
    push_signed(&mut s, x as i64);
    assert(s@ =~= int_text(x));
    s
}

fn u_string(x: u64) -> (s: String)
    ensures
        s@ == decimal(x as nat),
{
    let mut s = String::new();
    push_decimal(&mut s, x);
    assert(s@ =~= decimal(x as nat));
    s
}


#[verifier::spinoff_prover]
#[verifier::rlimit(50)]
fn push_options(out: &mut Vec<String>, o: &Options)
    ensures
        texts(final(out)@) == texts(old(out)@) + option_lines(o@),
{
    let ghost start = texts(out@);
    push_line(out, "provinces", int_string(o.provinces).as_str());
    push_line(out, "sea_part", int_string(o.sea_part).as_str());
    push_line(out, "mount_part", int_string(o.mount_part).as_str());
    push_line(out, "forest_part", int_string(o.forest_part).as_str());
    push_line(out, "farm_part", int_string(o.farm_part).as_str());
    push_line(out, "swamp_part", int_string(o.swamp_part).as_str());
    push_line(out, "waste_part", int_string(o.waste_part).as_str());
    push_line(out, "highland_part", int_string(o.highland_part).as_str());
    push_line(out, "kelp_part", int_string(o.kelp_part).as_str());
    push_line(out, "gorge_part", int_string(o.gorge_part).as_str());
    push_line(out, "river_part", int_string(o.river_part).as_str());
    push_line(out, "hills", int_string(o.hills).as_str());
    push_line(out, "rugedness", int_string(o.rugedness).as_str());
    push_line(out, "sea_size", int_string(o.sea_size).as_str());
    push_line(out, "extra_islands", int_string(o.extra_islands).as_str());
    push_line(out, "bridges", int_string(o.bridges).as_str());
    push_line(out, "no_water_prov", flag_str(o.no_water_prov));
    push_line(out, "hwrap", flag_str(o.hwrap));
    push_line(out, "vwrap", flag_str(o.vwrap));
    push_line(out, "blue_acc", int_string(o.blue_acc).as_str());
    push_line(out, "cave_world", flag_str(o.cave_world));
    push_line(out, "caves_plane", flag_str(o.caves_plane));
    push_line(out, "cave_part", int_string(o.cave_part).as_str());
    assert(texts(out@) =~= start + option_lines(o@));
}

fn roster_string(r: &Vec<u32>) -> (s: String)
    ensures
        s@ == roster_text(r@),
{
    let mut s = String::new();
    let mut i: usize = 0;
    let ghost f = |x: u32| decimal(x as nat);
    assert(r@.take(0).map_values(f) =~= Seq::<Seq<char>>::empty());
    while i < r.len()
        invariant
            i <= r@.len(),
            f == (|x: u32| decimal(x as nat)),
            s@ == join(r@.take(i as int).map_values(f), ","@),
        decreases r@.len() - i,
    {
        let ghost before = r@.take(i as int).map_values(f);
        if i > 0 {
            push_str(&mut s, ",");
        }
        push_decimal(&mut s, r[i] as u64);
        proof {
            let now = r@.take(i + 1).map_values(f);
            assert(now.drop_last() =~= before);
            assert(now.last() == decimal(r@[i as int] as nat));
            if i == 0 {
                assert(now.len() == 1);
                assert(s@ =~= now[0]);
            } else {
                assert(s@ =~= join(before, ","@) + ","@ + now.last());
            }
        }
        i += 1;
    }
    assert(r@.take(r@.len() as int) =~= r@);
    s
}

fn label_string(l: &str) -> (s: String)
    ensures
        s@ == label_text(l@),
{
    let cs = chars_of(l);
    let mut s = String::new();
    let mut i: usize = 0;
    while i < cs.len()
        invariant
            i <= cs@.len(),
            cs@ == l@,
            s@ == label_text(cs@.take(i as int)),
        decreases cs@.len() - i,
    {
        let c = cs[i];
        let d = if c == '\r' || c == '\n' { ' ' } else { c };
        push_char(&mut s, d);
        assert(label_text(cs@.take(i + 1)) =~= label_text(cs@.take(i as int)).push(d));
        i += 1;
    }
    assert(cs@.take(cs@.len() as int) =~= cs@);
    s
}

#[verifier::spinoff_prover]
#[verifier::rlimit(50)]
fn push_chunks(out: &mut Vec<String>, key: &str, text: &str)
    ensures
        texts(final(out)@) == texts(old(out)@) + chunk_lines(key@, text@),
{
    let cs = chars_of(text);
    let n = cs.len();
    let total = n / CHUNK + if n % CHUNK != 0 { 1 } else { 0 };
    assert(total == chunk_count(n as nat)) by (nonlinear_arith)
        requires
            total == n / 120 + if n % 120 != 0 { 1int } else { 0int },
    ;
    let ghost start = texts(out@);
    let ghost want = chunk_lines(key@, text@);
    let mut i: usize = 0;
    while i < total
        invariant
            i <= total,
            total == chunk_count(n as nat),
            n == cs@.len(),
            cs@ == text@,
            want == chunk_lines(key@, text@),
            want.len() == total,
            texts(out@) == start + want.take(i as int),
        decreases total - i,
    {
        assert(i * 120 < n) by (nonlinear_arith)
            requires
                i < total,
                total == (n + 120 - 1) / 120,
        ;
        let from = i * CHUNK;
        let to = if n - from > CHUNK { from + CHUNK } else { n };
        let piece = sub_chars(cs.as_slice(), from, to);
        let mut v = u_string((i + 1) as u64);
        push_str(&mut v, "/");
        push_decimal(&mut v, total as u64);
        push_str(&mut v, " ");
        push_str(&mut v, string_from(piece.as_slice()).as_str());
        proof {
            assert(piece@ =~= chunk_of(text@, i as int));
            assert(v@ =~= decimal((i + 1) as nat) + "/"@ + decimal(total as nat) + " "@ + chunk_of(text@, i as int));
        }
        push_line(out, key, v.as_str());
        assert(want.take(i + 1) =~= want.take(i as int).push(want[i as int]));
        i += 1;
    }
    assert(want.take(total as int) =~= want);
}

#[verifier::spinoff_prover]
#[verifier::rlimit(50)]
fn push_image(out: &mut Vec<String>, key: &str, own: &OwnImage)
    requires
        image_fits(Some(own@)),
    ensures
        texts(final(out)@) == texts(old(out)@) + image_lines(key@, Some(own@)),
{
    let ghost start = texts(out@);
    let mut lk = string_of(key);
    push_str(&mut lk, ".label");
    push_line(out, lk.as_str(), label_string(own.label.as_str()).as_str());
    let bp = &own.image;
    let rgba = swap_pixels(&bp.bgra);
    let png = encode_png(bp.w as usize, bp.h as usize, rgba.as_slice());
    match png {
        Ok(bytes) => {
            let text = base64_encode(bytes.as_slice());
            let mut pk = string_of(key);
            push_str(&mut pk, ".png");
            let ghost mid = texts(out@);
            push_chunks(out, pk.as_str(), text.as_str());
            assert(texts(out@) =~= start + image_lines(key@, Some(own@)));
        },
        Err(_) => {
            assert(texts(out@) =~= start + image_lines(key@, Some(own@)));
        },
    }
}

#[verifier::spinoff_prover]
#[verifier::rlimit(50)]
fn push_head(out: &mut Vec<String>, form: &Form, app: &str, pool: &str, layouts: &[&str], caves: &[&str])
    requires
        form.layout < layouts@.len(),
        form.cave_layout < caves@.len(),
    ensures
        texts(final(out)@) == texts(old(out)@) + spec_encode(form@, app@, pool@, names_view(layouts@), names_view(caves@)).take(14),
{
    let ghost start = texts(out@);
    out.push(string_of(HEADER));
    push_line(out, "app", app);
    push_line(out, "pool", pool);
    push_line(out, "seed", u_string(form.seed as u64).as_str());
    push_line(out, "name", form.name.as_str());
    push_line(out, "new_game", flag_str(form.new_game));
    push_line(out, "players", int_string(form.players).as_str());
    push_line(out, "per_player", int_string(form.per_player_bucket).as_str());
    push_line(out, "custom_count", flag_str(form.custom_count));
    push_line(out, "auto_size", flag_str(form.auto_size));
    push_line(out, "width", int_string(form.width).as_str());
    push_line(out, "height", int_string(form.height).as_str());
    push_line(out, "layout", layouts[form.layout]);
    push_line(out, "cave_layout", caves[form.cave_layout]);
    proof {
        assert(names_view(layouts@)[form.layout as int] == layouts@[form.layout as int]@);
        assert(names_view(caves@)[form.cave_layout as int] == caves@[form.cave_layout as int]@);
        assert(texts(out@) =~= start + spec_encode(form@, app@, pool@, names_view(layouts@), names_view(caves@)).take(14));
    }
}

#[verifier::spinoff_prover]
#[verifier::rlimit(50)]
fn push_tail(out: &mut Vec<String>, form: &Form)
    ensures
        texts(final(out)@) == texts(old(out)@) + (if form@.roster.len() > 0 {
            seq![setting_line("roster"@, roster_text(form@.roster))]
        } else {
            Seq::empty()
        }) + seq![
            setting_line("era"@, decimal(form@.era as nat)),
            setting_line("generic_starts"@, flag_text(form@.generic_starts)),
            setting_line("auto_starts"@, flag_text(form@.auto_starts)),
        ],
{
    let ghost start = texts(out@);
    if form.roster.len() > 0 {
        push_line(out, "roster", roster_string(&form.roster).as_str());
    }
    let ghost with_roster = texts(out@);
    push_line(out, "era", u_string(form.era as u64).as_str());
    push_line(out, "generic_starts", flag_str(form.generic_starts));
    push_line(out, "auto_starts", flag_str(form.auto_starts));
    proof {
        if form@.roster.len() > 0 {
            assert(with_roster =~= start + seq![setting_line("roster"@, roster_text(form@.roster))]);
        } else {
            assert(with_roster =~= start + Seq::<Seq<char>>::empty());
        }
    }
    assert(texts(out@) =~= with_roster + seq![
        setting_line("era"@, decimal(form@.era as nat)),
        setting_line("generic_starts"@, flag_text(form@.generic_starts)),
        setting_line("auto_starts"@, flag_text(form@.auto_starts)),
    ]);
}

/// The settings lines of a form, with the app's version, the generator's
/// random pool and the names of the surface and cave layouts.
#[verifier::spinoff_prover]
#[verifier::rlimit(50)]
pub fn encode(form: &Form, app: &str, pool: &str, layouts: &[&str], caves: &[&str]) -> (out: Vec<String>)
    requires
        form.layout < layouts@.len(),
        form.cave_layout < caves@.len(),
        image_fits(form@.own),
        image_fits(form@.cave_own),
    ensures
        texts(out@) == spec_encode(form@, app@, pool@, names_view(layouts@), names_view(caves@)),
{
    let ghost all = spec_encode(form@, app@, pool@, names_view(layouts@), names_view(caves@));
    let mut out: Vec<String> = Vec::new();
    assert(texts(out@) =~= Seq::<Seq<char>>::empty());
    push_head(&mut out, form, app, pool, layouts, caves);
    push_options(&mut out, &form.opts);
    push_tail(&mut out, form);
    let ghost with_tail = texts(out@);
    match &form.own {
        Some(own) => push_image(&mut out, "own", own),
        None => {},
    }
    let ghost with_own = texts(out@);
    assert(with_own =~= with_tail + image_lines("own"@, form@.own));
    match &form.cave_own {
        Some(own) => push_image(&mut out, "cave_own", own),
        None => {},
    }
    assert(texts(out@) =~= with_own + image_lines("cave_own"@, form@.cave_own));
    assert(texts(out@) =~= all);
    out
}

/// The length and a few characters of each key, enough to tell any two apart.
pub proof fn lemma_key_facts()
    ensures
        "app"@.len() == 3 && "app"@[0] == 'a' && "app"@[1] == 'p',
        "pool"@.len() == 4 && "pool"@[0] == 'p' && "pool"@[1] == 'o',
        "seed"@.len() == 4 && "seed"@[0] == 's' && "seed"@[1] == 'e',
        "name"@.len() == 4 && "name"@[0] == 'n' && "name"@[1] == 'a',
        "new_game"@.len() == 8 && "new_game"@[0] == 'n' && "new_game"@[1] == 'e' && "new_game"@[4] == 'g',
        "players"@.len() == 7 && "players"@[0] == 'p' && "players"@[1] == 'l' && "players"@[4] == 'e',
        "per_player"@.len() == 10 && "per_player"@[0] == 'p' && "per_player"@[1] == 'e' && "per_player"@[4] == 'p',
        "custom_count"@.len() == 12 && "custom_count"@[0] == 'c' && "custom_count"@[1] == 'u' && "custom_count"@[4] == 'o',
        "auto_size"@.len() == 9 && "auto_size"@[0] == 'a' && "auto_size"@[1] == 'u' && "auto_size"@[4] == '_',
        "width"@.len() == 5 && "width"@[0] == 'w' && "width"@[1] == 'i' && "width"@[4] == 'h',
        "height"@.len() == 6 && "height"@[0] == 'h' && "height"@[1] == 'e' && "height"@[4] == 'h',
        "layout"@.len() == 6 && "layout"@[0] == 'l' && "layout"@[1] == 'a' && "layout"@[4] == 'u',
        "cave_layout"@.len() == 11 && "cave_layout"@[0] == 'c' && "cave_layout"@[1] == 'a' && "cave_layout"@[4] == '_',
        "provinces"@.len() == 9 && "provinces"@[0] == 'p' && "provinces"@[1] == 'r' && "provinces"@[4] == 'i',
        "sea_part"@.len() == 8 && "sea_part"@[0] == 's' && "sea_part"@[1] == 'e' && "sea_part"@[4] == 'p',
        "mount_part"@.len() == 10 && "mount_part"@[0] == 'm' && "mount_part"@[1] == 'o' && "mount_part"@[4] == 't',
        "forest_part"@.len() == 11 && "forest_part"@[0] == 'f' && "forest_part"@[1] == 'o' && "forest_part"@[4] == 's',
        "farm_part"@.len() == 9 && "farm_part"@[0] == 'f' && "farm_part"@[1] == 'a' && "farm_part"@[4] == '_',
        "swamp_part"@.len() == 10 && "swamp_part"@[0] == 's' && "swamp_part"@[1] == 'w' && "swamp_part"@[4] == 'p',
        "waste_part"@.len() == 10 && "waste_part"@[0] == 'w' && "waste_part"@[1] == 'a' && "waste_part"@[4] == 'e',
        "highland_part"@.len() == 13 && "highland_part"@[0] == 'h' && "highland_part"@[1] == 'i' && "highland_part"@[4] == 'l',
        "kelp_part"@.len() == 9 && "kelp_part"@[0] == 'k' && "kelp_part"@[1] == 'e' && "kelp_part"@[4] == '_',
        "gorge_part"@.len() == 10 && "gorge_part"@[0] == 'g' && "gorge_part"@[1] == 'o' && "gorge_part"@[4] == 'e',
        "river_part"@.len() == 10 && "river_part"@[0] == 'r' && "river_part"@[1] == 'i' && "river_part"@[4] == 'r',
        "hills"@.len() == 5 && "hills"@[0] == 'h' && "hills"@[1] == 'i' && "hills"@[4] == 's',
        "rugedness"@.len() == 9 && "rugedness"@[0] == 'r' && "rugedness"@[1] == 'u' && "rugedness"@[4] == 'd',
        "sea_size"@.len() == 8 && "sea_size"@[0] == 's' && "sea_size"@[1] == 'e' && "sea_size"@[4] == 's',
        "extra_islands"@.len() == 13 && "extra_islands"@[0] == 'e' && "extra_islands"@[1] == 'x' && "extra_islands"@[4] == 'a',
        "bridges"@.len() == 7 && "bridges"@[0] == 'b' && "bridges"@[1] == 'r' && "bridges"@[4] == 'g',
        "blue_acc"@.len() == 8 && "blue_acc"@[0] == 'b' && "blue_acc"@[1] == 'l' && "blue_acc"@[4] == '_',
        "cave_part"@.len() == 9 && "cave_part"@[0] == 'c' && "cave_part"@[1] == 'a' && "cave_part"@[4] == '_',
        "no_water_prov"@.len() == 13 && "no_water_prov"@[0] == 'n' && "no_water_prov"@[1] == 'o' && "no_water_prov"@[4] == 'a',
        "hwrap"@.len() == 5 && "hwrap"@[0] == 'h' && "hwrap"@[1] == 'w' && "hwrap"@[4] == 'p',
        "vwrap"@.len() == 5 && "vwrap"@[0] == 'v' && "vwrap"@[1] == 'w' && "vwrap"@[4] == 'p',
        "cave_world"@.len() == 10 && "cave_world"@[0] == 'c' && "cave_world"@[1] == 'a' && "cave_world"@[4] == '_',
        "caves_plane"@.len() == 11 && "caves_plane"@[0] == 'c' && "caves_plane"@[1] == 'a' && "caves_plane"@[4] == 's',
        "roster"@.len() == 6 && "roster"@[0] == 'r' && "roster"@[1] == 'o' && "roster"@[4] == 'e',
        "era"@.len() == 3 && "era"@[0] == 'e' && "era"@[1] == 'r',
        "generic_starts"@.len() == 14 && "generic_starts"@[0] == 'g' && "generic_starts"@[1] == 'e' && "generic_starts"@[4] == 'r',
        "auto_starts"@.len() == 11 && "auto_starts"@[0] == 'a' && "auto_starts"@[1] == 'u' && "auto_starts"@[4] == '_',
        "own.label"@.len() == 9 && "own.label"@[0] == 'o' && "own.label"@[1] == 'w' && "own.label"@[4] == 'l',
        "own.png"@.len() == 7 && "own.png"@[0] == 'o' && "own.png"@[1] == 'w' && "own.png"@[4] == 'p',
        "cave_own.label"@.len() == 14 && "cave_own.label"@[0] == 'c' && "cave_own.label"@[1] == 'a' && "cave_own.label"@[4] == '_',
        "cave_own.png"@.len() == 12 && "cave_own.png"@[0] == 'c' && "cave_own.png"@[1] == 'a' && "cave_own.png"@[4] == '_',
{
    reveal_strlit("app");
    reveal_strlit("pool");
    reveal_strlit("seed");
    reveal_strlit("name");
    reveal_strlit("new_game");
    reveal_strlit("players");
    reveal_strlit("per_player");
    reveal_strlit("custom_count");
    reveal_strlit("auto_size");
    reveal_strlit("width");
    reveal_strlit("height");
    reveal_strlit("layout");
    reveal_strlit("cave_layout");
    reveal_strlit("provinces");
    reveal_strlit("sea_part");
    reveal_strlit("mount_part");
    reveal_strlit("forest_part");
    reveal_strlit("farm_part");
    reveal_strlit("swamp_part");
    reveal_strlit("waste_part");
    reveal_strlit("highland_part");
    reveal_strlit("kelp_part");
    reveal_strlit("gorge_part");
    reveal_strlit("river_part");
    reveal_strlit("hills");
    reveal_strlit("rugedness");
    reveal_strlit("sea_size");
    reveal_strlit("extra_islands");
    reveal_strlit("bridges");
    reveal_strlit("blue_acc");
    reveal_strlit("cave_part");
    reveal_strlit("no_water_prov");
    reveal_strlit("hwrap");
    reveal_strlit("vwrap");
    reveal_strlit("cave_world");
    reveal_strlit("caves_plane");
    reveal_strlit("roster");
    reveal_strlit("era");
    reveal_strlit("generic_starts");
    reveal_strlit("auto_starts");
    reveal_strlit("own.label");
    reveal_strlit("own.png");
    reveal_strlit("cave_own.label");
    reveal_strlit("cave_own.png");
}

} // verus!
