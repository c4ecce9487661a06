//! The map's picture and its terrain art: the companion pictures a map may
//! carry for each kind of terrain and for winter, the names they go by, the
//! RGB pixels of a picture, and who owns each pixel.
use vstd::prelude::*;
use crate::terrain::{ALWAYS_WATER, CAVE, FARM, FOREST, HIGHLAND, KELP_EXACT, SEA, SWAMP, WASTE};
use crate::text::{chars_of, contains, contains_chars, string_from, string_of, push_str};
use crate::paths::{file_name, file_name_of, stem_and_ext, stem_and_ext_of, file_stem, extension};
use crate::textures::{Image, ImageView};
use crate::tga::{decoded_view, spec_tga_decode, tga_header_ok, u16_at};

verus! {

/// The terrain bits whose change changes how a province looks.
pub const LOOK_CHANGE_MASK: u64 = 0x4_0000_19fc;

/// One kind of terrain art: the provinces it covers (all `mask` bits and no
/// `exclude` bit), and the suffixes of its summer and winter pictures.
pub struct Pass {
    pub mask: u64,
    pub exclude: u64,
    pub summer: Option<&'static str>,
    pub winter: &'static str,
}

/// How many kinds of terrain art there are.
pub const PASS_COUNT: usize = 9;

/// The `k`-th kind of terrain art, in the order they are tried: kelp, water,
/// highland, forest, waste, swamp, farm, plain, and winter over everything.
pub open spec fn spec_pass(k: int) -> (u64, u64, Option<&'static str>, &'static str) {
    if k == 0 {
        (KELP_EXACT, CAVE, Some("_kelp"), "_kelpw")
    } else if k == 1 {
        (ALWAYS_WATER, 0, Some("_water"), "_waterw")
    } else if k == 2 {
        (HIGHLAND, 0x1004, Some("_highland"), "_highlandw")
    } else if k == 3 {
        (FOREST, 0x1004, Some("_forest"), "_forestw")
    } else if k == 4 {
        (WASTE, 0x1004, Some("_waste"), "_wastew")
    } else if k == 5 {
        (SWAMP, 0x1004, Some("_swamp"), "_swampw")
    } else if k == 6 {
        (FARM, 0x1004, Some("_farm"), "_farmw")
    } else if k == 7 {
        (0, 0x11f4, Some("_plain"), "_plainw")
    } else {
        (0xffff_ffff_ffff_ffff, 0, None, "_winter")
    }
}

/// The `k`-th kind of terrain art.
pub fn pass(k: usize) -> (p: Pass)
    requires
        k < PASS_COUNT,
    ensures
        (p.mask, p.exclude, p.summer, p.winter) == spec_pass(k as int),
{
    if k == 0 {
        Pass { mask: KELP_EXACT, exclude: CAVE, summer: Some("_kelp"), winter: "_kelpw" }
    } else if k == 1 {
        Pass { mask: ALWAYS_WATER, exclude: 0, summer: Some("_water"), winter: "_waterw" }
    } else if k == 2 {
        Pass { mask: HIGHLAND, exclude: 0x1004, summer: Some("_highland"), winter: "_highlandw" }
    } else if k == 3 {
        Pass { mask: FOREST, exclude: 0x1004, summer: Some("_forest"), winter: "_forestw" }
    } else if k == 4 {
        Pass { mask: WASTE, exclude: 0x1004, summer: Some("_waste"), winter: "_wastew" }
    } else if k == 5 {
        Pass { mask: SWAMP, exclude: 0x1004, summer: Some("_swamp"), winter: "_swampw" }
    } else if k == 6 {
        Pass { mask: FARM, exclude: 0x1004, summer: Some("_farm"), winter: "_farmw" }
    } else if k == 7 {
        Pass { mask: 0, exclude: 0x11f4, summer: Some("_plain"), winter: "_plainw" }
    } else {
        Pass { mask: 0xffff_ffff_ffff_ffff, exclude: 0, summer: None, winter: "_winter" }
    }
}

/// The words the game strips from a picture's name to find its companions;
/// a map whose picture's name holds one of them loses its art.
pub const STRIPPED_WORDS: [&'static str; 17] = [
    "_forestw",
    "_forest",
    "_plainw",
    "_plain",
    "_kelpw",
    "_kelp",
    "_highlandw",
    "_highland",
    "_farmw",
    "_farm",
    "_swampw",
    "_swamp",
    "_wastew",
    "_waste",
    "_waterw",
    "_water",
    "_winter",
];

/// The first of the stripped words, from the `k`-th on, that stands in `name`.
pub open spec fn first_trap(name: Seq<char>, k: nat) -> Option<nat>
    decreases 17 - k,
{
    if k >= 17 {
        None
    } else if contains(name, STRIPPED_WORDS@[k as int]@) {
        Some(k)
    } else {
        first_trap(name, k + 1)
    }
}

/// The first of the stripped words that stands in a picture's name, if any.
pub fn name_trap(imagefile: &str) -> (r: Option<&'static str>)
    ensures
        match first_trap(imagefile@, 0) {
            Some(k) => r == Some(STRIPPED_WORDS@[k as int]),
            None => r is None,
        },
{
    let name = chars_of(imagefile);
    let mut k: usize = 0;
    while k < 17
        invariant
            k <= 17,
            name@ == imagefile@,
            first_trap(imagefile@, 0) == first_trap(imagefile@, k as nat),
        decreases 17 - k,
    {
        let w = chars_of(STRIPPED_WORDS[k]);
        if contains_chars(name.as_slice(), w.as_slice()) {
            return Some(STRIPPED_WORDS[k]);
        }
        k += 1;
    }
    None
}

/// The order of pixels row after row: the key of the pixel at `p` on a picture `w` wide.
pub open spec fn spec_scan_key(w: int, p: (i16, i16)) -> int {
    p.1 * w + p.0
}

/// The key of a pixel in reading order.
pub fn scan_key(w: usize, p: (i16, i16)) -> (k: i64)
    requires
        w <= i64::MAX,
        i64::MIN <= p.1 * w <= i64::MAX,
        i64::MIN <= spec_scan_key(w as int, p) <= i64::MAX,
    ensures
        k == spec_scan_key(w as int, p),
{
    p.1 as i64 * w as i64 + p.0 as i64
}

/// The key of a pixel in reading order, on a picture of any width.
fn wide_key(w: usize, p: (i16, i16)) -> (k: i128)
    ensures
        k == spec_scan_key(w as int, p),
{
    proof {
        assert(-32768 * 0x1_0000_0000_0000_0000 <= p.1 * w <= 32767 * 0x1_0000_0000_0000_0000) by (nonlinear_arith)
            requires -32768 <= p.1 <= 32767, 0 <= w < 0x1_0000_0000_0000_0000;
    }
    p.1 as i128 * w as i128 + p.0 as i128
}

/// How many of the capitals, leaving out the `skip`-th (counting from one),
/// come before `at` in reading order.
pub open spec fn count_before(caps: Seq<(i16, i16)>, w: int, skip: Option<u32>, at: (i16, i16)) -> nat
    decreases caps.len(),
{
    if caps.len() == 0 {
        0
    } else {
        let i = caps.len() - 1;
        let rest = count_before(caps.drop_last(), w, skip, at);
        if skip != Some((i + 1) as u32) && spec_scan_key(w, caps[i]) < spec_scan_key(w, at) {
            rest + 1
        } else {
            rest
        }
    }
}

proof fn lemma_count_before_bound(caps: Seq<(i16, i16)>, w: int, skip: Option<u32>, at: (i16, i16))
    ensures
        count_before(caps, w, skip, at) <= caps.len(),
    decreases caps.len(),
{
    if caps.len() > 0 {
        lemma_count_before_bound(caps.drop_last(), w, skip, at);
    }
}

/// The start slot a capital at `at` takes: one more than the capitals before
/// it in reading order, the `skip`-th capital left out.
pub fn slot_for(capitals: &[(i16, i16)], w: usize, skip: Option<u32>, at: (i16, i16)) -> (s: u32)
    requires
        capitals@.len() < u32::MAX,
    ensures
        s == 1 + count_before(capitals@, w as int, skip, at),
{
    let key = wide_key(w, at);
    let mut slot: u32 = 1;
    let mut i: usize = 0;
    while i < capitals.len()
        invariant
            i <= capitals@.len(),
            capitals@.len() < u32::MAX,
            key == spec_scan_key(w as int, at),
            slot == 1 + count_before(capitals@.take(i as int), w as int, skip, at),
        decreases capitals@.len() - i,
    {
        proof {
            lemma_count_before_bound(capitals@.take(i as int), w as int, skip, at);
            assert(capitals@.take(i + 1).drop_last() =~= capitals@.take(i as int));
        }
        let c = capitals[i];
        let skipped = match skip {
            Some(k) => k == i as u32 + 1,
            None => false,
        };
        if !skipped && wide_key(w, c) < key {
            slot += 1;
        }
        i += 1;
    }
    assert(capitals@.take(capitals@.len() as int) =~= capitals@);
    slot
}

/// Where start slot `q` goes when the capital in slot `from` moves to slot
/// `to`: the moved one takes `to`, those between close up; slot zero stays.
pub fn slot_after_move(from: u32, to: u32, q: u32) -> (r: u32)
    ensures
        r == if q == 0 || from == to {
            q
        } else if q == from {
            to
        } else if from < to && q > from && q <= to {
            (q - 1) as u32
        } else if to < from && q >= to && q < from {
            (q + 1) as u32
        } else {
            q
        },
{
    if q == 0 || from == to {
        q
    } else if q == from {
        to
    } else if from < to && q > from && q <= to {
        q - 1
    } else if to < from && q >= to && q < from {
        q + 1
    } else {
        q
    }
}

/// Moving a capital keeps the slots a permutation: two slots that differ
/// before the move differ after it.
pub proof fn lemma_slot_after_move_distinct(from: u32, to: u32, a: u32, b: u32)
    requires
        a != b,
        a != 0,
        b != 0,
        from != 0,
        to != 0,
    ensures
        ({
            let f = |q: u32|
                if q == 0 || from == to {
                    q as int
                } else if q == from {
                    to as int
                } else if from < to && q > from && q <= to {
                    q - 1
                } else if to < from && q >= to && q < from {
                    q + 1
                } else {
                    q as int
                };
            f(a) != f(b)
        }),
{
}

/// A colour byte washed toward white for a winter look.
pub open spec fn spec_whiten(c: u8) -> u8 {
    ((c as int * 0x9b + 0x639c) / 0xff) as u8
}

/// A colour byte washed toward white for a winter look.
pub fn whiten(c: u8) -> (r: u8)
    ensures
        r == spec_whiten(c),
        r as int == (c as int * 0x9b + 0x639c) / 0xff,
{
    proof {
        assert((c as int * 0x9b + 0x639c) / 0xff <= 255) by (nonlinear_arith)
            requires c <= 255;
    }
    ((c as u32 * 0x9b + 0x639c) / 0xff) as u8
}

/// Pure white, which marks provinces on a map's picture.
pub const WHITE: [u8; 3] = [255, 255, 255];
/// The colour that stands for white where white would be read as a marker.
pub const NEAR_WHITE: [u8; 3] = [254, 254, 254];

/// A picture of three bytes a pixel, red, green and blue, row after row.
pub struct Rgb {
    pub w: usize,
    pub h: usize,
    pub data: Vec<u8>,
}

/// The red, green and blue bytes of RGBA pixels.
pub open spec fn rgb_of_rgba(rgba: Seq<u8>) -> Seq<u8> {
    Seq::new((rgba.len() / 4) * 3, |i: int| rgba[(i / 3) * 4 + i % 3])
}

impl Rgb {
    /// Its pixels cover the picture.
    pub open spec fn wf(&self) -> bool {
        self.data@.len() == self.w * self.h * 3
    }

    /// The byte offset of a pixel.
    pub open spec fn offset(&self, x: int, y: int) -> int {
        (y * self.w + x) * 3
    }

    /// The three bytes of the pixel at `(x, y)` on the picture.
    pub open spec fn spec_pixel(&self, x: int, y: int) -> Seq<u8> {
        self.data@.subrange(self.offset(x, y), self.offset(x, y) + 3)
    }

    /// Reads a TGA file into an RGB picture, dropping alpha.
    pub fn from_tga(bytes: &[u8]) -> (r: Result<Rgb, String>)
        requires
            tga_header_ok(bytes@) ==> 18 + bytes@[0] <= bytes@.len(),
            tga_header_ok(bytes@) ==> u16_at(bytes@, 12) * u16_at(bytes@, 14) * 4 <= usize::MAX,
        ensures
            match spec_tga_decode(bytes@) {
                Ok(v) => r is Ok && r->Ok_0.w == v.w && r->Ok_0.h == v.h && r->Ok_0.data@
                    == rgb_of_rgba(v.rgba) && r->Ok_0.wf(),
                Err(e) => r is Err && r->Err_0@ == e,
            },
    {
        let img = crate::tga::decode(bytes)?;
        let n = img.rgba.len() / 4;
        let mut data: Vec<u8> = Vec::new();
        let mut k: usize = 0;
        while k < n
            invariant
                n == img.rgba@.len() / 4,
                img.rgba@.len() <= usize::MAX,
                k <= n,
                data@.len() == k * 3,
                forall|i: int| 0 <= i < data@.len() ==> #[trigger] data@[i] == rgb_of_rgba(img.rgba@)[i],
            decreases n - k,
        {
            proof {
                assert(k * 4 + 4 <= img.rgba@.len()) by (nonlinear_arith)
                    requires k < n, n == img.rgba@.len() / 4;
            }
            data.push(img.rgba[k * 4]);
            data.push(img.rgba[k * 4 + 1]);
            data.push(img.rgba[k * 4 + 2]);
            k += 1;
        }
        proof {
            assert(data@ =~= rgb_of_rgba(img.rgba@));
            assert(img.rgba@.len() == img.w * img.h * 4);
            assert((img.w * img.h * 4) / 4 * 3 == img.w * img.h * 3) by (nonlinear_arith);
        }
        Ok(Rgb { w: img.w, h: img.h, data })
    }

    /// The pixel at `(x, y)`, the picture repeated to cover the plane.
    pub fn tiled(&self, x: i32, y: i32) -> (c: [u8; 3])
        requires
            self.wf(),
            self.w >= 1,
            self.h >= 1,
            x >= 0,
            y >= 0,
        ensures
            c@ == self.spec_pixel(x as int % self.w as int, y as int % self.h as int),
    {
        let _n = self.data.len();
        let xx = x as usize % self.w;
        let yy = y as usize % self.h;
        proof {
            assert((yy * self.w + xx) * 3 + 3 <= self.w * self.h * 3) by (nonlinear_arith)
                requires xx < self.w, yy < self.h;
        }
        let o = (yy * self.w + xx) * 3;
        let c = [self.data[o], self.data[o + 1], self.data[o + 2]];
        assert(c@ =~= self.spec_pixel(x as int % self.w as int, y as int % self.h as int));
        c
    }

    /// The pixel number of `(x, y)`, or nothing off the picture.
    pub fn index(&self, x: i32, y: i32) -> (r: Option<usize>)
        requires
            self.w * self.h <= usize::MAX,
        ensures
            r == if 0 <= x < self.w && 0 <= y < self.h {
                Some((y * self.w + x) as usize)
            } else {
                None::<usize>
            },
    {
        if x < 0 || y < 0 || x as usize >= self.w || y as usize >= self.h {
            return None;
        }
        proof {
            assert(y * self.w + x < self.w * self.h) by (nonlinear_arith)
                requires 0 <= x < self.w, 0 <= y < self.h;
        }
        Some(y as usize * self.w + x as usize)
    }

    /// The pixel at `(x, y)`, or black off the picture.
    pub fn pixel(&self, x: i32, y: i32) -> (c: [u8; 3])
        requires
            self.wf(),
        ensures
            c@ == if 0 <= x < self.w && 0 <= y < self.h {
                self.spec_pixel(x as int, y as int)
            } else {
                seq![0u8, 0, 0]
            },
    {
        let _n = self.data.len();
        proof {
            assert(self.w * self.h <= self.w * self.h * 3) by (nonlinear_arith);
            if 0 <= x < self.w && 0 <= y < self.h {
                assert(0 <= y * self.w + x < self.w * self.h) by (nonlinear_arith)
                    requires 0 <= x < self.w, 0 <= y < self.h;
            }
        }
        match self.index(x, y) {
            Some(i) => {
                proof {
                    assert(i * 3 + 3 <= self.w * self.h * 3) by (nonlinear_arith)
                        requires 0 <= x < self.w, 0 <= y < self.h, i == y * self.w + x;
                }
                let c = [self.data[i * 3], self.data[i * 3 + 1], self.data[i * 3 + 2]];
                assert(c@ =~= self.spec_pixel(x as int, y as int));
                c
            },
            None => {
                let c = [0u8; 3];
                assert(c@ =~= seq![0u8, 0, 0]);
                c
            },
        }
    }

    /// Whether the pixel at `(x, y)` lies on the picture and is pure white.
    pub fn is_white(&self, x: i32, y: i32) -> (b: bool)
        requires
            self.wf(),
        ensures
            b == (0 <= x < self.w && 0 <= y < self.h && self.spec_pixel(x as int, y as int) == seq![255u8, 255, 255]),
    {
        let _n = self.data.len();
        proof {
            assert(self.w * self.h <= self.w * self.h * 3) by (nonlinear_arith);
        }
        if self.index(x, y).is_none() {
            return false;
        }
        let c = self.pixel(x, y);
        let b = c[0] == 255 && c[1] == 255 && c[2] == 255;
        proof {
            if b {
                assert(c@ =~= seq![255u8, 255, 255]);
            } else {
                assert(c@ != seq![255u8, 255, 255]) by {
                    if c@ == seq![255u8, 255, 255] {
                        assert(c@[0] == 255 && c@[1] == 255 && c@[2] == 255);
                    }
                }
            }
        }
        b
    }

    /// Sets pixel number `i` to a colour.
    pub fn set_at(&mut self, i: usize, c: [u8; 3])
        requires
            i * 3 + 3 <= old(self).data@.len(),
        ensures
            final(self).w == old(self).w,
            final(self).h == old(self).h,
            final(self).data@ == old(self).data@.update(i * 3, c[0]).update(i * 3 + 1, c[1]).update(
                i * 3 + 2,
                c[2],
            ),
    {
        let _n = self.data.len();
        self.data.set(i * 3, c[0]);
        self.data.set(i * 3 + 1, c[1]);
        self.data.set(i * 3 + 2, c[2]);
    }
}

/// Whether the three bytes from `o` on are pure white.
pub open spec fn white_at(data: Seq<u8>, o: int) -> bool {
    data[o] == 255 && data[o + 1] == 255 && data[o + 2] == 255
}

/// The white pixels among the first `n` of a picture `w` wide, as
/// `(column, row)` cut to 16 bits, in reading order.
pub open spec fn whites(data: Seq<u8>, w: nat, n: nat) -> Seq<(i16, i16)>
    decreases n,
{
    if n == 0 {
        Seq::empty()
    } else {
        let i = (n - 1) as int;
        let before = whites(data, w, (n - 1) as nat);
        if white_at(data, i * 3) {
            before.push(((i % w as int) as i16, (i / w as int) as i16))
        } else {
            before
        }
    }
}

/// Offset `k` of the neighbourhood of a pixel, row after row: `(dx, dy)`.
pub open spec fn neighbour(k: int) -> (int, int) {
    (k % 3 - 1, k / 3 - 1)
}

/// Whether the `k`-th neighbour of `(x, y)` counts toward the average: not the
/// pixel itself, on the picture, and not white.
pub open spec fn counts(p: &Rgb, x: int, y: int, k: int) -> bool {
    let (dx, dy) = neighbour(k);
    &&& k != 4
    &&& 0 <= x + dx < p.w
    &&& 0 <= y + dy < p.h
    &&& p.spec_pixel(x + dx, y + dy) != seq![255u8, 255, 255]
}

/// How many of the first `k` neighbours count, and the sum of channel `ch` over them.
pub open spec fn neighbour_sum(p: &Rgb, x: int, y: int, ch: int, k: nat) -> (nat, nat)
    decreases k,
{
    if k == 0 {
        (0, 0)
    } else {
        let (n, t) = neighbour_sum(p, x, y, ch, (k - 1) as nat);
        let (dx, dy) = neighbour(k - 1);
        if counts(p, x, y, k - 1) {
            (n + 1, t + p.spec_pixel(x + dx, y + dy)[ch] as nat)
        } else {
            (n, t)
        }
    }
}

/// The colour a white pixel takes: the mean of its neighbours that are not
/// white, or near-white when there are none or the mean is white.
pub open spec fn spec_unwhitened(p: &Rgb, x: int, y: int) -> Seq<u8> {
    let n = neighbour_sum(p, x, y, 0, 9).0;
    if n == 0 {
        seq![254u8, 254, 254]
    } else {
        let c = seq![
            (neighbour_sum(p, x, y, 0, 9).1 / n) as u8,
            (neighbour_sum(p, x, y, 1, 9).1 / n) as u8,
            (neighbour_sum(p, x, y, 2, 9).1 / n) as u8,
        ];
        if c == seq![255u8, 255, 255] {
            seq![254u8, 254, 254]
        } else {
            c
        }
    }
}

proof fn lemma_neighbour_sum(p: &Rgb, x: int, y: int, ch: int, k: nat)
    requires
        k <= 9,
    ensures
        neighbour_sum(p, x, y, ch, k).0 == neighbour_sum(p, x, y, 0, k).0,
        neighbour_sum(p, x, y, ch, k).0 <= k,
        neighbour_sum(p, x, y, ch, k).1 <= 255 * neighbour_sum(p, x, y, ch, k).0,
    decreases k,
{
    if k > 0 {
        lemma_neighbour_sum(p, x, y, ch, (k - 1) as nat);
    }
}

impl Rgb {
    /// The colour a white pixel at `(x, y)` should take so that it no longer
    /// reads as a province marker.
    pub fn unwhitened(&self, x: i32, y: i32) -> (c: [u8; 3])
        requires
            self.wf(),
            i32::MIN < x < i32::MAX,
            i32::MIN < y < i32::MAX,
        ensures
            c@ == spec_unwhitened(self, x as int, y as int),
    {
        let _len = self.data.len();
        proof {
            assert(self.w * self.h <= self.w * self.h * 3) by (nonlinear_arith);
        }
        let mut sum0: u32 = 0;
        let mut sum1: u32 = 0;
        let mut sum2: u32 = 0;
        let mut n: u32 = 0;
        let mut k: usize = 0;
        while k < 9
            invariant
                self.wf(),
                self.w * self.h <= usize::MAX,
                i32::MIN < x < i32::MAX,
                i32::MIN < y < i32::MAX,
                k <= 9,
                (n as nat, sum0 as nat) == neighbour_sum(self, x as int, y as int, 0, k as nat),
                (n as nat, sum1 as nat) == neighbour_sum(self, x as int, y as int, 1, k as nat),
                (n as nat, sum2 as nat) == neighbour_sum(self, x as int, y as int, 2, k as nat),
            decreases 9 - k,
        {
            proof {
                lemma_neighbour_sum(self, x as int, y as int, 0, k as nat);
                lemma_neighbour_sum(self, x as int, y as int, 1, k as nat);
                lemma_neighbour_sum(self, x as int, y as int, 2, k as nat);
            }
            let dx = (k % 3) as i32 - 1;
            let dy = (k / 3) as i32 - 1;
            if k != 4 && self.index(x + dx, y + dy).is_some() {
                let c = self.pixel(x + dx, y + dy);
                if !(c[0] == 255 && c[1] == 255 && c[2] == 255) {
                    proof {
                        assert(c@ != seq![255u8, 255, 255]) by {
                            if c@ == seq![255u8, 255, 255] {
                                assert(c@[0] == 255 && c@[1] == 255 && c@[2] == 255);
                            }
                        }
                    }
                    sum0 = sum0 + c[0] as u32;
                    sum1 = sum1 + c[1] as u32;
                    sum2 = sum2 + c[2] as u32;
                    n = n + 1;
                } else {
                    assert(c@ =~= seq![255u8, 255, 255]);
                }
            }
            k += 1;
        }
        if n == 0 {
            let c = [254u8; 3];
            assert(c@ =~= seq![254u8, 254, 254]);
            return c;
        }
        proof {
            lemma_neighbour_sum(self, x as int, y as int, 0, 9);
            lemma_neighbour_sum(self, x as int, y as int, 1, 9);
            lemma_neighbour_sum(self, x as int, y as int, 2, 9);
            assert(sum0 / n <= 255) by (nonlinear_arith)
                requires sum0 <= 255 * n, n >= 1;
            assert(sum1 / n <= 255) by (nonlinear_arith)
                requires sum1 <= 255 * n, n >= 1;
            assert(sum2 / n <= 255) by (nonlinear_arith)
                requires sum2 <= 255 * n, n >= 1;
        }
        let c = [(sum0 / n) as u8, (sum1 / n) as u8, (sum2 / n) as u8];
        if c[0] == 255 && c[1] == 255 && c[2] == 255 {
            assert(c@ =~= seq![255u8, 255, 255]);
            let w = [254u8; 3];
            assert(w@ =~= seq![254u8, 254, 254]);
            w
        } else {
            proof {
                assert(c@ != seq![255u8, 255, 255]) by {
                    if c@ == seq![255u8, 255, 255] {
                        assert(c@[0] == 255 && c@[1] == 255 && c@[2] == 255);
                    }
                }
                assert(c@ =~= seq![(sum0 / n) as u8, (sum1 / n) as u8, (sum2 / n) as u8]);
            }
            c
        }
    }

    /// The white pixels, as `(column, row)`, in reading order.
    pub fn white_pixels(&self) -> (r: Vec<(i16, i16)>)
        requires
            self.w > 0 || self.data@.len() < 3,
        ensures
            r@ == whites(self.data@, self.w as nat, self.data@.len() / 3),
    {
        let n = self.data.len() / 3;
        let mut out: Vec<(i16, i16)> = Vec::new();
        let mut i: usize = 0;
        while i < n
            invariant
                n == self.data@.len() / 3,
                self.data@.len() <= usize::MAX,
                self.w > 0 || n == 0,
                i <= n,
                out@ == whites(self.data@, self.w as nat, i as nat),
            decreases n - i,
        {
            proof {
                assert(i * 3 + 3 <= self.data@.len()) by (nonlinear_arith)
                    requires i < n, n == self.data@.len() / 3;
            }
            let o = i * 3;
            if self.data[o] == 255 && self.data[o + 1] == 255 && self.data[o + 2] == 255 {
                out.push(((i % self.w) as i16, (i / self.w) as i16));
            }
            i += 1;
        }
        out
    }
}

/// A run `(x, y, len, prov)` of owners, as the `#pb` lines give them, covers
/// cell `i` of a `w` by `h` picture: it lies on the run's row (which is on the
/// picture), within the row, and the province is a real one.
pub open spec fn run_covers(w: int, h: int, run: (i32, i32, i32, i32), i: int) -> bool {
    let (x, y, len, prov) = run;
    let x0 = if x > 0 {
        x as int
    } else {
        0
    };
    let x1 = if x + len < w {
        x + len
    } else {
        w
    };
    &&& 0 <= y < h
    &&& 0 < prov <= 0x7fff
    &&& y * w + x0 <= i < y * w + x1
}

/// The owners of a `w` by `h` picture after the runs, later runs over earlier ones.
pub open spec fn owners_after(w: int, h: int, runs: Seq<(i32, i32, i32, i32)>) -> Seq<i16>
    decreases runs.len(),
{
    if runs.len() == 0 {
        Seq::new((w * h) as nat, |i: int| 0i16)
    } else {
        let before = owners_after(w, h, runs.drop_last());
        let r = runs.last();
        Seq::new(before.len(), |i: int| if run_covers(w, h, r, i) { r.3 as i16 } else { before[i] })
    }
}

proof fn lemma_owners_after_len(w: int, h: int, runs: Seq<(i32, i32, i32, i32)>)
    requires
        w >= 0,
        h >= 0,
    ensures
        owners_after(w, h, runs).len() == w * h,
    decreases runs.len(),
{
    if runs.len() > 0 {
        lemma_owners_after_len(w, h, runs.drop_last());
    } else {
        assert(w * h >= 0) by (nonlinear_arith)
            requires w >= 0, h >= 0;
    }
}

/// The owner of every pixel of a `w` by `h` picture from the province runs of
/// a map file; pixels no run covers belong to nobody.
pub fn owners_from_runs(w: i32, h: i32, runs: &[(i32, i32, i32, i32)]) -> (o: Vec<i16>)
    requires
        w >= 0,
        h >= 0,
        w * h <= i32::MAX,
        forall|k: int| 0 <= k < runs@.len() ==> i32::MIN <= #[trigger] runs@[k].0 + runs@[k].2 <= i32::MAX,
    ensures
        o@ == owners_after(w as int, h as int, runs@),
{
    let n = (w * h) as usize;
    let mut owners: Vec<i16> = Vec::new();
    let mut i: usize = 0;
    while i < n
        invariant
            i <= n,
            owners@.len() == i,
            forall|j: int| 0 <= j < i ==> owners@[j] == 0i16,
        decreases n - i,
    {
        owners.push(0);
        i += 1;
    }
    proof {
        assert(owners@ =~= owners_after(w as int, h as int, runs@.take(0)));
    }
    let mut k: usize = 0;
    while k < runs.len()
        invariant
            k <= runs@.len(),
            w >= 0,
            h >= 0,
            w * h <= i32::MAX,
            n == w * h,
            forall|q: int| 0 <= q < runs@.len() ==> i32::MIN <= #[trigger] runs@[q].0 + runs@[q].2 <= i32::MAX,
            owners@ == owners_after(w as int, h as int, runs@.take(k as int)),
        decreases runs@.len() - k,
    {
        let (x, y, len, prov) = runs[k];
        let ghost before = owners@;
        proof {
            assert(runs@.take(k + 1).drop_last() =~= runs@.take(k as int));
            lemma_owners_after_len(w as int, h as int, runs@.take(k as int));
        }
        if !(y < 0 || y >= h || prov <= 0 || prov > 0x7fff) {
            let x0 = if x > 0 { x } else { 0 };
            let x1 = if x + len < w { x + len } else { w };
            if x0 < x1 {
                proof {
                    assert(y * w + x1 <= w * h) by (nonlinear_arith)
                        requires 0 <= y < h, x1 <= w, w >= 0;
                    assert(0 <= y * w + x0) by (nonlinear_arith)
                        requires 0 <= y, 0 <= x0, w >= 0;
                }
                let a = (y * w + x0) as usize;
                let b = (y * w + x1) as usize;
                let mut j = a;
                while j < b
                    invariant
                        a <= j <= b,
                        b <= owners@.len(),
                        owners@.len() == before.len(),
                        forall|q: int| 0 <= q < owners@.len() ==> #[trigger] owners@[q] == if a <= q < j { prov as i16 } else { before[q] },
                    decreases b - j,
                {
                    owners.set(j, prov as i16);
                    j += 1;
                }
            }
        }
        proof {
            let r = runs@[k as int];
            assert(runs@.take(k + 1).last() == r);
            assert(owners@ =~= owners_after(w as int, h as int, runs@.take(k + 1)));
        }
        k += 1;
    }
    assert(runs@.take(runs@.len() as int) =~= runs@);
    owners
}


/// Whether an extension is `tga`, in any case.
pub open spec fn is_tga(ext: Seq<char>) -> bool {
    &&& ext.len() == 3
    &&& (ext[0] == 't' || ext[0] == 'T')
    &&& (ext[1] == 'g' || ext[1] == 'G')
    &&& (ext[2] == 'a' || ext[2] == 'A')
}

/// The names of the terrain pictures of the first `k` kinds of art: for each,
/// its summer picture where it has one, then its winter picture.
pub open spec fn pass_names(stem: Seq<char>, ext: Seq<char>, k: int) -> Seq<Seq<char>>
    decreases k,
{
    if k <= 0 {
        Seq::empty()
    } else {
        let (_, _, summer, winter) = spec_pass(k - 1);
        let before = pass_names(stem, ext, k - 1);
        let with_summer = match summer {
            Some(su) => before.push(stem + su@ + "."@ + ext),
            None => before,
        };
        with_summer.push(stem + winter@ + "."@ + ext)
    }
}

/// The pictures a map's picture comes with: the picture itself, then the
/// terrain and winter pictures beside it, named after its stem; none for a
/// picture that is not a `.tga`.
pub open spec fn spec_picture_names(imagefile: Seq<char>) -> Seq<Seq<char>> {
    match (file_stem(imagefile), extension(imagefile)) {
        (Some(stem), Some(ext)) => if is_tga(ext) {
            seq![imagefile] + pass_names(stem, ext, PASS_COUNT as int)
        } else {
            Seq::empty()
        },
        _ => Seq::empty(),
    }
}

/// The pictures a map's picture comes with.
pub fn picture_names(imagefile: &str) -> (v: Vec<String>)
    ensures
        v@.map_values(|s: String| s@) == spec_picture_names(imagefile@),
{
    let name = match file_name_of(imagefile) {
        Some(n) => n,
        None => {
            let v: Vec<String> = Vec::new();
            assert(v@.map_values(|s: String| s@) =~= Seq::<Seq<char>>::empty());
            return v;
        },
    };
    let (stem, ext_opt) = stem_and_ext_of(&name);
    let ext = match ext_opt {
        Some(e) => e,
        None => {
            let v: Vec<String> = Vec::new();
            assert(v@.map_values(|s: String| s@) =~= Seq::<Seq<char>>::empty());
            return v;
        },
    };
    if !(ext.len() == 3 && (ext[0] == 't' || ext[0] == 'T') && (ext[1] == 'g' || ext[1] == 'G')
        && (ext[2] == 'a' || ext[2] == 'A')) {
        let v: Vec<String> = Vec::new();
        assert(v@.map_values(|s: String| s@) =~= Seq::<Seq<char>>::empty());
        return v;
    }
    let stem_s = string_from(stem.as_slice());
    let ext_s = string_from(ext.as_slice());
    let mut out: Vec<String> = Vec::new();
    out.push(string_of(imagefile));
    let mut k: usize = 0;
    proof {
        assert(out@.map_values(|s: String| s@) =~= seq![imagefile@] + pass_names(
            stem@,
            ext@,
            0,
        ));
    }
    while k < PASS_COUNT
        invariant
            k <= PASS_COUNT,
            stem_s@ == stem@,
            ext_s@ == ext@,
            out@.map_values(|s: String| s@) == seq![imagefile@] + pass_names(stem@, ext@, k as int),
        decreases PASS_COUNT - k,
    {
        let p = pass(k);
        let ghost before = out@.map_values(|s: String| s@);
        match p.summer {
            Some(su) => {
                let mut n = string_of(stem_s.as_str());
                push_str(&mut n, su);
                push_str(&mut n, ".");
                push_str(&mut n, ext_s.as_str());
                out.push(n);
            },
            None => {},
        }
        let mut w = string_of(stem_s.as_str());
        push_str(&mut w, p.winter);
        push_str(&mut w, ".");
        push_str(&mut w, ext_s.as_str());
        out.push(w);
        proof {
            let (_, _, summer, winter) = spec_pass(k as int);
            match summer {
                Some(su) => {
                    assert(out@.map_values(|s: String| s@) =~= before.push(stem@ + su@ + "."@ + ext@).push(
                        stem@ + winter@ + "."@ + ext@,
                    ));
                },
                None => {
                    assert(out@.map_values(|s: String| s@) =~= before.push(stem@ + winter@ + "."@ + ext@));
                },
            }
        }
        k += 1;
    }
    out
}


/// A map picture with its terrain art: the picture, where it came from, its
/// bit depth, the terrain masks the provinces had when it was opened, a copy
/// of its pixels as opened, and for each kind of art where its summer and
/// winter pictures are and the pictures read from there.
pub struct Looks {
    pub base: Rgb,
    pub base_path: String,
    pub bpp: u8,
    pub original: Vec<u64>,
    pub opened: Option<Vec<u8>>,
    pub summer_paths: Vec<Option<String>>,
    pub winter_paths: Vec<Option<String>>,
    pub summer: Vec<Option<Rgb>>,
    pub winter: Vec<Option<Rgb>>,
}

impl Looks {
    /// There is a place for each kind of art.
    pub open spec fn wf(&self) -> bool {
        &&& self.summer_paths@.len() == PASS_COUNT
        &&& self.winter_paths@.len() == PASS_COUNT
        &&& self.summer@.len() == PASS_COUNT
        &&& self.winter@.len() == PASS_COUNT
    }

    /// A picture alone, with no terrain art: 32 bits deep, from nowhere.
    pub fn from_base(base: Rgb) -> (l: Looks)
        ensures
            l.wf(),
            l.base == base,
            l.base_path@ == Seq::<char>::empty(),
            l.bpp == 32,
            l.original@ == Seq::<u64>::empty(),
            l.opened is None,
            forall|k: int| 0 <= k < PASS_COUNT ==> l.summer_paths@[k] is None && l.winter_paths@[k]
                is None && l.summer@[k] is None && l.winter@[k] is None,
    {
        let mut summer_paths: Vec<Option<String>> = Vec::new();
        let mut winter_paths: Vec<Option<String>> = Vec::new();
        let mut summer: Vec<Option<Rgb>> = Vec::new();
        let mut winter: Vec<Option<Rgb>> = Vec::new();
        let mut k: usize = 0;
        while k < PASS_COUNT
            invariant
                k <= PASS_COUNT,
                summer_paths@.len() == k,
                winter_paths@.len() == k,
                summer@.len() == k,
                winter@.len() == k,
                forall|j: int| 0 <= j < k ==> summer_paths@[j] is None && winter_paths@[j] is None
                    && summer@[j] is None && winter@[j] is None,
            decreases PASS_COUNT - k,
        {
            summer_paths.push(None);
            winter_paths.push(None);
            summer.push(None);
            winter.push(None);
            k += 1;
        }
        Looks {
            base,
            base_path: String::new(),
            bpp: 32,
            original: Vec::new(),
            opened: None,
            summer_paths,
            winter_paths,
            summer,
            winter,
        }
    }

    /// Gives a kind of art its summer picture, as if read from a file.
    pub fn set_summer(&mut self, pass: usize, img: Rgb)
        requires
            old(self).wf(),
            pass < PASS_COUNT,
        ensures
            final(self).wf(),
            final(self).summer@ == old(self).summer@.update(pass as int, Some(img)),
            final(self).summer_paths@.len() == PASS_COUNT,
            final(self).summer_paths@[pass as int] matches Some(p) && p@ == Seq::<char>::empty(),
            forall|j: int| 0 <= j < PASS_COUNT && j != pass ==> final(self).summer_paths@[j] == old(self).summer_paths@[j],
            final(self).winter@ == old(self).winter@,
            final(self).winter_paths@ == old(self).winter_paths@,
            final(self).base == old(self).base,
            final(self).opened == old(self).opened,
    {
        self.summer.set(pass, Some(img));
        self.summer_paths.set(pass, Some(String::new()));
    }

    /// Gives a kind of art its winter picture, as if read from a file.
    pub fn set_winter(&mut self, pass: usize, img: Rgb)
        requires
            old(self).wf(),
            pass < PASS_COUNT,
        ensures
            final(self).wf(),
            final(self).winter@ == old(self).winter@.update(pass as int, Some(img)),
            final(self).winter_paths@.len() == PASS_COUNT,
            final(self).winter_paths@[pass as int] matches Some(p) && p@ == Seq::<char>::empty(),
            forall|j: int| 0 <= j < PASS_COUNT && j != pass ==> final(self).winter_paths@[j] == old(self).winter_paths@[j],
            final(self).summer@ == old(self).summer@,
            final(self).summer_paths@ == old(self).summer_paths@,
            final(self).base == old(self).base,
            final(self).opened == old(self).opened,
    {
        self.winter.set(pass, Some(img));
        self.winter_paths.set(pass, Some(String::new()));
    }

    /// Whether any kind of art has a winter picture.
    pub fn has_winter_art(&self) -> (b: bool)
        ensures
            b == exists|k: int| 0 <= k < self.winter_paths@.len() && #[trigger] self.winter_paths@[k] is Some,
    {
        let mut k: usize = 0;
        while k < self.winter_paths.len()
            invariant
                k <= self.winter_paths@.len(),
                forall|j: int| 0 <= j < k ==> self.winter_paths@[j] is None,
            decreases self.winter_paths@.len() - k,
        {
            if self.winter_paths[k].is_some() {
                return true;
            }
            k += 1;
        }
        false
    }

    /// Whether any kind of art has a summer picture.
    pub fn has_terrain_art(&self) -> (b: bool)
        ensures
            b == exists|k: int| 0 <= k < self.summer_paths@.len() && #[trigger] self.summer_paths@[k] is Some,
    {
        let mut k: usize = 0;
        while k < self.summer_paths.len()
            invariant
                k <= self.summer_paths@.len(),
                forall|j: int| 0 <= j < k ==> self.summer_paths@[j] is None,
            decreases self.summer_paths@.len() - k,
        {
            if self.summer_paths[k].is_some() {
                return true;
            }
            k += 1;
        }
        false
    }

    /// Keeps a copy of the picture's pixels as they are, the first time only.
    pub fn keep_opened(&mut self)
        ensures
            old(self).opened is Some ==> final(self).opened == old(self).opened,
            old(self).opened is None ==> (final(self).opened matches Some(d) && d@ == old(
                self,
            ).base.data@),
            final(self).base == old(self).base,
            final(self).summer == old(self).summer,
            final(self).winter == old(self).winter,
            final(self).summer_paths == old(self).summer_paths,
            final(self).winter_paths == old(self).winter_paths,
    {
        if self.opened.is_none() {
            let mut copy: Vec<u8> = Vec::new();
            let mut i: usize = 0;
            while i < self.base.data.len()
                invariant
                    i <= self.base.data@.len(),
                    copy@ == self.base.data@.take(i as int),
                decreases self.base.data@.len() - i,
            {
                copy.push(self.base.data[i]);
                assert(copy@ =~= self.base.data@.take(i + 1));
                i += 1;
            }
            assert(copy@ =~= self.base.data@);
            self.opened = Some(copy);
        }
    }

    /// A pixel of the picture as it was opened, where a copy was kept and the
    /// pixel lies within it.
    pub fn opened_pixel(&self, i: usize) -> (r: Option<[u8; 3]>)
        requires
            i <= (usize::MAX - 2) / 3,
        ensures
            r == match self.opened {
                Some(d) => if 3 * i + 2 < d@.len() {
                    Some([d@[3 * i], d@[3 * i + 1], d@[3 * i + 2]])
                } else {
                    None
                },
                None => None,
            },
    {
        match &self.opened {
            Some(d) => {
                if i * 3 + 2 < d.len() {
                    Some([d[i * 3], d[i * 3 + 1], d[i * 3 + 2]])
                } else {
                    None
                }
            },
            None => None,
        }
    }

    /// A pixel of a kind of art's summer picture, the picture repeated over
    /// the plane; nothing where that art has no picture.
    pub fn terrain_pixel(&self, pass: usize, x: i32, y: i32) -> (r: Option<[u8; 3]>)
        requires
            self.wf(),
            pass < PASS_COUNT,
            x >= 0,
            y >= 0,
            self.summer@[pass as int] matches Some(img) ==> img.wf() && img.w >= 1 && img.h >= 1,
        ensures
            r == if self.summer_paths@[pass as int] is Some {
                match self.summer@[pass as int] {
                    Some(img) => Some(
                        seq_to_rgb(img.spec_pixel(x as int % img.w as int, y as int % img.h as int)),
                    ),
                    None => None,
                }
            } else {
                None
            },
    {
        if self.summer_paths[pass].is_none() {
            return None;
        }
        match &self.summer[pass] {
            Some(img) => {
                let c = img.tiled(x, y);
                assert(c == seq_to_rgb(c@));
                Some(c)
            },
            None => None,
        }
    }

    /// The kinds of art that have a summer picture, with their suffixes.
    pub fn terrain_choices(&self) -> (v: Vec<(usize, &'static str)>)
        requires
            self.wf(),
        ensures
            v@ == terrain_choices_upto(self.summer_paths@, PASS_COUNT as int),
    {
        let mut v: Vec<(usize, &'static str)> = Vec::new();
        let mut k: usize = 0;
        while k < PASS_COUNT
            invariant
                k <= PASS_COUNT,
                self.wf(),
                v@ == terrain_choices_upto(self.summer_paths@, k as int),
            decreases PASS_COUNT - k,
        {
            let p = pass(k);
            match p.summer {
                Some(su) => {
                    if self.summer_paths[k].is_some() {
                        v.push((k, su));
                    }
                },
                None => {},
            }
            k += 1;
        }
        v
    }
}

/// Three bytes as a pixel.
pub open spec fn seq_to_rgb(s: Seq<u8>) -> [u8; 3] {
    [s[0], s[1], s[2]]
}

/// The kinds of art among the first `k` that have a summer suffix and a
/// summer picture, with the suffix.
pub open spec fn terrain_choices_upto(paths: Seq<Option<String>>, k: int) -> Seq<(usize, &'static str)>
    decreases k,
{
    if k <= 0 {
        Seq::empty()
    } else {
        let (_, _, summer, _) = spec_pass(k - 1);
        let before = terrain_choices_upto(paths, k - 1);
        match summer {
            Some(su) => if paths[k - 1] is Some {
                before.push(((k - 1) as usize, su))
            } else {
                before
            },
            None => before,
        }
    }
}


/// The paths that are there, in order.
pub open spec fn present_paths(v: Seq<Option<String>>) -> Seq<Seq<char>>
    decreases v.len(),
{
    if v.len() == 0 {
        Seq::empty()
    } else {
        match v.last() {
            Some(p) => present_paths(v.drop_last()).push(p@),
            None => present_paths(v.drop_last()),
        }
    }
}

fn push_present(out: &mut Vec<String>, v: &Vec<Option<String>>)
    ensures
        final(out)@.map_values(|s: String| s@) == old(out)@.map_values(|s: String| s@)
            + present_paths(v@),
{
    let mut k: usize = 0;
    assert(v@.take(0) =~= Seq::<Option<String>>::empty());
    assert(out@.map_values(|s: String| s@) =~= old(out)@.map_values(|s: String| s@) + present_paths(
        v@.take(0),
    ));
    while k < v.len()
        invariant
            k <= v@.len(),
            out@.map_values(|s: String| s@) == old(out)@.map_values(|s: String| s@)
                + present_paths(v@.take(k as int)),
        decreases v@.len() - k,
    {
        assert(v@.take(k + 1).drop_last() =~= v@.take(k as int));
        let ghost before = out@.map_values(|s: String| s@);
        match &v[k] {
            Some(p) => {
                out.push(string_of(p.as_str()));
                assert(out@.map_values(|s: String| s@) =~= before.push(p@));
            },
            None => {},
        }
        k += 1;
    }
    assert(v@.take(v@.len() as int) =~= v@);
}

impl Looks {
    /// The files the looks come from: the picture, then the summer and the
    /// winter pictures that are there.
    pub fn files(&self) -> (v: Vec<String>)
        ensures
            v@.map_values(|s: String| s@) == seq![self.base_path@] + present_paths(
                self.summer_paths@,
            ) + present_paths(self.winter_paths@),
    {
        let mut out: Vec<String> = Vec::new();
        out.push(string_of(self.base_path.as_str()));
        assert(out@.map_values(|s: String| s@) =~= seq![self.base_path@]);
        push_present(&mut out, &self.summer_paths);
        push_present(&mut out, &self.winter_paths);
        out
    }
}


/// The pixel next to pixel `v` of a `w` by `h` map in direction `dir`
/// (right, left, down, up), across the edge to the other side where the map
/// wraps that way; none off the map.
pub open spec fn next_pixel(w: int, h: int, hwrap: bool, vwrap: bool, v: int, dir: int) -> Option<int> {
    let x = v % w;
    let y = v / w;
    let nx0 = if dir == 0 {
        x + 1
    } else if dir == 1 {
        x - 1
    } else {
        x
    };
    let ny0 = if dir == 2 {
        y + 1
    } else if dir == 3 {
        y - 1
    } else {
        y
    };
    let nx = if hwrap && nx0 < 0 {
        nx0 + w
    } else if hwrap && nx0 >= w {
        nx0 - w
    } else {
        nx0
    };
    let ny = if vwrap && ny0 < 0 {
        ny0 + h
    } else if vwrap && ny0 >= h {
        ny0 - h
    } else {
        ny0
    };
    if 0 <= nx < w && 0 <= ny < h {
        Some(ny * w + nx)
    } else {
        None
    }
}

/// The owner a pixel gets from the capitals: one more than the number of the
/// last capital on the map that stands on it (capitals from the 32767th on
/// count for none), or 0.
pub open spec fn seed_owner(w: int, h: int, caps: Seq<(i16, i16)>, v: int) -> int
    decreases caps.len(),
{
    if caps.len() == 0 {
        0
    } else {
        let k = caps.len() - 1;
        let (x, y) = caps[k];
        if 0 <= x < w && 0 <= y < h && k < 32767 && y * w + x == v {
            k + 1
        } else {
            seed_owner(w, h, caps.drop_last(), v)
        }
    }
}

/// A flood of owners from the capitals, with the steps `d` each pixel lies
/// from them (-1 where the flood never came): the capitals' pixels are at 0
/// and hold their capital's owner, and no other pixel is; the flood reaches
/// every neighbour of a pixel it reaches, at most one step further; every
/// other pixel it reaches has a neighbour one step nearer with the same
/// owner; and the pixels it never reaches belong to nobody.
pub open spec fn flooded(
    w: int,
    h: int,
    hwrap: bool,
    vwrap: bool,
    caps: Seq<(i16, i16)>,
    o: Seq<i16>,
    d: Seq<int>,
) -> bool {
    &&& o.len() == w * h
    &&& d.len() == w * h
    &&& forall|v: int| 0 <= v < w * h ==> #[trigger] d[v] >= -1 && (o[v] != 0) == (d[v] >= 0)
    &&& forall|v: int| 0 <= v < w * h ==> (#[trigger] d[v] == 0) == (seed_owner(w, h, caps, v) != 0)
    &&& forall|v: int| 0 <= v < w * h && #[trigger] d[v] == 0 ==> o[v] == seed_owner(w, h, caps, v)
    &&& forall|v: int, dir: int|
        0 <= v < w * h && d[v] >= 0 && 0 <= dir < 4 && #[trigger] next_pixel(w, h, hwrap, vwrap, v, dir)
            is Some ==> {
            let m = next_pixel(w, h, hwrap, vwrap, v, dir)->0;
            d[m] >= 0 && d[m] <= d[v] + 1
        }
    &&& forall|v: int|
        0 <= v < w * h && #[trigger] d[v] > 0 ==> exists|u: int, dir: int|
            0 <= u < w * h && 0 <= dir < 4 && #[trigger] next_pixel(w, h, hwrap, vwrap, u, dir) == Some(v)
                && d[u] >= 0 && d[u] + 1 == d[v] && o[u] == o[v]
}

proof fn lemma_next_pixel(w: int, h: int, hwrap: bool, vwrap: bool, v: int, dir: int)
    requires
        0 <= v < w * h,
        w > 0,
        h > 0,
    ensures
        0 <= v % w < w,
        0 <= v / w < h,
        v == (v / w) * w + v % w,
        next_pixel(w, h, hwrap, vwrap, v, dir) matches Some(m) ==> 0 <= m < w * h,
{
    assert(0 <= v % w < w && v == (v / w) * w + v % w) by (nonlinear_arith)
        requires
            w > 0,
    ;
    assert(0 <= v / w < h) by (nonlinear_arith)
        requires
            0 <= v < w * h,
            w > 0,
            v == (v / w) * w + v % w,
            0 <= v % w < w,
    ;
    match next_pixel(w, h, hwrap, vwrap, v, dir) {
        Some(m) => {
            let x = v % w;
            let y = v / w;
            let nx0 = if dir == 0 { x + 1 } else if dir == 1 { x - 1 } else { x };
            let ny0 = if dir == 2 { y + 1 } else if dir == 3 { y - 1 } else { y };
            let nx = if hwrap && nx0 < 0 { nx0 + w } else if hwrap && nx0 >= w { nx0 - w } else { nx0 };
            let ny = if vwrap && ny0 < 0 { ny0 + h } else if vwrap && ny0 >= h { ny0 - h } else { ny0 };
            assert(0 <= nx < w && 0 <= ny < h && m == ny * w + nx);
            assert(0 <= m < w * h) by (nonlinear_arith)
                requires
                    0 <= nx < w,
                    0 <= ny < h,
                    m == ny * w + nx,
            ;
        },
        None => {},
    }
}


fn next_of(w: i32, h: i32, hwrap: bool, vwrap: bool, v: usize, dir: usize) -> (r: Option<usize>)
    requires
        w > 0,
        h > 0,
        v < w * h,
        w * h <= i32::MAX,
    ensures
        match r {
            Some(m) => next_pixel(w as int, h as int, hwrap, vwrap, v as int, dir as int) == Some(m as int),
            None => next_pixel(w as int, h as int, hwrap, vwrap, v as int, dir as int) is None,
        },
{
    proof {
        lemma_next_pixel(w as int, h as int, hwrap, vwrap, v as int, dir as int);
    }
    let wu = w as usize;
    let x = (v % wu) as i32;
    let y = (v / wu) as i32;
    let nx0: i32 = if dir == 0 { x + 1 } else if dir == 1 { x - 1 } else { x };
    let ny0: i32 = if dir == 2 { y + 1 } else if dir == 3 { y - 1 } else { y };
    let nx: i32 = if hwrap && nx0 < 0 { nx0 + w } else if hwrap && nx0 >= w { nx0 - w } else { nx0 };
    let ny: i32 = if vwrap && ny0 < 0 { ny0 + h } else if vwrap && ny0 >= h { ny0 - h } else { ny0 };
    if 0 <= nx && nx < w && 0 <= ny && ny < h {
        let ghost m = next_pixel(w as int, h as int, hwrap, vwrap, v as int, dir as int)->0;
        assert(m == ny * w + nx);
        Some((ny as usize) * wu + (nx as usize))
    } else {
        None
    }
}

/// How many pixels belong to nobody.
spec fn count_zero(o: Seq<i16>) -> nat
    decreases o.len(),
{
    if o.len() == 0 {
        0
    } else {
        count_zero(o.drop_last()) + if o.last() == 0 {
            1nat
        } else {
            0nat
        }
    }
}

proof fn lemma_count_zero_bound(o: Seq<i16>)
    ensures
        count_zero(o) <= o.len(),
    decreases o.len(),
{
    if o.len() > 0 {
        lemma_count_zero_bound(o.drop_last());
    }
}

proof fn lemma_count_zero_update(o: Seq<i16>, m: int, x: i16)
    requires
        0 <= m < o.len(),
        o[m] == 0,
        x != 0,
    ensures
        count_zero(o.update(m, x)) + 1 == count_zero(o),
    decreases o.len(),
{
    let e = o.update(m, x);
    if m == o.len() - 1 {
        assert(e.drop_last() =~= o.drop_last());
    } else {
        assert(e.drop_last() =~= o.drop_last().update(m, x));
        lemma_count_zero_update(o.drop_last(), m, x);
    }
}

proof fn lemma_seed_step(w: int, h: int, caps: Seq<(i16, i16)>, k: int, v: int)
    requires
        0 <= k < caps.len(),
    ensures
        seed_owner(w, h, caps.take(k + 1), v) == ({
            let (x, y) = caps[k];
            if 0 <= x < w && 0 <= y < h && k < 32767 && y * w + x == v {
                k + 1
            } else {
                seed_owner(w, h, caps.take(k), v)
            }
        }),
{
    assert(caps.take(k + 1).drop_last() =~= caps.take(k));
}

proof fn lemma_seed_range(w: int, h: int, caps: Seq<(i16, i16)>, v: int)
    ensures
        0 <= seed_owner(w, h, caps, v) <= caps.len(),
        seed_owner(w, h, caps, v) <= 32767,
    decreases caps.len(),
{
    if caps.len() > 0 {
        lemma_seed_range(w, h, caps.drop_last(), v);
    }
}


/// A first guess at who owns each pixel of a `w` by `h` map, from the
/// capitals: each capital on the map owns its pixel (the last one where two
/// share a pixel), and the owners flood outward, breadth first, one step to
/// the right, left, down and up at a time, across the edges where the map
/// wraps; a pixel goes to the first flood that reaches it.
#[verifier::spinoff_prover]
#[verifier::rlimit(100)]
pub fn guess_owners(w: i32, h: i32, capitals: &[(i16, i16)], hwrap: bool, vwrap: bool) -> (o: Vec<i16>)
    requires
        w >= 0,
        h >= 0,
        w * h <= i32::MAX,
    ensures
        exists|d: Seq<int>| flooded(w as int, h as int, hwrap, vwrap, capitals@, o@, d),
{
    let n = (w * h) as usize;
    let ghost ni = w * h;
    let ghost caps = capitals@;
    let mut owners: Vec<i16> = Vec::new();
    while owners.len() < n
        invariant
            owners@.len() <= n,
            forall|v: int| 0 <= v < owners@.len() ==> owners@[v] == 0,
        decreases n - owners@.len(),
    {
        owners.push(0);
    }
    let ghost mut d: Seq<int> = Seq::new(n as nat, |i: int| -1int);
    let mut queue: Vec<usize> = Vec::new();
    proof {
        lemma_count_zero_bound(owners@);
        assert(count_zero(owners@) == n) by {
            lemma_all_zero(owners@);
        }
    }
    let mut k: usize = 0;
    while k < capitals.len()
        invariant
            k <= capitals@.len(),
            caps == capitals@,
            ni == w * h,
            n == ni,
            w >= 0,
            h >= 0,
            ni <= i32::MAX,
            owners@.len() == n,
            d.len() == n,
            queue@.len() <= k,
            queue@.len() + count_zero(owners@) <= k + n,
            forall|v: int| 0 <= v < n ==> (#[trigger] d[v] == -1 || d[v] == 0) && (owners@[v] != 0) == (d[v] == 0),
            forall|v: int| 0 <= v < n ==> (#[trigger] d[v] == 0) == (seed_owner(w as int, h as int, caps.take(k as int), v) != 0),
            forall|v: int| 0 <= v < n && #[trigger] d[v] == 0 ==> owners@[v] == seed_owner(w as int, h as int, caps.take(k as int), v),
            forall|j: int| 0 <= j < queue@.len() ==> #[trigger] queue@[j] < n && d[queue@[j] as int] == 0,
            forall|v: int| 0 <= v < n && #[trigger] d[v] == 0 ==> queue@.contains(v as usize),
        decreases capitals@.len() - k,
    {
        let (x, y) = capitals[k];
        let ghost before = owners@;
        let ghost db = d;
        let ghost qb = queue@;
        if x >= 0 && y >= 0 && (x as i32) < w && (y as i32) < h && k < 32767 {
            let xi = x as i32;
            let yi = y as i32;
            assert(0 <= yi * w + xi < w * h) by (nonlinear_arith)
                requires
                    0 <= xi < w,
                    0 <= yi < h,
            ;
            let v = (yi * w + xi) as usize;
            let id = (k as i16) + 1;
            proof {
                if before[v as int] == 0 {
                    lemma_count_zero_update(before, v as int, id);
                } else {
                    lemma_count_zero_same(before, v as int, id);
                }
            }
            owners.set(v, id);
            proof {
                d = d.update(v as int, 0);
            }
            queue.push(v);
            proof {
                assert forall|u: int| 0 <= u < n implies (#[trigger] d[u] == 0) == (seed_owner(
                    w as int,
                    h as int,
                    caps.take(k + 1),
                    u,
                ) != 0) by {
                    lemma_seed_step(w as int, h as int, caps, k as int, u);
                }
                assert forall|u: int| 0 <= u < n && #[trigger] d[u] == 0 implies owners@[u] == seed_owner(
                    w as int,
                    h as int,
                    caps.take(k + 1),
                    u,
                ) by {
                    lemma_seed_step(w as int, h as int, caps, k as int, u);
                }
                assert forall|u: int| 0 <= u < n && #[trigger] d[u] == 0 implies queue@.contains(u as usize) by {
                    if u == v as int {
                        assert(queue@[qb.len() as int] == v);
                    } else {
                        let j = choose|j: int| 0 <= j < qb.len() && qb[j] == u as usize;
                        assert(queue@[j] == u as usize);
                    }
                }
                assert forall|j: int| 0 <= j < queue@.len() implies #[trigger] queue@[j] < n && d[queue@[j] as int] == 0 by {
                    if j < qb.len() {
                        assert(queue@[j] == qb[j]);
                    }
                }
            }
        } else {
            proof {
                assert forall|u: int| 0 <= u < n implies (#[trigger] d[u] == 0) == (seed_owner(
                    w as int,
                    h as int,
                    caps.take(k + 1),
                    u,
                ) != 0) by {
                    lemma_seed_step(w as int, h as int, caps, k as int, u);
                }
                assert forall|u: int| 0 <= u < n && #[trigger] d[u] == 0 implies owners@[u] == seed_owner(
                    w as int,
                    h as int,
                    caps.take(k + 1),
                    u,
                ) by {
                    lemma_seed_step(w as int, h as int, caps, k as int, u);
                }
            }
        }
        k += 1;
    }
    proof {
        assert(caps.take(capitals@.len() as int) =~= caps);
        lemma_count_zero_bound(owners@);
    }
    let ghost nc = capitals@.len() + n;
    let ghost wi = w as int;
    let ghost hi = h as int;
    let mut head: usize = 0;
    while head < queue.len()
        invariant
            ni == w * h,
            n == ni,
            wi == w,
            hi == h,
            w >= 0,
            h >= 0,
            ni <= i32::MAX,
            caps == capitals@,
            nc == capitals@.len() + n,
            owners@.len() == n,
            d.len() == n,
            head <= queue@.len(),
            queue@.len() + count_zero(owners@) <= nc,
            forall|j: int| 0 <= j < queue@.len() ==> #[trigger] queue@[j] < n && d[queue@[j] as int] >= 0,
            forall|v: int| 0 <= v < n && #[trigger] d[v] >= 0 ==> queue@.contains(v as usize),
            forall|a: int, b: int|
                0 <= a < b < queue@.len() ==> d[#[trigger] queue@[a] as int] <= d[#[trigger] queue@[b] as int],
            head < queue@.len() ==> forall|b: int|
                head <= b < queue@.len() ==> d[#[trigger] queue@[b] as int] <= d[queue@[head as int] as int] + 1,
            forall|a: int, dir: int|
                0 <= a < head && 0 <= dir < 4 && #[trigger] next_pixel(wi, hi, hwrap, vwrap, queue@[a] as int, dir) is Some
                    ==> {
                    let m = next_pixel(wi, hi, hwrap, vwrap, queue@[a] as int, dir)->0;
                    d[m] >= 0 && d[m] <= d[queue@[a] as int] + 1
                },
            forall|v: int| 0 <= v < n ==> #[trigger] d[v] >= -1 && (owners@[v] != 0) == (d[v] >= 0),
            forall|v: int| 0 <= v < n ==> (#[trigger] d[v] == 0) == (seed_owner(wi, hi, caps, v) != 0),
            forall|v: int| 0 <= v < n && #[trigger] d[v] == 0 ==> owners@[v] == seed_owner(wi, hi, caps, v),
            forall|v: int|
                0 <= v < n && #[trigger] d[v] > 0 ==> exists|u: int, dir: int|
                    0 <= u < n && 0 <= dir < 4 && #[trigger] next_pixel(wi, hi, hwrap, vwrap, u, dir) == Some(v)
                        && d[u] >= 0 && d[u] + 1 == d[v] && owners@[u] == owners@[v],
        decreases nc - head,
    {
        let u = queue[head];
        let id = owners[u];
        let ghost du = d[u as int];
        let mut dir: usize = 0;
        while dir < 4
            invariant
                ni == w * h,
                n == ni,
                wi == w,
                hi == h,
                w > 0,
                h > 0,
                ni <= i32::MAX,
                caps == capitals@,
                nc == capitals@.len() + n,
                owners@.len() == n,
                d.len() == n,
                head < queue@.len(),
                queue@[head as int] == u,
                u < n,
                d[u as int] == du,
                du >= 0,
                owners@[u as int] == id,
                id != 0,
                dir <= 4,
                queue@.len() + count_zero(owners@) <= nc,
                forall|j: int| 0 <= j < queue@.len() ==> #[trigger] queue@[j] < n && d[queue@[j] as int] >= 0,
                forall|v: int| 0 <= v < n && #[trigger] d[v] >= 0 ==> queue@.contains(v as usize),
                forall|a: int, b: int|
                    0 <= a < b < queue@.len() ==> d[#[trigger] queue@[a] as int] <= d[#[trigger] queue@[b] as int],
                forall|b: int| head <= b < queue@.len() ==> d[#[trigger] queue@[b] as int] <= du + 1,
                forall|a: int, dd: int|
                    0 <= a < head && 0 <= dd < 4 && #[trigger] next_pixel(wi, hi, hwrap, vwrap, queue@[a] as int, dd) is Some
                        ==> {
                        let m = next_pixel(wi, hi, hwrap, vwrap, queue@[a] as int, dd)->0;
                        d[m] >= 0 && d[m] <= d[queue@[a] as int] + 1
                    },
                forall|dd: int|
                    0 <= dd < dir && #[trigger] next_pixel(wi, hi, hwrap, vwrap, u as int, dd) is Some ==> {
                        let m = next_pixel(wi, hi, hwrap, vwrap, u as int, dd)->0;
                        d[m] >= 0 && d[m] <= du + 1
                    },
                forall|v: int| 0 <= v < n ==> #[trigger] d[v] >= -1 && (owners@[v] != 0) == (d[v] >= 0),
                forall|v: int| 0 <= v < n ==> (#[trigger] d[v] == 0) == (seed_owner(wi, hi, caps, v) != 0),
                forall|v: int| 0 <= v < n && #[trigger] d[v] == 0 ==> owners@[v] == seed_owner(wi, hi, caps, v),
                forall|v: int|
                    0 <= v < n && #[trigger] d[v] > 0 ==> exists|uu: int, dd: int|
                        0 <= uu < n && 0 <= dd < 4 && #[trigger] next_pixel(wi, hi, hwrap, vwrap, uu, dd) == Some(v)
                            && d[uu] >= 0 && d[uu] + 1 == d[v] && owners@[uu] == owners@[v],
            decreases 4 - dir,
        {
            match next_of(w, h, hwrap, vwrap, u, dir) {
                Some(m) => {
                    proof {
                        lemma_next_pixel(wi, hi, hwrap, vwrap, u as int, dir as int);
                    }
                    if owners[m] == 0 {
                        let ghost before = owners@;
                        let ghost db = d;
                        let ghost qb = queue@;
                        proof {
                            lemma_count_zero_update(before, m as int, id);
                            lemma_count_zero_bound(before.update(m as int, id));
                            assert(db[m as int] == -1);
                        }
                        owners.set(m, id);
                        proof {
                            d = d.update(m as int, du + 1);
                        }
                        queue.push(m);
                        proof {
                            assert forall|v: int| 0 <= v < n && #[trigger] d[v] >= 0 implies queue@.contains(v as usize) by {
                                if v == m as int {
                                    assert(queue@[qb.len() as int] == m);
                                } else {
                                    assert(db[v] >= 0);
                                    let j = choose|j: int| 0 <= j < qb.len() && qb[j] == v as usize;
                                    assert(queue@[j] == v as usize);
                                }
                            }
                            assert forall|v: int|
                                0 <= v < n && #[trigger] d[v] > 0 implies exists|uu: int, dd: int|
                                    0 <= uu < n && 0 <= dd < 4 && #[trigger] next_pixel(wi, hi, hwrap, vwrap, uu, dd) == Some(v)
                                        && d[uu] >= 0 && d[uu] + 1 == d[v] && owners@[uu] == owners@[v] by {
                                if v == m as int {
                                    assert(next_pixel(wi, hi, hwrap, vwrap, u as int, dir as int) == Some(v));
                                    assert(u as int != m as int);
                                } else {
                                    assert(db[v] > 0);
                                    let (uu, dd) = choose|uu: int, dd: int|
                                        0 <= uu < n && 0 <= dd < 4 && #[trigger] next_pixel(wi, hi, hwrap, vwrap, uu, dd) == Some(v)
                                            && db[uu] >= 0 && db[uu] + 1 == db[v] && before[uu] == before[v];
                                    assert(next_pixel(wi, hi, hwrap, vwrap, uu, dd) == Some(v));
                                    assert(uu != m as int);
                                }
                            }
                            assert forall|j: int| 0 <= j < queue@.len() implies #[trigger] queue@[j] < n && d[queue@[j] as int] >= 0 by {
                                if j < qb.len() {
                                    assert(queue@[j] == qb[j]);
                                }
                            }
                            assert forall|a: int, b: int|
                                0 <= a < b < queue@.len() implies d[#[trigger] queue@[a] as int] <= d[#[trigger] queue@[b] as int] by {
                                if b == qb.len() {
                                    assert(qb[a] != m);
                                    if a < head {
                                        assert(db[qb[a] as int] <= db[qb[head as int] as int]);
                                    }
                                } else {
                                    assert(qb[a] != m && qb[b] != m);
                                }
                            }
                            assert forall|v: int| 0 <= v < n implies (#[trigger] d[v] == 0) == (seed_owner(wi, hi, caps, v) != 0) by {
                                if v == m as int {
                                    assert(db[v] == -1);
                                }
                            }
                            assert forall|a: int, dd: int|
                                0 <= a < head && 0 <= dd < 4 && #[trigger] next_pixel(wi, hi, hwrap, vwrap, queue@[a] as int, dd) is Some
                                    implies {
                                    let m2 = next_pixel(wi, hi, hwrap, vwrap, queue@[a] as int, dd)->0;
                                    d[m2] >= 0 && d[m2] <= d[queue@[a] as int] + 1
                                } by {
                                assert(queue@[a] == qb[a]);
                                assert(next_pixel(wi, hi, hwrap, vwrap, qb[a] as int, dd) is Some);
                                let m2 = next_pixel(wi, hi, hwrap, vwrap, qb[a] as int, dd)->0;
                                lemma_next_pixel(wi, hi, hwrap, vwrap, qb[a] as int, dd);
                                assert(0 <= m2 < n);
                                assert(db[m2] >= 0 && db[m2] <= db[qb[a] as int] + 1);
                                assert(db[m as int] == -1);
                                assert(m2 != m as int);
                                assert(qb[a] != m);
                            }
                            assert forall|dd: int|
                                0 <= dd < dir + 1 && #[trigger] next_pixel(wi, hi, hwrap, vwrap, u as int, dd) is Some implies {
                                    let m2 = next_pixel(wi, hi, hwrap, vwrap, u as int, dd)->0;
                                    d[m2] >= 0 && d[m2] <= du + 1
                                } by {
                                lemma_next_pixel(wi, hi, hwrap, vwrap, u as int, dd);
                                let m2 = next_pixel(wi, hi, hwrap, vwrap, u as int, dd)->0;
                                if dd < dir {
                                    assert(next_pixel(wi, hi, hwrap, vwrap, u as int, dd) is Some);
                                    assert(db[m2] >= 0);
                                    assert(db[m as int] == -1);
                                    assert(m2 != m as int);
                                    assert(d[m2] == db[m2]);
                                } else {
                                    assert(m2 == m as int);
                                }
                            }
                        }
                    } else {
                        proof {
                            let j = choose|j: int| 0 <= j < queue@.len() && queue@[j] == m;
                            assert(queue@[j] == m);
                            if j < head {
                                assert(d[queue@[j] as int] <= d[queue@[head as int] as int]);
                            } else {
                                assert(d[queue@[j] as int] <= du + 1);
                            }
                        }
                    }
                },
                None => {},
            }
            dir += 1;
        }
        proof {
            assert forall|a: int, dd: int|
                0 <= a < head + 1 && 0 <= dd < 4 && #[trigger] next_pixel(wi, hi, hwrap, vwrap, queue@[a] as int, dd) is Some
                    implies {
                    let m = next_pixel(wi, hi, hwrap, vwrap, queue@[a] as int, dd)->0;
                    d[m] >= 0 && d[m] <= d[queue@[a] as int] + 1
                } by {
                if a == head {
                    assert(queue@[a] == u);
                }
            }
            if head + 1 < queue@.len() {
                assert forall|b: int|
                    head + 1 <= b < queue@.len() implies d[#[trigger] queue@[b] as int] <= d[queue@[head + 1] as int] + 1 by {
                    assert(d[queue@[head as int] as int] <= d[queue@[head + 1] as int]);
                }
            }
        }
        head += 1;
    }
    proof {
        assert forall|v: int, dir: int|
            0 <= v < wi * hi && d[v] >= 0 && 0 <= dir < 4 && #[trigger] next_pixel(wi, hi, hwrap, vwrap, v, dir) is Some
                implies {
                let m = next_pixel(wi, hi, hwrap, vwrap, v, dir)->0;
                d[m] >= 0 && d[m] <= d[v] + 1
            } by {
            let j = choose|j: int| 0 <= j < queue@.len() && queue@[j] == v as usize;
            assert(queue@[j] == v as usize);
            assert(next_pixel(wi, hi, hwrap, vwrap, queue@[j] as int, dir) is Some);
        }
        assert(flooded(wi, hi, hwrap, vwrap, caps, owners@, d));
    }
    owners
}

proof fn lemma_count_zero_same(o: Seq<i16>, m: int, x: i16)
    requires
        0 <= m < o.len(),
        o[m] != 0,
        x != 0,
    ensures
        count_zero(o.update(m, x)) == count_zero(o),
    decreases o.len(),
{
    let e = o.update(m, x);
    if m == o.len() - 1 {
        assert(e.drop_last() =~= o.drop_last());
    } else {
        assert(e.drop_last() =~= o.drop_last().update(m, x));
        lemma_count_zero_same(o.drop_last(), m, x);
    }
}

proof fn lemma_all_zero(o: Seq<i16>)
    requires
        forall|v: int| 0 <= v < o.len() ==> o[v] == 0,
    ensures
        count_zero(o) == o.len(),
    decreases o.len(),
{
    if o.len() > 0 {
        assert forall|v: int| 0 <= v < o.drop_last().len() implies o.drop_last()[v] == 0 by {
            assert(o.drop_last()[v] == o[v]);
        }
        lemma_all_zero(o.drop_last());
        assert(o.last() == o[o.len() - 1]);
    }
}

} // verus!
