//! Textures and sprites: RGBA images, their mip chains, and PNG decoding.
use vstd::prelude::*;
use crate::text::{push_str, string_of};

verus! {

#[derive(Clone, Copy, Debug, PartialEq, Eq, Hash, Structural)]
pub enum Tex {
    Plain,
    Ash,
    Highland,
    Farm,
    Swamp,
    Waste,
    Desert,
    Forest,
    Cavefloor,
    Cave,
    Caveforest,
    Dripcave,
    Floodcave,
    Floodcrys,
    Floodedplain,
    Floodedswamp,
    Floodedwaste,
    Winter,
    Winterfarm,
    Winterwood,
    Frozendrip,
    Frozen,
    Lava,
    Water,
    Deepsea,
    Shallowsea,
    Kelpforest,
    Unknown,
}

pub const ALL: [Tex; 28] = [
    Tex::Plain,
    Tex::Ash,
    Tex::Highland,
    Tex::Farm,
    Tex::Swamp,
    Tex::Waste,
    Tex::Desert,
    Tex::Forest,
    Tex::Cavefloor,
    Tex::Cave,
    Tex::Caveforest,
    Tex::Dripcave,
    Tex::Floodcave,
    Tex::Floodcrys,
    Tex::Floodedplain,
    Tex::Floodedswamp,
    Tex::Floodedwaste,
    Tex::Winter,
    Tex::Winterfarm,
    Tex::Winterwood,
    Tex::Frozendrip,
    Tex::Frozen,
    Tex::Lava,
    Tex::Water,
    Tex::Deepsea,
    Tex::Shallowsea,
    Tex::Kelpforest,
    Tex::Unknown,
];

/// The place of a texture in `ALL`, and in a texture set.
pub open spec fn tex_index(t: Tex) -> int {
    match t {
        Tex::Plain => 0,
        Tex::Ash => 1,
        Tex::Highland => 2,
        Tex::Farm => 3,
        Tex::Swamp => 4,
        Tex::Waste => 5,
        Tex::Desert => 6,
        Tex::Forest => 7,
        Tex::Cavefloor => 8,
        Tex::Cave => 9,
        Tex::Caveforest => 10,
        Tex::Dripcave => 11,
        Tex::Floodcave => 12,
        Tex::Floodcrys => 13,
        Tex::Floodedplain => 14,
        Tex::Floodedswamp => 15,
        Tex::Floodedwaste => 16,
        Tex::Winter => 17,
        Tex::Winterfarm => 18,
        Tex::Winterwood => 19,
        Tex::Frozendrip => 20,
        Tex::Frozen => 21,
        Tex::Lava => 22,
        Tex::Water => 23,
        Tex::Deepsea => 24,
        Tex::Shallowsea => 25,
        Tex::Kelpforest => 26,
        Tex::Unknown => 27,
    }
}

/// Every texture stands in `ALL` at its own place.
pub proof fn lemma_all_in_order(t: Tex)
    ensures
        0 <= tex_index(t) < 28,
        ALL@[tex_index(t)] == t,
{
}

fn index_of(t: Tex) -> (i: usize)
    ensures
        i == tex_index(t),
{
    match t {
        Tex::Plain => 0,
        Tex::Ash => 1,
        Tex::Highland => 2,
        Tex::Farm => 3,
        Tex::Swamp => 4,
        Tex::Waste => 5,
        Tex::Desert => 6,
        Tex::Forest => 7,
        Tex::Cavefloor => 8,
        Tex::Cave => 9,
        Tex::Caveforest => 10,
        Tex::Dripcave => 11,
        Tex::Floodcave => 12,
        Tex::Floodcrys => 13,
        Tex::Floodedplain => 14,
        Tex::Floodedswamp => 15,
        Tex::Floodedwaste => 16,
        Tex::Winter => 17,
        Tex::Winterfarm => 18,
        Tex::Winterwood => 19,
        Tex::Frozendrip => 20,
        Tex::Frozen => 21,
        Tex::Lava => 22,
        Tex::Water => 23,
        Tex::Deepsea => 24,
        Tex::Shallowsea => 25,
        Tex::Kelpforest => 26,
        Tex::Unknown => 27,
    }
}

impl Tex {
    /// The name of the texture's file, without its extension.
    pub fn file_stem(self) -> (s: &'static str)
        ensures
            s@ == match self {
                Tex::Plain => "bg_plain"@,
                Tex::Ash => "bg_ash"@,
                Tex::Highland => "bg_highland"@,
                Tex::Farm => "bg_farm"@,
                Tex::Swamp => "bg_swamp"@,
                Tex::Waste => "bg_waste"@,
                Tex::Desert => "bg_desert"@,
                Tex::Forest => "bg_forest"@,
                Tex::Cavefloor => "bg_cavefloor"@,
                Tex::Cave => "bg_cave"@,
                Tex::Caveforest => "bg_caveforest"@,
                Tex::Dripcave => "bg_dripcave"@,
                Tex::Floodcave => "bg_floodcave"@,
                Tex::Floodcrys => "bg_floodcrys"@,
                Tex::Floodedplain => "bg_floodedplain"@,
                Tex::Floodedswamp => "bg_floodedswamp"@,
                Tex::Floodedwaste => "bg_floodedwaste"@,
                Tex::Winter => "bg_winter"@,
                Tex::Winterfarm => "bg_winterfarm"@,
                Tex::Winterwood => "bg_winterwood"@,
                Tex::Frozendrip => "bg_frozendrip"@,
                Tex::Frozen => "bg_frozen"@,
                Tex::Lava => "bg_lava"@,
                Tex::Water => "bg_water"@,
                Tex::Deepsea => "bg_deepsea"@,
                Tex::Shallowsea => "bg_shallowsea"@,
                Tex::Kelpforest => "bg_kelpforest"@,
                Tex::Unknown => "bg_unknown"@,
            },
    {
        match self {
            Tex::Plain => "bg_plain",
            Tex::Ash => "bg_ash",
            Tex::Highland => "bg_highland",
            Tex::Farm => "bg_farm",
            Tex::Swamp => "bg_swamp",
            Tex::Waste => "bg_waste",
            Tex::Desert => "bg_desert",
            Tex::Forest => "bg_forest",
            Tex::Cavefloor => "bg_cavefloor",
            Tex::Cave => "bg_cave",
            Tex::Caveforest => "bg_caveforest",
            Tex::Dripcave => "bg_dripcave",
            Tex::Floodcave => "bg_floodcave",
            Tex::Floodcrys => "bg_floodcrys",
            Tex::Floodedplain => "bg_floodedplain",
            Tex::Floodedswamp => "bg_floodedswamp",
            Tex::Floodedwaste => "bg_floodedwaste",
            Tex::Winter => "bg_winter",
            Tex::Winterfarm => "bg_winterfarm",
            Tex::Winterwood => "bg_winterwood",
            Tex::Frozendrip => "bg_frozendrip",
            Tex::Frozen => "bg_frozen",
            Tex::Lava => "bg_lava",
            Tex::Water => "bg_water",
            Tex::Deepsea => "bg_deepsea",
            Tex::Shallowsea => "bg_shallowsea",
            Tex::Kelpforest => "bg_kelpforest",
            Tex::Unknown => "bg_unknown",
        }
    }
}

#[derive(Clone, Debug)]
pub struct Image {
    pub w: usize,
    pub h: usize,
    pub rgba: Vec<u8>,
}

/// An image as mathematical values.
pub struct ImageView {
    pub w: nat,
    pub h: nat,
    pub rgba: Seq<u8>,
}

impl View for Image {
    type V = ImageView;

    open spec fn view(&self) -> ImageView {
        ImageView { w: self.w as nat, h: self.h as nat, rgba: self.rgba@ }
    }
}

/// Four bytes for each pixel, row after row.
pub open spec fn image_wf(v: ImageView) -> bool {
    v.rgba.len() == v.w * v.h * 4
}

/// The bytes with rows in the opposite order; each row is `stride` bytes.
pub open spec fn rows_flipped(rgba: Seq<u8>, stride: int, h: int) -> Seq<u8> {
    Seq::new(rgba.len(), |i: int| rgba[(h - 1 - i / stride) * stride + i % stride])
}

/// Pixel `(x, y)` of an image.
pub open spec fn pixel_at(v: ImageView, x: int, y: int) -> Seq<u8> {
    v.rgba.subrange((y * v.w + x) * 4, (y * v.w + x) * 4 + 4)
}

proof fn lemma_row_index(stride: int, h: int, y: int, k: int)
    requires
        stride >= 1,
        0 <= y < h,
        0 <= k < stride,
    ensures
        (y * stride + k) / stride == y,
        (y * stride + k) % stride == k,
        0 <= y * stride + k < h * stride,
{
    vstd::arithmetic::div_mod::lemma_fundamental_div_mod_converse(y * stride + k, stride, y, k);
    assert(0 <= y * stride + k < h * stride) by (nonlinear_arith)
        requires 0 <= y < h, 0 <= k < stride;
}

impl Image {
    /// Turns the image upside down: the first row becomes the last.
    pub fn flip_rows(&mut self)
        requires
            image_wf(old(self)@),
        ensures
            final(self).w == old(self).w,
            final(self).h == old(self).h,
            final(self).rgba@ == rows_flipped(old(self).rgba@, old(self).w * 4, old(self).h as int),
    {
        let ghost orig = self.rgba@;
        let n = self.rgba.len();
        let h = self.h;
        if self.w == 0 || h == 0 {
            proof {
                assert(orig.len() == 0) by (nonlinear_arith)
                    requires orig.len() == self.w * self.h * 4, self.w == 0 || h == 0, h == self.h;
                assert(self.rgba@ =~= rows_flipped(orig, self.w * 4, h as int));
            }
            return;
        }
        proof {
            assert(self.w * 4 <= n) by (nonlinear_arith)
                requires n == self.w * self.h * 4, self.h >= 1;
        }
        let stride = self.w * 4;
        proof {
            assert(orig.len() == h * stride) by (nonlinear_arith)
                requires orig.len() == self.w * self.h * 4, stride == self.w * 4, h == self.h;
        }
        let mut top: usize = 0;
        while top < h / 2
            invariant
                self.w * 4 == stride,
                self.h == h,
                stride >= 1,
                h >= 1,
                orig.len() == h * stride,
                n == orig.len(),
                self.rgba@.len() == orig.len(),
                top <= h / 2,
                forall|y: int, k: int|
                    0 <= y < h && 0 <= k < stride ==> #[trigger] self.rgba@[y * stride + k] == if y
                        < top || y >= h - top {
                        orig[(h - 1 - y) * stride + k]
                    } else {
                        orig[y * stride + k]
                    },
            decreases h / 2 - top,
        {
            let bot = h - 1 - top;
            proof {
                assert((top + 1) * stride <= h * stride && (bot + 1) * stride <= h * stride) by (nonlinear_arith)
                    requires top < bot, bot < h, stride >= 1;
            }
            let mut k: usize = 0;
            while k < stride
                invariant
                    self.w * 4 == stride,
                    self.h == h,
                    stride >= 1,
                    h >= 1,
                    orig.len() == h * stride,
                    n == orig.len(),
                    self.rgba@.len() == orig.len(),
                    top < h / 2,
                    bot == h - 1 - top,
                    (top + 1) * stride <= h * stride,
                    (bot + 1) * stride <= h * stride,
                    k <= stride,
                    forall|y: int, kk: int|
                        0 <= y < h && 0 <= kk < stride ==> #[trigger] self.rgba@[y * stride + kk] == if y
                            < top || y >= h - top || ((y == top || y == bot) && kk < k) {
                            orig[(h - 1 - y) * stride + kk]
                        } else {
                            orig[y * stride + kk]
                        },
                decreases stride - k,
            {
                proof {
                    assert(top * stride + k < (top + 1) * stride) by (nonlinear_arith)
                        requires k < stride;
                    assert(bot * stride + k < (bot + 1) * stride) by (nonlinear_arith)
                        requires k < stride;
                }
                let a = top * stride + k;
                let b = bot * stride + k;
                let ghost before = self.rgba@;
                let va = self.rgba[a];
                let vb = self.rgba[b];
                self.rgba.set(a, vb);
                self.rgba.set(b, va);
                proof {
                    assert forall|y: int, kk: int| 0 <= y < h && 0 <= kk < stride implies #[trigger] self.rgba@[y
                        * stride + kk] == if y < top || y >= h - top || ((y == top || y == bot) && kk < k
                        + 1) {
                        orig[(h - 1 - y) * stride + kk]
                    } else {
                        orig[y * stride + kk]
                    } by {
                        lemma_row_index(stride as int, h as int, y, kk);
                        lemma_row_index(stride as int, h as int, top as int, k as int);
                        lemma_row_index(stride as int, h as int, bot as int, k as int);
                        let i = y * stride + kk;
                        if i == a {
                            assert(y == top && kk == k);
                            assert(before[b as int] == orig[(h - 1 - top) * stride + k]) by {
                                assert(before[(bot * stride + k) as int] == orig[bot * stride + k]);
                            }
                        } else if i == b {
                            assert(y == bot && kk == k);
                            assert(before[a as int] == orig[top * stride + k]);
                        } else {
                            assert(before[i] == self.rgba@[i]);
                            assert(y != top || kk != k);
                            assert(y != bot || kk != k);
                        }
                    }
                }
                k += 1;
            }
            top += 1;
        }
        proof {
            let want = rows_flipped(orig, stride as int, h as int);
            assert forall|i: int| 0 <= i < orig.len() implies self.rgba@[i] == want[i] by {
                let y = i / (stride as int);
                let kk = i % (stride as int);
                crate::blueprint_editor::lemma_cell_coords(stride as int, h as int, i);
                assert(i == y * stride + kk);
                if y < top || y >= h - top {
                } else {
                    assert(h - 1 - y == y);
                }
            }
            assert(self.rgba@ =~= want);
        }
    }

    /// The four bytes of pixel `(x, y)`.
    pub fn at(&self, x: usize, y: usize) -> (p: [u8; 4])
        requires
            image_wf(self@),
            x < self.w,
            y < self.h,
        ensures
            p@ == pixel_at(self@, x as int, y as int),
    {
        proof {
            assert((y * self.w + x) * 4 + 4 <= self.w * self.h * 4) by (nonlinear_arith)
                requires x < self.w, y < self.h;
        }
        let _n = self.rgba.len();
        let i = (y * self.w + x) * 4;
        let p = [self.rgba[i], self.rgba[i + 1], self.rgba[i + 2], self.rgba[i + 3]];
        assert(p@ =~= pixel_at(self@, x as int, y as int));
        p
    }

    /// The pixel at `(x, y)` of the image repeated over the plane.
    pub fn tiled(&self, x: i32, y: i32) -> (p: [u8; 4])
        requires
            image_wf(self@),
            1 <= self.w <= i32::MAX,
            1 <= self.h <= i32::MAX,
            x >= 0,
            y >= 0,
        ensures
            p@ == pixel_at(self@, x as int % self.w as int, y as int % self.h as int),
    {
        let xx = (x % (self.w as i32)) as usize;
        let yy = (y % (self.h as i32)) as usize;
        self.at(xx, yy)
    }
}


/// Colour bytes scaled by their pixel's alpha, rounded to nearest; alpha
/// bytes, and bytes past the last whole pixel, unchanged.
pub open spec fn premultiplied(rgba: Seq<u8>) -> Seq<u8> {
    Seq::new(
        rgba.len(),
        |i: int|
            if i % 4 == 3 || i >= (rgba.len() / 4) * 4 {
                rgba[i]
            } else {
                ((rgba[i] as int * rgba[i - i % 4 + 3] as int + 127) / 255) as u8
            },
    )
}

/// A colour byte scaled by an alpha byte, rounded to nearest.
fn scale_by_alpha(c: u8, a: u8) -> (r: u8)
    ensures
        r == ((c as int * a as int + 127) / 255) as u8,
        r as int == (c as int * a as int + 127) / 255,
{
    proof {
        assert(c as int * a as int <= 255 * 255) by (nonlinear_arith)
            requires c <= 255, a <= 255;
    }
    ((c as u32 * a as u32 + 127) / 255) as u8
}

/// The rounded mean of the four pixels that pixel `(x, y)` of the half-size image covers.
pub open spec fn half_byte(v: ImageView, x: int, y: int, c: int) -> u8 {
    let w = v.w as int;
    let s = v.rgba[((y * 2) * w + x * 2) * 4 + c] as int + v.rgba[((y * 2) * w + x * 2 + 1) * 4 + c]
        as int + v.rgba[((y * 2 + 1) * w + x * 2) * 4 + c] as int + v.rgba[((y * 2 + 1) * w + x
        * 2 + 1) * 4 + c] as int;
    ((s + 2) / 4) as u8
}

/// The image at half the size, each pixel the mean of a square of four.
pub open spec fn half(v: ImageView) -> ImageView {
    let w2 = v.w / 2;
    let h2 = v.h / 2;
    ImageView {
        w: w2,
        h: h2,
        rgba: Seq::new(
            w2 * h2 * 4,
            |j: int| half_byte(v, (j / 4) % (w2 as int), (j / 4) / (w2 as int), j % 4),
        ),
    }
}

/// The image and its halvings, down to the first that is two pixels or less on a side.
pub open spec fn mip_chain(v: ImageView) -> Seq<ImageView>
    decreases v.w,
{
    if v.w > 2 && v.h > 2 {
        seq![v] + mip_chain(half(v))
    } else {
        seq![v]
    }
}

pub struct Frame {
    pub mips: Vec<Image>,
}

pub open spec fn views(imgs: Seq<Image>) -> Seq<ImageView> {
    imgs.map_values(|m: Image| m@)
}

/// Whether an image is at least `size` pixels each way, its sides read as `i32`.
pub open spec fn fits_size(m: Image, size: i32) -> bool {
    (m.w as i32) >= size && (m.h as i32) >= size
}

/// How many of the images, from the first on, are at least `size` pixels each way.
pub open spec fn lead_run(imgs: Seq<Image>, size: i32) -> nat
    decreases imgs.len(),
{
    if imgs.len() == 0 {
        0
    } else if fits_size(imgs[0], size) {
        1 + lead_run(imgs.drop_first(), size)
    } else {
        0
    }
}

proof fn lemma_lead_run(imgs: Seq<Image>, size: i32, i: int)
    requires
        0 <= i <= imgs.len(),
        forall|j: int| 0 <= j < i ==> fits_size(#[trigger] imgs[j], size),
        i == imgs.len() || !fits_size(imgs[i], size),
    ensures
        lead_run(imgs, size) == i,
    decreases i,
{
    if i > 0 {
        let rest = imgs.drop_first();
        assert forall|j: int| 0 <= j < i - 1 implies fits_size(#[trigger] rest[j], size) by {
            assert(rest[j] == imgs[j + 1]);
        }
        if i < imgs.len() {
            assert(rest[i - 1] == imgs[i]);
        }
        lemma_lead_run(rest, size, i - 1);
    }
}

proof fn lemma_half_index(w2: int, h2: int, x: int, y: int, c: int)
    requires
        w2 >= 1,
        0 <= x < w2,
        0 <= y < h2,
        0 <= c < 4,
    ensures
        ({
            let j = (y * w2 + x) * 4 + c;
            &&& 0 <= j < w2 * h2 * 4
            &&& j % 4 == c
            &&& (j / 4) % w2 == x
            &&& (j / 4) / w2 == y
        }),
{
    let p = y * w2 + x;
    let j = p * 4 + c;
    vstd::arithmetic::div_mod::lemma_fundamental_div_mod_converse(j, 4, p, c);
    vstd::arithmetic::div_mod::lemma_fundamental_div_mod_converse(p, w2, y, x);
    assert(0 <= j < w2 * h2 * 4) by (nonlinear_arith)
        requires j == (y * w2 + x) * 4 + c, 0 <= x < w2, 0 <= y < h2, 0 <= c < 4;
}

fn halve(src: &Image) -> (out: Image)
    requires
        image_wf(src@),
        src.w > 2,
        src.h > 2,
    ensures
        out@ == half(src@),
        image_wf(out@),
{
    let n = src.rgba.len();
    let w = src.w / 2;
    let h = src.h / 2;
    proof {
        assert(w * h * 4 <= n) by (nonlinear_arith)
            requires n == src.w * src.h * 4, w == src.w / 2, h == src.h / 2, src.w > 2, src.h > 2;
    }
    let ghost want = half(src@);
    let mut rgba: Vec<u8> = Vec::with_capacity(w * h * 4);
    let mut y: usize = 0;
    while y < h
        invariant
            n == src.rgba@.len(),
            n == src.w * src.h * 4,
            w == src.w / 2,
            h == src.h / 2,
            w >= 1,
            w * h * 4 <= n,
            y <= h,
            rgba@.len() == y * w * 4,
            want == half(src@),
            forall|j: int| 0 <= j < rgba@.len() ==> rgba@[j] == want.rgba[j],
        decreases h - y,
    {
        let mut x: usize = 0;
        while x < w
            invariant
                n == src.rgba@.len(),
                n == src.w * src.h * 4,
                w == src.w / 2,
                h == src.h / 2,
                w >= 1,
                w * h * 4 <= n,
                y < h,
                x <= w,
                rgba@.len() == (y * w + x) * 4,
                want == half(src@),
                forall|j: int| 0 <= j < rgba@.len() ==> rgba@[j] == want.rgba[j],
            decreases w - x,
        {
            proof {
                assert(((y * 2 + 1) * src.w + x * 2 + 1) * 4 + 4 <= n) by (nonlinear_arith)
                    requires x < w, y < h, w == src.w / 2, h == src.h / 2, n == src.w * src.h * 4;
                assert(((y * 2) * src.w + x * 2) * 4 + 4 <= n) by (nonlinear_arith)
                    requires x < w, y < h, w == src.w / 2, h == src.h / 2, n == src.w * src.h * 4;
                assert(((y * 2) * src.w + x * 2 + 1) * 4 + 4 <= n) by (nonlinear_arith)
                    requires x < w, y < h, w == src.w / 2, h == src.h / 2, n == src.w * src.h * 4;
                assert(((y * 2 + 1) * src.w + x * 2) * 4 + 4 <= n) by (nonlinear_arith)
                    requires x < w, y < h, w == src.w / 2, h == src.h / 2, n == src.w * src.h * 4;
            }
            let i00 = ((y * 2) * src.w + x * 2) * 4;
            let i10 = ((y * 2) * src.w + x * 2 + 1) * 4;
            let i01 = ((y * 2 + 1) * src.w + x * 2) * 4;
            let i11 = ((y * 2 + 1) * src.w + x * 2 + 1) * 4;
            let mut c: usize = 0;
            while c < 4
                invariant
                    n == src.rgba@.len(),
                    w == src.w / 2,
                    h == src.h / 2,
                    w >= 1,
                    y < h,
                    x < w,
                    c <= 4,
                    i00 + 4 <= n,
                    i10 + 4 <= n,
                    i01 + 4 <= n,
                    i11 + 4 <= n,
                    i00 == ((y * 2) * src.w + x * 2) * 4,
                    i10 == ((y * 2) * src.w + x * 2 + 1) * 4,
                    i01 == ((y * 2 + 1) * src.w + x * 2) * 4,
                    i11 == ((y * 2 + 1) * src.w + x * 2 + 1) * 4,
                    rgba@.len() == (y * w + x) * 4 + c,
                    want == half(src@),
                    forall|j: int| 0 <= j < rgba@.len() ==> rgba@[j] == want.rgba[j],
                decreases 4 - c,
            {
                let sum = src.rgba[i00 + c] as u32 + src.rgba[i10 + c] as u32 + src.rgba[i01 + c] as u32
                    + src.rgba[i11 + c] as u32;
                proof {
                    lemma_half_index(w as int, h as int, x as int, y as int, c as int);
                }
                rgba.push(((sum + 2) / 4) as u8);
                c += 1;
            }
            x += 1;
        }
        proof {
            assert((y * w + w) * 4 == (y + 1) * w * 4) by (nonlinear_arith);
        }
        y += 1;
    }
    proof {
        assert(h * w * 4 == w * h * 4) by (nonlinear_arith);
        assert(rgba@ =~= want.rgba);
    }
    Image { w, h, rgba }
}

impl Frame {
    /// A sprite frame: the image with alpha premultiplied, and its halvings.
    pub fn from_image(img: Image) -> (f: Frame)
        requires
            image_wf(img@),
        ensures
            views(f.mips@) == mip_chain(
                ImageView { w: img.w as nat, h: img.h as nat, rgba: premultiplied(img.rgba@) },
            ),
            forall|k: int| 0 <= k < f.mips@.len() ==> image_wf(#[trigger] f.mips@[k]@),
    {
        let mut img = img;
        let ghost orig = img.rgba@;
        let ghost w0 = img.w;
        let ghost h0 = img.h;
        let n = img.rgba.len();
        let whole = (n / 4) * 4;
        let mut i: usize = 0;
        while i < whole
            invariant
                n == orig.len(),
                whole == (n / 4) * 4,
                i % 4 == 0,
                i <= whole,
                img.rgba@.len() == n,
                img.w == w0,
                img.h == h0,
                forall|j: int| 0 <= j < n ==> #[trigger] img.rgba@[j] == if j < i {
                    premultiplied(orig)[j]
                } else {
                    orig[j]
                },
            decreases whole - i,
        {
            let a = img.rgba[i + 3];
            let r = scale_by_alpha(img.rgba[i], a);
            let g = scale_by_alpha(img.rgba[i + 1], a);
            let b = scale_by_alpha(img.rgba[i + 2], a);
            img.rgba.set(i, r);
            img.rgba.set(i + 1, g);
            img.rgba.set(i + 2, b);
            proof {
                assert forall|j: int| 0 <= j < n implies #[trigger] img.rgba@[j] == if j < i + 4 {
                    premultiplied(orig)[j]
                } else {
                    orig[j]
                } by {
                    if i <= j < i + 4 {
                        assert(j - j % 4 + 3 == i + 3);
                    }
                }
            }
            i += 4;
        }
        proof {
            assert(img.rgba@ =~= premultiplied(orig));
        }
        let ghost first = img@;
        let mut mips: Vec<Image> = Vec::new();
        let mut last = img;
        while last.w > 2 && last.h > 2
            invariant
                image_wf(last@),
                forall|k: int| 0 <= k < mips@.len() ==> image_wf(#[trigger] mips@[k]@),
                mip_chain(first) == views(mips@) + mip_chain(last@),
            decreases last.w,
        {
            let next = halve(&last);
            let ghost lv = last@;
            let ghost before = mips@;
            mips.push(last);
            proof {
                assert(views(mips@) =~= views(before).push(lv));
                assert(mip_chain(lv) == seq![lv] + mip_chain(next@));
                assert(views(before) + mip_chain(lv) =~= views(mips@) + mip_chain(next@));
            }
            last = next;
        }
        let ghost lv = last@;
        let ghost before = mips@;
        mips.push(last);
        proof {
            assert(views(mips@) =~= views(before).push(lv));
            assert(mip_chain(lv) == seq![lv]);
        }
        Frame { mips }
    }
}

impl Frame {
    /// The smallest mip level that is still at least `size` pixels each way
    /// (counting down from the full image), or the full image if none is.
    pub fn level_for(&self, size: i32) -> (m: &Image)
        requires
            self.mips@.len() >= 1,
        ensures
            *m == self.mips@[if lead_run(self.mips@, size) == 0 {
                0
            } else {
                lead_run(self.mips@, size) - 1
            }],
    {
        let mut best: usize = 0;
        let mut i: usize = 0;
        while i < self.mips.len()
            invariant_except_break
                forall|j: int| 0 <= j < i ==> fits_size(#[trigger] self.mips@[j], size),
                i == self.mips@.len() ==> lead_run(self.mips@, size) == i,
            invariant
                self.mips@.len() >= 1,
                i <= self.mips@.len(),
                best == if i == 0 { 0 } else { i - 1 },
            ensures
                lead_run(self.mips@, size) == i,
            decreases self.mips@.len() - i,
        {
            let m = &self.mips[i];
            if m.w as i32 >= size && m.h as i32 >= size {
                best = i;
            } else {
                proof {
                    lemma_lead_run(self.mips@, size, i as int);
                }
                break;
            }
            i += 1;
            proof {
                if i == self.mips@.len() {
                    lemma_lead_run(self.mips@, size, i as int);
                }
            }
        }
        &self.mips[best]
    }
}

/// Background textures, in the order of `ALL`, and sprite frames.
pub struct TexSet {
    imgs: Vec<Image>,
    frames: Vec<Frame>,
}

impl TexSet {
    /// The background images.
    pub closed spec fn images(&self) -> Seq<Image> {
        self.imgs@
    }

    /// The sprite frames.
    pub closed spec fn sprite_frames(&self) -> Seq<Frame> {
        self.frames@
    }

    /// A set of the given background images and no sprites.
    pub fn from_images(imgs: Vec<Image>) -> (t: TexSet)
        ensures
            t.images() == imgs@,
            t.sprite_frames().len() == 0,
    {
        TexSet { imgs, frames: Vec::new() }
    }

    /// The same images, with the given sprite frames.
    pub fn with_frames(self, frames: Vec<Frame>) -> (t: TexSet)
        ensures
            t.images() == self.images(),
            t.sprite_frames() == frames@,
    {
        let mut t = self;
        t.frames = frames;
        t
    }

    /// The sprite frame with that number, if there is one.
    pub fn frame(&self, i: i16) -> (f: Option<&Frame>)
        ensures
            f == if 0 <= i < self.sprite_frames().len() {
                Some(&self.sprite_frames()[i as int])
            } else {
                None
            },
    {
        if i < 0 {
            None
        } else {
            let k = i as usize;
            if k < self.frames.len() {
                Some(&self.frames[k])
            } else {
                None
            }
        }
    }

    /// The image of a background texture.
    pub fn get(&self, t: Tex) -> (m: &Image)
        requires
            tex_index(t) < self.images().len(),
        ensures
            *m == self.images()[tex_index(t)],
    {
        &self.imgs[index_of(t)]
    }

    /// The pixel of a background texture at `(x, y)`, the texture repeated to cover the plane.
    pub fn sample(&self, t: Tex, x: i32, y: i32) -> (p: [u8; 4])
        requires
            tex_index(t) < self.images().len(),
            image_wf(self.images()[tex_index(t)]@),
            1 <= self.images()[tex_index(t)].w <= i32::MAX,
            1 <= self.images()[tex_index(t)].h <= i32::MAX,
            x >= 0,
            y >= 0,
        ensures
            p@ == pixel_at(
                self.images()[tex_index(t)]@,
                x as int % self.images()[tex_index(t)].w as int,
                y as int % self.images()[tex_index(t)].h as int,
            ),
    {
        self.get(t).tiled(x, y)
    }
}

/// The first frame of a PNG as the decoder hands it out: size, PNG colour-type
/// and bit-depth codes, and the sample bytes.
pub struct PngFrame {
    pub width: u32,
    pub height: u32,
    pub color: u8,
    pub depth: u8,
    pub data: Vec<u8>,
}

/// What decoding the first frame of these PNG bytes gives: the frame's width,
/// height, colour code, depth code and samples, or the decoder's error message.
pub uninterp spec fn png_decoded(bytes: Seq<u8>) -> Result<(u32, u32, u8, u8, Seq<u8>), Seq<char>>;

/// A decoder outcome as plain values.
pub open spec fn png_outcome(r: Result<PngFrame, String>) -> Result<(u32, u32, u8, u8, Seq<u8>), Seq<char>> {
    match r {
        Ok(f) => Ok((f.width, f.height, f.color, f.depth, f.data@)),
        Err(e) => Err(e@),
    }
}

/// The colour-type codes of PNG.
pub open spec fn is_png_color(c: u8) -> bool {
    c == 0 || c == 2 || c == 3 || c == 4 || c == 6
}

/// The bit depths of PNG.
pub open spec fn is_png_depth(d: u8) -> bool {
    d == 1 || d == 2 || d == 4 || d == 8 || d == 16
}

/// Decodes the first frame of a PNG with the `png` crate (`Decoder::new`,
/// `Decoder::read_info`, `Reader::output_buffer_size`, `Reader::next_frame`,
/// `OutputInfo::buffer_size`). Claimed: the outcome depends on the bytes alone
/// (`png_decoded`), the error is the decoder's message, and the colour type and
/// bit depth are passed on as the discriminants of the crate's `ColorType` and
/// `BitDepth`, which are PNG's own codes. What a frame holds is left to the name.
#[verifier::external_body]
fn png_first_frame(bytes: &[u8]) -> (r: Result<PngFrame, String>)
    ensures
        png_outcome(r) == png_decoded(bytes@),
        r is Ok ==> is_png_color(r->Ok_0.color) && is_png_depth(r->Ok_0.depth),
{
    let mut reader = match png::Decoder::new(bytes).read_info() {
        Ok(reader) => reader,
        Err(e) => return Err(e.to_string()),
    };
    let mut data = vec![0u8; reader.output_buffer_size()];
    match reader.next_frame(&mut data) {
        Ok(info) => {
            data.truncate(info.buffer_size());
            let (color, depth) = (info.color_type as u8, info.bit_depth as u8);
            Ok(PngFrame { width: info.width, height: info.height, color, depth, data })
        },
        Err(e) => Err(e.to_string()),
    }
}

/// RGB samples with an opaque alpha after each pixel.
pub open spec fn rgb_to_rgba(d: Seq<u8>) -> Seq<u8> {
    Seq::new((d.len() / 3) * 4, |i: int| if i % 4 == 3 { 255u8 } else { d[(i / 4) * 3 + i % 4] })
}

/// Grey samples spread over red, green and blue, with opaque alpha.
pub open spec fn gray_to_rgba(d: Seq<u8>) -> Seq<u8> {
    Seq::new(d.len() * 4, |i: int| if i % 4 == 3 { 255u8 } else { d[i / 4] })
}

/// Grey-and-alpha samples spread over red, green and blue.
pub open spec fn gray_alpha_to_rgba(d: Seq<u8>) -> Seq<u8> {
    Seq::new(
        (d.len() / 2) * 4,
        |i: int| if i % 4 == 3 { d[(i / 4) * 2 + 1] } else { d[(i / 4) * 2] },
    )
}

/// The name of a PNG colour type.
pub open spec fn png_color_name(c: u8) -> Seq<char> {
    if c == 0 {
        "Grayscale"@
    } else if c == 2 {
        "Rgb"@
    } else if c == 3 {
        "Indexed"@
    } else if c == 4 {
        "GrayscaleAlpha"@
    } else {
        "Rgba"@
    }
}

/// The name of a PNG bit depth.
pub open spec fn png_depth_name(d: u8) -> Seq<char> {
    if d == 1 {
        "One"@
    } else if d == 2 {
        "Two"@
    } else if d == 4 {
        "Four"@
    } else if d == 8 {
        "Eight"@
    } else {
        "Sixteen"@
    }
}

/// The RGBA bytes of an 8-bit frame of one of the four colour types that carry
/// no palette; `None` for any other frame.
pub open spec fn frame_rgba(color: u8, depth: u8, d: Seq<u8>) -> Option<Seq<u8>> {
    if depth != 8 {
        None
    } else if color == 6 {
        Some(d)
    } else if color == 2 {
        Some(rgb_to_rgba(d))
    } else if color == 0 {
        Some(gray_to_rgba(d))
    } else if color == 4 {
        Some(gray_alpha_to_rgba(d))
    } else {
        None
    }
}

fn color_name(c: u8) -> (s: &'static str)
    requires
        is_png_color(c),
    ensures
        s@ == png_color_name(c),
{
    if c == 0 {
        "Grayscale"
    } else if c == 2 {
        "Rgb"
    } else if c == 3 {
        "Indexed"
    } else if c == 4 {
        "GrayscaleAlpha"
    } else {
        "Rgba"
    }
}

fn depth_name(d: u8) -> (s: &'static str)
    requires
        is_png_depth(d),
    ensures
        s@ == png_depth_name(d),
{
    if d == 1 {
        "One"
    } else if d == 2 {
        "Two"
    } else if d == 4 {
        "Four"
    } else if d == 8 {
        "Eight"
    } else {
        "Sixteen"
    }
}

fn expand_rgb(d: &Vec<u8>) -> (v: Vec<u8>)
    ensures
        v@ == rgb_to_rgba(d@),
{
    let n = d.len() / 3;
    let mut v: Vec<u8> = Vec::new();
    let mut k: usize = 0;
    while k < n
        invariant
            n == d@.len() / 3,
            d@.len() <= usize::MAX,
            k <= n,
            v@.len() == k * 4,
            forall|i: int| 0 <= i < v@.len() ==> v@[i] == rgb_to_rgba(d@)[i],
        decreases n - k,
    {
        proof {
            assert(k * 3 + 3 <= d@.len()) by (nonlinear_arith)
                requires k < n, n == d@.len() / 3;
        }
        v.push(d[k * 3]);
        v.push(d[k * 3 + 1]);
        v.push(d[k * 3 + 2]);
        v.push(255);
        k += 1;
    }
    assert(v@ =~= rgb_to_rgba(d@));
    v
}

fn expand_gray(d: &Vec<u8>) -> (v: Vec<u8>)
    ensures
        v@ == gray_to_rgba(d@),
{
    let n = d.len();
    let mut v: Vec<u8> = Vec::new();
    let mut k: usize = 0;
    while k < n
        invariant
            n == d@.len(),
            k <= n,
            v@.len() == k * 4,
            forall|i: int| 0 <= i < v@.len() ==> v@[i] == gray_to_rgba(d@)[i],
        decreases n - k,
    {
        let g = d[k];
        v.push(g);
        v.push(g);
        v.push(g);
        v.push(255);
        k += 1;
    }
    assert(v@ =~= gray_to_rgba(d@));
    v
}

fn expand_gray_alpha(d: &Vec<u8>) -> (v: Vec<u8>)
    ensures
        v@ == gray_alpha_to_rgba(d@),
{
    let n = d.len() / 2;
    let mut v: Vec<u8> = Vec::new();
    let mut k: usize = 0;
    while k < n
        invariant
            n == d@.len() / 2,
            d@.len() <= usize::MAX,
            k <= n,
            v@.len() == k * 4,
            forall|i: int| 0 <= i < v@.len() ==> v@[i] == gray_alpha_to_rgba(d@)[i],
        decreases n - k,
    {
        proof {
            assert(k * 2 + 2 <= d@.len()) by (nonlinear_arith)
                requires k < n, n == d@.len() / 2;
        }
        let g = d[k * 2];
        v.push(g);
        v.push(g);
        v.push(g);
        v.push(d[k * 2 + 1]);
        k += 1;
    }
    assert(v@ =~= gray_alpha_to_rgba(d@));
    v
}

/// An image from a decoded PNG frame: 8-bit RGBA, RGB, grey or grey-and-alpha
/// samples become RGBA bytes; any other frame is refused with its colour type
/// and depth named.
pub fn image_from_png_frame(f: PngFrame) -> (r: Result<Image, String>)
    requires
        is_png_color(f.color),
        is_png_depth(f.depth),
    ensures
        match frame_rgba(f.color, f.depth, f.data@) {
            Some(rgba) => r is Ok && r->Ok_0.w == f.width && r->Ok_0.h == f.height
                && r->Ok_0.rgba@ == rgba,
            None => r is Err && r->Err_0@ == "unsupported png "@ + png_color_name(f.color) + " "@
                + png_depth_name(f.depth),
        },
{
    if f.depth == 8 && (f.color == 6 || f.color == 2 || f.color == 0 || f.color == 4) {
        let rgba = if f.color == 6 {
            f.data
        } else if f.color == 2 {
            expand_rgb(&f.data)
        } else if f.color == 0 {
            expand_gray(&f.data)
        } else {
            expand_gray_alpha(&f.data)
        };
        Ok(Image { w: f.width as usize, h: f.height as usize, rgba })
    } else {
        let mut s = string_of("unsupported png ");
        push_str(&mut s, color_name(f.color));
        push_str(&mut s, " ");
        push_str(&mut s, depth_name(f.depth));
        Err(s)
    }
}

/// Decodes a PNG into RGBA rows, top row first.
pub fn decode_png(bytes: &[u8]) -> (r: Result<Image, String>)
    ensures
        match png_decoded(bytes@) {
            Err(e) => r is Err && r->Err_0@ == e,
            Ok((w, h, c, d, data)) => match frame_rgba(c, d, data) {
                Some(rgba) => r is Ok && r->Ok_0.w == w && r->Ok_0.h == h && r->Ok_0.rgba@ == rgba,
                None => r is Err && r->Err_0@ == "unsupported png "@ + png_color_name(c) + " "@
                    + png_depth_name(d),
            },
        },
{
    match png_first_frame(bytes) {
        Err(e) => Err(e),
        Ok(f) => image_from_png_frame(f),
    }
}

} // verus!
