//! Pieces of the map renderer that are plain integer logic: rectangles of
//! pixels, the view options, which ground texture a province shows, and turning
//! a bottom-up picture the right way up.
use vstd::prelude::*;
use crate::terrain::{CAVE_WALL, COLDER, WARMER};
use crate::textures::Tex;

verus! {

/// What the renderer draws.
#[derive(Clone, Copy, Debug, PartialEq, Eq, Structural)]
pub struct Options {
    pub rivers: bool,
    pub borders: bool,
    pub capitals: bool,
    pub edge_fade: bool,
    pub decor: bool,
    pub border_percent: i32,
}

impl Default for Options {
    /// Everything drawn, borders at full strength.
    fn default() -> (o: Options)
        ensures
            o == (Options {
                rivers: true,
                borders: true,
                capitals: true,
                edge_fade: true,
                decor: true,
                border_percent: 100,
            }),
    {
        Options {
            rivers: true,
            borders: true,
            capitals: true,
            edge_fade: true,
            decor: true,
            border_percent: 100,
        }
    }
}

/// A rectangle of pixels, both corners included.
#[derive(Clone, Copy, Debug)]
pub struct Rect {
    pub x0: i32,
    pub y0: i32,
    pub x1: i32,
    pub y1: i32,
}

/// The smaller of two numbers.
pub open spec fn min_i(a: int, b: int) -> int {
    if a < b {
        a
    } else {
        b
    }
}

/// The larger of two numbers.
pub open spec fn max_i(a: int, b: int) -> int {
    if a > b {
        a
    } else {
        b
    }
}

fn min32(a: i32, b: i32) -> (m: i32)
    ensures
        m == min_i(a as int, b as int),
{
    if a < b {
        a
    } else {
        b
    }
}

fn max32(a: i32, b: i32) -> (m: i32)
    ensures
        m == max_i(a as int, b as int),
{
    if a > b {
        a
    } else {
        b
    }
}

impl Rect {
    /// Whether the pixel lies in the rectangle.
    pub open spec fn contains(self, x: int, y: int) -> bool {
        self.x0 <= x <= self.x1 && self.y0 <= y <= self.y1
    }

    /// The whole of a `w` by `h` picture.
    pub fn full(w: i32, h: i32) -> (r: Rect)
        requires
            w >= i32::MIN + 1,
            h >= i32::MIN + 1,
        ensures
            r.x0 == 0 && r.y0 == 0 && r.x1 == w - 1 && r.y1 == h - 1,
    {
        Rect { x0: 0, y0: 0, x1: w - 1, y1: h - 1 }
    }

    /// The rectangle grown by `m` on every side, kept within a `w` by `h` picture.
    pub fn expand(&self, m: i32, w: i32, h: i32) -> (r: Rect)
        requires
            i32::MIN <= self.x0 - m <= i32::MAX,
            i32::MIN <= self.y0 - m <= i32::MAX,
            i32::MIN <= self.x1 + m <= i32::MAX,
            i32::MIN <= self.y1 + m <= i32::MAX,
            w >= i32::MIN + 1,
            h >= i32::MIN + 1,
        ensures
            r.x0 == max_i(self.x0 - m, 0),
            r.y0 == max_i(self.y0 - m, 0),
            r.x1 == min_i(self.x1 + m, w - 1),
            r.y1 == min_i(self.y1 + m, h - 1),
    {
        Rect {
            x0: max32(self.x0 - m, 0),
            y0: max32(self.y0 - m, 0),
            x1: min32(self.x1 + m, w - 1),
            y1: min32(self.y1 + m, h - 1),
        }
    }

    /// Whether the rectangle holds no pixel.
    pub fn is_empty(&self) -> (b: bool)
        ensures
            b == (self.x1 < self.x0 || self.y1 < self.y0),
            b == !(exists|x: int, y: int| self.contains(x, y)),
    {
        if !(self.x1 < self.x0 || self.y1 < self.y0) {
            assert(self.contains(self.x0 as int, self.y0 as int));
        }
        self.x1 < self.x0 || self.y1 < self.y0
    }

    /// The smallest rectangle that covers both.
    pub fn union(self, o: Rect) -> (r: Rect)
        ensures
            r.x0 == min_i(self.x0 as int, o.x0 as int),
            r.y0 == min_i(self.y0 as int, o.y0 as int),
            r.x1 == max_i(self.x1 as int, o.x1 as int),
            r.y1 == max_i(self.y1 as int, o.y1 as int),
    {
        Rect {
            x0: min32(self.x0, o.x0),
            y0: min32(self.y0, o.y0),
            x1: max32(self.x1, o.x1),
            y1: max32(self.y1, o.y1),
        }
    }

    /// Whether the two rectangles overlap when neither is empty.
    pub fn intersects(&self, o: Rect) -> (b: bool)
        ensures
            b == (self.x0 <= o.x1 && o.x0 <= self.x1 && self.y0 <= o.y1 && o.y0 <= self.y1),
    {
        self.x0 <= o.x1 && o.x0 <= self.x1 && self.y0 <= o.y1 && o.y0 <= self.y1
    }

    /// The part of the rectangle within a `w` by `h` picture.
    pub fn clamp_to(self, w: i32, h: i32) -> (r: Rect)
        requires
            w >= i32::MIN + 1,
            h >= i32::MIN + 1,
        ensures
            r.x0 == max_i(self.x0 as int, 0),
            r.y0 == max_i(self.y0 as int, 0),
            r.x1 == min_i(self.x1 as int, w - 1),
            r.y1 == min_i(self.y1 as int, h - 1),
            forall|x: int, y: int|
                r.contains(x, y) <==> self.contains(x, y) && 0 <= x < w && 0 <= y < h,
    {
        Rect {
            x0: max32(self.x0, 0),
            y0: max32(self.y0, 0),
            x1: min32(self.x1, w - 1),
            y1: min32(self.y1, h - 1),
        }
    }
}

/// A union covers every pixel of both rectangles.
pub proof fn lemma_union_covers(a: Rect, b: Rect, r: Rect, x: int, y: int)
    requires
        r.x0 == min_i(a.x0 as int, b.x0 as int),
        r.y0 == min_i(a.y0 as int, b.y0 as int),
        r.x1 == max_i(a.x1 as int, b.x1 as int),
        r.y1 == max_i(a.y1 as int, b.y1 as int),
        a.contains(x, y) || b.contains(x, y),
    ensures
        r.contains(x, y),
{
}

/// Whether a province with these terrain flags is shown in winter colours: it
/// is colder (colder outweighs warmer) and no cave wall.
pub open spec fn spec_province_winter(flags: u64) -> bool {
    flags & COLDER != 0 && flags & CAVE_WALL == 0
}

/// Whether a province with these terrain flags is shown in winter colours.
pub fn province_winter(flags: u64) -> (b: bool)
    ensures
        b == spec_province_winter(flags),
{
    let mut v: i32 = 0;
    if flags & COLDER != 0 {
        v += 1;
    } else if flags & WARMER != 0 {
        v -= 1;
    }
    v > 0 && flags & CAVE_WALL == 0
}

/// The ground texture of a land province with terrain mask `u`, in summer or winter.
pub open spec fn spec_land_texture(u: u64, winter: bool) -> Tex {
    let lo = u as u32;
    if !winter {
        if u & 0x40_0000_0040 == 0x40_0000_0040 {
            Tex::Floodedwaste
        } else if u & 0x40_0000_0020 == 0x40_0000_0020 {
            Tex::Floodedswamp
        } else if u & 0x40_0000_0000 == 0 {
            if lo & 0x1014 == 0x1014 {
                Tex::Floodcrys
            } else if lo & 0x1004 == 0x1004 {
                Tex::Floodcave
            } else if u & 0x10_0000_0000 == 0 {
                if lo & 0x1020 == 0x1020 {
                    Tex::Dripcave
                } else if lo & 0x1080 == 0x1080 {
                    Tex::Caveforest
                } else if lo & 0x1010 == 0x1010 {
                    Tex::Waste
                } else if (u >> 12u64) & 1 == 0 {
                    if u & 0x80 != 0 {
                        Tex::Forest
                    } else if u & 0x2000_0000_0000_0040 == 0x2000_0000_0000_0040 {
                        Tex::Desert
                    } else if u & 0x40 == 0 {
                        if u & 0x20 == 0 {
                            if (u >> 8u64) & 1 == 0 {
                                if u & 0x10 == 0 {
                                    if u & 0x4_0000_0000 != 0 {
                                        Tex::Ash
                                    } else {
                                        Tex::Plain
                                    }
                                } else {
                                    Tex::Highland
                                }
                            } else {
                                Tex::Farm
                            }
                        } else {
                            Tex::Swamp
                        }
                    } else {
                        Tex::Waste
                    }
                } else {
                    Tex::Cavefloor
                }
            } else {
                Tex::Cave
            }
        } else {
            Tex::Floodedplain
        }
    } else if (u >> 8u64) & 1 == 0 {
        if u & 0x80 != 0 {
            Tex::Winterwood
        } else if lo & 0x1020 == 0x1020 {
            Tex::Frozendrip
        } else {
            Tex::Winter
        }
    } else {
        Tex::Winterfarm
    }
}

proof fn lemma_open_land_bits(u: u64)
    by (bit_vector)
    requires
        u & 0x1000u64 == 0,
        u & 0x10_0000_0000u64 == 0,
        u & 0x40_0000_0000u64 == 0,
    ensures
        u & 0x40_0000_0040u64 != 0x40_0000_0040u64,
        u & 0x40_0000_0020u64 != 0x40_0000_0020u64,
        (u as u32) & 0x1014u32 != 0x1014u32,
        (u as u32) & 0x1004u32 != 0x1004u32,
        (u as u32) & 0x1020u32 != 0x1020u32,
        (u as u32) & 0x1080u32 != 0x1080u32,
        (u as u32) & 0x1010u32 != 0x1010u32,
        (u >> 12u64) & 1u64 == 0,
        u & 0x2000_0000_0000_0000u64 == 0 ==> u & 0x2000_0000_0000_0040u64 != 0x2000_0000_0000_0040u64,
        u & 0x40u64 == 0 ==> u & 0x2000_0000_0000_0040u64 != 0x2000_0000_0000_0040u64,
        u & 0x100u64 == 0 <==> (u >> 8u64) & 1u64 == 0,
{
}

proof fn lemma_farm_bit(u: u64)
    by (bit_vector)
    ensures
        u & 0x100u64 == 0 <==> (u >> 8u64) & 1u64 == 0,
{
}

/// A summer land province with the forest bit, and none of the cave, cave
/// wall or flooded bits, is drawn with the forest texture, whatever its
/// other bits.
pub proof fn lemma_summer_forest_is_drawn_as_forest(u: u64)
    requires
        u & crate::terrain::FOREST != 0,
        u & crate::terrain::CAVE == 0,
        u & CAVE_WALL == 0,
        u & 0x40_0000_0000 == 0,
    ensures
        spec_land_texture(u, false) == Tex::Forest,
{
    lemma_open_land_bits(u);
}

/// How a summer land province with none of the cave, cave wall or flooded
/// bits is drawn: forest before all else; then waste (desert where it is
/// also hot and dry), swamp, farmland and highland in that order; and a
/// plain where it has none of these.
pub proof fn lemma_summer_open_land_textures(u: u64)
    requires
        u & crate::terrain::CAVE == 0,
        u & CAVE_WALL == 0,
        u & 0x40_0000_0000 == 0,
    ensures
        u & crate::terrain::FOREST != 0 ==> spec_land_texture(u, false) == Tex::Forest,
        u & crate::terrain::FOREST == 0 && u & crate::terrain::WASTE != 0 && u & 0x2000_0000_0000_0000 == 0
            ==> spec_land_texture(u, false) == Tex::Waste,
        u & crate::terrain::FOREST == 0 && u & crate::terrain::WASTE != 0 && u & 0x2000_0000_0000_0000 != 0
            ==> spec_land_texture(u, false) == Tex::Desert,
        u & crate::terrain::FOREST == 0 && u & crate::terrain::WASTE == 0 && u & crate::terrain::SWAMP != 0
            ==> spec_land_texture(u, false) == Tex::Swamp,
        u & crate::terrain::FOREST == 0 && u & crate::terrain::WASTE == 0 && u & crate::terrain::SWAMP == 0 && u
            & crate::terrain::FARM != 0 ==> spec_land_texture(u, false) == Tex::Farm,
        u & crate::terrain::FOREST == 0 && u & crate::terrain::WASTE == 0 && u & crate::terrain::SWAMP == 0 && u
            & crate::terrain::FARM == 0 && u & crate::terrain::HIGHLAND != 0 ==> spec_land_texture(u, false)
            == Tex::Highland,
        u & crate::terrain::FOREST == 0 && u & crate::terrain::WASTE == 0 && u & crate::terrain::SWAMP == 0 && u
            & crate::terrain::FARM == 0 && u & crate::terrain::HIGHLAND == 0 && u & 0x4_0000_0000 == 0
            ==> spec_land_texture(u, false) == Tex::Plain,
{
    lemma_open_land_bits(u);
    lemma_desert_bits(u);
}

proof fn lemma_desert_bits(u: u64)
    by (bit_vector)
    ensures
        u & 0x40u64 != 0 && u & 0x2000_0000_0000_0000u64 != 0 ==> u & 0x2000_0000_0000_0040u64
            == 0x2000_0000_0000_0040u64,
{
}

/// A winter province off farmland with the forest bit is drawn as winter
/// wood, and one on farmland as winter farmland, whatever its other bits.
pub proof fn lemma_winter_textures(u: u64)
    ensures
        u & crate::terrain::FARM == 0 && u & crate::terrain::FOREST != 0 ==> spec_land_texture(u, true)
            == Tex::Winterwood,
        u & crate::terrain::FARM != 0 ==> spec_land_texture(u, true) == Tex::Winterfarm,
{
    lemma_farm_bit(u);
}

/// The ground texture of a land province with terrain mask `u`, in summer or winter.
pub fn land_texture(u: u64, winter: bool) -> (t: Tex)
    ensures
        t == spec_land_texture(u, winter),
{
    let lo = u as u32;
    if !winter {
        if u & 0x40_0000_0040 == 0x40_0000_0040 {
            Tex::Floodedwaste
        } else if u & 0x40_0000_0020 == 0x40_0000_0020 {
            Tex::Floodedswamp
        } else if u & 0x40_0000_0000 == 0 {
            if lo & 0x1014 == 0x1014 {
                Tex::Floodcrys
            } else if lo & 0x1004 == 0x1004 {
                Tex::Floodcave
            } else if u & 0x10_0000_0000 == 0 {
                if lo & 0x1020 == 0x1020 {
                    Tex::Dripcave
                } else if lo & 0x1080 == 0x1080 {
                    Tex::Caveforest
                } else if lo & 0x1010 == 0x1010 {
                    Tex::Waste
                } else if (u >> 12u64) & 1 == 0 {
                    if u & 0x80 != 0 {
                        Tex::Forest
                    } else if u & 0x2000_0000_0000_0040 == 0x2000_0000_0000_0040 {
                        Tex::Desert
                    } else if u & 0x40 == 0 {
                        if u & 0x20 == 0 {
                            if (u >> 8u64) & 1 == 0 {
                                if u & 0x10 == 0 {
                                    if u & 0x4_0000_0000 != 0 {
                                        Tex::Ash
                                    } else {
                                        Tex::Plain
                                    }
                                } else {
                                    Tex::Highland
                                }
                            } else {
                                Tex::Farm
                            }
                        } else {
                            Tex::Swamp
                        }
                    } else {
                        Tex::Waste
                    }
                } else {
                    Tex::Cavefloor
                }
            } else {
                Tex::Cave
            }
        } else {
            Tex::Floodedplain
        }
    } else if (u >> 8u64) & 1 == 0 {
        if u & 0x80 != 0 {
            Tex::Winterwood
        } else if lo & 0x1020 == 0x1020 {
            Tex::Frozendrip
        } else {
            Tex::Winter
        }
    } else {
        Tex::Winterfarm
    }
}

/// A bottom-up picture of `h` rows of `w` pixels turned top-down; bytes past
/// the last row stay zero.
pub open spec fn spec_flip_to_top_down(w: int, h: int, rgba: Seq<u8>) -> Seq<u8> {
    let stride = w * 4;
    Seq::new(
        rgba.len(),
        |i: int|
            if h > 0 && stride > 0 && i < h * stride {
                rgba[(h - 1 - i / stride) * stride + i % stride]
            } else {
                0u8
            },
    )
}

/// A bottom-up picture turned top-down.
pub fn flip_to_top_down(w: i32, h: i32, rgba: &[u8]) -> (out: Vec<u8>)
    requires
        h > 0 ==> 0 <= w && w * 4 <= i32::MAX && h * (w * 4) <= rgba@.len(),
    ensures
        out@ == spec_flip_to_top_down(w as int, h as int, rgba@),
{
    let n = rgba.len();
    let mut out: Vec<u8> = Vec::new();
    let mut k: usize = 0;
    while k < n
        invariant
            k <= n,
            n == rgba@.len(),
            out@.len() == k,
            forall|i: int| 0 <= i < k ==> out@[i] == 0,
        decreases n - k,
    {
        out.push(0);
        k += 1;
    }
    if h <= 0 || w == 0 {
        assert(out@ =~= spec_flip_to_top_down(w as int, h as int, rgba@));
        return out;
    }
    let stride = (w * 4) as usize;
    let hh = h as usize;
    let ghost want = spec_flip_to_top_down(w as int, h as int, rgba@);
    let mut y: usize = 0;
    while y < hh
        invariant
            n == rgba@.len(),
            out@.len() == n,
            stride == w * 4,
            stride >= 4,
            hh == h,
            hh * stride <= n,
            y <= hh,
            want == spec_flip_to_top_down(w as int, h as int, rgba@),
            forall|i: int| 0 <= i < n ==> #[trigger] out@[i] == if i < y * stride { want[i] } else { 0u8 },
        decreases hh - y,
    {
        proof {
            assert(y * stride + stride <= hh * stride) by (nonlinear_arith)
                requires y < hh;
            assert((hh - 1 - y) * stride + stride <= hh * stride) by (nonlinear_arith)
                requires y < hh;
        }
        let src = (hh - 1 - y) * stride;
        let dst = y * stride;
        let mut j: usize = 0;
        while j < stride
            invariant
                n == rgba@.len(),
                out@.len() == n,
                stride == w * 4,
                stride >= 4,
                hh == h,
                hh * stride <= n,
                y < hh,
                src == (hh - 1 - y) * stride,
                dst == y * stride,
                dst + stride <= n,
                dst + stride <= hh * stride,
                src + stride <= n,
                j <= stride,
                want == spec_flip_to_top_down(w as int, h as int, rgba@),
                forall|i: int| 0 <= i < n ==> #[trigger] out@[i] == if i < dst + j { want[i] } else { 0u8 },
            decreases stride - j,
        {
            proof {
                let i = dst + j;
                vstd::arithmetic::div_mod::lemma_fundamental_div_mod_converse(
                    i as int,
                    stride as int,
                    y as int,
                    j as int,
                );
                assert(i < hh * stride);
            }
            out.set(dst + j, rgba[src + j]);
            j += 1;
        }
        proof {
            assert(dst + stride == (y + 1) * stride) by (nonlinear_arith)
                requires dst == y * stride;
        }
        y += 1;
    }
    proof {
        assert forall|i: int| 0 <= i < n implies out@[i] == want[i] by {
            if i >= hh * stride {
                assert(!(i < (h as int) * ((w as int) * 4)));
            }
        }
        assert(out@ =~= want);
    }
    out
}

} // verus!
