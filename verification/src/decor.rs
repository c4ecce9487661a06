//! Map decorations: the sprites drawn over provinces, the little random
//! generator that places them, and the order in which they are painted.
use vstd::prelude::*;
use crate::render::{Rect, min_i, max_i};
use crate::terrain::{BORDER_MOUNTAIN_LINE, BORDER_MOUNTAIN_PASS};

verus! {

pub const WINTER_MOUNTAIN_OFFSET: i16 = 11;

/// A sprite standing at `(x, y)`: its bottom-centre point, its size in
/// pixels, its frame and its layer.
#[derive(Clone, Copy, Debug, PartialEq, Eq, Structural)]
pub struct Sprite {
    pub x: i32,
    pub y: i32,
    pub size: i16,
    pub idx: i16,
    pub layer: u8,
}

/// Half of a number, rounded toward zero.
pub open spec fn half_toward_zero(s: int) -> int {
    if s >= 0 {
        s / 2
    } else {
        -((-s) / 2)
    }
}

/// The pixels a sprite covers.
pub open spec fn sprite_rect(s: Sprite) -> (int, int, int, int) {
    let z = s.size as int;
    let x0 = s.x - half_toward_zero(z);
    (x0, s.y as int, x0 + z - 1, s.y + z - 1)
}

/// The sprite's corners fit in `i32`.
pub open spec fn sprite_fits(s: Sprite) -> bool {
    let r = sprite_rect(s);
    &&& i32::MIN <= r.0 <= i32::MAX
    &&& i32::MIN <= r.2 <= i32::MAX
    &&& i32::MIN <= r.3 <= i32::MAX
}

impl Sprite {
    /// The pixels the sprite covers: centred on `x`, from row `y` down.
    pub fn rect(&self) -> (r: Rect)
        requires
            sprite_fits(*self),
        ensures
            (r.x0 as int, r.y0 as int, r.x1 as int, r.y1 as int) == sprite_rect(*self),
    {
        let s = self.size as i32;
        let half = if s >= 0 { s / 2 } else { -((-s) / 2) };
        let x0 = self.x - half;
        Rect { x0, y0: self.y, x1: x0 + (s - 1), y1: self.y + (s - 1) }
    }
}

/// The step of the xorshift generator.
pub open spec fn xorshift(x: u64) -> u64 {
    let a = x ^ (x >> 12u64);
    let b = a ^ (a << 25u64);
    b ^ (b >> 27u64)
}

/// The number a generator in state `x` hands out with its next step.
pub open spec fn scrambled(x: u64) -> u64 {
    xorshift(x).wrapping_mul(0x2545_F491_4F6C_DD1Du64)
}

/// The state of a generator made from a seed: never zero.
pub open spec fn seeded(seed: u64) -> u64 {
    let s = seed.wrapping_mul(0x9E37_79B9_7F4A_7C15u64).wrapping_add(0xD1B5_4A32_D192_ED03u64);
    if s == 0 {
        1
    } else {
        s
    }
}

/// A draw below `n` from state `x`: the draw and the state after it. A bound of
/// zero or less draws nothing and gives zero.
pub open spec fn spec_below(x: u64, n: i32) -> (i32, u64) {
    if n <= 0 {
        (0, x)
    } else {
        (((scrambled(x) >> 33u64) as int % n as int) as i32, xorshift(x))
    }
}

/// The sum of `k` throws of a die with `sides` sides from state `x`, and the
/// state after them.
pub open spec fn spec_dice(x: u64, k: nat, sides: i32) -> (int, u64)
    decreases k,
{
    if k == 0 {
        (0, x)
    } else {
        let (t, y) = spec_dice(x, (k - 1) as nat, sides);
        let (d, z) = spec_below(y, sides);
        (t + d + 1, z)
    }
}

/// A small, fast pseudo-random generator for laying out decorations.
pub struct Rng(u64);

impl Rng {
    /// The generator's state.
    pub closed spec fn state(&self) -> u64 {
        self.0
    }

    /// A generator seeded from a number.
    pub fn new(seed: u64) -> (r: Rng)
        ensures
            r.state() == seeded(seed),
    {
        let s = seed.wrapping_mul(0x9E37_79B9_7F4A_7C15).wrapping_add(0xD1B5_4A32_D192_ED03);
        Rng(if s == 0 { 1 } else { s })
    }

    fn next(&mut self) -> (v: u64)
        ensures
            final(self).state() == xorshift(old(self).state()),
            v == scrambled(old(self).state()),
    {
        let mut x = self.0;
        x ^= x >> 12u64;
        x ^= x << 25u64;
        x ^= x >> 27u64;
        self.0 = x;
        x.wrapping_mul(0x2545_F491_4F6C_DD1D)
    }

    /// A number from zero up to, not including, `n`; zero when `n` is not positive.
    pub fn below(&mut self, n: i32) -> (v: i32)
        ensures
            (v, final(self).state()) == spec_below(old(self).state(), n),
            n > 0 ==> 0 <= v < n,
    {
        if n <= 0 {
            0
        } else {
            let v = self.next();
            let r = v >> 33u64;
            assert(r < 0x8000_0000) by (bit_vector)
                requires r == v >> 33u64;
            (r as i32) % n
        }
    }

    /// The sum of `n` throws of a die with `sides` sides.
    pub fn dice(&mut self, n: i32, sides: i32) -> (t: i32)
        requires
            (if n > 0 { n as int } else { 0 }) * (if sides > 1 { sides as int } else { 1 }) <= i32::MAX,
        ensures
            (t as int, final(self).state()) == spec_dice(
                old(self).state(),
                (if n > 0 { n as int } else { 0 }) as nat,
                sides,
            ),
    {
        let k: i32 = if n > 0 { n } else { 0 };
        let cap: i32 = if sides > 1 { sides } else { 1 };
        let ghost start = self.state();
        let mut t: i32 = 0;
        let mut i: i32 = 0;
        while i < k
            invariant
                0 <= i <= k,
                k * cap <= i32::MAX,
                cap >= 1,
                cap == (if sides > 1 { sides as int } else { 1 }),
                0 <= t <= i * cap,
                (t as int, self.state()) == spec_dice(start, i as nat, sides),
            decreases k - i,
        {
            let d = self.below(sides);
            proof {
                assert(0 <= d + 1 <= cap);
                assert(t + d + 1 <= (i + 1) * cap) by (nonlinear_arith)
                    requires t <= i * cap, d + 1 <= cap;
                assert((i + 1) * cap <= k * cap) by (nonlinear_arith)
                    requires i + 1 <= k, cap >= 1;
            }
            t = t + d + 1;
            i += 1;
        }
        t
    }
}

/// Whether a border's `#neighbourspec` value draws a line of mountains.
pub fn is_mountain_line(spec: i64) -> (b: bool)
    ensures
        b == ((spec as u64) & (BORDER_MOUNTAIN_PASS | BORDER_MOUNTAIN_LINE) != 0),
{
    (spec as u64) & (BORDER_MOUNTAIN_PASS | BORDER_MOUNTAIN_LINE) != 0
}

/// The smallest rectangle that covers all the sprites, or nothing for none.
pub open spec fn spec_bounds(s: Seq<Sprite>) -> Option<(int, int, int, int)>
    decreases s.len(),
{
    if s.len() == 0 {
        None
    } else {
        let b = sprite_rect(s.last());
        match spec_bounds(s.drop_last()) {
            None => Some(b),
            Some(a) => Some((min_i(a.0, b.0), min_i(a.1, b.1), max_i(a.2, b.2), max_i(a.3, b.3))),
        }
    }
}

/// The rectangle as a tuple of its corners.
pub open spec fn rect_tuple(r: Rect) -> (int, int, int, int) {
    (r.x0 as int, r.y0 as int, r.x1 as int, r.y1 as int)
}

/// The smallest rectangle that covers all the sprites, or nothing for none.
pub fn sprite_bounds(sprites: &[Sprite]) -> (r: Option<Rect>)
    requires
        forall|k: int| 0 <= k < sprites@.len() ==> sprite_fits(#[trigger] sprites@[k]),
    ensures
        match r {
            None => spec_bounds(sprites@) is None,
            Some(x) => spec_bounds(sprites@) == Some(rect_tuple(x)),
        },
{
    let mut r: Option<Rect> = None;
    let mut i: usize = 0;
    while i < sprites.len()
        invariant
            i <= sprites@.len(),
            forall|k: int| 0 <= k < sprites@.len() ==> sprite_fits(#[trigger] sprites@[k]),
            match r {
                None => spec_bounds(sprites@.take(i as int)) is None,
                Some(x) => spec_bounds(sprites@.take(i as int)) == Some(rect_tuple(x)),
            },
        decreases sprites@.len() - i,
    {
        let s = sprites[i];
        let b = s.rect();
        proof {
            assert(sprites@.take(i + 1).drop_last() =~= sprites@.take(i as int));
            assert(sprites@.take(i + 1).last() == s);
        }
        r = Some(match r {
            None => b,
            Some(a) => a.union(b),
        });
        i += 1;
    }
    assert(sprites@.take(sprites@.len() as int) =~= sprites@);
    r
}

/// Sprite `a` is painted before sprite `b`: it is on a higher layer, or on the
/// same layer and further down.
pub open spec fn paints_before(a: Sprite, b: Sprite) -> bool {
    a.layer > b.layer || (a.layer == b.layer && a.y > b.y)
}

/// Where `x` goes into the painting order `s`: before the first sprite it paints before.
pub open spec fn insert_at(s: Seq<Sprite>, x: Sprite) -> nat
    decreases s.len(),
{
    if s.len() == 0 {
        0
    } else if paints_before(x, s[0]) {
        0
    } else {
        1 + insert_at(s.drop_first(), x)
    }
}

/// The sprites in painting order; sprites that tie keep the order they had.
pub open spec fn painting_order(s: Seq<Sprite>) -> Seq<Sprite>
    decreases s.len(),
{
    if s.len() == 0 {
        s
    } else {
        let t = painting_order(s.drop_last());
        let k = insert_at(t, s.last()) as int;
        t.take(k) + seq![s.last()] + t.skip(k)
    }
}

proof fn lemma_insert_at_bound(s: Seq<Sprite>, x: Sprite)
    ensures
        insert_at(s, x) <= s.len(),
    decreases s.len(),
{
    if s.len() > 0 {
        lemma_insert_at_bound(s.drop_first(), x);
    }
}

proof fn lemma_insert_at_skip(s: Seq<Sprite>, x: Sprite, k: int)
    requires
        0 <= k <= s.len(),
        forall|j: int| 0 <= j < k ==> !paints_before(x, #[trigger] s[j]),
    ensures
        insert_at(s, x) == k + insert_at(s.skip(k), x),
    decreases k,
{
    if k > 0 {
        let t = s.drop_first();
        assert forall|j: int| 0 <= j < k - 1 implies !paints_before(x, #[trigger] t[j]) by {
            assert(t[j] == s[j + 1]);
        }
        lemma_insert_at_skip(t, x, k - 1);
        assert(t.skip(k - 1) =~= s.skip(k));
        assert(!paints_before(x, s[0]));
    } else {
        assert(s.skip(0) =~= s);
    }
}

proof fn lemma_painting_order_len(s: Seq<Sprite>)
    ensures
        painting_order(s).len() == s.len(),
    decreases s.len(),
{
    if s.len() > 0 {
        lemma_painting_order_len(s.drop_last());
        lemma_insert_at_bound(painting_order(s.drop_last()), s.last());
    }
}

/// Puts the sprites in painting order: higher layers first, and within a layer
/// the lower sprites first; sprites that tie keep their order.
pub fn order(sprites: &mut Vec<Sprite>)
    ensures
        final(sprites)@ == painting_order(old(sprites)@),
{
    let ghost orig = sprites@;
    let n = sprites.len();
    let mut i: usize = 0;
    while i < n
        invariant
            n == orig.len(),
            sprites@.len() == n,
            i <= n,
            sprites@.take(i as int) == painting_order(orig.take(i as int)),
            sprites@.skip(i as int) == orig.skip(i as int),
        decreases n - i,
    {
        let ghost before = sprites@;
        let ghost sorted = before.take(i as int);
        proof {
            lemma_painting_order_len(orig.take(i as int));
            assert(before[i as int] == orig[i as int]) by {
                assert(before.skip(i as int)[0] == orig.skip(i as int)[0]);
            }
        }
        proof {
            assert(before =~= sorted + orig.skip(i as int));
            assert(orig.skip(i as int).drop_first() =~= orig.skip(i + 1));
        }
        let x = sprites.remove(i);
        proof {
            assert(sprites@ =~= sorted + orig.skip(i + 1));
        }
        let mut k: usize = 0;
        while k < i && !(x.layer > sprites[k].layer || (x.layer == sprites[k].layer && x.y > sprites[k].y))
            invariant
                k <= i,
                i < n,
                sprites@ == sorted + orig.skip(i + 1),
                sorted.len() == i,
                forall|j: int| 0 <= j < k ==> !paints_before(x, #[trigger] sorted[j]),
            decreases i - k,
        {
            k += 1;
        }
        proof {
            lemma_insert_at_skip(sorted, x, k as int);
            let rest = sorted.skip(k as int);
            if k < i {
                assert(sprites@[k as int] == sorted[k as int]);
                assert(paints_before(x, sorted[k as int]));
                assert(rest[0] == sorted[k as int]);
                assert(rest.len() > 0);
                assert(insert_at(rest, x) == 0);
            } else {
                assert(rest.len() == 0);
                assert(insert_at(rest, x) == 0);
            }
            assert(insert_at(sorted, x) == k);
        }
        sprites.insert(k, x);
        proof {
            let t = orig.take(i + 1);
            assert(t.drop_last() =~= orig.take(i as int));
            assert(t.last() == x);
            assert(sprites@.take(i + 1) =~= sorted.take(k as int) + seq![x] + sorted.skip(k as int));
            assert(sprites@.skip(i + 1) =~= orig.skip(i + 1));
        }
        i += 1;
    }
    proof {
        assert(sprites@ =~= sprites@.take(n as int));
        assert(orig.take(n as int) =~= orig);
    }
}

} // verus!
