//! The map chooser: what kind of map a file is, the counts shown on its card,
//! the slots that cards arrive in while they load, and small previews.
use vstd::prelude::*;
use crate::textures::{Image, ImageView, image_wf, rows_flipped};
use crate::tga::{spec_tga_decode, tga_header_ok, u16_at};
use crate::text::{string_of, string_from};
use crate::paths::{file_stem, file_name_of, stem_and_ext_of};
use crate::generator_panel::{ceil_div, lemma_ceil_div};
use crate::mapfile::{MapFile, Fields, read_lines, map_lines};
use crate::text::{trim, ends_with, chars_of, trimmed, has_suffix, split_on, char_pos, lemma_char_pos};
use std::collections::BTreeMap;
use crate::wire::lossy_utf8;
use crate::namefix::{all_simple, path_before, same_path, texts_of};
use crate::text::has_prefix;

verus! {

/// The width of a card's preview.
pub const PREVIEW_W: usize = 512;

/// How a map draws its picture.
#[derive(Clone, Copy, PartialEq, Eq, Debug, Structural)]
pub enum Kind {
    Recipe,
    Picture,
    Unknown,
}

impl Kind {
    /// How the kind is shown on a card.
    pub fn label(self) -> (s: &'static str)
        ensures
            s@ == match self {
                Kind::Recipe => "recipe (.d6m)"@,
                Kind::Picture => "picture (.tga)"@,
                Kind::Unknown => "unknown"@,
            },
    {
        match self {
            Kind::Recipe => "recipe (.d6m)",
            Kind::Picture => "picture (.tga)",
            Kind::Unknown => "unknown",
        }
    }
}

/// What a map's card tells of it.
#[derive(Clone, Debug, PartialEq)]
pub struct Stats {
    pub kind: Kind,
    pub size: Option<(i32, i32)>,
    pub provinces: usize,
    pub sea: usize,
    pub land: usize,
    pub planes: usize,
}

/// Places for items that arrive in any order; the items from the first on
/// that have all arrived are the ones shown.
pub struct Slots<T> {
    items: Vec<Option<T>>,
    ready: usize,
    filled: usize,
}

/// How many of the slots hold an item.
pub open spec fn count_some<T>(s: Seq<Option<T>>) -> nat
    decreases s.len(),
{
    if s.len() == 0 {
        0
    } else {
        count_some(s.drop_last()) + if s.last() is Some {
            1nat
        } else {
            0nat
        }
    }
}

/// How many slots from the first on hold an item.
pub open spec fn filled_prefix<T>(s: Seq<Option<T>>) -> nat
    decreases s.len(),
{
    if s.len() == 0 {
        0
    } else if s[0] is Some {
        1 + filled_prefix(s.drop_first())
    } else {
        0
    }
}

proof fn lemma_count_some_bound<T>(s: Seq<Option<T>>)
    ensures
        count_some(s) <= s.len(),
    decreases s.len(),
{
    if s.len() > 0 {
        lemma_count_some_bound(s.drop_last());
    }
}

proof fn lemma_count_some_update<T>(s: Seq<Option<T>>, i: int, v: T)
    requires
        0 <= i < s.len(),
        s[i] is None,
    ensures
        count_some(s.update(i, Some(v))) == count_some(s) + 1,
    decreases s.len(),
{
    let t = s.update(i, Some(v));
    if i == s.len() - 1 {
        assert(t.drop_last() =~= s.drop_last());
    } else {
        assert(t.drop_last() =~= s.drop_last().update(i, Some(v)));
        lemma_count_some_update(s.drop_last(), i, v);
    }
}

proof fn lemma_filled_prefix<T>(s: Seq<Option<T>>, k: int)
    requires
        0 <= k <= s.len(),
        forall|j: int| 0 <= j < k ==> (#[trigger] s[j]) is Some,
        k == s.len() || s[k] is None,
    ensures
        filled_prefix(s) == k,
    decreases k,
{
    if k > 0 {
        let t = s.drop_first();
        assert forall|j: int| 0 <= j < k - 1 implies (#[trigger] t[j]) is Some by {
            assert(t[j] == s[j + 1]);
        }
        if k < s.len() {
            assert(t[k - 1] == s[k]);
        }
        lemma_filled_prefix(t, k - 1);
    }
}

/// Putting an item into an empty slot fills one slot more, and the slots
/// filled from the first on stay filled.
pub proof fn lemma_put_fills<T>(s: Seq<Option<T>>, i: int, v: T)
    requires
        0 <= i < s.len(),
        s[i] is None,
    ensures
        count_some(s.update(i, Some(v))) == count_some(s) + 1,
        filled_prefix(s.update(i, Some(v))) >= filled_prefix(s),
{
    lemma_count_some_update(s, i, v);
    let t = s.update(i, Some(v));
    lemma_prefix_bound(s);
    let k = filled_prefix(s) as int;
    assert forall|j: int| 0 <= j < k implies (#[trigger] t[j]) is Some by {
        lemma_prefix_some(s, j);
    }
    lemma_prefix_at_least(t, k);
}

/// The slots after putting `v` into slot `i`: an empty slot in range takes
/// it; anything else leaves the slots as they were.
pub open spec fn put_items<T>(s: Seq<Option<T>>, i: int, v: T) -> Seq<Option<T>> {
    if 0 <= i < s.len() && s[i] is None {
        s.update(i, Some(v))
    } else {
        s
    }
}

/// Putting an item keeps the number of slots and never lessens the filled
/// slots from the first on; into an empty slot in range it puts the item and
/// fills one slot more, the first item put into a slot stays, and a slot
/// past the end changes nothing.
pub proof fn lemma_put_law<T>(s: Seq<Option<T>>, i: int, v: T)
    ensures
        put_items(s, i, v).len() == s.len(),
        filled_prefix(put_items(s, i, v)) >= filled_prefix(s),
        0 <= i < s.len() && s[i] is None ==> put_items(s, i, v)[i] == Some(v) && count_some(put_items(s, i, v))
            == count_some(s) + 1,
        !(0 <= i < s.len() && s[i] is None) ==> put_items(s, i, v) == s,
        forall|j: int| 0 <= j < s.len() && j != i ==> #[trigger] put_items(s, i, v)[j] == s[j],
{
    if 0 <= i < s.len() && s[i] is None {
        lemma_put_fills(s, i, v);
    }
}

proof fn lemma_prefix_at_least<T>(s: Seq<Option<T>>, k: int)
    requires
        0 <= k <= s.len(),
        forall|j: int| 0 <= j < k ==> (#[trigger] s[j]) is Some,
    ensures
        filled_prefix(s) >= k,
    decreases k,
{
    if k > 0 {
        let t = s.drop_first();
        assert forall|j: int| 0 <= j < k - 1 implies (#[trigger] t[j]) is Some by {
            assert(t[j] == s[j + 1]);
        }
        lemma_prefix_at_least(t, k - 1);
    }
}

impl<T> Slots<T> {
    /// The slots, in order.
    pub closed spec fn items(&self) -> Seq<Option<T>> {
        self.items@
    }

    /// The counts kept agree with the slots.
    pub closed spec fn wf(&self) -> bool {
        &&& self.filled == count_some(self.items@)
        &&& self.ready == filled_prefix(self.items@)
    }

    /// `n` empty slots.
    pub fn new(n: usize) -> (s: Slots<T>)
        ensures
            s.wf(),
            s.items() == Seq::new(n as nat, |i: int| None::<T>),
    {
        let mut items: Vec<Option<T>> = Vec::new();
        let mut i: usize = 0;
        while i < n
            invariant
                i <= n,
                items@ == Seq::new(i as nat, |j: int| None::<T>),
                count_some(items@) == 0,
            decreases n - i,
        {
            let ghost before = items@;
            items.push(None);
            proof {
                assert(items@.drop_last() =~= before);
                assert(items@ =~= Seq::new((i + 1) as nat, |j: int| None::<T>));
            }
            i += 1;
        }
        proof {
            if n > 0 {
                assert(items@[0] is None);
            }
            lemma_filled_prefix(items@, 0);
        }
        Slots { items, ready: 0, filled: 0 }
    }

    /// How many slots there are.
    pub fn len(&self) -> (n: usize)
        ensures
            n == self.items().len(),
    {
        self.items.len()
    }

    /// Whether there are no slots.
    pub fn is_empty(&self) -> (b: bool)
        ensures
            b == (self.items().len() == 0),
    {
        self.items.len() == 0
    }

    /// How many slots hold an item.
    pub fn filled(&self) -> (n: usize)
        requires
            self.wf(),
        ensures
            n == count_some(self.items()),
    {
        self.filled
    }

    /// How many slots from the first on hold an item.
    pub fn ready(&self) -> (n: usize)
        requires
            self.wf(),
        ensures
            n == filled_prefix(self.items()),
    {
        self.ready
    }

    /// Puts an item in slot `i`; a slot past the end, or one that holds an
    /// item already, is left as it was.
    pub fn put(&mut self, i: usize, value: T)
        requires
            old(self).wf(),
        ensures
            final(self).wf(),
            final(self).items() == put_items(old(self).items(), i as int, value),
    {
        if i >= self.items.len() || self.items[i].is_some() {
            return;
        }
        let ghost before = self.items@;
        proof {
            lemma_count_some_update(self.items@, i as int, value);
            lemma_count_some_bound(self.items@.update(i as int, Some(value)));
            lemma_prefix_bound(before);
        }
        self.items.set(i, Some(value));
        self.filled = self.filled + 1;
        proof {
            let r = self.ready as int;
            assert forall|j: int| 0 <= j < r implies (#[trigger] self.items@[j]) is Some by {
                lemma_prefix_some(before, j);
            }
        }
        while self.ready < self.items.len() && self.items[self.ready].is_some()
            invariant
                self.items@ == before.update(i as int, Some(value)),
                self.filled == count_some(self.items@),
                self.ready <= self.items@.len(),
                forall|j: int| 0 <= j < self.ready ==> (#[trigger] self.items@[j]) is Some,
            decreases self.items@.len() - self.ready,
        {
            self.ready = self.ready + 1;
        }
        proof {
            lemma_filled_prefix(self.items@, self.ready as int);
        }
    }

    /// The items of the filled slots from the first on.
    pub fn visible(&self) -> (v: Vec<&T>)
        requires
            self.wf(),
        ensures
            v@.len() == filled_prefix(self.items()),
            forall|j: int| 0 <= j < v@.len() ==> self.items()[j] == Some(*#[trigger] v@[j]),
    {
        let mut v: Vec<&T> = Vec::new();
        let mut j: usize = 0;
        proof {
            assert forall|k: int| 0 <= k < self.ready implies (#[trigger] self.items@[k]) is Some by {
                lemma_prefix_some(self.items@, k);
            }
            lemma_prefix_bound(self.items@);
        }
        while j < self.ready
            invariant
                self.wf(),
                j <= self.ready,
                self.ready <= self.items@.len(),
                forall|k: int| 0 <= k < self.ready ==> (#[trigger] self.items@[k]) is Some,
                v@.len() == j,
                forall|k: int| 0 <= k < j ==> self.items@[k] == Some(*#[trigger] v@[k]),
            decreases self.ready - j,
        {
            match &self.items[j] {
                Some(x) => {
                    v.push(x);
                },
                None => {},
            }
            j += 1;
        }
        v
    }

    /// The item in slot `i`, if it holds one.
    pub fn get(&self, i: usize) -> (r: Option<&T>)
        ensures
            match r {
                Some(x) => i < self.items().len() && self.items()[i as int] == Some(*x),
                None => i >= self.items().len() || self.items()[i as int] is None,
            },
    {
        if i < self.items.len() {
            match &self.items[i] {
                Some(x) => Some(x),
                None => None,
            }
        } else {
            None
        }
    }
}

proof fn lemma_prefix_some<T>(s: Seq<Option<T>>, j: int)
    requires
        0 <= j < filled_prefix(s),
    ensures
        s[j] is Some,
    decreases s.len(),
{
    lemma_prefix_bound(s);
    if j > 0 {
        let t = s.drop_first();
        lemma_prefix_some(t, j - 1);
        assert(t[j - 1] == s[j]);
    }
}

proof fn lemma_prefix_bound<T>(s: Seq<Option<T>>)
    ensures
        filled_prefix(s) <= s.len(),
    decreases s.len(),
{
    if s.len() > 0 && s[0] is Some {
        lemma_prefix_bound(s.drop_first());
    }
}

/// The sum of channel `c` over the pixels of columns `x0..x1` in row `y`.
pub open spec fn row_sum(v: ImageView, y: int, x0: int, x1: int, c: int) -> nat
    decreases x1 - x0,
{
    if x1 <= x0 {
        0
    } else {
        row_sum(v, y, x0, x1 - 1, c) + v.rgba[(y * v.w + x1 - 1) * 4 + c] as nat
    }
}

/// The sum of channel `c` over the pixels of rows `y0..y1` and columns `x0..x1`.
pub open spec fn block_sum(v: ImageView, y0: int, y1: int, x0: int, x1: int, c: int) -> nat
    decreases y1 - y0,
{
    if y1 <= y0 {
        0
    } else {
        block_sum(v, y0, y1 - 1, x0, x1, c) + row_sum(v, y1 - 1, x0, x1, c)
    }
}

/// The smaller of two numbers.
pub open spec fn min_n(a: int, b: int) -> int {
    if a < b {
        a
    } else {
        b
    }
}

/// Byte `i` of a copy shrunk by `step` each way: the mean, rounded down, of
/// its channel over the block of pixels it stands for.
pub open spec fn shrunk_byte(v: ImageView, step: int, ow: int, i: int) -> u8 {
    let ox = (i / 4) % ow;
    let oy = (i / 4) / ow;
    let c = i % 4;
    let y0 = oy * step;
    let y1 = min_n((oy + 1) * step, v.h as int);
    let x0 = ox * step;
    let x1 = min_n((ox + 1) * step, v.w as int);
    let n = (y1 - y0) * (x1 - x0);
    if n <= 0 {
        0
    } else {
        (block_sum(v, y0, y1, x0, x1, c) / n as nat) as u8
    }
}

/// The step a picture is shrunk by to be about `target` wide.
pub open spec fn shrink_step(w: int, target: int) -> int {
    let t = if target > 1 {
        target
    } else {
        1
    };
    let s = ceil_div(w, t);
    if s > 1 {
        s
    } else {
        1
    }
}

proof fn lemma_row_sum_bound(v: ImageView, y: int, x0: int, x1: int, c: int)
    ensures
        row_sum(v, y, x0, x1, c) <= 255 * (if x1 > x0 { x1 - x0 } else { 0 }),
    decreases x1 - x0,
{
    if x1 > x0 {
        lemma_row_sum_bound(v, y, x0, x1 - 1, c);
    }
}

proof fn lemma_block_sum_bound(v: ImageView, y0: int, y1: int, x0: int, x1: int, c: int)
    requires
        x1 >= x0,
    ensures
        block_sum(v, y0, y1, x0, x1, c) <= 255 * (if y1 > y0 { y1 - y0 } else { 0 }) * (x1 - x0),
    decreases y1 - y0,
{
    if y1 > y0 {
        lemma_block_sum_bound(v, y0, y1 - 1, x0, x1, c);
        lemma_row_sum_bound(v, y1 - 1, x0, x1, c);
        assert(255 * (y1 - 1 - y0) * (x1 - x0) + 255 * (x1 - x0) == 255 * (y1 - y0) * (x1 - x0)) by (nonlinear_arith);
        if y1 - 1 <= y0 {
            assert(255 * 0 * (x1 - x0) == 0) by (nonlinear_arith);
        }
    }
}

fn block_mean(src: &Image, y0: usize, y1: usize, x0: usize, x1: usize, c: usize) -> (m: u8)
    requires
        image_wf(src@),
        y0 < y1 <= src.h,
        x0 < x1 <= src.w,
        c < 4,
    ensures
        m == (block_sum(src@, y0 as int, y1 as int, x0 as int, x1 as int, c as int) / ((y1 - y0) * (x1 - x0)) as nat) as u8,
{
    let _n = src.rgba.len();
    proof {
        assert((y1 - y0) * (x1 - x0) <= src.h * src.w) by (nonlinear_arith)
            requires 0 < y1 - y0 <= src.h, 0 < x1 - x0 <= src.w;
        assert(src.h * src.w == src.w * src.h) by (nonlinear_arith);
    }
    let mut acc: u128 = 0;
    let mut y = y0;
    while y < y1
        invariant
            image_wf(src@),
            src.rgba@.len() <= usize::MAX,
            y0 <= y <= y1 <= src.h,
            x0 < x1 <= src.w,
            c < 4,
            (y1 - y0) * (x1 - x0) <= src.w * src.h,
            acc == block_sum(src@, y0 as int, y as int, x0 as int, x1 as int, c as int),
        decreases y1 - y,
    {
        proof {
            lemma_block_sum_bound(src@, y0 as int, y as int, x0 as int, x1 as int, c as int);
            assert(255 * (y - y0) * (x1 - x0) <= 255 * ((y1 - y0) * (x1 - x0))) by (nonlinear_arith)
                requires y <= y1, x1 > x0, y >= y0;
        }
        let mut row: u128 = 0;
        let mut x = x0;
        while x < x1
            invariant
                image_wf(src@),
                src.rgba@.len() <= usize::MAX,
                y0 <= y < y1 <= src.h,
                x0 <= x <= x1 <= src.w,
                c < 4,
                row == row_sum(src@, y as int, x0 as int, x as int, c as int),
                row <= 255 * (x - x0),
            decreases x1 - x,
        {
            proof {
                assert((y * src.w + x) * 4 + c < src.w * src.h * 4) by (nonlinear_arith)
                    requires y < src.h, x < src.w, c < 4;
            }
            row = row + src.rgba[(y * src.w + x) * 4 + c] as u128;
            x += 1;
        }
        proof {
            lemma_row_sum_bound(src@, y as int, x0 as int, x1 as int, c as int);
        }
        acc = acc + row;
        y += 1;
    }
    proof {
        assert((y1 - y0) * (x1 - x0) >= 1) by (nonlinear_arith)
            requires y1 > y0, x1 > x0;
    }
    let n = ((y1 - y0) * (x1 - x0)) as u128;
    proof {
        lemma_block_sum_bound(src@, y0 as int, y1 as int, x0 as int, x1 as int, c as int);
        assert(acc / n <= 255) by (nonlinear_arith)
            requires acc <= 255 * (y1 - y0) * (x1 - x0), n == (y1 - y0) * (x1 - x0), n >= 1;
    }
    (acc / n) as u8
}

/// A picture shrunk to about `target` pixels wide, each pixel the mean of the
/// block it stands for; the picture itself when it is narrow enough.
pub open spec fn spec_downsample(v: ImageView, target: int) -> ImageView {
    let step = shrink_step(v.w as int, target);
    if step == 1 {
        v
    } else {
        let ow = ceil_div(v.w as int, step);
        let oh = ceil_div(v.h as int, step);
        ImageView {
            w: ow as nat,
            h: oh as nat,
            rgba: Seq::new((ow * oh * 4) as nat, |i: int| shrunk_byte(v, step, ow, i)),
        }
    }
}

/// A copy shrunk to about `target` pixels wide, each pixel the mean of the
/// block it stands for; the picture itself when it is narrow enough.
pub fn downsample(src: &Image, target: usize) -> (out: Image)
    requires
        image_wf(src@),
    ensures
        out@ == spec_downsample(src@, target as int),
        image_wf(out@),
{
    let t = if target > 1 { target } else { 1 };
    let s0 = crate::generator_panel::div_ceil_usize(src.w, t);
    let step = if s0 > 1 { s0 } else { 1 };
    if step == 1 {
        let rgba = src.rgba.clone();
        assert(rgba@ =~= src.rgba@);
        return Image { w: src.w, h: src.h, rgba };
    }
    let ow = crate::generator_panel::div_ceil_usize(src.w, step);
    let oh = crate::generator_panel::div_ceil_usize(src.h, step);
    let _n = src.rgba.len();
    if src.h == 0 {
        proof {
            lemma_ceil_div(src.h as int, step as int);
            assert(oh == 0);
            assert(ow * oh * 4 == 0) by (nonlinear_arith)
                requires oh == 0;
        }
        let out = Image { w: ow, h: oh, rgba: Vec::new() };
        assert(out@.rgba =~= spec_downsample(src@, target as int).rgba);
        return out;
    }
    proof {
        lemma_ceil_div(src.w as int, t as int);
        assert(step <= src.w);
        lemma_ceil_div(src.w as int, step as int);
        lemma_ceil_div(src.h as int, step as int);
        assert(src.w >= 1);
        assert(src.h * 4 <= src.w * src.h * 4 && src.w * 4 <= src.w * src.h * 4) by (nonlinear_arith)
            requires src.w >= 1, src.h >= 1;
        assert(ow * oh * 4 <= src.w * src.h * 4) by (nonlinear_arith)
            requires ow <= src.w, oh <= src.h;
    }
    let mut rgba: Vec<u8> = Vec::new();
    let mut oy: usize = 0;
    while oy < oh
        invariant
            image_wf(src@),
            src.rgba@.len() <= usize::MAX,
            2 <= step <= src.w,
            src.w * 4 <= usize::MAX,
            ow >= 1,
            ow == ceil_div(src.w as int, step as int),
            oh == ceil_div(src.h as int, step as int),
            ow * oh * 4 <= src.w * src.h * 4,
            src.h * 4 <= usize::MAX,
            oy <= oh,
            rgba@.len() == oy * ow * 4,
            forall|i: int| 0 <= i < rgba@.len() ==> #[trigger] rgba@[i] == shrunk_byte(src@, step as int, ow as int, i),
        decreases oh - oy,
    {
        proof {
            lemma_ceil_div(src.h as int, step as int);
            assert(oy * step <= (oh - 1) * step) by (nonlinear_arith)
                requires oy <= oh - 1, step >= 0;
            assert((oy + 1) * step == oy * step + step) by (nonlinear_arith);
        }
        let y0 = oy * step;
        let y1 = if (oy + 1) * step < src.h { (oy + 1) * step } else { src.h };
        let mut ox: usize = 0;
        while ox < ow
            invariant
                image_wf(src@),
                src.rgba@.len() <= usize::MAX,
                2 <= step <= src.w,
                src.w * 4 <= usize::MAX,
                src.h * 4 <= usize::MAX,
                ow >= 1,
                ow == ceil_div(src.w as int, step as int),
                oh == ceil_div(src.h as int, step as int),
                ow * oh * 4 <= src.w * src.h * 4,
                oy < oh,
                y0 == oy * step,
                y1 == min_n((oy + 1) * step, src.h as int),
                y0 < y1 <= src.h,
                y1 - y0 <= step,
                ox <= ow,
                rgba@.len() == (oy * ow + ox) * 4,
                forall|i: int| 0 <= i < rgba@.len() ==> #[trigger] rgba@[i] == shrunk_byte(src@, step as int, ow as int, i),
            decreases ow - ox,
        {
            proof {
                lemma_ceil_div(src.w as int, step as int);
                assert(ox * step <= (ow - 1) * step) by (nonlinear_arith)
                    requires ox <= ow - 1, step >= 0;
                assert((ox + 1) * step == ox * step + step) by (nonlinear_arith);
                assert((oy * ow + ox) * 4 + 4 <= ow * oh * 4) by (nonlinear_arith)
                    requires ox < ow, oy < oh;
            }
            let x0 = ox * step;
            let x1 = if (ox + 1) * step < src.w { (ox + 1) * step } else { src.w };
            proof {
                assert((y1 - y0) * (x1 - x0) > 0) by (nonlinear_arith)
                    requires 0 < y1 - y0, 0 < x1 - x0;
            }
            let mut c: usize = 0;
            while c < 4
                invariant
                    image_wf(src@),
                    y0 < y1 <= src.h,
                    x0 < x1 <= src.w,
                    (y1 - y0) * (x1 - x0) > 0,
                    ow >= 1,
                    ox < ow,
                    y0 == oy * step,
                    y1 == min_n((oy + 1) * step, src.h as int),
                    x0 == ox * step,
                    x1 == min_n((ox + 1) * step, src.w as int),
                    c <= 4,
                    rgba@.len() == (oy * ow + ox) * 4 + c,
                    forall|i: int| 0 <= i < rgba@.len() ==> #[trigger] rgba@[i] == shrunk_byte(src@, step as int, ow as int, i),
                decreases 4 - c,
            {
                let m = block_mean(src, y0, y1, x0, x1, c);
                proof {
                    let i = ((oy * ow + ox) * 4 + c) as int;
                    vstd::arithmetic::div_mod::lemma_fundamental_div_mod_converse(i, 4, (oy * ow + ox) as int, c as int);
                    vstd::arithmetic::div_mod::lemma_fundamental_div_mod_converse((oy * ow + ox) as int, ow as int, oy as int, ox as int);
                }
                rgba.push(m);
                c += 1;
            }
            ox += 1;
        }
        proof {
            assert((oy * ow + ow) * 4 == (oy + 1) * ow * 4) by (nonlinear_arith);
        }
        oy += 1;
    }
    proof {
        assert(oh * ow * 4 == ow * oh * 4) by (nonlinear_arith);
        assert(rgba@ =~= spec_downsample(src@, target as int).rgba);
    }
    Image { w: ow, h: oh, rgba }
}

/// The preview of a picture map: the TGA read, shrunk to the preview's width,
/// top row first.
pub open spec fn spec_picture_preview(b: Seq<u8>) -> Result<ImageView, Seq<char>> {
    match spec_tga_decode(b) {
        Err(e) => Err(e),
        Ok(v) => if v.w == 0 || v.h == 0 {
            Err("empty picture"@)
        } else {
            let d = spec_downsample(v, PREVIEW_W as int);
            Ok(ImageView { w: d.w, h: d.h, rgba: rows_flipped(d.rgba, (d.w * 4) as int, d.h as int) })
        },
    }
}

/// A small preview of a picture map's TGA.
pub fn picture_preview(bytes: &[u8]) -> (r: Result<Image, String>)
    requires
        tga_header_ok(bytes@) ==> 18 + bytes@[0] <= bytes@.len(),
        tga_header_ok(bytes@) ==> u16_at(bytes@, 12) * u16_at(bytes@, 14) * 4 <= usize::MAX,
    ensures
        match spec_picture_preview(bytes@) {
            Ok(v) => r is Ok && r->Ok_0@ == v,
            Err(e) => r is Err && r->Err_0@ == e,
        },
{
    let img = crate::tga::decode(bytes)?;
    if img.w == 0 || img.h == 0 {
        return Err(string_of("empty picture"));
    }
    proof {
        assert(img.w < 65536);
        lemma_ceil_div(img.w as int, PREVIEW_W as int);
        assert(ceil_div(img.w as int, 512) <= 128) by (nonlinear_arith)
            requires (ceil_div(img.w as int, 512) - 1) * 512 < img.w, img.w < 65536;
    }
    let mut small = downsample(&img, PREVIEW_W);
    small.flip_rows();
    Ok(small)
}


/// The name a map's card shows: its file's stem, or nothing.
pub fn name_of(path: &str) -> (s: String)
    ensures
        s@ == match file_stem(path@) {
            Some(st) => st,
            None => Seq::empty(),
        },
{
    match file_name_of(path) {
        Some(n) => {
            let (stem, _) = stem_and_ext_of(&n);
            string_from(stem.as_slice())
        },
        None => String::new(),
    }
}


/// Whether a terrain mask marks sea.
pub open spec fn is_sea(mask: i64) -> bool {
    (mask as u64) & crate::terrain::SEA != 0
}

/// The provinces of a terrain list that are sea.
pub open spec fn sea_set(t: Map<u32, i64>) -> Set<u32> {
    t.dom().filter(|p: u32| is_sea(t[p]))
}

/// How many of the provinces `ks` are sea.
spec fn sea_in(t: Map<u32, i64>, ks: Seq<u32>) -> nat
    decreases ks.len(),
{
    if ks.len() == 0 {
        0
    } else {
        sea_in(t, ks.drop_last()) + if is_sea(t[ks.last()]) {
            1nat
        } else {
            0nat
        }
    }
}

proof fn lemma_sea_in(t: Map<u32, i64>, ks: Seq<u32>)
    requires
        ks.no_duplicates(),
    ensures
        sea_in(t, ks) == ks.to_set().filter(|p: u32| is_sea(t[p])).len(),
        ks.to_set().filter(|p: u32| is_sea(t[p])).finite(),
    decreases ks.len(),
{
    let f = |p: u32| is_sea(t[p]);
    if ks.len() == 0 {
        assert(ks.to_set() =~= Set::<u32>::empty());
        assert(ks.to_set().filter(f) =~= Set::<u32>::empty());
    } else {
        let a = ks.drop_last();
        let x = ks.last();
        assert(a.no_duplicates()) by {
            assert forall|i: int, j: int| 0 <= i < a.len() && 0 <= j < a.len() && i != j implies a[i] != a[j] by {
                assert(a[i] == ks[i] && a[j] == ks[j]);
            }
        }
        lemma_sea_in(t, a);
        assert(ks.to_set() =~= a.to_set().insert(x)) by {
            assert(ks =~= a.push(x));
            assert forall|y: u32| ks.to_set().contains(y) <==> a.to_set().insert(x).contains(y) by {
                if ks.contains(y) && y != x {
                    let i = choose|i: int| 0 <= i < ks.len() && ks[i] == y;
                    assert(i != ks.len() - 1);
                    assert(a[i] == y);
                }
                if a.contains(y) {
                    let i = choose|i: int| 0 <= i < a.len() && a[i] == y;
                    assert(ks[i] == y);
                }
                if y == x {
                    assert(ks[ks.len() - 1] == x);
                }
            }
        }
        assert(!a.to_set().contains(x)) by {
            if a.contains(x) {
                let i = choose|i: int| 0 <= i < a.len() && a[i] == x;
                assert(ks[i] == ks[ks.len() - 1]);
            }
        }
        let fa = a.to_set().filter(f);
        if f(x) {
            assert(ks.to_set().filter(f) =~= fa.insert(x));
            assert(!fa.contains(x));
        } else {
            assert(ks.to_set().filter(f) =~= fa);
        }
    }
}

/// The largest number of a province in the list, or 0 where it is empty.
pub open spec fn largest_province(t: Map<u32, i64>) -> u32 {
    if t.dom().is_empty() {
        0
    } else {
        choose|k: u32| t.dom().contains(k) && forall|j: u32| #[trigger] t.dom().contains(j) ==> j <= k
    }
}

/// The kind of a map by the name of its picture: a recipe (`.d6m`), a
/// picture (`.tga`), or unknown; the name trimmed and lowercased.
pub open spec fn kind_for(imagefile: Option<Seq<char>>) -> Kind {
    match imagefile {
        Some(n) => {
            let l = lowercase(trim(n));
            if ends_with(l, ".d6m"@) {
                Kind::Recipe
            } else if ends_with(l, ".tga"@) {
                Kind::Picture
            } else {
                Kind::Unknown
            }
        },
        None => Kind::Unknown,
    }
}

/// What a map's card tells of the fields read from its file: the kind by
/// its picture's name, its size, the number of provinces (the largest
/// number listed with a terrain, or the number listed, as a `u32`, where
/// that is more),
/// how many of those listed are sea and how many land, and the planes.
pub open spec fn stats_of_fields(f: Fields, planes: usize) -> Stats {
    let listed = f.terrain.dom().len();
    let sea = sea_set(f.terrain).len();
    Stats {
        kind: kind_for(f.imagefile),
        size: f.mapsize,
        provinces: if largest_province(f.terrain) > (listed as u32) {
            largest_province(f.terrain) as usize
        } else {
            (listed as u32) as usize
        },
        sea: sea as usize,
        land: if listed >= sea {
            (listed - sea) as usize
        } else {
            0
        },
        planes,
    }
}

/// What `str::to_lowercase` makes of a text.
pub uninterp spec fn lowercase(s: Seq<char>) -> Seq<char>;

/// Lowercases a text with `str::to_lowercase`. Claimed: the result depends
/// on the text alone (`lowercase`).
#[verifier::external_body]
fn to_lower(s: &str) -> (r: String)
    ensures
        r@ == lowercase(s@),
{
    s.to_lowercase()
}

fn kind_of(imagefile: Option<&str>) -> (k: Kind)
    ensures
        k == kind_for(match imagefile {
            Some(n) => Some(n@),
            None => None,
        }),
{
    match imagefile {
        Some(name) => {
            let t = trimmed(chars_of(name).as_slice());
            let ts = string_from(t.as_slice());
            let lower = chars_of(to_lower(ts.as_str()).as_str());
            let d6m = chars_of(".d6m");
            let tga = chars_of(".tga");
            if has_suffix(lower.as_slice(), d6m.as_slice()) {
                Kind::Recipe
            } else if has_suffix(lower.as_slice(), tga.as_slice()) {
                Kind::Picture
            } else {
                Kind::Unknown
            }
        },
        None => Kind::Unknown,
    }
}

/// The sea provinces among `ks`.
spec fn sea_among(t: Map<u32, i64>, ks: Set<u32>) -> Set<u32> {
    ks.filter(|p: u32| is_sea(t[p]))
}

/// The terrain list's sea count, entry count and largest province number.
fn terrain_counts(t: &BTreeMap<u32, i64>) -> (r: (usize, usize, u32))
    ensures
        r.0 == sea_set(t@).len(),
        r.1 == t@.dom().len(),
        r.2 == largest_province(t@),
{
    broadcast use vstd::std_specs::btree::group_btree_axioms;
    let total = t.len();
    let mut n: usize = 0;
    let mut sea: usize = 0;
    let mut top: u32 = 0;
    let ghost mut seen: Set<u32> = Set::empty();
    assert(sea_among(t@, seen) =~= Set::<u32>::empty());
    for k in it: t.keys()
        invariant
            n == it.index(),
            total == t@.dom().len(),
            it.seq().len() == total,
            it.seq().unref().to_set() == t@.dom(),
            it.seq().unref().no_duplicates(),
            seen == it.seq().unref().take(n as int).to_set(),
            seen.finite(),
            seen.len() == n,
            sea == sea_among(t@, seen).len(),
            sea <= n,
            sea_among(t@, seen).finite(),
            forall|j: u32| #[trigger] seen.contains(j) ==> j <= top,
            n > 0 ==> seen.contains(top),
            n == 0 ==> top == 0,
            n == total ==> seen == t@.dom(),
    {
        let kk: u32 = *k;
        let ghost ks = it.seq().unref();
        proof {
            assert(ks[n as int] == kk);
            assert(ks.to_set().contains(kk));
            assert(!seen.contains(kk)) by {
                if seen.contains(kk) {
                    let i = choose|i: int| 0 <= i < ks.take(n as int).len() && ks.take(n as int)[i] == kk;
                    assert(ks[i] == ks[n as int]);
                }
            }
        }
        let v: i64 = match t.get(&kk) {
            Some(v) => *v,
            None => 0,
        };
        assert(v == t@[kk]);
        let ghost s0 = sea_among(t@, seen);
        if (#[verifier::truncate] (v as u64)) & crate::terrain::SEA != 0 {
            sea += 1;
        }
        if n == 0 || kk > top {
            top = kk;
        }
        n += 1;
        proof {
            let old_seen = seen;
            seen = seen.insert(kk);
            assert(ks.take(n as int) =~= ks.take(n - 1).push(kk));
            assert(seen =~= ks.take(n as int).to_set()) by {
                assert forall|y: u32| seen.contains(y) <==> ks.take(n as int).to_set().contains(y) by {
                    let tk = ks.take(n as int);
                    if y == kk {
                        assert(tk[n - 1] == kk);
                    } else if old_seen.contains(y) {
                        let tp = ks.take(n - 1);
                        let i = choose|i: int| 0 <= i < tp.len() && tp[i] == y;
                        assert(tk[i] == y);
                    }
                    if tk.contains(y) {
                        let i = choose|i: int| 0 <= i < tk.len() && tk[i] == y;
                        if i < n - 1 {
                            assert(ks.take(n - 1)[i] == y);
                        }
                    }
                }
            }
            if is_sea(t@[kk]) {
                assert(sea_among(t@, seen) =~= s0.insert(kk));
            } else {
                assert(sea_among(t@, seen) =~= s0);
            }
            if n == total {
                assert(ks.take(n as int) =~= ks);
            }
        }
    }
    proof {
        assert(seen == t@.dom());
        assert(sea_set(t@) == sea_among(t@, seen));
        if n > 0 {
            assert(!t@.dom().is_empty());
            let c = largest_province(t@);
            assert(t@.dom().contains(top) && forall|j: u32| #[trigger] t@.dom().contains(j) ==> j <= top);
            assert(t@.dom().contains(c) && forall|j: u32| #[trigger] t@.dom().contains(j) ==> j <= c);
            assert(c <= top && top <= c);
            assert(top == largest_province(t@));
        } else {
            assert(t@.dom() =~= Set::<u32>::empty());
            assert(t@.dom().is_empty());
            assert(largest_province(t@) == 0);
        }
    }
    (sea, n, top)
}


/// What a map's card tells of a map file's text, with the name of its
/// picture, trimmed, where the file names one.
pub fn stats_from_text(text: &str, path: &str, planes: usize) -> (r: (Stats, Option<String>))
    ensures
        r.0 == stats_of_fields(read_lines(map_lines(text@)), planes),
        match read_lines(map_lines(text@)).imagefile {
            Some(n) => r.1 is Some && r.1->0@ == trim(n),
            None => r.1 is None,
        },
{
    let mf = MapFile::parse(text, path);
    let name: Option<&str> = match &mf.imagefile {
        Some(s) => Some(s.as_str()),
        None => None,
    };
    let kind = kind_of(name);
    let image = match &mf.imagefile {
        Some(f) => Some(string_from(trimmed(chars_of(f.as_str()).as_slice()).as_slice())),
        None => None,
    };
    let (sea, listed, top) = terrain_counts(&mf.terrain);
    let l32 = listed as u32;
    let provinces = if top > l32 {
        top as usize
    } else {
        l32 as usize
    };
    let land = if listed >= sea {
        listed - sea
    } else {
        0
    };
    (Stats { kind, size: mf.mapsize, provinces, sea, land, planes }, image)
}


/// A path's text with each backslash turned to a slash.
pub open spec fn slashed(s: Seq<char>) -> Seq<char> {
    s.map_values(|c: char| if c == '\\' { '/' } else { c })
}

/// A map's path as shown under the root: what is left once the root is
/// taken off its front (the whole path where the root is no prefix of it),
/// with slashes for backslashes.
pub open spec fn rel_text(stripped: Option<Seq<char>>, path: Seq<char>) -> Seq<char> {
    slashed(
        match stripped {
            Some(s) => s,
            None => path,
        },
    )
}

/// Where `c` last stands in `s`.
pub open spec fn last_at(s: Seq<char>, c: char) -> Option<nat>
    decreases s.len(),
{
    if s.len() == 0 {
        None
    } else if s.last() == c {
        Some((s.len() - 1) as nat)
    } else {
        last_at(s.drop_last(), c)
    }
}

/// The folder part of a relative path: what stands before its last slash,
/// or nothing where it has none.
pub open spec fn folder_part(rel: Seq<char>) -> Seq<char> {
    match last_at(rel, '/') {
        Some(i) => rel.take(i as int),
        None => Seq::empty(),
    }
}

/// A part of a simple path: not empty, not `.` or `..`, and holding no
/// backslash and no colon.
pub open spec fn simple_part(p: Seq<char>) -> bool {
    &&& p.len() > 0
    &&& p != seq!['.']
    &&& p != seq!['.', '.']
    &&& forall|i: int| 0 <= i < p.len() ==> #[trigger] p[i] != '\\' && p[i] != ':'
}

/// A relative path written with `/` only, every part of it simple.
pub open spec fn simple_rel(s: Seq<char>) -> bool {
    forall|i: int| 0 <= i < split_on(s, '/').len() ==> #[trigger] simple_part(split_on(s, '/')[i])
}

/// A path written with `/` only: a simple relative path, or one after a
/// leading `/`.
pub open spec fn simple_path(s: Seq<char>) -> bool {
    simple_rel(s) || (s.len() > 1 && s[0] == '/' && simple_rel(s.skip(1)))
}

/// `Path::strip_prefix`: what is left of `path` once the components of
/// `root` are taken off its front, as text, where `root` is a prefix of it.
/// How a path splits into components depends on the platform's separators,
/// so only this is claimed: where both are written with `/` only, in parts
/// that are neither empty nor `.` or `..` and hold no backslash or colon,
/// and the path is the root, a `/` and a relative rest, what is left is the
/// rest: the components after the root's, as the path's text from there.
#[verifier::external_body]
fn strip_root(root: &str, path: &str) -> (r: Option<String>)
    ensures
        forall|rest: Seq<char>|
            simple_path(root@) && simple_rel(rest) && #[trigger] (root@ + "/"@ + rest) == path@
                ==> r is Some && r->0@ == rest,
{
    match std::path::Path::new(path).strip_prefix(root) {
        Ok(rest) => Some(rest.to_string_lossy().into_owned()),
        Err(_) => None,
    }
}

proof fn lemma_simple_rel_slashed(s: Seq<char>)
    requires
        simple_rel(s),
    ensures
        slashed(s) == s,
{
    assert forall|i: int| 0 <= i < s.len() implies s[i] != '\\' by {
        if s[i] == '\\' {
            lemma_in_some_part(s, i);
            let ps = split_on(s, '/');
            let (k, j) = choose|k: int, j: int|
                0 <= k < split_on(s, '/').len() && 0 <= j < split_on(s, '/')[k].len() && split_on(s, '/')[k][j]
                    == s[i];
            assert(simple_part(ps[k]));
            assert(ps[k][j] != '\\');
        }
    }
    assert(slashed(s) =~= s);
}

/// A character of a text other than `/` lies in one of its parts.
proof fn lemma_in_some_part(s: Seq<char>, i: int)
    requires
        0 <= i < s.len(),
        s[i] != '/',
    ensures
        exists|k: int, j: int|
            0 <= k < split_on(s, '/').len() && 0 <= j < split_on(s, '/')[k].len() && split_on(s, '/')[k][j]
                == s[i],
    decreases s.len(),
{
    let c = char_pos(s, '/');
    lemma_char_pos(s, '/');
    if c >= s.len() {
        assert(split_on(s, '/') == seq![s]);
        assert(split_on(s, '/')[0][i] == s[i]);
    } else if i < c {
        assert(split_on(s, '/')[0] == s.take(c as int));
        assert(split_on(s, '/')[0][i] == s[i]);
    } else {
        let t = s.skip(c as int + 1);
        assert(i != c);
        lemma_in_some_part(t, i - c - 1);
        let (k, j) = choose|k: int, j: int|
            0 <= k < split_on(t, '/').len() && 0 <= j < split_on(t, '/')[k].len() && split_on(t, '/')[k][j]
                == t[i - c - 1];
        assert(split_on(s, '/')[k + 1] == split_on(t, '/')[k]);
    }
}

/// A map's path as shown under the root, given what stripping the root off
/// the path left, if anything.
pub fn rel_from(stripped: Option<&str>, path: &str) -> (r: String)
    ensures
        r@ == rel_text(
            match stripped {
                Some(s) => Some(s@),
                None => None,
            },
            path@,
        ),
{
    let cs = match stripped {
        Some(s) => chars_of(s),
        None => chars_of(path),
    };
    let mut out: Vec<char> = Vec::new();
    let mut i: usize = 0;
    while i < cs.len()
        invariant
            i <= cs@.len(),
            out@ == slashed(cs@.take(i as int)),
        decreases cs@.len() - i,
    {
        let c = cs[i];
        out.push(if c == '\\' { '/' } else { c });
        assert(cs@.take(i + 1) =~= cs@.take(i as int).push(c));
        assert(out@ =~= slashed(cs@.take(i + 1)));
        i += 1;
    }
    assert(cs@.take(cs@.len() as int) =~= cs@);
    string_from(out.as_slice())
}

/// A map's path as shown under the root: what is left once the root is
/// taken off its front, or the whole path, with slashes for backslashes.
pub fn rel_of(root: &str, path: &str) -> (r: String)
    ensures
        exists|stripped: Option<Seq<char>>| r@ == rel_text(stripped, path@),
        forall|rest: Seq<char>|
            simple_path(root@) && simple_rel(rest) && #[trigger] (root@ + "/"@ + rest) == path@ ==> r@ == rest,
{
    let stripped = strip_root(root, path);
    let r = match &stripped {
        Some(s) => rel_from(Some(s.as_str()), path),
        None => rel_from(None, path),
    };
    proof {
        let st = match stripped {
            Some(s) => Some(s@),
            None => None,
        };
        assert(r@ == rel_text(st, path@));
        assert forall|rest: Seq<char>|
            simple_path(root@) && simple_rel(rest) && #[trigger] (root@ + "/"@ + rest) == path@ implies r@ == rest by {
            lemma_simple_rel_slashed(rest);
        }
    }
    r
}

/// The folder part of a relative path: what stands before its last slash.
pub fn folder_from(rel: &str) -> (r: String)
    ensures
        r@ == folder_part(rel@),
{
    let cs = chars_of(rel);
    let mut i: usize = cs.len();
    assert(cs@.take(i as int) =~= cs@);
    while i > 0 && cs[i - 1] != '/'
        invariant
            i <= cs@.len(),
            last_at(cs@, '/') == last_at(cs@.take(i as int), '/'),
        decreases i,
    {
        assert(cs@.take(i as int).drop_last() =~= cs@.take(i - 1));
        i -= 1;
    }
    if i == 0 {
        assert(cs@.take(0) =~= Seq::<char>::empty());
        let none: Vec<char> = Vec::new();
        return string_from(none.as_slice());
    }
    assert(cs@.take(i as int).last() == '/');
    let mut out: Vec<char> = Vec::new();
    let mut j: usize = 0;
    while j < i - 1
        invariant
            j <= i - 1,
            i <= cs@.len(),
            out@ == cs@.take(j as int),
        decreases i - 1 - j,
    {
        out.push(cs[j]);
        assert(out@ =~= cs@.take(j + 1));
        j += 1;
    }
    string_from(out.as_slice())
}

/// The folder a map lies in under the root, with slashes for backslashes;
/// nothing where it lies at the root itself.
pub fn folder_of(root: &str, path: &str) -> (r: String)
    ensures
        exists|stripped: Option<Seq<char>>| r@ == folder_part(rel_text(stripped, path@)),
        forall|rest: Seq<char>|
            simple_path(root@) && simple_rel(rest) && #[trigger] (root@ + "/"@ + rest) == path@ ==> r@
                == folder_part(rest),
{
    let rel = rel_of(root, path);
    folder_from(rel.as_str())
}

/// Whether one text sorts before or with another: character by character,
/// a text before any longer text it begins.
pub open spec fn text_le(a: Seq<char>, b: Seq<char>) -> bool
    decreases a.len(),
{
    if a.len() == 0 {
        true
    } else if b.len() == 0 {
        false
    } else if (a[0] as u32) != (b[0] as u32) {
        (a[0] as u32) < (b[0] as u32)
    } else {
        text_le(a.skip(1), b.skip(1))
    }
}

proof fn lemma_text_le_total(a: Seq<char>, b: Seq<char>)
    ensures
        text_le(a, b) || text_le(b, a),
        a == b ==> text_le(a, b),
    decreases a.len(),
{
    if a.len() > 0 && b.len() > 0 {
        if (a[0] as u32) == (b[0] as u32) {
            lemma_text_le_total(a.skip(1), b.skip(1));
            if a == b {
                assert(a.skip(1) == b.skip(1));
            }
        }
    }
}

proof fn lemma_text_le_trans(a: Seq<char>, b: Seq<char>, c: Seq<char>)
    requires
        text_le(a, b),
        text_le(b, c),
    ensures
        text_le(a, c),
    decreases a.len(),
{
    if a.len() > 0 && b.len() > 0 && c.len() > 0 && (a[0] as u32) == (b[0] as u32) && (b[0] as u32) == (c[0]
        as u32) {
        lemma_text_le_trans(a.skip(1), b.skip(1), c.skip(1));
    }
}

/// Compares two texts as `text_le` does.
fn text_le_exec(a: &[char], b: &[char]) -> (r: bool)
    ensures
        r == text_le(a@, b@),
{
    let mut i: usize = 0;
    assert(a@.skip(0) =~= a@);
    assert(b@.skip(0) =~= b@);
    while i < a.len() && i < b.len() && (a[i] as u32) == (b[i] as u32)
        invariant
            i <= a@.len(),
            i <= b@.len(),
            text_le(a@, b@) == text_le(a@.skip(i as int), b@.skip(i as int)),
        decreases a@.len() - i,
    {
        assert(a@.skip(i as int).skip(1) =~= a@.skip(i + 1));
        assert(b@.skip(i as int).skip(1) =~= b@.skip(i + 1));
        i += 1;
    }
    if i == a.len() {
        true
    } else if i == b.len() {
        false
    } else {
        (a[i] as u32) < (b[i] as u32)
    }
}

/// A path that is a simple root, a `/` and a simple relative rest.
pub open spec fn under(root: Seq<char>, p: Seq<char>) -> bool {
    simple_path(root) && p.len() > root.len() + 1 && p.take(root.len() as int) == root && p[root.len() as int]
        == '/' && simple_rel(p.skip(root.len() + 1int))
}

/// What stands after the root and its `/`.
pub open spec fn rest_under(root: Seq<char>, p: Seq<char>) -> Seq<char> {
    p.skip(root.len() + 1int)
}

/// The key that a path sorts by under a root: its rest, lowercased.
pub open spec fn order_key(root: Seq<char>, p: Seq<char>) -> Seq<char> {
    lowercase(rest_under(root, p))
}

/// Whether a keyed path sorts before another: by key, then by path.
fn keyed_before(a: &(Vec<char>, String), b: &(Vec<char>, String)) -> (r: bool)
    ensures
        r ==> !text_le(b.0@, a.0@) || a.0@ == b.0@,
        !r ==> text_le(b.0@, a.0@),
{
    if !text_le_exec(b.0.as_slice(), a.0.as_slice()) {
        true
    } else if a.0.len() == b.0.len() && has_prefix(a.0.as_slice(), b.0.as_slice()) {
        assert(a.0@.take(b.0@.len() as int) =~= a.0@);
        path_before(a.1.as_str(), b.1.as_str())
    } else {
        false
    }
}

/// The maps under a root in the order the chooser shows them: by their path
/// under the root, lowercased, then by path, each path once. Where every
/// path is written with `/` only, none is lost and no two neighbours are
/// the same; where every path is a simple root, a `/` and a simple rest,
/// the rests, lowercased, come in order.
pub fn order(root: &str, paths: &[String]) -> (r: Vec<String>)
    ensures
        r@.len() <= paths@.len(),
        forall|i: int| 0 <= i < r@.len() ==> texts_of(paths@).contains(#[trigger] texts_of(r@)[i]),
        all_simple(texts_of(paths@)) ==> forall|j: int|
            0 <= j < paths@.len() ==> texts_of(r@).contains(#[trigger] texts_of(paths@)[j]),
        all_simple(texts_of(paths@)) ==> forall|i: int|
            0 <= i < r@.len() - 1 ==> #[trigger] texts_of(r@)[i] != texts_of(r@)[i + 1],
        (forall|k: int| 0 <= k < paths@.len() ==> under(root@, #[trigger] texts_of(paths@)[k])) ==> forall|
            i: int,
            j: int,
        | 0 <= i < j < r@.len() ==> text_le(order_key(root@, #[trigger] texts_of(r@)[i]), order_key(root@, #[trigger] texts_of(r@)[j])),
{
    let ghost ps = texts_of(paths@);
    let ghost all_under = forall|k: int| 0 <= k < paths@.len() ==> under(root@, #[trigger] texts_of(paths@)[k]);
    let mut keyed: Vec<(Vec<char>, String)> = Vec::new();
    let mut i: usize = 0;
    assert(texts_of(keyed@.map_values(|e: (Vec<char>, String)| e.1)) =~= Seq::<Seq<char>>::empty());
    assert(ps.take(0) =~= Seq::<Seq<char>>::empty());
    while i < paths.len()
        invariant
            i <= paths@.len(),
            ps == texts_of(paths@),
            all_under == (forall|k: int| 0 <= k < paths@.len() ==> under(root@, #[trigger] texts_of(paths@)[k])),
            texts_of(keyed@.map_values(|e: (Vec<char>, String)| e.1)).to_multiset() == ps.take(i as int).to_multiset(),
            forall|t: int| 0 <= t < keyed@.len() ==> ps.contains(#[trigger] keyed@[t].1@),
            forall|t: int| 0 <= t < keyed@.len() ==> (all_under ==> #[trigger] keyed@[t].0@ == order_key(root@, keyed@[t].1@)),
            forall|s: int, t: int| 0 <= s < t < keyed@.len() ==> text_le(#[trigger] keyed@[s].0@, #[trigger] keyed@[t].0@),
        decreases paths@.len() - i,
    {
        let p = paths[i].as_str();
        let rel = rel_of(root, p);
        let key = chars_of(to_lower(rel.as_str()).as_str());
        proof {
            assert(ps[i as int] == p@);
            if all_under {
                assert(under(root@, ps[i as int]));
                let rest = rest_under(root@, p@);
                assert(root@ + "/"@ + rest =~= p@) by {
                    reveal_strlit("/");
                }
                assert(rel@ == rest);
            }
        }
        let e = (key, string_of(p));
        let mut q: usize = 0;
        while q < keyed.len() && !keyed_before(&e, &keyed[q])
            invariant
                q <= keyed@.len(),
                forall|t: int| 0 <= t < q ==> text_le(#[trigger] keyed@[t].0@, e.0@),
            decreases keyed@.len() - q,
        {
            q += 1;
        }
        proof {
            if q < keyed@.len() {
                lemma_text_le_total(e.0@, keyed@[q as int].0@);
                assert(text_le(e.0@, keyed@[q as int].0@));
            }
        }
        let ghost old_keyed = keyed@;
        keyed.insert(q, e);
        proof {
            let ev = e;
            assert forall|s: int, t: int| 0 <= s < t < keyed@.len() implies text_le(
                #[trigger] keyed@[s].0@,
                #[trigger] keyed@[t].0@,
            ) by {
                if t < q {
                    assert(keyed@[s] == old_keyed[s] && keyed@[t] == old_keyed[t]);
                } else if t == q {
                    assert(keyed@[s] == old_keyed[s]);
                } else if s > q {
                    assert(keyed@[s] == old_keyed[s - 1] && keyed@[t] == old_keyed[t - 1]);
                } else if s == q {
                    assert(keyed@[t] == old_keyed[t - 1]);
                    if t - 1 > q {
                        lemma_text_le_trans(e.0@, old_keyed[q as int].0@, old_keyed[t - 1].0@);
                    }
                } else {
                    assert(keyed@[s] == old_keyed[s] && keyed@[t] == old_keyed[t - 1]);
                    assert(text_le(old_keyed[s].0@, e.0@));
                    if t - 1 > q {
                        lemma_text_le_trans(e.0@, old_keyed[q as int].0@, old_keyed[t - 1].0@);
                    }
                    lemma_text_le_trans(old_keyed[s].0@, e.0@, old_keyed[t - 1].0@);
                }
            }
            assert(keyed@.map_values(|x: (Vec<char>, String)| x.1) =~= old_keyed.map_values(
                |x: (Vec<char>, String)| x.1,
            ).insert(q as int, e.1));
            assert(texts_of(keyed@.map_values(|x: (Vec<char>, String)| x.1)) =~= texts_of(
                old_keyed.map_values(|x: (Vec<char>, String)| x.1),
            ).insert(q as int, p@));
            vstd::seq_lib::to_multiset_insert(
                texts_of(old_keyed.map_values(|x: (Vec<char>, String)| x.1)),
                q as int,
                p@,
            );
            assert(ps.take(i + 1) =~= ps.take(i as int).push(p@));
            vstd::seq_lib::to_multiset_build(ps.take(i as int), p@);
            assert forall|t: int| 0 <= t < keyed@.len() implies ps.contains(#[trigger] keyed@[t].1@) by {
                if t < q {
                    assert(keyed@[t] == old_keyed[t]);
                } else if t > q {
                    assert(keyed@[t] == old_keyed[t - 1]);
                } else {
                    assert(ps[i as int] == p@);
                }
            }
            assert forall|t: int| 0 <= t < keyed@.len() implies (all_under ==> #[trigger] keyed@[t].0@
                == order_key(root@, keyed@[t].1@)) by {
                if t < q {
                    assert(keyed@[t] == old_keyed[t]);
                } else if t > q {
                    assert(keyed@[t] == old_keyed[t - 1]);
                }
            }
        }
        i += 1;
    }
    assert(ps.take(paths@.len() as int) =~= ps);
    let ghost names = texts_of(keyed@.map_values(|e: (Vec<char>, String)| e.1));
    let mut out: Vec<String> = Vec::new();
    let ghost mut last: int = 0;
    let mut k: usize = 0;
    while k < keyed.len()
        invariant
            k <= keyed@.len(),
            ps == texts_of(paths@),
            names == texts_of(keyed@.map_values(|e: (Vec<char>, String)| e.1)),
            names.to_multiset() == ps.to_multiset(),
            all_under == (forall|k: int| 0 <= k < paths@.len() ==> under(root@, #[trigger] texts_of(paths@)[k])),
            forall|t: int| 0 <= t < keyed@.len() ==> ps.contains(#[trigger] keyed@[t].1@),
            forall|t: int| 0 <= t < keyed@.len() ==> (all_under ==> #[trigger] keyed@[t].0@ == order_key(root@, keyed@[t].1@)),
            forall|s: int, t: int| 0 <= s < t < keyed@.len() ==> text_le(#[trigger] keyed@[s].0@, #[trigger] keyed@[t].0@),
            out@.len() <= k,
            out@.len() > 0 ==> 0 <= last < k && out@.last()@ == keyed@[last].1@,
            forall|t: int| 0 <= t < out@.len() ==> ps.contains(#[trigger] texts_of(out@)[t]),
            all_simple(ps) ==> forall|t: int| 0 <= t < k ==> texts_of(out@).contains(#[trigger] names[t]),
            all_simple(ps) ==> forall|t: int| 0 <= t < out@.len() - 1 ==> #[trigger] texts_of(out@)[t] != texts_of(out@)[t + 1],
            all_under ==> forall|s: int, t: int|
                0 <= s < t < out@.len() ==> text_le(order_key(root@, #[trigger] texts_of(out@)[s]), order_key(root@, #[trigger] texts_of(out@)[t])),
            all_under && out@.len() > 0 ==> forall|s: int| 0 <= s < out@.len() ==> text_le(order_key(root@, #[trigger] texts_of(out@)[s]), keyed@[last].0@),
        decreases keyed@.len() - k,
    {
        let cur = keyed[k].1.as_str();
        let ghost before = out@;
        proof {
            assert(names[k as int] == cur@);
        }
        let keep = if out.len() == 0 {
            true
        } else {
            let n = out.len();
            !same_path(out[n - 1].as_str(), cur)
        };
        if keep {
            out.push(string_of(cur));
            proof {
                assert(texts_of(out@) =~= texts_of(before).push(cur@));
                if all_under && before.len() > 0 {
                    assert(text_le(keyed@[last].0@, keyed@[k as int].0@));
                }
                if all_under {
                    assert forall|s: int| 0 <= s < out@.len() implies text_le(order_key(root@, #[trigger] texts_of(out@)[s]), keyed@[k as int].0@) by {
                        if s < before.len() {
                            assert(texts_of(out@)[s] == texts_of(before)[s]);
                            lemma_text_le_trans(order_key(root@, texts_of(before)[s]), keyed@[last].0@, keyed@[k as int].0@);
                        } else {
                            lemma_text_le_total(keyed@[k as int].0@, keyed@[k as int].0@);
                        }
                    }
                }
                if all_simple(ps) && before.len() > 0 {
                    assert(ps.contains(texts_of(before)[before.len() - 1]));
                    assert(ps.contains(cur@));
                    let a = choose|x: int| 0 <= x < ps.len() && ps[x] == texts_of(before)[before.len() - 1];
                    let b = choose|x: int| 0 <= x < ps.len() && ps[x] == cur@;
                    assert(simple_path(ps[a]) && simple_path(ps[b]));
                }
                assert forall|t: int| 0 <= t < out@.len() implies ps.contains(#[trigger] texts_of(out@)[t]) by {
                    if t < before.len() {
                        assert(texts_of(out@)[t] == texts_of(before)[t]);
                    }
                }
                if all_simple(ps) {
                    assert forall|t: int| 0 <= t < k + 1 implies texts_of(out@).contains(#[trigger] names[t]) by {
                        if t < k {
                            let x = choose|x: int| 0 <= x < texts_of(before).len() && texts_of(before)[x] == names[t];
                            assert(texts_of(out@)[x] == names[t]);
                        } else {
                            assert(texts_of(out@)[before.len() as int] == names[t]);
                        }
                    }
                }
                last = k as int;
            }
        } else {
            proof {
                if all_simple(ps) {
                    let n = before.len() - 1;
                    assert(ps.contains(texts_of(before)[n]));
                    assert(ps.contains(cur@));
                    let a = choose|x: int| 0 <= x < ps.len() && ps[x] == texts_of(before)[n];
                    let b = choose|x: int| 0 <= x < ps.len() && ps[x] == cur@;
                    assert(simple_path(ps[a]) && simple_path(ps[b]));
                    assert(texts_of(before)[n] == cur@);
                    assert forall|t: int| 0 <= t < k + 1 implies texts_of(out@).contains(#[trigger] names[t]) by {
                        if t == k {
                            assert(texts_of(out@)[n] == names[t]);
                        }
                    }
                }
            }
        }
        k += 1;
    }
    proof {
        ps.to_multiset_ensures();
        names.to_multiset_ensures();
        assert(names.len() == keyed@.len());
        if all_simple(ps) {
            assert forall|j: int| 0 <= j < paths@.len() implies texts_of(out@).contains(#[trigger] texts_of(paths@)[j]) by {
                ps.to_multiset_ensures();
                names.to_multiset_ensures();
                assert(ps.contains(ps[j]));
                assert(ps.to_multiset().count(ps[j]) > 0);
                assert(names.to_multiset().count(ps[j]) > 0);
                assert(names.contains(ps[j]));
                let t = choose|t: int| 0 <= t < names.len() && names[t] == ps[j];
                assert(names.len() == keyed@.len());
            }
        }
    }
    out
}


/// What a map's card tells of a map file's bytes, taken as UTF-8 with what
/// is not UTF-8 replaced, with the name of its picture, trimmed.
pub fn stats_from_bytes(bytes: &[u8], path: &str, planes: usize) -> (r: (Stats, Option<String>))
    ensures
        r.0 == stats_of_fields(read_lines(map_lines(lossy_utf8(bytes@))), planes),
        match read_lines(map_lines(lossy_utf8(bytes@))).imagefile {
            Some(n) => r.1 is Some && r.1->0@ == trim(n),
            None => r.1 is None,
        },
{
    let text = crate::wire::string_from_utf8_lossy(bytes);
    stats_from_text(text.as_str(), path, planes)
}


/// The step a map's height field is sampled at for its rendered preview:
/// the width over twice the preview's, rounded up, at least 1.
pub open spec fn sample_step(w: int) -> int {
    let s = ceil_div(w, (PREVIEW_W * 2) as int);
    if s > 1 {
        s
    } else {
        1
    }
}

/// The pixel of a `w` by `h` field that sample `k` of a grid `ow` wide
/// takes, every `step` pixels each way, the last row and column where the
/// grid runs past them.
pub open spec fn sample_index(w: int, h: int, step: int, ow: int, k: int) -> int {
    min_n((k / ow) * step, h - 1) * w + min_n((k % ow) * step, w - 1)
}

/// The values at the points of a sampling grid `ow` by `oh`, row after row.
pub open spec fn samples_of(v: Seq<i16>, w: int, h: int, ow: int, oh: int) -> Seq<i16> {
    Seq::new((ow * oh) as nat, |k: int| v[sample_index(w, h, sample_step(w), ow, k)])
}

/// The samples of a field for the rendered preview: the grid's width and
/// height, and the heights and owners at its points, row after row.
pub fn preview_samples(w: usize, h: usize, heights: &[i16], owners: &[i16]) -> (r: (usize, usize, Vec<i16>, Vec<i16>))
    requires
        w > 0,
        h > 0,
        heights@.len() >= w * h,
        owners@.len() >= w * h,
    ensures
        r.0 == ceil_div(w as int, sample_step(w as int)),
        r.1 == ceil_div(h as int, sample_step(w as int)),
        r.2@ == samples_of(heights@, w as int, h as int, r.0 as int, r.1 as int),
        r.3@ == samples_of(owners@, w as int, h as int, r.0 as int, r.1 as int),
{
    let _nh = heights.len();
    let s0 = crate::generator_panel::div_ceil_usize(w, PREVIEW_W * 2);
    let step = if s0 > 1 { s0 } else { 1 };
    proof {
        lemma_ceil_div(w as int, (PREVIEW_W * 2) as int);
        lemma_ceil_div(w as int, step as int);
        lemma_ceil_div(h as int, step as int);
        assert(w * h <= usize::MAX);
        assert(h <= w * h) by (nonlinear_arith)
            requires w >= 1, h >= 1;
    }
    let ow = crate::generator_panel::div_ceil_usize(w, step);
    let oh = crate::generator_panel::div_ceil_usize(h, step);
    let ghost st = step as int;
    proof {
        assert(step <= w);
        assert(ow * oh <= w * h) by (nonlinear_arith)
            requires ow <= w, oh <= h, ow >= 0, oh >= 0;
    }
    let mut hs: Vec<i16> = Vec::new();
    let mut os: Vec<i16> = Vec::new();
    let mut oy: usize = 0;
    while oy < oh
        invariant
            oy <= oh,
            ow >= 1,
            1 <= step <= w,
            st == step,
            step == sample_step(w as int),
            ow == ceil_div(w as int, st),
            oh == ceil_div(h as int, st),
            (ow - 1) * st < w,
            (oh - 1) * st < h,
            ow * oh <= w * h,
            w * h <= usize::MAX,
            heights@.len() >= w * h,
            owners@.len() >= w * h,
            hs@.len() == oy * ow,
            os@.len() == oy * ow,
            forall|k: int|
                0 <= k < hs@.len() ==> #[trigger] hs@[k] == heights@[sample_index(w as int, h as int, st, ow as int, k)],
            forall|k: int|
                0 <= k < os@.len() ==> #[trigger] os@[k] == owners@[sample_index(w as int, h as int, st, ow as int, k)],
        decreases oh - oy,
    {
        proof {
            assert(oy * st <= (oh - 1) * st) by (nonlinear_arith)
                requires oy <= oh - 1, st >= 0;
        }
        let ry = if oy * step < h - 1 { oy * step } else { h - 1 };
        proof {
            assert(ry * w <= (h - 1) * w) by (nonlinear_arith)
                requires ry <= h - 1, w >= 0;
            assert((h - 1) * w + w == w * h) by (nonlinear_arith);
        }
        let mut ox: usize = 0;
        while ox < ow
            invariant
                ox <= ow,
                oy < oh,
                ow >= 1,
                1 <= step <= w,
                st == step,
                (ow - 1) * st < w,
                ry == min_n(oy * st, h - 1),
                ry <= h - 1,
                ry * w + w <= w * h,
                w * h <= usize::MAX,
                heights@.len() >= w * h,
                owners@.len() >= w * h,
                hs@.len() == oy * ow + ox,
                os@.len() == oy * ow + ox,
                forall|k: int|
                    0 <= k < hs@.len() ==> #[trigger] hs@[k] == heights@[sample_index(w as int, h as int, st, ow as int, k)],
                forall|k: int|
                    0 <= k < os@.len() ==> #[trigger] os@[k] == owners@[sample_index(w as int, h as int, st, ow as int, k)],
            decreases ow - ox,
        {
            proof {
                assert(ox * st <= (ow - 1) * st) by (nonlinear_arith)
                    requires ox <= ow - 1, st >= 0;
            }
            let rx = if ox * step < w - 1 { ox * step } else { w - 1 };
            let i = ry * w + rx;
            proof {
                let k = (oy * ow + ox) as int;
                vstd::arithmetic::div_mod::lemma_fundamental_div_mod_converse(k, ow as int, oy as int, ox as int);
                assert(sample_index(w as int, h as int, st, ow as int, k) == i);
            }
            hs.push(heights[i]);
            os.push(owners[i]);
            ox += 1;
        }
        proof {
            assert(oy * ow + ow == (oy + 1) * ow) by (nonlinear_arith);
        }
        oy += 1;
    }
    proof {
        assert(oh * ow == ow * oh) by (nonlinear_arith);
        assert(st == sample_step(w as int));
        assert(hs@ =~= samples_of(heights@, w as int, h as int, ow as int, oh as int));
        assert(os@ =~= samples_of(owners@, w as int, h as int, ow as int, oh as int));
    }
    (ow, oh, hs, os)
}

/// The box around the owned pixels of a grid `ow` wide, counted with the
/// bottom row first as `y` 0 (the rows of the grid run top down), or
/// nothing where no pixel is owned: the least and greatest `x` and `y`.
pub fn owned_box(ow: usize, oh: usize, owners: &[i16]) -> (r: Option<(usize, usize, usize, usize)>)
    requires
        owners@.len() == ow * oh,
    ensures
        match r {
            None => forall|i: int| 0 <= i < owners@.len() ==> owners@[i] <= 0,
            Some((x0, y0, x1, y1)) => {
                &&& forall|i: int|
                    0 <= i < owners@.len() && owners@[i] > 0 ==> x0 <= i % (ow as int) <= x1 && y0 <= oh - 1 - i
                        / (ow as int) <= y1
                &&& exists|i: int| 0 <= i < owners@.len() && owners@[i] > 0 && i % (ow as int) == x0
                &&& exists|i: int| 0 <= i < owners@.len() && owners@[i] > 0 && i % (ow as int) == x1
                &&& exists|i: int| 0 <= i < owners@.len() && owners@[i] > 0 && oh - 1 - i / (ow as int) == y0
                &&& exists|i: int| 0 <= i < owners@.len() && owners@[i] > 0 && oh - 1 - i / (ow as int) == y1
            },
        },
{
    let mut found = false;
    let mut x0: usize = 0;
    let mut y0: usize = 0;
    let mut x1: usize = 0;
    let mut y1: usize = 0;
    let n = owners.len();
    let mut i: usize = 0;
    while i < n
        invariant
            i <= n,
            n == owners@.len(),
            n == ow * oh,
            !found ==> forall|j: int| 0 <= j < i ==> owners@[j] <= 0,
            found ==> {
                &&& forall|j: int|
                    0 <= j < i && owners@[j] > 0 ==> x0 <= j % (ow as int) <= x1 && y0 <= oh - 1 - j / (ow as int)
                        <= y1
                &&& exists|j: int| 0 <= j < i && owners@[j] > 0 && j % (ow as int) == x0
                &&& exists|j: int| 0 <= j < i && owners@[j] > 0 && j % (ow as int) == x1
                &&& exists|j: int| 0 <= j < i && owners@[j] > 0 && oh - 1 - j / (ow as int) == y0
                &&& exists|j: int| 0 <= j < i && owners@[j] > 0 && oh - 1 - j / (ow as int) == y1
            },
        decreases n - i,
    {
        if owners[i] > 0 {
            proof {
                assert(ow > 0) by (nonlinear_arith)
                    requires i < ow * oh, i >= 0;
                assert(i / ow < oh) by (nonlinear_arith)
                    requires i < ow * oh, ow > 0;
            }
            let x = i % ow;
            let y = oh - 1 - i / ow;
            if !found {
                x0 = x;
                x1 = x;
                y0 = y;
                y1 = y;
                found = true;
            } else {
                if x < x0 {
                    x0 = x;
                }
                if x > x1 {
                    x1 = x;
                }
                if y < y0 {
                    y0 = y;
                }
                if y > y1 {
                    y1 = y;
                }
            }
        }
        i += 1;
    }
    if found {
        Some((x0, y0, x1, y1))
    } else {
        None
    }
}


/// The kind bits a border list looks for: carved borders (rivers, 0),
/// mountain passes and lines (1), bridges (2).
pub open spec fn border_mask(kind: u8) -> u64 {
    if kind == 0 {
        crate::terrain::BORDER_CARVED
    } else if kind == 1 {
        crate::terrain::BORDER_MOUNTAIN_PASS | crate::terrain::BORDER_MOUNTAIN_LINE
    } else {
        crate::terrain::BORDER_BRIDGE
    }
}

/// A border the preview draws: between two provinces `a < b` of the map's
/// `n`, neither of them unknown.
pub open spec fn drawn_border(flags: Seq<u64>, n: int, a: u32, b: u32) -> bool {
    &&& a != 0 && b != 0 && a <= n && b <= n && a < b
    &&& (flags[a as int] | flags[b as int]) & crate::terrain::UNKNOWN == 0
}

/// A border's kind as the map gives it, 0 where it gives none.
pub open spec fn border_spec(f: Fields, a: u32, b: u32) -> i64 {
    if f.specs.contains_key(crate::mapfile::pair(a, b)) {
        f.specs[crate::mapfile::pair(a, b)]
    } else {
        0
    }
}

/// The drawn borders among `nb` whose kind has a bit of the list's, in order.
pub open spec fn border_list(flags: Seq<u64>, n: int, f: Fields, nb: Seq<(u32, u32)>, kind: u8) -> Seq<(u32, u32)>
    decreases nb.len(),
{
    if nb.len() == 0 {
        Seq::empty()
    } else {
        let r = border_list(flags, n, f, nb.drop_last(), kind);
        let (a, b) = nb.last();
        if drawn_border(flags, n, a, b) && (border_spec(f, a, b) as u64) & border_mask(kind) != 0 {
            r.push((a, b))
        } else {
            r
        }
    }
}

/// The borders the rendered preview draws as rivers, mountain lines and
/// bridges: of the map's neighbours, in order, those between two of its
/// `n` provinces, the lesser first, neither of them unknown, by the bits of
/// their kind.
pub fn preview_borders(flags: &[u64], n: usize, m: &MapFile) -> (r: (Vec<(u32, u32)>, Vec<(u32, u32)>, Vec<(u32, u32)>))
    requires
        flags@.len() == n + 1,
    ensures
        r.0@ == border_list(flags@, n as int, m.fields(), m.fields().neighbours, 0),
        r.1@ == border_list(flags@, n as int, m.fields(), m.fields().neighbours, 1),
        r.2@ == border_list(flags@, n as int, m.fields(), m.fields().neighbours, 2),
{
    let ghost f = m.fields();
    let ghost nb = f.neighbours;
    let mut rivers: Vec<(u32, u32)> = Vec::new();
    let mut lines: Vec<(u32, u32)> = Vec::new();
    let mut bridges: Vec<(u32, u32)> = Vec::new();
    let mut k: usize = 0;
    assert(nb.take(0) =~= Seq::<(u32, u32)>::empty());
    while k < m.neighbours.len()
        invariant
            k <= nb.len(),
            nb == m.neighbours@,
            f == m.fields(),
            flags@.len() == n + 1,
            rivers@ == border_list(flags@, n as int, f, nb.take(k as int), 0),
            lines@ == border_list(flags@, n as int, f, nb.take(k as int), 1),
            bridges@ == border_list(flags@, n as int, f, nb.take(k as int), 2),
        decreases nb.len() - k,
    {
        let (a, b) = m.neighbours[k];
        proof {
            let t = nb.take(k + 1);
            assert(t.drop_last() =~= nb.take(k as int));
            assert(t.last() == nb[k as int]);
        }
        if a != 0 && b != 0 && (a as usize) <= n && (b as usize) <= n && a < b {
            if (flags[a as usize] | flags[b as usize]) & crate::terrain::UNKNOWN == 0 {
                let spec = m.spec_between(a, b);
                let bits = spec as u64;
                if bits & crate::terrain::BORDER_CARVED != 0 {
                    rivers.push((a, b));
                }
                if bits & (crate::terrain::BORDER_MOUNTAIN_PASS | crate::terrain::BORDER_MOUNTAIN_LINE) != 0 {
                    lines.push((a, b));
                }
                if bits & crate::terrain::BORDER_BRIDGE != 0 {
                    bridges.push((a, b));
                }
            }
        }
        k += 1;
    }
    assert(nb.take(nb.len() as int) =~= nb);
    (rivers, lines, bridges)
}

} // verus!
