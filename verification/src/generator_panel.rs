//! The map generator's form: names and seeds of new maps, the province
//! counts per player, previews of blueprint images, and the planes that
//! come back from the generator.
use vstd::prelude::*;
use crate::blueprint_editor::{Blueprint, BlueprintView};
use crate::wire::{Options, OptionsView};
use crate::text::{decimal, push_decimal, string_of, chars_of, signed_decimal, push_signed, push_str, trim, trimmed, string_from};

verus! {

/// The sizes offered for provinces per player, with their names.
pub const PER_PLAYER: [(i32, &'static str); 3] = [(10, "Small"), (15, "Medium"), (20, "Large")];

/// The per-player count that stands for a number typed in by hand.
pub const CUSTOM_PER_PLAYER: i32 = 12;

/// One plane of a generated map: its `.d6m` image, its `.map` text, its size
/// and how many provinces it has.
#[derive(Clone, Debug, PartialEq)]
pub struct GeneratedPlane {
    pub d6m: Vec<u8>,
    pub map_text: String,
    pub width: i32,
    pub height: i32,
    pub provinces: usize,
}

/// The name a new map gets from its seed.
pub fn default_name(seed: u32) -> (s: String)
    ensures
        s@ == "random_"@ + decimal(seed as nat),
{
    let mut s = string_of("random_");
    push_decimal(&mut s, seed as u64);
    s
}

/// A character allowed in a map's name: an ASCII letter or digit, `_` or `-`.
pub open spec fn name_char(c: char) -> bool {
    ('a' <= c <= 'z') || ('A' <= c <= 'Z') || ('0' <= c <= '9') || c == '_' || c == '-'
}

/// Whether a name can be a map's file name: not empty, and only letters,
/// digits, `_` and `-`.
pub fn name_is_usable(name: &str) -> (b: bool)
    ensures
        b == (name@.len() > 0 && forall|i: int| 0 <= i < name@.len() ==> name_char(#[trigger] name@[i])),
{
    let cs = chars_of(name);
    if cs.len() == 0 {
        return false;
    }
    let mut i: usize = 0;
    while i < cs.len()
        invariant
            i <= cs@.len(),
            cs@ == name@,
            forall|j: int| 0 <= j < i ==> name_char(#[trigger] name@[j]),
        decreases cs@.len() - i,
    {
        let c = cs[i];
        if !(('a' <= c && c <= 'z') || ('A' <= c && c <= 'Z') || ('0' <= c && c <= '9') || c == '_' || c == '-') {
            return false;
        }
        i += 1;
    }
    true
}

/// Whether a per-player count is one of the offered sizes.
pub fn per_player_is_preset(v: i32) -> (b: bool)
    ensures
        b == (v == 10 || v == 15 || v == 20),
{
    let mut i: usize = 0;
    while i < 3
        invariant
            i <= 3,
            forall|j: int| 0 <= j < i ==> PER_PLAYER@[j].0 != v,
        decreases 3 - i,
    {
        if PER_PLAYER[i].0 == v {
            return true;
        }
        i += 1;
    }
    false
}

/// The seed made from a time in nanoseconds: a mixing of its bits, kept to 31 bits.
pub open spec fn seed_from_nanos(t: u64) -> u32 {
    let x0 = t ^ 0x9e37_79b9_7f4a_7c15u64;
    let x1 = x0 ^ (x0 >> 30u64);
    let x2 = x1.wrapping_mul(0xbf58_476d_1ce4_e5b9u64);
    let x3 = x2 ^ (x2 >> 27u64);
    let x4 = x3.wrapping_mul(0x94d0_49bb_1331_11ebu64);
    let x5 = x4 ^ (x4 >> 31u64);
    (x5 as u32) & 0x7fff_ffffu32
}

/// The seed made from a time in nanoseconds.
pub fn mix_seed(t: u64) -> (s: u32)
    ensures
        s == seed_from_nanos(t),
        s <= 0x7fff_ffff,
{
    let mut x = t ^ 0x9e37_79b9_7f4a_7c15u64;
    x ^= x >> 30u64;
    x = x.wrapping_mul(0xbf58_476d_1ce4_e5b9u64);
    x ^= x >> 27u64;
    x = x.wrapping_mul(0x94d0_49bb_1331_11ebu64);
    x ^= x >> 31u64;
    let s = (x as u32) & 0x7fff_ffffu32;
    assert(s <= 0x7fff_ffff) by (bit_vector)
        requires s == (x as u32) & 0x7fff_ffffu32;
    s
}

/// The nanoseconds since the Unix epoch by the system clock
/// (`SystemTime::now`, `duration_since(UNIX_EPOCH)`, `Duration::as_nanos`),
/// cut to 64 bits, or zero for a clock set before the epoch. Nothing is
/// claimed of the value: it is the time.
#[verifier::external_body]
fn nanos_now() -> (t: u64) {
    match std::time::SystemTime::now().duration_since(std::time::UNIX_EPOCH) {
        Ok(d) => d.as_nanos() as u64,
        Err(_) => 0,
    }
}

/// A fresh seed from the clock, of at most 31 bits: the seed made from the
/// time read, whatever time that was.
pub fn random_seed() -> (s: u32)
    ensures
        s <= 0x7fff_ffff,
        exists|t: u64| s == seed_from_nanos(t),
{
    let t = nanos_now();
    let s = mix_seed(t);
    assert(s == seed_from_nanos(t));
    s
}

/// A quotient rounded up.
pub open spec fn ceil_div(a: int, b: int) -> int {
    if a % b == 0 {
        a / b
    } else {
        a / b + 1
    }
}

/// A quotient rounded up is the least multiple count that covers the dividend.
pub proof fn lemma_ceil_div(a: int, b: int)
    requires
        a >= 0,
        b >= 1,
    ensures
        ceil_div(a, b) * b >= a,
        (ceil_div(a, b) - 1) * b < a,
        0 <= ceil_div(a, b) <= a,
        a >= 1 ==> ceil_div(a, b) >= 1,
{
    vstd::arithmetic::div_mod::lemma_fundamental_div_mod(a, b);
    let q = a / b;
    let r = a % b;
    assert(a == b * q + r);
    assert(0 <= r < b);
    assert(q >= 0) by (nonlinear_arith)
        requires a == b * q + r, 0 <= r < b, a >= 0, b >= 1;
    assert(q * b <= a) by (nonlinear_arith)
        requires a == b * q + r, r >= 0;
    assert(q <= a) by (nonlinear_arith)
        requires q * b <= a, b >= 1, q >= 0;
    if r == 0 {
        assert(q * b == a) by (nonlinear_arith)
            requires a == b * q + r, r == 0;
        assert((q - 1) * b < a) by (nonlinear_arith)
            requires q * b == a, b >= 1;
    } else {
        assert((q + 1) * b >= a) by (nonlinear_arith)
            requires a == b * q + r, r < b;
        assert(q * b < a) by (nonlinear_arith)
            requires a == b * q + r, r > 0;
        assert(q + 1 <= a) by (nonlinear_arith)
            requires q * b < a, b >= 1, q >= 0;
    }
}

/// A quotient rounded up.
pub fn div_ceil_usize(a: usize, b: usize) -> (q: usize)
    requires
        b >= 1,
    ensures
        q == ceil_div(a as int, b as int),
{
    if a % b == 0 {
        a / b
    } else {
        proof {
            assert(b >= 2);
            assert(a / b <= a / 2) by (nonlinear_arith)
                requires b >= 2;
        }
        a / b + 1
    }
}

/// The step between the pixels a preview takes: the larger side over the
/// allowed side, rounded up, and at least one.
pub open spec fn preview_step(sw: int, sh: int, max_side: int) -> int {
    let big = if sw > sh {
        sw
    } else {
        sh
    };
    let m = if max_side > 1 {
        max_side
    } else {
        1
    };
    let s = ceil_div(big, m);
    if s > 1 {
        s
    } else {
        1
    }
}

/// Pixel `i` of a preview `w` pixels wide: the blueprint's pixel it falls on,
/// in red-green-blue-alpha order, or opaque black past the blueprint's bytes.
pub open spec fn preview_byte(bgra: Seq<u8>, sw: int, sh: int, step: int, w: int, i: int) -> u8 {
    let x = (i / 4) % w;
    let y = (i / 4) / w;
    let sy = if y * step < sh - 1 {
        y * step
    } else {
        sh - 1
    };
    let sx = if x * step < sw - 1 {
        x * step
    } else {
        sw - 1
    };
    let p = (sy * sw + sx) * 4;
    let c = i % 4;
    if p + 3 < bgra.len() {
        if c == 0 {
            bgra[p + 2]
        } else if c == 2 {
            bgra[p]
        } else {
            bgra[p + c]
        }
    } else if c == 3 {
        255
    } else {
        0
    }
}

/// The side of a blueprint, at least one.
pub open spec fn side(n: i32) -> int {
    if n > 1 {
        n as int
    } else {
        1
    }
}

proof fn lemma_preview_index(w: int, x: int, y: int, c: int)
    requires
        w >= 1,
        0 <= x < w,
        y >= 0,
        0 <= c < 4,
    ensures
        ((y * w + x) * 4 + c) / 4 % w == x,
        ((y * w + x) * 4 + c) / 4 / w == y,
        ((y * w + x) * 4 + c) % 4 == c,
{
    vstd::arithmetic::div_mod::lemma_fundamental_div_mod_converse((y * w + x) * 4 + c, 4, y * w + x, c);
    vstd::arithmetic::div_mod::lemma_fundamental_div_mod_converse(y * w + x, w, y, x);
}

/// A small copy of a blueprint image for the form: every `step`-th pixel each
/// way, so that no side exceeds `max_side`, in red-green-blue-alpha order.
pub fn preview_image(image: &Blueprint, max_side: usize) -> (r: (usize, usize, Vec<u8>))
    requires
        side(image.w) * side(image.h) * 4 <= usize::MAX,
    ensures
        ({
            let sw = side(image.w);
            let sh = side(image.h);
            let step = preview_step(sw, sh, max_side as int);
            &&& r.0 == ceil_div(sw, step)
            &&& r.1 == ceil_div(sh, step)
            &&& r.2@.len() == r.0 * r.1 * 4
            &&& forall|i: int|
                0 <= i < r.2@.len() ==> #[trigger] r.2@[i] == preview_byte(
                    image.bgra@,
                    sw,
                    sh,
                    step,
                    r.0 as int,
                    i,
                )
        }),
{
    let sw: usize = if image.w > 1 { image.w as usize } else { 1 };
    let sh: usize = if image.h > 1 { image.h as usize } else { 1 };
    let big = if sw > sh { sw } else { sh };
    let m = if max_side > 1 { max_side } else { 1 };
    let s0 = div_ceil_usize(big, m);
    let step = if s0 > 1 { s0 } else { 1 };
    proof {
        assert(step <= big) by (nonlinear_arith)
            requires step == (if s0 > 1 { s0 as int } else { 1 }), s0 == ceil_div(big as int, m as int), m >= 1, big >= 1;
    }
    let w = div_ceil_usize(sw, step);
    let h = div_ceil_usize(sh, step);
    proof {
        assert(w >= 1 && h >= 1) by (nonlinear_arith)
            requires w == ceil_div(sw as int, step as int), h == ceil_div(sh as int, step as int), step >= 1, sw >= 1, sh >= 1;
        assert(w <= sw && h <= sh) by (nonlinear_arith)
            requires w == ceil_div(sw as int, step as int), h == ceil_div(sh as int, step as int), step >= 1, sw >= 1, sh >= 1;
        assert(w * h * 4 <= sw * sh * 4) by (nonlinear_arith)
            requires w <= sw, h <= sh, w >= 0, h >= 0;
        assert((w - 1) * step < sw) by (nonlinear_arith)
            requires w == ceil_div(sw as int, step as int), step >= 1, sw >= 1;
        assert((h - 1) * step < sh) by (nonlinear_arith)
            requires h == ceil_div(sh as int, step as int), step >= 1, sh >= 1;
    }
    let n = image.bgra.len();
    let mut rgba: Vec<u8> = Vec::new();
    let mut y: usize = 0;
    while y < h
        invariant
            sw >= 1,
            sh >= 1,
            step >= 1,
            w >= 1,
            w * h * 4 <= sw * sh * 4,
            sw * sh * 4 <= usize::MAX,
            (w - 1) * step < sw,
            (h - 1) * step < sh,
            n == image.bgra@.len(),
            y <= h,
            rgba@.len() == y * w * 4,
            forall|i: int| 0 <= i < rgba@.len() ==> #[trigger] rgba@[i] == preview_byte(image.bgra@, sw as int, sh as int, step as int, w as int, i),
        decreases h - y,
    {
        proof {
            assert(y * step < sh) by (nonlinear_arith)
                requires y < h, (h - 1) * step < sh, step >= 1;
        }
        let sy = if y * step < sh - 1 { y * step } else { sh - 1 };
        let mut x: usize = 0;
        while x < w
            invariant
                sw >= 1,
                sh >= 1,
                step >= 1,
                w >= 1,
                w * h * 4 <= sw * sh * 4,
                sw * sh * 4 <= usize::MAX,
                (w - 1) * step < sw,
                y < h,
                sy == (if y * step < sh - 1 { y * step } else { sh - 1 }),
                sy < sh,
                n == image.bgra@.len(),
                x <= w,
                rgba@.len() == (y * w + x) * 4,
                forall|i: int| 0 <= i < rgba@.len() ==> #[trigger] rgba@[i] == preview_byte(image.bgra@, sw as int, sh as int, step as int, w as int, i),
            decreases w - x,
        {
            proof {
                assert(x * step < sw) by (nonlinear_arith)
                    requires x < w, (w - 1) * step < sw, step >= 1;
            }
            let sx = if x * step < sw - 1 { x * step } else { sw - 1 };
            proof {
                assert((sy * sw + sx) * 4 + 4 <= sw * sh * 4) by (nonlinear_arith)
                    requires sy < sh, sx < sw;
                assert((y * w + x) * 4 + 4 <= w * h * 4) by (nonlinear_arith)
                    requires y < h, x < w;
            }
            let p = (sy * sw + sx) * 4;
            proof {
                lemma_preview_index(w as int, x as int, y as int, 0);
                lemma_preview_index(w as int, x as int, y as int, 1);
                lemma_preview_index(w as int, x as int, y as int, 2);
                lemma_preview_index(w as int, x as int, y as int, 3);
            }
            if p + 3 < n {
                rgba.push(image.bgra[p + 2]);
                rgba.push(image.bgra[p + 1]);
                rgba.push(image.bgra[p]);
                rgba.push(image.bgra[p + 3]);
            } else {
                rgba.push(0);
                rgba.push(0);
                rgba.push(0);
                rgba.push(255);
            }
            x += 1;
        }
        proof {
            assert((y * w + w) * 4 == (y + 1) * w * 4) by (nonlinear_arith);
        }
        y += 1;
    }
    proof {
        assert(h * w * 4 == w * h * 4) by (nonlinear_arith);
    }
    (w, h, rgba)
}


/// An image of the user's own that stands in for a layout, with its label.
#[derive(Clone, Debug, PartialEq)]
pub struct OwnImage {
    pub label: String,
    pub image: Blueprint,
}

/// An own image as plain values.
pub struct OwnImageView {
    pub label: Seq<char>,
    pub image: BlueprintView,
}

impl View for OwnImage {
    type V = OwnImageView;

    open spec fn view(&self) -> OwnImageView {
        OwnImageView { label: self.label@, image: self.image@ }
    }
}

/// An own image that may be missing, as plain values.
pub open spec fn opt_own(o: Option<OwnImage>) -> Option<OwnImageView> {
    match o {
        Some(i) => Some(i@),
        None => None,
    }
}

/// The generator's form: the generator's settings, the map's size, seed
/// and name, the layouts of the surface and the caves (by their place in the
/// lists of layouts), the user's own images, the new-game and roster
/// settings.
pub struct Form {
    pub opts: Options,
    pub auto_size: bool,
    pub width: i32,
    pub height: i32,
    pub seed: u32,
    pub name: String,
    pub layout: usize,
    pub own: Option<OwnImage>,
    pub cave_layout: usize,
    pub cave_own: Option<OwnImage>,
    pub new_game: bool,
    pub players: i32,
    pub per_player_bucket: i32,
    pub custom_count: bool,
    pub manual_seed: bool,
    pub roster: Vec<u32>,
    pub era: u8,
    pub generic_starts: bool,
    pub auto_starts: bool,
}

/// The form as plain values.
pub struct FormView {
    pub opts: OptionsView,
    pub auto_size: bool,
    pub width: i32,
    pub height: i32,
    pub seed: u32,
    pub name: Seq<char>,
    pub layout: usize,
    pub own: Option<OwnImageView>,
    pub cave_layout: usize,
    pub cave_own: Option<OwnImageView>,
    pub new_game: bool,
    pub players: i32,
    pub per_player_bucket: i32,
    pub custom_count: bool,
    pub manual_seed: bool,
    pub roster: Seq<u32>,
    pub era: u8,
    pub generic_starts: bool,
    pub auto_starts: bool,
}

impl View for Form {
    type V = FormView;

    open spec fn view(&self) -> FormView {
        FormView {
            opts: self.opts@,
            auto_size: self.auto_size,
            width: self.width,
            height: self.height,
            seed: self.seed,
            name: self.name@,
            layout: self.layout,
            own: opt_own(self.own),
            cave_layout: self.cave_layout,
            cave_own: opt_own(self.cave_own),
            new_game: self.new_game,
            players: self.players,
            per_player_bucket: self.per_player_bucket,
            custom_count: self.custom_count,
            manual_seed: self.manual_seed,
            roster: self.roster@,
            era: self.era,
            generic_starts: self.generic_starts,
            auto_starts: self.auto_starts,
        }
    }
}


/// The provinces a map may have: from this to that, both included.
pub const PROVINCES: (i32, i32) = (10, 1980);
/// The sides a map may have, in pixels.
pub const AXIS: (i32, i32) = (500, 7500);
/// A share in percent.
pub const PERCENT: (i32, i32) = (0, 100);
/// A setting that reaches a thousand.
pub const WIDE: (i32, i32) = (0, 1000);
/// The players a new game may have.
pub const PLAYERS: (i32, i32) = (2, 95);
/// The provinces per player a new game may have.
pub const PER_PLAYER_RANGE: (i32, i32) = (1, 100);

/// The message for a setting out of its range.
pub open spec fn range_message(label: Seq<char>, r: (i32, i32)) -> Seq<char> {
    label + " must be between "@ + signed_decimal(r.0 as int) + " and "@ + signed_decimal(r.1 as int)
}

/// The message for a setting, where it is out of its range.
pub open spec fn range_errors(label: Seq<char>, v: i32, r: (i32, i32)) -> Seq<Seq<char>> {
    if r.0 <= v <= r.1 {
        Seq::empty()
    } else {
        seq![range_message(label, r)]
    }
}

/// The messages for the settings out of the range, in order.
pub open spec fn fields_errors(fs: Seq<(Seq<char>, i32)>, r: (i32, i32)) -> Seq<Seq<char>>
    decreases fs.len(),
{
    if fs.len() == 0 {
        Seq::empty()
    } else {
        fields_errors(fs.drop_last(), r) + range_errors(fs.last().0, fs.last().1, r)
    }
}

/// The settings given in percent, with their labels.
pub open spec fn percent_spec(o: OptionsView) -> Seq<(Seq<char>, i32)> {
    seq![
        ("Sea"@, o.ints[3]),
        ("Mountains"@, o.ints[4]),
        ("Forest"@, o.ints[5]),
        ("Farmland"@, o.ints[6]),
        ("Swamp"@, o.ints[7]),
        ("Waste"@, o.ints[8]),
        ("Highland"@, o.ints[9]),
        ("Kelp"@, o.ints[10]),
        ("Gorge"@, o.ints[11]),
        ("Ruggedness"@, o.ints[14]),
        ("Bridges"@, o.ints[17]),
        ("Blueprint accuracy"@, o.ints[18]),
        ("Cave part"@, o.ints[19]),
    ]
}

/// The settings that reach a thousand, with their labels.
pub open spec fn wide_spec(o: OptionsView) -> Seq<(Seq<char>, i32)> {
    seq![("Rivers"@, o.ints[12]), ("Hills"@, o.ints[13]), ("Sea size"@, o.ints[15]), ("Extra islands"@, o.ints[16])]
}

/// Labels and values as plain values.
pub open spec fn labelled(v: Seq<(&'static str, i32)>) -> Seq<(Seq<char>, i32)> {
    v.map_values(|p: (&'static str, i32)| (p.0@, p.1))
}

/// The message for a name that cannot be a file's name.
pub const NAME_MESSAGE: &'static str = "Name may only hold letters, digits, - and _";

/// What is wrong with a form, in order: the players and provinces per
/// player of a new game, or else the provinces; the sides where the size is
/// not automatic; the settings in percent; the settings that reach a
/// thousand; and the name, trimmed.
pub open spec fn spec_validate(f: FormView) -> Seq<Seq<char>> {
    let counts = if f.new_game {
        range_errors("Players"@, f.players, PLAYERS) + range_errors(
            "Provinces per player"@,
            f.per_player_bucket,
            PER_PLAYER_RANGE,
        )
    } else {
        range_errors("Provinces"@, f.opts.ints[2], PROVINCES)
    };
    let sides = if !f.auto_size {
        range_errors("Width"@, f.width, AXIS) + range_errors("Height"@, f.height, AXIS)
    } else {
        Seq::empty()
    };
    let n = trim(f.name);
    let name = if n.len() > 0 && forall|i: int| 0 <= i < n.len() ==> name_char(#[trigger] n[i]) {
        Seq::empty()
    } else {
        seq![NAME_MESSAGE@]
    };
    counts + sides + fields_errors(percent_spec(f.opts), PERCENT) + fields_errors(wide_spec(f.opts), WIDE)
        + name
}

fn push_range_error(errors: &mut Vec<String>, label: &str, v: i32, r: (i32, i32))
    ensures
        final(errors)@.map_values(|s: String| s@) == old(errors)@.map_values(|s: String| s@) + range_errors(
            label@,
            v,
            r,
        ),
{
    let ghost before = errors@.map_values(|s: String| s@);
    if !(r.0 <= v && v <= r.1) {
        let mut m = string_of(label);
        push_str(&mut m, " must be between ");
        push_signed(&mut m, r.0 as i64);
        push_str(&mut m, " and ");
        push_signed(&mut m, r.1 as i64);
        errors.push(m);
        assert(errors@.map_values(|s: String| s@) =~= before + seq![range_message(label@, r)]);
    } else {
        assert(errors@.map_values(|s: String| s@) =~= before + Seq::<Seq<char>>::empty());
    }
}

fn push_fields_errors(errors: &mut Vec<String>, fs: &[(&'static str, i32)], r: (i32, i32))
    ensures
        final(errors)@.map_values(|s: String| s@) == old(errors)@.map_values(|s: String| s@) + fields_errors(
            labelled(fs@),
            r,
        ),
{
    let ghost start = errors@.map_values(|s: String| s@);
    let mut i: usize = 0;
    assert(labelled(fs@.take(0)) =~= Seq::<(Seq<char>, i32)>::empty());
    assert(start =~= start + fields_errors(labelled(fs@.take(0)), r));
    while i < fs.len()
        invariant
            i <= fs@.len(),
            errors@.map_values(|s: String| s@) == start + fields_errors(labelled(fs@.take(i as int)), r),
        decreases fs@.len() - i,
    {
        let (label, v) = fs[i];
        push_range_error(errors, label, v, r);
        proof {
            let now = labelled(fs@.take(i + 1));
            assert(now.drop_last() =~= labelled(fs@.take(i as int)));
            assert(now.last() == (label@, v));
        }
        i += 1;
    }
    assert(fs@.take(fs@.len() as int) =~= fs@);
}

impl Form {
    /// The settings given in percent, with their labels.
    pub fn percent_fields(&self) -> (r: [(&'static str, i32); 13])
        ensures
            labelled(r@) == percent_spec(self.opts@),
    {
        let o = &self.opts;
        let r = [
            ("Sea", o.sea_part),
            ("Mountains", o.mount_part),
            ("Forest", o.forest_part),
            ("Farmland", o.farm_part),
            ("Swamp", o.swamp_part),
            ("Waste", o.waste_part),
            ("Highland", o.highland_part),
            ("Kelp", o.kelp_part),
            ("Gorge", o.gorge_part),
            ("Ruggedness", o.rugedness),
            ("Bridges", o.bridges),
            ("Blueprint accuracy", o.blue_acc),
            ("Cave part", o.cave_part),
        ];
        assert(labelled(r@) =~= percent_spec(self.opts@));
        r
    }

    /// The settings that reach a thousand, with their labels.
    pub fn wide_fields(&self) -> (r: [(&'static str, i32); 4])
        ensures
            labelled(r@) == wide_spec(self.opts@),
    {
        let o = &self.opts;
        let r = [("Rivers", o.river_part), ("Hills", o.hills), ("Sea size", o.sea_size), ("Extra islands", o.extra_islands)];
        assert(labelled(r@) =~= wide_spec(self.opts@));
        r
    }

    /// What is wrong with the form, one message for each setting out of its
    /// range, and one for a name that cannot be a file's name.
    pub fn validate(&self) -> (errors: Vec<String>)
        ensures
            errors@.map_values(|s: String| s@) == spec_validate(self@),
    {
        let mut errors: Vec<String> = Vec::new();
        assert(errors@.map_values(|s: String| s@) =~= Seq::<Seq<char>>::empty());
        if self.new_game {
            push_range_error(&mut errors, "Players", self.players, PLAYERS);
            push_range_error(&mut errors, "Provinces per player", self.per_player_bucket, PER_PLAYER_RANGE);
        } else {
            push_range_error(&mut errors, "Provinces", self.opts.provinces, PROVINCES);
        }
        let ghost after_counts = errors@.map_values(|s: String| s@);
        if !self.auto_size {
            push_range_error(&mut errors, "Width", self.width, AXIS);
            push_range_error(&mut errors, "Height", self.height, AXIS);
        }
        let ghost after_sides = errors@.map_values(|s: String| s@);
        let pf = self.percent_fields();
        push_fields_errors(&mut errors, &pf, PERCENT);
        let wf = self.wide_fields();
        push_fields_errors(&mut errors, &wf, WIDE);
        let ghost after_fields = errors@.map_values(|s: String| s@);
        let cs = chars_of(self.name.as_str());
        let t = trimmed(cs.as_slice());
        let ts = string_from(t.as_slice());
        if !name_is_usable(ts.as_str()) {
            errors.push(string_of(NAME_MESSAGE));
            assert(errors@.map_values(|s: String| s@) =~= after_fields + seq![NAME_MESSAGE@]);
        }
        proof {
            let f = self@;
            if f.new_game {
                assert(after_counts =~= range_errors("Players"@, f.players, PLAYERS) + range_errors(
                    "Provinces per player"@,
                    f.per_player_bucket,
                    PER_PLAYER_RANGE,
                ));
            }
            if f.auto_size {
                assert(after_sides =~= after_counts + Seq::<Seq<char>>::empty());
            }
        }
        assert(errors@.map_values(|s: String| s@) =~= spec_validate(self@));
        errors
    }
}

} // verus!
