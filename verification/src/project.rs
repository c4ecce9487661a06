//! A map project's edits and files: what an undoable edit records, how two
//! dirty areas combine, where a file's backup goes, and the `.map` text
//! written for a freshly generated map.
use vstd::prelude::*;
use crate::d6m::D6m;
use crate::render::{Rect, min_i, max_i};
use crate::text::{decimal, signed_decimal, push_decimal, push_signed, push_str, string_of, push_char};
use crate::d6m::Province;
use crate::mapfile::{insert_sorted, strictly_increasing};

verus! {

/// What a terrain edit does to a province's terrain mask: keep it, make the
/// province sea, deep sea or land, or give it the mask outright.
#[derive(Clone, Copy, Debug, PartialEq, Eq, Structural)]
pub enum FlagOp {
    Keep,
    Sea,
    DeepSea,
    Land,
    Mask(u64),
}

/// One change to a map file, with the value before and after.
#[derive(Clone, Debug, PartialEq)]
pub enum MapChange {
    Terrain { p: u32, old: u64, new: u64 },
    Name { p: u32, old: Option<String>, new: Option<String> },
    Gate { p: u32, old: i32, new: i32 },
    Neighbour { a: u32, b: u32, old: bool, new: bool },
    Spec { a: u32, b: u32, old: i64, new: i64 },
}

/// An undoable edit: the pixels whose height or owner changed (index, old,
/// new), the map file changes, and the area to draw again.
#[derive(Clone, Debug)]
pub struct Edit {
    pub label: String,
    pub heights: Vec<(u32, i16, i16)>,
    pub owners: Vec<(u32, i16, i16)>,
    pub map: Vec<MapChange>,
    pub rect: Option<Rect>,
}

impl Edit {
    /// Whether the edit changes nothing.
    pub fn is_empty(&self) -> (b: bool)
        ensures
            b == (self.heights@.len() == 0 && self.owners@.len() == 0 && self.map@.len() == 0),
    {
        self.heights.len() == 0 && self.owners.len() == 0 && self.map.len() == 0
    }
}

/// The area covering both areas; an absent area adds nothing.
pub open spec fn spec_union(a: Option<Rect>, b: Option<Rect>) -> Option<Rect> {
    match (a, b) {
        (Some(a), Some(b)) => Some(
            Rect {
                x0: min_i(a.x0 as int, b.x0 as int) as i32,
                y0: min_i(a.y0 as int, b.y0 as int) as i32,
                x1: max_i(a.x1 as int, b.x1 as int) as i32,
                y1: max_i(a.y1 as int, b.y1 as int) as i32,
            },
        ),
        (Some(a), None) => Some(a),
        (None, b) => b,
    }
}

/// The area covering both areas.
pub fn union(a: Option<Rect>, b: Option<Rect>) -> (r: Option<Rect>)
    ensures
        r == spec_union(a, b),
{
    match (a, b) {
        (Some(a), Some(b)) => Some(a.union(b)),
        (Some(a), None) => Some(a),
        (None, b) => b,
    }
}

/// Where a file's backup goes: beside it, with `.bak` added to its name.
pub fn backup_path(path: &str) -> (s: String)
    ensures
        s@ == path@ + ".bak"@,
{
    let mut s = string_of(path);
    push_str(&mut s, ".bak");
    s
}


/// The head of a generated map's file: its title, its picture (the map's
/// `.d6m` file), its size, and an empty line.
pub open spec fn map_header(base: Seq<char>, w: i32, h: i32) -> Seq<char> {
    "#dom2title "@ + base + "\n#imagefile "@ + base + ".d6m\n#mapsize "@ + signed_decimal(w as int)
        + " "@ + signed_decimal(h as int) + "\n\n"@
}

/// The terrain lines of the first `k` provinces, numbered from 1.
pub open spec fn terrain_block(provs: Seq<Province>, k: int) -> Seq<char>
    decreases k,
{
    if k <= 0 {
        Seq::empty()
    } else {
        terrain_block(provs, k - 1) + "#terrain "@ + decimal(k as nat) + " "@ + signed_decimal(
            provs[k - 1].terrain as int,
        ) + "\n"@
    }
}

/// A pair of provinces as one number: the smaller province times 65536 plus the larger.
pub open spec fn pair_key(a: int, b: int) -> int {
    if a <= b {
        a * 65536 + b
    } else {
        b * 65536 + a
    }
}

/// The owner of the pixel at `(x, y)` of a `w` wide field.
pub open spec fn owner_at(owners: Seq<i16>, w: int, x: int, y: int) -> i16 {
    owners[y * w + x]
}

/// The pixel at `(x, y)` and the one to its right (or below it) belong to
/// two different provinces, numbered from 1 to `n`, whose pair is `key`.
pub open spec fn border_at(owners: Seq<i16>, w: int, h: int, n: int, x: int, y: int, down: bool, key: int) -> bool {
    let nx = if down {
        x
    } else {
        x + 1
    };
    let ny = if down {
        y + 1
    } else {
        y
    };
    let a = owner_at(owners, w, x, y) as int;
    let b = owner_at(owners, w, nx, ny) as int;
    &&& 0 <= x < w
    &&& 0 <= y < h
    &&& nx < w
    &&& ny < h
    &&& 0 < a <= n
    &&& 0 < b <= n
    &&& a != b
    &&& key == pair_key(a, b)
}

/// The pairs of provinces that touch, as numbers, each once, in increasing
/// order.
pub open spec fn border_keys(keys: Seq<u32>, owners: Seq<i16>, w: int, h: int, n: int) -> bool {
    &&& strictly_increasing(keys)
    &&& forall|k: u32|
        keys.contains(k) <==> exists|x: int, y: int, down: bool|
            #[trigger] border_at(owners, w, h, n, x, y, down, k as int)
}

/// The neighbour lines of the pairs.
pub open spec fn neighbour_block(keys: Seq<u32>) -> Seq<char>
    decreases keys.len(),
{
    if keys.len() == 0 {
        Seq::empty()
    } else {
        neighbour_block(keys.drop_last()) + "#neighbour "@ + decimal((keys.last() / 65536) as nat)
            + " "@ + decimal((keys.last() % 65536) as nat) + "\n"@
    }
}

/// Before row `y`, column `x`.
pub open spec fn before_cell(x2: int, y2: int, x: int, y: int) -> bool {
    y2 < y || (y2 == y && x2 < x)
}

fn key_of(a: i16, b: i16) -> (k: u32)
    requires
        0 < a,
        0 < b,
    ensures
        k == pair_key(a as int, b as int),
{
    if a <= b {
        (a as u32) * 65536 + (b as u32)
    } else {
        (b as u32) * 65536 + (a as u32)
    }
}

/// The `.map` text written for a freshly generated map: the head, a
/// terrain line for every province, an empty line, and a neighbour line for
/// every pair of provinces whose pixels touch, left to right or top to
/// bottom, in increasing order of the pair.
#[verifier::rlimit(40)]
pub fn generated_map_text(base: &str, d6m: &D6m) -> (s: String)
    requires
        0 <= d6m.width,
        0 <= d6m.height,
        d6m.width * d6m.height <= d6m.owners@.len(),
    ensures
        exists|keys: Seq<u32>|
            border_keys(
                keys,
                d6m.owners@,
                d6m.width as int,
                d6m.height as int,
                (d6m.provinces@.len() as i16) as int,
            ) && s@ == map_header(base@, d6m.width, d6m.height) + terrain_block(
                d6m.provinces@,
                d6m.provinces@.len() as int,
            ) + "\n"@ + neighbour_block(keys),
{
    let mut s = string_of("#dom2title ");
    push_str(&mut s, base);
    push_str(&mut s, "\n#imagefile ");
    push_str(&mut s, base);
    push_str(&mut s, ".d6m\n#mapsize ");
    push_signed(&mut s, d6m.width as i64);
    push_str(&mut s, " ");
    push_signed(&mut s, d6m.height as i64);
    push_str(&mut s, "\n\n");
    assert(s@ =~= map_header(base@, d6m.width, d6m.height));
    let ghost head = s@;
    let np = d6m.provinces.len();
    let mut i: usize = 0;
    while i < np
        invariant
            i <= np,
            np == d6m.provinces@.len(),
            s@ == head + terrain_block(d6m.provinces@, i as int),
        decreases np - i,
    {
        push_str(&mut s, "#terrain ");
        push_decimal(&mut s, (i + 1) as u64);
        push_str(&mut s, " ");
        push_signed(&mut s, d6m.provinces[i].terrain);
        push_str(&mut s, "\n");
        assert(s@ =~= head + terrain_block(d6m.provinces@, i + 1));
        i += 1;
    }
    push_str(&mut s, "\n");
    let ghost body = s@;
    let w = d6m.width as usize;
    let h = d6m.height as usize;
    let n = d6m.provinces.len() as i16;
    let ghost ow = d6m.owners@;
    let _len = d6m.owners.len();
    let mut keys: Vec<u32> = Vec::new();
    let mut y: usize = 0;
    while y < h
        invariant
            y <= h,
            w == d6m.width,
            h == d6m.height,
            w * h <= ow.len(),
            ow.len() <= usize::MAX,
            ow == d6m.owners@,
            strictly_increasing(keys@),
            forall|k: u32|
                keys@.contains(k) <==> exists|x2: int, y2: int, down: bool|
                    before_cell(x2, y2, 0, y as int) && #[trigger] border_at(ow, w as int, h as int, n as int, x2, y2, down, k as int),
        decreases h - y,
    {
        let mut x: usize = 0;
        while x < w
            invariant
                x <= w,
                y < h,
                w == d6m.width,
                h == d6m.height,
                w * h <= ow.len(),
                ow.len() <= usize::MAX,
                ow == d6m.owners@,
                strictly_increasing(keys@),
                forall|k: u32|
                    keys@.contains(k) <==> exists|x2: int, y2: int, down: bool|
                        before_cell(x2, y2, x as int, y as int) && #[trigger] border_at(ow, w as int, h as int, n as int, x2, y2, down, k as int),
            decreases w - x,
        {
            assert(y * w + x < w * h) by (nonlinear_arith)
                requires
                    y < h,
                    x < w,
            ;
            let a = d6m.owners[y * w + x];
            let ghost before = keys@;
            let mut right_key: Option<u32> = None;
            let mut down_key: Option<u32> = None;
            if 0 < a && a <= n {
                if x + 1 < w {
                    assert(y * w + (x + 1) < w * h) by (nonlinear_arith)
                        requires
                            y < h,
                            x + 1 < w,
                    ;
                    let b = d6m.owners[y * w + x + 1];
                    if 0 < b && b <= n && b != a {
                        let k = key_of(a, b);
                        insert_sorted(&mut keys, k);
                        right_key = Some(k);
                    }
                }
                if y + 1 < h {
                    assert((y + 1) * w + x < w * h) by (nonlinear_arith)
                        requires
                            y + 1 < h,
                            x < w,
                    ;
                    assert((y + 1) * w + x == y * w + x + w) by (nonlinear_arith);
                    let b = d6m.owners[(y + 1) * w + x];
                    if 0 < b && b <= n && b != a {
                        let k = key_of(a, b);
                        insert_sorted(&mut keys, k);
                        down_key = Some(k);
                    }
                }
            }
            proof {
                assert((y * w + x + 1) == y * w + (x + 1));
                assert forall|k: u32| keys@.contains(k) <==> exists|x2: int, y2: int, down: bool|
                    before_cell(x2, y2, x + 1, y as int) && #[trigger] border_at(ow, w as int, h as int, n as int, x2, y2, down, k as int) by {
                    if keys@.contains(k) {
                        if before.contains(k) {
                        } else if right_key == Some(k) {
                            assert(border_at(ow, w as int, h as int, n as int, x as int, y as int, false, k as int));
                        } else {
                            assert(down_key == Some(k));
                            assert(border_at(ow, w as int, h as int, n as int, x as int, y as int, true, k as int));
                        }
                    }
                    if exists|x2: int, y2: int, down: bool|
                        before_cell(x2, y2, x + 1, y as int) && #[trigger] border_at(ow, w as int, h as int, n as int, x2, y2, down, k as int) {
                        let (x2, y2, down) = choose|x2: int, y2: int, down: bool|
                            before_cell(x2, y2, x + 1, y as int) && #[trigger] border_at(ow, w as int, h as int, n as int, x2, y2, down, k as int);
                        if before_cell(x2, y2, x as int, y as int) {
                            assert(before.contains(k));
                        } else {
                            assert(x2 == x && y2 == y);
                            if down {
                                assert(owner_at(ow, w as int, x2, y2 + 1) == ow[(y + 1) * w + x]);
                                assert(down_key == Some(k));
                            } else {
                                assert(right_key == Some(k));
                            }
                        }
                    }
                }
            }
            x += 1;
        }
        proof {
            assert forall|k: u32| keys@.contains(k) <==> exists|x2: int, y2: int, down: bool|
                before_cell(x2, y2, 0, y + 1) && #[trigger] border_at(ow, w as int, h as int, n as int, x2, y2, down, k as int) by {
                if exists|x2: int, y2: int, down: bool|
                    before_cell(x2, y2, 0, y + 1) && #[trigger] border_at(ow, w as int, h as int, n as int, x2, y2, down, k as int) {
                    let (x2, y2, down) = choose|x2: int, y2: int, down: bool|
                        before_cell(x2, y2, 0, y + 1) && #[trigger] border_at(ow, w as int, h as int, n as int, x2, y2, down, k as int);
                    assert(before_cell(x2, y2, w as int, y as int));
                }
            }
        }
        y += 1;
    }
    let mut t: usize = 0;
    while t < keys.len()
        invariant
            t <= keys@.len(),
            s@ == body + neighbour_block(keys@.take(t as int)),
        decreases keys@.len() - t,
    {
        let k = keys[t];
        push_str(&mut s, "#neighbour ");
        push_decimal(&mut s, (k / 65536) as u64);
        push_str(&mut s, " ");
        push_decimal(&mut s, (k % 65536) as u64);
        push_str(&mut s, "\n");
        proof {
            assert(keys@.take(t + 1).drop_last() =~= keys@.take(t as int));
            assert(s@ =~= body + neighbour_block(keys@.take(t + 1)));
        }
        t += 1;
    }
    proof {
        assert(keys@.take(keys@.len() as int) =~= keys@);
        assert forall|k: u32| keys@.contains(k) <==> exists|x: int, y: int, down: bool|
            #[trigger] border_at(ow, w as int, h as int, n as int, x, y, down, k as int) by {
            if exists|x: int, y: int, down: bool| #[trigger] border_at(ow, w as int, h as int, n as int, x, y, down, k as int) {
                let (x2, y2, down) = choose|x: int, y: int, down: bool| #[trigger] border_at(ow, w as int, h as int, n as int, x, y, down, k as int);
                assert(before_cell(x2, y2, 0, h as int));
            }
        }
        assert(border_keys(keys@, ow, w as int, h as int, n as int));
    }
    s
}


/// The pixel values after an edit's changes (index, old, new) go forward:
/// each, in order, sets its pixel to the new value.
pub open spec fn changed_forward(v: Seq<i16>, ch: Seq<(u32, i16, i16)>) -> Seq<i16>
    decreases ch.len(),
{
    if ch.len() == 0 {
        v
    } else {
        changed_forward(v, ch.drop_last()).update(ch.last().0 as int, ch.last().2)
    }
}

/// The pixel values after an edit's changes go back: each, from the last,
/// sets its pixel to the old value.
pub open spec fn changed_backward(v: Seq<i16>, ch: Seq<(u32, i16, i16)>) -> Seq<i16>
    decreases ch.len(),
{
    if ch.len() == 0 {
        v
    } else {
        changed_backward(v, ch.drop_first()).update(ch[0].0 as int, ch[0].1)
    }
}

/// The changes were recorded against these values: each change's old value
/// is what its pixel holds when the changes before it have been made.
pub open spec fn recorded(v: Seq<i16>, ch: Seq<(u32, i16, i16)>) -> bool {
    forall|k: int| 0 <= k < ch.len() ==> #[trigger] changed_forward(v, ch.take(k))[ch[k].0 as int] == ch[k].1
}

/// Every change names a pixel of the values.
pub open spec fn changes_fit(len: nat, ch: Seq<(u32, i16, i16)>) -> bool {
    forall|k: int| 0 <= k < ch.len() ==> (#[trigger] ch[k]).0 < len
}

proof fn lemma_forward_len(v: Seq<i16>, ch: Seq<(u32, i16, i16)>)
    requires
        changes_fit(v.len(), ch),
    ensures
        changed_forward(v, ch).len() == v.len(),
    decreases ch.len(),
{
    if ch.len() > 0 {
        assert forall|k: int| 0 <= k < ch.drop_last().len() implies (#[trigger] ch.drop_last()[k]).0 < v.len() by {
            assert(ch.drop_last()[k] == ch[k]);
        }
        lemma_forward_len(v, ch.drop_last());
        assert(ch[ch.len() - 1] == ch.last());
    }
}

proof fn lemma_backward_last(x: Seq<i16>, ch: Seq<(u32, i16, i16)>, c: (u32, i16, i16))
    ensures
        changed_backward(x, ch.push(c)) == changed_backward(x.update(c.0 as int, c.1), ch),
    decreases ch.len(),
{
    if ch.len() == 0 {
        assert(ch.push(c).drop_first() =~= Seq::<(u32, i16, i16)>::empty());
        assert(ch.push(c)[0] == c);
        assert(changed_backward(x, ch.push(c)) == changed_backward(x, Seq::<(u32, i16, i16)>::empty()).update(
            c.0 as int,
            c.1,
        ));
    } else {
        let y = x.update(c.0 as int, c.1);
        assert(ch.push(c).drop_first() =~= ch.drop_first().push(c));
        assert(ch.push(c)[0] == ch[0]);
        lemma_backward_last(x, ch.drop_first(), c);
        assert(changed_backward(x, ch.push(c)) == changed_backward(x, ch.drop_first().push(c)).update(
            ch[0].0 as int,
            ch[0].1,
        ));
        assert(changed_backward(y, ch) == changed_backward(y, ch.drop_first()).update(ch[0].0 as int, ch[0].1));
    }
}

/// Undoing an edit restores what it changed: where its changes were
/// recorded against the values and name pixels of them, making them and
/// then taking them back, from the last, gives the values back.
pub proof fn lemma_undo_restores(v: Seq<i16>, ch: Seq<(u32, i16, i16)>)
    requires
        recorded(v, ch),
        changes_fit(v.len(), ch),
    ensures
        changed_backward(changed_forward(v, ch), ch) == v,
    decreases ch.len(),
{
    if ch.len() > 0 {
        let rest = ch.drop_last();
        let c = ch.last();
        assert(ch =~= rest.push(c));
        assert forall|k: int| 0 <= k < rest.len() implies #[trigger] changed_forward(v, rest.take(k))[rest[k].0 as int]
            == rest[k].1 by {
            assert(rest.take(k) =~= ch.take(k));
            assert(rest[k] == ch[k]);
            assert(changed_forward(v, ch.take(k))[ch[k].0 as int] == ch[k].1);
        }
        assert forall|k: int| 0 <= k < rest.len() implies (#[trigger] rest[k]).0 < v.len() by {
            assert(rest[k] == ch[k]);
        }
        lemma_undo_restores(v, rest);
        let w = changed_forward(v, rest);
        lemma_forward_len(v, rest);
        assert(ch.take(ch.len() - 1) =~= rest);
        assert(changed_forward(v, ch.take(ch.len() - 1))[ch[ch.len() - 1].0 as int] == ch[ch.len() - 1].1);
        assert(c.0 < v.len()) by {
            assert(ch[ch.len() - 1] == c);
        }
        lemma_backward_last(changed_forward(v, ch), rest, c);
        assert(changed_forward(v, ch).update(c.0 as int, c.1) =~= w);
    }
}

/// Makes an edit's changes to pixel values, forward (each new value, in
/// order) or back (each old value, from the last), as committing and
/// undoing an edit does.
pub fn apply_pixel_changes(values: &mut Vec<i16>, changes: &[(u32, i16, i16)], reverse: bool)
    requires
        changes_fit(old(values)@.len(), changes@),
    ensures
        final(values)@ == if reverse {
            changed_backward(old(values)@, changes@)
        } else {
            changed_forward(old(values)@, changes@)
        },
{
    let ghost v = values@;
    let n = changes.len();
    if reverse {
        let mut k: usize = n;
        assert(changes@.skip(n as int) =~= Seq::<(u32, i16, i16)>::empty());
        while k > 0
            invariant
                k <= n,
                n == changes@.len(),
                changes_fit(v.len(), changes@),
                values@ == changed_backward(v, changes@.skip(k as int)),
                values@.len() == v.len(),
            decreases k,
        {
            let (i, o, _) = changes[k - 1];
            assert((changes@[k - 1]).0 < v.len());
            let ghost before = values@;
            values.set(i as usize, o);
            proof {
                let s = changes@.skip(k - 1);
                assert(s.drop_first() =~= changes@.skip(k as int));
                assert(s[0] == changes@[k - 1]);
            }
            k -= 1;
        }
        assert(changes@.skip(0) =~= changes@);
    } else {
        let mut k: usize = 0;
        assert(changes@.take(0) =~= Seq::<(u32, i16, i16)>::empty());
        while k < n
            invariant
                k <= n,
                n == changes@.len(),
                changes_fit(v.len(), changes@),
                values@ == changed_forward(v, changes@.take(k as int)),
                values@.len() == v.len(),
            decreases n - k,
        {
            let (i, _, nv) = changes[k];
            assert((changes@[k as int]).0 < v.len());
            values.set(i as usize, nv);
            proof {
                let t = changes@.take(k + 1);
                assert(t.drop_last() =~= changes@.take(k as int));
                assert(t.last() == changes@[k as int]);
            }
            k += 1;
        }
        assert(changes@.take(n as int) =~= changes@);
    }
}


/// How many pixels province `id` owns.
pub open spec fn owned_count(o: Seq<i16>, id: int) -> nat
    decreases o.len(),
{
    if o.len() == 0 {
        0
    } else {
        owned_count(o.drop_last(), id) + if o.last() == id {
            1nat
        } else {
            0nat
        }
    }
}

/// The pixel counts hold, for each province after the first slot, how many
/// pixels it owns.
pub open spec fn counts_ok(counts: Seq<u32>, o: Seq<i16>) -> bool {
    forall|id: int| 1 <= id < counts.len() ==> #[trigger] counts[id] == owned_count(o, id)
}

proof fn lemma_owned_count_bound(o: Seq<i16>, id: int)
    ensures
        owned_count(o, id) <= o.len(),
    decreases o.len(),
{
    if o.len() > 0 {
        lemma_owned_count_bound(o.drop_last(), id);
    }
}

proof fn lemma_owned_count_update(o: Seq<i16>, i: int, v: i16, id: int)
    requires
        0 <= i < o.len(),
    ensures
        owned_count(o.update(i, v), id) + (if o[i] == id { 1int } else { 0int }) == owned_count(o, id) + (if v == id {
            1int
        } else {
            0int
        }),
    decreases o.len(),
{
    let u = o.update(i, v);
    if i == o.len() - 1 {
        assert(u.drop_last() =~= o.drop_last());
    } else {
        assert(u.drop_last() =~= o.drop_last().update(i, v));
        lemma_owned_count_update(o.drop_last(), i, v, id);
    }
}

fn set_owner(owners: &mut Vec<i16>, counts: &mut Vec<u32>, i: usize, v: i16)
    requires
        i < old(owners)@.len(),
        old(owners)@.len() <= u32::MAX,
        counts_ok(old(counts)@, old(owners)@),
    ensures
        final(owners)@ == old(owners)@.update(i as int, v),
        counts_ok(final(counts)@, final(owners)@),
        final(counts)@.len() == old(counts)@.len(),
        final(counts)@.len() > 0 ==> final(counts)@[0] == old(counts)@[0],
{
    let ghost o0 = owners@;
    let prev = owners[i];
    let nc = counts.len();
    if prev > 0 && (prev as usize) < nc {
        proof {
            lemma_owned_count_update(o0, i as int, 0, prev as int);
            assert(counts@[prev as int] == owned_count(o0, prev as int));
        }
        let c = counts[prev as usize];
        counts.set(prev as usize, c - 1);
    }
    if v > 0 && (v as usize) < nc {
        proof {
            lemma_owned_count_update(o0, i as int, v, v as int);
            lemma_owned_count_bound(o0.update(i as int, v), v as int);
            assert(o0.update(i as int, v).len() == o0.len());
        }
        let c = counts[v as usize];
        counts.set(v as usize, c + 1);
    }
    owners.set(i, v);
    proof {
        assert forall|id: int| 1 <= id < counts@.len() implies #[trigger] counts@[id] == owned_count(owners@, id) by {
            lemma_owned_count_update(o0, i as int, v, id);
        }
    }
}

/// Makes an edit's changes to the pixels' owners, forward or back, as
/// committing and undoing an edit does, keeping each province's pixel count
/// (the slots past the first) the number of pixels it owns.
pub fn apply_owner_changes(owners: &mut Vec<i16>, counts: &mut Vec<u32>, changes: &[(u32, i16, i16)], reverse: bool)
    requires
        changes_fit(old(owners)@.len(), changes@),
        old(owners)@.len() <= u32::MAX,
        counts_ok(old(counts)@, old(owners)@),
    ensures
        final(owners)@ == if reverse {
            changed_backward(old(owners)@, changes@)
        } else {
            changed_forward(old(owners)@, changes@)
        },
        counts_ok(final(counts)@, final(owners)@),
        final(counts)@.len() == old(counts)@.len(),
        final(counts)@.len() > 0 ==> final(counts)@[0] == old(counts)@[0],
{
    let ghost v = owners@;
    let ghost c0 = counts@;
    let n = changes.len();
    if reverse {
        let mut k: usize = n;
        assert(changes@.skip(n as int) =~= Seq::<(u32, i16, i16)>::empty());
        while k > 0
            invariant
                k <= n,
                n == changes@.len(),
                changes_fit(v.len(), changes@),
                v.len() <= u32::MAX,
                owners@ == changed_backward(v, changes@.skip(k as int)),
                owners@.len() == v.len(),
                counts_ok(counts@, owners@),
                counts@.len() == c0.len(),
                counts@.len() > 0 ==> counts@[0] == c0[0],
            decreases k,
        {
            let (i, o, _) = changes[k - 1];
            assert((changes@[k - 1]).0 < v.len());
            set_owner(owners, counts, i as usize, o);
            proof {
                let s = changes@.skip(k - 1);
                assert(s.drop_first() =~= changes@.skip(k as int));
                assert(s[0] == changes@[k - 1]);
            }
            k -= 1;
        }
        assert(changes@.skip(0) =~= changes@);
    } else {
        let mut k: usize = 0;
        assert(changes@.take(0) =~= Seq::<(u32, i16, i16)>::empty());
        while k < n
            invariant
                k <= n,
                n == changes@.len(),
                changes_fit(v.len(), changes@),
                v.len() <= u32::MAX,
                owners@ == changed_forward(v, changes@.take(k as int)),
                owners@.len() == v.len(),
                counts_ok(counts@, owners@),
                counts@.len() == c0.len(),
                counts@.len() > 0 ==> counts@[0] == c0[0],
            decreases n - k,
        {
            let (i, _, nv) = changes[k];
            assert((changes@[k as int]).0 < v.len());
            set_owner(owners, counts, i as usize, nv);
            proof {
                let t = changes@.take(k + 1);
                assert(t.drop_last() =~= changes@.take(k as int));
                assert(t.last() == changes@[k as int]);
            }
            k += 1;
        }
        assert(changes@.take(n as int) =~= changes@);
    }
}

} // verus!
