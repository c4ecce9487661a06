//! Reading back the generator settings written into a map: what `encode`
//! writes, `decode` turns back into the form it was written from.
use vstd::prelude::*;
use crate::gen_settings::{
    key_value, pairs_of, setting_line, PREFIX, HEADER, truthy, flag_text, int_text, int_or,
    roster_text, numbers_of, parse_u8, apply_pair, apply_all, DecodeView, name_index,
    lemma_key_facts, spec_encode, spec_decode, option_lines, image_lines, image_from,
    spec_b64_encode, spec_b64_decode, sextets, b64_value, b64_blank,
};
use crate::generator_panel::FormView;
use crate::wire::OptionsView;
use crate::text::{
    decimal, signed_decimal, trim, trim_start, trim_end, is_ws, replace_all, char_pos, split_on,
    join, starts_with, parse_u32, parse_i32,
};
use crate::reading::{lemma_decimal_reads_back, lemma_signed_reads_back, lemma_decimal, no_ws};

verus! {

/// The text holds no `#`.
pub open spec fn no_hash(s: Seq<char>) -> bool {
    forall|i: int| 0 <= i < s.len() ==> s[i] != '#'
}

/// A text with no `#` is written as it is.
pub proof fn lemma_no_hash(s: Seq<char>)
    requires
        no_hash(s),
    ensures
        replace_all(s, "#"@, "_"@) == s,
    decreases s.len(),
{
    reveal_strlit("#");
    if s.len() > 0 {
        assert forall|i: int| 0 <= i < s.drop_first().len() implies s.drop_first()[i] != '#' by {
            assert(s.drop_first()[i] == s[i + 1]);
        }
        lemma_no_hash(s.drop_first());
        assert(s.take(1) =~= seq![s[0]]);
        assert("#"@[0] == '#');
        assert(s.take(1)[0] == s[0]);
        assert(s.take(1) != "#"@);
        assert(seq![s[0]] + s.drop_first() =~= s);
    } else {
        assert("#"@.len() == 1);
    }
}

/// A run of digits, maybe after a minus sign, holds no `#`, and no white
/// space at either end.
proof fn lemma_number_text(n: int)
    ensures
        no_hash(signed_decimal(n)),
        trim(signed_decimal(n)) == signed_decimal(n),
        n >= 0 ==> no_hash(decimal(n as nat)) && trim(decimal(n as nat)) == decimal(n as nat),
{
    lemma_signed_reads_back(n);
    let s = signed_decimal(n);
    assert(trim_start(s) == s);
    assert(s.last() == s[s.len() - 1]);
    assert(trim_end(s) == s);
    if n < 0 {
        lemma_decimal((-n) as nat);
        assert forall|i: int| 0 <= i < s.len() implies s[i] != '#' by {
            if i > 0 {
                assert(s[i] == decimal((-n) as nat)[i - 1]);
            }
        }
    } else {
        lemma_decimal(n as nat);
    }
}

/// A text that trimming leaves as it is starts and ends with no white space.
pub proof fn lemma_trimmed_ends(v: Seq<char>)
    requires
        trim(v) == v,
        v.len() > 0,
    ensures
        !is_ws(v[0]),
        !is_ws(v.last()),
{
    let t = trim_start(v);
    crate::text::lemma_trim_start(v);
    crate::reading::lemma_trim_end_prefix(t);
    assert(t.len() == v.len());
    assert(v.skip(0) =~= v);
    assert(t == v);
    if is_ws(v.last()) {
        crate::reading::lemma_trim_end_prefix(v.drop_last());
        assert(trim_end(v) == trim_end(v.drop_last()));
        assert(false);
    }
}

proof fn lemma_char_pos_word(a: Seq<char>, b: Seq<char>)
    requires
        no_ws(a),
        b.len() == 0 || b[0] == ' ',
    ensures
        char_pos(a + b, ' ') == a.len(),
    decreases a.len(),
{
    if a.len() > 0 {
        assert((a + b).drop_first() =~= a.drop_first() + b);
        assert((a + b)[0] == a[0]);
        assert(!is_ws(a[0]));
        lemma_char_pos_word(a.drop_first(), b);
    } else {
        assert(a + b =~= b);
    }
}

proof fn lemma_trim_end_space(a: Seq<char>)
    requires
        a.len() > 0,
        !is_ws(a.last()),
    ensures
        trim_end(a + " "@) == a,
{
    reveal_strlit(" ");
    let s = a + " "@;
    assert(s.last() == ' ');
    assert(s.drop_last() =~= a);
    assert(trim_end(a) == a);
    assert(is_ws(s.last()));
}

/// A settings line reads back as its key and its value, when the key has no
/// white space and the value no `#` and no white space at its ends.
pub proof fn lemma_key_value(k: Seq<char>, v: Seq<char>)
    requires
        k.len() > 0,
        no_ws(k),
        no_hash(v),
        trim(v) == v,
    ensures
        key_value(setting_line(k, v)) == Some((k, v)),
{
    reveal_strlit("-- gen.");
    reveal_strlit(" ");
    lemma_no_hash(v);
    let line = setting_line(k, v);
    let p = PREFIX@;
    assert(line =~= p + k + " "@ + v);
    assert(line[0] == '-');
    assert(trim_start(line) == line);
    if v.len() > 0 {
        assert(trim_start(v) == v ==> true);
        assert(v.last() == trim(v).last());
        assert(!is_ws(v.last())) by {
            lemma_trimmed_ends(v);
        }
        assert(line.last() == v.last());
        assert(trim_end(line) == line);
        let rest = line.skip(p.len() as int);
        assert(line.take(p.len() as int) =~= p);
        assert(rest =~= k + (" "@ + v));
        lemma_char_pos_word(k, " "@ + v);
        assert(rest.take(k.len() as int) =~= k);
        assert(rest.skip(k.len() as int + 1) =~= v);
    } else {
        assert(line =~= (p + k) + " "@);
        assert((p + k).last() == k.last());
        assert(k.last() == k[k.len() - 1]);
        lemma_trim_end_space(p + k);
        let t = p + k;
        assert(t.take(p.len() as int) =~= p);
        let rest = t.skip(p.len() as int);
        assert(rest =~= k);
        lemma_char_pos_word(k, Seq::empty());
        assert(k + Seq::<char>::empty() =~= k);
        assert(v =~= Seq::<char>::empty());
    }
}


proof fn lemma_flag_text(b: bool)
    ensures
        truthy(flag_text(b)) == b,
        no_hash(flag_text(b)),
        trim(flag_text(b)) == flag_text(b),
{
    reveal_strlit("1");
    reveal_strlit("0");
    reveal_strlit("true");
    reveal_strlit("yes");
    reveal_strlit("on");
    let t = flag_text(b);
    assert(t.len() == 1);
    assert(trim_start(t) == t);
    assert(trim_end(t) == t);
    if !b {
        assert(t[0] == '0');
        assert(t != "1"@) by {
            assert("1"@[0] == '1');
        }
        assert(t != "true"@) by {
            assert("true"@.len() == 4);
        }
        assert(t != "yes"@) by {
            assert("yes"@.len() == 3);
        }
        assert(t != "on"@) by {
            assert("on"@.len() == 2);
        }
    }
}

proof fn lemma_int_text(x: i32)
    ensures
        forall|o: i32| #[trigger] int_or(int_text(x), o) == x,
        no_hash(int_text(x)),
        trim(int_text(x)) == int_text(x),
{
    lemma_number_text(x as int);
    lemma_signed_reads_back(x as int);
}

proof fn lemma_char_pos_concat(a: Seq<char>, b: Seq<char>, c: char)
    ensures
        char_pos(a + b, c) == if char_pos(a, c) < a.len() {
            char_pos(a, c)
        } else {
            a.len() + char_pos(b, c)
        },
    decreases a.len(),
{
    crate::text::lemma_char_pos(a, c);
    if a.len() > 0 {
        assert((a + b).drop_first() =~= a.drop_first() + b);
        assert((a + b)[0] == a[0]);
        lemma_char_pos_concat(a.drop_first(), b, c);
    } else {
        assert(a + b =~= b);
    }
}

/// Splitting at a separator that stands between two texts splits each.
proof fn lemma_split_concat(a: Seq<char>, b: Seq<char>, c: char)
    ensures
        split_on(a + seq![c] + b, c) == split_on(a, c) + split_on(b, c),
    decreases a.len(),
{
    let s = a + seq![c] + b;
    let k = char_pos(a, c);
    crate::text::lemma_char_pos(a, c);
    lemma_char_pos_concat(a, seq![c] + b, c);
    assert(s =~= a + (seq![c] + b));
    assert((seq![c] + b)[0] == c);
    assert(char_pos(seq![c] + b, c) == 0);
    if k < a.len() {
        assert(s.take(k as int) =~= a.take(k as int));
        assert(s.skip(k as int + 1) =~= a.skip(k as int + 1) + seq![c] + b);
        lemma_split_concat(a.skip(k as int + 1), b, c);
        assert(split_on(s, c) =~= seq![a.take(k as int)] + split_on(a.skip(k as int + 1), c) + split_on(b, c));
    } else {
        assert(s.take(k as int) =~= a);
        assert(s.skip(k as int + 1) =~= b);
        assert(split_on(a, c) == seq![a]);
    }
}

/// The numbers of a roster, written, have no comma, no `#` and no white space.
proof fn lemma_roster_text(r: Seq<u32>)
    requires
        r.len() > 0,
    ensures
        numbers_of(split_on(roster_text(r), ',')) == r,
        no_hash(roster_text(r)),
        trim(roster_text(r)) == roster_text(r),
        roster_text(r).len() > 0,
        !is_ws(roster_text(r)[0]),
        !is_ws(roster_text(r).last()),
    decreases r.len(),
{
    reveal_strlit(",");
    let f = |x: u32| decimal(x as nat);
    let parts = r.map_values(f);
    let t = roster_text(r);
    let last = decimal(r.last() as nat);
    lemma_decimal(r.last() as nat);
    lemma_number_text(r.last() as int);
    lemma_decimal_reads_back(r.last() as nat);
    assert(last.last() == last[last.len() - 1]);
    assert(split_on(last, ',') == seq![last]) by {
        crate::text::lemma_char_pos(last, ',');
        if char_pos(last, ',') < last.len() {
            assert(last[char_pos(last, ',') as int] == ',');
        }
    }
    if r.len() == 1 {
        assert(parts.len() == 1);
        assert(t == parts[0]);
        assert(t == last);
        assert(split_on(t, ',').drop_last() =~= Seq::<Seq<char>>::empty());
        assert(numbers_of(Seq::<Seq<char>>::empty()) == Seq::<u32>::empty());
        assert(numbers_of(split_on(t, ',')) =~= seq![r.last()]);
        assert(r =~= seq![r[0]]);
    } else {
        let init = r.drop_last();
        lemma_roster_text(init);
        let ti = roster_text(init);
        assert(parts.drop_last() =~= init.map_values(f));
        assert(parts.last() == last);
        assert(t == ti + ","@ + last);
        assert(","@ =~= seq![',']);
        lemma_split_concat(ti, last, ',');
        let pieces = split_on(t, ',');
        assert(pieces == split_on(ti, ',') + seq![last]);
        assert(pieces.drop_last() =~= split_on(ti, ','));
        assert(pieces.last() == last);
        assert(numbers_of(pieces) =~= init.push(r.last()));
        assert(init.push(r.last()) =~= r);
        assert forall|i: int| 0 <= i < t.len() implies t[i] != '#' by {
            if i < ti.len() {
                assert(t[i] == ti[i]);
            } else if i > ti.len() {
                assert(t[i] == last[i - ti.len() - 1]);
            }
        }
        assert(t[0] == ti[0]);
        assert(t.last() == last.last());
        assert(trim_start(t) == t);
        assert(trim_end(t) == t);
    }
}

proof fn lemma_apply_app(st: DecodeView, v: Seq<char>, ls: Seq<Seq<char>>, cs: Seq<Seq<char>>)
    ensures
        apply_pair(st, "app"@, v, ls, cs) == (DecodeView { known: st.known + 1, app: Some(v), ..st }),
{
    reveal(apply_pair);
    lemma_key_facts();
}

proof fn lemma_apply_pool(st: DecodeView, v: Seq<char>, ls: Seq<Seq<char>>, cs: Seq<Seq<char>>)
    ensures
        apply_pair(st, "pool"@, v, ls, cs) == (DecodeView { known: st.known + 1, pool: Some(v), ..st }),
{
    reveal(apply_pair);
    lemma_key_facts();
}

proof fn lemma_apply_seed(st: DecodeView, x: u32, ls: Seq<Seq<char>>, cs: Seq<Seq<char>>)
    ensures
        apply_pair(st, "seed"@, decimal(x as nat), ls, cs) == (DecodeView { known: st.known + 1, form: FormView { seed: x, ..st.form }, ..st }),
{
    reveal(apply_pair);
    lemma_key_facts();
    lemma_number_text(x as int);
    lemma_decimal_reads_back(x as nat);
}

proof fn lemma_apply_name(st: DecodeView, v: Seq<char>, ls: Seq<Seq<char>>, cs: Seq<Seq<char>>)
    ensures
        apply_pair(st, "name"@, v, ls, cs) == (DecodeView { known: st.known + 1, form: FormView { name: v, ..st.form }, ..st }),
{
    reveal(apply_pair);
    lemma_key_facts();
}

proof fn lemma_apply_new_game(st: DecodeView, b: bool, ls: Seq<Seq<char>>, cs: Seq<Seq<char>>)
    ensures
        apply_pair(st, "new_game"@, flag_text(b), ls, cs) == (DecodeView { known: st.known + 1, form: FormView { new_game: b, ..st.form }, ..st }),
{
    reveal(apply_pair);
    lemma_key_facts();
    lemma_flag_text(b);
}

proof fn lemma_apply_custom_count(st: DecodeView, b: bool, ls: Seq<Seq<char>>, cs: Seq<Seq<char>>)
    ensures
        apply_pair(st, "custom_count"@, flag_text(b), ls, cs) == (DecodeView { known: st.known + 1, form: FormView { custom_count: b, ..st.form }, ..st }),
{
    reveal(apply_pair);
    lemma_key_facts();
    lemma_flag_text(b);
}

proof fn lemma_apply_auto_size(st: DecodeView, b: bool, ls: Seq<Seq<char>>, cs: Seq<Seq<char>>)
    ensures
        apply_pair(st, "auto_size"@, flag_text(b), ls, cs) == (DecodeView { known: st.known + 1, form: FormView { auto_size: b, ..st.form }, ..st }),
{
    reveal(apply_pair);
    lemma_key_facts();
    lemma_flag_text(b);
}

proof fn lemma_apply_generic_starts(st: DecodeView, b: bool, ls: Seq<Seq<char>>, cs: Seq<Seq<char>>)
    ensures
        apply_pair(st, "generic_starts"@, flag_text(b), ls, cs) == (DecodeView { known: st.known + 1, form: FormView { generic_starts: b, ..st.form }, ..st }),
{
    reveal(apply_pair);
    lemma_key_facts();
    lemma_flag_text(b);
}

proof fn lemma_apply_auto_starts(st: DecodeView, b: bool, ls: Seq<Seq<char>>, cs: Seq<Seq<char>>)
    ensures
        apply_pair(st, "auto_starts"@, flag_text(b), ls, cs) == (DecodeView { known: st.known + 1, form: FormView { auto_starts: b, ..st.form }, ..st }),
{
    reveal(apply_pair);
    lemma_key_facts();
    lemma_flag_text(b);
}

proof fn lemma_apply_players(st: DecodeView, x: i32, ls: Seq<Seq<char>>, cs: Seq<Seq<char>>)
    ensures
        apply_pair(st, "players"@, int_text(x), ls, cs) == (DecodeView { known: st.known + 1, form: FormView { players: x, ..st.form }, ..st }),
{
    reveal(apply_pair);
    lemma_key_facts();
    lemma_int_text(x);
}

proof fn lemma_apply_per_player(st: DecodeView, x: i32, ls: Seq<Seq<char>>, cs: Seq<Seq<char>>)
    ensures
        apply_pair(st, "per_player"@, int_text(x), ls, cs) == (DecodeView { known: st.known + 1, form: FormView { per_player_bucket: x, ..st.form }, ..st }),
{
    reveal(apply_pair);
    lemma_key_facts();
    lemma_int_text(x);
}

proof fn lemma_apply_width(st: DecodeView, x: i32, ls: Seq<Seq<char>>, cs: Seq<Seq<char>>)
    ensures
        apply_pair(st, "width"@, int_text(x), ls, cs) == (DecodeView { known: st.known + 1, form: FormView { width: x, ..st.form }, ..st }),
{
    reveal(apply_pair);
    lemma_key_facts();
    lemma_int_text(x);
}

proof fn lemma_apply_height(st: DecodeView, x: i32, ls: Seq<Seq<char>>, cs: Seq<Seq<char>>)
    ensures
        apply_pair(st, "height"@, int_text(x), ls, cs) == (DecodeView { known: st.known + 1, form: FormView { height: x, ..st.form }, ..st }),
{
    reveal(apply_pair);
    lemma_key_facts();
    lemma_int_text(x);
}

proof fn lemma_apply_layout(st: DecodeView, v: Seq<char>, i: nat, ls: Seq<Seq<char>>, cs: Seq<Seq<char>>)
    requires
        name_index(ls, v) == Some(i),
        trim(v) == v,
    ensures
        apply_pair(st, "layout"@, v, ls, cs) == (DecodeView { known: st.known + 1, form: FormView { layout: i as usize, ..st.form }, ..st }),
{
    reveal(apply_pair);
    lemma_key_facts();
}

proof fn lemma_apply_cave_layout(st: DecodeView, v: Seq<char>, i: nat, ls: Seq<Seq<char>>, cs: Seq<Seq<char>>)
    requires
        name_index(cs, v) == Some(i),
        trim(v) == v,
    ensures
        apply_pair(st, "cave_layout"@, v, ls, cs) == (DecodeView { known: st.known + 1, form: FormView { cave_layout: i as usize, ..st.form }, ..st }),
{
    reveal(apply_pair);
    lemma_key_facts();
}

proof fn lemma_apply_provinces(st: DecodeView, x: i32, ls: Seq<Seq<char>>, cs: Seq<Seq<char>>)
    requires
        st.form.opts.ints.len() == 20,
    ensures
        apply_pair(st, "provinces"@, int_text(x), ls, cs) == (DecodeView { known: st.known + 1, form: FormView { opts: OptionsView { ints: st.form.opts.ints.update(2, x), ..st.form.opts }, ..st.form }, ..st }),
{
    reveal(apply_pair);
    lemma_key_facts();
    lemma_int_text(x);
}

proof fn lemma_apply_sea_part(st: DecodeView, x: i32, ls: Seq<Seq<char>>, cs: Seq<Seq<char>>)
    requires
        st.form.opts.ints.len() == 20,
    ensures
        apply_pair(st, "sea_part"@, int_text(x), ls, cs) == (DecodeView { known: st.known + 1, form: FormView { opts: OptionsView { ints: st.form.opts.ints.update(3, x), ..st.form.opts }, ..st.form }, ..st }),
{
    reveal(apply_pair);
    lemma_key_facts();
    lemma_int_text(x);
}

proof fn lemma_apply_mount_part(st: DecodeView, x: i32, ls: Seq<Seq<char>>, cs: Seq<Seq<char>>)
    requires
        st.form.opts.ints.len() == 20,
    ensures
        apply_pair(st, "mount_part"@, int_text(x), ls, cs) == (DecodeView { known: st.known + 1, form: FormView { opts: OptionsView { ints: st.form.opts.ints.update(4, x), ..st.form.opts }, ..st.form }, ..st }),
{
    reveal(apply_pair);
    lemma_key_facts();
    lemma_int_text(x);
}

proof fn lemma_apply_forest_part(st: DecodeView, x: i32, ls: Seq<Seq<char>>, cs: Seq<Seq<char>>)
    requires
        st.form.opts.ints.len() == 20,
    ensures
        apply_pair(st, "forest_part"@, int_text(x), ls, cs) == (DecodeView { known: st.known + 1, form: FormView { opts: OptionsView { ints: st.form.opts.ints.update(5, x), ..st.form.opts }, ..st.form }, ..st }),
{
    reveal(apply_pair);
    lemma_key_facts();
    lemma_int_text(x);
}

proof fn lemma_apply_farm_part(st: DecodeView, x: i32, ls: Seq<Seq<char>>, cs: Seq<Seq<char>>)
    requires
        st.form.opts.ints.len() == 20,
    ensures
        apply_pair(st, "farm_part"@, int_text(x), ls, cs) == (DecodeView { known: st.known + 1, form: FormView { opts: OptionsView { ints: st.form.opts.ints.update(6, x), ..st.form.opts }, ..st.form }, ..st }),
{
    reveal(apply_pair);
    lemma_key_facts();
    lemma_int_text(x);
}

proof fn lemma_apply_swamp_part(st: DecodeView, x: i32, ls: Seq<Seq<char>>, cs: Seq<Seq<char>>)
    requires
        st.form.opts.ints.len() == 20,
    ensures
        apply_pair(st, "swamp_part"@, int_text(x), ls, cs) == (DecodeView { known: st.known + 1, form: FormView { opts: OptionsView { ints: st.form.opts.ints.update(7, x), ..st.form.opts }, ..st.form }, ..st }),
{
    reveal(apply_pair);
    lemma_key_facts();
    lemma_int_text(x);
}

proof fn lemma_apply_waste_part(st: DecodeView, x: i32, ls: Seq<Seq<char>>, cs: Seq<Seq<char>>)
    requires
        st.form.opts.ints.len() == 20,
    ensures
        apply_pair(st, "waste_part"@, int_text(x), ls, cs) == (DecodeView { known: st.known + 1, form: FormView { opts: OptionsView { ints: st.form.opts.ints.update(8, x), ..st.form.opts }, ..st.form }, ..st }),
{
    reveal(apply_pair);
    lemma_key_facts();
    lemma_int_text(x);
}

proof fn lemma_apply_highland_part(st: DecodeView, x: i32, ls: Seq<Seq<char>>, cs: Seq<Seq<char>>)
    requires
        st.form.opts.ints.len() == 20,
    ensures
        apply_pair(st, "highland_part"@, int_text(x), ls, cs) == (DecodeView { known: st.known + 1, form: FormView { opts: OptionsView { ints: st.form.opts.ints.update(9, x), ..st.form.opts }, ..st.form }, ..st }),
{
    reveal(apply_pair);
    lemma_key_facts();
    lemma_int_text(x);
}

proof fn lemma_apply_kelp_part(st: DecodeView, x: i32, ls: Seq<Seq<char>>, cs: Seq<Seq<char>>)
    requires
        st.form.opts.ints.len() == 20,
    ensures
        apply_pair(st, "kelp_part"@, int_text(x), ls, cs) == (DecodeView { known: st.known + 1, form: FormView { opts: OptionsView { ints: st.form.opts.ints.update(10, x), ..st.form.opts }, ..st.form }, ..st }),
{
    reveal(apply_pair);
    lemma_key_facts();
    lemma_int_text(x);
}

proof fn lemma_apply_gorge_part(st: DecodeView, x: i32, ls: Seq<Seq<char>>, cs: Seq<Seq<char>>)
    requires
        st.form.opts.ints.len() == 20,
    ensures
        apply_pair(st, "gorge_part"@, int_text(x), ls, cs) == (DecodeView { known: st.known + 1, form: FormView { opts: OptionsView { ints: st.form.opts.ints.update(11, x), ..st.form.opts }, ..st.form }, ..st }),
{
    reveal(apply_pair);
    lemma_key_facts();
    lemma_int_text(x);
}

proof fn lemma_apply_river_part(st: DecodeView, x: i32, ls: Seq<Seq<char>>, cs: Seq<Seq<char>>)
    requires
        st.form.opts.ints.len() == 20,
    ensures
        apply_pair(st, "river_part"@, int_text(x), ls, cs) == (DecodeView { known: st.known + 1, form: FormView { opts: OptionsView { ints: st.form.opts.ints.update(12, x), ..st.form.opts }, ..st.form }, ..st }),
{
    reveal(apply_pair);
    lemma_key_facts();
    lemma_int_text(x);
}

proof fn lemma_apply_hills(st: DecodeView, x: i32, ls: Seq<Seq<char>>, cs: Seq<Seq<char>>)
    requires
        st.form.opts.ints.len() == 20,
    ensures
        apply_pair(st, "hills"@, int_text(x), ls, cs) == (DecodeView { known: st.known + 1, form: FormView { opts: OptionsView { ints: st.form.opts.ints.update(13, x), ..st.form.opts }, ..st.form }, ..st }),
{
    reveal(apply_pair);
    lemma_key_facts();
    lemma_int_text(x);
}

proof fn lemma_apply_rugedness(st: DecodeView, x: i32, ls: Seq<Seq<char>>, cs: Seq<Seq<char>>)
    requires
        st.form.opts.ints.len() == 20,
    ensures
        apply_pair(st, "rugedness"@, int_text(x), ls, cs) == (DecodeView { known: st.known + 1, form: FormView { opts: OptionsView { ints: st.form.opts.ints.update(14, x), ..st.form.opts }, ..st.form }, ..st }),
{
    reveal(apply_pair);
    lemma_key_facts();
    lemma_int_text(x);
}

proof fn lemma_apply_sea_size(st: DecodeView, x: i32, ls: Seq<Seq<char>>, cs: Seq<Seq<char>>)
    requires
        st.form.opts.ints.len() == 20,
    ensures
        apply_pair(st, "sea_size"@, int_text(x), ls, cs) == (DecodeView { known: st.known + 1, form: FormView { opts: OptionsView { ints: st.form.opts.ints.update(15, x), ..st.form.opts }, ..st.form }, ..st }),
{
    reveal(apply_pair);
    lemma_key_facts();
    lemma_int_text(x);
}

proof fn lemma_apply_extra_islands(st: DecodeView, x: i32, ls: Seq<Seq<char>>, cs: Seq<Seq<char>>)
    requires
        st.form.opts.ints.len() == 20,
    ensures
        apply_pair(st, "extra_islands"@, int_text(x), ls, cs) == (DecodeView { known: st.known + 1, form: FormView { opts: OptionsView { ints: st.form.opts.ints.update(16, x), ..st.form.opts }, ..st.form }, ..st }),
{
    reveal(apply_pair);
    lemma_key_facts();
    lemma_int_text(x);
}

proof fn lemma_apply_bridges(st: DecodeView, x: i32, ls: Seq<Seq<char>>, cs: Seq<Seq<char>>)
    requires
        st.form.opts.ints.len() == 20,
    ensures
        apply_pair(st, "bridges"@, int_text(x), ls, cs) == (DecodeView { known: st.known + 1, form: FormView { opts: OptionsView { ints: st.form.opts.ints.update(17, x), ..st.form.opts }, ..st.form }, ..st }),
{
    reveal(apply_pair);
    lemma_key_facts();
    lemma_int_text(x);
}

proof fn lemma_apply_blue_acc(st: DecodeView, x: i32, ls: Seq<Seq<char>>, cs: Seq<Seq<char>>)
    requires
        st.form.opts.ints.len() == 20,
    ensures
        apply_pair(st, "blue_acc"@, int_text(x), ls, cs) == (DecodeView { known: st.known + 1, form: FormView { opts: OptionsView { ints: st.form.opts.ints.update(18, x), ..st.form.opts }, ..st.form }, ..st }),
{
    reveal(apply_pair);
    lemma_key_facts();
    lemma_int_text(x);
}

proof fn lemma_apply_cave_part(st: DecodeView, x: i32, ls: Seq<Seq<char>>, cs: Seq<Seq<char>>)
    requires
        st.form.opts.ints.len() == 20,
    ensures
        apply_pair(st, "cave_part"@, int_text(x), ls, cs) == (DecodeView { known: st.known + 1, form: FormView { opts: OptionsView { ints: st.form.opts.ints.update(19, x), ..st.form.opts }, ..st.form }, ..st }),
{
    reveal(apply_pair);
    lemma_key_facts();
    lemma_int_text(x);
}

proof fn lemma_apply_no_water_prov(st: DecodeView, b: bool, ls: Seq<Seq<char>>, cs: Seq<Seq<char>>)
    ensures
        apply_pair(st, "no_water_prov"@, flag_text(b), ls, cs) == (DecodeView { known: st.known + 1, form: FormView { opts: OptionsView { flags: st.form.opts.flags.update(0, b), ..st.form.opts }, ..st.form }, ..st }),
{
    reveal(apply_pair);
    lemma_key_facts();
    lemma_flag_text(b);
}

proof fn lemma_apply_hwrap(st: DecodeView, b: bool, ls: Seq<Seq<char>>, cs: Seq<Seq<char>>)
    ensures
        apply_pair(st, "hwrap"@, flag_text(b), ls, cs) == (DecodeView { known: st.known + 1, form: FormView { opts: OptionsView { flags: st.form.opts.flags.update(1, b), ..st.form.opts }, ..st.form }, ..st }),
{
    reveal(apply_pair);
    lemma_key_facts();
    lemma_flag_text(b);
}

proof fn lemma_apply_vwrap(st: DecodeView, b: bool, ls: Seq<Seq<char>>, cs: Seq<Seq<char>>)
    ensures
        apply_pair(st, "vwrap"@, flag_text(b), ls, cs) == (DecodeView { known: st.known + 1, form: FormView { opts: OptionsView { flags: st.form.opts.flags.update(2, b), ..st.form.opts }, ..st.form }, ..st }),
{
    reveal(apply_pair);
    lemma_key_facts();
    lemma_flag_text(b);
}

proof fn lemma_apply_cave_world(st: DecodeView, b: bool, ls: Seq<Seq<char>>, cs: Seq<Seq<char>>)
    ensures
        apply_pair(st, "cave_world"@, flag_text(b), ls, cs) == (DecodeView { known: st.known + 1, form: FormView { opts: OptionsView { flags: st.form.opts.flags.update(3, b), ..st.form.opts }, ..st.form }, ..st }),
{
    reveal(apply_pair);
    lemma_key_facts();
    lemma_flag_text(b);
}

proof fn lemma_apply_caves_plane(st: DecodeView, b: bool, ls: Seq<Seq<char>>, cs: Seq<Seq<char>>)
    ensures
        apply_pair(st, "caves_plane"@, flag_text(b), ls, cs) == (DecodeView { known: st.known + 1, form: FormView { opts: OptionsView { flags: st.form.opts.flags.update(4, b), ..st.form.opts }, ..st.form }, ..st }),
{
    reveal(apply_pair);
    lemma_key_facts();
    lemma_flag_text(b);
}

proof fn lemma_apply_roster(st: DecodeView, r: Seq<u32>, ls: Seq<Seq<char>>, cs: Seq<Seq<char>>)
    requires
        r.len() > 0,
    ensures
        apply_pair(st, "roster"@, roster_text(r), ls, cs) == (DecodeView { known: st.known + 1, form: FormView { roster: r, ..st.form }, ..st }),
{
    reveal(apply_pair);
    lemma_key_facts();
    lemma_roster_text(r);
}

proof fn lemma_apply_era(st: DecodeView, e: u8, ls: Seq<Seq<char>>, cs: Seq<Seq<char>>)
    ensures
        apply_pair(st, "era"@, decimal(e as nat), ls, cs) == (DecodeView { known: st.known + 1, form: FormView { era: e, ..st.form }, ..st }),
{
    reveal(apply_pair);
    lemma_key_facts();
    lemma_number_text(e as int);
    lemma_decimal_reads_back(e as nat);
}

/// No key holds white space.
proof fn lemma_keys_plain()
    ensures
        "app"@.len() > 0 && no_ws("app"@),
        "pool"@.len() > 0 && no_ws("pool"@),
        "seed"@.len() > 0 && no_ws("seed"@),
        "name"@.len() > 0 && no_ws("name"@),
        "new_game"@.len() > 0 && no_ws("new_game"@),
        "players"@.len() > 0 && no_ws("players"@),
        "per_player"@.len() > 0 && no_ws("per_player"@),
        "custom_count"@.len() > 0 && no_ws("custom_count"@),
        "auto_size"@.len() > 0 && no_ws("auto_size"@),
        "width"@.len() > 0 && no_ws("width"@),
        "height"@.len() > 0 && no_ws("height"@),
        "layout"@.len() > 0 && no_ws("layout"@),
        "cave_layout"@.len() > 0 && no_ws("cave_layout"@),
        "provinces"@.len() > 0 && no_ws("provinces"@),
        "sea_part"@.len() > 0 && no_ws("sea_part"@),
        "mount_part"@.len() > 0 && no_ws("mount_part"@),
        "forest_part"@.len() > 0 && no_ws("forest_part"@),
        "farm_part"@.len() > 0 && no_ws("farm_part"@),
        "swamp_part"@.len() > 0 && no_ws("swamp_part"@),
        "waste_part"@.len() > 0 && no_ws("waste_part"@),
        "highland_part"@.len() > 0 && no_ws("highland_part"@),
        "kelp_part"@.len() > 0 && no_ws("kelp_part"@),
        "gorge_part"@.len() > 0 && no_ws("gorge_part"@),
        "river_part"@.len() > 0 && no_ws("river_part"@),
        "hills"@.len() > 0 && no_ws("hills"@),
        "rugedness"@.len() > 0 && no_ws("rugedness"@),
        "sea_size"@.len() > 0 && no_ws("sea_size"@),
        "extra_islands"@.len() > 0 && no_ws("extra_islands"@),
        "bridges"@.len() > 0 && no_ws("bridges"@),
        "blue_acc"@.len() > 0 && no_ws("blue_acc"@),
        "cave_part"@.len() > 0 && no_ws("cave_part"@),
        "no_water_prov"@.len() > 0 && no_ws("no_water_prov"@),
        "hwrap"@.len() > 0 && no_ws("hwrap"@),
        "vwrap"@.len() > 0 && no_ws("vwrap"@),
        "cave_world"@.len() > 0 && no_ws("cave_world"@),
        "caves_plane"@.len() > 0 && no_ws("caves_plane"@),
        "roster"@.len() > 0 && no_ws("roster"@),
        "era"@.len() > 0 && no_ws("era"@),
        "generic_starts"@.len() > 0 && no_ws("generic_starts"@),
        "auto_starts"@.len() > 0 && no_ws("auto_starts"@),
{
    reveal_strlit("app");
    assert(no_ws("app"@)) by {
        assert forall|i: int| 0 <= i < "app"@.len() implies !is_ws(#[trigger] "app"@[i]) by {
            assert("app"@ =~= seq!['a', 'p', 'p']);
        }
    }
    reveal_strlit("pool");
    assert(no_ws("pool"@)) by {
        assert forall|i: int| 0 <= i < "pool"@.len() implies !is_ws(#[trigger] "pool"@[i]) by {
            assert("pool"@ =~= seq!['p', 'o', 'o', 'l']);
        }
    }
    reveal_strlit("seed");
    assert(no_ws("seed"@)) by {
        assert forall|i: int| 0 <= i < "seed"@.len() implies !is_ws(#[trigger] "seed"@[i]) by {
            assert("seed"@ =~= seq!['s', 'e', 'e', 'd']);
        }
    }
    reveal_strlit("name");
    assert(no_ws("name"@)) by {
        assert forall|i: int| 0 <= i < "name"@.len() implies !is_ws(#[trigger] "name"@[i]) by {
            assert("name"@ =~= seq!['n', 'a', 'm', 'e']);
        }
    }
    reveal_strlit("new_game");
    assert(no_ws("new_game"@)) by {
        assert forall|i: int| 0 <= i < "new_game"@.len() implies !is_ws(#[trigger] "new_game"@[i]) by {
            assert("new_game"@ =~= seq!['n', 'e', 'w', '_', 'g', 'a', 'm', 'e']);
        }
    }
    reveal_strlit("players");
    assert(no_ws("players"@)) by {
        assert forall|i: int| 0 <= i < "players"@.len() implies !is_ws(#[trigger] "players"@[i]) by {
            assert("players"@ =~= seq!['p', 'l', 'a', 'y', 'e', 'r', 's']);
        }
    }
    reveal_strlit("per_player");
    assert(no_ws("per_player"@)) by {
        assert forall|i: int| 0 <= i < "per_player"@.len() implies !is_ws(#[trigger] "per_player"@[i]) by {
            assert("per_player"@ =~= seq!['p', 'e', 'r', '_', 'p', 'l', 'a', 'y', 'e', 'r']);
        }
    }
    reveal_strlit("custom_count");
    assert(no_ws("custom_count"@)) by {
        assert forall|i: int| 0 <= i < "custom_count"@.len() implies !is_ws(#[trigger] "custom_count"@[i]) by {
            assert("custom_count"@ =~= seq!['c', 'u', 's', 't', 'o', 'm', '_', 'c', 'o', 'u', 'n', 't']);
        }
    }
    reveal_strlit("auto_size");
    assert(no_ws("auto_size"@)) by {
        assert forall|i: int| 0 <= i < "auto_size"@.len() implies !is_ws(#[trigger] "auto_size"@[i]) by {
            assert("auto_size"@ =~= seq!['a', 'u', 't', 'o', '_', 's', 'i', 'z', 'e']);
        }
    }
    reveal_strlit("width");
    assert(no_ws("width"@)) by {
        assert forall|i: int| 0 <= i < "width"@.len() implies !is_ws(#[trigger] "width"@[i]) by {
            assert("width"@ =~= seq!['w', 'i', 'd', 't', 'h']);
        }
    }
    reveal_strlit("height");
    assert(no_ws("height"@)) by {
        assert forall|i: int| 0 <= i < "height"@.len() implies !is_ws(#[trigger] "height"@[i]) by {
            assert("height"@ =~= seq!['h', 'e', 'i', 'g', 'h', 't']);
        }
    }
    reveal_strlit("layout");
    assert(no_ws("layout"@)) by {
        assert forall|i: int| 0 <= i < "layout"@.len() implies !is_ws(#[trigger] "layout"@[i]) by {
            assert("layout"@ =~= seq!['l', 'a', 'y', 'o', 'u', 't']);
        }
    }
    reveal_strlit("cave_layout");
    assert(no_ws("cave_layout"@)) by {
        assert forall|i: int| 0 <= i < "cave_layout"@.len() implies !is_ws(#[trigger] "cave_layout"@[i]) by {
            assert("cave_layout"@ =~= seq!['c', 'a', 'v', 'e', '_', 'l', 'a', 'y', 'o', 'u', 't']);
        }
    }
    reveal_strlit("provinces");
    assert(no_ws("provinces"@)) by {
        assert forall|i: int| 0 <= i < "provinces"@.len() implies !is_ws(#[trigger] "provinces"@[i]) by {
            assert("provinces"@ =~= seq!['p', 'r', 'o', 'v', 'i', 'n', 'c', 'e', 's']);
        }
    }
    reveal_strlit("sea_part");
    assert(no_ws("sea_part"@)) by {
        assert forall|i: int| 0 <= i < "sea_part"@.len() implies !is_ws(#[trigger] "sea_part"@[i]) by {
            assert("sea_part"@ =~= seq!['s', 'e', 'a', '_', 'p', 'a', 'r', 't']);
        }
    }
    reveal_strlit("mount_part");
    assert(no_ws("mount_part"@)) by {
        assert forall|i: int| 0 <= i < "mount_part"@.len() implies !is_ws(#[trigger] "mount_part"@[i]) by {
            assert("mount_part"@ =~= seq!['m', 'o', 'u', 'n', 't', '_', 'p', 'a', 'r', 't']);
        }
    }
    reveal_strlit("forest_part");
    assert(no_ws("forest_part"@)) by {
        assert forall|i: int| 0 <= i < "forest_part"@.len() implies !is_ws(#[trigger] "forest_part"@[i]) by {
            assert("forest_part"@ =~= seq!['f', 'o', 'r', 'e', 's', 't', '_', 'p', 'a', 'r', 't']);
        }
    }
    reveal_strlit("farm_part");
    assert(no_ws("farm_part"@)) by {
        assert forall|i: int| 0 <= i < "farm_part"@.len() implies !is_ws(#[trigger] "farm_part"@[i]) by {
            assert("farm_part"@ =~= seq!['f', 'a', 'r', 'm', '_', 'p', 'a', 'r', 't']);
        }
    }
    reveal_strlit("swamp_part");
    assert(no_ws("swamp_part"@)) by {
        assert forall|i: int| 0 <= i < "swamp_part"@.len() implies !is_ws(#[trigger] "swamp_part"@[i]) by {
            assert("swamp_part"@ =~= seq!['s', 'w', 'a', 'm', 'p', '_', 'p', 'a', 'r', 't']);
        }
    }
    reveal_strlit("waste_part");
    assert(no_ws("waste_part"@)) by {
        assert forall|i: int| 0 <= i < "waste_part"@.len() implies !is_ws(#[trigger] "waste_part"@[i]) by {
            assert("waste_part"@ =~= seq!['w', 'a', 's', 't', 'e', '_', 'p', 'a', 'r', 't']);
        }
    }
    reveal_strlit("highland_part");
    assert(no_ws("highland_part"@)) by {
        assert forall|i: int| 0 <= i < "highland_part"@.len() implies !is_ws(#[trigger] "highland_part"@[i]) by {
            assert("highland_part"@ =~= seq!['h', 'i', 'g', 'h', 'l', 'a', 'n', 'd', '_', 'p', 'a', 'r', 't']);
        }
    }
    reveal_strlit("kelp_part");
    assert(no_ws("kelp_part"@)) by {
        assert forall|i: int| 0 <= i < "kelp_part"@.len() implies !is_ws(#[trigger] "kelp_part"@[i]) by {
            assert("kelp_part"@ =~= seq!['k', 'e', 'l', 'p', '_', 'p', 'a', 'r', 't']);
        }
    }
    reveal_strlit("gorge_part");
    assert(no_ws("gorge_part"@)) by {
        assert forall|i: int| 0 <= i < "gorge_part"@.len() implies !is_ws(#[trigger] "gorge_part"@[i]) by {
            assert("gorge_part"@ =~= seq!['g', 'o', 'r', 'g', 'e', '_', 'p', 'a', 'r', 't']);
        }
    }
    reveal_strlit("river_part");
    assert(no_ws("river_part"@)) by {
        assert forall|i: int| 0 <= i < "river_part"@.len() implies !is_ws(#[trigger] "river_part"@[i]) by {
            assert("river_part"@ =~= seq!['r', 'i', 'v', 'e', 'r', '_', 'p', 'a', 'r', 't']);
        }
    }
    reveal_strlit("hills");
    assert(no_ws("hills"@)) by {
        assert forall|i: int| 0 <= i < "hills"@.len() implies !is_ws(#[trigger] "hills"@[i]) by {
            assert("hills"@ =~= seq!['h', 'i', 'l', 'l', 's']);
        }
    }
    reveal_strlit("rugedness");
    assert(no_ws("rugedness"@)) by {
        assert forall|i: int| 0 <= i < "rugedness"@.len() implies !is_ws(#[trigger] "rugedness"@[i]) by {
            assert("rugedness"@ =~= seq!['r', 'u', 'g', 'e', 'd', 'n', 'e', 's', 's']);
        }
    }
    reveal_strlit("sea_size");
    assert(no_ws("sea_size"@)) by {
        assert forall|i: int| 0 <= i < "sea_size"@.len() implies !is_ws(#[trigger] "sea_size"@[i]) by {
            assert("sea_size"@ =~= seq!['s', 'e', 'a', '_', 's', 'i', 'z', 'e']);
        }
    }
    reveal_strlit("extra_islands");
    assert(no_ws("extra_islands"@)) by {
        assert forall|i: int| 0 <= i < "extra_islands"@.len() implies !is_ws(#[trigger] "extra_islands"@[i]) by {
            assert("extra_islands"@ =~= seq!['e', 'x', 't', 'r', 'a', '_', 'i', 's', 'l', 'a', 'n', 'd', 's']);
        }
    }
    reveal_strlit("bridges");
    assert(no_ws("bridges"@)) by {
        assert forall|i: int| 0 <= i < "bridges"@.len() implies !is_ws(#[trigger] "bridges"@[i]) by {
            assert("bridges"@ =~= seq!['b', 'r', 'i', 'd', 'g', 'e', 's']);
        }
    }
    reveal_strlit("blue_acc");
    assert(no_ws("blue_acc"@)) by {
        assert forall|i: int| 0 <= i < "blue_acc"@.len() implies !is_ws(#[trigger] "blue_acc"@[i]) by {
            assert("blue_acc"@ =~= seq!['b', 'l', 'u', 'e', '_', 'a', 'c', 'c']);
        }
    }
    reveal_strlit("cave_part");
    assert(no_ws("cave_part"@)) by {
        assert forall|i: int| 0 <= i < "cave_part"@.len() implies !is_ws(#[trigger] "cave_part"@[i]) by {
            assert("cave_part"@ =~= seq!['c', 'a', 'v', 'e', '_', 'p', 'a', 'r', 't']);
        }
    }
    reveal_strlit("no_water_prov");
    assert(no_ws("no_water_prov"@)) by {
        assert forall|i: int| 0 <= i < "no_water_prov"@.len() implies !is_ws(#[trigger] "no_water_prov"@[i]) by {
            assert("no_water_prov"@ =~= seq!['n', 'o', '_', 'w', 'a', 't', 'e', 'r', '_', 'p', 'r', 'o', 'v']);
        }
    }
    reveal_strlit("hwrap");
    assert(no_ws("hwrap"@)) by {
        assert forall|i: int| 0 <= i < "hwrap"@.len() implies !is_ws(#[trigger] "hwrap"@[i]) by {
            assert("hwrap"@ =~= seq!['h', 'w', 'r', 'a', 'p']);
        }
    }
    reveal_strlit("vwrap");
    assert(no_ws("vwrap"@)) by {
        assert forall|i: int| 0 <= i < "vwrap"@.len() implies !is_ws(#[trigger] "vwrap"@[i]) by {
            assert("vwrap"@ =~= seq!['v', 'w', 'r', 'a', 'p']);
        }
    }
    reveal_strlit("cave_world");
    assert(no_ws("cave_world"@)) by {
        assert forall|i: int| 0 <= i < "cave_world"@.len() implies !is_ws(#[trigger] "cave_world"@[i]) by {
            assert("cave_world"@ =~= seq!['c', 'a', 'v', 'e', '_', 'w', 'o', 'r', 'l', 'd']);
        }
    }
    reveal_strlit("caves_plane");
    assert(no_ws("caves_plane"@)) by {
        assert forall|i: int| 0 <= i < "caves_plane"@.len() implies !is_ws(#[trigger] "caves_plane"@[i]) by {
            assert("caves_plane"@ =~= seq!['c', 'a', 'v', 'e', 's', '_', 'p', 'l', 'a', 'n', 'e']);
        }
    }
    reveal_strlit("roster");
    assert(no_ws("roster"@)) by {
        assert forall|i: int| 0 <= i < "roster"@.len() implies !is_ws(#[trigger] "roster"@[i]) by {
            assert("roster"@ =~= seq!['r', 'o', 's', 't', 'e', 'r']);
        }
    }
    reveal_strlit("era");
    assert(no_ws("era"@)) by {
        assert forall|i: int| 0 <= i < "era"@.len() implies !is_ws(#[trigger] "era"@[i]) by {
            assert("era"@ =~= seq!['e', 'r', 'a']);
        }
    }
    reveal_strlit("generic_starts");
    assert(no_ws("generic_starts"@)) by {
        assert forall|i: int| 0 <= i < "generic_starts"@.len() implies !is_ws(#[trigger] "generic_starts"@[i]) by {
            assert("generic_starts"@ =~= seq!['g', 'e', 'n', 'e', 'r', 'i', 'c', '_', 's', 't', 'a', 'r', 't', 's']);
        }
    }
    reveal_strlit("auto_starts");
    assert(no_ws("auto_starts"@)) by {
        assert forall|i: int| 0 <= i < "auto_starts"@.len() implies !is_ws(#[trigger] "auto_starts"@[i]) by {
            assert("auto_starts"@ =~= seq!['a', 'u', 't', 'o', '_', 's', 't', 'a', 'r', 't', 's']);
        }
    }
}

/// A key and value that a settings line carries unchanged.
pub open spec fn plain_pair(kv: (Seq<char>, Seq<char>)) -> bool {
    &&& kv.0.len() > 0
    &&& no_ws(kv.0)
    &&& no_hash(kv.1)
    &&& trim(kv.1) == kv.1
}

/// The settings lines of keys and values.
pub open spec fn lines_of_pairs(kvs: Seq<(Seq<char>, Seq<char>)>) -> Seq<Seq<char>> {
    kvs.map_values(|kv: (Seq<char>, Seq<char>)| setting_line(kv.0, kv.1))
}

proof fn lemma_pairs_of_lines(kvs: Seq<(Seq<char>, Seq<char>)>)
    requires
        forall|i: int| 0 <= i < kvs.len() ==> plain_pair(#[trigger] kvs[i]),
    ensures
        pairs_of(lines_of_pairs(kvs)) == kvs,
    decreases kvs.len(),
{
    if kvs.len() > 0 {
        let init = kvs.drop_last();
        assert forall|i: int| 0 <= i < init.len() implies plain_pair(#[trigger] init[i]) by {
            assert(init[i] == kvs[i]);
        }
        lemma_pairs_of_lines(init);
        let ls = lines_of_pairs(kvs);
        assert(ls.drop_last() =~= lines_of_pairs(init));
        let kv = kvs.last();
        assert(plain_pair(kvs[kvs.len() - 1]));
        lemma_key_value(kv.0, kv.1);
        assert(ls.last() == setting_line(kv.0, kv.1));
        assert(init.push(kv) =~= kvs);
    } else {
        assert(lines_of_pairs(kvs) =~= Seq::<Seq<char>>::empty());
    }
}

proof fn lemma_pairs_concat(a: Seq<Seq<char>>, b: Seq<Seq<char>>)
    ensures
        pairs_of(a + b) == pairs_of(a) + pairs_of(b),
    decreases b.len(),
{
    if b.len() == 0 {
        assert(a + b =~= a);
        assert(pairs_of(b) =~= Seq::<(Seq<char>, Seq<char>)>::empty());
        assert(pairs_of(a) + pairs_of(b) =~= pairs_of(a));
    } else {
        assert((a + b).drop_last() =~= a + b.drop_last());
        assert((a + b).last() == b.last());
        lemma_pairs_concat(a, b.drop_last());
        match key_value(b.last()) {
            Some(kv) => {
                assert(pairs_of(a) + pairs_of(b) =~= (pairs_of(a) + pairs_of(b.drop_last())).push(kv));
            },
            None => {},
        }
    }
}

/// The first line of the settings is no settings line.
proof fn lemma_header()
    ensures
        pairs_of(seq![HEADER@]) == Seq::<(Seq<char>, Seq<char>)>::empty(),
{
    reveal_strlit("-- generator settings; loading this map restores them");
    reveal_strlit("-- gen.");
    let h = HEADER@;
    assert(h[0] == '-');
    assert(trim_start(h) == h);
    assert(h.last() == 'm');
    assert(trim_end(h) == h);
    assert(h.take(7)[6] == 'e');
    assert(PREFIX@[6] == '.');
    assert(!starts_with(trim(h), PREFIX@));
    assert(seq![h].drop_last() =~= Seq::<Seq<char>>::empty());
    assert(pairs_of(Seq::<Seq<char>>::empty()) == Seq::<(Seq<char>, Seq<char>)>::empty());
}

proof fn lemma_apply_push(
    st: DecodeView,
    a: Seq<(Seq<char>, Seq<char>)>,
    x: (Seq<char>, Seq<char>),
    ls: Seq<Seq<char>>,
    cs: Seq<Seq<char>>,
)
    ensures
        apply_all(st, a.push(x), ls, cs) == apply_pair(apply_all(st, a, ls, cs), x.0, x.1, ls, cs),
{
    assert(a.push(x).drop_last() =~= a);
    assert(a.push(x).last() == x);
}

proof fn lemma_apply_concat(
    st: DecodeView,
    a: Seq<(Seq<char>, Seq<char>)>,
    b: Seq<(Seq<char>, Seq<char>)>,
    ls: Seq<Seq<char>>,
    cs: Seq<Seq<char>>,
)
    ensures
        apply_all(st, a + b, ls, cs) == apply_all(apply_all(st, a, ls, cs), b, ls, cs),
    decreases b.len(),
{
    if b.len() == 0 {
        assert(a + b =~= a);
    } else {
        assert((a + b).drop_last() =~= a + b.drop_last());
        assert((a + b).last() == b.last());
        lemma_apply_concat(st, a, b.drop_last(), ls, cs);
    }
}

/// The keys and values of the first settings lines.
pub open spec fn head_pairs(form: FormView, app: Seq<char>, pool: Seq<char>, ls: Seq<Seq<char>>, cs: Seq<Seq<char>>) -> Seq<(Seq<char>, Seq<char>)> {
    seq![
        ("app"@, app),
        ("pool"@, pool),
        ("seed"@, decimal(form.seed as nat)),
        ("name"@, form.name),
        ("new_game"@, flag_text(form.new_game)),
        ("players"@, int_text(form.players)),
        ("per_player"@, int_text(form.per_player_bucket)),
        ("custom_count"@, flag_text(form.custom_count)),
        ("auto_size"@, flag_text(form.auto_size)),
        ("width"@, int_text(form.width)),
        ("height"@, int_text(form.height)),
        ("layout"@, ls[form.layout as int]),
        ("cave_layout"@, cs[form.cave_layout as int]),
    ]
}

#[verifier::spinoff_prover]
#[verifier::rlimit(80)]
proof fn lemma_head_apply(st: DecodeView, form: FormView, app: Seq<char>, pool: Seq<char>, ls: Seq<Seq<char>>, cs: Seq<Seq<char>>)
    requires
        form.layout < ls.len(),
        form.cave_layout < cs.len(),
        name_index(ls, ls[form.layout as int]) == Some(form.layout as nat),
        name_index(cs, cs[form.cave_layout as int]) == Some(form.cave_layout as nat),
        trim(ls[form.layout as int]) == ls[form.layout as int],
        trim(cs[form.cave_layout as int]) == cs[form.cave_layout as int],
    ensures
        apply_all(st, head_pairs(form, app, pool, ls, cs), ls, cs) == (DecodeView { known: st.known + 13, app: Some(app), pool: Some(pool), form: FormView { seed: form.seed, name: form.name, new_game: form.new_game, players: form.players, per_player_bucket: form.per_player_bucket, custom_count: form.custom_count, auto_size: form.auto_size, width: form.width, height: form.height, layout: form.layout, cave_layout: form.cave_layout, ..st.form }, ..st }),
{
    let p0 = Seq::<(Seq<char>, Seq<char>)>::empty();
    let s0 = st;
    assert(apply_all(st, p0, ls, cs) == s0);
    let k1 = ("app"@, app);
    let p1 = p0.push(k1);
    lemma_apply_push(st, p0, k1, ls, cs);
    lemma_apply_app(s0, app, ls, cs);
    let s1 = apply_all(st, p1, ls, cs);
    let k2 = ("pool"@, pool);
    let p2 = p1.push(k2);
    lemma_apply_push(st, p1, k2, ls, cs);
    lemma_apply_pool(s1, pool, ls, cs);
    let s2 = apply_all(st, p2, ls, cs);
    let k3 = ("seed"@, decimal(form.seed as nat));
    let p3 = p2.push(k3);
    lemma_apply_push(st, p2, k3, ls, cs);
    lemma_apply_seed(s2, form.seed, ls, cs);
    let s3 = apply_all(st, p3, ls, cs);
    let k4 = ("name"@, form.name);
    let p4 = p3.push(k4);
    lemma_apply_push(st, p3, k4, ls, cs);
    lemma_apply_name(s3, form.name, ls, cs);
    let s4 = apply_all(st, p4, ls, cs);
    let k5 = ("new_game"@, flag_text(form.new_game));
    let p5 = p4.push(k5);
    lemma_apply_push(st, p4, k5, ls, cs);
    lemma_apply_new_game(s4, form.new_game, ls, cs);
    let s5 = apply_all(st, p5, ls, cs);
    let k6 = ("players"@, int_text(form.players));
    let p6 = p5.push(k6);
    lemma_apply_push(st, p5, k6, ls, cs);
    lemma_apply_players(s5, form.players, ls, cs);
    let s6 = apply_all(st, p6, ls, cs);
    let k7 = ("per_player"@, int_text(form.per_player_bucket));
    let p7 = p6.push(k7);
    lemma_apply_push(st, p6, k7, ls, cs);
    lemma_apply_per_player(s6, form.per_player_bucket, ls, cs);
    let s7 = apply_all(st, p7, ls, cs);
    let k8 = ("custom_count"@, flag_text(form.custom_count));
    let p8 = p7.push(k8);
    lemma_apply_push(st, p7, k8, ls, cs);
    lemma_apply_custom_count(s7, form.custom_count, ls, cs);
    let s8 = apply_all(st, p8, ls, cs);
    let k9 = ("auto_size"@, flag_text(form.auto_size));
    let p9 = p8.push(k9);
    lemma_apply_push(st, p8, k9, ls, cs);
    lemma_apply_auto_size(s8, form.auto_size, ls, cs);
    let s9 = apply_all(st, p9, ls, cs);
    let k10 = ("width"@, int_text(form.width));
    let p10 = p9.push(k10);
    lemma_apply_push(st, p9, k10, ls, cs);
    lemma_apply_width(s9, form.width, ls, cs);
    let s10 = apply_all(st, p10, ls, cs);
    let k11 = ("height"@, int_text(form.height));
    let p11 = p10.push(k11);
    lemma_apply_push(st, p10, k11, ls, cs);
    lemma_apply_height(s10, form.height, ls, cs);
    let s11 = apply_all(st, p11, ls, cs);
    let k12 = ("layout"@, ls[form.layout as int]);
    let p12 = p11.push(k12);
    lemma_apply_push(st, p11, k12, ls, cs);
    lemma_apply_layout(s11, ls[form.layout as int], form.layout as nat, ls, cs);
    let s12 = apply_all(st, p12, ls, cs);
    let k13 = ("cave_layout"@, cs[form.cave_layout as int]);
    let p13 = p12.push(k13);
    lemma_apply_push(st, p12, k13, ls, cs);
    lemma_apply_cave_layout(s12, cs[form.cave_layout as int], form.cave_layout as nat, ls, cs);
    let s13 = apply_all(st, p13, ls, cs);
    assert(head_pairs(form, app, pool, ls, cs) =~= p13);
}

/// The keys and values of the generator's numbers and switches.
pub open spec fn option_pairs(o: OptionsView) -> Seq<(Seq<char>, Seq<char>)> {
    seq![
        ("provinces"@, int_text(o.ints[2])),
        ("sea_part"@, int_text(o.ints[3])),
        ("mount_part"@, int_text(o.ints[4])),
        ("forest_part"@, int_text(o.ints[5])),
        ("farm_part"@, int_text(o.ints[6])),
        ("swamp_part"@, int_text(o.ints[7])),
        ("waste_part"@, int_text(o.ints[8])),
        ("highland_part"@, int_text(o.ints[9])),
        ("kelp_part"@, int_text(o.ints[10])),
        ("gorge_part"@, int_text(o.ints[11])),
        ("river_part"@, int_text(o.ints[12])),
        ("hills"@, int_text(o.ints[13])),
        ("rugedness"@, int_text(o.ints[14])),
        ("sea_size"@, int_text(o.ints[15])),
        ("extra_islands"@, int_text(o.ints[16])),
        ("bridges"@, int_text(o.ints[17])),
        ("no_water_prov"@, flag_text(o.flags[0])),
        ("hwrap"@, flag_text(o.flags[1])),
        ("vwrap"@, flag_text(o.flags[2])),
        ("blue_acc"@, int_text(o.ints[18])),
        ("cave_world"@, flag_text(o.flags[3])),
        ("caves_plane"@, flag_text(o.flags[4])),
        ("cave_part"@, int_text(o.ints[19])),
    ]
}

#[verifier::spinoff_prover]
#[verifier::rlimit(80)]
proof fn lemma_option_apply(st: DecodeView, o: OptionsView, ls: Seq<Seq<char>>, cs: Seq<Seq<char>>)
    requires
        o.ints.len() == 20,
        o.flags.len() == 5,
        st.form.opts.ints.len() == 20,
        st.form.opts.flags.len() == 5,
    ensures
        apply_all(st, option_pairs(o), ls, cs) == (DecodeView { known: st.known + 23, form: FormView { opts: OptionsView { ints: st.form.opts.ints.take(2) + o.ints.skip(2), flags: o.flags, ..st.form.opts }, ..st.form }, ..st }),
{
    let p0 = Seq::<(Seq<char>, Seq<char>)>::empty();
    let s0 = st;
    assert(apply_all(st, p0, ls, cs) == s0);
    let k1 = ("provinces"@, int_text(o.ints[2]));
    let p1 = p0.push(k1);
    lemma_apply_push(st, p0, k1, ls, cs);
    lemma_apply_provinces(s0, o.ints[2], ls, cs);
    let s1 = apply_all(st, p1, ls, cs);
    let k2 = ("sea_part"@, int_text(o.ints[3]));
    let p2 = p1.push(k2);
    lemma_apply_push(st, p1, k2, ls, cs);
    lemma_apply_sea_part(s1, o.ints[3], ls, cs);
    let s2 = apply_all(st, p2, ls, cs);
    let k3 = ("mount_part"@, int_text(o.ints[4]));
    let p3 = p2.push(k3);
    lemma_apply_push(st, p2, k3, ls, cs);
    lemma_apply_mount_part(s2, o.ints[4], ls, cs);
    let s3 = apply_all(st, p3, ls, cs);
    let k4 = ("forest_part"@, int_text(o.ints[5]));
    let p4 = p3.push(k4);
    lemma_apply_push(st, p3, k4, ls, cs);
    lemma_apply_forest_part(s3, o.ints[5], ls, cs);
    let s4 = apply_all(st, p4, ls, cs);
    let k5 = ("farm_part"@, int_text(o.ints[6]));
    let p5 = p4.push(k5);
    lemma_apply_push(st, p4, k5, ls, cs);
    lemma_apply_farm_part(s4, o.ints[6], ls, cs);
    let s5 = apply_all(st, p5, ls, cs);
    let k6 = ("swamp_part"@, int_text(o.ints[7]));
    let p6 = p5.push(k6);
    lemma_apply_push(st, p5, k6, ls, cs);
    lemma_apply_swamp_part(s5, o.ints[7], ls, cs);
    let s6 = apply_all(st, p6, ls, cs);
    let k7 = ("waste_part"@, int_text(o.ints[8]));
    let p7 = p6.push(k7);
    lemma_apply_push(st, p6, k7, ls, cs);
    lemma_apply_waste_part(s6, o.ints[8], ls, cs);
    let s7 = apply_all(st, p7, ls, cs);
    let k8 = ("highland_part"@, int_text(o.ints[9]));
    let p8 = p7.push(k8);
    lemma_apply_push(st, p7, k8, ls, cs);
    lemma_apply_highland_part(s7, o.ints[9], ls, cs);
    let s8 = apply_all(st, p8, ls, cs);
    let k9 = ("kelp_part"@, int_text(o.ints[10]));
    let p9 = p8.push(k9);
    lemma_apply_push(st, p8, k9, ls, cs);
    lemma_apply_kelp_part(s8, o.ints[10], ls, cs);
    let s9 = apply_all(st, p9, ls, cs);
    let k10 = ("gorge_part"@, int_text(o.ints[11]));
    let p10 = p9.push(k10);
    lemma_apply_push(st, p9, k10, ls, cs);
    lemma_apply_gorge_part(s9, o.ints[11], ls, cs);
    let s10 = apply_all(st, p10, ls, cs);
    let k11 = ("river_part"@, int_text(o.ints[12]));
    let p11 = p10.push(k11);
    lemma_apply_push(st, p10, k11, ls, cs);
    lemma_apply_river_part(s10, o.ints[12], ls, cs);
    let s11 = apply_all(st, p11, ls, cs);
    let k12 = ("hills"@, int_text(o.ints[13]));
    let p12 = p11.push(k12);
    lemma_apply_push(st, p11, k12, ls, cs);
    lemma_apply_hills(s11, o.ints[13], ls, cs);
    let s12 = apply_all(st, p12, ls, cs);
    let k13 = ("rugedness"@, int_text(o.ints[14]));
    let p13 = p12.push(k13);
    lemma_apply_push(st, p12, k13, ls, cs);
    lemma_apply_rugedness(s12, o.ints[14], ls, cs);
    let s13 = apply_all(st, p13, ls, cs);
    let k14 = ("sea_size"@, int_text(o.ints[15]));
    let p14 = p13.push(k14);
    lemma_apply_push(st, p13, k14, ls, cs);
    lemma_apply_sea_size(s13, o.ints[15], ls, cs);
    let s14 = apply_all(st, p14, ls, cs);
    let k15 = ("extra_islands"@, int_text(o.ints[16]));
    let p15 = p14.push(k15);
    lemma_apply_push(st, p14, k15, ls, cs);
    lemma_apply_extra_islands(s14, o.ints[16], ls, cs);
    let s15 = apply_all(st, p15, ls, cs);
    let k16 = ("bridges"@, int_text(o.ints[17]));
    let p16 = p15.push(k16);
    lemma_apply_push(st, p15, k16, ls, cs);
    lemma_apply_bridges(s15, o.ints[17], ls, cs);
    let s16 = apply_all(st, p16, ls, cs);
    let k17 = ("no_water_prov"@, flag_text(o.flags[0]));
    let p17 = p16.push(k17);
    lemma_apply_push(st, p16, k17, ls, cs);
    lemma_apply_no_water_prov(s16, o.flags[0], ls, cs);
    let s17 = apply_all(st, p17, ls, cs);
    let k18 = ("hwrap"@, flag_text(o.flags[1]));
    let p18 = p17.push(k18);
    lemma_apply_push(st, p17, k18, ls, cs);
    lemma_apply_hwrap(s17, o.flags[1], ls, cs);
    let s18 = apply_all(st, p18, ls, cs);
    let k19 = ("vwrap"@, flag_text(o.flags[2]));
    let p19 = p18.push(k19);
    lemma_apply_push(st, p18, k19, ls, cs);
    lemma_apply_vwrap(s18, o.flags[2], ls, cs);
    let s19 = apply_all(st, p19, ls, cs);
    let k20 = ("blue_acc"@, int_text(o.ints[18]));
    let p20 = p19.push(k20);
    lemma_apply_push(st, p19, k20, ls, cs);
    lemma_apply_blue_acc(s19, o.ints[18], ls, cs);
    let s20 = apply_all(st, p20, ls, cs);
    let k21 = ("cave_world"@, flag_text(o.flags[3]));
    let p21 = p20.push(k21);
    lemma_apply_push(st, p20, k21, ls, cs);
    lemma_apply_cave_world(s20, o.flags[3], ls, cs);
    let s21 = apply_all(st, p21, ls, cs);
    let k22 = ("caves_plane"@, flag_text(o.flags[4]));
    let p22 = p21.push(k22);
    lemma_apply_push(st, p21, k22, ls, cs);
    lemma_apply_caves_plane(s21, o.flags[4], ls, cs);
    let s22 = apply_all(st, p22, ls, cs);
    let k23 = ("cave_part"@, int_text(o.ints[19]));
    let p23 = p22.push(k23);
    lemma_apply_push(st, p22, k23, ls, cs);
    lemma_apply_cave_part(s22, o.ints[19], ls, cs);
    let s23 = apply_all(st, p23, ls, cs);
    assert(option_pairs(o) =~= p23);
    assert(s23.form.opts.ints =~= st.form.opts.ints.take(2) + o.ints.skip(2));
    assert(s23.form.opts.flags =~= o.flags);
}

/// The keys and values of the last settings lines.
pub open spec fn tail_pairs(form: FormView) -> Seq<(Seq<char>, Seq<char>)> {
    seq![
        ("era"@, decimal(form.era as nat)),
        ("generic_starts"@, flag_text(form.generic_starts)),
        ("auto_starts"@, flag_text(form.auto_starts)),
    ]
}

#[verifier::spinoff_prover]
#[verifier::rlimit(80)]
proof fn lemma_tail_apply(st: DecodeView, form: FormView, ls: Seq<Seq<char>>, cs: Seq<Seq<char>>)
    ensures
        apply_all(st, tail_pairs(form), ls, cs) == (DecodeView { known: st.known + 3, form: FormView { era: form.era, generic_starts: form.generic_starts, auto_starts: form.auto_starts, ..st.form }, ..st }),
{
    let p0 = Seq::<(Seq<char>, Seq<char>)>::empty();
    let s0 = st;
    assert(apply_all(st, p0, ls, cs) == s0);
    let k1 = ("era"@, decimal(form.era as nat));
    let p1 = p0.push(k1);
    lemma_apply_push(st, p0, k1, ls, cs);
    lemma_apply_era(s0, form.era, ls, cs);
    let s1 = apply_all(st, p1, ls, cs);
    let k2 = ("generic_starts"@, flag_text(form.generic_starts));
    let p2 = p1.push(k2);
    lemma_apply_push(st, p1, k2, ls, cs);
    lemma_apply_generic_starts(s1, form.generic_starts, ls, cs);
    let s2 = apply_all(st, p2, ls, cs);
    let k3 = ("auto_starts"@, flag_text(form.auto_starts));
    let p3 = p2.push(k3);
    lemma_apply_push(st, p2, k3, ls, cs);
    lemma_apply_auto_starts(s2, form.auto_starts, ls, cs);
    let s3 = apply_all(st, p3, ls, cs);
    assert(tail_pairs(form) =~= p3);
}

#[verifier::spinoff_prover]
#[verifier::rlimit(80)]
proof fn lemma_head_plain(form: FormView, app: Seq<char>, pool: Seq<char>, ls: Seq<Seq<char>>, cs: Seq<Seq<char>>)
    requires
        form.layout < ls.len(),
        form.cave_layout < cs.len(),
        no_hash(app) && trim(app) == app,
        no_hash(pool) && trim(pool) == pool,
        no_hash(form.name) && trim(form.name) == form.name,
        no_hash(ls[form.layout as int]) && trim(ls[form.layout as int]) == ls[form.layout as int],
        no_hash(cs[form.cave_layout as int]) && trim(cs[form.cave_layout as int]) == cs[form.cave_layout as int],
    ensures
        head_pairs(form, app, pool, ls, cs).len() == 13,
        forall|i: int| 0 <= i < 13 ==> plain_pair(#[trigger] head_pairs(form, app, pool, ls, cs)[i]),
{
    lemma_keys_plain();
    lemma_number_text(form.seed as int);
    lemma_flag_text(form.new_game);
    lemma_int_text(form.players);
    lemma_int_text(form.per_player_bucket);
    lemma_flag_text(form.custom_count);
    lemma_flag_text(form.auto_size);
    lemma_int_text(form.width);
    lemma_int_text(form.height);
    let ps = head_pairs(form, app, pool, ls, cs);
    assert forall|i: int| 0 <= i < 13 implies plain_pair(#[trigger] ps[i]) by {
        if i == 0 {
            assert(plain_pair(ps[0]));
        }
        else if i == 1 {
            assert(plain_pair(ps[1]));
        }
        else if i == 2 {
            assert(plain_pair(ps[2]));
        }
        else if i == 3 {
            assert(plain_pair(ps[3]));
        }
        else if i == 4 {
            assert(plain_pair(ps[4]));
        }
        else if i == 5 {
            assert(plain_pair(ps[5]));
        }
        else if i == 6 {
            assert(plain_pair(ps[6]));
        }
        else if i == 7 {
            assert(plain_pair(ps[7]));
        }
        else if i == 8 {
            assert(plain_pair(ps[8]));
        }
        else if i == 9 {
            assert(plain_pair(ps[9]));
        }
        else if i == 10 {
            assert(plain_pair(ps[10]));
        }
        else if i == 11 {
            assert(plain_pair(ps[11]));
        }
        else if i == 12 {
            assert(plain_pair(ps[12]));
        }
    }
}

#[verifier::spinoff_prover]
#[verifier::rlimit(80)]
proof fn lemma_option_plain(o: OptionsView)
    requires
        o.ints.len() == 20,
        o.flags.len() == 5,
    ensures
        option_pairs(o).len() == 23,
        forall|i: int| 0 <= i < 23 ==> plain_pair(#[trigger] option_pairs(o)[i]),
{
    lemma_keys_plain();
    lemma_int_text(o.ints[2]);
    lemma_int_text(o.ints[3]);
    lemma_int_text(o.ints[4]);
    lemma_int_text(o.ints[5]);
    lemma_int_text(o.ints[6]);
    lemma_int_text(o.ints[7]);
    lemma_int_text(o.ints[8]);
    lemma_int_text(o.ints[9]);
    lemma_int_text(o.ints[10]);
    lemma_int_text(o.ints[11]);
    lemma_int_text(o.ints[12]);
    lemma_int_text(o.ints[13]);
    lemma_int_text(o.ints[14]);
    lemma_int_text(o.ints[15]);
    lemma_int_text(o.ints[16]);
    lemma_int_text(o.ints[17]);
    lemma_int_text(o.ints[18]);
    lemma_int_text(o.ints[19]);
    lemma_flag_text(o.flags[0]);
    lemma_flag_text(o.flags[1]);
    lemma_flag_text(o.flags[2]);
    lemma_flag_text(o.flags[3]);
    lemma_flag_text(o.flags[4]);
    let ps = option_pairs(o);
    assert forall|i: int| 0 <= i < 23 implies plain_pair(#[trigger] ps[i]) by {
        if i == 0 {
            assert(plain_pair(ps[0]));
        }
        else if i == 1 {
            assert(plain_pair(ps[1]));
        }
        else if i == 2 {
            assert(plain_pair(ps[2]));
        }
        else if i == 3 {
            assert(plain_pair(ps[3]));
        }
        else if i == 4 {
            assert(plain_pair(ps[4]));
        }
        else if i == 5 {
            assert(plain_pair(ps[5]));
        }
        else if i == 6 {
            assert(plain_pair(ps[6]));
        }
        else if i == 7 {
            assert(plain_pair(ps[7]));
        }
        else if i == 8 {
            assert(plain_pair(ps[8]));
        }
        else if i == 9 {
            assert(plain_pair(ps[9]));
        }
        else if i == 10 {
            assert(plain_pair(ps[10]));
        }
        else if i == 11 {
            assert(plain_pair(ps[11]));
        }
        else if i == 12 {
            assert(plain_pair(ps[12]));
        }
        else if i == 13 {
            assert(plain_pair(ps[13]));
        }
        else if i == 14 {
            assert(plain_pair(ps[14]));
        }
        else if i == 15 {
            assert(plain_pair(ps[15]));
        }
        else if i == 16 {
            assert(plain_pair(ps[16]));
        }
        else if i == 17 {
            assert(plain_pair(ps[17]));
        }
        else if i == 18 {
            assert(plain_pair(ps[18]));
        }
        else if i == 19 {
            assert(plain_pair(ps[19]));
        }
        else if i == 20 {
            assert(plain_pair(ps[20]));
        }
        else if i == 21 {
            assert(plain_pair(ps[21]));
        }
        else if i == 22 {
            assert(plain_pair(ps[22]));
        }
    }
}

proof fn lemma_tail_plain(form: FormView)
    ensures
        tail_pairs(form).len() == 3,
        forall|i: int| 0 <= i < 3 ==> plain_pair(#[trigger] tail_pairs(form)[i]),
{
    lemma_keys_plain();
    lemma_number_text(form.era as int);
    lemma_flag_text(form.generic_starts);
    lemma_flag_text(form.auto_starts);
    let ps = tail_pairs(form);
    assert forall|i: int| 0 <= i < 3 implies plain_pair(#[trigger] ps[i]) by {
        if i == 0 {
            assert(plain_pair(ps[0]));
        }
        else if i == 1 {
            assert(plain_pair(ps[1]));
        }
        else if i == 2 {
            assert(plain_pair(ps[2]));
        }
    }
}


proof fn lemma_name_index(names: Seq<Seq<char>>, i: int)
    requires
        0 <= i < names.len(),
        forall|a: int, b: int| 0 <= a < b < names.len() ==> names[a] != names[b],
    ensures
        name_index(names, names[i]) == Some(i as nat),
    decreases i,
{
    if i > 0 {
        let rest = names.drop_first();
        assert forall|a: int, b: int| 0 <= a < b < rest.len() implies rest[a] != rest[b] by {
            assert(rest[a] == names[a + 1] && rest[b] == names[b + 1]);
        }
        lemma_name_index(rest, i - 1);
        assert(rest[i - 1] == names[i]);
        assert(names[0] != names[i]);
    }
}

/// The form that reading back the settings of `form` onto `base` gives: the
/// form itself, its seed counted as chosen by hand; the generator's width and
/// height, blueprints and ruggedness override, which the settings do not
/// keep, are those of `base`, and so is the roster where the form has none.
pub open spec fn restored(form: FormView, base: FormView) -> FormView {
    FormView {
        opts: OptionsView {
            ints: base.opts.ints.take(2) + form.opts.ints.skip(2),
            flags: form.opts.flags,
            ..base.opts
        },
        roster: if form.roster.len() > 0 {
            form.roster
        } else {
            base.roster
        },
        manual_seed: true,
        ..form
    }
}

/// Names that are told apart, each with no `#` and no white space at its ends.
pub open spec fn plain_names(names: Seq<Seq<char>>) -> bool {
    &&& forall|a: int, b: int| 0 <= a < b < names.len() ==> names[a] != names[b]
    &&& forall|i: int| 0 <= i < names.len() ==> no_hash(#[trigger] names[i]) && trim(names[i]) == names[i]
}

/// A form whose settings read back as they were written: its layouts are
/// among the names given, which are told apart; its name, the app's version
/// and the random pool hold no `#` and no white space at their ends; and it
/// has no own images, whose PNG nothing here reads back.
pub open spec fn keepable(
    form: FormView,
    app: Seq<char>,
    pool: Seq<char>,
    layouts: Seq<Seq<char>>,
    caves: Seq<Seq<char>>,
) -> bool {
    &&& form.layout < layouts.len()
    &&& form.cave_layout < caves.len()
    &&& plain_names(layouts)
    &&& plain_names(caves)
    &&& no_hash(app) && trim(app) == app
    &&& no_hash(pool) && trim(pool) == pool
    &&& no_hash(form.name) && trim(form.name) == form.name
    &&& form.own is None
    &&& form.cave_own is None
    &&& form.opts.ints.len() == 20
    &&& form.opts.flags.len() == 5
}

/// The roster's key and value, where the form has a roster.
pub open spec fn roster_pairs(r: Seq<u32>) -> Seq<(Seq<char>, Seq<char>)> {
    if r.len() > 0 {
        seq![("roster"@, roster_text(r))]
    } else {
        Seq::empty()
    }
}

/// The keys and values that the settings lines of a form carry.
pub open spec fn form_pairs(
    form: FormView,
    app: Seq<char>,
    pool: Seq<char>,
    layouts: Seq<Seq<char>>,
    caves: Seq<Seq<char>>,
) -> Seq<(Seq<char>, Seq<char>)> {
    head_pairs(form, app, pool, layouts, caves) + option_pairs(form.opts) + roster_pairs(form.roster)
        + tail_pairs(form)
}

#[verifier::spinoff_prover]
#[verifier::rlimit(50)]
proof fn lemma_encoded_pairs(
    form: FormView,
    app: Seq<char>,
    pool: Seq<char>,
    layouts: Seq<Seq<char>>,
    caves: Seq<Seq<char>>,
)
    requires
        keepable(form, app, pool, layouts, caves),
    ensures
        pairs_of(spec_encode(form, app, pool, layouts, caves)) == form_pairs(form, app, pool, layouts, caves),
{
    let ls = layouts;
    let cs = caves;
    let hp = head_pairs(form, app, pool, ls, cs);
    let op = option_pairs(form.opts);
    let rp = roster_pairs(form.roster);
    let tp = tail_pairs(form);
    lemma_head_plain(form, app, pool, ls, cs);
    lemma_option_plain(form.opts);
    lemma_tail_plain(form);
    lemma_keys_plain();
    if form.roster.len() > 0 {
        lemma_roster_text(form.roster);
        assert(plain_pair(rp[0]));
    }
    assert forall|i: int| 0 <= i < rp.len() implies plain_pair(#[trigger] rp[i]) by {
        assert(i == 0);
    }
    let lines = spec_encode(form, app, pool, ls, cs);
    assert(image_lines("own"@, form.own) =~= Seq::<Seq<char>>::empty());
    assert(image_lines("cave_own"@, form.cave_own) =~= Seq::<Seq<char>>::empty());
    let h = seq![HEADER@];
    let l1 = lines_of_pairs(hp);
    let l2 = lines_of_pairs(op);
    let l3 = lines_of_pairs(rp);
    let l4 = lines_of_pairs(tp);
    assert(lines =~= h + l1 + l2 + l3 + l4);
    lemma_header();
    lemma_pairs_of_lines(hp);
    lemma_pairs_of_lines(op);
    lemma_pairs_of_lines(rp);
    lemma_pairs_of_lines(tp);
    lemma_pairs_concat(h, l1);
    lemma_pairs_concat(h + l1, l2);
    lemma_pairs_concat(h + l1 + l2, l3);
    lemma_pairs_concat(h + l1 + l2 + l3, l4);
    assert(pairs_of(lines) =~= hp + op + rp + tp);
}

#[verifier::spinoff_prover]
proof fn lemma_apply_form_pairs(
    st: DecodeView,
    form: FormView,
    app: Seq<char>,
    pool: Seq<char>,
    layouts: Seq<Seq<char>>,
    caves: Seq<Seq<char>>,
)
    requires
        keepable(form, app, pool, layouts, caves),
        st.form.opts.ints.len() == 20,
        st.form.opts.flags.len() == 5,
    ensures
        apply_all(st, form_pairs(form, app, pool, layouts, caves), layouts, caves) == (DecodeView {
            form: FormView {
                opts: OptionsView {
                    ints: st.form.opts.ints.take(2) + form.opts.ints.skip(2),
                    flags: form.opts.flags,
                    ..st.form.opts
                },
                roster: if form.roster.len() > 0 {
                    form.roster
                } else {
                    st.form.roster
                },
                own: st.form.own,
                cave_own: st.form.cave_own,
                manual_seed: st.form.manual_seed,
                ..form
            },
            pool: Some(pool),
            app: Some(app),
            known: st.known + if form.roster.len() > 0 {
                40nat
            } else {
                39nat
            },
            ..st
        }),
{
    let ls = layouts;
    let cs = caves;
    lemma_name_index(ls, form.layout as int);
    lemma_name_index(cs, form.cave_layout as int);
    let hp = head_pairs(form, app, pool, ls, cs);
    let op = option_pairs(form.opts);
    let rp = roster_pairs(form.roster);
    let tp = tail_pairs(form);
    lemma_apply_concat(st, hp + op + rp, tp, ls, cs);
    lemma_apply_concat(st, hp + op, rp, ls, cs);
    lemma_apply_concat(st, hp, op, ls, cs);
    lemma_head_apply(st, form, app, pool, ls, cs);
    let s1 = apply_all(st, hp, ls, cs);
    lemma_option_apply(s1, form.opts, ls, cs);
    let s2 = apply_all(s1, op, ls, cs);
    let s3 = apply_all(s2, rp, ls, cs);
    if form.roster.len() > 0 {
        lemma_apply_push(s2, Seq::empty(), ("roster"@, roster_text(form.roster)), ls, cs);
        assert(apply_all(s2, Seq::<(Seq<char>, Seq<char>)>::empty(), ls, cs) == s2);
        lemma_apply_roster(s2, form.roster, ls, cs);
        assert(Seq::<(Seq<char>, Seq<char>)>::empty().push(("roster"@, roster_text(form.roster))) =~= rp);
    } else {
        assert(rp =~= Seq::<(Seq<char>, Seq<char>)>::empty());
        assert(s3 == s2);
    }
    lemma_tail_apply(s3, form, ls, cs);
}

/// Reading back the settings written for a form gives the form back, as
/// `restored` says, with the app's version and the random pool, every key
/// known.
pub proof fn lemma_settings_read_back(
    form: FormView,
    app: Seq<char>,
    pool: Seq<char>,
    layouts: Seq<Seq<char>>,
    caves: Seq<Seq<char>>,
    base: FormView,
)
    requires
        keepable(form, app, pool, layouts, caves),
        base.opts.ints.len() == 20,
        base.opts.flags.len() == 5,
    ensures
        spec_decode(spec_encode(form, app, pool, layouts, caves), base, layouts, caves) == Some(
            DecodeView {
                form: restored(form, base),
                pool: Some(pool),
                app: Some(app),
                known: if form.roster.len() > 0 {
                    40nat
                } else {
                    39nat
                },
                unknown: 0,
                own_label: None,
                own_png: Seq::empty(),
                cave_label: None,
                cave_png: Seq::empty(),
            },
        ),
{
    lemma_encoded_pairs(form, app, pool, layouts, caves);
    let start = DecodeView {
        form: base,
        pool: None,
        app: None,
        known: 0,
        unknown: 0,
        own_label: None,
        own_png: Seq::empty(),
        cave_label: None,
        cave_png: Seq::empty(),
    };
    lemma_apply_form_pairs(start, form, app, pool, layouts, caves);
    let kvs = form_pairs(form, app, pool, layouts, caves);
    assert(head_pairs(form, app, pool, layouts, caves).len() == 13);
    assert(kvs.len() > 0);
    assert(image_from(None, Seq::empty()) == None::<crate::generator_panel::OwnImageView>);
    let got = spec_decode(spec_encode(form, app, pool, layouts, caves), base, layouts, caves)->0;
    assert(got.form == restored(form, base));
}


/// A setting the reader counts as unknown: reading it changes nothing but
/// the count of unknown keys.
pub open spec fn counts_unknown(kv: (Seq<char>, Seq<char>), layouts: Seq<Seq<char>>, caves: Seq<Seq<char>>) -> bool {
    forall|st: DecodeView|
        #[trigger] apply_pair(st, kv.0, kv.1, layouts, caves) == (DecodeView { unknown: st.unknown + 1, ..st })
}

/// What was read, with one unknown key more.
pub open spec fn one_more_unknown(d: Option<DecodeView>) -> Option<DecodeView> {
    match d {
        Some(x) => Some(DecodeView { unknown: x.unknown + 1, ..x }),
        None => None,
    }
}

/// Settings read back past what they do not know: where the lines a
/// keepable form is written as are followed by a setting line whose key the
/// reader counts as unknown, and then by a line that is no setting at all,
/// reading them gives what reading the form's lines gives, with one unknown
/// key counted.
pub proof fn lemma_settings_read_back_past_unknown(
    form: FormView,
    app: Seq<char>,
    pool: Seq<char>,
    layouts: Seq<Seq<char>>,
    caves: Seq<Seq<char>>,
    base: FormView,
    extra: Seq<char>,
    other: Seq<char>,
)
    requires
        keepable(form, app, pool, layouts, caves),
        base.opts.ints.len() == 20,
        base.opts.flags.len() == 5,
        key_value(extra) is Some,
        counts_unknown(key_value(extra)->0, layouts, caves),
        key_value(other) is None,
    ensures
        spec_decode(spec_encode(form, app, pool, layouts, caves) + seq![extra, other], base, layouts, caves)
            == one_more_unknown(spec_decode(spec_encode(form, app, pool, layouts, caves), base, layouts, caves)),
{
    lemma_settings_read_back(form, app, pool, layouts, caves, base);
    let ls = spec_encode(form, app, pool, layouts, caves);
    let all = ls + seq![extra, other];
    let kv = key_value(extra)->0;
    assert(all.drop_last() =~= ls.push(extra));
    assert(all.last() == other);
    assert(ls.push(extra).drop_last() =~= ls);
    assert(ls.push(extra).last() == extra);
    assert(pairs_of(all) == pairs_of(ls.push(extra)));
    assert(pairs_of(ls.push(extra)) == pairs_of(ls).push(kv));
    let kvs = pairs_of(ls);
    assert(kvs.len() > 0);
    assert(kvs.push(kv).drop_last() =~= kvs);
    assert(kvs.push(kv).last() == kv);
    let start = DecodeView {
        form: base,
        pool: None,
        app: None,
        known: 0,
        unknown: 0,
        own_label: None,
        own_png: Seq::empty(),
        cave_label: None,
        cave_png: Seq::empty(),
    };
    let st = apply_all(start, kvs, layouts, caves);
    assert(apply_all(start, kvs.push(kv), layouts, caves) == apply_pair(st, kv.0, kv.1, layouts, caves));
    assert(apply_pair(st, kv.0, kv.1, layouts, caves) == (DecodeView { unknown: st.unknown + 1, ..st }));
}

/// Base64 text is four characters for every three bytes, the last group
/// padded to four.
pub proof fn lemma_b64_length(b: Seq<u8>)
    ensures
        spec_b64_encode(b).len() == 4 * ((b.len() + 2) / 3),
    decreases b.len(),
{
    if b.len() > 3 {
        lemma_b64_length(b.skip(3));
    }
}

/// A byte that stops the reading of base64 text: neither a digit, nor a
/// blank, nor the padding `=`.
pub open spec fn b64_stranger(c: u8) -> bool {
    c != 61 && !b64_blank(c) && b64_value(c) is None
}

/// Base64 text is refused exactly when a stranger stands before its first `=`.
pub proof fn lemma_b64_refusal(t: Seq<u8>)
    ensures
        spec_b64_decode(t) is None <==> exists|i: int|
            0 <= i < t.len() && b64_stranger(#[trigger] t[i]) && forall|j: int| 0 <= j < i ==> t[j] != 61,
    decreases t.len(),
{
    if t.len() > 0 && t[0] != 61 {
        let r = t.drop_first();
        lemma_b64_refusal(r);
        if exists|i: int| 0 <= i < r.len() && b64_stranger(#[trigger] r[i]) && forall|j: int| 0 <= j < i ==> r[j] != 61 {
            let i = choose|i: int| 0 <= i < r.len() && b64_stranger(#[trigger] r[i]) && forall|j: int| 0 <= j < i ==> r[j] != 61;
            assert(t[i + 1] == r[i]);
            assert forall|j: int| 0 <= j < i + 1 implies t[j] != 61 by {
                if j > 0 {
                    assert(t[j] == r[j - 1]);
                }
            }
        }
        if exists|i: int| 0 <= i < t.len() && b64_stranger(#[trigger] t[i]) && forall|j: int| 0 <= j < i ==> t[j] != 61 {
            let i = choose|i: int| 0 <= i < t.len() && b64_stranger(#[trigger] t[i]) && forall|j: int| 0 <= j < i ==> t[j] != 61;
            if i > 0 {
                assert(r[i - 1] == t[i]);
                assert forall|j: int| 0 <= j < i - 1 implies r[j] != 61 by {
                    assert(r[j] == t[j + 1]);
                }
                assert(b64_stranger(r[i - 1]));
            }
        }
    } else {
        if t.len() > 0 {
            assert forall|i: int| 0 <= i < t.len() && b64_stranger(#[trigger] t[i]) implies !(forall|j: int| 0 <= j < i ==> t[j] != 61) by {
                assert(i != 0);
                assert(t[0] == 61);
            }
        }
    }
}

} // verus!
