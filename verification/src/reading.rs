//! What a map file's lines say once they are read again after an edit: the
//! fields a `MapFile` keeps are the ones its lines give, and the edits keep
//! them so.
use vstd::prelude::*;
use crate::mapfile::{
    spec_strip_plane_suffix, rfind,
    map_lines, newline_of,
    command_of, read_line, read_lines, Fields, LinePick, picks, keep_unpicked, upsert,
    insert_after, drop_blank_tail, last_command, first_pick, title_line, imagefile_line,
    terrain_line, gate_line, landname_line, unquote, MapFile, with_runs, clean_name,
};
use crate::text::{
    decimal, signed_decimal, digit_char, digits_value, all_digits, parse_nat, parse_u32,
    parse_i64, parse_i32, parse_signed, unsigned_body, is_ws, ws_pos, trim_start, trim_end,
    trim, words, join, split_on, char_pos, strip_cr, lemma_char_pos, contains, replace_all,
};

verus! {

proof fn lemma_digit_char(d: int)
    requires
        0 <= d < 10,
    ensures
        '0' <= digit_char(d) <= '9',
        digit_char(d) as int - '0' as int == d,
{
}

/// A number written in decimal is a non-empty run of digits worth the number.
pub proof fn lemma_decimal(n: nat)
    ensures
        decimal(n).len() > 0,
        all_digits(decimal(n)),
        digits_value(decimal(n)) == n,
    decreases n,
{
    if n < 10 {
        lemma_digit_char(n as int);
        assert(decimal(n).drop_last() =~= Seq::<char>::empty());
        assert(digits_value(Seq::<char>::empty()) == 0);
        assert(digits_value(decimal(n)) == digits_value(decimal(n).drop_last()) * 10 + (decimal(n).last() as nat - '0' as nat) as nat);
    } else {
        lemma_decimal(n / 10);
        lemma_digit_char((n % 10) as int);
        let s = decimal(n);
        assert(s.drop_last() =~= decimal(n / 10));
        assert(s.last() == digit_char((n % 10) as int));
        assert(digits_value(s) == digits_value(s.drop_last()) * 10 + (s.last() as nat - '0' as nat) as nat);
        assert(n == (n / 10) * 10 + n % 10);
        assert forall|i: int| 0 <= i < s.len() implies '0' <= #[trigger] s[i] <= '9' by {
            if i < s.len() - 1 {
                assert(s[i] == decimal(n / 10)[i]);
            }
        }
    }
}

/// A number written in decimal reads back as itself.
pub proof fn lemma_decimal_reads_back(n: nat)
    ensures
        parse_nat(decimal(n)) == Some(n),
        n <= u32::MAX ==> parse_u32(decimal(n)) == Some(n as u32),
        unsigned_body(decimal(n)) == decimal(n),
        decimal(n)[0] != '-',
        forall|i: int| 0 <= i < decimal(n).len() ==> !is_ws(#[trigger] decimal(n)[i]),
{
    lemma_decimal(n);
    assert('0' <= decimal(n)[0] <= '9');
}

/// An integer written in decimal reads back as itself, in the widths it fits.
pub proof fn lemma_signed_reads_back(n: int)
    ensures
        i64::MIN <= n <= i64::MAX ==> parse_i64(signed_decimal(n)) == Some(n as i64),
        i32::MIN <= n <= i32::MAX ==> parse_i32(signed_decimal(n)) == Some(n as i32),
        signed_decimal(n).len() > 0,
        !is_ws(signed_decimal(n).last()),
        !is_ws(signed_decimal(n)[0]),
        forall|i: int| 0 <= i < signed_decimal(n).len() ==> !is_ws(#[trigger] signed_decimal(n)[i]),
{
    if n < 0 {
        let d = decimal((-n) as nat);
        lemma_decimal_reads_back((-n) as nat);
        let s = signed_decimal(n);
        assert(s.drop_first() =~= d);
        assert(s.last() == d.last());
        assert forall|i: int| 0 <= i < s.len() implies !is_ws(#[trigger] s[i]) by {
            if i > 0 {
                assert(s[i] == d[i - 1]);
            }
        }
    } else {
        lemma_decimal_reads_back(n as nat);
        let d = decimal(n as nat);
        assert(d.last() == d[d.len() - 1]);
    }
}

/// No character of the text is white space.
pub open spec fn no_ws(s: Seq<char>) -> bool {
    forall|i: int| 0 <= i < s.len() ==> !is_ws(#[trigger] s[i])
}

proof fn lemma_ws_pos_word(a: Seq<char>, b: Seq<char>)
    requires
        no_ws(a),
        b.len() == 0 || is_ws(b[0]),
    ensures
        ws_pos(a + b) == a.len(),
    decreases a.len(),
{
    if a.len() > 0 {
        assert((a + b).drop_first() =~= a.drop_first() + b);
        assert((a + b)[0] == a[0]);
        lemma_ws_pos_word(a.drop_first(), b);
    } else {
        assert(a + b =~= b);
    }
}

proof fn lemma_trim_end_keeps(s: Seq<char>)
    requires
        s.len() > 0,
        !is_ws(s.last()),
    ensures
        trim_end(s) == s,
{
}

proof fn lemma_trim_start_space(s: Seq<char>)
    ensures
        trim_start(seq![' '] + s) == trim_start(s),
{
    assert((seq![' '] + s).drop_first() =~= s);
}

/// A line of a command, a space and an argument text is read as that
/// command with the argument text trimmed.
pub proof fn lemma_command_line(cmd: Seq<char>, arg: Seq<char>)
    requires
        cmd.len() > 0,
        cmd[0] == '#',
        no_ws(cmd),
    ensures
        command_of(cmd + seq![' '] + arg) == Some((cmd, trim(arg))),
{
    let l = cmd + seq![' '] + arg;
    assert(l[0] == '#');
    assert(trim_start(l) == l);
    assert(l =~= cmd + (seq![' '] + arg));
    lemma_ws_pos_word(cmd, seq![' '] + arg);
    assert(l.take(cmd.len() as int) =~= cmd);
    assert(l.skip(cmd.len() as int) =~= seq![' '] + arg);
    lemma_trim_start_space(arg);
}

/// Two runs of non-blank characters with a space between are two words.
pub proof fn lemma_two_words(x: Seq<char>, y: Seq<char>)
    requires
        x.len() > 0,
        y.len() > 0,
        no_ws(x),
        no_ws(y),
    ensures
        words(x + seq![' '] + y) == seq![x, y],
{
    let s = x + seq![' '] + y;
    assert(s[0] == x[0]);
    assert(trim_start(s) == s);
    assert(s =~= x + (seq![' '] + y));
    lemma_ws_pos_word(x, seq![' '] + y);
    assert(s.take(x.len() as int) =~= x);
    assert(s.skip(x.len() as int) =~= seq![' '] + y);
    let t = seq![' '] + y;
    lemma_trim_start_space(y);
    assert(trim_start(y) == y);
    assert(y =~= y + Seq::<char>::empty());
    lemma_ws_pos_word(y, Seq::<char>::empty());
    assert(y.take(y.len() as int) =~= y);
    assert(y.skip(y.len() as int) =~= Seq::<char>::empty());
    assert(words(Seq::<char>::empty()) == Seq::<Seq<char>>::empty());
    assert(words(t) == seq![y] + words(Seq::<char>::empty()));
    assert(words(t) =~= seq![y]);
    assert(words(s) == seq![x] + words(t));
    assert(words(s) =~= seq![x, y]);
}

/// The line that names the title sets the title to its trimmed text.
pub proof fn lemma_read_title_line(f: Fields, t: Seq<char>)
    ensures
        read_line(f, title_line(t)) == (Fields { title: trim(t), ..f }),
{
    reveal_strlit("#dom2title ");
    reveal_strlit("#dom2title");
    assert(title_line(t) =~= "#dom2title"@ + seq![' '] + t);
    lemma_command_line("#dom2title"@, t);
}

/// The line that names the picture sets the picture to its trimmed text.
pub proof fn lemma_read_imagefile_line(f: Fields, n: Seq<char>)
    ensures
        read_line(f, imagefile_line(n)) == (Fields { imagefile: Some(trim(n)), ..f }),
{
    reveal_strlit("#imagefile ");
    reveal_strlit("#imagefile");
    reveal_strlit("#dom2title");
    assert(imagefile_line(n) =~= "#imagefile"@ + seq![' '] + n);
    lemma_command_line("#imagefile"@, n);
    assert("#imagefile"@ != "#dom2title"@) by {
        assert("#imagefile"@[1] != "#dom2title"@[1]);
    }
}

proof fn lemma_number_pair(a: nat, m: int)
    ensures
        ({
            let arg = decimal(a) + seq![' '] + signed_decimal(m);
            &&& trim(arg) == arg
            &&& words(arg) == seq![decimal(a), signed_decimal(m)]
            &&& arg.len() > 0
            &&& !is_ws(arg[0])
        }),
{
    let arg = decimal(a) + seq![' '] + signed_decimal(m);
    lemma_decimal(a);
    lemma_decimal_reads_back(a);
    lemma_signed_reads_back(m);
    assert(arg[0] == decimal(a)[0]);
    assert(arg.last() == signed_decimal(m).last());
    assert(trim_start(arg) == arg);
    lemma_trim_end_keeps(arg);
    lemma_two_words(decimal(a), signed_decimal(m));
}

/// The line that gives a province its terrain sets that terrain.
pub proof fn lemma_read_terrain_line(f: Fields, p: u32, m: i64)
    ensures
        read_line(f, terrain_line(p, m)) == (Fields { terrain: f.terrain.insert(p, m), ..f }),
{
    reveal_strlit("#terrain ");
    reveal_strlit(" ");
    reveal_strlit("#terrain");
    reveal_strlit("#dom2title");
    reveal_strlit("#imagefile");
    reveal_strlit("#mapsize");
    reveal_strlit("#wraparound");
    reveal_strlit("#hwraparound");
    reveal_strlit("#vwraparound");
    let arg = decimal(p as nat) + seq![' '] + signed_decimal(m as int);
    assert(terrain_line(p, m) =~= "#terrain"@ + seq![' '] + arg);
    lemma_command_line("#terrain"@, arg);
    lemma_number_pair(p as nat, m as int);
    lemma_decimal_reads_back(p as nat);
    lemma_signed_reads_back(m as int);
    assert("#terrain"@ != "#mapsize"@) by {
        assert("#terrain"@[1] != "#mapsize"@[1]);
    }
}

/// The line that gives a province a gate sets that gate.
pub proof fn lemma_read_gate_line(f: Fields, p: u32, n: i32)
    ensures
        read_line(f, gate_line(p, n)) == (Fields { gates: f.gates.insert(p, n), ..f }),
{
    reveal_strlit("#gate ");
    reveal_strlit(" ");
    reveal_strlit("#gate");
    reveal_strlit("#terrain");
    reveal_strlit("#dom2title");
    reveal_strlit("#imagefile");
    reveal_strlit("#mapsize");
    reveal_strlit("#wraparound");
    reveal_strlit("#hwraparound");
    reveal_strlit("#vwraparound");
    let arg = decimal(p as nat) + seq![' '] + signed_decimal(n as int);
    assert(gate_line(p, n) =~= "#gate"@ + seq![' '] + arg);
    lemma_command_line("#gate"@, arg);
    lemma_number_pair(p as nat, n as int);
    lemma_decimal_reads_back(p as nat);
    lemma_signed_reads_back(n as int);
}

/// What the lines say, read on from what was known before them.
pub open spec fn read_from(f: Fields, lines: Seq<Seq<char>>) -> Fields
    decreases lines.len(),
{
    if lines.len() == 0 {
        f
    } else {
        read_line(read_from(f, lines.drop_last()), lines.last())
    }
}

proof fn lemma_read_lines_from(ls: Seq<Seq<char>>)
    ensures
        read_lines(ls) == read_from(crate::mapfile::no_fields(), ls),
    decreases ls.len(),
{
    if ls.len() > 0 {
        lemma_read_lines_from(ls.drop_last());
    }
}

proof fn lemma_read_from_concat(f: Fields, a: Seq<Seq<char>>, b: Seq<Seq<char>>)
    ensures
        read_from(f, a + b) == read_from(read_from(f, a), b),
    decreases b.len(),
{
    if b.len() == 0 {
        assert(a + b =~= a);
    } else {
        assert((a + b).drop_last() =~= a + b.drop_last());
        assert((a + b).last() == b.last());
        lemma_read_from_concat(f, a, b.drop_last());
    }
}

/// The edits that the reading law covers: the map's title, its picture, a
/// province's terrain and a province's gate.
pub open spec fn covered(k: LinePick) -> bool {
    match k {
        LinePick::Command(c) => c == "#dom2title"@ || c == "#imagefile"@,
        LinePick::Keyed(c, _) => c == "#terrain"@ || c == "#gate"@ || c == "#landname"@,
        LinePick::Link(_, _, _) => false,
    }
}

/// What is known of the map, but for what the edit `k` sets.
pub open spec fn erase(f: Fields, k: LinePick) -> Fields {
    match k {
        LinePick::Command(c) => if c == "#dom2title"@ {
            Fields { title: Seq::empty(), ..f }
        } else if c == "#imagefile"@ {
            Fields { imagefile: None, ..f }
        } else {
            f
        },
        LinePick::Keyed(c, p) => if c == "#terrain"@ {
            Fields { terrain: f.terrain.remove(p), ..f }
        } else if c == "#gate"@ {
            Fields { gates: f.gates.remove(p), ..f }
        } else if c == "#landname"@ {
            Fields { names: f.names.remove(p), ..f }
        } else {
            f
        },
        LinePick::Link(_, _, _) => f,
    }
}

/// Two readings agree on what the edit `k` sets.
pub open spec fn agree(f: Fields, g: Fields, k: LinePick) -> bool {
    match k {
        LinePick::Command(c) => if c == "#dom2title"@ {
            f.title == g.title
        } else if c == "#imagefile"@ {
            f.imagefile == g.imagefile
        } else {
            true
        },
        LinePick::Keyed(c, p) => if c == "#terrain"@ {
            f.terrain.contains_key(p) == g.terrain.contains_key(p) && (f.terrain.contains_key(p)
                ==> f.terrain[p] == g.terrain[p])
        } else if c == "#gate"@ {
            f.gates.contains_key(p) == g.gates.contains_key(p) && (f.gates.contains_key(p)
                ==> f.gates[p] == g.gates[p])
        } else if c == "#landname"@ {
            f.names.contains_key(p) == g.names.contains_key(p) && (f.names.contains_key(p)
                ==> f.names[p] == g.names[p])
        } else {
            true
        },
        LinePick::Link(_, _, _) => true,
    }
}

/// Whether a line, read, may set what the edit `k` sets.
pub open spec fn touches(k: LinePick, line: Seq<char>) -> bool {
    match command_of(line) {
        None => false,
        Some((c, r)) => match k {
            LinePick::Command(cmd) => c == cmd,
            LinePick::Keyed(cmd, p) => c == cmd && words(r).len() > 0 && parse_u32(words(r)[0])
                == Some(p),
            LinePick::Link(_, _, _) => true,
        },
    }
}

/// Every line that may set what `k` sets is one that `k` finds: where the
/// edit names a province, every line about it spells its number as the edit
/// writes it.
pub open spec fn found_as_written(ls: Seq<Seq<char>>, k: LinePick) -> bool {
    forall|i: int| 0 <= i < ls.len() && touches(k, #[trigger] ls[i]) ==> picks(k, ls[i])
}

proof fn lemma_picked_touches(k: LinePick, line: Seq<char>)
    requires
        covered(k),
        picks(k, line),
    ensures
        touches(k, line),
{
    match k {
        LinePick::Keyed(c, p) => {
            lemma_decimal_reads_back(p as nat);
        },
        _ => {},
    }
}

proof fn lemma_agree_same(f: Fields, g: Fields, k: LinePick)
    requires
        covered(k),
        erase(f, k) == erase(g, k),
        agree(f, g, k),
    ensures
        f == g,
{
    lemma_commands_differ();
    match k {
        LinePick::Command(c) => {
            if c == "#dom2title"@ {
                assert(f.title == g.title);
            } else {
                assert(f.imagefile == g.imagefile);
            }
        },
        LinePick::Keyed(c, p) => {
            if c == "#terrain"@ {
                assert(f.terrain.remove(p) == g.terrain.remove(p));
                assert(f.terrain =~= g.terrain) by {
                    assert forall|q: u32| #[trigger] f.terrain.contains_key(q) == g.terrain.contains_key(q) by {
                        if q != p {
                            assert(f.terrain.remove(p).contains_key(q) == f.terrain.contains_key(q));
                            assert(g.terrain.remove(p).contains_key(q) == g.terrain.contains_key(q));
                        }
                    }
                    assert forall|q: u32| #[trigger] f.terrain.contains_key(q) implies f.terrain[q] == g.terrain[q] by {
                        if q != p {
                            assert(f.terrain.remove(p)[q] == f.terrain[q]);
                            assert(g.terrain.remove(p)[q] == g.terrain[q]);
                        }
                    }
                }
            } else if c == "#landname"@ {
                assert(f.names.remove(p) == g.names.remove(p));
                assert(f.names =~= g.names) by {
                    assert forall|q: u32| #[trigger] f.names.contains_key(q) == g.names.contains_key(q) by {
                        if q != p {
                            assert(f.names.remove(p).contains_key(q) == f.names.contains_key(q));
                            assert(g.names.remove(p).contains_key(q) == g.names.contains_key(q));
                        }
                    }
                    assert forall|q: u32| #[trigger] f.names.contains_key(q) implies f.names[q] == g.names[q] by {
                        if q != p {
                            assert(f.names.remove(p)[q] == f.names[q]);
                            assert(g.names.remove(p)[q] == g.names[q]);
                        }
                    }
                }
            } else {
                assert(f.gates.remove(p) == g.gates.remove(p));
                assert(f.gates =~= g.gates) by {
                    assert forall|q: u32| #[trigger] f.gates.contains_key(q) == g.gates.contains_key(q) by {
                        if q != p {
                            assert(f.gates.remove(p).contains_key(q) == f.gates.contains_key(q));
                            assert(g.gates.remove(p).contains_key(q) == g.gates.contains_key(q));
                        }
                    }
                    assert forall|q: u32| #[trigger] f.gates.contains_key(q) implies f.gates[q] == g.gates[q] by {
                        if q != p {
                            assert(f.gates.remove(p)[q] == f.gates[q]);
                            assert(g.gates.remove(p)[q] == g.gates[q]);
                        }
                    }
                }
            }
        },
        LinePick::Link(_, _, _) => {},
    }
}

proof fn lemma_commands_differ()
    ensures
        "#imagefile"@ != "#dom2title"@,
        "#terrain"@ != "#dom2title"@,
        "#terrain"@ != "#imagefile"@,
        "#terrain"@ != "#mapsize"@,
        "#terrain"@ != "#wraparound"@,
        "#terrain"@ != "#hwraparound"@,
        "#terrain"@ != "#vwraparound"@,
        "#gate"@ != "#dom2title"@,
        "#gate"@ != "#imagefile"@,
        "#gate"@ != "#mapsize"@,
        "#gate"@ != "#wraparound"@,
        "#gate"@ != "#hwraparound"@,
        "#gate"@ != "#vwraparound"@,
        "#gate"@ != "#terrain"@,
        "#landname"@ != "#dom2title"@,
        "#landname"@ != "#imagefile"@,
        "#landname"@ != "#mapsize"@,
        "#landname"@ != "#wraparound"@,
        "#landname"@ != "#hwraparound"@,
        "#landname"@ != "#vwraparound"@,
        "#landname"@ != "#terrain"@,
        "#landname"@ != "#gate"@,
{
    reveal_strlit("#landname");
    reveal_strlit("#dom2title");
    reveal_strlit("#imagefile");
    reveal_strlit("#mapsize");
    reveal_strlit("#wraparound");
    reveal_strlit("#hwraparound");
    reveal_strlit("#vwraparound");
    reveal_strlit("#terrain");
    reveal_strlit("#gate");
    assert("#imagefile"@[1] != "#dom2title"@[1]);
    assert("#terrain"@[1] != "#mapsize"@[1]);
    assert("#gate"@.len() != "#wraparound"@.len());
    assert("#gate"@.len() != "#hwraparound"@.len());
    assert("#gate"@.len() != "#vwraparound"@.len());
    assert("#landname"@.len() != "#dom2title"@.len());
    assert("#landname"@.len() != "#imagefile"@.len());
    assert("#landname"@.len() != "#mapsize"@.len());
    assert("#landname"@.len() != "#wraparound"@.len());
    assert("#landname"@.len() != "#hwraparound"@.len());
    assert("#landname"@.len() != "#vwraparound"@.len());
    assert("#landname"@.len() != "#terrain"@.len());
    assert("#landname"@.len() != "#gate"@.len());
}

pub proof fn lemma_trim_end_prefix(t: Seq<char>)
    ensures
        trim_end(t).len() <= t.len(),
        trim_end(t) == t.take(trim_end(t).len() as int),
    decreases t.len(),
{
    if t.len() > 0 && is_ws(t.last()) {
        lemma_trim_end_prefix(t.drop_last());
        assert(t.drop_last().take(trim_end(t).len() as int) =~= t.take(trim_end(t).len() as int));
    } else {
        assert(t.take(t.len() as int) =~= t);
    }
}

/// A trimmed text starts with no white space.
proof fn lemma_trimmed_starts(x: Seq<char>)
    ensures
        trim_start(trim(x)) == trim(x),
{
    let t = trim_start(x);
    crate::text::lemma_trim_start(x);
    lemma_trim_end_prefix(t);
    if trim(x).len() > 0 {
        assert(trim(x)[0] == t[0]);
    }
}

/// The first word of a text with no leading white space runs up to its
/// first white space.
proof fn lemma_first_word(r: Seq<char>)
    requires
        trim_start(r) == r,
        r.len() > 0,
    ensures
        words(r).len() > 0,
        words(r)[0] == r.take(ws_pos(r) as int),
{
}

/// A line that may set what `k` sets changes nothing else.
proof fn lemma_touching_line(f: Fields, l: Seq<char>, k: LinePick)
    requires
        covered(k),
        touches(k, l),
    ensures
        erase(read_line(f, l), k) == erase(f, k),
{
    lemma_commands_differ();
    let (c, rest) = command_of(l)->0;
    let args = words(rest);
    match k {
        LinePick::Keyed(kc, p) => {
            if kc == "#terrain"@ {
                if args.len() >= 2 && parse_u32(args[0]) is Some && parse_i64(args[1]) is Some {
                    let v = parse_i64(args[1])->0;
                    assert(f.terrain.insert(p, v).remove(p) =~= f.terrain.remove(p));
                }
            } else if kc == "#gate"@ {
                if args.len() >= 2 && parse_u32(args[0]) is Some && parse_i32(args[1]) is Some {
                    let v = parse_i32(args[1])->0;
                    assert(f.gates.insert(p, v).remove(p) =~= f.gates.remove(p));
                }
            } else {
                let i = ws_pos(rest);
                lemma_trimmed_starts(trim_start(l).skip(ws_pos(trim_start(l)) as int));
                lemma_first_word(rest);
                if i < rest.len() && parse_u32(rest.take(i as int)) is Some {
                    let v = crate::mapfile::unquote(rest.skip(i as int));
                    assert(f.names.insert(p, v).remove(p) =~= f.names.remove(p));
                }
            }
        },
        _ => {},
    }
}

/// A line that cannot set what `k` sets leaves it as it was, and reads the
/// same whether or not it is known.
proof fn lemma_untouched_line(f: Fields, l: Seq<char>, k: LinePick)
    requires
        covered(k),
        !touches(k, l),
    ensures
        erase(read_line(f, l), k) == read_line(erase(f, k), l),
        agree(read_line(f, l), f, k),
{
    lemma_commands_differ();
    match command_of(l) {
        None => {},
        Some((c, rest)) => {
            let args = words(rest);
            match k {
                LinePick::Keyed(kc, p) => {
                    if kc == "#terrain"@ && c == "#terrain"@ {
                        if args.len() >= 2 && parse_u32(args[0]) is Some && parse_i64(args[1]) is Some {
                            let q = parse_u32(args[0])->0;
                            let v = parse_i64(args[1])->0;
                            assert(q != p);
                            assert(f.terrain.insert(q, v).remove(p) =~= f.terrain.remove(p).insert(q, v));
                        }
                    } else if kc == "#gate"@ && c == "#gate"@ {
                        if args.len() >= 2 && parse_u32(args[0]) is Some && parse_i32(args[1]) is Some {
                            let q = parse_u32(args[0])->0;
                            let v = parse_i32(args[1])->0;
                            assert(q != p);
                            assert(f.gates.insert(q, v).remove(p) =~= f.gates.remove(p).insert(q, v));
                        }
                    } else if kc == "#landname"@ && c == "#landname"@ {
                        let i = ws_pos(rest);
                        lemma_trimmed_starts(trim_start(l).skip(ws_pos(trim_start(l)) as int));
                        if i < rest.len() && parse_u32(rest.take(i as int)) is Some {
                            lemma_first_word(rest);
                            let q = parse_u32(rest.take(i as int))->0;
                            let v = crate::mapfile::unquote(rest.skip(i as int));
                            assert(q != p);
                            assert(f.names.insert(q, v).remove(p) =~= f.names.remove(p).insert(q, v));
                        }
                    }
                },
                _ => {},
            }
        },
    }
}

proof fn lemma_read_kept(f: Fields, g: Fields, ls: Seq<Seq<char>>, k: LinePick)
    requires
        covered(k),
        erase(f, k) == erase(g, k),
        found_as_written(ls, k),
    ensures
        erase(read_from(f, ls), k) == erase(read_from(g, keep_unpicked(ls, k)), k),
        agree(read_from(g, keep_unpicked(ls, k)), g, k),
    decreases ls.len(),
{
    if ls.len() > 0 {
        let init = ls.drop_last();
        assert(found_as_written(init, k)) by {
            assert forall|i: int| 0 <= i < init.len() && touches(k, #[trigger] init[i]) implies picks(
                k,
                init[i],
            ) by {
                assert(init[i] == ls[i]);
            }
        }
        lemma_read_kept(f, g, init, k);
        let ff = read_from(f, init);
        let gg = read_from(g, keep_unpicked(init, k));
        let l = ls.last();
        assert(l == ls[ls.len() - 1]);
        if picks(k, l) {
            lemma_picked_touches(k, l);
            lemma_touching_line(ff, l, k);
        } else {
            assert(!touches(k, l));
            lemma_untouched_line(ff, l, k);
            lemma_untouched_line(gg, l, k);
            let kp = keep_unpicked(ls, k);
            assert(kp.drop_last() =~= keep_unpicked(init, k));
            assert(kp.last() == l);
        }
    }
}

proof fn lemma_least_pick(ls: Seq<Seq<char>>, k: LinePick, i: int)
    requires
        0 <= i < ls.len(),
        picks(k, ls[i]),
    ensures
        exists|j: int|
            0 <= j < ls.len() && picks(k, #[trigger] ls[j]) && forall|m: int|
                0 <= m < j ==> !picks(k, #[trigger] ls[m]),
    decreases i,
{
    if exists|m: int| 0 <= m < i && picks(k, #[trigger] ls[m]) {
        let m = choose|m: int| 0 <= m < i && picks(k, #[trigger] ls[m]);
        lemma_least_pick(ls, k, m);
    } else {
        assert(forall|m: int| 0 <= m < i ==> !picks(k, #[trigger] ls[m]));
    }
}

proof fn lemma_first_pick(ls: Seq<Seq<char>>, k: LinePick)
    ensures
        match first_pick(ls, k) {
            Some(i) => i < ls.len() && picks(k, ls[i as int]) && forall|j: int|
                0 <= j < i ==> !picks(k, #[trigger] ls[j]),
            None => forall|j: int| 0 <= j < ls.len() ==> !picks(k, #[trigger] ls[j]),
        },
{
    if exists|i: int| 0 <= i < ls.len() && picks(k, #[trigger] ls[i]) {
        let i = choose|i: int| 0 <= i < ls.len() && picks(k, #[trigger] ls[i]);
        lemma_least_pick(ls, k, i);
    }
}

proof fn lemma_greatest_command(ls: Seq<Seq<char>>, cmd: Seq<char>, i: int)
    requires
        0 <= i < ls.len(),
        picks(LinePick::Command(cmd), ls[i]),
    ensures
        exists|j: int|
            0 <= j < ls.len() && picks(LinePick::Command(cmd), #[trigger] ls[j]) && forall|m: int|
                j < m < ls.len() ==> !picks(LinePick::Command(cmd), #[trigger] ls[m]),
    decreases ls.len() - i,
{
    if exists|m: int| i < m < ls.len() && picks(LinePick::Command(cmd), #[trigger] ls[m]) {
        let m = choose|m: int| i < m < ls.len() && picks(LinePick::Command(cmd), #[trigger] ls[m]);
        lemma_greatest_command(ls, cmd, m);
    } else {
        assert(forall|m: int| i < m < ls.len() ==> !picks(LinePick::Command(cmd), #[trigger] ls[m]));
    }
}

proof fn lemma_last_command(ls: Seq<Seq<char>>, cmd: Seq<char>)
    ensures
        last_command(ls, cmd) matches Some(i) ==> i < ls.len(),
{
    if exists|i: int| 0 <= i < ls.len() && picks(LinePick::Command(cmd), #[trigger] ls[i]) {
        let i = choose|i: int| 0 <= i < ls.len() && picks(LinePick::Command(cmd), #[trigger] ls[i]);
        lemma_greatest_command(ls, cmd, i);
    }
}

proof fn lemma_keep_all(ls: Seq<Seq<char>>, k: LinePick)
    requires
        forall|j: int| 0 <= j < ls.len() ==> !picks(k, #[trigger] ls[j]),
    ensures
        keep_unpicked(ls, k) == ls,
    decreases ls.len(),
{
    if ls.len() > 0 {
        let init = ls.drop_last();
        assert forall|j: int| 0 <= j < init.len() implies !picks(k, #[trigger] init[j]) by {
            assert(init[j] == ls[j]);
        }
        lemma_keep_all(init, k);
        assert(!picks(k, ls[ls.len() - 1]));
        assert(init.push(ls.last()) =~= ls);
    }
}

proof fn lemma_empty_line(f: Fields)
    ensures
        read_line(f, Seq::empty()) == f,
{
    assert(trim_start(Seq::<char>::empty()) == Seq::<char>::empty());
}

proof fn lemma_blank_tail_reads(f: Fields, ls: Seq<Seq<char>>)
    ensures
        read_from(f, drop_blank_tail(ls)) == read_from(f, ls),
    decreases ls.len(),
{
    if ls.len() > 0 && ls.last().len() == 0 {
        lemma_blank_tail_reads(f, ls.drop_last());
        assert(ls.last() =~= Seq::<char>::empty());
        lemma_empty_line(read_from(f, ls.drop_last()));
    }
}

proof fn lemma_one(f: Fields, x: Seq<char>)
    ensures
        read_from(f, seq![x]) == read_line(f, x),
{
    assert(seq![x].drop_last() =~= Seq::<Seq<char>>::empty());
    assert(read_from(f, Seq::<Seq<char>>::empty()) == f);
    assert(seq![x].last() == x);
}

/// A line settles what `k` sets: read after anything, it leaves the same.
pub open spec fn settles(k: LinePick, line: Seq<char>) -> bool {
    forall|a: Fields, b: Fields| agree(#[trigger] read_line(a, line), #[trigger] read_line(b, line), k)
}

proof fn lemma_append_reads(ls: Seq<Seq<char>>, line: Seq<char>)
    ensures
        read_lines(drop_blank_tail(ls) + seq![Seq::<char>::empty(), line, Seq::<char>::empty()])
            == read_line(read_lines(ls), line),
{
    let no = crate::mapfile::no_fields();
    let d = drop_blank_tail(ls);
    let e = Seq::<char>::empty();
    let new = d + seq![e, line, e];
    lemma_read_lines_from(ls);
    lemma_read_lines_from(new);
    lemma_blank_tail_reads(no, ls);
    let ff = read_from(no, d);
    lemma_read_from_concat(no, d, seq![e, line, e]);
    assert(seq![e, line, e].drop_last() =~= seq![e, line]);
    assert(seq![e, line].drop_last() =~= seq![e]);
    lemma_one(ff, e);
    lemma_empty_line(ff);
    assert(seq![e, line].last() == line);
    assert(read_from(ff, seq![e, line]) == read_line(ff, line));
    assert(seq![e, line, e].last() == e);
    lemma_empty_line(read_line(ff, line));
    assert(read_from(ff, seq![e, line, e]) == read_line(ff, line));
}

#[verifier::spinoff_prover]
proof fn lemma_insert_at_reads(ls: Seq<Seq<char>>, j: int, line: Seq<char>, k: LinePick)
    requires
        0 <= j <= ls.len(),
        covered(k),
        touches(k, line),
        settles(k, line),
        found_as_written(ls, k),
        forall|m: int| 0 <= m < ls.len() ==> !picks(k, #[trigger] ls[m]),
    ensures
        read_lines(ls.insert(j, line)) == read_line(read_lines(ls), line),
{
    let no = crate::mapfile::no_fields();
    let new = ls.insert(j, line);
    lemma_read_lines_from(ls);
    lemma_read_lines_from(new);
    let a = ls.take(j);
    let b = ls.skip(j);
    assert(ls =~= a + b);
    assert(new =~= a + seq![line] + b);
    let f1 = read_from(no, a);
    lemma_read_from_concat(no, a, b);
    lemma_read_from_concat(no, a + seq![line], b);
    lemma_read_from_concat(no, a, seq![line]);
    lemma_one(f1, line);
    assert forall|m: int| 0 <= m < b.len() implies !picks(k, #[trigger] b[m]) by {
        assert(b[m] == ls[j + m]);
    }
    assert(found_as_written(b, k)) by {
        assert forall|m: int| 0 <= m < b.len() && touches(k, #[trigger] b[m]) implies picks(k, b[m]) by {
            assert(b[m] == ls[j + m]);
        }
    }
    lemma_keep_all(b, k);
    lemma_touching_line(f1, line, k);
    lemma_read_kept(f1, read_line(f1, line), b, k);
    let old = read_from(no, ls);
    let nw = read_from(no, new);
    lemma_touching_line(old, line, k);
    assert(agree(read_line(f1, line), read_line(old, line), k));
    lemma_agree_same(nw, read_line(old, line), k);
}

proof fn lemma_insert_after_reads(ls: Seq<Seq<char>>, anchors: Seq<Seq<char>>, line: Seq<char>, k: LinePick)
    requires
        covered(k),
        touches(k, line),
        settles(k, line),
        found_as_written(ls, k),
        forall|j: int| 0 <= j < ls.len() ==> !picks(k, #[trigger] ls[j]),
    ensures
        read_lines(insert_after(ls, anchors, line)) == read_line(read_lines(ls), line),
    decreases anchors.len(),
{
    if anchors.len() == 0 {
        lemma_append_reads(ls, line);
    } else {
        lemma_last_command(ls, anchors[0]);
        match last_command(ls, anchors[0]) {
            Some(i) => {
                lemma_insert_at_reads(ls, i as int + 1, line, k);
            },
            None => {
                lemma_insert_after_reads(ls, anchors.drop_first(), line, k);
            },
        }
    }
}

/// Setting a line and reading the lines again gives what reading the new
/// line after the old lines gives, for the edits the law covers, when every
/// line about what the edit sets is one the edit finds.
pub proof fn lemma_upsert_reads(ls: Seq<Seq<char>>, k: LinePick, line: Seq<char>, anchors: Seq<Seq<char>>)
    requires
        covered(k),
        picks(k, line),
        settles(k, line),
        found_as_written(ls, k),
    ensures
        read_lines(upsert(ls, k, line, anchors)) == read_line(read_lines(ls), line),
{
    lemma_picked_touches(k, line);
    lemma_first_pick(ls, k);
    let no = crate::mapfile::no_fields();
    let new = upsert(ls, k, line, anchors);
    lemma_read_lines_from(ls);
    lemma_read_lines_from(new);
    match first_pick(ls, k) {
        Some(i) => {
            let i = i as int;
            let a = ls.take(i);
            let x = ls[i];
            let b = ls.skip(i + 1);
            assert(ls =~= a + seq![x] + b);
            assert(new == a + seq![line] + keep_unpicked(b, k));
            let f1 = read_from(no, a);
            lemma_read_from_concat(no, a + seq![x], b);
            lemma_read_from_concat(no, a, seq![x]);
            lemma_read_from_concat(no, a + seq![line], keep_unpicked(b, k));
            lemma_read_from_concat(no, a, seq![line]);
            lemma_one(f1, x);
            lemma_one(f1, line);
            lemma_picked_touches(k, x);
            lemma_touching_line(f1, x, k);
            lemma_touching_line(f1, line, k);
            assert(found_as_written(b, k)) by {
                assert forall|m: int| 0 <= m < b.len() && touches(k, #[trigger] b[m]) implies picks(
                    k,
                    b[m],
                ) by {
                    assert(b[m] == ls[i + 1 + m]);
                }
            }
            lemma_read_kept(read_line(f1, x), read_line(f1, line), b, k);
            let old = read_from(no, ls);
            let nw = read_from(no, new);
            lemma_touching_line(old, line, k);
            assert(agree(read_line(f1, line), read_line(old, line), k));
            lemma_agree_same(nw, read_line(old, line), k);
        },
        None => {
            lemma_insert_after_reads(ls, anchors, line, k);
        },
    }
}

/// Taking away the lines that an edit finds and reading the lines again
/// gives what was read before, but for what the edit sets, which is then
/// unknown.
pub proof fn lemma_keep_unpicked_reads(ls: Seq<Seq<char>>, k: LinePick)
    requires
        covered(k),
        found_as_written(ls, k),
    ensures
        erase(read_lines(keep_unpicked(ls, k)), k) == erase(read_lines(ls), k),
        agree(read_lines(keep_unpicked(ls, k)), crate::mapfile::no_fields(), k),
{
    let no = crate::mapfile::no_fields();
    lemma_read_lines_from(ls);
    lemma_read_lines_from(keep_unpicked(ls, k));
    lemma_read_kept(no, no, ls, k);
}

/// Setting the title in the lines and reading them again gives the old
/// reading with the new title, when the title has no white space at its ends.
pub proof fn lemma_title_reads_back(ls: Seq<Seq<char>>, t: Seq<char>, anchors: Seq<Seq<char>>)
    requires
        trim(t) == t,
    ensures
        read_lines(upsert(ls, LinePick::Command("#dom2title"@), title_line(t), anchors)) == (Fields {
            title: t,
            ..read_lines(ls)
        }),
{
    let k = LinePick::Command("#dom2title"@);
    let line = title_line(t);
    lemma_commands_differ();
    reveal_strlit("#dom2title ");
    reveal_strlit("#dom2title");
    assert(line =~= "#dom2title"@ + seq![' '] + t);
    lemma_command_line("#dom2title"@, t);
    assert forall|a: Fields, b: Fields| agree(#[trigger] read_line(a, line), #[trigger] read_line(b, line), k) by {
        lemma_read_title_line(a, t);
        lemma_read_title_line(b, t);
    }
    assert(found_as_written(ls, k));
    lemma_upsert_reads(ls, k, line, anchors);
    lemma_read_title_line(read_lines(ls), t);
}

/// Setting the picture in the lines and reading them again gives the old
/// reading with the new picture, when its name has no white space at its ends.
pub proof fn lemma_imagefile_reads_back(ls: Seq<Seq<char>>, n: Seq<char>, anchors: Seq<Seq<char>>)
    requires
        trim(n) == n,
    ensures
        read_lines(upsert(ls, LinePick::Command("#imagefile"@), imagefile_line(n), anchors)) == (Fields {
            imagefile: Some(n),
            ..read_lines(ls)
        }),
{
    let k = LinePick::Command("#imagefile"@);
    let line = imagefile_line(n);
    lemma_commands_differ();
    reveal_strlit("#imagefile ");
    reveal_strlit("#imagefile");
    assert(line =~= "#imagefile"@ + seq![' '] + n);
    lemma_command_line("#imagefile"@, n);
    assert forall|a: Fields, b: Fields| agree(#[trigger] read_line(a, line), #[trigger] read_line(b, line), k) by {
        lemma_read_imagefile_line(a, n);
        lemma_read_imagefile_line(b, n);
    }
    assert(found_as_written(ls, k));
    lemma_upsert_reads(ls, k, line, anchors);
    lemma_read_imagefile_line(read_lines(ls), n);
}

/// Setting a province's terrain in the lines and reading them again gives
/// the old reading with the new terrain, when every terrain line of that
/// province spells its number as the edit does.
pub proof fn lemma_terrain_reads_back(ls: Seq<Seq<char>>, p: u32, m: i64, anchors: Seq<Seq<char>>)
    requires
        found_as_written(ls, LinePick::Keyed("#terrain"@, p)),
    ensures
        read_lines(upsert(ls, LinePick::Keyed("#terrain"@, p), terrain_line(p, m), anchors)) == (Fields {
            terrain: read_lines(ls).terrain.insert(p, m),
            ..read_lines(ls)
        }),
{
    let k = LinePick::Keyed("#terrain"@, p);
    let line = terrain_line(p, m);
    lemma_commands_differ();
    reveal_strlit("#terrain ");
    reveal_strlit(" ");
    reveal_strlit("#terrain");
    let arg = decimal(p as nat) + seq![' '] + signed_decimal(m as int);
    assert(line =~= "#terrain"@ + seq![' '] + arg);
    lemma_command_line("#terrain"@, arg);
    lemma_number_pair(p as nat, m as int);
    assert(picks(k, line));
    assert forall|a: Fields, b: Fields| agree(#[trigger] read_line(a, line), #[trigger] read_line(b, line), k) by {
        lemma_read_terrain_line(a, p, m);
        lemma_read_terrain_line(b, p, m);
    }
    lemma_upsert_reads(ls, k, line, anchors);
    lemma_read_terrain_line(read_lines(ls), p, m);
}

/// Setting a province's gate in the lines and reading them again gives the
/// old reading with the new gate, when every gate line of that province
/// spells its number as the edit does.
pub proof fn lemma_gate_reads_back(ls: Seq<Seq<char>>, p: u32, n: i32, anchors: Seq<Seq<char>>)
    requires
        found_as_written(ls, LinePick::Keyed("#gate"@, p)),
    ensures
        read_lines(upsert(ls, LinePick::Keyed("#gate"@, p), gate_line(p, n), anchors)) == (Fields {
            gates: read_lines(ls).gates.insert(p, n),
            ..read_lines(ls)
        }),
{
    let k = LinePick::Keyed("#gate"@, p);
    let line = gate_line(p, n);
    lemma_commands_differ();
    reveal_strlit("#gate ");
    reveal_strlit(" ");
    reveal_strlit("#gate");
    let arg = decimal(p as nat) + seq![' '] + signed_decimal(n as int);
    assert(line =~= "#gate"@ + seq![' '] + arg);
    lemma_command_line("#gate"@, arg);
    lemma_number_pair(p as nat, n as int);
    assert(picks(k, line));
    assert forall|a: Fields, b: Fields| agree(#[trigger] read_line(a, line), #[trigger] read_line(b, line), k) by {
        lemma_read_gate_line(a, p, n);
        lemma_read_gate_line(b, p, n);
    }
    lemma_upsert_reads(ls, k, line, anchors);
    lemma_read_gate_line(read_lines(ls), p, n);
}

/// Taking a province's gate lines away and reading the lines again gives
/// the old reading without that gate, when every gate line of that province
/// spells its number as the edit does.
pub proof fn lemma_gate_removal_reads_back(ls: Seq<Seq<char>>, p: u32)
    requires
        found_as_written(ls, LinePick::Keyed("#gate"@, p)),
    ensures
        read_lines(keep_unpicked(ls, LinePick::Keyed("#gate"@, p))) == (Fields {
            gates: read_lines(ls).gates.remove(p),
            ..read_lines(ls)
        }),
{
    let k = LinePick::Keyed("#gate"@, p);
    lemma_commands_differ();
    lemma_keep_unpicked_reads(ls, k);
    let want = Fields { gates: read_lines(ls).gates.remove(p), ..read_lines(ls) };
    assert(read_lines(ls).gates.remove(p).remove(p) =~= read_lines(ls).gates.remove(p));
    assert(erase(want, k) == erase(read_lines(ls), k));
    lemma_agree_same(read_lines(keep_unpicked(ls, k)), want, k);
}

proof fn lemma_name_arg(p: u32, c: Seq<char>)
    ensures
        ({
            let arg = decimal(p as nat) + seq![' ', '"'] + c + seq!['"'];
            &&& trim(arg) == arg
            &&& trim_start(arg) == arg
            &&& arg.len() > 0
            &&& ws_pos(arg) == decimal(p as nat).len()
            &&& arg.take(ws_pos(arg) as int) == decimal(p as nat)
            &&& unquote(arg.skip(ws_pos(arg) as int)) == c
        }),
{
    let d = decimal(p as nat);
    let tail = seq![' ', '"'] + c + seq!['"'];
    let arg = d + seq![' ', '"'] + c + seq!['"'];
    lemma_decimal(p as nat);
    lemma_decimal_reads_back(p as nat);
    assert(arg =~= d + tail);
    assert(arg[0] == d[0]);
    assert(trim_start(arg) == arg);
    assert(arg.last() == '"');
    lemma_trim_end_keeps(arg);
    assert(tail[0] == ' ');
    lemma_ws_pos_word(d, tail);
    assert(arg.take(d.len() as int) =~= d);
    assert(arg.skip(d.len() as int) =~= tail);
    let q = seq!['"'] + c + seq!['"'];
    assert(tail =~= seq![' '] + q);
    lemma_trim_start_space(q);
    assert(q[0] == '"');
    assert(trim_start(q) == q);
    assert(q.last() == '"');
    lemma_trim_end_keeps(q);
    assert(q.subrange(1, q.len() - 1) =~= c);
}

/// The line that names a province sets that name.
pub proof fn lemma_read_landname_line(f: Fields, p: u32, c: Seq<char>)
    ensures
        read_line(f, landname_line(p, c)) == (Fields { names: f.names.insert(p, c), ..f }),
{
    lemma_commands_differ();
    reveal_strlit("#landname ");
    reveal_strlit(" \"");
    reveal_strlit("\"");
    reveal_strlit("#landname");
    let arg = decimal(p as nat) + seq![' ', '"'] + c + seq!['"'];
    assert(landname_line(p, c) =~= "#landname"@ + seq![' '] + arg);
    lemma_command_line("#landname"@, arg);
    lemma_name_arg(p, c);
    lemma_decimal_reads_back(p as nat);
}

/// Setting a province's name in the lines and reading them again gives the
/// old reading with the new name, when every name line of that province
/// spells its number as the edit does.
pub proof fn lemma_name_reads_back(ls: Seq<Seq<char>>, p: u32, c: Seq<char>, anchors: Seq<Seq<char>>)
    requires
        found_as_written(ls, LinePick::Keyed("#landname"@, p)),
    ensures
        read_lines(upsert(ls, LinePick::Keyed("#landname"@, p), landname_line(p, c), anchors)) == (Fields {
            names: read_lines(ls).names.insert(p, c),
            ..read_lines(ls)
        }),
{
    let k = LinePick::Keyed("#landname"@, p);
    let line = landname_line(p, c);
    lemma_commands_differ();
    reveal_strlit("#landname ");
    reveal_strlit(" \"");
    reveal_strlit("\"");
    reveal_strlit("#landname");
    let arg = decimal(p as nat) + seq![' ', '"'] + c + seq!['"'];
    assert(line =~= "#landname"@ + seq![' '] + arg);
    lemma_command_line("#landname"@, arg);
    lemma_name_arg(p, c);
    lemma_first_word(arg);
    assert(picks(k, line));
    assert forall|a: Fields, b: Fields| agree(#[trigger] read_line(a, line), #[trigger] read_line(b, line), k) by {
        lemma_read_landname_line(a, p, c);
        lemma_read_landname_line(b, p, c);
    }
    lemma_upsert_reads(ls, k, line, anchors);
    lemma_read_landname_line(read_lines(ls), p, c);
}

/// Taking a province's name lines away and reading the lines again gives
/// the old reading without that name, when every name line of that province
/// spells its number as the edit does.
pub proof fn lemma_name_removal_reads_back(ls: Seq<Seq<char>>, p: u32)
    requires
        found_as_written(ls, LinePick::Keyed("#landname"@, p)),
    ensures
        read_lines(keep_unpicked(ls, LinePick::Keyed("#landname"@, p))) == (Fields {
            names: read_lines(ls).names.remove(p),
            ..read_lines(ls)
        }),
{
    let k = LinePick::Keyed("#landname"@, p);
    lemma_commands_differ();
    lemma_keep_unpicked_reads(ls, k);
    let want = Fields { names: read_lines(ls).names.remove(p), ..read_lines(ls) };
    assert(read_lines(ls).names.remove(p).remove(p) =~= read_lines(ls).names.remove(p));
    assert(erase(want, k) == erase(read_lines(ls), k));
    lemma_agree_same(read_lines(keep_unpicked(ls, k)), want, k);
}


proof fn lemma_join_front(x: Seq<char>, ys: Seq<Seq<char>>, sep: Seq<char>)
    requires
        ys.len() > 0,
    ensures
        join(seq![x] + ys, sep) == x + sep + join(ys, sep),
    decreases ys.len(),
{
    let all = seq![x] + ys;
    if ys.len() == 1 {
        assert(all.drop_last() =~= seq![x]);
        assert(all.last() == ys[0]);
        assert(join(seq![x], sep) == x);
        assert(join(ys, sep) == ys[0]);
    } else {
        lemma_join_front(x, ys.drop_last(), sep);
        assert(all.drop_last() =~= seq![x] + ys.drop_last());
        assert(all.last() == ys.last());
        assert(x + sep + join(ys, sep) =~= x + sep + join(ys.drop_last(), sep) + sep + ys.last());
    }
}

/// No character of the text is a carriage return.
pub open spec fn no_cr(s: Seq<char>) -> bool {
    forall|i: int| 0 <= i < s.len() ==> s[i] != '\r'
}

/// Every carriage return is followed by a line feed, and every line feed
/// follows a carriage return.
pub open spec fn crlf_only(s: Seq<char>) -> bool {
    &&& forall|i: int| 0 <= i < s.len() && #[trigger] s[i] == '\r' ==> i + 1 < s.len() && s[i + 1] == '\n'
    &&& forall|i: int| 0 <= i < s.len() && #[trigger] s[i] == '\n' ==> i > 0 && s[i - 1] == '\r'
}

proof fn lemma_lf_lines(s: Seq<char>)
    requires
        no_cr(s),
    ensures
        join(split_on(s, '\n').map_values(|l: Seq<char>| strip_cr(l)), seq!['\n']) == s,
    decreases s.len(),
{
    let f = |l: Seq<char>| strip_cr(l);
    let k = char_pos(s, '\n');
    lemma_char_pos(s, '\n');
    if k >= s.len() {
        assert(split_on(s, '\n') == seq![s]);
        if s.len() > 0 {
            assert(s.last() == s[s.len() - 1]);
        }
        assert(strip_cr(s) == s);
        assert(seq![s].map_values(f) =~= seq![s]);
    } else {
        let a = s.take(k as int);
        let b = s.skip(k as int + 1);
        assert(no_cr(b)) by {
            assert forall|i: int| 0 <= i < b.len() implies b[i] != '\r' by {
                assert(b[i] == s[k + 1 + i]);
            }
        }
        lemma_lf_lines(b);
        if a.len() > 0 {
            assert(a.last() == s[k - 1]);
        }
        assert(strip_cr(a) == a);
        let rest = split_on(b, '\n');
        crate::text::lemma_split_len(b, '\n');
        assert(split_on(s, '\n') == seq![a] + rest);
        assert((seq![a] + rest).map_values(f) =~= seq![a] + rest.map_values(f));
        assert(rest.len() > 0) by {
            let kb = char_pos(b, '\n');
            if kb >= b.len() {
            } else {
            }
        }
        lemma_join_front(a, rest.map_values(f), seq!['\n']);
        assert(a + seq!['\n'] + b =~= s);
    }
}

proof fn lemma_split_nonempty(s: Seq<char>, c: char)
    ensures
        split_on(s, c).len() > 0,
{
}

proof fn lemma_crlf_lines(s: Seq<char>)
    requires
        crlf_only(s),
    ensures
        join(split_on(s, '\n').map_values(|l: Seq<char>| strip_cr(l)), seq!['\r', '\n']) == s,
    decreases s.len(),
{
    let f = |l: Seq<char>| strip_cr(l);
    let k = char_pos(s, '\n');
    lemma_char_pos(s, '\n');
    if k >= s.len() {
        assert(split_on(s, '\n') == seq![s]);
        if s.len() > 0 {
            assert(s.last() == s[s.len() - 1]);
            assert(s.last() != '\r');
        }
        assert(strip_cr(s) == s);
        assert(seq![s].map_values(f) =~= seq![s]);
    } else {
        let a = s.take(k as int);
        let b = s.skip(k as int + 1);
        assert(k > 0 && s[k - 1] == '\r');
        assert(crlf_only(b)) by {
            assert forall|i: int| 0 <= i < b.len() && #[trigger] b[i] == '\r' implies i + 1 < b.len() && b[i + 1] == '\n' by {
                assert(b[i] == s[k + 1 + i]);
                assert(b[i + 1] == s[k + 2 + i]);
            }
            assert forall|i: int| 0 <= i < b.len() && #[trigger] b[i] == '\n' implies i > 0 && b[i - 1] == '\r' by {
                assert(b[i] == s[k + 1 + i]);
                if i == 0 {
                    assert(s[k as int] == '\n');
                }
                assert(b[i - 1] == s[k + i]);
            }
        }
        lemma_crlf_lines(b);
        let a0 = a.drop_last();
        assert(a.last() == '\r');
        if a0.len() > 0 {
            assert(a0.last() == s[k - 2]);
            assert(a0.last() != '\r');
        }
        assert(strip_cr(a0) == a0);
        assert(strip_cr(a) == a0);
        let rest = split_on(b, '\n');
        lemma_split_nonempty(b, '\n');
        assert(split_on(s, '\n') == seq![a] + rest);
        assert((seq![a] + rest).map_values(f) =~= seq![a0] + rest.map_values(f));
        lemma_join_front(a0, rest.map_values(f), seq!['\r', '\n']);
        assert(a0 + seq!['\r', '\n'] + b =~= s);
    }
}

/// A map file's text, split into its lines and joined again with the line
/// ending it was read with, is the text: where it holds no carriage return,
/// or where its carriage returns and line feeds all stand together as
/// `\r\n`.
pub proof fn lemma_lines_rejoin(text: Seq<char>)
    requires
        no_cr(text) || crlf_only(text),
    ensures
        join(map_lines(text), newline_of(text)) == text,
{
    reveal_strlit("\r\n");
    reveal_strlit("\n");
    if no_cr(text) {
        assert(!contains(text, "\r\n"@)) by {
            if contains(text, "\r\n"@) {
                let i = choose|i: int| crate::text::occurs_at(text, "\r\n"@, i);
                assert(text.subrange(i, i + 2)[0] == '\r');
                assert(text[i] == '\r');
            }
        }
        assert("\n"@ =~= seq!['\n']);
        lemma_lf_lines(text);
    } else {
        if exists|i: int| 0 <= i < text.len() && text[i] == '\r' {
            let i = choose|i: int| 0 <= i < text.len() && text[i] == '\r';
            assert(crate::text::occurs_at(text, "\r\n"@, i)) by {
                assert(text.subrange(i, i + 2) =~= "\r\n"@);
            }
            assert(contains(text, "\r\n"@));
            assert("\r\n"@ =~= seq!['\r', '\n']);
            lemma_crlf_lines(text);
        } else {
            assert(no_cr(text));
        }
    }
}


/// The stem of a plane's file names its base and its plane again: for any
/// plane from the second on, stripping the `_plane` suffix from the base
/// followed by `_plane` and the plane's number gives the base and the number.
pub proof fn lemma_plane_suffix_round_trip(base: Seq<char>, n: u32)
    requires
        n >= 2,
    ensures
        spec_strip_plane_suffix(base + "_plane"@ + decimal(n as nat)) == (base, n),
{
    reveal_strlit("_plane");
    reveal(rfind);
    let p = "_plane"@;
    let d = decimal(n as nat);
    let st = base + p + d;
    let b = base.len() as int;
    lemma_decimal(n as nat);
    lemma_decimal_reads_back(n as nat);
    assert(st.subrange(b, b + 6) =~= p);
    assert(crate::text::occurs_at(st, p, b));
    assert forall|j: int| b < j implies !crate::text::occurs_at(st, p, j) by {
        if crate::text::occurs_at(st, p, j) {
            assert(st.subrange(j, j + 6)[0] == p[0]);
            assert(st[j] == '_');
            if j < b + 6 {
                assert(st[j] == p[j - b]);
            } else {
                assert(st[j] == d[j - b - 6]);
                assert('0' <= d[j - b - 6] <= '9');
            }
        }
    }
    let c = choose|i: int| crate::text::occurs_at(st, p, i) && forall|j: int| i < j ==> !crate::text::occurs_at(st, p, j);
    assert(c == b) by {
        if c < b {
            assert(!crate::text::occurs_at(st, p, b));
        }
    }
    assert(rfind(st, p) == Some(b as nat));
    assert(st.skip(b + 6) =~= d);
    assert(st.take(b) =~= base);
}


/// A line that reads back as it is written: it holds no line feed and does
/// not end in a carriage return.
pub open spec fn plain_line(l: Seq<char>) -> bool {
    !l.contains('\n') && !(l.len() > 0 && l.last() == '\r')
}

proof fn lemma_strip_cr_plain(x: Seq<char>)
    requires
        plain_line(x),
    ensures
        strip_cr(x) == x,
        strip_cr(x.push('\r')) == x,
{
    assert(x.push('\r').drop_last() =~= x);
}

proof fn lemma_split_plain_front(x: Seq<char>, sep: Seq<char>, rest: Seq<char>)
    requires
        plain_line(x),
        sep == seq!['\n'] || sep == seq!['\r', '\n'],
    ensures
        split_on(x + sep + rest, '\n') == seq![x + sep.drop_last()] + split_on(rest, '\n'),
{
    let s = x + sep + rest;
    let k = sep.len() - 1 + x.len();
    lemma_char_pos(s, '\n');
    assert(s[k] == '\n');
    assert forall|j: int| 0 <= j < x.len() implies s[j] != '\n' by {
        assert(s[j] == x[j]);
        if x[j] == '\n' {
            assert(x.contains('\n'));
        }
    }
    if sep.len() == 2 {
        assert(s[x.len() as int] == '\r');
    }
    assert(char_pos(s, '\n') == k);
    assert(s.take(k) =~= x + sep.drop_last());
    assert(s.skip(k + 1) =~= rest);
}

/// Plain lines joined with a line feed, or with a carriage return and a line
/// feed, and split into a map file's lines again, are the lines.
pub proof fn lemma_plain_lines_split(ls: Seq<Seq<char>>, sep: Seq<char>)
    requires
        ls.len() >= 1,
        forall|i: int| 0 <= i < ls.len() ==> #[trigger] plain_line(ls[i]),
        sep == seq!['\n'] || sep == seq!['\r', '\n'],
    ensures
        map_lines(join(ls, sep)) == ls,
    decreases ls.len(),
{
    let f = |l: Seq<char>| strip_cr(l);
    let x = ls[0];
    assert(plain_line(ls[0]));
    lemma_strip_cr_plain(x);
    if ls.len() == 1 {
        assert(join(ls, sep) == x);
        lemma_char_pos(x, '\n');
        if char_pos(x, '\n') < x.len() {
            assert(x.contains('\n'));
        }
        assert(split_on(x, '\n') == seq![x]);
        assert(seq![x].map_values(f) =~= ls);
    } else {
        let ys = ls.drop_first();
        assert(ls =~= seq![x] + ys);
        assert forall|i: int| 0 <= i < ys.len() implies #[trigger] plain_line(ys[i]) by {
            assert(ys[i] == ls[i + 1]);
        }
        lemma_plain_lines_split(ys, sep);
        lemma_join_front(x, ys, sep);
        lemma_split_plain_front(x, sep, join(ys, sep));
        let head = x + sep.drop_last();
        if sep.len() == 2 {
            assert(head =~= x.push('\r'));
        } else {
            assert(head =~= x);
        }
        assert(strip_cr(head) == x);
        assert((seq![head] + split_on(join(ys, sep), '\n')).map_values(f) =~= seq![x] + split_on(
            join(ys, sep),
            '\n',
        ).map_values(f));
    }
}

/// A map file's text reads back as the map file: where its fields agree with
/// its lines, and its lines, at least one, are plain and joined with a line
/// feed or a carriage return and a line feed, reading its text again gives
/// the same lines and the same fields.
pub proof fn lemma_text_reads_back(ls: Seq<Seq<char>>, sep: Seq<char>, f: Fields)
    requires
        read_lines(ls) == f,
        ls.len() >= 1,
        forall|i: int| 0 <= i < ls.len() ==> #[trigger] plain_line(ls[i]),
        sep == seq!['\n'] || sep == seq!['\r', '\n'],
    ensures
        map_lines(join(ls, sep)) == ls,
        read_lines(map_lines(join(ls, sep))) == f,
{
    lemma_plain_lines_split(ls, sep);
}


/// A map file whose fields agree with its lines, whose lines, at least one,
/// are plain, and whose line ending is a line feed or a carriage return and
/// a line feed: its text, read again, gives its lines and its fields.
pub open spec fn reads_back(m: MapFile) -> bool {
    &&& m.agrees_with_lines()
    &&& m.lines().len() >= 1
    &&& forall|i: int| 0 <= i < m.lines().len() ==> #[trigger] plain_line(m.lines()[i])
    &&& m.newline() == seq!['\n'] || m.newline() == seq!['\r', '\n']
}

/// A map file written out and read again is the same map: where it reads
/// back, splitting its text (its lines joined with its line ending, as
/// `to_text` writes it) into lines, as `parse` does, gives its lines, and
/// reading those gives its fields: the title, image, size, wraps, terrain,
/// names, gates, neighbours, border kinds and pixel runs.
pub proof fn lemma_map_reads_back(m: MapFile)
    requires
        reads_back(m),
    ensures
        map_lines(join(m.lines(), m.newline())) == m.lines(),
        read_lines(map_lines(join(m.lines(), m.newline()))) == m.fields(),
{
    lemma_text_reads_back(m.lines(), m.newline(), m.fields());
}


/// Every line is plain.
pub open spec fn all_plain(ls: Seq<Seq<char>>) -> bool {
    forall|i: int| 0 <= i < ls.len() ==> #[trigger] plain_line(ls[i])
}

proof fn lemma_keep_unpicked_plain(ls: Seq<Seq<char>>, k: LinePick)
    requires
        all_plain(ls),
    ensures
        all_plain(keep_unpicked(ls, k)),
    decreases ls.len(),
{
    if ls.len() > 0 {
        let a = ls.drop_last();
        assert forall|i: int| 0 <= i < a.len() implies #[trigger] plain_line(a[i]) by {
            assert(a[i] == ls[i]);
        }
        lemma_keep_unpicked_plain(a, k);
        assert(plain_line(ls[ls.len() - 1]));
        let r = keep_unpicked(a, k);
        assert forall|i: int| 0 <= i < r.push(ls.last()).len() implies #[trigger] plain_line(r.push(ls.last())[i]) by {
            if i < r.len() {
                assert(plain_line(r[i]));
            }
        }
    }
}

proof fn lemma_drop_blank_tail_plain(ls: Seq<Seq<char>>)
    requires
        all_plain(ls),
    ensures
        all_plain(drop_blank_tail(ls)),
    decreases ls.len(),
{
    if ls.len() > 0 && ls.last().len() == 0 {
        let a = ls.drop_last();
        assert forall|i: int| 0 <= i < a.len() implies #[trigger] plain_line(a[i]) by {
            assert(a[i] == ls[i]);
        }
        lemma_drop_blank_tail_plain(a);
    }
}

proof fn lemma_empty_plain()
    ensures
        plain_line(Seq::<char>::empty()),
{
    assert(!Seq::<char>::empty().contains('\n'));
}

proof fn lemma_insert_after_plain(ls: Seq<Seq<char>>, anchors: Seq<Seq<char>>, line: Seq<char>)
    requires
        all_plain(ls),
        plain_line(line),
    ensures
        all_plain(insert_after(ls, anchors, line)),
        insert_after(ls, anchors, line).len() >= 1,
    decreases anchors.len(),
{
    if anchors.len() == 0 {
        lemma_drop_blank_tail_plain(ls);
        lemma_empty_plain();
        let d = drop_blank_tail(ls);
        let r = d + seq![Seq::empty(), line, Seq::empty()];
        assert forall|i: int| 0 <= i < r.len() implies #[trigger] plain_line(r[i]) by {
            if i < d.len() {
                assert(r[i] == d[i]);
            }
        }
    } else {
        lemma_last_command(ls, anchors[0]);
        match last_command(ls, anchors[0]) {
            Some(i) => {
                let r = ls.insert(i as int + 1, line);
                assert forall|t: int| 0 <= t < r.len() implies #[trigger] plain_line(r[t]) by {
                    if t < i + 1 {
                        assert(r[t] == ls[t]);
                    } else if t > i + 1 {
                        assert(r[t] == ls[t - 1]);
                    }
                }
            },
            None => {
                lemma_insert_after_plain(ls, anchors.drop_first(), line);
            },
        }
    }
}

/// Setting a plain line in plain lines leaves plain lines, at least one.
pub proof fn lemma_upsert_plain(ls: Seq<Seq<char>>, k: LinePick, line: Seq<char>, anchors: Seq<Seq<char>>)
    requires
        all_plain(ls),
        plain_line(line),
    ensures
        all_plain(upsert(ls, k, line, anchors)),
        upsert(ls, k, line, anchors).len() >= 1,
{
    lemma_first_pick(ls, k);
    match first_pick(ls, k) {
        Some(i) => {
            let b = ls.skip(i as int + 1);
            assert forall|t: int| 0 <= t < b.len() implies #[trigger] plain_line(b[t]) by {
                assert(b[t] == ls[t + i + 1]);
            }
            lemma_keep_unpicked_plain(b, k);
            let a = ls.take(i as int);
            let c = keep_unpicked(b, k);
            let r = a + seq![line] + c;
            assert forall|t: int| 0 <= t < r.len() implies #[trigger] plain_line(r[t]) by {
                if t < a.len() {
                    assert(r[t] == ls[t]);
                } else if t > a.len() {
                    assert(r[t] == c[t - a.len() - 1]);
                }
            }
        },
        None => {
            lemma_insert_after_plain(ls, anchors, line);
        },
    }
}

proof fn lemma_with_runs_plain(ls: Seq<Seq<char>>, runs: Seq<Seq<char>>)
    requires
        all_plain(ls),
        all_plain(runs),
    ensures
        all_plain(with_runs(ls, runs)),
{
    let kept = keep_unpicked(ls, LinePick::Command("#pb"@));
    lemma_keep_unpicked_plain(ls, LinePick::Command("#pb"@));
    lemma_empty_plain();
    match first_pick(ls, LinePick::Command("#pb"@)) {
        Some(i) => {
            let at = if i <= kept.len() {
                i as int
            } else {
                kept.len() as int
            };
            let a = kept.take(at);
            let c = kept.skip(at);
            let r = a + runs + c;
            assert forall|t: int| 0 <= t < r.len() implies #[trigger] plain_line(r[t]) by {
                if t < a.len() {
                    assert(r[t] == kept[t]);
                } else if t < a.len() + runs.len() {
                    assert(r[t] == runs[t - a.len()]);
                } else {
                    assert(r[t] == kept[t - runs.len()]);
                }
            }
        },
        None => {
            let a = kept.push(Seq::empty());
            let r = a + runs;
            assert forall|t: int| 0 <= t < r.len() implies #[trigger] plain_line(r[t]) by {
                if t < kept.len() {
                    assert(r[t] == kept[t]);
                } else if t > kept.len() {
                    assert(r[t] == runs[t - a.len()]);
                }
            }
        },
    }
}

/// The ways the editor changes a map file's lines: a line set in place of
/// the ones a pick finds (`upsert`), the lines a pick finds removed
/// (`keep_unpicked`), a line added after its anchors (`insert_after`), and
/// new pixel runs put in place of the old (`with_runs`); the new lines plain.
pub open spec fn plain_edit(before: Seq<Seq<char>>, after: Seq<Seq<char>>) -> bool {
    ||| exists|k: LinePick, line: Seq<char>, anchors: Seq<Seq<char>>|
        plain_line(line) && after == #[trigger] upsert(before, k, line, anchors)
    ||| exists|k: LinePick| after == #[trigger] keep_unpicked(before, k)
    ||| exists|anchors: Seq<Seq<char>>, line: Seq<char>|
        plain_line(line) && after == #[trigger] insert_after(before, anchors, line)
    ||| exists|runs: Seq<Seq<char>>| all_plain(runs) && after == #[trigger] with_runs(before, runs)
}

/// An edit keeps a map file reading back from its text: where the map read
/// back before, its lines were changed by one of the editor's edits with
/// plain new lines, its line ending kept, at least one line left, and its
/// fields agree with its lines again, it reads back after.
pub proof fn lemma_edit_reads_back(before: MapFile, after: MapFile)
    requires
        reads_back(before),
        plain_edit(before.lines(), after.lines()),
        after.agrees_with_lines(),
        after.newline() == before.newline(),
        after.lines().len() >= 1,
    ensures
        reads_back(after),
{
    let ls = before.lines();
    assert(all_plain(ls));
    if exists|k: LinePick, line: Seq<char>, anchors: Seq<Seq<char>>|
        plain_line(line) && after.lines() == #[trigger] upsert(ls, k, line, anchors) {
        let (k, line, anchors) = choose|k: LinePick, line: Seq<char>, anchors: Seq<Seq<char>>|
            plain_line(line) && after.lines() == #[trigger] upsert(ls, k, line, anchors);
        lemma_upsert_plain(ls, k, line, anchors);
    } else if exists|k: LinePick| after.lines() == #[trigger] keep_unpicked(ls, k) {
        let k = choose|k: LinePick| after.lines() == #[trigger] keep_unpicked(ls, k);
        lemma_keep_unpicked_plain(ls, k);
    } else if exists|anchors: Seq<Seq<char>>, line: Seq<char>|
        plain_line(line) && after.lines() == #[trigger] insert_after(ls, anchors, line) {
        let (anchors, line) = choose|anchors: Seq<Seq<char>>, line: Seq<char>|
            plain_line(line) && after.lines() == #[trigger] insert_after(ls, anchors, line);
        lemma_insert_after_plain(ls, anchors, line);
    } else {
        let runs = choose|runs: Seq<Seq<char>>| all_plain(runs) && after.lines() == #[trigger] with_runs(ls, runs);
        lemma_with_runs_plain(ls, runs);
    }
    assert(all_plain(after.lines()));
}


/// The text holds no line feed and no carriage return.
pub open spec fn no_break(s: Seq<char>) -> bool {
    forall|i: int| 0 <= i < s.len() ==> #[trigger] s[i] != '\n' && s[i] != '\r'
}

proof fn lemma_no_break_plain(s: Seq<char>)
    requires
        no_break(s),
    ensures
        plain_line(s),
{
    if s.contains('\n') {
        let i = choose|i: int| 0 <= i < s.len() && s[i] == '\n';
        assert(s[i] != '\n');
    }
    if s.len() > 0 {
        assert(s[s.len() - 1] != '\r');
    }
}

proof fn lemma_no_break_concat(a: Seq<char>, b: Seq<char>)
    requires
        no_break(a),
        no_break(b),
    ensures
        no_break(a + b),
{
    assert forall|i: int| 0 <= i < (a + b).len() implies #[trigger] (a + b)[i] != '\n' && (a + b)[i] != '\r' by {
        if i < a.len() {
            assert((a + b)[i] == a[i]);
        } else {
            assert((a + b)[i] == b[i - a.len()]);
        }
    }
}

proof fn lemma_decimal_no_break(n: nat)
    ensures
        no_break(decimal(n)),
{
    lemma_decimal(n);
    assert forall|i: int| 0 <= i < decimal(n).len() implies #[trigger] decimal(n)[i] != '\n' && decimal(n)[i] != '\r' by {
        assert('0' <= decimal(n)[i] <= '9');
    }
}

proof fn lemma_replace_no_break(s: Seq<char>, p: Seq<char>, r: Seq<char>)
    requires
        no_break(s),
        no_break(r),
        p.len() > 0,
    ensures
        no_break(replace_all(s, p, r)),
    decreases s.len(),
{
    if s.len() < p.len() {
    } else if s.take(p.len() as int) == p {
        let t = s.skip(p.len() as int);
        assert forall|i: int| 0 <= i < t.len() implies #[trigger] t[i] != '\n' && t[i] != '\r' by {
            assert(t[i] == s[i + p.len()]);
        }
        lemma_replace_no_break(t, p, r);
        lemma_no_break_concat(r, replace_all(t, p, r));
    } else {
        let t = s.drop_first();
        assert forall|i: int| 0 <= i < t.len() implies #[trigger] t[i] != '\n' && t[i] != '\r' by {
            assert(t[i] == s[i + 1]);
        }
        lemma_replace_no_break(t, p, r);
        assert(no_break(seq![s[0]]));
        lemma_no_break_concat(seq![s[0]], replace_all(t, p, r));
    }
}

/// A province's name line is plain where the name holds no line break.
pub proof fn lemma_landname_line_plain(p: u32, n: Seq<char>)
    requires
        no_break(n),
    ensures
        plain_line(landname_line(p, clean_name(n))),
{
    reveal_strlit("#landname ");
    reveal_strlit(" \"");
    reveal_strlit("\"");
    reveal_strlit("'");
    lemma_replace_no_break(n, "\""@, "'"@);
    lemma_decimal_no_break(p as nat);
    let c = clean_name(n);
    lemma_no_break_concat("#landname "@, decimal(p as nat));
    lemma_no_break_concat("#landname "@ + decimal(p as nat), " \""@);
    lemma_no_break_concat("#landname "@ + decimal(p as nat) + " \""@, c);
    lemma_no_break_concat("#landname "@ + decimal(p as nat) + " \""@ + c, "\""@);
    lemma_no_break_plain(landname_line(p, c));
}


/// A title line is plain where the title holds no line break.
pub proof fn lemma_title_line_plain(t: Seq<char>)
    requires
        no_break(t),
    ensures
        plain_line(title_line(t)),
{
    reveal_strlit("#dom2title ");
    lemma_no_break_concat("#dom2title "@, t);
    lemma_no_break_plain(title_line(t));
}

/// A picture line is plain where the picture's name holds no line break.
pub proof fn lemma_imagefile_line_plain(n: Seq<char>)
    requires
        no_break(n),
    ensures
        plain_line(imagefile_line(n)),
{
    reveal_strlit("#imagefile ");
    lemma_no_break_concat("#imagefile "@, n);
    lemma_no_break_plain(imagefile_line(n));
}

/// A terrain line is plain.
pub proof fn lemma_terrain_line_plain(p: u32, mask: i64)
    ensures
        plain_line(terrain_line(p, mask)),
{
    reveal_strlit("#terrain ");
    reveal_strlit(" ");
    lemma_decimal_no_break(p as nat);
    let m = mask as int;
    if m < 0 {
        lemma_decimal_no_break((-m) as nat);
        assert(no_break(seq!['-']));
        lemma_no_break_concat(seq!['-'], decimal((-m) as nat));
    } else {
        lemma_decimal_no_break(m as nat);
    }
    lemma_no_break_concat("#terrain "@, decimal(p as nat));
    lemma_no_break_concat("#terrain "@ + decimal(p as nat), " "@);
    lemma_no_break_concat("#terrain "@ + decimal(p as nat) + " "@, signed_decimal(m));
    lemma_no_break_plain(terrain_line(p, mask));
}


/// A gate line is plain.
pub proof fn lemma_gate_line_plain(p: u32, n: i32)
    ensures
        plain_line(gate_line(p, n)),
{
    reveal_strlit("#gate ");
    reveal_strlit(" ");
    lemma_decimal_no_break(p as nat);
    let m = n as int;
    if m < 0 {
        lemma_decimal_no_break((-m) as nat);
        assert(no_break(seq!['-']));
        lemma_no_break_concat(seq!['-'], decimal((-m) as nat));
    } else {
        lemma_decimal_no_break(m as nat);
    }
    lemma_no_break_concat("#gate "@, decimal(p as nat));
    lemma_no_break_concat("#gate "@ + decimal(p as nat), " "@);
    lemma_no_break_concat("#gate "@ + decimal(p as nat) + " "@, signed_decimal(m));
    lemma_no_break_plain(gate_line(p, n));
}


/// Reading a line never takes a wrap away.
proof fn lemma_read_line_keeps_wrap(f: Fields, line: Seq<char>)
    ensures
        f.hwrap ==> read_line(f, line).hwrap,
        f.vwrap ==> read_line(f, line).vwrap,
{
}

proof fn lemma_wrap_commands_differ()
    ensures
        "#wraparound"@ != "#hwraparound"@,
        "#wraparound"@ != "#vwraparound"@,
        "#hwraparound"@ != "#vwraparound"@,
{
    reveal_strlit("#wraparound");
    reveal_strlit("#hwraparound");
    reveal_strlit("#vwraparound");
    assert("#wraparound"@[1] != "#hwraparound"@[1]);
    assert("#wraparound"@[1] != "#vwraparound"@[1]);
    assert("#hwraparound"@[1] != "#vwraparound"@[1]);
}

/// A line that is a wrap command, alone or followed by a blank and
/// anything, wraps the map read from lines holding it the way it says.
proof fn lemma_wrap_line(ls: Seq<Seq<char>>, i: int, cmd: Seq<char>, tail: Seq<char>)
    requires
        0 <= i < ls.len(),
        cmd == "#wraparound"@ || cmd == "#hwraparound"@ || cmd == "#vwraparound"@,
        ls[i] == cmd + tail,
        tail.len() == 0 || is_ws(tail[0]),
    ensures
        cmd != "#vwraparound"@ ==> read_lines(ls).hwrap,
        cmd != "#hwraparound"@ ==> read_lines(ls).vwrap,
    decreases ls.len(),
{
    reveal_strlit("#wraparound");
    reveal_strlit("#hwraparound");
    reveal_strlit("#vwraparound");
    lemma_wrap_commands_differ();
    if i == ls.len() - 1 {
        let l = ls[i];
        assert(no_ws(cmd));
        assert(l[0] == '#');
        assert(trim_start(l) == l);
        lemma_ws_pos_word(cmd, tail);
        assert(l.take(cmd.len() as int) =~= cmd);
        assert(l.skip(cmd.len() as int) =~= tail);
        assert(command_of(l) == Some((cmd, trim(tail))));
        reveal_strlit("#dom2title");
        reveal_strlit("#imagefile");
        reveal_strlit("#mapsize");
        assert(cmd != "#dom2title"@) by {
            assert(cmd[1] != "#dom2title"@[1]);
        }
        assert(cmd != "#imagefile"@) by {
            assert(cmd[1] != "#imagefile"@[1]);
        }
        assert(cmd != "#mapsize"@) by {
            assert(cmd[1] != "#mapsize"@[1]);
        }
        assert(ls.last() == l);
        assert(read_lines(ls) == read_line(read_lines(ls.drop_last()), l));
    } else {
        assert(ls.drop_last()[i] == ls[i]);
        lemma_wrap_line(ls.drop_last(), i, cmd, tail);
        lemma_read_line_keeps_wrap(read_lines(ls.drop_last()), ls.last());
    }
}

/// A map whose lines hold a `#wraparound` line, alone or followed by a
/// blank and anything, wraps both ways: whatever the other lines say, the
/// map read from them wraps across and down.
pub proof fn lemma_wraparound_wraps_both_ways(ls: Seq<Seq<char>>, i: int, tail: Seq<char>)
    requires
        0 <= i < ls.len(),
        ls[i] == "#wraparound"@ + tail,
        tail.len() == 0 || is_ws(tail[0]),
    ensures
        read_lines(ls).hwrap,
        read_lines(ls).vwrap,
{
    lemma_wrap_commands_differ();
    lemma_wrap_line(ls, i, "#wraparound"@, tail);
}

/// A map whose lines hold a `#hwraparound` line wraps across, whatever the
/// other lines say.
pub proof fn lemma_hwraparound_wraps_across(ls: Seq<Seq<char>>, i: int, tail: Seq<char>)
    requires
        0 <= i < ls.len(),
        ls[i] == "#hwraparound"@ + tail,
        tail.len() == 0 || is_ws(tail[0]),
    ensures
        read_lines(ls).hwrap,
{
    lemma_wrap_commands_differ();
    lemma_wrap_line(ls, i, "#hwraparound"@, tail);
}

/// A map whose lines hold a `#vwraparound` line wraps down, whatever the
/// other lines say.
pub proof fn lemma_vwraparound_wraps_down(ls: Seq<Seq<char>>, i: int, tail: Seq<char>)
    requires
        0 <= i < ls.len(),
        ls[i] == "#vwraparound"@ + tail,
        tail.len() == 0 || is_ws(tail[0]),
    ensures
        read_lines(ls).vwrap,
{
    lemma_wrap_commands_differ();
    lemma_wrap_line(ls, i, "#vwraparound"@, tail);
}

} // verus!
