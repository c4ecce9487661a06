//! Dominions `.map` files: the text of a map's settings and provinces, read
//! into fields and edited line by line so that every other line stays as it was.
use vstd::prelude::*;
use std::collections::BTreeMap;
use crate::wire::lossy_utf8;
use crate::text::{
    chars_of, decimal, occurs_at, parse_u32, push_decimal, push_str, string_from, string_of,
    sub_chars, to_u32, all_digits, matches_at, trim_start, trim, ws_pos, words, split_words,
    trim_start_at, next_ws, trimmed, to_i32, to_i64, parse_i32, parse_i64, split_on, strip_cr,
    strip_cr_at, split_chars, seqs_of, contains, contains_chars, join, join_chars, push_signed,
    signed_decimal, lemma_ws_pos, lemma_trim_start, replace_chars,
};
use crate::reading::{
    found_as_written, lemma_title_reads_back, lemma_imagefile_reads_back, lemma_terrain_reads_back,
    lemma_gate_reads_back, lemma_gate_removal_reads_back, lemma_name_reads_back,
    lemma_name_removal_reads_back, reads_back, no_break, plain_edit, lemma_edit_reads_back,
    lemma_landname_line_plain, lemma_upsert_plain, lemma_title_line_plain, lemma_imagefile_line_plain,
    lemma_terrain_line_plain, lemma_gate_line_plain,
};

verus! {

/// The last place where `p` stands in `s`.
#[verifier::opaque]
pub open spec fn rfind(s: Seq<char>, p: Seq<char>) -> Option<nat> {
    if exists|i: int| occurs_at(s, p, i) {
        Some((choose|i: int| occurs_at(s, p, i) && forall|j: int| i < j ==> !occurs_at(s, p, j)) as nat)
    } else {
        None
    }
}

/// The last place where `p` stands in `s`, if anywhere.
pub fn rfind_chars(s: &[char], p: &[char]) -> (r: Option<usize>)
    ensures
        r matches Some(i) ==> rfind(s@, p@) == Some(i as nat) && occurs_at(s@, p@, i as int),
        r is None ==> rfind(s@, p@) is None,
{
    proof {
        reveal(rfind);
    }
    let n = s.len();
    if p.len() > n {
        proof {
            assert(!exists|i: int| occurs_at(s@, p@, i));
        }
        return None;
    }
    let mut i: usize = n - p.len();
    loop
        invariant
            i + p@.len() <= n,
            n == s@.len(),
            forall|j: int| i < j ==> !occurs_at(s@, p@, j),
        decreases i,
    {
        proof {
            reveal(rfind);
        }
        if matches_at(s, p, i) {
            proof {
                let c = choose|k: int| occurs_at(s@, p@, k) && forall|j: int| k < j ==> !occurs_at(s@, p@, j);
                assert(occurs_at(s@, p@, i as int));
                if c != i {
                    if c > i {
                    } else {
                        assert(!occurs_at(s@, p@, i as int));
                    }
                }
            }
            return Some(i);
        }
        if i == 0 {
            proof {
                assert forall|j: int| !occurs_at(s@, p@, j) by {
                    if 0 <= j <= i {
                    }
                }
            }
            return None;
        }
        i -= 1;
    }
}

/// A map file's stem split into the map's base name and its plane number: a
/// trailing `_plane` and a number name the plane, anything else is plane one.
pub open spec fn spec_strip_plane_suffix(stem: Seq<char>) -> (Seq<char>, u32) {
    match rfind(stem, "_plane"@) {
        Some(i) => {
            let tail = stem.skip(i as int + 6);
            if tail.len() > 0 && all_digits(tail) && parse_u32(tail) is Some {
                (stem.take(i as int), parse_u32(tail)->0)
            } else {
                (stem, 1)
            }
        },
        None => (stem, 1),
    }
}

/// Whether every character is a decimal digit.
pub fn only_digits(s: &[char]) -> (b: bool)
    ensures
        b == all_digits(s@),
{
    let mut k: usize = 0;
    while k < s.len()
        invariant
            k <= s@.len(),
            forall|j: int| 0 <= j < k ==> '0' <= #[trigger] s@[j] <= '9',
        decreases s@.len() - k,
    {
        if !('0' <= s[k] && s[k] <= '9') {
            return false;
        }
        k += 1;
    }
    true
}

/// A map file's stem split into the map's base name and its plane number.
#[verifier::spinoff_prover]
pub fn strip_plane_suffix(stem: &str) -> (r: (String, u32))
    ensures
        (r.0@, r.1) == spec_strip_plane_suffix(stem@),
{
    let s = chars_of(stem);
    let _n = s.len();
    let pat = chars_of("_plane");
    proof {
        reveal_strlit("_plane");
    }
    match rfind_chars(s.as_slice(), pat.as_slice()) {
        Some(i) => {
            assert(pat@ == "_plane"@);
            assert(pat@.len() == 6);
            let tail = sub_chars(s.as_slice(), i + 6, s.len());
            assert(tail@ =~= stem@.skip(i as int + 6));
            let digits = tail.len() > 0 && only_digits(tail.as_slice());
            if digits {
                match to_u32(tail.as_slice()) {
                    Some(n) => {
                        let base = sub_chars(s.as_slice(), 0, i);
                        assert(base@ =~= stem@.take(i as int));
                        return (string_from(base.as_slice()), n);
                    },
                    None => {},
                }
            }
            (string_from(s.as_slice()), 1)
        },
        None => (string_from(s.as_slice()), 1),
    }
}

/// The file name of a plane of a map: the first plane bears the base name alone.
pub open spec fn spec_plane_file_name(base: Seq<char>, plane: u32, ext: Seq<char>) -> Seq<char> {
    if plane <= 1 {
        base + "."@ + ext
    } else {
        base + "_plane"@ + decimal(plane as nat) + "."@ + ext
    }
}

/// The file name of a plane of a map.
pub fn plane_file_name(base: &str, plane: u32, ext: &str) -> (s: String)
    ensures
        s@ == spec_plane_file_name(base@, plane, ext@),
{
    let mut s = string_of(base);
    if plane > 1 {
        push_str(&mut s, "_plane");
        push_decimal(&mut s, plane as u64);
    }
    push_str(&mut s, ".");
    push_str(&mut s, ext);
    s
}


broadcast use vstd::laws_cmp::group_laws_cmp;

/// A line's command and what follows it: a line whose first non-blank
/// character is `#` names a command up to the first white space, and the rest
/// of the line, trimmed, is its argument text.
pub open spec fn command_of(line: Seq<char>) -> Option<(Seq<char>, Seq<char>)> {
    let l = trim_start(line);
    if l.len() > 0 && l[0] == '#' {
        let k = ws_pos(l);
        Some((l.take(k as int), trim(l.skip(k as int))))
    } else {
        None
    }
}

/// A line's command and argument text.
fn command_at(line: &[char]) -> (r: Option<(Vec<char>, Vec<char>)>)
    ensures
        match r {
            Some((c, a)) => command_of(line@) == Some((c@, a@)),
            None => command_of(line@) is None,
        },
{
    let a = trim_start_at(line);
    if a >= line.len() || line[a] != '#' {
        return None;
    }
    let e = next_ws(line, a);
    proof {
        lemma_ws_pos(line@.skip(a as int));
    }
    let cmd = sub_chars(line, a, e);
    let tail = sub_chars(line, e, line.len());
    let rest = trimmed(tail.as_slice());
    proof {
        let l = line@.skip(a as int);
        assert(cmd@ =~= l.take(ws_pos(l) as int));
        assert(tail@ =~= l.skip(ws_pos(l) as int));
    }
    Some((cmd, rest))
}

/// Whether two runs of characters are the same.
fn same_chars(a: &[char], b: &[char]) -> (r: bool)
    ensures
        r == (a@ == b@),
{
    if a.len() != b.len() {
        return false;
    }
    let mut i: usize = 0;
    while i < a.len()
        invariant
            i <= a@.len(),
            a@.len() == b@.len(),
            forall|j: int| 0 <= j < i ==> a@[j] == b@[j],
        decreases a@.len() - i,
    {
        if a[i] != b[i] {
            return false;
        }
        i += 1;
    }
    assert(a@ =~= b@);
    true
}

/// Whether a run of characters spells the given text.
fn is_word(a: &[char], lit: &str) -> (r: bool)
    ensures
        r == (a@ == lit@),
{
    let b = chars_of(lit);
    same_chars(a, b.as_slice())
}

/// A neighbour pair written with the smaller province first.
pub open spec fn pair(a: u32, b: u32) -> (u32, u32) {
    if a <= b {
        (a, b)
    } else {
        (b, a)
    }
}

fn make_pair(a: u32, b: u32) -> (r: (u32, u32))
    ensures
        r == pair(a, b),
{
    if a <= b {
        (a, b)
    } else {
        (b, a)
    }
}

/// The first two words of an argument text read as province numbers.
pub open spec fn first_two(rest: Seq<char>) -> Option<(u32, u32)> {
    let w = words(rest);
    if w.len() >= 2 && parse_u32(w[0]) is Some && parse_u32(w[1]) is Some {
        Some((parse_u32(w[0])->0, parse_u32(w[1])->0))
    } else {
        None
    }
}

fn first_two_of(w: &Vec<Vec<char>>) -> (r: Option<(u32, u32)>)
    ensures
        r == (if w@.len() >= 2 && parse_u32(w@[0]@) is Some && parse_u32(w@[1]@) is Some {
            Some((parse_u32(w@[0]@)->0, parse_u32(w@[1]@)->0))
        } else {
            None::<(u32, u32)>
        }),
{
    if w.len() < 2 {
        return None;
    }
    match (to_u32(w[0].as_slice()), to_u32(w[1].as_slice())) {
        (Some(a), Some(b)) => Some((a, b)),
        _ => None,
    }
}

/// A quoted name loses its quotes; any name loses the white space around it.
pub open spec fn unquote(s: Seq<char>) -> Seq<char> {
    let t = trim(s);
    if t.len() >= 2 && t[0] == '"' && t.last() == '"' {
        t.subrange(1, t.len() - 1)
    } else {
        t
    }
}

/// A name without its quotes and surrounding white space.
pub fn unquoted(s: &[char]) -> (r: Vec<char>)
    ensures
        r@ == unquote(s@),
{
    let t = trimmed(s);
    if t.len() >= 2 && t[0] == '"' && t[t.len() - 1] == '"' {
        sub_chars(t.as_slice(), 1, t.len() - 1)
    } else {
        t
    }
}

/// What a map file says of the map, as the lines are read from the first on.
pub struct Fields {
    pub title: Seq<char>,
    pub imagefile: Option<Seq<char>>,
    pub mapsize: Option<(i32, i32)>,
    pub hwrap: bool,
    pub vwrap: bool,
    pub terrain: Map<u32, i64>,
    pub names: Map<u32, Seq<char>>,
    pub gates: Map<u32, i32>,
    pub neighbours: Seq<(u32, u32)>,
    pub specs: Map<(u32, u32), i64>,
    pub pb_count: nat,
}

/// Before any line is read, the map says nothing.
pub open spec fn no_fields() -> Fields {
    Fields {
        title: Seq::empty(),
        imagefile: None,
        mapsize: None,
        hwrap: false,
        vwrap: false,
        terrain: Map::empty(),
        names: Map::empty(),
        gates: Map::empty(),
        neighbours: Seq::empty(),
        specs: Map::empty(),
        pb_count: 0,
    }
}

/// What one line adds to what is known of the map. A command that is not
/// known, or whose arguments do not read, changes nothing.
pub open spec fn read_line(f: Fields, line: Seq<char>) -> Fields {
    match command_of(line) {
        None => f,
        Some((cmd, rest)) => {
            let args = words(rest);
            if cmd == "#dom2title"@ {
                Fields { title: rest, ..f }
            } else if cmd == "#imagefile"@ {
                Fields { imagefile: Some(rest), ..f }
            } else if cmd == "#mapsize"@ {
                if args.len() >= 2 && parse_i32(args[0]) is Some && parse_i32(args[1]) is Some {
                    Fields { mapsize: Some((parse_i32(args[0])->0, parse_i32(args[1])->0)), ..f }
                } else {
                    f
                }
            } else if cmd == "#wraparound"@ {
                Fields { hwrap: true, vwrap: true, ..f }
            } else if cmd == "#hwraparound"@ {
                Fields { hwrap: true, ..f }
            } else if cmd == "#vwraparound"@ {
                Fields { vwrap: true, ..f }
            } else if cmd == "#terrain"@ {
                if args.len() >= 2 && parse_u32(args[0]) is Some && parse_i64(args[1]) is Some {
                    Fields {
                        terrain: f.terrain.insert(parse_u32(args[0])->0, parse_i64(args[1])->0),
                        ..f
                    }
                } else {
                    f
                }
            } else if cmd == "#gate"@ {
                if args.len() >= 2 && parse_u32(args[0]) is Some && parse_i32(args[1]) is Some {
                    Fields {
                        gates: f.gates.insert(parse_u32(args[0])->0, parse_i32(args[1])->0),
                        ..f
                    }
                } else {
                    f
                }
            } else if cmd == "#landname"@ {
                let i = ws_pos(rest);
                if i < rest.len() && parse_u32(rest.take(i as int)) is Some {
                    Fields {
                        names: f.names.insert(
                            parse_u32(rest.take(i as int))->0,
                            unquote(rest.skip(i as int)),
                        ),
                        ..f
                    }
                } else {
                    f
                }
            } else if cmd == "#neighbour"@ {
                match first_two(rest) {
                    Some((a, b)) => if f.neighbours.contains(pair(a, b)) {
                        f
                    } else {
                        Fields { neighbours: f.neighbours.push(pair(a, b)), ..f }
                    },
                    None => f,
                }
            } else if cmd == "#neighbourspec"@ {
                match first_two(rest) {
                    Some((a, b)) => if args.len() >= 3 && parse_i64(args[2]) is Some {
                        Fields { specs: f.specs.insert(pair(a, b), parse_i64(args[2])->0), ..f }
                    } else {
                        f
                    },
                    None => f,
                }
            } else if cmd == "#pb"@ {
                Fields { pb_count: f.pb_count + 1, ..f }
            } else {
                f
            }
        },
    }
}

/// What the lines, read from the first on, say of the map.
pub open spec fn read_lines(lines: Seq<Seq<char>>) -> Fields
    decreases lines.len(),
{
    if lines.len() == 0 {
        no_fields()
    } else {
        read_line(read_lines(lines.drop_last()), lines.last())
    }
}

/// The lines of a map file: the text split at every `\n`, each line without
/// the carriage returns at its end.
pub open spec fn map_lines(text: Seq<char>) -> Seq<Seq<char>> {
    split_on(text, '\n').map_values(|l: Seq<char>| strip_cr(l))
}

/// The line ending a map file is written back with: the one it was read with.
pub open spec fn newline_of(text: Seq<char>) -> Seq<char> {
    if contains(text, "\r\n"@) {
        "\r\n"@
    } else {
        "\n"@
    }
}


/// A name's text, where there is one.
pub open spec fn opt_view(o: Option<String>) -> Option<Seq<char>> {
    match o {
        Some(s) => Some(s@),
        None => None,
    }
}

/// Province names by their text.
pub open spec fn names_view(m: Map<u32, String>) -> Map<u32, Seq<char>> {
    m.map_values(|s: String| s@)
}

proof fn lemma_pb_bound(lines: Seq<Seq<char>>)
    ensures
        read_lines(lines).pb_count <= lines.len(),
    decreases lines.len(),
{
    if lines.len() > 0 {
        lemma_pb_bound(lines.drop_last());
    }
}

/// A `.map` file: its lines as they stand, and what the lines say of the map.
/// Edits change both, and leave every other line as it was.
pub struct MapFile {
    pub path: String,
    pub lines: Vec<Vec<char>>,
    pub newline: Vec<char>,
    pub title: String,
    pub imagefile: Option<String>,
    pub mapsize: Option<(i32, i32)>,
    pub hwrap: bool,
    pub vwrap: bool,
    pub terrain: BTreeMap<u32, i64>,
    pub names: BTreeMap<u32, String>,
    pub gates: BTreeMap<u32, i32>,
    pub neighbours: Vec<(u32, u32)>,
    pub specs: BTreeMap<(u32, u32), i64>,
    pub pb_count: usize,
    pub modified: bool,
}

fn has_pair(v: &Vec<(u32, u32)>, x: (u32, u32)) -> (b: bool)
    ensures
        b == v@.contains(x),
{
    let mut i: usize = 0;
    while i < v.len()
        invariant
            i <= v@.len(),
            forall|j: int| 0 <= j < i ==> v@[j] != x,
        decreases v@.len() - i,
    {
        if v[i].0 == x.0 && v[i].1 == x.1 {
            assert(v@[i as int] == x);
            return true;
        }
        i += 1;
    }
    false
}

impl MapFile {
    /// What the fields say of the map.
    pub open spec fn fields(&self) -> Fields {
        Fields {
            title: self.title@,
            imagefile: opt_view(self.imagefile),
            mapsize: self.mapsize,
            hwrap: self.hwrap,
            vwrap: self.vwrap,
            terrain: self.terrain@,
            names: names_view(self.names@),
            gates: self.gates@,
            neighbours: self.neighbours@,
            specs: self.specs@,
            pb_count: self.pb_count as nat,
        }
    }

    /// The file's lines.
    pub open spec fn lines(&self) -> Seq<Seq<char>> {
        seqs_of(self.lines@)
    }

    /// The line ending the file is written with.
    pub open spec fn newline(&self) -> Seq<char> {
        self.newline@
    }

    /// The fields are what the lines, read again, say of the map.
    pub open spec fn agrees_with_lines(&self) -> bool {
        read_lines(self.lines()) == self.fields()
    }

    fn read_one(&mut self, line: &[char])
        requires
            old(self).pb_count < usize::MAX,
        ensures
            final(self).fields() == read_line(old(self).fields(), line@),
            final(self).path == old(self).path,
            final(self).lines == old(self).lines,
            final(self).newline == old(self).newline,
            final(self).modified == old(self).modified,
    {
        let ghost f = old(self).fields();
        let (cmd, rest) = match command_at(line) {
            None => {
                return ;
            },
            Some(cr) => cr,
        };
        let args = split_words(rest.as_slice());
        proof {
            assert(seqs_of(args@).len() == args@.len());
            assert forall|k: int| 0 <= k < args@.len() implies #[trigger] seqs_of(args@)[k]
                == args@[k]@ by {}
        }
        if is_word(cmd.as_slice(), "#dom2title") {
            self.title = string_from(rest.as_slice());
        } else if is_word(cmd.as_slice(), "#imagefile") {
            self.imagefile = Some(string_from(rest.as_slice()));
        } else if is_word(cmd.as_slice(), "#mapsize") {
            if args.len() >= 2 {
                match (to_i32(args[0].as_slice()), to_i32(args[1].as_slice())) {
                    (Some(w), Some(h)) => {
                        self.mapsize = Some((w, h));
                    },
                    _ => {},
                }
            }
        } else if is_word(cmd.as_slice(), "#wraparound") {
            self.hwrap = true;
            self.vwrap = true;
        } else if is_word(cmd.as_slice(), "#hwraparound") {
            self.hwrap = true;
        } else if is_word(cmd.as_slice(), "#vwraparound") {
            self.vwrap = true;
        } else if is_word(cmd.as_slice(), "#terrain") {
            if args.len() >= 2 {
                match (to_u32(args[0].as_slice()), to_i64(args[1].as_slice())) {
                    (Some(p), Some(v)) => {
                        self.terrain.insert(p, v);
                    },
                    _ => {},
                }
            }
        } else if is_word(cmd.as_slice(), "#gate") {
            if args.len() >= 2 {
                match (to_u32(args[0].as_slice()), to_i32(args[1].as_slice())) {
                    (Some(p), Some(v)) => {
                        self.gates.insert(p, v);
                    },
                    _ => {},
                }
            }
        } else if is_word(cmd.as_slice(), "#landname") {
            let i = next_ws(rest.as_slice(), 0);
            proof {
                assert(rest@.skip(0) =~= rest@);
                lemma_ws_pos(rest@);
            }
            if i < rest.len() {
                let head = sub_chars(rest.as_slice(), 0, i);
                let tail = sub_chars(rest.as_slice(), i, rest.len());
                assert(head@ =~= rest@.take(i as int));
                assert(tail@ =~= rest@.skip(i as int));
                match to_u32(head.as_slice()) {
                    Some(p) => {
                        let name = unquoted(tail.as_slice());
                        let ghost before = self.names@;
                        self.names.insert(p, string_from(name.as_slice()));
                        proof {
                            assert(names_view(self.names@) =~= names_view(before).insert(
                                p,
                                name@,
                            ));
                        }
                    },
                    None => {},
                }
            }
        } else if is_word(cmd.as_slice(), "#neighbour") {
            match first_two_of(&args) {
                Some((a, b)) => {
                    let pr = make_pair(a, b);
                    if !has_pair(&self.neighbours, pr) {
                        self.neighbours.push(pr);
                    }
                },
                None => {},
            }
        } else if is_word(cmd.as_slice(), "#neighbourspec") {
            match first_two_of(&args) {
                Some((a, b)) => {
                    if args.len() >= 3 {
                        match to_i64(args[2].as_slice()) {
                            Some(v) => {
                                self.specs.insert(make_pair(a, b), v);
                            },
                            None => {},
                        }
                    }
                },
                None => {},
            }
        } else if is_word(cmd.as_slice(), "#pb") {
            self.pb_count = self.pb_count + 1;
        }
        proof {
            reveal_strlit("#dom2title");
            reveal_strlit("#imagefile");
            reveal_strlit("#mapsize");
            reveal_strlit("#wraparound");
            reveal_strlit("#hwraparound");
            reveal_strlit("#vwraparound");
            reveal_strlit("#terrain");
            reveal_strlit("#gate");
            reveal_strlit("#landname");
            reveal_strlit("#neighbour");
            reveal_strlit("#neighbourspec");
            reveal_strlit("#pb");
            assert(self.fields() =~~= read_line(f, line@));
        }
    }
}


fn split_map_lines(cs: &[char]) -> (r: Vec<Vec<char>>)
    ensures
        seqs_of(r@) == map_lines(cs@),
{
    let pieces = split_chars(cs, '\n');
    let ghost ps = seqs_of(pieces@);
    let mut r: Vec<Vec<char>> = Vec::new();
    let mut k: usize = 0;
    while k < pieces.len()
        invariant
            k <= pieces@.len(),
            ps == seqs_of(pieces@),
            ps == split_on(cs@, '\n'),
            seqs_of(r@) == ps.take(k as int).map_values(|l: Seq<char>| strip_cr(l)),
        decreases pieces@.len() - k,
    {
        let p = &pieces[k];
        let e = strip_cr_at(p.as_slice());
        let line = sub_chars(p.as_slice(), 0, e);
        let ghost before = r@;
        r.push(line);
        proof {
            assert(p@ == ps[k as int]);
            assert(line@ =~= strip_cr(ps[k as int]));
            assert(seqs_of(r@) =~= seqs_of(before).push(line@));
            assert(ps.take(k + 1).map_values(|l: Seq<char>| strip_cr(l)) =~= ps.take(
                k as int,
            ).map_values(|l: Seq<char>| strip_cr(l)).push(strip_cr(ps[k as int])));
        }
        k += 1;
    }
    assert(ps.take(pieces@.len() as int) =~= ps);
    r
}

impl MapFile {
    /// Reads a map file from its bytes, taken as UTF-8 with what is not
    /// UTF-8 replaced, as the editor reads files from disk.
    pub fn parse_bytes(bytes: &[u8], path: &str) -> (m: MapFile)
        ensures
            m.fields() == read_lines(map_lines(lossy_utf8(bytes@))),
            m.lines() == map_lines(lossy_utf8(bytes@)),
            m.newline() == newline_of(lossy_utf8(bytes@)),
            m.path@ == path@,
            !m.modified,
            m.agrees_with_lines(),
    {
        let text = crate::wire::string_from_utf8_lossy(bytes);
        MapFile::parse(text.as_str(), path)
    }

    /// Reads a map file's text. Every line is kept as it stands; the commands
    /// that name the map's settings, provinces, borders and pixel runs fill
    /// the fields, read from the first line on, a later line overriding an
    /// earlier one.
    pub fn parse(text: &str, path: &str) -> (m: MapFile)
        ensures
            m.fields() == read_lines(map_lines(text@)),
            m.lines() == map_lines(text@),
            m.newline() == newline_of(text@),
            m.path@ == path@,
            !m.modified,
            m.agrees_with_lines(),
    {
        let cs = chars_of(text);
        let lines = split_map_lines(cs.as_slice());
        let crlf = vec!['\r', '\n'];
        let newline = if contains_chars(cs.as_slice(), crlf.as_slice()) {
            crlf
        } else {
            vec!['\n']
        };
        proof {
            reveal_strlit("\r\n");
            reveal_strlit("\n");
            assert(crlf@ =~= "\r\n"@);
            assert(seq!['\n'] =~= "\n"@);
        }
        let mut m = MapFile {
            path: string_of(path),
            lines: Vec::new(),
            newline,
            title: String::new(),
            imagefile: None,
            mapsize: None,
            hwrap: false,
            vwrap: false,
            terrain: BTreeMap::new(),
            names: BTreeMap::new(),
            gates: BTreeMap::new(),
            neighbours: Vec::new(),
            specs: BTreeMap::new(),
            pb_count: 0,
            modified: false,
        };
        let ghost ls = seqs_of(lines@);
        proof {
            assert(names_view(m.names@) =~= Map::<u32, Seq<char>>::empty());
            assert(m.fields() =~~= no_fields());
            assert(ls.take(0) =~= Seq::<Seq<char>>::empty());
        }
        let mut k: usize = 0;
        while k < lines.len()
            invariant
                k <= lines@.len(),
                ls == seqs_of(lines@),
                ls == map_lines(cs@),
                m.fields() == read_lines(ls.take(k as int)),
                m.path@ == path@,
                m.newline@ == newline_of(cs@),
                !m.modified,
            decreases lines@.len() - k,
        {
            proof {
                lemma_pb_bound(ls.take(k as int));
            }
            m.read_one(lines[k].as_slice());
            proof {
                assert(ls.take(k + 1).drop_last() =~= ls.take(k as int));
                assert(lines@[k as int]@ == ls[k as int]);
            }
            k += 1;
        }
        proof {
            assert(ls.take(lines@.len() as int) =~= ls);
        }
        m.lines = lines;
        m
    }
}


/// The province on the other side of a border from `p`, if the border touches `p`.
pub open spec fn partner(e: (u32, u32), p: u32) -> Option<u32> {
    if e.0 == p {
        Some(e.1)
    } else if e.1 == p {
        Some(e.0)
    } else {
        None
    }
}

/// The numbers in increasing order, each once.
pub open spec fn strictly_increasing(v: Seq<u32>) -> bool {
    forall|i: int, j: int| 0 <= i < j < v.len() ==> v[i] < v[j]
}

/// Adds a number to an increasing list of numbers, unless it is there already.
pub fn insert_sorted(v: &mut Vec<u32>, x: u32)
    requires
        strictly_increasing(old(v)@),
    ensures
        strictly_increasing(final(v)@),
        forall|y: u32| final(v)@.contains(y) <==> (old(v)@.contains(y) || y == x),
{
    let mut i: usize = 0;
    while i < v.len() && v[i] < x
        invariant
            i <= v@.len(),
            v@ == old(v)@,
            forall|j: int| 0 <= j < i ==> v@[j] < x,
        decreases v@.len() - i,
    {
        i += 1;
    }
    if i < v.len() && v[i] == x {
        assert(v@[i as int] == x);
        return ;
    }
    let ghost before = v@;
    assert(before == old(v)@);
    v.insert(i, x);
    proof {
        assert forall|y: u32| v@.contains(y) <==> (before.contains(y) || y == x) by {
            if v@.contains(y) {
                let k = choose|k: int| 0 <= k < v@.len() && v@[k] == y;
                if k < i {
                    assert(before[k] == y);
                } else if k > i {
                    assert(before[k - 1] == y);
                }
            }
            if before.contains(y) {
                let k = choose|k: int| 0 <= k < before.len() && before[k] == y;
                if k < i {
                    assert(v@[k] == y);
                } else {
                    assert(v@[k + 1] == y);
                }
            }
            if y == x {
                assert(v@[i as int] == x);
            }
        }
        assert(forall|y: u32| v@.contains(y) <==> (old(v)@.contains(y) || y == x));
    }
}

impl MapFile {
    /// The border kind written between two provinces, or none.
    pub fn spec_between(&self, a: u32, b: u32) -> (r: i64)
        ensures
            r == (if self.fields().specs.contains_key(pair(a, b)) {
                self.fields().specs[pair(a, b)]
            } else {
                0
            }),
    {
        match self.specs.get(&make_pair(a, b)) {
            Some(v) => *v,
            None => 0,
        }
    }

    /// Whether the file lists the two provinces as neighbours.
    pub fn are_neighbours(&self, a: u32, b: u32) -> (r: bool)
        ensures
            r == self.fields().neighbours.contains(pair(a, b)),
    {
        has_pair(&self.neighbours, make_pair(a, b))
    }

    /// The neighbours of a province, in increasing order, each once.
    pub fn neighbours_of(&self, p: u32) -> (v: Vec<u32>)
        ensures
            strictly_increasing(v@),
            forall|x: u32|
                v@.contains(x) <==> exists|i: int|
                    0 <= i < self.fields().neighbours.len() && #[trigger] partner(
                        self.fields().neighbours[i],
                        p,
                    ) == Some(x),
    {
        let mut v: Vec<u32> = Vec::new();
        let mut i: usize = 0;
        while i < self.neighbours.len()
            invariant
                i <= self.neighbours@.len(),
                strictly_increasing(v@),
                forall|x: u32|
                    v@.contains(x) <==> exists|j: int|
                        0 <= j < i && #[trigger] partner(self.neighbours@[j], p) == Some(x),
            decreases self.neighbours@.len() - i,
        {
            let (a, b) = self.neighbours[i];
            let ghost before = v@;
            if a == p {
                insert_sorted(&mut v, b);
            } else if b == p {
                insert_sorted(&mut v, a);
            }
            proof {
                assert forall|x: u32| v@.contains(x) <==> exists|j: int|
                    0 <= j < i + 1 && #[trigger] partner(self.neighbours@[j], p) == Some(x) by {
                    if partner(self.neighbours@[i as int], p) == Some(x) {
                        assert(v@.contains(x));
                    }
                    if v@.contains(x) && !before.contains(x) {
                        assert(partner(self.neighbours@[i as int], p) == Some(x));
                    }
                    if exists|j: int| 0 <= j < i + 1 && #[trigger] partner(self.neighbours@[j], p) == Some(x) {
                        let j = choose|j: int| 0 <= j < i + 1 && #[trigger] partner(self.neighbours@[j], p) == Some(x);
                        if j < i {
                            assert(before.contains(x));
                        }
                    }
                }
            }
            i += 1;
        }
        v
    }

    /// The name written for a province, if any.
    pub fn name_of(&self, p: u32) -> (r: Option<&str>)
        ensures
            match r {
                Some(s) => self.fields().names.contains_key(p) && s@ == self.fields().names[p],
                None => !self.fields().names.contains_key(p),
            },
    {
        match self.names.get(&p) {
            Some(s) => Some(s.as_str()),
            None => None,
        }
    }

    /// Which gate a province has; 0 means none.
    pub fn gate_of(&self, p: u32) -> (r: i32)
        ensures
            r == (if self.fields().gates.contains_key(p) {
                self.fields().gates[p]
            } else {
                0
            }),
    {
        match self.gates.get(&p) {
            Some(v) => *v,
            None => 0,
        }
    }

    /// Whether the file has pixel runs.
    pub fn has_pb(&self) -> (r: bool)
        ensures
            r == (self.fields().pb_count > 0),
    {
        self.pb_count > 0
    }

    /// The file's text: its lines joined by the line ending it was read with.
    pub fn to_text(&self) -> (s: String)
        ensures
            s@ == join(self.lines(), self.newline()),
    {
        let cs = join_chars(&self.lines, self.newline.as_slice());
        string_from(cs.as_slice())
    }
}


/// Which lines an edit looks for: those of a command; those of a command
/// whose first word is a province's number; or the border lines of a pair of
/// provinces (`#neighbourspec` lines, and `#neighbour` lines too where asked).
pub enum LinePick {
    Command(Seq<char>),
    Keyed(Seq<char>, u32),
    Link(bool, u32, u32),
}

/// Whether two provinces, in either order, are the pair `(a, b)`.
pub open spec fn same_link(xy: (u32, u32), a: u32, b: u32) -> bool {
    let (x, y) = xy;
    pair(x, y) == (a, b)
}

/// Whether an edit that looks for `k` finds this line.
pub open spec fn picks(k: LinePick, line: Seq<char>) -> bool {
    match command_of(line) {
        None => false,
        Some((c, r)) => match k {
            LinePick::Command(cmd) => c == cmd,
            LinePick::Keyed(cmd, p) => c == cmd && words(r).len() > 0 && words(r)[0] == decimal(
                p as nat,
            ),
            LinePick::Link(plain, a, b) => {
                &&& (c == "#neighbourspec"@ || (plain && c == "#neighbour"@))
                &&& first_two(r) is Some
                &&& same_link(first_two(r)->0, a, b)
            },
        },
    }
}

/// The first line that `k` finds.
pub open spec fn first_pick(lines: Seq<Seq<char>>, k: LinePick) -> Option<nat> {
    if exists|i: int| 0 <= i < lines.len() && picks(k, #[trigger] lines[i]) {
        Some(
            (choose|i: int|
                0 <= i < lines.len() && picks(k, #[trigger] lines[i]) && forall|j: int|
                    0 <= j < i ==> !picks(k, #[trigger] lines[j])) as nat,
        )
    } else {
        None
    }
}

/// The last line of a command.
pub open spec fn last_command(lines: Seq<Seq<char>>, cmd: Seq<char>) -> Option<nat> {
    if exists|i: int| 0 <= i < lines.len() && picks(LinePick::Command(cmd), #[trigger] lines[i]) {
        Some(
            (choose|i: int|
                0 <= i < lines.len() && picks(LinePick::Command(cmd), #[trigger] lines[i])
                    && forall|j: int|
                    i < j < lines.len() ==> !picks(LinePick::Command(cmd), #[trigger] lines[j])) as nat,
        )
    } else {
        None
    }
}

/// The lines that `k` does not find, in their order.
pub open spec fn keep_unpicked(lines: Seq<Seq<char>>, k: LinePick) -> Seq<Seq<char>>
    decreases lines.len(),
{
    if lines.len() == 0 {
        Seq::empty()
    } else if picks(k, lines.last()) {
        keep_unpicked(lines.drop_last(), k)
    } else {
        keep_unpicked(lines.drop_last(), k).push(lines.last())
    }
}

/// The lines without the empty lines at their end.
pub open spec fn drop_blank_tail(lines: Seq<Seq<char>>) -> Seq<Seq<char>>
    decreases lines.len(),
{
    if lines.len() > 0 && lines.last().len() == 0 {
        drop_blank_tail(lines.drop_last())
    } else {
        lines
    }
}

/// A new line goes after the last line of the first anchor command that the
/// file has; where it has none of them, it goes at the end, set off by an
/// empty line before and after.
pub open spec fn insert_after(lines: Seq<Seq<char>>, anchors: Seq<Seq<char>>, line: Seq<char>) -> Seq<
    Seq<char>,
>
    decreases anchors.len(),
{
    if anchors.len() == 0 {
        drop_blank_tail(lines) + seq![Seq::empty(), line, Seq::empty()]
    } else {
        match last_command(lines, anchors[0]) {
            Some(i) => lines.insert(i as int + 1, line),
            None => insert_after(lines, anchors.drop_first(), line),
        }
    }
}

/// A line is set: it takes the place of the first line that `k` finds, and
/// the other lines that `k` finds go; where `k` finds none, it is inserted
/// after the anchors.
pub open spec fn upsert(lines: Seq<Seq<char>>, k: LinePick, line: Seq<char>, anchors: Seq<Seq<char>>) -> Seq<
    Seq<char>,
> {
    match first_pick(lines, k) {
        Some(i) => lines.take(i as int) + seq![line] + keep_unpicked(lines.skip(i as int + 1), k),
        None => insert_after(lines, anchors, line),
    }
}

enum Pick {
    Command(Vec<char>),
    Keyed(Vec<char>, u32),
    Link(bool, u32, u32),
}

impl Pick {
    spec fn view(&self) -> LinePick {
        match self {
            Pick::Command(c) => LinePick::Command(c@),
            Pick::Keyed(c, p) => LinePick::Keyed(c@, *p),
            Pick::Link(plain, a, b) => LinePick::Link(*plain, *a, *b),
        }
    }
}

fn decimal_chars(n: u32) -> (v: Vec<char>)
    ensures
        v@ == decimal(n as nat),
{
    let mut s = String::new();
    push_decimal(&mut s, n as u64);
    chars_of(s.as_str())
}

fn pick_line(k: &Pick, line: &[char]) -> (b: bool)
    ensures
        b == picks(k.view(), line@),
{
    let (c, r) = match command_at(line) {
        None => {
            return false;
        },
        Some(cr) => cr,
    };
    match k {
        Pick::Command(cmd) => same_chars(c.as_slice(), cmd.as_slice()),
        Pick::Keyed(cmd, p) => {
            if !same_chars(c.as_slice(), cmd.as_slice()) {
                return false;
            }
            let w = split_words(r.as_slice());
            if w.len() == 0 {
                return false;
            }
            let d = decimal_chars(*p);
            proof {
                assert(seqs_of(w@)[0] == w@[0]@);
            }
            same_chars(w[0].as_slice(), d.as_slice())
        },
        Pick::Link(plain, a, b) => {
            proof {
                reveal_strlit("#neighbourspec");
                reveal_strlit("#neighbour");
            }
            if !(is_word(c.as_slice(), "#neighbourspec") || (*plain && is_word(
                c.as_slice(),
                "#neighbour",
            ))) {
                return false;
            }
            let w = split_words(r.as_slice());
            proof {
                assert(seqs_of(w@).len() == w@.len());
                assert forall|j: int| 0 <= j < w@.len() implies #[trigger] seqs_of(w@)[j]
                    == w@[j]@ by {}
            }
            match first_two_of(&w) {
                Some((x, y)) => {
                    let pr = make_pair(x, y);
                    pr.0 == *a && pr.1 == *b
                },
                None => false,
            }
        },
    }
}

fn copy_line(l: &Vec<char>) -> (r: Vec<char>)
    ensures
        r@ == l@,
{
    let r = sub_chars(l.as_slice(), 0, l.len());
    assert(r@ =~= l@);
    r
}

proof fn lemma_keep_push(lines: Seq<Seq<char>>, k: LinePick, i: int)
    requires
        0 <= i < lines.len(),
    ensures
        keep_unpicked(lines.take(i + 1), k) == if picks(k, lines[i]) {
            keep_unpicked(lines.take(i), k)
        } else {
            keep_unpicked(lines.take(i), k).push(lines[i])
        },
{
    assert(lines.take(i + 1).drop_last() =~= lines.take(i));
}

proof fn lemma_insert_after_step(ls: Seq<Seq<char>>, an: Seq<Seq<char>>, a: int, line: Seq<char>)
    requires
        0 <= a < an.len(),
    ensures
        insert_after(ls, an.skip(a), line) == match last_command(ls, an[a]) {
            Some(i) => ls.insert(i as int + 1, line),
            None => insert_after(ls, an.skip(a + 1), line),
        },
{
    assert(an.skip(a)[0] == an[a]);
    assert(an.skip(a).drop_first() =~= an.skip(a + 1));
}

proof fn lemma_drop_blank_step(lines: Seq<Seq<char>>)
    requires
        lines.len() > 0,
        lines.last().len() == 0,
    ensures
        drop_blank_tail(lines) == drop_blank_tail(lines.drop_last()),
{
}

impl MapFile {
    fn find_line(&self, k: &Pick) -> (r: Option<usize>)
        ensures
            r matches Some(i) ==> first_pick(self.lines(), k.view()) == Some(i as nat) && i
                < self.lines@.len(),
            r is None ==> first_pick(self.lines(), k.view()) is None,
    {
        let ghost ls = self.lines();
        let mut i: usize = 0;
        while i < self.lines.len()
            invariant
                i <= self.lines@.len(),
                ls == self.lines(),
                ls.len() == self.lines@.len(),
                forall|j: int| 0 <= j < i ==> !picks(k.view(), #[trigger] ls[j]),
            decreases self.lines@.len() - i,
        {
            assert(ls[i as int] == self.lines@[i as int]@);
            if pick_line(k, self.lines[i].as_slice()) {
                proof {
                    let c = choose|c: int|
                        0 <= c < ls.len() && picks(k.view(), #[trigger] ls[c]) && forall|j: int|
                            0 <= j < c ==> !picks(k.view(), #[trigger] ls[j]);
                    assert(picks(k.view(), ls[i as int]));
                    if c < i {
                    } else if c > i {
                        assert(!picks(k.view(), ls[i as int]));
                    }
                }
                return Some(i);
            }
            i += 1;
        }
        None
    }

    fn last_line_with(&self, cmd: &Vec<char>) -> (r: Option<usize>)
        ensures
            r matches Some(i) ==> last_command(self.lines(), cmd@) == Some(i as nat) && i
                < self.lines@.len(),
            r is None ==> last_command(self.lines(), cmd@) is None,
    {
        let ghost ls = self.lines();
        let ghost k = LinePick::Command(cmd@);
        let mut i: usize = self.lines.len();
        let pk = Pick::Command(copy_line(cmd));
        while i > 0
            invariant
                i <= self.lines@.len(),
                ls == self.lines(),
                ls.len() == self.lines@.len(),
                pk.view() == k,
                k == LinePick::Command(cmd@),
                forall|j: int| i <= j < ls.len() ==> !picks(k, #[trigger] ls[j]),
            decreases i,
        {
            assert(ls[i - 1] == self.lines@[i - 1]@);
            if pick_line(&pk, self.lines[i - 1].as_slice()) {
                proof {
                    let c = choose|c: int|
                        0 <= c < ls.len() && picks(k, #[trigger] ls[c]) && forall|j: int|
                            c < j < ls.len() ==> !picks(k, #[trigger] ls[j]);
                    assert(picks(k, ls[i - 1]));
                    if c < i - 1 {
                        assert(!picks(k, ls[i - 1]));
                    } else if c > i - 1 {
                    }
                }
                return Some(i - 1);
            }
            i -= 1;
        }
        None
    }

    fn remove_where(&mut self, k: &Pick)
        ensures
            final(self).lines() == keep_unpicked(old(self).lines(), k.view()),
            final(self).fields() == old(self).fields(),
            final(self).path == old(self).path,
            final(self).newline == old(self).newline,
            final(self).modified == old(self).modified,
    {
        let ghost ls = self.lines();
        let mut r: Vec<Vec<char>> = Vec::new();
        let mut i: usize = 0;
        assert(ls.take(0) =~= Seq::<Seq<char>>::empty());
        while i < self.lines.len()
            invariant
                i <= self.lines@.len(),
                ls == self.lines(),
                ls.len() == self.lines@.len(),
                seqs_of(r@) == keep_unpicked(ls.take(i as int), k.view()),
            decreases self.lines@.len() - i,
        {
            proof {
                lemma_keep_push(ls, k.view(), i as int);
                assert(ls[i as int] == self.lines@[i as int]@);
            }
            if !pick_line(k, self.lines[i].as_slice()) {
                let ghost before = r@;
                r.push(copy_line(&self.lines[i]));
                proof {
                    assert(seqs_of(r@) =~= seqs_of(before).push(ls[i as int]));
                }
            }
            i += 1;
        }
        assert(ls.take(ls.len() as int) =~= ls);
        self.lines = r;
    }

    #[verifier::spinoff_prover]
    #[verifier::rlimit(30)]
    fn insert_after_last(&mut self, anchors: &Vec<Vec<char>>, line: Vec<char>)
        ensures
            final(self).lines() == insert_after(old(self).lines(), seqs_of(anchors@), line@),
            final(self).fields() == old(self).fields(),
            final(self).path == old(self).path,
            final(self).newline == old(self).newline,
            final(self).modified == old(self).modified,
    {
        let ghost ls = self.lines();
        let ghost an = seqs_of(anchors@);
        let n = self.lines.len();
        let mut a: usize = 0;
        assert(an.skip(0) =~= an);
        while a < anchors.len()
            invariant
                a <= anchors@.len(),
                an == seqs_of(anchors@),
                ls == old(self).lines(),
                n == self.lines@.len(),
                *self == *old(self),
                insert_after(ls, an, line@) == insert_after(ls, an.skip(a as int), line@),
            decreases anchors@.len() - a,
        {
            proof {
                lemma_insert_after_step(ls, an, a as int, line@);
                assert(an[a as int] == anchors@[a as int]@);
            }
            match self.last_line_with(&anchors[a]) {
                Some(i) => {
                    self.lines.insert(i + 1, line);
                    proof {
                        assert(seqs_of(self.lines@) =~= ls.insert(i + 1, line@));
                    }
                    return ;
                },
                None => {},
            }
            a += 1;
        }
        assert(an.skip(anchors@.len() as int).len() == 0);
        while self.lines.len() > 0 && self.lines[self.lines.len() - 1].len() == 0
            invariant
                drop_blank_tail(self.lines()) == drop_blank_tail(ls),
                self.fields() == old(self).fields(),
                self.path == old(self).path,
                self.newline == old(self).newline,
                self.modified == old(self).modified,
            decreases self.lines@.len(),
        {
            let ghost before = self.lines();
            proof {
                lemma_drop_blank_step(before);
            }
            self.lines.pop();
            assert(self.lines() =~= before.drop_last());
        }
        let ghost kept = self.lines();
        assert(drop_blank_tail(kept) == kept);
        self.lines.push(Vec::new());
        self.lines.push(line);
        self.lines.push(Vec::new());
        proof {
            assert(self.lines() =~= kept + seq![Seq::<char>::empty(), line@, Seq::<char>::empty()]);
        }
    }
}


fn anchors2(a: &str, b: &str) -> (v: Vec<Vec<char>>)
    ensures
        seqs_of(v@) == seq![a@, b@],
{
    let v = vec![chars_of(a), chars_of(b)];
    assert(seqs_of(v@) =~= seq![a@, b@]);
    v
}

fn anchors3(a: &str, b: &str, c: &str) -> (v: Vec<Vec<char>>)
    ensures
        seqs_of(v@) == seq![a@, b@, c@],
{
    let v = vec![chars_of(a), chars_of(b), chars_of(c)];
    assert(seqs_of(v@) =~= seq![a@, b@, c@]);
    v
}

fn anchors1(a: &str) -> (v: Vec<Vec<char>>)
    ensures
        seqs_of(v@) == seq![a@],
{
    let v = vec![chars_of(a)];
    assert(seqs_of(v@) =~= seq![a@]);
    v
}

/// The pairs without `x`.
pub open spec fn without(v: Seq<(u32, u32)>, x: (u32, u32)) -> Seq<(u32, u32)>
    decreases v.len(),
{
    if v.len() == 0 {
        Seq::empty()
    } else if v.last() == x {
        without(v.drop_last(), x)
    } else {
        without(v.drop_last(), x).push(v.last())
    }
}

fn remove_pair(v: &Vec<(u32, u32)>, x: (u32, u32)) -> (r: Vec<(u32, u32)>)
    ensures
        r@ == without(v@, x),
{
    let mut r: Vec<(u32, u32)> = Vec::new();
    let mut i: usize = 0;
    assert(v@.take(0) =~= Seq::<(u32, u32)>::empty());
    while i < v.len()
        invariant
            i <= v@.len(),
            r@ == without(v@.take(i as int), x),
        decreases v@.len() - i,
    {
        assert(v@.take(i + 1).drop_last() =~= v@.take(i as int));
        let e = v[i];
        if !(e.0 == x.0 && e.1 == x.1) {
            r.push(e);
        }
        i += 1;
    }
    assert(v@.take(v@.len() as int) =~= v@);
    r
}

/// The line that names a map's picture.
pub open spec fn imagefile_line(name: Seq<char>) -> Seq<char> {
    "#imagefile "@ + name
}

/// The line that names a map's title.
pub open spec fn title_line(title: Seq<char>) -> Seq<char> {
    "#dom2title "@ + title
}

/// The line that gives a province its terrain.
pub open spec fn terrain_line(p: u32, mask: i64) -> Seq<char> {
    "#terrain "@ + decimal(p as nat) + " "@ + signed_decimal(mask as int)
}

/// The line that names a province.
pub open spec fn landname_line(p: u32, name: Seq<char>) -> Seq<char> {
    "#landname "@ + decimal(p as nat) + " \""@ + name + "\""@
}

/// The line that gives a province a gate.
pub open spec fn gate_line(p: u32, n: i32) -> Seq<char> {
    "#gate "@ + decimal(p as nat) + " "@ + signed_decimal(n as int)
}

/// The line that makes two provinces neighbours.
pub open spec fn neighbour_line(a: u32, b: u32) -> Seq<char> {
    "#neighbour "@ + decimal(a as nat) + " "@ + decimal(b as nat)
}

/// The line that gives a border its kind.
pub open spec fn spec_line(a: u32, b: u32, spec: i64) -> Seq<char> {
    "#neighbourspec "@ + decimal(a as nat) + " "@ + decimal(b as nat) + " "@ + signed_decimal(
        spec as int,
    )
}

/// A name as it is written between quotes: its double quotes become single ones.
pub open spec fn clean_name(n: Seq<char>) -> Seq<char> {
    crate::text::replace_all(n, "\""@, "'"@)
}

impl MapFile {
    fn upsert(&mut self, k: &Pick, line: Vec<char>, anchors: &Vec<Vec<char>>)
        ensures
            final(self).lines() == upsert(old(self).lines(), k.view(), line@, seqs_of(anchors@)),
            final(self).fields() == old(self).fields(),
            final(self).path == old(self).path,
            final(self).newline == old(self).newline,
            final(self).modified,
    {
        let ghost ls = self.lines();
        match self.find_line(k) {
            Some(i) => {
                let n = self.lines.len();
                let mut r: Vec<Vec<char>> = Vec::new();
                let mut j: usize = 0;
                while j < i
                    invariant
                        j <= i < n,
                        n == self.lines@.len(),
                        ls == self.lines(),
                        seqs_of(r@) == ls.take(j as int),
                    decreases i - j,
                {
                    let ghost before = r@;
                    r.push(copy_line(&self.lines[j]));
                    proof {
                        assert(ls[j as int] == self.lines@[j as int]@);
                        assert(seqs_of(r@) =~= seqs_of(before).push(ls[j as int]));
                        assert(seqs_of(r@) =~= ls.take(j + 1));
                    }
                    j += 1;
                }
                let ghost head = seqs_of(r@);
                let ghost ln = line@;
                r.push(line);
                let ghost rest = ls.skip(i + 1);
                proof {
                    assert(seqs_of(r@) =~= head + seq![ln] + keep_unpicked(rest.take(0), k.view()));
                }
                j = i + 1;
                while j < n
                    invariant
                        i < j <= n,
                        n == self.lines@.len(),
                        ls == self.lines(),
                        rest == ls.skip(i + 1),
                        seqs_of(r@) == head + seq![ln] + keep_unpicked(rest.take(j - (i + 1)), k.view()),
                    decreases n - j,
                {
                    proof {
                        lemma_keep_push(rest, k.view(), j - (i + 1));
                        assert(rest[j - (i + 1)] == self.lines@[j as int]@);
                    }
                    if !pick_line(k, self.lines[j].as_slice()) {
                        let ghost before = r@;
                        r.push(copy_line(&self.lines[j]));
                        proof {
                            assert(seqs_of(r@) =~= seqs_of(before).push(ls[j as int]));
                        }
                    }
                    j += 1;
                }
                proof {
                    assert(rest.take(n - (i + 1)) =~= rest);
                }
                self.lines = r;
            },
            None => self.insert_after_last(anchors, line),
        }
        self.modified = true;
    }

    /// Names the map's picture, in the field and in the file.
    pub fn set_imagefile(&mut self, name: &str)
        ensures
            final(self).fields() == (Fields { imagefile: Some(name@), ..old(self).fields() }),
            final(self).lines() == upsert(
                old(self).lines(),
                LinePick::Command("#imagefile"@),
                imagefile_line(name@),
                seq!["#dom2title"@, "#imagefile"@],
            ),
            final(self).modified,
            final(self).path == old(self).path,
            final(self).newline == old(self).newline,
            old(self).agrees_with_lines() && trim(name@) == name@ ==> final(self).agrees_with_lines(),
            reads_back(*old(self)) && trim(name@) == name@ && no_break(name@) ==> reads_back(*final(self)),
    {
        let ghost ls0 = self.lines();
        let ghost m0 = *self;
        self.imagefile = Some(string_of(name));
        let mut t = string_of("#imagefile ");
        push_str(&mut t, name);
        let k = Pick::Command(chars_of("#imagefile"));
        let an = anchors2("#dom2title", "#imagefile");
        self.upsert(&k, chars_of(t.as_str()), &an);
        proof {
            if trim(name@) == name@ {
                lemma_imagefile_reads_back(ls0, name@, seq!["#dom2title"@, "#imagefile"@]);
            }
            if reads_back(m0) && trim(name@) == name@ && no_break(name@) {
                let line = imagefile_line(name@);
                let anchors = seq!["#dom2title"@, "#imagefile"@];
                lemma_imagefile_line_plain(name@);
                assert(self.lines() == upsert(ls0, LinePick::Command("#imagefile"@), line, anchors));
                assert(plain_edit(ls0, self.lines()));
                assert(crate::reading::all_plain(ls0));
                lemma_upsert_plain(ls0, LinePick::Command("#imagefile"@), line, anchors);
                lemma_edit_reads_back(m0, *self);
            }
        }
    }

    /// Sets the map's title, in the field and in the file.
    pub fn set_title(&mut self, title: &str)
        ensures
            final(self).fields() == (Fields { title: title@, ..old(self).fields() }),
            final(self).lines() == upsert(
                old(self).lines(),
                LinePick::Command("#dom2title"@),
                title_line(title@),
                seq!["#dom2title"@],
            ),
            final(self).modified,
            final(self).path == old(self).path,
            final(self).newline == old(self).newline,
            old(self).agrees_with_lines() && trim(title@) == title@ ==> final(self).agrees_with_lines(),
            reads_back(*old(self)) && trim(title@) == title@ && no_break(title@) ==> reads_back(*final(self)),
    {
        let ghost ls0 = self.lines();
        let ghost m0 = *self;
        self.title = string_of(title);
        let mut t = string_of("#dom2title ");
        push_str(&mut t, title);
        let k = Pick::Command(chars_of("#dom2title"));
        let an = anchors1("#dom2title");
        self.upsert(&k, chars_of(t.as_str()), &an);
        proof {
            if trim(title@) == title@ {
                lemma_title_reads_back(ls0, title@, seq!["#dom2title"@]);
            }
            if reads_back(m0) && trim(title@) == title@ && no_break(title@) {
                let line = title_line(title@);
                let anchors = seq!["#dom2title"@];
                lemma_title_line_plain(title@);
                assert(self.lines() == upsert(ls0, LinePick::Command("#dom2title"@), line, anchors));
                assert(plain_edit(ls0, self.lines()));
                assert(crate::reading::all_plain(ls0));
                lemma_upsert_plain(ls0, LinePick::Command("#dom2title"@), line, anchors);
                lemma_edit_reads_back(m0, *self);
            }
        }
    }

    /// Gives a province its terrain; a terrain it already has changes nothing.
    pub fn set_terrain(&mut self, p: u32, mask: i64)
        ensures
            old(self).fields().terrain.contains_key(p) && old(self).fields().terrain[p] == mask
                ==> *final(self) == *old(self),
            !(old(self).fields().terrain.contains_key(p) && old(self).fields().terrain[p]
                == mask) ==> {
                &&& final(self).fields() == (Fields {
                    terrain: old(self).fields().terrain.insert(p, mask),
                    ..old(self).fields()
                })
                &&& final(self).lines() == upsert(
                    old(self).lines(),
                    LinePick::Keyed("#terrain"@, p),
                    terrain_line(p, mask),
                    seq!["#terrain"@, "#landname"@],
                )
                &&& final(self).modified
            },
            final(self).path == old(self).path,
            final(self).newline == old(self).newline,
            old(self).agrees_with_lines() && found_as_written(old(self).lines(), LinePick::Keyed("#terrain"@, p))
                ==> final(self).agrees_with_lines(),
            reads_back(*old(self)) && found_as_written(old(self).lines(), LinePick::Keyed("#terrain"@, p))
                ==> reads_back(*final(self)),
    {
        let ghost ls0 = self.lines();
        let ghost m0 = *self;
        match self.terrain.get(&p) {
            Some(v) => {
                if *v == mask {
                    return ;
                }
            },
            None => {},
        }
        self.terrain.insert(p, mask);
        let mut t = string_of("#terrain ");
        push_decimal(&mut t, p as u64);
        push_str(&mut t, " ");
        push_signed(&mut t, mask);
        let k = Pick::Keyed(chars_of("#terrain"), p);
        let an = anchors2("#terrain", "#landname");
        self.upsert(&k, chars_of(t.as_str()), &an);
        proof {
            assert(t@ =~= terrain_line(p, mask));
            if found_as_written(ls0, LinePick::Keyed("#terrain"@, p)) {
                lemma_terrain_reads_back(ls0, p, mask, seq!["#terrain"@, "#landname"@]);
            }
            if reads_back(m0) && found_as_written(ls0, LinePick::Keyed("#terrain"@, p)) {
                let line = terrain_line(p, mask);
                let anchors = seq!["#terrain"@, "#landname"@];
                lemma_terrain_line_plain(p, mask);
                assert(self.lines() == upsert(ls0, LinePick::Keyed("#terrain"@, p), line, anchors));
                assert(plain_edit(ls0, self.lines()));
                assert(crate::reading::all_plain(ls0));
                lemma_upsert_plain(ls0, LinePick::Keyed("#terrain"@, p), line, anchors);
                lemma_edit_reads_back(m0, *self);
            }
        }
    }
}


/// Whether a province's name is already the one given: both absent, or the same text.
pub open spec fn same_name(current: Option<Seq<char>>, name: Option<Seq<char>>) -> bool {
    current == name
}

fn has_text(s: &[char]) -> (b: bool)
    ensures
        b == (trim(s@).len() > 0),
{
    let t = trimmed(s);
    t.len() > 0
}

impl MapFile {
    /// Names a province, or takes its name away: no name, or a blank one,
    /// removes the province's name lines. The name is written between double
    /// quotes, its own double quotes turned to single ones.
    pub fn set_name(&mut self, p: u32, name: Option<&str>)
        ensures
            ({
                let cur = if old(self).fields().names.contains_key(p) {
                    Some(old(self).fields().names[p])
                } else {
                    None
                };
                let want = match name {
                    Some(n) => Some(n@),
                    None => None,
                };
                if cur == want {
                    *final(self) == *old(self)
                } else if name is Some && trim(name->0@).len() > 0 {
                    &&& final(self).fields() == (Fields {
                        names: old(self).fields().names.insert(p, clean_name(name->0@)),
                        ..old(self).fields()
                    })
                    &&& final(self).lines() == upsert(
                        old(self).lines(),
                        LinePick::Keyed("#landname"@, p),
                        landname_line(p, clean_name(name->0@)),
                        seq!["#landname"@, "#terrain"@],
                    )
                    &&& final(self).modified
                } else {
                    &&& final(self).fields() == (Fields {
                        names: old(self).fields().names.remove(p),
                        ..old(self).fields()
                    })
                    &&& final(self).lines() == keep_unpicked(
                        old(self).lines(),
                        LinePick::Keyed("#landname"@, p),
                    )
                    &&& final(self).modified
                }
            }),
            final(self).path == old(self).path,
            final(self).newline == old(self).newline,
            old(self).agrees_with_lines() && found_as_written(old(self).lines(), LinePick::Keyed("#landname"@, p))
                ==> final(self).agrees_with_lines(),
            reads_back(*old(self)) && found_as_written(old(self).lines(), LinePick::Keyed("#landname"@, p))
                && (match name {
                Some(n) => no_break(n@),
                None => true,
            }) && final(self).lines().len() >= 1 ==> reads_back(*final(self)),
    {
        let ghost ls0 = self.lines();
        let ghost m0 = *self;
        let same = match (self.names.get(&p), name) {
            (None, None) => true,
            (Some(c), Some(n)) => {
                let a = chars_of(c.as_str());
                let b = chars_of(n);
                same_chars(a.as_slice(), b.as_slice())
            },
            _ => false,
        };
        if same {
            return ;
        }
        let k = Pick::Keyed(chars_of("#landname"), p);
        let ghost before = self.names@;
        match name {
            Some(n) => {
                let cs = chars_of(n);
                if has_text(cs.as_slice()) {
                    let q = chars_of("\"");
                    let a = chars_of("'");
                    let clean = replace_chars(cs.as_slice(), q.as_slice(), a.as_slice());
                    self.names.insert(p, string_from(clean.as_slice()));
                    proof {
                        assert(names_view(self.names@) =~= names_view(before).insert(p, clean@));
                    }
                    let mut t = string_of("#landname ");
                    push_decimal(&mut t, p as u64);
                    push_str(&mut t, " \"");
                    push_str(&mut t, string_from(clean.as_slice()).as_str());
                    push_str(&mut t, "\"");
                    let an = anchors2("#landname", "#terrain");
                    self.upsert(&k, chars_of(t.as_str()), &an);
                    proof {
                        assert(t@ =~= landname_line(p, clean@));
                        if found_as_written(ls0, LinePick::Keyed("#landname"@, p)) {
                            lemma_name_reads_back(ls0, p, clean@, seq!["#landname"@, "#terrain"@]);
                        }
                        if reads_back(m0) && found_as_written(ls0, LinePick::Keyed("#landname"@, p)) && no_break(n@) {
                            reveal_strlit("\"");
                            reveal_strlit("'");
                            assert(clean@ == clean_name(n@));
                            lemma_landname_line_plain(p, n@);
                            let line = landname_line(p, clean@);
                            let anchors = seq!["#landname"@, "#terrain"@];
                            assert(self.lines() == upsert(ls0, LinePick::Keyed("#landname"@, p), line, anchors));
                            assert(plain_edit(ls0, self.lines()));
                            assert(crate::reading::all_plain(ls0));
                            lemma_upsert_plain(ls0, LinePick::Keyed("#landname"@, p), line, anchors);
                            lemma_edit_reads_back(m0, *self);
                        }
                    }
                    return ;
                }
            },
            None => {},
        }
        self.names.remove(&p);
        proof {
            assert(names_view(self.names@) =~= names_view(before).remove(p));
        }
        self.remove_where(&k);
        self.modified = true;
        proof {
            if found_as_written(ls0, LinePick::Keyed("#landname"@, p)) {
                lemma_name_removal_reads_back(ls0, p);
            }
            if reads_back(m0) && found_as_written(ls0, LinePick::Keyed("#landname"@, p)) && self.lines().len() >= 1 {
                assert(self.lines() == keep_unpicked(ls0, LinePick::Keyed("#landname"@, p)));
                assert(plain_edit(ls0, self.lines()));
                lemma_edit_reads_back(m0, *self);
            }
        }
    }

    /// Gives a province a gate number; 0 takes its gate away.
    pub fn set_gate(&mut self, p: u32, n: i32)
        ensures
            ({
                let cur = if old(self).fields().gates.contains_key(p) {
                    old(self).fields().gates[p]
                } else {
                    0
                };
                if cur == n {
                    *final(self) == *old(self)
                } else if n == 0 {
                    &&& final(self).fields() == (Fields {
                        gates: old(self).fields().gates.remove(p),
                        ..old(self).fields()
                    })
                    &&& final(self).lines() == keep_unpicked(
                        old(self).lines(),
                        LinePick::Keyed("#gate"@, p),
                    )
                    &&& final(self).modified
                } else {
                    &&& final(self).fields() == (Fields {
                        gates: old(self).fields().gates.insert(p, n),
                        ..old(self).fields()
                    })
                    &&& final(self).lines() == upsert(
                        old(self).lines(),
                        LinePick::Keyed("#gate"@, p),
                        gate_line(p, n),
                        seq!["#gate"@, "#terrain"@, "#landname"@],
                    )
                    &&& final(self).modified
                }
            }),
            final(self).path == old(self).path,
            final(self).newline == old(self).newline,
            old(self).agrees_with_lines() && found_as_written(old(self).lines(), LinePick::Keyed("#gate"@, p))
                ==> final(self).agrees_with_lines(),
            reads_back(*old(self)) && found_as_written(old(self).lines(), LinePick::Keyed("#gate"@, p))
                && final(self).lines().len() >= 1 ==> reads_back(*final(self)),
    {
        let ghost ls0 = self.lines();
        let ghost m0 = *self;
        if self.gate_of(p) == n {
            return ;
        }
        let k = Pick::Keyed(chars_of("#gate"), p);
        if n == 0 {
            self.gates.remove(&p);
            self.remove_where(&k);
            self.modified = true;
            proof {
                if found_as_written(ls0, LinePick::Keyed("#gate"@, p)) {
                    lemma_gate_removal_reads_back(ls0, p);
                }
                if reads_back(m0) && found_as_written(ls0, LinePick::Keyed("#gate"@, p)) && self.lines().len() >= 1 {
                    assert(self.lines() == keep_unpicked(ls0, LinePick::Keyed("#gate"@, p)));
                    assert(plain_edit(ls0, self.lines()));
                    lemma_edit_reads_back(m0, *self);
                }
            }
        } else {
            self.gates.insert(p, n);
            let mut t = string_of("#gate ");
            push_decimal(&mut t, p as u64);
            push_str(&mut t, " ");
            push_signed(&mut t, n as i64);
            let an = anchors3("#gate", "#terrain", "#landname");
            self.upsert(&k, chars_of(t.as_str()), &an);
            proof {
                assert(t@ =~= gate_line(p, n));
                if found_as_written(ls0, LinePick::Keyed("#gate"@, p)) {
                    lemma_gate_reads_back(ls0, p, n, seq!["#gate"@, "#terrain"@, "#landname"@]);
                }
                if reads_back(m0) && found_as_written(ls0, LinePick::Keyed("#gate"@, p)) {
                    let line = gate_line(p, n);
                    let anchors = seq!["#gate"@, "#terrain"@, "#landname"@];
                    lemma_gate_line_plain(p, n);
                    assert(self.lines() == upsert(ls0, LinePick::Keyed("#gate"@, p), line, anchors));
                    assert(plain_edit(ls0, self.lines()));
                    assert(crate::reading::all_plain(ls0));
                    lemma_upsert_plain(ls0, LinePick::Keyed("#gate"@, p), line, anchors);
                    lemma_edit_reads_back(m0, *self);
                }
            }
        }
    }

    /// Makes two provinces neighbours, or not. A province is no neighbour of
    /// itself; taking a border away takes its kind away too.
    pub fn set_neighbour(&mut self, a: u32, b: u32, present: bool)
        ensures
            ({
                let (x, y) = pair(a, b);
                if x == y || old(self).fields().neighbours.contains((x, y)) == present {
                    *final(self) == *old(self)
                } else if present {
                    &&& final(self).fields() == (Fields {
                        neighbours: old(self).fields().neighbours.push((x, y)),
                        ..old(self).fields()
                    })
                    &&& final(self).lines() == insert_after(
                        old(self).lines(),
                        seq!["#neighbour"@, "#terrain"@],
                        neighbour_line(x, y),
                    )
                    &&& final(self).modified
                } else {
                    &&& final(self).fields() == (Fields {
                        neighbours: without(old(self).fields().neighbours, (x, y)),
                        specs: old(self).fields().specs.remove((x, y)),
                        ..old(self).fields()
                    })
                    &&& final(self).lines() == keep_unpicked(
                        old(self).lines(),
                        LinePick::Link(true, x, y),
                    )
                    &&& final(self).modified
                }
            }),
            final(self).path == old(self).path,
            final(self).newline == old(self).newline,
    {
        let (x, y) = make_pair(a, b);
        if x == y || self.are_neighbours(x, y) == present {
            return ;
        }
        if present {
            self.neighbours.push((x, y));
            let mut t = string_of("#neighbour ");
            push_decimal(&mut t, x as u64);
            push_str(&mut t, " ");
            push_decimal(&mut t, y as u64);
            let an = anchors2("#neighbour", "#terrain");
            self.insert_after_last(&an, chars_of(t.as_str()));
            proof {
                assert(t@ =~= neighbour_line(x, y));
            }
        } else {
            self.neighbours = remove_pair(&self.neighbours, (x, y));
            self.specs.remove(&(x, y));
            self.remove_where(&Pick::Link(true, x, y));
        }
        self.modified = true;
    }

    /// Gives a border its kind; 0 takes the kind away.
    pub fn set_spec(&mut self, a: u32, b: u32, spec: i64)
        ensures
            ({
                let (x, y) = pair(a, b);
                let cur = if old(self).fields().specs.contains_key((x, y)) {
                    old(self).fields().specs[(x, y)]
                } else {
                    0
                };
                if cur == spec {
                    *final(self) == *old(self)
                } else if spec == 0 {
                    &&& final(self).fields() == (Fields {
                        specs: old(self).fields().specs.remove((x, y)),
                        ..old(self).fields()
                    })
                    &&& final(self).lines() == keep_unpicked(
                        old(self).lines(),
                        LinePick::Link(false, x, y),
                    )
                    &&& final(self).modified
                } else {
                    &&& final(self).fields() == (Fields {
                        specs: old(self).fields().specs.insert((x, y), spec),
                        ..old(self).fields()
                    })
                    &&& final(self).lines() == upsert(
                        old(self).lines(),
                        LinePick::Link(false, x, y),
                        spec_line(x, y, spec),
                        seq!["#neighbourspec"@, "#neighbour"@],
                    )
                    &&& final(self).modified
                }
            }),
            final(self).path == old(self).path,
            final(self).newline == old(self).newline,
    {
        let (x, y) = make_pair(a, b);
        if self.spec_between(x, y) == spec {
            return ;
        }
        let k = Pick::Link(false, x, y);
        if spec == 0 {
            self.specs.remove(&(x, y));
            self.remove_where(&k);
            self.modified = true;
        } else {
            self.specs.insert((x, y), spec);
            let mut t = string_of("#neighbourspec ");
            push_decimal(&mut t, x as u64);
            push_str(&mut t, " ");
            push_decimal(&mut t, y as u64);
            push_str(&mut t, " ");
            push_signed(&mut t, spec);
            let an = anchors2("#neighbourspec", "#neighbour");
            self.upsert(&k, chars_of(t.as_str()), &an);
            proof {
                assert(t@ =~= spec_line(x, y, spec));
            }
        }
    }
}


/// How many pixels from column `x` on share `x`'s province.
pub open spec fn run_len(row: Seq<i16>, x: int) -> nat
    decreases row.len() - x,
{
    if 0 <= x && x + 1 < row.len() && row[x + 1] == row[x] {
        1 + run_len(row, x + 1)
    } else {
        1
    }
}

/// The line of a pixel run: `len` pixels of province `id` from column `x` of row `y`.
pub open spec fn pb_line(x: nat, y: nat, len: nat, id: nat) -> Seq<char> {
    "#pb "@ + decimal(x) + " "@ + decimal(y) + " "@ + decimal(len) + " "@ + decimal(id)
}

/// The run lines of row `y` from column `x` on: one for each run of pixels
/// of one province; pixels of no province make none.
pub open spec fn row_lines(row: Seq<i16>, y: nat, x: int) -> Seq<Seq<char>>
    decreases row.len() - x,
{
    if x < 0 || x >= row.len() {
        Seq::empty()
    } else if row[x] <= 0 {
        row_lines(row, y, x + 1)
    } else {
        proof {
            lemma_run_len_bound(row, x);
        }
        seq![pb_line(x as nat, y, run_len(row, x), row[x] as nat)] + row_lines(
            row,
            y,
            x + run_len(row, x),
        )
    }
}

/// The run lines of the first `h` rows of a `w` wide field of owners.
pub open spec fn pb_lines(owners: Seq<i16>, w: int, h: int) -> Seq<Seq<char>>
    decreases h,
{
    if w <= 0 || h <= 0 {
        Seq::empty()
    } else {
        pb_lines(owners, w, h - 1) + row_lines(
            owners.subrange((h - 1) * w, h * w),
            (h - 1) as nat,
            0,
        )
    }
}

/// How many lines, once their leading blanks are skipped, begin `#pb `.
pub open spec fn count_pb(lines: Seq<Seq<char>>) -> nat
    decreases lines.len(),
{
    if lines.len() == 0 {
        0
    } else {
        count_pb(lines.drop_last()) + if crate::text::starts_with(
            trim_start(lines.last()),
            "#pb "@,
        ) {
            1nat
        } else {
            0nat
        }
    }
}

/// The lines once the pixel runs are replaced: the old run lines go, and
/// the new ones stand where the first old one stood, or at the end after an
/// empty line where there was none.
pub open spec fn with_runs(lines: Seq<Seq<char>>, runs: Seq<Seq<char>>) -> Seq<Seq<char>> {
    let kept = keep_unpicked(lines, LinePick::Command("#pb"@));
    match first_pick(lines, LinePick::Command("#pb"@)) {
        Some(i) => {
            let at = if i <= kept.len() {
                i as int
            } else {
                kept.len() as int
            };
            kept.take(at) + runs + kept.skip(at)
        },
        None => kept.push(Seq::empty()) + runs,
    }
}

proof fn lemma_count_pb_bound(lines: Seq<Seq<char>>)
    ensures
        count_pb(lines) <= lines.len(),
    decreases lines.len(),
{
    if lines.len() > 0 {
        lemma_count_pb_bound(lines.drop_last());
    }
}

proof fn lemma_row_lines_skip(row: Seq<i16>, y: nat, x: int)
    requires
        0 <= x < row.len(),
        row[x] <= 0,
    ensures
        row_lines(row, y, x) == row_lines(row, y, x + 1),
{
}

/// A run is at least one pixel long and ends within its row.
pub proof fn lemma_run_len_bound(row: Seq<i16>, x: int)
    requires
        0 <= x < row.len(),
    ensures
        1 <= run_len(row, x),
        x + run_len(row, x) <= row.len(),
    decreases row.len() - x,
{
    if x + 1 < row.len() && row[x + 1] == row[x] {
        lemma_run_len_bound(row, x + 1);
    }
}

proof fn lemma_run_len_same(row: Seq<i16>, x: int)
    requires
        0 <= x < row.len(),
    ensures
        forall|c: int| x <= c < x + run_len(row, x) ==> #[trigger] row[c] == row[x],
        x + run_len(row, x) < row.len() ==> row[x + run_len(row, x)] != row[x],
    decreases row.len() - x,
{
    if x + 1 < row.len() && row[x + 1] == row[x] {
        lemma_run_len_same(row, x + 1);
    }
}

/// The runs of row `y` from column `x` on, as (column, row, length,
/// province): one for each run of pixels of one province; pixels of no
/// province make none.
pub open spec fn row_runs(row: Seq<i16>, y: nat, x: int) -> Seq<(nat, nat, nat, nat)>
    decreases row.len() - x,
{
    if x < 0 || x >= row.len() {
        Seq::empty()
    } else if row[x] <= 0 {
        row_runs(row, y, x + 1)
    } else {
        proof {
            lemma_run_len_bound(row, x);
        }
        seq![(x as nat, y, run_len(row, x), row[x] as nat)] + row_runs(row, y, x + run_len(row, x))
    }
}

/// The province that the first of some runs covering column `c` names; 0
/// where none covers it.
pub open spec fn owner_at(runs: Seq<(nat, nat, nat, nat)>, c: int) -> nat
    decreases runs.len(),
{
    if runs.len() == 0 {
        0
    } else if runs[0].0 <= c < runs[0].0 + runs[0].2 {
        runs[0].3
    } else {
        owner_at(runs.drop_first(), c)
    }
}

proof fn lemma_owner_at_none(runs: Seq<(nat, nat, nat, nat)>, c: int)
    requires
        forall|k: int| 0 <= k < runs.len() ==> c < (#[trigger] runs[k]).0,
    ensures
        owner_at(runs, c) == 0,
    decreases runs.len(),
{
    if runs.len() > 0 {
        assert forall|k: int| 0 <= k < runs.drop_first().len() implies c < (#[trigger] runs.drop_first()[k]).0 by {
            assert(runs.drop_first()[k] == runs[k + 1]);
        }
        lemma_owner_at_none(runs.drop_first(), c);
    }
}

/// A row's runs, in order, and their lines: each run lies within the row
/// from column `x` on, after the one before it, and names the province of
/// its pixels; the runs' lines are the row's run lines.
pub proof fn lemma_row_runs_shape(row: Seq<i16>, y: nat, x: int)
    requires
        0 <= x,
    ensures
        row_lines(row, y, x) == row_runs(row, y, x).map_values(
            |r: (nat, nat, nat, nat)| pb_line(r.0, r.1, r.2, r.3),
        ),
        forall|k: int|
            0 <= k < row_runs(row, y, x).len() ==> {
                let r = #[trigger] row_runs(row, y, x)[k];
                &&& x <= r.0 && r.0 + r.2 <= row.len() && r.2 >= 1 && r.1 == y
                &&& row[r.0 as int] > 0 && r.3 == row[r.0 as int] as nat
            },
        forall|k: int|
            0 <= k < row_runs(row, y, x).len() - 1 ==> (#[trigger] row_runs(row, y, x)[k]).0 + row_runs(
                row,
                y,
                x,
            )[k].2 <= row_runs(row, y, x)[k + 1].0,
    decreases row.len() - x,
{
    let runs = row_runs(row, y, x);
    if x >= row.len() {
    } else if row[x] <= 0 {
        lemma_row_runs_shape(row, y, x + 1);
    } else {
        lemma_run_len_bound(row, x);
        let l = run_len(row, x) as int;
        let rest = row_runs(row, y, x + l);
        lemma_row_runs_shape(row, y, x + l);
        assert(runs == seq![(x as nat, y, l as nat, row[x] as nat)] + rest);
        assert(row_lines(row, y, x) =~= runs.map_values(|r: (nat, nat, nat, nat)| pb_line(r.0, r.1, r.2, r.3)));
        assert forall|k: int| 0 <= k < runs.len() implies {
            let r = #[trigger] runs[k];
            &&& x <= r.0 && r.0 + r.2 <= row.len() && r.2 >= 1 && r.1 == y
            &&& row[r.0 as int] > 0 && r.3 == row[r.0 as int] as nat
        } by {
            if k > 0 {
                assert(runs[k] == rest[k - 1]);
            }
        }
        assert forall|k: int| 0 <= k < runs.len() - 1 implies (#[trigger] runs[k]).0 + runs[k].2 <= runs[k + 1].0 by {
            assert(runs[k + 1] == rest[k]);
            if k > 0 {
                assert(runs[k] == rest[k - 1]);
            }
        }
    }
}

/// A row's runs give back its pixels: the run covering a column names the
/// pixel's province, and a pixel of no province (0 or less) is covered by
/// none; two runs that meet name different provinces.
pub proof fn lemma_row_runs_read_back(row: Seq<i16>, y: nat, x: int)
    requires
        0 <= x,
    ensures
        forall|c: int|
            x <= c < row.len() ==> #[trigger] owner_at(row_runs(row, y, x), c) == if row[c] > 0 {
                row[c] as nat
            } else {
                0
            },
        forall|k: int|
            0 <= k < row_runs(row, y, x).len() - 1 && (#[trigger] row_runs(row, y, x)[k]).0 + row_runs(
                row,
                y,
                x,
            )[k].2 == row_runs(row, y, x)[k + 1].0 ==> row_runs(row, y, x)[k].3 != row_runs(row, y, x)[k
                + 1].3,
    decreases row.len() - x,
{
    let runs = row_runs(row, y, x);
    if x >= row.len() {
    } else if row[x] <= 0 {
        lemma_row_runs_read_back(row, y, x + 1);
        lemma_row_runs_shape(row, y, x + 1);
        assert forall|c: int| x <= c < row.len() implies #[trigger] owner_at(runs, c) == if row[c] > 0 {
            row[c] as nat
        } else {
            0
        } by {
            assert(runs == row_runs(row, y, x + 1));
            if c == x {
                lemma_owner_at_none(runs, c);
            }
        }
    } else {
        lemma_run_len_bound(row, x);
        lemma_run_len_same(row, x);
        let l = run_len(row, x) as int;
        let rest = row_runs(row, y, x + l);
        lemma_row_runs_read_back(row, y, x + l);
        lemma_row_runs_shape(row, y, x + l);
        assert(runs == seq![(x as nat, y, l as nat, row[x] as nat)] + rest);
        assert(runs.drop_first() =~= rest);
        assert forall|c: int| x <= c < row.len() implies #[trigger] owner_at(runs, c) == if row[c] > 0 {
            row[c] as nat
        } else {
            0
        } by {
            assert(runs[0] == (x as nat, y, l as nat, row[x] as nat));
            if c < x + l {
                assert(row[c] == row[x]);
                assert(owner_at(runs, c) == row[x] as nat);
            } else {
                assert(owner_at(runs, c) == owner_at(runs.drop_first(), c));
                assert(owner_at(rest, c) == if row[c] > 0 {
                    row[c] as nat
                } else {
                    0
                });
            }
        }
        assert forall|k: int|
            0 <= k < runs.len() - 1 && (#[trigger] runs[k]).0 + runs[k].2 == runs[k + 1].0 implies runs[k].3
                != runs[k + 1].3 by {
            assert(runs[k + 1] == rest[k]);
            if k > 0 {
                assert(runs[k] == rest[k - 1]);
            } else {
                assert(rest[0].0 == x + l);
                assert(row[x + l] != row[x]);
            }
        }
    }
}

fn pb_text(x: usize, y: usize, len: usize, id: i16) -> (v: Vec<char>)
    requires
        id > 0,
    ensures
        v@ == pb_line(x as nat, y as nat, len as nat, id as nat),
{
    let mut t = string_of("#pb ");
    push_decimal(&mut t, x as u64);
    push_str(&mut t, " ");
    push_decimal(&mut t, y as u64);
    push_str(&mut t, " ");
    push_decimal(&mut t, len as u64);
    push_str(&mut t, " ");
    push_decimal(&mut t, id as u64);
    chars_of(t.as_str())
}

fn row_runs_into(runs: &mut Vec<Vec<char>>, owners: &[i16], start: usize, w: usize, y: usize)
    requires
        start + w <= owners@.len(),
    ensures
        seqs_of(final(runs)@) == seqs_of(old(runs)@) + row_lines(
            owners@.subrange(start as int, start + w),
            y as nat,
            0,
        ),
{
    let ghost row = owners@.subrange(start as int, start + w);
    let _n = owners.len();
    let mut x: usize = 0;
    while x < w
        invariant
            x <= w,
            start + w <= owners@.len(),
            owners@.len() <= usize::MAX,
            row == owners@.subrange(start as int, start + w),
            seqs_of(runs@) + row_lines(row, y as nat, x as int) == seqs_of(old(runs)@) + row_lines(
                row,
                y as nat,
                0,
            ),
        decreases w - x,
    {
        let id = owners[start + x];
        assert(row[x as int] == id);
        if id <= 0 {
            proof {
                lemma_row_lines_skip(row, y as nat, x as int);
            }
            x += 1;
        } else {
            let mut len: usize = 1;
            while x + len < w && owners[start + x + len] == id
                invariant
                    1 <= len,
                    x + len <= w,
                    start + w <= owners@.len(),
                    owners@.len() <= usize::MAX,
                    row == owners@.subrange(start as int, start + w),
                    row[x as int] == id,
                    row[x + len - 1] == id,
                    run_len(row, x as int) == (len - 1) + run_len(row, x + len - 1),
                decreases w - x - len,
            {
                assert(row[x + len] == owners@[start + x + len]);
                len += 1;
            }
            proof {
                if x + len < w {
                    assert(row[x + len] == owners@[start + x + len]);
                }
                assert(run_len(row, x + len - 1) == 1);
                lemma_run_len_bound(row, x as int);
            }
            let line = pb_text(x, y, len, id);
            let ghost before = runs@;
            runs.push(line);
            proof {
                assert(seqs_of(runs@) =~= seqs_of(before).push(line@));
                assert(row_lines(row, y as nat, x as int) =~= seq![line@] + row_lines(
                    row,
                    y as nat,
                    x + len,
                ));
                assert(seqs_of(runs@) + row_lines(row, y as nat, x + len) =~= seqs_of(before)
                    + row_lines(row, y as nat, x as int));
            }
            x += len;
        }
    }
}

fn count_pb_lines(lines: &Vec<Vec<char>>) -> (n: usize)
    ensures
        n == count_pb(seqs_of(lines@)),
{
    let ghost ls = seqs_of(lines@);
    let mut n: usize = 0;
    let mut i: usize = 0;
    let pat = chars_of("#pb ");
    assert(ls.take(0) =~= Seq::<Seq<char>>::empty());
    while i < lines.len()
        invariant
            i <= lines@.len(),
            ls == seqs_of(lines@),
            pat@ == "#pb "@,
            n == count_pb(ls.take(i as int)),
            n <= i,
        decreases lines@.len() - i,
    {
        let l = &lines[i];
        let a = trim_start_at(l.as_slice());
        let t = sub_chars(l.as_slice(), a, l.len());
        proof {
            assert(ls.take(i + 1).drop_last() =~= ls.take(i as int));
            assert(ls[i as int] == l@);
            assert(t@ =~= trim_start(l@));
        }
        if crate::text::has_prefix(t.as_slice(), pat.as_slice()) {
            n += 1;
        }
        i += 1;
    }
    assert(ls.take(lines@.len() as int) =~= ls);
    n
}

impl MapFile {
    /// Writes a field of owners as pixel runs: one `#pb x y len id` line for
    /// each run of pixels of one province along a row, in place of the runs
    /// the file had; the count of run lines is taken anew.
    pub fn replace_pb(&mut self, w: i32, h: i32, owners: &[i16])
        requires
            w <= 0 || h <= 0 || w * h <= owners@.len(),
        ensures
            final(self).lines() == with_runs(old(self).lines(), pb_lines(owners@, w as int, h as int)),
            final(self).fields() == (Fields {
                pb_count: count_pb(final(self).lines()),
                ..old(self).fields()
            }),
            final(self).modified,
            final(self).path == old(self).path,
            final(self).newline == old(self).newline,
    {
        let pick = Pick::Command(chars_of("#pb"));
        let first = self.find_line(&pick);
        let mut runs: Vec<Vec<char>> = Vec::new();
        if w > 0 && h > 0 {
            let wu = w as usize;
            let hu = h as usize;
            let _n = owners.len();
            let mut y: usize = 0;
            while y < hu
                invariant
                    y <= hu,
                    owners@.len() <= usize::MAX,
                    wu == w,
                    hu == h,
                    w > 0,
                    h > 0,
                    w * h <= owners@.len(),
                    seqs_of(runs@) == pb_lines(owners@, w as int, y as int),
                decreases hu - y,
            {
                assert((y + 1) * wu <= hu * wu) by (nonlinear_arith)
                    requires
                        y + 1 <= hu,
                ;
                assert((y + 1) * wu == y * wu + wu) by (nonlinear_arith);
                let start = y * wu;
                row_runs_into(&mut runs, owners, start, wu, y);
                y += 1;
            }
        }
        proof {
            assert(w <= 0 || h <= 0 ==> pb_lines(owners@, w as int, h as int) =~= Seq::<
                Seq<char>,
            >::empty());
        }
        let ghost kept_lines = keep_unpicked(self.lines(), pick.view());
        self.remove_where(&pick);
        let at = match first {
            Some(i) => if i <= self.lines.len() {
                i
            } else {
                self.lines.len()
            },
            None => {
                self.lines.push(Vec::new());
                self.lines.len()
            },
        };
        let ghost base = self.lines();
        let n = self.lines.len();
        let mut out: Vec<Vec<char>> = Vec::new();
        let mut j: usize = 0;
        while j < at
            invariant
                j <= at <= n,
                n == self.lines@.len(),
                base == self.lines(),
                seqs_of(out@) == base.take(j as int),
            decreases at - j,
        {
            let ghost before = out@;
            out.push(copy_line(&self.lines[j]));
            proof {
                assert(base[j as int] == self.lines@[j as int]@);
                assert(seqs_of(out@) =~= seqs_of(before).push(base[j as int]));
                assert(seqs_of(out@) =~= base.take(j + 1));
            }
            j += 1;
        }
        let mut r: usize = 0;
        while r < runs.len()
            invariant
                r <= runs@.len(),
                seqs_of(out@) == base.take(at as int) + seqs_of(runs@).take(r as int),
            decreases runs@.len() - r,
        {
            let ghost before = out@;
            out.push(copy_line(&runs[r]));
            proof {
                assert(seqs_of(out@) =~= seqs_of(before).push(seqs_of(runs@)[r as int]));
                assert(seqs_of(runs@).take(r + 1) =~= seqs_of(runs@).take(r as int).push(
                    seqs_of(runs@)[r as int],
                ));
            }
            r += 1;
        }
        let ghost mid = seqs_of(out@);
        while j < n
            invariant
                at <= j <= n,
                n == self.lines@.len(),
                base == self.lines(),
                seqs_of(out@) == mid + base.subrange(at as int, j as int),
            decreases n - j,
        {
            let ghost before = out@;
            out.push(copy_line(&self.lines[j]));
            proof {
                assert(base[j as int] == self.lines@[j as int]@);
                assert(seqs_of(out@) =~= seqs_of(before).push(base[j as int]));
                assert(base.subrange(at as int, j + 1) =~= base.subrange(at as int, j as int).push(
                    base[j as int],
                ));
            }
            j += 1;
        }
        proof {
            assert(seqs_of(runs@).take(runs@.len() as int) =~= seqs_of(runs@));
            assert(base.subrange(at as int, n as int) =~= base.skip(at as int));
            match first {
                Some(i) => {
                    assert(seqs_of(out@) =~= with_runs(old(self).lines(), seqs_of(runs@)));
                },
                None => {
                    assert(base =~= kept_lines.push(Seq::<char>::empty()));
                    assert(base.take(at as int) =~= base);
                    assert(base.skip(at as int) =~= Seq::<Seq<char>>::empty());
                    assert(seqs_of(out@) =~= with_runs(old(self).lines(), seqs_of(runs@)));
                },
            }
        }
        self.lines = out;
        self.pb_count = count_pb_lines(&self.lines);
        self.modified = true;
    }
}


/// Being neighbours goes both ways: where the borders make `x` a neighbour of
/// `p`, they make `p` a neighbour of `x`.
pub proof fn lemma_neighbours_are_mutual(nb: Seq<(u32, u32)>, p: u32, x: u32)
    requires
        exists|i: int| 0 <= i < nb.len() && #[trigger] partner(nb[i], p) == Some(x),
    ensures
        exists|i: int| 0 <= i < nb.len() && #[trigger] partner(nb[i], x) == Some(p),
{
    let i = choose|i: int| 0 <= i < nb.len() && #[trigger] partner(nb[i], p) == Some(x);
    assert(partner(nb[i], x) == Some(p));
}

} // verus!
