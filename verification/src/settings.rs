//! The editor's settings file: one line that names the data folder, and how
//! paths are shown without the user's home folder.
use vstd::prelude::*;
use crate::text::{
    chars_of, lines_of, push_decimal, push_str, seqs_of, split_lines, string_from, string_of,
    sub_chars, trim, trimmed, next_char, char_pos, lemma_char_pos, decimal, is_ws, trim_start,
    trim_end, split_on, lines_of_pieces, line_piece, drop_cr,
};

verus! {

pub const FOLDER_NAME: &'static str = "dom6-simple-map-editor";
pub const CONFIG_NAME: &'static str = "settings.txt";
pub const MAPS: &'static str = "maps";
pub const BLUEPRINTS: &'static str = "blueprints";

/// The key of the settings line that names the data folder.
pub open spec fn data_folder_key() -> Seq<char> {
    seq!['d', 'a', 't', 'a', '_', 'f', 'o', 'l', 'd', 'e', 'r']
}

/// A path as shown: a placeholder for the folder it lies under, and the rest.
pub struct ShownPath {
    pub placeholder: Option<&'static str>,
    pub rest: String,
}

impl ShownPath {
    /// The path as shown: the placeholder, if any, then the rest.
    pub fn text(&self) -> (s: String)
        ensures
            s@ == match self.placeholder {
                Some(p) => p@ + self.rest@,
                None => self.rest@,
            },
    {
        match self.placeholder {
            Some(p) => {
                let mut s = string_of(p);
                push_str(&mut s, self.rest.as_str());
                s
            },
            None => string_of(self.rest.as_str()),
        }
    }
}

/// The data folder a settings line names: `data_folder = value`, the key and
/// the value trimmed, the value not empty.
pub open spec fn folder_of_line(line: Seq<char>) -> Option<Seq<char>> {
    let l = trim(line);
    let k = char_pos(l, '=');
    if l.len() == 0 || k >= l.len() {
        None
    } else if trim(l.take(k as int)) != data_folder_key() {
        None
    } else {
        let v = trim(l.skip(k as int + 1));
        if v.len() > 0 {
            Some(v)
        } else {
            None
        }
    }
}

/// The first data folder that a line of the settings names.
pub open spec fn first_folder(lines: Seq<Seq<char>>) -> Option<Seq<char>>
    decreases lines.len(),
{
    if lines.len() == 0 {
        None
    } else {
        match folder_of_line(lines[0]) {
            Some(v) => Some(v),
            None => first_folder(lines.drop_first()),
        }
    }
}

/// The settings name a folder exactly when one of their lines does, and
/// then it is the folder of the first line that names one.
pub proof fn lemma_first_folder(lines: Seq<Seq<char>>)
    ensures
        first_folder(lines) is None <==> forall|i: int| 0 <= i < lines.len() ==> #[trigger] folder_of_line(lines[i]) is None,
        first_folder(lines) matches Some(v) ==> exists|i: int|
            0 <= i < lines.len() && #[trigger] folder_of_line(lines[i]) == Some(v) && forall|j: int|
                0 <= j < i ==> #[trigger] folder_of_line(lines[j]) is None,
    decreases lines.len(),
{
    if lines.len() > 0 {
        let rest = lines.drop_first();
        lemma_first_folder(rest);
        match folder_of_line(lines[0]) {
            Some(v) => {
                assert(folder_of_line(lines[0]) == Some(v));
            },
            None => {
                assert forall|i: int| 0 <= i < rest.len() implies #[trigger] rest[i] == lines[i + 1] by {}
                if first_folder(rest) is None {
                    assert forall|i: int| 0 <= i < lines.len() implies #[trigger] folder_of_line(lines[i]) is None by {
                        if i > 0 {
                            assert(folder_of_line(rest[i - 1]) is None);
                        }
                    }
                } else {
                    let v = first_folder(rest)->0;
                    let i = choose|i: int|
                        0 <= i < rest.len() && #[trigger] folder_of_line(rest[i]) == Some(v) && forall|j: int|
                            0 <= j < i ==> #[trigger] folder_of_line(rest[j]) is None;
                    assert(folder_of_line(lines[i + 1]) == Some(v));
                    assert forall|j: int| 0 <= j < i + 1 implies #[trigger] folder_of_line(lines[j]) is None by {
                        if j > 0 {
                            assert(lines[j] == rest[j - 1]);
                        }
                    }
                    assert(folder_of_line(lines[i + 1]) is Some);
                }
            },
        }
    }
}

fn folder_in_line(line: &[char]) -> (r: Option<Vec<char>>)
    ensures
        match folder_of_line(line@) {
            Some(v) => r is Some && r->0@ == v,
            None => r is None,
        },
{
    let l = trimmed(line);
    let k = next_char(l.as_slice(), 0, '=');
    proof {
        assert(l@.skip(0) =~= l@);
        lemma_char_pos(l@, '=');
    }
    if l.len() == 0 || k >= l.len() {
        return None;
    }
    let key_part = sub_chars(l.as_slice(), 0, k);
    let key = trimmed(key_part.as_slice());
    let want = chars_of("data_folder");
    proof {
        reveal_strlit("data_folder");
        assert(want@ =~= data_folder_key());
        assert(key_part@ =~= l@.take(k as int));
    }
    if !eq_chars(key.as_slice(), want.as_slice()) {
        return None;
    }
    let value_part = sub_chars(l.as_slice(), k + 1, l.len());
    let v = trimmed(value_part.as_slice());
    proof {
        assert(value_part@ =~= l@.skip(k + 1));
    }
    if v.len() > 0 {
        Some(v)
    } else {
        None
    }
}

fn eq_chars(a: &[char], b: &[char]) -> (r: bool)
    ensures
        r == (a@ == b@),
{
    if a.len() != b.len() {
        return false;
    }
    let mut i: usize = 0;
    while i < a.len()
        invariant
            i <= a@.len(),
            a@.len() == b@.len(),
            forall|j: int| 0 <= j < i ==> a@[j] == b@[j],
        decreases a@.len() - i,
    {
        if a[i] != b[i] {
            return false;
        }
        i += 1;
    }
    assert(a@ =~= b@);
    true
}

/// The data folder the settings text names, if a line names one.
pub fn parse_config(text: &str) -> (r: Option<String>)
    ensures
        match first_folder(lines_of(text@)) {
            Some(v) => r is Some && r->0@ == v,
            None => r is None,
        },
{
    let t = chars_of(text);
    let ls = split_lines(t.as_slice());
    let mut i: usize = 0;
    assert(seqs_of(ls@).skip(0) =~= seqs_of(ls@));
    while i < ls.len()
        invariant
            i <= ls@.len(),
            seqs_of(ls@) == lines_of(text@),
            first_folder(lines_of(text@)) == first_folder(seqs_of(ls@).skip(i as int)),
        decreases ls@.len() - i,
    {
        proof {
            let rest = seqs_of(ls@).skip(i as int);
            assert(rest[0] == ls@[i as int]@);
            assert(rest.drop_first() =~= seqs_of(ls@).skip(i + 1));
        }
        match folder_in_line(ls[i].as_slice()) {
            Some(v) => {
                return Some(string_from(v.as_slice()));
            },
            None => {},
        }
        i += 1;
    }
    proof {
        assert(seqs_of(ls@).skip(i as int).len() == 0);
    }
    None
}

/// The settings text that names a data folder.
pub fn format_config(folder: &str) -> (s: String)
    ensures
        s@ == "data_folder = "@ + folder@ + "\n"@,
{
    let mut s = string_of("data_folder = ");
    push_str(&mut s, folder);
    push_str(&mut s, "\n");
    s
}

/// The name of the `n`-th file tried when saving under a stem: the stem
/// alone first, then the stem with `-2`, `-3` and so on.
pub open spec fn spec_candidate_name(stem: Seq<char>, ext: Seq<char>, n: u32) -> Seq<char> {
    if n <= 1 {
        stem + "."@ + ext
    } else {
        stem + "-"@ + decimal(n as nat) + "."@ + ext
    }
}

/// The name of the `n`-th file tried when saving under a stem.
pub fn candidate_name(stem: &str, ext: &str, n: u32) -> (s: String)
    ensures
        s@ == spec_candidate_name(stem@, ext@, n),
{
    let mut s = string_of(stem);
    if n > 1 {
        push_str(&mut s, "-");
        push_decimal(&mut s, n as u64);
    }
    push_str(&mut s, ".");
    push_str(&mut s, ext);
    s
}


proof fn lemma_char_pos_is(s: Seq<char>, c: char, k: int)
    requires
        0 <= k < s.len(),
        s[k] == c,
        forall|j: int| 0 <= j < k ==> s[j] != c,
    ensures
        char_pos(s, c) == k,
{
    lemma_char_pos(s, c);
    let p = char_pos(s, c) as int;
    if p < k {
        assert(s[p] == c);
    } else if p > k {
        assert(s[k] != c);
    }
}

proof fn lemma_trim_lead_blank(f: Seq<char>)
    requires
        f.len() > 0,
        !is_ws(f[0]),
        !is_ws(f.last()),
    ensures
        trim(seq![' '] + f) == f,
        trim(f) == f,
{
    assert((seq![' '] + f).drop_first() =~= f);
    assert(trim_start(seq![' '] + f) == trim_start(f));
}

/// A settings text written for a folder names that folder again when read,
/// for a folder that is not empty, does not begin or end with white space and
/// holds no line break.
pub proof fn lemma_config_round_trip(f: Seq<char>)
    requires
        f.len() > 0,
        !is_ws(f[0]),
        !is_ws(f.last()),
        forall|i: int| 0 <= i < f.len() ==> f[i] != '\n',
    ensures
        first_folder(lines_of("data_folder = "@ + f + "\n"@)) == Some(f),
{
    reveal_strlit("data_folder = ");
    reveal_strlit("\n");
    let head: Seq<char> = "data_folder = "@;
    let l = head + f;
    let s = l + "\n"@;
    assert(head.len() == 14);
    assert forall|j: int| 0 <= j < l.len() implies l[j] != '\n' by {
        if j >= 14 {
            assert(l[j] == f[j - 14]);
        }
    }
    assert(s[l.len() as int] == '\n');
    assert forall|j: int| 0 <= j < l.len() implies s[j] != '\n' by {
        assert(s[j] == l[j]);
    }
    lemma_char_pos_is(s, '\n', l.len() as int);
    assert(s.take(l.len() as int) =~= l);
    assert(s.skip(l.len() as int + 1) =~= Seq::<char>::empty());
    assert(split_on(Seq::<char>::empty(), '\n') == seq![Seq::<char>::empty()]);
    let pieces = split_on(s, '\n');
    assert(pieces =~= seq![l, Seq::<char>::empty()]);
    assert(l.last() == f.last());
    assert(drop_cr(l) == l);
    assert(line_piece(pieces, 0) == l);
    assert(lines_of(s) =~= seq![l]);
    assert(trim_start(l) == l);
    assert(trim_end(l) == l);
    assert(trim(l) == l);
    assert(l[12] == '=');
    assert forall|j: int| 0 <= j < 12 implies l[j] != '=' by {}
    lemma_char_pos_is(l, '=', 12);
    let key_part = l.take(12);
    assert(key_part.last() == ' ');
    assert(trim_start(key_part) == key_part);
    assert(key_part.drop_last() =~= data_folder_key());
    assert(trim_end(data_folder_key()) == data_folder_key());
    assert(trim_end(key_part) == data_folder_key());
    assert(l.skip(13) =~= seq![' '] + f);
    lemma_trim_lead_blank(f);
    assert(folder_of_line(l) == Some(f));
    assert(seq![l].drop_first() =~= Seq::<Seq<char>>::empty());
}

} // verus!
