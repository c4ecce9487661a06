//! The names in a path, as the standard library reads a path on a system
//! whose separator is `/`: the file name is the last part that is neither
//! empty nor `.`, unless that part is `..`; the stem and the extension are
//! the file name split at its last dot, a leading dot belonging to the stem.
use vstd::prelude::*;
use crate::text::{chars_of, split_on, split_chars, seqs_of, string_from, sub_chars};
use crate::mapfile::{rfind, rfind_chars, spec_plane_file_name, spec_strip_plane_suffix};
use crate::text::{occurs_at, decimal, char_pos, lemma_char_pos};
use crate::reading::{lemma_plane_suffix_round_trip, lemma_decimal};

verus! {

/// A part of a path that names something: not empty and not `.`.
pub open spec fn keep_part(p: Seq<char>) -> bool {
    p.len() > 0 && p != seq!['.']
}

/// The last part of a path that names something.
pub open spec fn last_part(pieces: Seq<Seq<char>>) -> Option<Seq<char>>
    decreases pieces.len(),
{
    if pieces.len() == 0 {
        None
    } else if keep_part(pieces.last()) {
        Some(pieces.last())
    } else {
        last_part(pieces.drop_last())
    }
}

/// A path's file name, where it has one.
pub open spec fn file_name(path: Seq<char>) -> Option<Seq<char>> {
    match last_part(split_on(path, '/')) {
        Some(n) => if n == seq!['.', '.'] {
            None
        } else {
            Some(n)
        },
        None => None,
    }
}

/// A file name split at its last dot into stem and extension; a name
/// without a dot, or whose only dot leads it, is all stem.
pub open spec fn stem_and_ext(name: Seq<char>) -> (Seq<char>, Option<Seq<char>>) {
    match rfind(name, seq!['.']) {
        None => (name, None),
        Some(i) => if i == 0 {
            (name, None)
        } else {
            (name.take(i as int), Some(name.skip(i as int + 1)))
        },
    }
}

/// A path's file stem, where it has a file name.
pub open spec fn file_stem(path: Seq<char>) -> Option<Seq<char>> {
    match file_name(path) {
        Some(n) => Some(stem_and_ext(n).0),
        None => None,
    }
}

/// A path's extension, where its file name has one.
pub open spec fn extension(path: Seq<char>) -> Option<Seq<char>> {
    match file_name(path) {
        Some(n) => stem_and_ext(n).1,
        None => None,
    }
}

fn is_dot(p: &Vec<char>) -> (b: bool)
    ensures
        b == (p@ == seq!['.']),
{
    if p.len() == 1 && p[0] == '.' {
        assert(p@ =~= seq!['.']);
        true
    } else {
        false
    }
}

fn is_dot_dot(p: &Vec<char>) -> (b: bool)
    ensures
        b == (p@ == seq!['.', '.']),
{
    if p.len() == 2 && p[0] == '.' && p[1] == '.' {
        assert(p@ =~= seq!['.', '.']);
        true
    } else {
        false
    }
}

/// A path's file name, where it has one.
pub fn file_name_of(path: &str) -> (r: Option<Vec<char>>)
    ensures
        match r {
            Some(n) => file_name(path@) == Some(n@),
            None => file_name(path@) is None,
        },
{
    let cs = chars_of(path);
    let pieces = split_chars(cs.as_slice(), '/');
    let ghost ps = seqs_of(pieces@);
    let mut i: usize = pieces.len();
    assert(ps.take(ps.len() as int) =~= ps);
    while i > 0
        invariant
            i <= pieces@.len(),
            ps == seqs_of(pieces@),
            ps == split_on(path@, '/'),
            last_part(ps) == last_part(ps.take(i as int)),
        decreases i,
    {
        let p = &pieces[i - 1];
        proof {
            assert(ps.take(i as int).last() == p@);
            assert(ps.take(i as int).drop_last() =~= ps.take(i - 1));
        }
        if p.len() > 0 && !is_dot(p) {
            if is_dot_dot(p) {
                return None;
            }
            let n = sub_chars(p.as_slice(), 0, p.len());
            assert(n@ =~= p@);
            return Some(n);
        }
        i -= 1;
    }
    None
}

/// A file name's stem and extension.
#[verifier::spinoff_prover]
pub fn stem_and_ext_of(name: &Vec<char>) -> (r: (Vec<char>, Option<Vec<char>>))
    ensures
        r.0@ == stem_and_ext(name@).0,
        match r.1 {
            Some(e) => stem_and_ext(name@).1 == Some(e@),
            None => stem_and_ext(name@).1 is None,
        },
{
    let dot = vec!['.'];
    assert(dot@ =~= seq!['.']);
    let found = rfind_chars(name.as_slice(), dot.as_slice());
    let ghost want = rfind(name@, seq!['.']);
    assert(want == rfind(name@, dot@));
    let whole = sub_chars(name.as_slice(), 0, name.len());
    assert(whole@ =~= name@);
    match found {
        None => (whole, None),
        Some(i) => {
            if i == 0 {
                (whole, None)
            } else {
                let stem = sub_chars(name.as_slice(), 0, i);
                let ext = sub_chars(name.as_slice(), i + 1, name.len());
                assert(stem@ =~= name@.take(i as int));
                assert(ext@ =~= name@.skip(i + 1));
                (stem, Some(ext))
            }
        },
    }
}


/// The text holds neither `/` nor `.`.
pub open spec fn plain_name(s: Seq<char>) -> bool {
    forall|i: int| 0 <= i < s.len() ==> #[trigger] s[i] != '/' && s[i] != '.'
}

proof fn lemma_one_dot_name(stem: Seq<char>, ext: Seq<char>)
    requires
        stem.len() > 0,
        ext.len() > 0,
        plain_name(stem),
        plain_name(ext),
    ensures
        file_stem(stem + seq!['.'] + ext) == Some(stem),
{
    let name = stem + seq!['.'] + ext;
    let k = stem.len() as int;
    assert(name[k] == '.');
    assert forall|i: int| 0 <= i < name.len() implies #[trigger] name[i] != '/' by {
        if i < k {
            assert(name[i] == stem[i]);
        } else if i > k {
            assert(name[i] == ext[i - k - 1]);
        }
    }
    lemma_char_pos(name, '/');
    if char_pos(name, '/') < name.len() {
        assert(name[char_pos(name, '/') as int] == '/');
    }
    assert(split_on(name, '/') == seq![name]);
    assert(name != seq!['.']) by {
        assert(name.len() >= 3);
    }
    assert(name != seq!['.', '.']) by {
        assert(name.len() >= 3);
    }
    assert(seq![name].drop_last() =~= Seq::<Seq<char>>::empty());
    assert(last_part(seq![name]) == Some(name));
    assert(file_name(name) == Some(name));
    assert(occurs_at(name, seq!['.'], k)) by {
        assert(name.subrange(k, k + 1) =~= seq!['.']);
    }
    assert forall|j: int| k < j implies !occurs_at(name, seq!['.'], j) by {
        if occurs_at(name, seq!['.'], j) {
            assert(name.subrange(j, j + 1)[0] == '.');
            assert(name[j] == ext[j - k - 1]);
        }
    }
    assert forall|j: int| 0 <= j < k implies !occurs_at(name, seq!['.'], j) by {
        if occurs_at(name, seq!['.'], j) {
            assert(name.subrange(j, j + 1)[0] == '.');
            assert(name[j] == stem[j]);
        }
    }
    reveal(rfind);
    let c = choose|i: int| occurs_at(name, seq!['.'], i) && forall|j: int| i < j ==> !occurs_at(name, seq!['.'], j);
    assert(c == k);
    assert(rfind(name, seq!['.']) == Some(k as nat));
    assert(name.take(k) =~= stem);
}

/// The file name of a plane of a map reads back as the map's base and the
/// plane: where the base and the extension are not empty and hold neither
/// `/` nor `.`, and the base itself carries no plane number, the stem of the
/// plane's file name, stripped of its plane suffix, is the base and the
/// plane (the first plane for plane numbers up to 1).
pub proof fn lemma_plane_file_reads_back(base: Seq<char>, n: u32, ext: Seq<char>)
    requires
        base.len() > 0,
        ext.len() > 0,
        plain_name(base),
        plain_name(ext),
        spec_strip_plane_suffix(base) == (base, 1u32),
    ensures
        file_stem(spec_plane_file_name(base, n, ext)) is Some,
        spec_strip_plane_suffix(file_stem(spec_plane_file_name(base, n, ext))->0) == (base, if n <= 1 {
            1u32
        } else {
            n
        }),
{
    reveal_strlit(".");
    reveal_strlit("_plane");
    assert("."@ =~= seq!['.']);
    if n <= 1 {
        lemma_one_dot_name(base, ext);
    } else {
        let stem = base + "_plane"@ + decimal(n as nat);
        lemma_decimal(n as nat);
        assert forall|i: int| 0 <= i < stem.len() implies #[trigger] stem[i] != '/' && stem[i] != '.' by {
            if i < base.len() {
                assert(stem[i] == base[i]);
            } else if i < base.len() + 6 {
                assert(stem[i] == "_plane"@[i - base.len()]);
            } else {
                let d = decimal(n as nat);
                assert(stem[i] == d[i - base.len() - 6]);
                assert('0' <= d[i - base.len() - 6] <= '9');
            }
        }
        lemma_one_dot_name(stem, ext);
        assert(spec_plane_file_name(base, n, ext) == stem + seq!['.'] + ext);
        lemma_plane_suffix_round_trip(base, n);
    }
}

} // verus!
