//! Building and reading text: characters of a string, decimal numbers,
//! white space.
use vstd::prelude::*;
use vstd::string::StringExecFns;

verus! {

/// Appends one character to a string.
#[verifier::external_body]
pub fn push_char(s: &mut String, c: char)
    ensures
        final(s)@ == old(s)@.push(c),
{
    s.push(c);
}

/// The characters of a string, in order.
pub fn chars_of(s: &str) -> (v: Vec<char>)
    ensures
        v@ == s@,
{
    let mut v: Vec<char> = Vec::new();
    for c in it: s.chars()
        invariant
            v@ == it.seq().take(it.index() as int),
    {
        v.push(c);
    }
    v
}


/// Appends text to a string.
pub fn push_str(s: &mut String, t: &str)
    ensures
        final(s)@ == old(s)@ + t@,
{
    s.append(t);
}

/// A string holding the text.
pub fn string_of(t: &str) -> (s: String)
    ensures
        s@ == t@,
{
    String::from_str(t)
}

/// The character of a decimal digit.
pub open spec fn digit_char(d: int) -> char {
    if d == 0 {
        '0'
    } else if d == 1 {
        '1'
    } else if d == 2 {
        '2'
    } else if d == 3 {
        '3'
    } else if d == 4 {
        '4'
    } else if d == 5 {
        '5'
    } else if d == 6 {
        '6'
    } else if d == 7 {
        '7'
    } else if d == 8 {
        '8'
    } else {
        '9'
    }
}

/// A number written in decimal, without leading zeros.
pub open spec fn decimal(n: nat) -> Seq<char>
    decreases n,
{
    if n < 10 {
        seq![digit_char(n as int)]
    } else {
        decimal(n / 10).push(digit_char((n % 10) as int))
    }
}

/// An integer written in decimal, with a minus sign when it is negative.
pub open spec fn signed_decimal(n: int) -> Seq<char> {
    if n < 0 {
        seq!['-'] + decimal((-n) as nat)
    } else {
        decimal(n as nat)
    }
}

fn digit(d: u64) -> (c: char)
    requires
        d < 10,
    ensures
        c == digit_char(d as int),
{
    if d == 0 {
        '0'
    } else if d == 1 {
        '1'
    } else if d == 2 {
        '2'
    } else if d == 3 {
        '3'
    } else if d == 4 {
        '4'
    } else if d == 5 {
        '5'
    } else if d == 6 {
        '6'
    } else if d == 7 {
        '7'
    } else if d == 8 {
        '8'
    } else {
        '9'
    }
}

/// Appends a number in decimal.
pub fn push_decimal(s: &mut String, n: u64)
    ensures
        final(s)@ == old(s)@ + decimal(n as nat),
    decreases n,
{
    if n >= 10 {
        push_decimal(s, n / 10);
    }
    push_char(s, digit(n % 10));
    proof {
        if n >= 10 {
            assert(old(s)@ + decimal(n as nat) =~= old(s)@ + decimal((n / 10) as nat) + seq![digit_char((n % 10) as int)]);
        } else {
            assert(old(s)@ + decimal(n as nat) =~= old(s)@ + seq![digit_char((n % 10) as int)]);
        }
    }
}

/// Appends an integer in decimal, with a minus sign when it is negative.
pub fn push_signed(s: &mut String, n: i64)
    ensures
        final(s)@ == old(s)@ + signed_decimal(n as int),
{
    if n < 0 {
        push_char(s, '-');
        let m: u64 = if n == i64::MIN { 9223372036854775808u64 } else { (-n) as u64 };
        push_decimal(s, m);
        assert(final(s)@ =~= old(s)@ + signed_decimal(n as int));
    } else {
        push_decimal(s, n as u64);
    }
}

/// A number in decimal, as a string.
pub fn decimal_string(n: u64) -> (s: String)
    ensures
        s@ == decimal(n as nat),
{
    let mut s = String::new();
    push_decimal(&mut s, n);
    assert(s@ =~= decimal(n as nat));
    s
}

/// A string holding the characters.
pub fn string_from(cs: &[char]) -> (s: String)
    ensures
        s@ == cs@,
{
    let mut s = String::new();
    let mut i: usize = 0;
    while i < cs.len()
        invariant
            i <= cs@.len(),
            s@ == cs@.take(i as int),
        decreases cs@.len() - i,
    {
        push_char(&mut s, cs[i]);
        assert(cs@.take(i as int).push(cs@[i as int]) =~= cs@.take(i + 1));
        i += 1;
    }
    assert(cs@.take(cs@.len() as int) =~= cs@);
    s
}

/// Appends characters to a vector of characters.
pub fn extend_chars(v: &mut Vec<char>, cs: &[char])
    ensures
        final(v)@ == old(v)@ + cs@,
{
    let mut i: usize = 0;
    while i < cs.len()
        invariant
            i <= cs@.len(),
            v@ == old(v)@ + cs@.take(i as int),
        decreases cs@.len() - i,
    {
        v.push(cs[i]);
        assert(old(v)@ + cs@.take(i + 1) =~= (old(v)@ + cs@.take(i as int)).push(cs@[i as int]));
        i += 1;
    }
    assert(cs@.take(cs@.len() as int) =~= cs@);
}

/// A white-space character in Unicode's sense, as `char::is_whitespace` has it.
pub open spec fn is_ws(c: char) -> bool {
    ('\u{9}' <= c <= '\u{d}') || c == ' ' || c == '\u{85}' || c == '\u{a0}' || c == '\u{1680}'
        || ('\u{2000}' <= c <= '\u{200a}') || c == '\u{2028}' || c == '\u{2029}' || c == '\u{202f}'
        || c == '\u{205f}' || c == '\u{3000}'
}

/// Whether a character is white space.
pub fn is_whitespace(c: char) -> (b: bool)
    ensures
        b == is_ws(c),
{
    ('\u{9}' <= c && c <= '\u{d}') || c == ' ' || c == '\u{85}' || c == '\u{a0}' || c == '\u{1680}'
        || ('\u{2000}' <= c && c <= '\u{200a}') || c == '\u{2028}' || c == '\u{2029}' || c
        == '\u{202f}' || c == '\u{205f}' || c == '\u{3000}'
}

/// The text without its leading white space.
pub open spec fn trim_start(s: Seq<char>) -> Seq<char>
    decreases s.len(),
{
    if s.len() > 0 && is_ws(s[0]) {
        trim_start(s.drop_first())
    } else {
        s
    }
}

/// The text without its trailing white space.
pub open spec fn trim_end(s: Seq<char>) -> Seq<char>
    decreases s.len(),
{
    if s.len() > 0 && is_ws(s.last()) {
        trim_end(s.drop_last())
    } else {
        s
    }
}

/// The text without white space at either end.
pub open spec fn trim(s: Seq<char>) -> Seq<char> {
    trim_end(trim_start(s))
}

/// Where the text starts once its leading white space is skipped.
pub fn trim_start_at(s: &[char]) -> (i: usize)
    ensures
        i <= s@.len(),
        s@.skip(i as int) == trim_start(s@),
{
    let mut i: usize = 0;
    assert(s@.skip(0) =~= s@);
    while i < s.len() && is_whitespace(s[i])
        invariant
            i <= s@.len(),
            trim_start(s@.skip(i as int)) == trim_start(s@),
        decreases s@.len() - i,
    {
        assert(s@.skip(i as int).drop_first() =~= s@.skip(i + 1));
        i += 1;
    }
    i
}

/// Where the text ends once its trailing white space is dropped.
pub fn trim_end_at(s: &[char]) -> (i: usize)
    ensures
        i <= s@.len(),
        s@.take(i as int) == trim_end(s@),
{
    let mut i: usize = s.len();
    assert(s@.take(s@.len() as int) =~= s@);
    while i > 0 && is_whitespace(s[i - 1])
        invariant
            i <= s@.len(),
            trim_end(s@.take(i as int)) == trim_end(s@),
        decreases i,
    {
        assert(s@.take(i as int).drop_last() =~= s@.take(i - 1));
        i -= 1;
    }
    assert(s@.take(s@.len() as int) =~= s@);
    i
}

/// The characters from `a` up to, not including, `b`.
pub fn sub_chars(s: &[char], a: usize, b: usize) -> (v: Vec<char>)
    requires
        a <= b <= s@.len(),
    ensures
        v@ == s@.subrange(a as int, b as int),
{
    vstd::slice::slice_to_vec(vstd::slice::slice_subrange(s, a, b))
}

/// The text without white space at either end.
pub fn trimmed(s: &[char]) -> (v: Vec<char>)
    ensures
        v@ == trim(s@),
{
    let a = trim_start_at(s);
    let t = sub_chars(s, a, s.len());
    let b = trim_end_at(t.as_slice());
    sub_chars(t.as_slice(), 0, b)
}

/// Whether `s` begins with `p`.
pub open spec fn starts_with(s: Seq<char>, p: Seq<char>) -> bool {
    p.len() <= s.len() && s.take(p.len() as int) == p
}

/// Whether `s` ends with `p`.
pub open spec fn ends_with(s: Seq<char>, p: Seq<char>) -> bool {
    p.len() <= s.len() && s.skip(s.len() - p.len()) == p
}

/// Whether `p` stands in `s` from position `i` on.
pub open spec fn occurs_at(s: Seq<char>, p: Seq<char>, i: int) -> bool {
    0 <= i && i + p.len() <= s.len() && s.subrange(i, i + p.len()) == p
}

/// The first place from `from` on where `p` stands in `s`.
pub open spec fn first_from(s: Seq<char>, p: Seq<char>, from: int) -> Option<nat>
    decreases s.len() + 1 - from,
{
    if from < 0 || from > s.len() {
        None
    } else if occurs_at(s, p, from) {
        Some(from as nat)
    } else {
        first_from(s, p, from + 1)
    }
}

/// The first place where `p` stands in `s`.
pub open spec fn find(s: Seq<char>, p: Seq<char>) -> Option<nat> {
    first_from(s, p, 0)
}

/// Whether `p` stands somewhere in `s`.
pub open spec fn contains(s: Seq<char>, p: Seq<char>) -> bool {
    exists|i: int| occurs_at(s, p, i)
}

/// Whether `p` stands in `s` at position `i`.
pub fn matches_at(s: &[char], p: &[char], i: usize) -> (b: bool)
    requires
        i <= s@.len(),
    ensures
        b == occurs_at(s@, p@, i as int),
{
    if p.len() > s.len() - i {
        return false;
    }
    let mut k: usize = 0;
    while k < p.len()
        invariant
            k <= p@.len(),
            i + p@.len() <= s@.len(),
            s@.len() <= usize::MAX,
            forall|j: int| 0 <= j < k ==> s@[i + j] == p@[j],
        decreases p@.len() - k,
    {
        if s[i + k] != p[k] {
            assert(s@.subrange(i as int, i + p@.len())[k as int] != p@[k as int]);
            return false;
        }
        k += 1;
    }
    assert(s@.subrange(i as int, i + p@.len()) =~= p@);
    true
}

/// Whether `s` begins with `p`.
pub fn has_prefix(s: &[char], p: &[char]) -> (b: bool)
    ensures
        b == starts_with(s@, p@),
{
    let b = matches_at(s, p, 0);
    proof {
        if p@.len() <= s@.len() {
            assert(s@.subrange(0, p@.len() as int) =~= s@.take(p@.len() as int));
        }
    }
    b
}

/// Whether `s` ends with `p`.
pub fn has_suffix(s: &[char], p: &[char]) -> (b: bool)
    ensures
        b == ends_with(s@, p@),
{
    if p.len() > s.len() {
        return false;
    }
    let b = matches_at(s, p, s.len() - p.len());
    proof {
        assert(s@.subrange(s@.len() - p@.len(), s@.len() as int) =~= s@.skip(s@.len() - p@.len()));
    }
    b
}

/// The first place where `p` stands in `s`, if anywhere.
pub fn find_chars(s: &[char], p: &[char]) -> (r: Option<usize>)
    ensures
        match r {
            Some(i) => occurs_at(s@, p@, i as int) && forall|j: int| 0 <= j < i ==> !occurs_at(s@, p@, j),
            None => !contains(s@, p@),
        },
        r matches Some(i) ==> find(s@, p@) == Some(i as nat),
        r is None ==> find(s@, p@) is None,
{
    let n = s.len();
    let mut i: usize = 0;
    loop
        invariant
            i <= n,
            n == s@.len(),
            forall|j: int| 0 <= j < i ==> !occurs_at(s@, p@, j),
            find(s@, p@) == first_from(s@, p@, i as int),
        ensures
            forall|j: int| 0 <= j <= n ==> !occurs_at(s@, p@, j),
            find(s@, p@) is None,
        decreases n - i,
    {
        if matches_at(s, p, i) {
            return Some(i);
        }
        if i == n {
            assert(first_from(s@, p@, i + 1) is None);
            break;
        }
        i += 1;
    }
    proof {
        assert forall|j: int| !occurs_at(s@, p@, j) by {
            if 0 <= j <= n {
            }
        }
    }
    None
}

/// Whether `p` stands somewhere in `s`.
pub fn contains_chars(s: &[char], p: &[char]) -> (b: bool)
    ensures
        b == contains(s@, p@),
{
    match find_chars(s, p) {
        Some(i) => true,
        None => false,
    }
}

/// Characters as plain values, one sequence for each vector.
pub open spec fn seqs_of(v: Seq<Vec<char>>) -> Seq<Seq<char>> {
    v.map_values(|x: Vec<char>| x@)
}

/// How many characters stand before the first white space.
pub open spec fn ws_pos(s: Seq<char>) -> nat
    decreases s.len(),
{
    if s.len() == 0 {
        0
    } else if is_ws(s[0]) {
        0
    } else {
        1 + ws_pos(s.drop_first())
    }
}

pub proof fn lemma_ws_pos(s: Seq<char>)
    ensures
        ws_pos(s) <= s.len(),
        ws_pos(s) < s.len() ==> is_ws(s[ws_pos(s) as int]),
        forall|j: int| 0 <= j < ws_pos(s) ==> !is_ws(#[trigger] s[j]),
        s.len() > 0 && !is_ws(s[0]) ==> ws_pos(s) >= 1,
    decreases s.len(),
{
    if s.len() > 0 && !is_ws(s[0]) {
        let t = s.drop_first();
        lemma_ws_pos(t);
        assert forall|j: int| 0 <= j < ws_pos(s) implies !is_ws(#[trigger] s[j]) by {
            if j > 0 {
                assert(s[j] == t[j - 1]);
            }
        }
    }
}

pub proof fn lemma_trim_start(s: Seq<char>)
    ensures
        trim_start(s).len() <= s.len(),
        trim_start(s).len() > 0 ==> !is_ws(trim_start(s)[0]),
        s.skip(s.len() - trim_start(s).len()) == trim_start(s),
        forall|j: int| 0 <= j < s.len() - trim_start(s).len() ==> is_ws(#[trigger] s[j]),
    decreases s.len(),
{
    if s.len() > 0 && is_ws(s[0]) {
        let t = s.drop_first();
        lemma_trim_start(t);
        assert(t.skip(t.len() - trim_start(t).len()) =~= s.skip(s.len() - trim_start(s).len()));
        assert forall|j: int| 0 <= j < s.len() - trim_start(s).len() implies is_ws(#[trigger] s[j]) by {
            if j > 0 {
                assert(s[j] == t[j - 1]);
            }
        }
    } else {
        assert(s.skip(0) =~= s);
    }
}

/// The words of a text: its runs of characters between white space, as
/// `str::split_whitespace` gives them.
pub open spec fn words(s: Seq<char>) -> Seq<Seq<char>>
    decreases s.len(),
{
    let t = trim_start(s);
    if t.len() == 0 {
        Seq::empty()
    } else {
        proof {
            lemma_trim_start(s);
            lemma_ws_pos(t);
        }
        let k = ws_pos(t);
        seq![t.take(k as int)] + words(t.skip(k as int))
    }
}

/// Where the first white space at or after `from` stands, or the end.
pub fn next_ws(s: &[char], from: usize) -> (i: usize)
    requires
        from <= s@.len(),
    ensures
        i == from + ws_pos(s@.skip(from as int)),
{
    let mut i = from;
    proof {
        assert(s@.skip(from as int) =~= s@.skip(i as int));
    }
    while i < s.len() && !is_whitespace(s[i])
        invariant
            from <= i <= s@.len(),
            ws_pos(s@.skip(from as int)) == (i - from) + ws_pos(s@.skip(i as int)),
        decreases s@.len() - i,
    {
        assert(s@.skip(i as int).drop_first() =~= s@.skip(i + 1));
        i += 1;
    }
    i
}

/// The words of a text.
pub fn split_words(s: &[char]) -> (r: Vec<Vec<char>>)
    ensures
        seqs_of(r@) == words(s@),
{
    let mut r: Vec<Vec<char>> = Vec::new();
    let mut pos: usize = 0;
    let n = s.len();
    assert(s@.skip(0) =~= s@);
    while pos < n
        invariant
            pos <= n,
            n == s@.len(),
            seqs_of(r@) + words(s@.skip(pos as int)) == words(s@),
        decreases n - pos,
    {
        let rest = sub_chars(s, pos, n);
        let a = trim_start_at(rest.as_slice());
        proof {
            lemma_trim_start(s@.skip(pos as int));
            assert(rest@ == s@.skip(pos as int));
        }
        if a == rest.len() {
            proof {
                assert(trim_start(rest@).len() == 0);
                assert(words(s@.skip(pos as int)) =~= Seq::<Seq<char>>::empty());
                assert(s@.skip(n as int).len() == 0);
                assert(words(s@.skip(n as int)) =~= Seq::<Seq<char>>::empty());
            }
            pos = n;
        } else {
            let start = pos + a;
            let end = next_ws(s, start);
            proof {
                lemma_ws_pos(s@.skip(start as int));
            }
            let word = sub_chars(s, start, end);
            proof {
                let t = trim_start(rest@);
                assert(t == s@.skip(start as int)) by {
                    assert(rest@.skip(a as int) =~= s@.skip(start as int));
                }
                lemma_ws_pos(t);
                assert(word@ =~= t.take(ws_pos(t) as int));
                assert(t.skip(ws_pos(t) as int) =~= s@.skip(end as int));
                let before = r@;
                assert(seqs_of(before.push(word)) =~= seqs_of(before).push(word@));
                assert(seqs_of(before.push(word)) + words(s@.skip(end as int)) =~= seqs_of(before) + words(s@.skip(pos as int)));
            }
            r.push(word);
            pos = end;
        }
    }
    proof {
        assert(s@.skip(n as int).len() == 0);
        assert(words(s@.skip(n as int)) =~= Seq::<Seq<char>>::empty());
        assert(seqs_of(r@) + Seq::<Seq<char>>::empty() =~= seqs_of(r@));
    }
    r
}

/// The value of a run of decimal digits.
pub open spec fn digits_value(s: Seq<char>) -> nat
    decreases s.len(),
{
    if s.len() == 0 {
        0
    } else {
        digits_value(s.drop_last()) * 10 + (s.last() as nat - '0' as nat) as nat
    }
}

/// Every character is a decimal digit.
pub open spec fn all_digits(s: Seq<char>) -> bool {
    forall|i: int| 0 <= i < s.len() ==> '0' <= #[trigger] s[i] <= '9'
}

/// The number a non-empty run of digits stands for.
pub open spec fn parse_nat(s: Seq<char>) -> Option<nat> {
    if s.len() > 0 && all_digits(s) {
        Some(digits_value(s))
    } else {
        None
    }
}

/// The text of a number without a leading plus sign.
pub open spec fn unsigned_body(s: Seq<char>) -> Seq<char> {
    if s.len() > 0 && s[0] == '+' {
        s.drop_first()
    } else {
        s
    }
}

/// A number read as `u32` is: digits after an optional `+`, at most `u32::MAX`.
pub open spec fn parse_u32(s: Seq<char>) -> Option<u32> {
    match parse_nat(unsigned_body(s)) {
        Some(v) => if v <= u32::MAX {
            Some(v as u32)
        } else {
            None
        },
        None => None,
    }
}

/// A number read as a signed integer of the range `lo..=hi`: digits after an
/// optional sign.
pub open spec fn parse_signed(s: Seq<char>, lo: int, hi: int) -> Option<int> {
    if s.len() > 0 && s[0] == '-' {
        match parse_nat(s.drop_first()) {
            Some(v) => if -v >= lo {
                Some(-v)
            } else {
                None
            },
            None => None,
        }
    } else {
        match parse_nat(unsigned_body(s)) {
            Some(v) => if v <= hi {
                Some(v as int)
            } else {
                None
            },
            None => None,
        }
    }
}

/// A number read as `i64`.
pub open spec fn parse_i64(s: Seq<char>) -> Option<i64> {
    match parse_signed(s, i64::MIN as int, i64::MAX as int) {
        Some(v) => Some(v as i64),
        None => None,
    }
}

/// A number read as `i32`.
pub open spec fn parse_i32(s: Seq<char>) -> Option<i32> {
    match parse_signed(s, i32::MIN as int, i32::MAX as int) {
        Some(v) => Some(v as i32),
        None => None,
    }
}

proof fn lemma_digits_grow(s: Seq<char>, i: int)
    requires
        0 <= i <= s.len(),
        all_digits(s),
    ensures
        digits_value(s.take(i)) <= digits_value(s),
    decreases s.len() - i,
{
    if i < s.len() {
        lemma_digits_grow(s, i + 1);
        assert(s.take(i + 1).drop_last() =~= s.take(i));
    } else {
        assert(s.take(i) =~= s);
    }
}

/// The value of a run of digits, when it is not empty, holds only digits and fits 64 bits.
fn digits_u64(s: &[char]) -> (r: Option<u64>)
    ensures
        match r {
            Some(v) => parse_nat(s@) == Some(v as nat),
            None => parse_nat(s@) matches Some(n) ==> n > u64::MAX,
        },
{
    let n = s.len();
    if n == 0 {
        return None;
    }
    let mut v: u64 = 0;
    let mut i: usize = 0;
    assert(s@.take(0) =~= Seq::<char>::empty());
    while i < n
        invariant
            n == s@.len(),
            i <= n,
            v == digits_value(s@.take(i as int)),
            forall|j: int| 0 <= j < i ==> '0' <= #[trigger] s@[j] <= '9',
        decreases n - i,
    {
        let c = s[i];
        if !('0' <= c && c <= '9') {
            return None;
        }
        let d = (c as u32 - '0' as u32) as u64;
        proof {
            assert(s@.take(i + 1).drop_last() =~= s@.take(i as int));
        }
        let m = v.checked_mul(10);
        match m {
            None => {
                proof {
                    if all_digits(s@) {
                        lemma_digits_grow(s@, i + 1);
                    }
                }
                return None;
            },
            Some(m) => {
                let a = m.checked_add(d);
                match a {
                    None => {
                        proof {
                            if all_digits(s@) {
                                lemma_digits_grow(s@, i + 1);
                            }
                        }
                        return None;
                    },
                    Some(a) => {
                        v = a;
                    },
                }
            },
        }
        i += 1;
    }
    assert(s@.take(n as int) =~= s@);
    Some(v)
}

/// Reads a number as `u32`, as `str::parse::<u32>` does.
pub fn to_u32(s: &[char]) -> (r: Option<u32>)
    ensures
        r == parse_u32(s@),
{
    let body = if s.len() > 0 && s[0] == '+' { sub_chars(s, 1, s.len()) } else { sub_chars(s, 0, s.len()) };
    proof {
        assert(body@ == unsigned_body(s@));
    }
    match digits_u64(body.as_slice()) {
        Some(v) => if v <= 0xffff_ffffu64 {
            Some(v as u32)
        } else {
            None
        },
        None => None,
    }
}

/// Reads a number as a signed integer of `lo..=hi`.
fn to_signed(s: &[char], lo: i64, hi: i64) -> (r: Option<i64>)
    requires
        lo < 0 <= hi,
    ensures
        match r {
            Some(v) => parse_signed(s@, lo as int, hi as int) == Some(v as int),
            None => parse_signed(s@, lo as int, hi as int) is None,
        },
{
    if s.len() > 0 && s[0] == '-' {
        let body = sub_chars(s, 1, s.len());
        assert(body@ == s@.drop_first());
        match digits_u64(body.as_slice()) {
            Some(v) => {
                let mag: u64 = if lo == i64::MIN { 9223372036854775808u64 } else { (-lo) as u64 };
                if v <= mag {
                    if v == 9223372036854775808u64 {
                        Some(i64::MIN)
                    } else {
                        Some(-(v as i64))
                    }
                } else {
                    None
                }
            },
            None => None,
        }
    } else {
        let body = if s.len() > 0 && s[0] == '+' { sub_chars(s, 1, s.len()) } else { sub_chars(s, 0, s.len()) };
        proof {
            assert(body@ == unsigned_body(s@));
        }
        match digits_u64(body.as_slice()) {
            Some(v) => if v <= hi as u64 {
                Some(v as i64)
            } else {
                None
            },
            None => None,
        }
    }
}

/// Reads a number as `i64`, as `str::parse::<i64>` does.
pub fn to_i64(s: &[char]) -> (r: Option<i64>)
    ensures
        r == parse_i64(s@),
{
    match to_signed(s, i64::MIN, i64::MAX) {
        Some(v) => Some(v),
        None => None,
    }
}

/// Reads a number as `i32`, as `str::parse::<i32>` does.
pub fn to_i32(s: &[char]) -> (r: Option<i32>)
    ensures
        r == parse_i32(s@),
{
    match to_signed(s, i32::MIN as i64, i32::MAX as i64) {
        Some(v) => Some(v as i32),
        None => None,
    }
}

/// Where `c` first stands in `s`, or the end.
pub open spec fn char_pos(s: Seq<char>, c: char) -> nat
    decreases s.len(),
{
    if s.len() == 0 {
        0
    } else if s[0] == c {
        0
    } else {
        1 + char_pos(s.drop_first(), c)
    }
}

pub proof fn lemma_char_pos(s: Seq<char>, c: char)
    ensures
        char_pos(s, c) <= s.len(),
        char_pos(s, c) < s.len() ==> s[char_pos(s, c) as int] == c,
        forall|j: int| 0 <= j < char_pos(s, c) ==> #[trigger] s[j] != c,
    decreases s.len(),
{
    if s.len() > 0 && s[0] != c {
        let t = s.drop_first();
        lemma_char_pos(t, c);
        assert forall|j: int| 0 <= j < char_pos(s, c) implies #[trigger] s[j] != c by {
            if j > 0 {
                assert(s[j] == t[j - 1]);
            }
        }
    }
}

/// The pieces of a text between the separator `c`, as `str::split` gives them:
/// one more piece than there are separators.
pub open spec fn split_on(s: Seq<char>, c: char) -> Seq<Seq<char>>
    decreases s.len(),
{
    let k = char_pos(s, c);
    if k >= s.len() {
        seq![s]
    } else {
        proof {
            lemma_char_pos(s, c);
        }
        seq![s.take(k as int)] + split_on(s.skip(k as int + 1), c)
    }
}

/// Where `c` first stands at or after `from`, or the end.
pub fn next_char(s: &[char], from: usize, c: char) -> (i: usize)
    requires
        from <= s@.len(),
    ensures
        i == from + char_pos(s@.skip(from as int), c),
{
    let mut i = from;
    while i < s.len() && s[i] != c
        invariant
            from <= i <= s@.len(),
            char_pos(s@.skip(from as int), c) == (i - from) + char_pos(s@.skip(i as int), c),
        decreases s@.len() - i,
    {
        assert(s@.skip(i as int).drop_first() =~= s@.skip(i + 1));
        i += 1;
    }
    i
}

/// The pieces of a text between the separator `c`.
pub fn split_chars(s: &[char], c: char) -> (r: Vec<Vec<char>>)
    ensures
        seqs_of(r@) == split_on(s@, c),
{
    let n = s.len();
    let mut r: Vec<Vec<char>> = Vec::new();
    let mut pos: usize = 0;
    assert(s@.skip(0) =~= s@);
    loop
        invariant
            pos <= n,
            n == s@.len(),
            seqs_of(r@) + split_on(s@.skip(pos as int), c) == split_on(s@, c),
        decreases n - pos,
    {
        let end = next_char(s, pos, c);
        proof {
            lemma_char_pos(s@.skip(pos as int), c);
        }
        let piece = sub_chars(s, pos, end);
        let ghost before = r@;
        let ghost rest = s@.skip(pos as int);
        proof {
            assert(piece@ =~= rest.take(char_pos(rest, c) as int));
        }
        r.push(piece);
        proof {
            assert(seqs_of(r@) =~= seqs_of(before).push(piece@));
        }
        if end == n {
            proof {
                assert(piece@ =~= rest);
                assert(split_on(rest, c) == seq![rest]);
                assert(seqs_of(r@) =~= seqs_of(before) + seq![rest]);
            }
            return r;
        }
        proof {
            assert(rest.skip(char_pos(rest, c) as int + 1) =~= s@.skip(end + 1));
            assert(seqs_of(r@) + split_on(s@.skip(end + 1), c) =~= seqs_of(before) + split_on(rest, c));
        }
        pos = end + 1;
    }
}

/// The pieces joined with `sep` between them.
pub open spec fn join(parts: Seq<Seq<char>>, sep: Seq<char>) -> Seq<char>
    decreases parts.len(),
{
    if parts.len() == 0 {
        Seq::empty()
    } else if parts.len() == 1 {
        parts[0]
    } else {
        join(parts.drop_last(), sep) + sep + parts.last()
    }
}

/// The pieces joined with `sep` between them.
pub fn join_chars(parts: &Vec<Vec<char>>, sep: &[char]) -> (r: Vec<char>)
    ensures
        r@ == join(seqs_of(parts@), sep@),
{
    let mut r: Vec<char> = Vec::new();
    let mut i: usize = 0;
    while i < parts.len()
        invariant
            i <= parts@.len(),
            r@ == join(seqs_of(parts@.take(i as int)), sep@),
        decreases parts@.len() - i,
    {
        let ghost before = parts@.take(i as int);
        if i > 0 {
            extend_chars(&mut r, sep);
        }
        extend_chars(&mut r, parts[i].as_slice());
        proof {
            let now = parts@.take(i + 1);
            assert(seqs_of(now).drop_last() =~= seqs_of(before));
            assert(seqs_of(now).last() == parts@[i as int]@);
            if i == 0 {
                assert(seqs_of(now).len() == 1);
                assert(r@ =~= parts@[0]@);
            }
        }
        i += 1;
    }
    assert(parts@.take(parts@.len() as int) =~= parts@);
    r
}

/// Every occurrence of `p` in `s`, from the left and not overlapping, replaced
/// by `r`, as `str::replace` does; an empty `p` puts `r` around every character.
pub open spec fn replace_all(s: Seq<char>, p: Seq<char>, r: Seq<char>) -> Seq<char>
    decreases s.len(),
{
    if p.len() == 0 {
        if s.len() == 0 {
            r
        } else {
            r + seq![s[0]] + replace_all(s.drop_first(), p, r)
        }
    } else if s.len() < p.len() {
        s
    } else if s.take(p.len() as int) == p {
        r + replace_all(s.skip(p.len() as int), p, r)
    } else {
        seq![s[0]] + replace_all(s.drop_first(), p, r)
    }
}

/// Every occurrence of `p` in `s` replaced by `r`.
pub fn replace_chars(s: &[char], p: &[char], r: &[char]) -> (out: Vec<char>)
    ensures
        out@ == replace_all(s@, p@, r@),
{
    let n = s.len();
    let mut out: Vec<char> = Vec::new();
    let mut i: usize = 0;
    assert(s@.skip(0) =~= s@);
    while i < n
        invariant
            i <= n,
            n == s@.len(),
            out@ + replace_all(s@.skip(i as int), p@, r@) == replace_all(s@, p@, r@),
        decreases n - i,
    {
        let ghost rest = s@.skip(i as int);
        let ghost before = out@;
        if p.len() == 0 {
            extend_chars(&mut out, r);
            out.push(s[i]);
            proof {
                assert(rest.drop_first() =~= s@.skip(i + 1));
                assert(out@ + replace_all(s@.skip(i + 1), p@, r@) =~= before + replace_all(rest, p@, r@));
            }
            i += 1;
        } else if matches_at(s, p, i) {
            extend_chars(&mut out, r);
            proof {
                assert(rest.take(p@.len() as int) =~= s@.subrange(i as int, i + p@.len()));
                assert(rest.skip(p@.len() as int) =~= s@.skip(i + p@.len()));
                assert(out@ + replace_all(s@.skip(i + p@.len()), p@, r@) =~= before + replace_all(rest, p@, r@));
            }
            i += p.len();
        } else {
            out.push(s[i]);
            proof {
                if rest.len() >= p@.len() {
                    assert(rest.take(p@.len() as int) =~= s@.subrange(i as int, i + p@.len()));
                }
                if rest.len() < p@.len() {
                    assert(replace_all(rest, p@, r@) == rest);
                    assert(rest.drop_first().len() < p@.len());
                    assert(replace_all(rest.drop_first(), p@, r@) == rest.drop_first());
                    assert(rest =~= seq![rest[0]] + rest.drop_first());
                }
                assert(rest.drop_first() =~= s@.skip(i + 1));
                assert(out@ + replace_all(s@.skip(i + 1), p@, r@) =~= before + replace_all(rest, p@, r@));
            }
            i += 1;
        }
    }
    if p.len() == 0 {
        extend_chars(&mut out, r);
    }
    proof {
        assert(s@.skip(n as int).len() == 0);
        if p@.len() > 0 {
            assert(out@ + replace_all(s@.skip(n as int), p@, r@) =~= out@);
        }
    }
    out
}

/// The first occurrence of `p` in `s` replaced by `r`, as `str::replacen` with a count of one does.
pub open spec fn replace_first(s: Seq<char>, p: Seq<char>, r: Seq<char>) -> Seq<char> {
    match find(s, p) {
        Some(i) => s.take(i as int) + r + s.skip(i as int + p.len()),
        None => s,
    }
}

/// The first occurrence of `p` in `s` replaced by `r`.
pub fn replace_first_chars(s: &[char], p: &[char], r: &[char]) -> (out: Vec<char>)
    ensures
        out@ == replace_first(s@, p@, r@),
{
    let _n = s.len();
    match find_chars(s, p) {
        Some(i) => {
            proof {
                assert(i + p@.len() <= s@.len());
            }
            let mut out = sub_chars(s, 0, i);
            extend_chars(&mut out, r);
            let tail = sub_chars(s, i + p.len(), s.len());
            extend_chars(&mut out, tail.as_slice());
            out
        },
        None => sub_chars(s, 0, s.len()),
    }
}

proof fn lemma_first_from(s: Seq<char>, p: Seq<char>, from: int, k: int)
    requires
        0 <= from <= k,
        occurs_at(s, p, k),
    ensures
        first_from(s, p, from) matches Some(i) && occurs_at(s, p, i as int) && i <= k,
    decreases k - from,
{
    if !occurs_at(s, p, from) {
        lemma_first_from(s, p, from + 1, k);
    }
}

/// Where a pattern that stands in a text first stands.
pub proof fn lemma_find_some(s: Seq<char>, p: Seq<char>)
    requires
        contains(s, p),
    ensures
        find(s, p) matches Some(i) && occurs_at(s, p, i as int),
{
    let k = choose|i: int| occurs_at(s, p, i);
    lemma_first_from(s, p, 0, k);
}

/// Replacing an occurrence of `p` by `r` changes the length by their difference.
#[verifier::spinoff_prover]
pub proof fn lemma_replace_first_len(s: Seq<char>, p: Seq<char>, r: Seq<char>)
    requires
        contains(s, p),
    ensures
        replace_first(s, p, r).len() == s.len() - p.len() + r.len(),
{
    lemma_find_some(s, p);
    let i = find(s, p)->0;
    assert(occurs_at(s, p, i as int));
    assert(replace_first(s, p, r) == s.take(i as int) + r + s.skip(i as int + p.len()));
}

/// The text without the carriage returns at its end.
pub open spec fn strip_cr(s: Seq<char>) -> Seq<char>
    decreases s.len(),
{
    if s.len() > 0 && s.last() == '\r' {
        strip_cr(s.drop_last())
    } else {
        s
    }
}

/// Where the text ends once its trailing carriage returns are dropped.
pub fn strip_cr_at(s: &[char]) -> (i: usize)
    ensures
        i <= s@.len(),
        s@.take(i as int) == strip_cr(s@),
{
    let mut i: usize = s.len();
    assert(s@.take(s@.len() as int) =~= s@);
    while i > 0 && s[i - 1] == '\r'
        invariant
            i <= s@.len(),
            strip_cr(s@.take(i as int)) == strip_cr(s@),
        decreases i,
    {
        assert(s@.take(i as int).drop_last() =~= s@.take(i - 1));
        i -= 1;
    }
    i
}

/// The text without one carriage return at its end.
pub open spec fn drop_cr(s: Seq<char>) -> Seq<char> {
    if s.len() > 0 && s.last() == '\r' {
        s.drop_last()
    } else {
        s
    }
}

/// Line `k` of pieces split at `\n`: every piece but the last loses a `\r` at its end.
pub open spec fn line_piece(pieces: Seq<Seq<char>>, k: int) -> Seq<char> {
    if k < pieces.len() - 1 {
        drop_cr(pieces[k])
    } else {
        pieces[k]
    }
}

/// The lines of pieces split at `\n`; an empty last piece is no line.
pub open spec fn lines_of_pieces(pieces: Seq<Seq<char>>) -> Seq<Seq<char>> {
    let ls = Seq::new(pieces.len(), |k: int| line_piece(pieces, k));
    if pieces.len() > 0 && pieces.last().len() == 0 {
        ls.drop_last()
    } else {
        ls
    }
}

/// The lines of a text, as `str::lines` gives them: split at `\n`, a line
/// ended by `\r\n` loses the `\r`, and an empty last piece is no line.
pub open spec fn lines_of(s: Seq<char>) -> Seq<Seq<char>> {
    lines_of_pieces(split_on(s, '\n'))
}

fn lines_from_pieces(pieces: &Vec<Vec<char>>) -> (r: Vec<Vec<char>>)
    ensures
        seqs_of(r@) == lines_of_pieces(seqs_of(pieces@)),
{
    let ghost ps = seqs_of(pieces@);
    let n = pieces.len();
    let mut r: Vec<Vec<char>> = Vec::new();
    let mut k: usize = 0;
    while k < n
        invariant
            k <= n,
            n == pieces@.len(),
            ps == seqs_of(pieces@),
            seqs_of(r@) == Seq::new(k as nat, |j: int| line_piece(ps, j)),
        decreases n - k,
    {
        let p = &pieces[k];
        let line = if k + 1 < n && p.len() > 0 && p[p.len() - 1] == '\r' {
            sub_chars(p.as_slice(), 0, p.len() - 1)
        } else {
            sub_chars(p.as_slice(), 0, p.len())
        };
        let ghost before = r@;
        proof {
            assert(p@ == ps[k as int]);
            if p@.len() > 0 {
                assert(p@.drop_last() =~= p@.subrange(0, p@.len() - 1));
            }
            assert(p@.subrange(0, p@.len() as int) =~= p@);
            assert(line@ == line_piece(ps, k as int));
        }
        r.push(line);
        proof {
            assert(seqs_of(r@) =~= seqs_of(before).push(line@));
            assert(seqs_of(r@) =~= Seq::new((k + 1) as nat, |j: int| line_piece(ps, j)));
        }
        k += 1;
    }
    if n > 0 && pieces[n - 1].len() == 0 {
        let ghost full = r@;
        r.pop();
        proof {
            assert(seqs_of(r@) =~= seqs_of(full).drop_last());
        }
    }
    r
}

/// The lines of a text.
pub fn split_lines(s: &[char]) -> (r: Vec<Vec<char>>)
    ensures
        seqs_of(r@) == lines_of(s@),
{
    let pieces = split_chars(s, '\n');
    lines_from_pieces(&pieces)
}


/// A text splits into at most one piece more than it has characters.
pub proof fn lemma_split_len(s: Seq<char>, c: char)
    ensures
        split_on(s, c).len() <= s.len() + 1,
    decreases s.len(),
{
    let k = char_pos(s, c);
    if k < s.len() {
        lemma_char_pos(s, c);
        lemma_split_len(s.skip(k as int + 1), c);
    }
}

/// A text has at most one line more than it has characters.
pub proof fn lemma_lines_len(s: Seq<char>)
    ensures
        lines_of(s).len() <= s.len() + 1,
{
    lemma_split_len(s, '\n');
}

} // verus!
