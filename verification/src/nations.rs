//! Nations and where they like to start: the labels shown for them, the
//! nations that a mod's `.dm` file adds or changes, and merging those into a
//! list of known nations.
use vstd::prelude::*;
use crate::terrain::{CAVE, DEEP_SEA, FARM, FOREST, HIGHLAND, MOUNTAIN, SWAMP, WASTE};
use crate::text::{
    chars_of, decimal, push_decimal, push_str, string_from, string_of, join, join_chars, seqs_of,
    trim, trimmed, ws_pos, words, split_words, next_ws, sub_chars, to_i64, parse_i64, lemma_ws_pos,
    starts_with, has_prefix, lines_of, split_lines,
};
use crate::mapfile::{unquote, unquoted};
use crate::text::{split_on, split_chars, to_u32, parse_u32};
use crate::gen_settings::parse_u8;

verus! {

/// The first number a mod's new nation can get.
pub const FIRST_MOD_ID: u32 = 120;

/// A nation: its number, names, era, and what it wants of its start.
#[derive(Debug)]
pub struct Nation {
    pub id: u32,
    pub name: String,
    pub epithet: String,
    pub era: u8,
    pub likesterr: u64,
    pub uw: bool,
    pub coast: bool,
    pub cave: u8,
    pub river: bool,
    pub from_mod: bool,
}

/// A nation as plain values.
pub struct NationView {
    pub id: u32,
    pub name: Seq<char>,
    pub epithet: Seq<char>,
    pub era: u8,
    pub likesterr: u64,
    pub uw: bool,
    pub coast: bool,
    pub cave: u8,
    pub river: bool,
    pub from_mod: bool,
}

impl View for Nation {
    type V = NationView;

    open spec fn view(&self) -> NationView {
        NationView {
            id: self.id,
            name: self.name@,
            epithet: self.epithet@,
            era: self.era,
            likesterr: self.likesterr,
            uw: self.uw,
            coast: self.coast,
            cave: self.cave,
            river: self.river,
            from_mod: self.from_mod,
        }
    }
}

/// The nations as plain values.
pub open spec fn nations_view(v: Seq<Nation>) -> Seq<NationView> {
    v.map_values(|n: Nation| n@)
}

/// A nation known only by its number: named after it, wanting nothing, from a mod.
pub open spec fn spec_blank(id: u32) -> NationView {
    NationView {
        id,
        name: "Nation "@ + decimal(id as nat),
        epithet: Seq::empty(),
        era: 0,
        likesterr: 0,
        uw: false,
        coast: false,
        cave: 0,
        river: false,
        from_mod: true,
    }
}

/// The nation's name, with its epithet after a comma where it has one.
pub open spec fn spec_title(n: NationView) -> Seq<char> {
    if n.epithet.len() == 0 {
        n.name
    } else {
        n.name + ", "@ + n.epithet
    }
}

/// The parts adds `name` unless it is already among them.
pub open spec fn with_new(parts: Seq<Seq<char>>, name: Seq<char>) -> Seq<Seq<char>> {
    if parts.contains(name) {
        parts
    } else {
        parts.push(name)
    }
}

/// The parts adds `name` where the nation likes the terrain `bit`.
pub open spec fn liked(parts: Seq<Seq<char>>, likes: u64, bit: u64, name: Seq<char>) -> Seq<Seq<char>> {
    if likes & bit != 0 {
        with_new(parts, name)
    } else {
        parts
    }
}

/// What a nation's start is described by: the water, caves or coast it
/// needs, then each kind of terrain it likes, then "cave or land" for a
/// nation that may start in either.
pub open spec fn label_parts(n: NationView) -> Seq<Seq<char>> {
    let first: Seq<Seq<char>> = if n.uw {
        if n.likesterr & DEEP_SEA != 0 {
            seq!["deep sea"@]
        } else {
            seq!["sea"@]
        }
    } else if n.cave >= 2 {
        seq!["cave"@]
    } else if n.coast {
        seq!["coast"@]
    } else {
        Seq::empty()
    };
    let l = n.likesterr;
    let p1 = liked(first, l, FOREST, "forest"@);
    let p2 = liked(p1, l, WASTE, "waste"@);
    let p3 = liked(p2, l, HIGHLAND, "highland"@);
    let p4 = liked(p3, l, SWAMP, "swamp"@);
    let p5 = liked(p4, l, FARM, "farm"@);
    let p6 = liked(p5, l, MOUNTAIN, "mountain"@);
    let p7 = liked(p6, l, CAVE, "cave"@);
    if n.cave == 1 && !p7.contains("cave"@) {
        p7.push("cave or land"@)
    } else {
        p7
    }
}

/// The label of a nation's start: its parts joined by commas, or "any land".
pub open spec fn spec_start_label(n: NationView) -> Seq<char> {
    if label_parts(n).len() == 0 {
        "any land"@
    } else {
        join(label_parts(n), ", "@)
    }
}

fn same_text(a: &Vec<char>, b: &Vec<char>) -> (r: bool)
    ensures
        r == (a@ == b@),
{
    if a.len() != b.len() {
        return false;
    }
    let mut i: usize = 0;
    while i < a.len()
        invariant
            i <= a@.len(),
            a@.len() == b@.len(),
            forall|j: int| 0 <= j < i ==> a@[j] == b@[j],
        decreases a@.len() - i,
    {
        if a[i] != b[i] {
            return false;
        }
        i += 1;
    }
    assert(a@ =~= b@);
    true
}

fn push_new(parts: &mut Vec<Vec<char>>, name: &str)
    ensures
        seqs_of(final(parts)@) == with_new(seqs_of(old(parts)@), name@),
{
    let c = chars_of(name);
    let mut i: usize = 0;
    while i < parts.len()
        invariant
            i <= parts@.len(),
            c@ == name@,
            *parts == *old(parts),
            forall|j: int| 0 <= j < i ==> parts@[j]@ != c@,
        decreases parts@.len() - i,
    {
        if same_text(&parts[i], &c) {
            proof {
                assert(seqs_of(parts@)[i as int] == name@);
            }
            return ;
        }
        i += 1;
    }
    proof {
        assert(!seqs_of(parts@).contains(name@)) by {
            if seqs_of(parts@).contains(name@) {
                let j = choose|j: int| 0 <= j < seqs_of(parts@).len() && seqs_of(parts@)[j] == name@;
                assert(parts@[j]@ == c@);
            }
        }
    }
    let ghost before = parts@;
    parts.push(c);
    assert(seqs_of(parts@) =~= seqs_of(before).push(name@));
}

fn push_liked(parts: &mut Vec<Vec<char>>, likes: u64, bit: u64, name: &str)
    ensures
        seqs_of(final(parts)@) == liked(seqs_of(old(parts)@), likes, bit, name@),
{
    if likes & bit != 0 {
        push_new(parts, name);
    }
}

impl Nation {
    /// A copy of the nation.
    pub fn copy(&self) -> (r: Nation)
        ensures
            r@ == self@,
    {
        Nation {
            id: self.id,
            name: string_of(self.name.as_str()),
            epithet: string_of(self.epithet.as_str()),
            era: self.era,
            likesterr: self.likesterr,
            uw: self.uw,
            coast: self.coast,
            cave: self.cave,
            river: self.river,
            from_mod: self.from_mod,
        }
    }

    /// A nation known only by its number.
    pub fn blank(id: u32) -> (n: Nation)
        ensures
            n@ == spec_blank(id),
    {
        let mut name = string_of("Nation ");
        push_decimal(&mut name, id as u64);
        Nation {
            id,
            name,
            epithet: String::new(),
            era: 0,
            likesterr: 0,
            uw: false,
            coast: false,
            cave: 0,
            river: false,
            from_mod: true,
        }
    }

    /// The nation's name, with its epithet after a comma where it has one.
    pub fn title(&self) -> (s: String)
        ensures
            s@ == spec_title(self@),
    {
        let mut s = string_of(self.name.as_str());
        if self.epithet.as_str().unicode_len() > 0 {
            push_str(&mut s, ", ");
            push_str(&mut s, self.epithet.as_str());
        }
        s
    }

    /// The label of the nation's start, as shown beside it.
    pub fn start_label(&self) -> (s: String)
        ensures
            s@ == spec_start_label(self@),
    {
        let mut parts: Vec<Vec<char>> = Vec::new();
        proof {
            assert(seqs_of(parts@) =~= Seq::<Seq<char>>::empty());
        }
        if self.uw {
            if self.likesterr & DEEP_SEA != 0 {
                parts.push(chars_of("deep sea"));
            } else {
                parts.push(chars_of("sea"));
            }
        } else if self.cave >= 2 {
            parts.push(chars_of("cave"));
        } else if self.coast {
            parts.push(chars_of("coast"));
        }
        let ghost first = seqs_of(parts@);
        proof {
            let n = self@;
            let f: Seq<Seq<char>> = if n.uw {
                if n.likesterr & DEEP_SEA != 0 {
                    seq!["deep sea"@]
                } else {
                    seq!["sea"@]
                }
            } else if n.cave >= 2 {
                seq!["cave"@]
            } else if n.coast {
                seq!["coast"@]
            } else {
                Seq::empty()
            };
            assert(first =~= f);
        }
        let l = self.likesterr;
        push_liked(&mut parts, l, FOREST, "forest");
        push_liked(&mut parts, l, WASTE, "waste");
        push_liked(&mut parts, l, HIGHLAND, "highland");
        push_liked(&mut parts, l, SWAMP, "swamp");
        push_liked(&mut parts, l, FARM, "farm");
        push_liked(&mut parts, l, MOUNTAIN, "mountain");
        push_liked(&mut parts, l, CAVE, "cave");
        if self.cave == 1 {
            let before = parts.len();
            let ghost p7 = seqs_of(parts@);
            assert(p7.len() == before);
            push_new(&mut parts, "cave");
            assert(seqs_of(parts@).len() == parts@.len());
            if parts.len() == before {
                proof {
                    assert(p7.contains("cave"@));
                }
            } else {
                let ghost grown = parts@;
                assert(seqs_of(grown) == p7.push("cave"@));
                parts.pop();
                proof {
                    assert(seqs_of(parts@) =~= seqs_of(grown).drop_last());
                    assert(seqs_of(parts@) =~= p7);
                    assert(!p7.contains("cave"@));
                }
                parts.push(chars_of("cave or land"));
                proof {
                    assert(seqs_of(parts@) =~= p7.push("cave or land"@));
                }
            }
        }
        if parts.len() == 0 {
            string_of("any land")
        } else {
            let sep = chars_of(", ");
            let joined = join_chars(&parts, sep.as_slice());
            string_from(joined.as_slice())
        }
    }
}

/// The name of an era.
pub open spec fn spec_era_label(era: u8) -> Seq<char> {
    if era == 1 {
        "Early"@
    } else if era == 2 {
        "Middle"@
    } else if era == 3 {
        "Late"@
    } else {
        "Any"@
    }
}

/// The name of an era.
pub fn era_label(era: u8) -> (s: &'static str)
    ensures
        s@ == spec_era_label(era),
{
    match era {
        1 => "Early",
        2 => "Middle",
        3 => "Late",
        _ => "Any",
    }
}


/// Where a mod file's line is cut: at the first `--` outside double quotes,
/// looking from position `i` on with the quotes open or not.
pub open spec fn cut_at(s: Seq<char>, i: int, quoted: bool) -> int
    decreases s.len() - i,
{
    if i < 0 || i + 1 >= s.len() {
        s.len() as int
    } else if s[i] == '"' {
        cut_at(s, i + 1, !quoted)
    } else if !quoted && s[i] == '-' && s[i + 1] == '-' {
        i
    } else {
        cut_at(s, i + 1, quoted)
    }
}

/// A mod file's line without its comment.
pub open spec fn strip_comment(s: Seq<char>) -> Seq<char> {
    s.take(cut_at(s, 0, false))
}

proof fn lemma_cut_at_bound(s: Seq<char>, i: int, quoted: bool)
    requires
        0 <= i,
    ensures
        0 <= cut_at(s, i, quoted) <= s.len(),
    decreases s.len() - i,
{
    if !(i + 1 >= s.len()) {
        lemma_cut_at_bound(s, i + 1, !quoted);
        lemma_cut_at_bound(s, i + 1, quoted);
    }
}

fn comment_cut(s: &[char]) -> (r: usize)
    ensures
        r as int == cut_at(s@, 0, false),
        r <= s@.len(),
{
    let mut quoted = false;
    let mut i: usize = 0;
    proof {
        lemma_cut_at_bound(s@, 0, false);
    }
    while i < s.len() && s.len() - i > 1
        invariant
            cut_at(s@, 0, false) == cut_at(s@, i as int, quoted),
            i <= s@.len(),
        decreases s@.len() - i,
    {
        if s[i] == '"' {
            quoted = !quoted;
        } else if !quoted && s[i] == '-' && s[i + 1] == '-' {
            return i;
        }
        i += 1;
    }
    s.len()
}

/// The first word of an argument text read as a number, if it reads.
pub open spec fn first_number(rest: Seq<char>) -> Option<i64> {
    if words(rest).len() > 0 {
        parse_i64(words(rest)[0])
    } else {
        None
    }
}

/// The first number, or 0.
pub open spec fn number_or_zero(rest: Seq<char>) -> i64 {
    match first_number(rest) {
        Some(v) => v,
        None => 0,
    }
}

/// A number held to 0 to 3.
pub open spec fn clamp3(v: i64) -> u8 {
    if v < 0 {
        0
    } else if v > 3 {
        3
    } else {
        v as u8
    }
}

/// The first nation with the number, where there is one.
pub open spec fn find_id(s: Seq<NationView>, id: u32) -> Option<NationView>
    decreases s.len(),
{
    if s.len() == 0 {
        None
    } else if s[0].id == id {
        Some(s[0])
    } else {
        find_id(s.drop_first(), id)
    }
}

/// The nations without those of the number.
pub open spec fn drop_id(s: Seq<NationView>, id: u32) -> Seq<NationView>
    decreases s.len(),
{
    if s.len() == 0 {
        Seq::empty()
    } else if s.last().id == id {
        drop_id(s.drop_last(), id)
    } else {
        drop_id(s.drop_last(), id).push(s.last())
    }
}

/// Whether a number is taken, by a known nation or one already read.
pub open spec fn id_taken(known: Seq<NationView>, out: Seq<NationView>, id: int) -> bool {
    (exists|i: int| 0 <= i < known.len() && known[i].id == id) || (exists|i: int|
        0 <= i < out.len() && out[i].id == id)
}

/// The least number from `FIRST_MOD_ID` on that no nation has.
pub open spec fn free_id(known: Seq<NationView>, out: Seq<NationView>) -> u32 {
    (choose|x: int|
        x >= FIRST_MOD_ID && !id_taken(known, out, x) && forall|y: int|
            FIRST_MOD_ID <= y < x ==> id_taken(known, out, y)) as u32
}

/// What a line inside a nation's block changes of the nation.
pub open spec fn edit_nation(n: NationView, cmd: Seq<char>, rest: Seq<char>) -> NationView {
    if cmd == "#name"@ {
        NationView { name: unquote(rest), ..n }
    } else if cmd == "#epithet"@ {
        NationView { epithet: unquote(rest), ..n }
    } else if cmd == "#era"@ {
        NationView { era: clamp3(number_or_zero(rest)), ..n }
    } else if cmd == "#likesterr"@ {
        NationView {
            likesterr: if number_or_zero(rest) < 0 {
                0
            } else {
                number_or_zero(rest) as u64
            },
            ..n
        }
    } else if cmd == "#uwnation"@ {
        NationView { uw: true, ..n }
    } else if cmd == "#coastnation"@ {
        NationView { coast: true, ..n }
    } else if cmd == "#cavenation"@ {
        NationView { cave: clamp3(number_or_zero(rest)), ..n }
    } else if cmd == "#riverstart"@ {
        NationView { river: true, ..n }
    } else if cmd == "#clearnation"@ {
        NationView { likesterr: 0, uw: false, coast: false, cave: 0, river: false, ..n }
    } else {
        n
    }
}

/// Where the reading of a mod file stands: the nations finished, the one
/// being read, and whether a block of something else is open.
pub struct DmState {
    pub out: Seq<NationView>,
    pub current: Option<NationView>,
    pub other: bool,
}

/// What one line of a mod file does. Outside a nation's block,
/// `#selectnation` opens a known nation (or a blank one of that number) and
/// `#newnation` a new one with the least free number; other `#new` and
/// `#select` commands open blocks whose lines are skipped until `#end`.
/// Inside a nation's block the commands change the nation, and `#end`
/// finishes it, replacing any nation of its number read before.
pub open spec fn dm_step(known: Seq<NationView>, st: DmState, raw: Seq<char>) -> DmState {
    let line = trim(strip_comment(raw));
    if !(line.len() > 0 && line[0] == '#') {
        st
    } else {
        let k = ws_pos(line);
        let cmd = line.take(k as int);
        let rest = trim(line.skip(k as int));
        match st.current {
            None => if cmd == "#selectnation"@ {
                match first_number(rest) {
                    None => st,
                    Some(v) => {
                        let id = (if v < 0 {
                            0
                        } else {
                            v
                        }) as u32;
                        let base = match find_id(known, id) {
                            Some(n) => n,
                            None => spec_blank(id),
                        };
                        DmState { current: Some(NationView { from_mod: true, ..base }), ..st }
                    },
                }
            } else if cmd == "#newnation"@ {
                DmState { current: Some(spec_blank(free_id(known, st.out))), ..st }
            } else if cmd == "#end"@ {
                DmState { other: false, ..st }
            } else if starts_with(cmd, "#new"@) || starts_with(cmd, "#select"@) {
                DmState { other: true, ..st }
            } else {
                st
            },
            Some(n) => if st.other {
                st
            } else if cmd == "#end"@ {
                DmState { out: drop_id(st.out, n.id).push(n), current: None, ..st }
            } else {
                DmState { current: Some(edit_nation(n, cmd, rest)), ..st }
            },
        }
    }
}

/// Where the reading stands after the lines.
pub open spec fn dm_lines(known: Seq<NationView>, lines: Seq<Seq<char>>) -> DmState
    decreases lines.len(),
{
    if lines.len() == 0 {
        DmState { out: Seq::empty(), current: None, other: false }
    } else {
        dm_step(known, dm_lines(known, lines.drop_last()), lines.last())
    }
}

/// The nations a mod file adds or changes: those finished, and a nation
/// left open at the end of the file.
pub open spec fn spec_parse_dm(text: Seq<char>, known: Seq<NationView>) -> Seq<NationView> {
    let st = dm_lines(known, lines_of(text));
    match st.current {
        Some(n) => drop_id(st.out, n.id).push(n),
        None => st.out,
    }
}


/// A mod file line's command: the first word of the line without its
/// comment, where that begins with `#`.
pub open spec fn dm_command(raw: Seq<char>) -> Option<Seq<char>> {
    let line = trim(strip_comment(raw));
    if line.len() > 0 && line[0] == '#' {
        Some(line.take(ws_pos(line) as int))
    } else {
        None
    }
}

proof fn lemma_dm_lines_push(known: Seq<NationView>, ls: Seq<Seq<char>>, l: Seq<char>)
    ensures
        dm_lines(known, ls.push(l)) == dm_step(known, dm_lines(known, ls), l),
{
    assert(ls.push(l).drop_last() =~= ls);
}

/// One of a nation's start wishes: the coast (0), water (1) or a river (2).
pub open spec fn wish(n: NationView, which: int) -> bool {
    if which == 0 {
        n.coast
    } else if which == 1 {
        n.uw
    } else {
        n.river
    }
}

/// The command that sets a start wish.
pub open spec fn wish_command(which: int) -> Seq<char> {
    if which == 0 {
        "#coastnation"@
    } else if which == 1 {
        "#uwnation"@
    } else {
        "#riverstart"@
    }
}

/// A line inside a nation's block other than `#end` keeps the block open;
/// a wish's command sets the wish, and no line but `#clearnation` takes a
/// wish away.
proof fn lemma_block_line(known: Seq<NationView>, st: DmState, l: Seq<char>, which: int)
    requires
        st.current is Some,
        !st.other,
        dm_command(l) != Some("#end"@),
    ensures
        dm_step(known, st, l).current is Some,
        !dm_step(known, st, l).other,
        dm_step(known, st, l).out == st.out,
        dm_command(l) == Some(wish_command(which)) ==> wish(dm_step(known, st, l).current->0, which),
        dm_command(l) != Some("#clearnation"@) && wish(st.current->0, which) ==> wish(
            dm_step(known, st, l).current->0,
            which,
        ),
{
    reveal_strlit("#coastnation");
    reveal_strlit("#riverstart");
    reveal_strlit("#cavenation");
    reveal_strlit("#name");
    reveal_strlit("#epithet");
    reveal_strlit("#era");
    reveal_strlit("#likesterr");
    reveal_strlit("#uwnation");
    let c = wish_command(which);
    assert(c != "#name"@) by { assert(c[1] != "#name"@[1]); }
    assert(c != "#epithet"@) by { assert(c[1] != "#epithet"@[1]); }
    assert(c != "#era"@) by { assert(c[1] != "#era"@[1]); }
    assert(c != "#likesterr"@) by { assert(c[1] != "#likesterr"@[1]); }
    if which == 0 {
        assert(c == "#coastnation"@);
        assert(c != "#uwnation"@) by { assert(c[1] != "#uwnation"@[1]); }
    } else if which == 1 {
        assert(c == "#uwnation"@);
    } else {
        assert(c == "#riverstart"@);
        assert(c != "#uwnation"@) by { assert(c[1] != "#uwnation"@[1]); }
        assert(c != "#coastnation"@) by { assert(c[1] != "#coastnation"@[1]); }
        assert(c != "#cavenation"@) by { assert(c[1] != "#cavenation"@[1]); }
    }
    if dm_command(l) == Some(c) {
        let line = trim(strip_comment(l));
        let k = ws_pos(line);
        assert(line.take(k as int) == c);
        let n = st.current->0;
        let rest = trim(line.skip(k as int));
        assert(dm_step(known, st, l).current == Some(edit_nation(n, c, rest)));
        assert(wish(edit_nation(n, c, rest), which));
    }
}

/// The lines of a nation's block, none of them `#end`, keep it open; with
/// none of them `#clearnation`, a wish once made stays.
proof fn lemma_block_lines(known: Seq<NationView>, ls: Seq<Seq<char>>, body: Seq<Seq<char>>, keep: bool, which: int)
    requires
        dm_lines(known, ls).current is Some,
        !dm_lines(known, ls).other,
        forall|i: int| 0 <= i < body.len() ==> dm_command(#[trigger] body[i]) != Some("#end"@),
        keep ==> wish(dm_lines(known, ls).current->0, which),
        keep ==> forall|i: int| 0 <= i < body.len() ==> dm_command(#[trigger] body[i]) != Some("#clearnation"@),
    ensures
        dm_lines(known, ls + body).current is Some,
        !dm_lines(known, ls + body).other,
        keep ==> wish(dm_lines(known, ls + body).current->0, which),
    decreases body.len(),
{
    if body.len() == 0 {
        assert(ls + body =~= ls);
    } else {
        let front = body.drop_last();
        assert forall|i: int| 0 <= i < front.len() implies dm_command(#[trigger] front[i]) != Some("#end"@) by {
            assert(front[i] == body[i]);
        }
        if keep {
            assert forall|i: int| 0 <= i < front.len() implies dm_command(#[trigger] front[i]) != Some(
                "#clearnation"@,
            ) by {
                assert(front[i] == body[i]);
            }
        }
        lemma_block_lines(known, ls, front, keep, which);
        assert(ls + body =~= (ls + front).push(body.last()));
        lemma_dm_lines_push(known, ls + front, body.last());
        assert(dm_command(body[body.len() - 1]) != Some("#end"@));
        lemma_block_line(known, dm_lines(known, ls + front), body.last(), which);
    }
}

/// Lines without a command change nothing.
proof fn lemma_quiet_lines(known: Seq<NationView>, ls: Seq<Seq<char>>, quiet: Seq<Seq<char>>)
    requires
        forall|i: int| 0 <= i < quiet.len() ==> dm_command(#[trigger] quiet[i]) is None,
    ensures
        dm_lines(known, ls + quiet) == dm_lines(known, ls),
    decreases quiet.len(),
{
    if quiet.len() == 0 {
        assert(ls + quiet =~= ls);
    } else {
        let front = quiet.drop_last();
        assert forall|i: int| 0 <= i < front.len() implies dm_command(#[trigger] front[i]) is None by {
            assert(front[i] == quiet[i]);
        }
        lemma_quiet_lines(known, ls, front);
        assert(ls + quiet =~= (ls + front).push(quiet.last()));
        lemma_dm_lines_push(known, ls + front, quiet.last());
        assert(dm_command(quiet[quiet.len() - 1]) is None);
    }
}

/// A nation's block that holds a wish's command, with no `#clearnation`
/// after it, ends the file with a nation that has the wish.
proof fn lemma_wish_in_block(
    known: Seq<NationView>,
    text: Seq<char>,
    before: Seq<Seq<char>>,
    open: Seq<char>,
    first: Seq<Seq<char>>,
    mid: Seq<char>,
    then: Seq<Seq<char>>,
    end: Seq<char>,
    after: Seq<Seq<char>>,
    which: int,
)
    requires
        0 <= which <= 2,
        lines_of(text) == before + seq![open] + first + seq![mid] + then + seq![end] + after,
        forall|i: int| 0 <= i < after.len() ==> dm_command(#[trigger] after[i]) is None,
        dm_lines(known, before).current is None,
        !dm_lines(known, before).other,
        dm_command(open) == Some("#newnation"@),
        dm_command(mid) == Some(wish_command(which)),
        dm_command(end) == Some("#end"@),
        forall|i: int| 0 <= i < first.len() ==> dm_command(#[trigger] first[i]) != Some("#end"@),
        forall|i: int| 0 <= i < then.len() ==> dm_command(#[trigger] then[i]) != Some("#end"@),
        forall|i: int| 0 <= i < then.len() ==> dm_command(#[trigger] then[i]) != Some("#clearnation"@),
    ensures
        spec_parse_dm(text, known).len() > 0,
        wish(spec_parse_dm(text, known).last(), which),
{
    reveal_strlit("#newnation");
    reveal_strlit("#selectnation");
    reveal_strlit("#end");
    reveal_strlit("#coastnation");
    reveal_strlit("#uwnation");
    reveal_strlit("#riverstart");
    let a = before.push(open);
    lemma_dm_lines_push(known, before, open);
    assert("#newnation"@ != "#selectnation"@) by {
        assert("#newnation"@[1] != "#selectnation"@[1]);
    }
    assert(dm_lines(known, a).current is Some);
    assert(!dm_lines(known, a).other);
    lemma_block_lines(known, a, first, false, which);
    let b = a + first;
    lemma_dm_lines_push(known, b, mid);
    assert(wish_command(which) != "#end"@) by {
        assert(wish_command(which)[1] != "#end"@[1]);
    }
    lemma_block_line(known, dm_lines(known, b), mid, which);
    let c = b.push(mid);
    lemma_block_lines(known, c, then, true, which);
    let e = c + then;
    lemma_dm_lines_push(known, e, end);
    assert(lines_of(text) =~= e.push(end) + after);
    lemma_quiet_lines(known, e.push(end), after);
    let st = dm_lines(known, e);
    let fin = dm_lines(known, e.push(end));
    assert(fin.current is None);
    assert(fin.out == drop_id(st.out, st.current->0.id).push(st.current->0));
}

/// A nation's block that holds a `#coastnation` line, with no `#clearnation`
/// after it, gives a coastal nation: whatever the lines before the block
/// (so long as they leave no block open), whatever else the block holds,
/// and whatever blank or comment lines follow it, the nation the block
/// finishes is the last one the file gives, and it starts on the coast.
pub proof fn lemma_coastnation_gives_a_coastal_nation(
    known: Seq<NationView>,
    text: Seq<char>,
    before: Seq<Seq<char>>,
    open: Seq<char>,
    first: Seq<Seq<char>>,
    coast: Seq<char>,
    then: Seq<Seq<char>>,
    end: Seq<char>,
    after: Seq<Seq<char>>,
)
    requires
        lines_of(text) == before + seq![open] + first + seq![coast] + then + seq![end] + after,
        forall|i: int| 0 <= i < after.len() ==> dm_command(#[trigger] after[i]) is None,
        dm_lines(known, before).current is None,
        !dm_lines(known, before).other,
        dm_command(open) == Some("#newnation"@),
        dm_command(coast) == Some("#coastnation"@),
        dm_command(end) == Some("#end"@),
        forall|i: int| 0 <= i < first.len() ==> dm_command(#[trigger] first[i]) != Some("#end"@),
        forall|i: int| 0 <= i < then.len() ==> dm_command(#[trigger] then[i]) != Some("#end"@),
        forall|i: int| 0 <= i < then.len() ==> dm_command(#[trigger] then[i]) != Some("#clearnation"@),
    ensures
        spec_parse_dm(text, known).len() > 0,
        spec_parse_dm(text, known).last().coast,
{
    lemma_wish_in_block(known, text, before, open, first, coast, then, end, after, 0);
}

/// A nation's block that holds a `#uwnation` line, with no `#clearnation`
/// after it, gives a water nation: on the same terms, the nation the block
/// finishes is the last one the file gives, and it starts under water.
pub proof fn lemma_uwnation_gives_a_water_nation(
    known: Seq<NationView>,
    text: Seq<char>,
    before: Seq<Seq<char>>,
    open: Seq<char>,
    first: Seq<Seq<char>>,
    uw: Seq<char>,
    then: Seq<Seq<char>>,
    end: Seq<char>,
    after: Seq<Seq<char>>,
)
    requires
        lines_of(text) == before + seq![open] + first + seq![uw] + then + seq![end] + after,
        forall|i: int| 0 <= i < after.len() ==> dm_command(#[trigger] after[i]) is None,
        dm_lines(known, before).current is None,
        !dm_lines(known, before).other,
        dm_command(open) == Some("#newnation"@),
        dm_command(uw) == Some("#uwnation"@),
        dm_command(end) == Some("#end"@),
        forall|i: int| 0 <= i < first.len() ==> dm_command(#[trigger] first[i]) != Some("#end"@),
        forall|i: int| 0 <= i < then.len() ==> dm_command(#[trigger] then[i]) != Some("#end"@),
        forall|i: int| 0 <= i < then.len() ==> dm_command(#[trigger] then[i]) != Some("#clearnation"@),
    ensures
        spec_parse_dm(text, known).len() > 0,
        spec_parse_dm(text, known).last().uw,
{
    lemma_wish_in_block(known, text, before, open, first, uw, then, end, after, 1);
}

/// A nation's block that holds a `#riverstart` line, with no `#clearnation`
/// after it, gives a nation that starts by a river: on the same terms, the
/// nation the block finishes is the last one the file gives, and it wants a
/// river.
pub proof fn lemma_riverstart_gives_a_river_nation(
    known: Seq<NationView>,
    text: Seq<char>,
    before: Seq<Seq<char>>,
    open: Seq<char>,
    first: Seq<Seq<char>>,
    river: Seq<char>,
    then: Seq<Seq<char>>,
    end: Seq<char>,
    after: Seq<Seq<char>>,
)
    requires
        lines_of(text) == before + seq![open] + first + seq![river] + then + seq![end] + after,
        forall|i: int| 0 <= i < after.len() ==> dm_command(#[trigger] after[i]) is None,
        dm_lines(known, before).current is None,
        !dm_lines(known, before).other,
        dm_command(open) == Some("#newnation"@),
        dm_command(river) == Some("#riverstart"@),
        dm_command(end) == Some("#end"@),
        forall|i: int| 0 <= i < first.len() ==> dm_command(#[trigger] first[i]) != Some("#end"@),
        forall|i: int| 0 <= i < then.len() ==> dm_command(#[trigger] then[i]) != Some("#end"@),
        forall|i: int| 0 <= i < then.len() ==> dm_command(#[trigger] then[i]) != Some("#clearnation"@),
    ensures
        spec_parse_dm(text, known).len() > 0,
        spec_parse_dm(text, known).last().river,
{
    lemma_wish_in_block(known, text, before, open, first, river, then, end, after, 2);
}

fn is_cmd(a: &Vec<char>, lit: &str) -> (r: bool)
    ensures
        r == (a@ == lit@),
{
    let b = chars_of(lit);
    same_text(a, &b)
}

fn first_number_of(rest: &Vec<char>) -> (r: Option<i64>)
    ensures
        r == first_number(rest@),
{
    let w = split_words(rest.as_slice());
    if w.len() == 0 {
        return None;
    }
    proof {
        assert(seqs_of(w@)[0] == w@[0]@);
    }
    to_i64(w[0].as_slice())
}

fn number_or_zero_of(rest: &Vec<char>) -> (r: i64)
    ensures
        r == number_or_zero(rest@),
{
    match first_number_of(rest) {
        Some(v) => v,
        None => 0,
    }
}

fn clamp3_of(v: i64) -> (r: u8)
    ensures
        r == clamp3(v),
{
    if v < 0 {
        0
    } else if v > 3 {
        3
    } else {
        v as u8
    }
}

fn edit(n: &mut Nation, cmd: &Vec<char>, rest: &Vec<char>)
    ensures
        final(n)@ == edit_nation(old(n)@, cmd@, rest@),
{
    proof {
        reveal_strlit("#name");
        reveal_strlit("#epithet");
        reveal_strlit("#era");
        reveal_strlit("#likesterr");
        reveal_strlit("#uwnation");
        reveal_strlit("#coastnation");
        reveal_strlit("#cavenation");
        reveal_strlit("#riverstart");
        reveal_strlit("#clearnation");
    }
    if is_cmd(cmd, "#name") {
        let u = unquoted(rest.as_slice());
        n.name = string_from(u.as_slice());
    } else if is_cmd(cmd, "#epithet") {
        let u = unquoted(rest.as_slice());
        n.epithet = string_from(u.as_slice());
    } else if is_cmd(cmd, "#era") {
        n.era = clamp3_of(number_or_zero_of(rest));
    } else if is_cmd(cmd, "#likesterr") {
        let v = number_or_zero_of(rest);
        n.likesterr = if v < 0 {
            0
        } else {
            v as u64
        };
    } else if is_cmd(cmd, "#uwnation") {
        n.uw = true;
    } else if is_cmd(cmd, "#coastnation") {
        n.coast = true;
    } else if is_cmd(cmd, "#cavenation") {
        n.cave = clamp3_of(number_or_zero_of(rest));
    } else if is_cmd(cmd, "#riverstart") {
        n.river = true;
    } else if is_cmd(cmd, "#clearnation") {
        n.likesterr = 0;
        n.uw = false;
        n.coast = false;
        n.cave = 0;
        n.river = false;
    }
}

fn find_known(known: &[Nation], id: u32) -> (r: Option<Nation>)
    ensures
        match r {
            Some(n) => find_id(nations_view(known@), id) == Some(n@),
            None => find_id(nations_view(known@), id) is None,
        },
{
    let ghost kv = nations_view(known@);
    let mut i: usize = 0;
    assert(kv.skip(0) =~= kv);
    while i < known.len()
        invariant
            i <= known@.len(),
            kv == nations_view(known@),
            find_id(kv, id) == find_id(kv.skip(i as int), id),
        decreases known@.len() - i,
    {
        assert(kv.skip(i as int)[0] == known@[i as int]@);
        assert(kv.skip(i as int).drop_first() =~= kv.skip(i + 1));
        if known[i].id == id {
            return Some(known[i].copy());
        }
        i += 1;
    }
    None
}

fn drop_nation(out: &Vec<Nation>, id: u32) -> (r: Vec<Nation>)
    ensures
        nations_view(r@) == drop_id(nations_view(out@), id),
        r@.len() <= out@.len(),
{
    let ghost ov = nations_view(out@);
    let mut r: Vec<Nation> = Vec::new();
    let mut i: usize = 0;
    assert(ov.take(0) =~= Seq::<NationView>::empty());
    while i < out.len()
        invariant
            i <= out@.len(),
            ov == nations_view(out@),
            nations_view(r@) == drop_id(ov.take(i as int), id),
            r@.len() <= i,
        decreases out@.len() - i,
    {
        assert(ov.take(i + 1).drop_last() =~= ov.take(i as int));
        assert(ov[i as int] == out@[i as int]@);
        if out[i].id != id {
            let ghost before = r@;
            r.push(out[i].copy());
            assert(nations_view(r@) =~= nations_view(before).push(ov[i as int]));
        }
        i += 1;
    }
    assert(ov.take(out@.len() as int) =~= ov);
    r
}

fn is_taken(known: &[Nation], out: &Vec<Nation>, id: u32) -> (b: bool)
    ensures
        b == id_taken(nations_view(known@), nations_view(out@), id as int),
{
    let ghost kv = nations_view(known@);
    let ghost ov = nations_view(out@);
    let mut i: usize = 0;
    while i < known.len()
        invariant
            i <= known@.len(),
            kv == nations_view(known@),
            forall|j: int| 0 <= j < i ==> kv[j].id != id,
        decreases known@.len() - i,
    {
        if known[i].id == id {
            assert(kv[i as int].id == id);
            return true;
        }
        i += 1;
    }
    let mut j: usize = 0;
    while j < out.len()
        invariant
            j <= out@.len(),
            ov == nations_view(out@),
            forall|t: int| 0 <= t < j ==> ov[t].id != id,
        decreases out@.len() - j,
    {
        if out[j].id == id {
            assert(ov[j as int].id == id);
            return true;
        }
        j += 1;
    }
    false
}

proof fn lemma_free_below(known: Seq<NationView>, out: Seq<NationView>, a: int)
    ensures
        exists|x: int| a <= x <= a + known.len() + out.len() && !id_taken(known, out, x),
{
    let ids = known.map_values(|n: NationView| n.id as int) + out.map_values(
        |n: NationView| n.id as int,
    );
    let k = known.len() + out.len();
    if forall|x: int| a <= x <= a + k ==> id_taken(known, out, x) {
        vstd::set_lib::lemma_int_range(a, a + k + 1);
        assert(vstd::set_lib::set_int_range(a, a + k + 1).subset_of(ids.to_set())) by {
            assert forall|x: int| #[trigger] vstd::set_lib::set_int_range(a, a + k + 1).contains(x) implies ids.to_set().contains(x) by {
                assert(id_taken(known, out, x));
                if exists|i: int| 0 <= i < known.len() && known[i].id == x {
                    let i = choose|i: int| 0 <= i < known.len() && known[i].id == x;
                    assert(ids[i] == x);
                } else {
                    let i = choose|i: int| 0 <= i < out.len() && out[i].id == x;
                    assert(ids[known.len() + i] == x);
                }
            }
        }
        ids.lemma_cardinality_of_set();
        vstd::set_lib::lemma_len_subset(vstd::set_lib::set_int_range(a, a + k + 1), ids.to_set());
        assert(false);
    }
}

fn new_id(known: &[Nation], out: &Vec<Nation>) -> (id: u32)
    requires
        known@.len() + out@.len() + FIRST_MOD_ID < u32::MAX,
    ensures
        id == free_id(nations_view(known@), nations_view(out@)),
{
    let ghost kv = nations_view(known@);
    let ghost ov = nations_view(out@);
    let ghost top = FIRST_MOD_ID + known@.len() + out@.len();
    let mut id: u32 = FIRST_MOD_ID;
    proof {
        lemma_free_below(kv, ov, FIRST_MOD_ID as int);
    }
    while is_taken(known, out, id)
        invariant
            FIRST_MOD_ID <= id <= top,
            top < u32::MAX,
            kv == nations_view(known@),
            ov == nations_view(out@),
            kv.len() == known@.len(),
            ov.len() == out@.len(),
            top == FIRST_MOD_ID + kv.len() + ov.len(),
            exists|x: int| FIRST_MOD_ID <= x <= top && !id_taken(kv, ov, x),
            forall|y: int| FIRST_MOD_ID <= y < id ==> id_taken(kv, ov, y),
        decreases top - id,
    {
        proof {
            if id == top {
                let x = choose|x: int| FIRST_MOD_ID <= x <= top && !id_taken(kv, ov, x);
                if x < id {
                } else {
                    assert(x == id);
                }
            }
        }
        id += 1;
    }
    proof {
        let c = choose|x: int|
            x >= FIRST_MOD_ID && !id_taken(kv, ov, x) && forall|y: int|
                FIRST_MOD_ID <= y < x ==> id_taken(kv, ov, y);
        assert(id as int >= FIRST_MOD_ID && !id_taken(kv, ov, id as int));
        if c < id {
            assert(id_taken(kv, ov, c));
        } else if c > id {
            assert(id_taken(kv, ov, id as int));
        }
    }
    id
}

/// The nation being read, where there is one, as plain values.
pub open spec fn opt_nation(o: Option<Nation>) -> Option<NationView> {
    match o {
        Some(n) => Some(n@),
        None => None,
    }
}

fn dm_line(known: &[Nation], out: &mut Vec<Nation>, current: &mut Option<Nation>, other: &mut bool, raw: &[char])
    requires
        known@.len() + old(out)@.len() + FIRST_MOD_ID < u32::MAX,
    ensures
        (DmState {
            out: nations_view(final(out)@),
            current: opt_nation(*final(current)),
            other: *final(other),
        }) == dm_step(
            nations_view(known@),
            DmState {
                out: nations_view(old(out)@),
                current: opt_nation(*old(current)),
                other: *old(other),
            },
            raw@,
        ),
        final(out)@.len() <= old(out)@.len() + 1,
{
    let cut = comment_cut(raw);
    let stripped = sub_chars(raw, 0, cut);
    assert(stripped@ =~= strip_comment(raw@));
    let line = trimmed(stripped.as_slice());
    if !(line.len() > 0 && line[0] == '#') {
        return ;
    }
    let k = next_ws(line.as_slice(), 0);
    proof {
        assert(line@.skip(0) =~= line@);
        lemma_ws_pos(line@);
    }
    let cmd = sub_chars(line.as_slice(), 0, k);
    let tail = sub_chars(line.as_slice(), k, line.len());
    let rest = trimmed(tail.as_slice());
    proof {
        assert(cmd@ =~= line@.take(ws_pos(line@) as int));
        assert(tail@ =~= line@.skip(ws_pos(line@) as int));
        reveal_strlit("#selectnation");
        reveal_strlit("#newnation");
        reveal_strlit("#end");
        reveal_strlit("#new");
        reveal_strlit("#select");
    }
    let mut cur: Option<Nation> = None;
    std::mem::swap(&mut cur, current);
    match cur {
        None => {
            if is_cmd(&cmd, "#selectnation") {
                match first_number_of(&rest) {
                    None => {},
                    Some(v) => {
                        let vv: i64 = if v < 0 {
                            0
                        } else {
                            v
                        };
                        let id = vv as u32;
                        let mut n = match find_known(known, id) {
                            Some(n) => n,
                            None => Nation::blank(id),
                        };
                        n.from_mod = true;
                        *current = Some(n);
                    },
                }
            } else if is_cmd(&cmd, "#newnation") {
                let id = new_id(known, out);
                *current = Some(Nation::blank(id));
            } else if is_cmd(&cmd, "#end") {
                *other = false;
            } else {
                let p1 = chars_of("#new");
                let p2 = chars_of("#select");
                if has_prefix(cmd.as_slice(), p1.as_slice()) || has_prefix(cmd.as_slice(), p2.as_slice()) {
                    *other = true;
                }
            }
        },
        Some(n) => {
            if *other {
                *current = Some(n);
            } else if is_cmd(&cmd, "#end") {
                let kept = drop_nation(out, n.id);
                *out = kept;
                let ghost before = out@;
                out.push(n);
                proof {
                    assert(nations_view(out@) =~= nations_view(before).push(n@));
                }
            } else {
                let mut m = n;
                edit(&mut m, &cmd, &rest);
                *current = Some(m);
            }
        },
    }
}

/// Reads the nations that a mod's `.dm` file adds or changes, given the
/// nations known before it: each finished block in the order it ends, a
/// later block of a number replacing an earlier one.
pub fn parse_dm(text: &str, known: &[Nation]) -> (r: Vec<Nation>)
    requires
        known@.len() + text@.len() + FIRST_MOD_ID + 1 < u32::MAX,
    ensures
        nations_view(r@) == spec_parse_dm(text@, nations_view(known@)),
{
    let cs = chars_of(text);
    let lines = split_lines(cs.as_slice());
    let ghost ls = seqs_of(lines@);
    let ghost kv = nations_view(known@);
    let mut out: Vec<Nation> = Vec::new();
    let mut current: Option<Nation> = None;
    let mut other = false;
    let mut k: usize = 0;
    proof {
        crate::text::lemma_lines_len(cs@);
        assert(ls.take(0) =~= Seq::<Seq<char>>::empty());
        assert(nations_view(out@) =~= Seq::<NationView>::empty());
    }
    while k < lines.len()
        invariant
            k <= lines@.len(),
            ls == seqs_of(lines@),
            ls == lines_of(cs@),
            kv == nations_view(known@),
            ls.len() <= cs@.len() + 1,
            cs@ == text@,
            known@.len() + text@.len() + FIRST_MOD_ID + 1 < u32::MAX,
            out@.len() <= k,
            (DmState { out: nations_view(out@), current: opt_nation(current), other }) == dm_lines(
                kv,
                ls.take(k as int),
            ),
        decreases lines@.len() - k,
    {
        dm_line(known, &mut out, &mut current, &mut other, lines[k].as_slice());
        proof {
            assert(ls.take(k + 1).drop_last() =~= ls.take(k as int));
            assert(ls[k as int] == lines@[k as int]@);
        }
        k += 1;
    }
    proof {
        assert(ls.take(lines@.len() as int) =~= ls);
    }
    match current {
        Some(n) => {
            let mut kept = drop_nation(&out, n.id);
            let ghost before = kept@;
            kept.push(n);
            proof {
                assert(nations_view(kept@) =~= nations_view(before).push(n@));
            }
            kept
        },
        None => out,
    }
}


/// Where the first nation of the number stands.
pub open spec fn find_pos(s: Seq<NationView>, id: u32) -> Option<int>
    decreases s.len(),
{
    if s.len() == 0 {
        None
    } else if s[0].id == id {
        Some(0)
    } else {
        match find_pos(s.drop_first(), id) {
            Some(i) => Some(i + 1),
            None => None,
        }
    }
}

/// A nation merged into a list: it replaces the first nation of its number,
/// or joins the end.
pub open spec fn merge_one(base: Seq<NationView>, n: NationView) -> Seq<NationView> {
    match find_pos(base, n.id) {
        Some(i) => base.update(i, n),
        None => base.push(n),
    }
}

/// The nations merged into a list, one after another.
pub open spec fn merge_all(base: Seq<NationView>, extra: Seq<NationView>) -> Seq<NationView>
    decreases extra.len(),
{
    if extra.len() == 0 {
        base
    } else {
        merge_one(merge_all(base, extra.drop_last()), extra.last())
    }
}

/// How many nations at the front of a list have numbers up to `id`.
pub open spec fn pos_after(s: Seq<NationView>, id: u32) -> int
    decreases s.len(),
{
    if s.len() == 0 {
        0
    } else if s[0].id <= id {
        1 + pos_after(s.drop_first(), id)
    } else {
        0
    }
}

/// The nations ordered by number, those of one number in the order they
/// came: each goes after those before it with a number up to its own.
pub open spec fn sort_by_id(s: Seq<NationView>) -> Seq<NationView>
    decreases s.len(),
{
    if s.len() == 0 {
        Seq::empty()
    } else {
        let sorted = sort_by_id(s.drop_last());
        sorted.insert(pos_after(sorted, s.last().id), s.last())
    }
}

/// The numbers never go down along the list.
pub open spec fn ids_sorted(s: Seq<NationView>) -> bool {
    forall|i: int, j: int| 0 <= i < j < s.len() ==> s[i].id <= s[j].id
}

proof fn lemma_pos_after(s: Seq<NationView>, id: u32)
    requires
        ids_sorted(s),
    ensures
        0 <= pos_after(s, id) <= s.len(),
        forall|i: int| 0 <= i < pos_after(s, id) ==> s[i].id <= id,
        forall|i: int| pos_after(s, id) <= i < s.len() ==> s[i].id > id,
    decreases s.len(),
{
    if s.len() > 0 && s[0].id <= id {
        let t = s.drop_first();
        assert forall|i: int, j: int| 0 <= i < j < t.len() implies t[i].id <= t[j].id by {
            assert(t[i] == s[i + 1] && t[j] == s[j + 1]);
        }
        lemma_pos_after(t, id);
        assert forall|i: int| 0 <= i < pos_after(s, id) implies s[i].id <= id by {
            if i > 0 {
                assert(s[i] == t[i - 1]);
            }
        }
        assert forall|i: int| pos_after(s, id) <= i < s.len() implies s[i].id > id by {
            assert(s[i] == t[i - 1]);
        }
    } else if s.len() > 0 {
        assert forall|i: int| 0 <= i < s.len() implies s[i].id > id by {
            assert(s[0].id <= s[i].id);
        }
    }
}

proof fn lemma_sort_sorted(s: Seq<NationView>)
    ensures
        ids_sorted(sort_by_id(s)),
        sort_by_id(s).len() == s.len(),
    decreases s.len(),
{
    if s.len() > 0 {
        let sorted = sort_by_id(s.drop_last());
        lemma_sort_sorted(s.drop_last());
        lemma_pos_after(sorted, s.last().id);
        let p = pos_after(sorted, s.last().id);
        let r = sorted.insert(p, s.last());
        assert forall|i: int, j: int| 0 <= i < j < r.len() implies r[i].id <= r[j].id by {
            if j < p {
                assert(r[i] == sorted[i] && r[j] == sorted[j]);
            } else if j == p {
                assert(r[i] == sorted[i]);
            } else if i == p {
                assert(r[j] == sorted[j - 1]);
            } else if i < p {
                assert(r[i] == sorted[i] && r[j] == sorted[j - 1]);
            } else {
                assert(r[i] == sorted[i - 1] && r[j] == sorted[j - 1]);
            }
        }
    }
}

fn position_of(base: &Vec<Nation>, id: u32) -> (r: Option<usize>)
    ensures
        match r {
            Some(i) => find_pos(nations_view(base@), id) == Some(i as int) && i < base@.len(),
            None => find_pos(nations_view(base@), id) is None,
        },
{
    let ghost bv = nations_view(base@);
    let mut i: usize = 0;
    assert(bv.skip(0) =~= bv);
    while i < base.len()
        invariant
            i <= base@.len(),
            bv == nations_view(base@),
            find_pos(bv, id) == match find_pos(bv.skip(i as int), id) {
                Some(j) => Some(j + i),
                None => None,
            },
        decreases base@.len() - i,
    {
        assert(bv.skip(i as int)[0] == base@[i as int]@);
        assert(bv.skip(i as int).drop_first() =~= bv.skip(i + 1));
        if base[i].id == id {
            return Some(i);
        }
        i += 1;
    }
    None
}

/// Merges nations into a list: each replaces the first nation of its number
/// or joins the list, and the list is then ordered by number, nations of one
/// number keeping their order.
pub fn merge(base: &mut Vec<Nation>, extra: Vec<Nation>)
    ensures
        nations_view(final(base)@) == sort_by_id(merge_all(nations_view(old(base)@), nations_view(extra@))),
        ids_sorted(nations_view(final(base)@)),
{
    let ghost ev = nations_view(extra@);
    let ghost b0 = nations_view(base@);
    let mut k: usize = 0;
    assert(ev.take(0) =~= Seq::<NationView>::empty());
    while k < extra.len()
        invariant
            k <= extra@.len(),
            ev == nations_view(extra@),
            nations_view(base@) == merge_all(b0, ev.take(k as int)),
        decreases extra@.len() - k,
    {
        let n = extra[k].copy();
        let ghost before = nations_view(base@);
        match position_of(base, n.id) {
            Some(i) => {
                base.set(i, n);
                proof {
                    assert(nations_view(base@) =~= before.update(i as int, n@));
                }
            },
            None => {
                base.push(n);
                proof {
                    assert(nations_view(base@) =~= before.push(n@));
                }
            },
        }
        proof {
            assert(ev.take(k + 1).drop_last() =~= ev.take(k as int));
            assert(ev[k as int] == extra@[k as int]@);
        }
        k += 1;
    }
    assert(ev.take(extra@.len() as int) =~= ev);
    let ghost merged = nations_view(base@);
    let mut sorted: Vec<Nation> = Vec::new();
    let mut i: usize = 0;
    assert(merged.take(0) =~= Seq::<NationView>::empty());
    while i < base.len()
        invariant
            i <= base@.len(),
            merged == nations_view(base@),
            nations_view(sorted@) == sort_by_id(merged.take(i as int)),
        decreases base@.len() - i,
    {
        proof {
            lemma_sort_sorted(merged.take(i as int));
            lemma_pos_after(nations_view(sorted@), base@[i as int].id);
        }
        let id = base[i].id;
        let mut p: usize = 0;
        while p < sorted.len() && sorted[p].id <= id
            invariant
                p <= sorted@.len(),
                ids_sorted(nations_view(sorted@)),
                forall|t: int| 0 <= t < p ==> nations_view(sorted@)[t].id <= id,
            decreases sorted@.len() - p,
        {
            p += 1;
        }
        proof {
            let sv = nations_view(sorted@);
            assert(p == pos_after(sv, id)) by {
                let q = pos_after(sv, id);
                if p < sorted@.len() {
                    assert(sv[p as int] == sorted@[p as int]@);
                    assert(sv[p as int].id > id);
                }
                if q < p {
                    assert(sv[q].id <= id);
                }
                if q > p {
                    assert(sv[p as int].id <= id);
                }
            }
            assert(merged.take(i + 1).drop_last() =~= merged.take(i as int));
            assert(merged[i as int] == base@[i as int]@);
        }
        let ghost before = nations_view(sorted@);
        sorted.insert(p, base[i].copy());
        proof {
            assert(nations_view(sorted@) =~= before.insert(p as int, merged[i as int]));
        }
        i += 1;
    }
    proof {
        assert(merged.take(base@.len() as int) =~= merged);
        lemma_sort_sorted(merged);
    }
    *base = sorted;
}


/// A row of the nations table: at least nine fields split at tabs, the
/// number, era and liked terrain reading as numbers. The fields are the
/// number, name, epithet, era, liked terrain (a signed number taken as its
/// bits), and whether it lives underwater, on a coast, in caves (a number,
/// 0 where it does not read) and by rivers; a flag is set unless it is `0`.
pub open spec fn table_row(line: Seq<char>) -> Option<NationView> {
    let f = split_on(line, '\t');
    if f.len() < 9 {
        None
    } else {
        match (parse_u32(f[0]), parse_u8(f[3]), parse_i64(f[4])) {
            (Some(id), Some(era), Some(lt)) => Some(
                NationView {
                    id,
                    name: f[1],
                    epithet: f[2],
                    era,
                    likesterr: lt as u64,
                    uw: f[5] != seq!['0'],
                    coast: f[6] != seq!['0'],
                    cave: match parse_u8(f[7]) {
                        Some(c) => c,
                        None => 0,
                    },
                    river: f[8] != seq!['0'],
                    from_mod: false,
                },
            ),
            _ => None,
        }
    }
}

/// The nations of the rows that read, in their order.
pub open spec fn table_rows(lines: Seq<Seq<char>>) -> Seq<NationView>
    decreases lines.len(),
{
    if lines.len() == 0 {
        Seq::empty()
    } else {
        match table_row(lines.last()) {
            Some(n) => table_rows(lines.drop_last()).push(n),
            None => table_rows(lines.drop_last()),
        }
    }
}

/// The nations of the game's table: its lines after the first, the header,
/// each row that reads.
pub open spec fn spec_nations_table(text: Seq<char>) -> Seq<NationView> {
    let ls = lines_of(text);
    if ls.len() == 0 {
        Seq::empty()
    } else {
        table_rows(ls.drop_first())
    }
}

fn is_zero_field(f: &Vec<char>) -> (b: bool)
    ensures
        b == (f@ == seq!['0']),
{
    if f.len() == 1 && f[0] == '0' {
        assert(f@ =~= seq!['0']);
        true
    } else {
        false
    }
}

fn to_u8(s: &[char]) -> (r: Option<u8>)
    ensures
        r == parse_u8(s@),
{
    match to_u32(s) {
        Some(v) => if v <= 255 {
            Some(v as u8)
        } else {
            None
        },
        None => None,
    }
}

fn read_row(line: &[char]) -> (r: Option<Nation>)
    ensures
        match table_row(line@) {
            Some(n) => r is Some && r->0@ == n,
            None => r is None,
        },
{
    let f = split_chars(line, '\t');
    proof {
        assert(seqs_of(f@).len() == f@.len());
        assert forall|k: int| 0 <= k < f@.len() implies #[trigger] seqs_of(f@)[k] == f@[k]@ by {}
    }
    if f.len() < 9 {
        return None;
    }
    let id = match to_u32(f[0].as_slice()) {
        Some(v) => v,
        None => {
            return None;
        },
    };
    let era = match to_u8(f[3].as_slice()) {
        Some(v) => v,
        None => {
            return None;
        },
    };
    let lt = match to_i64(f[4].as_slice()) {
        Some(v) => v,
        None => {
            return None;
        },
    };
    let cave = match to_u8(f[7].as_slice()) {
        Some(c) => c,
        None => 0,
    };
    Some(
        Nation {
            id,
            name: string_from(f[1].as_slice()),
            epithet: string_from(f[2].as_slice()),
            era,
            likesterr: lt as u64,
            uw: !is_zero_field(&f[5]),
            coast: !is_zero_field(&f[6]),
            cave,
            river: !is_zero_field(&f[8]),
            from_mod: false,
        },
    )
}

/// Reads the game's nations from the text of its table: a header line,
/// then a row for each nation, its fields split at tabs.
pub fn parse_nations_table(text: &str) -> (r: Vec<Nation>)
    ensures
        nations_view(r@) == spec_nations_table(text@),
{
    let cs = chars_of(text);
    let lines = split_lines(cs.as_slice());
    let ghost ls = seqs_of(lines@);
    let mut out: Vec<Nation> = Vec::new();
    if lines.len() == 0 {
        return out;
    }
    let mut k: usize = 1;
    assert(ls.drop_first().take(0) =~= Seq::<Seq<char>>::empty());
    while k < lines.len()
        invariant
            1 <= k <= lines@.len(),
            ls == seqs_of(lines@),
            ls.len() == lines@.len(),
            nations_view(out@) == table_rows(ls.drop_first().take(k - 1)),
        decreases lines@.len() - k,
    {
        let ghost before = out@;
        let row = read_row(lines[k].as_slice());
        proof {
            let t = ls.drop_first().take(k as int);
            assert(t.drop_last() =~= ls.drop_first().take(k - 1));
            assert(t.last() == lines@[k as int]@);
        }
        match row {
            Some(n) => {
                out.push(n);
                assert(nations_view(out@) =~= nations_view(before).push(out@[out@.len() - 1]@));
            },
            None => {},
        }
        k += 1;
    }
    assert(ls.drop_first().take(ls.len() - 1) =~= ls.drop_first());
    out
}

} // verus!
