//! Renaming a map so that its picture's name holds none of the words the
//! game strips when it looks for terrain art.
use vstd::prelude::*;
use crate::imagemap::{first_trap, name_trap, STRIPPED_WORDS};
use crate::text::{
    chars_of, contains, ends_with, find, join, join_chars, lemma_find_some, lemma_replace_first_len,
    replace_all, replace_chars, replace_first, replace_first_chars, split_chars, split_on,
    starts_with, has_prefix, seqs_of, string_from, strip_cr, strip_cr_at, sub_chars, trim_start,
    trim_start_at, find_chars, extend_chars,
};

use crate::paths::{file_stem, file_name_of, stem_and_ext_of};
use crate::mapfile::{strip_plane_suffix, spec_strip_plane_suffix};
use crate::wire::lossy_utf8;
use crate::mapfile::opt_view;
use crate::paths::{extension, file_name};
use crate::map_chooser::{simple_part, simple_path};
use crate::text::{string_of, push_str, has_suffix};

verus! {

/// The first stripped word that stands in a name, if any.
pub fn trap_in(name: &str) -> (r: Option<&'static str>)
    ensures
        match first_trap(name@, 0) {
            Some(k) => r == Some(STRIPPED_WORDS@[k as int]),
            None => r is None,
        },
{
    name_trap(name)
}

/// Every stripped word is an underscore and at least one more character.
pub proof fn lemma_stripped_words()
    ensures
        forall|k: int| 0 <= k < 17 ==> #[trigger] STRIPPED_WORDS@[k]@.len() >= 2 && STRIPPED_WORDS@[k]@[0] == '_',
{
    reveal_strlit("_forestw");
    reveal_strlit("_forest");
    reveal_strlit("_plainw");
    reveal_strlit("_plain");
    reveal_strlit("_kelpw");
    reveal_strlit("_kelp");
    reveal_strlit("_highlandw");
    reveal_strlit("_highland");
    reveal_strlit("_farmw");
    reveal_strlit("_farm");
    reveal_strlit("_swampw");
    reveal_strlit("_swamp");
    reveal_strlit("_wastew");
    reveal_strlit("_waste");
    reveal_strlit("_waterw");
    reveal_strlit("_water");
    reveal_strlit("_winter");
}

pub proof fn lemma_first_trap(name: Seq<char>, k: nat)
    ensures
        first_trap(name, k) matches Some(t) ==> k <= t < 17 && contains(name, STRIPPED_WORDS@[t as int]@),
    decreases 17 - k,
{
    if k < 17 && !contains(name, STRIPPED_WORDS@[k as int]@) {
        lemma_first_trap(name, k + 1);
    }
}

/// A base name with every stripped word defused: while a word stands in it,
/// its first occurrence loses the word's leading underscore.
pub open spec fn spec_safe_base(s: Seq<char>) -> Seq<char>
    decreases s.len(),
{
    match first_trap(s, 0) {
        Some(k) => {
            let w = STRIPPED_WORDS@[k as int]@;
            proof {
                lemma_first_trap(s, 0);
                lemma_stripped_words();
                lemma_replace_first_len(s, w, w.drop_first());
            }
            spec_safe_base(replace_first(s, w, w.drop_first()))
        },
        None => s,
    }
}

/// A base name that holds none of the stripped words.
pub fn safe_base(base: &str) -> (s: String)
    ensures
        s@ == spec_safe_base(base@),
{
    let mut out = chars_of(base);
    loop
        invariant
            spec_safe_base(out@) == spec_safe_base(base@),
        decreases out@.len(),
    {
        let text = string_from(out.as_slice());
        match trap_in(text.as_str()) {
            None => {
                return text;
            },
            Some(word) => {
                let w = chars_of(word);
                let ghost k = first_trap(out@, 0)->0;
                proof {
                    lemma_first_trap(out@, 0);
                    lemma_stripped_words();
                    assert(w@ == STRIPPED_WORDS@[k as int]@);
                    lemma_replace_first_len(out@, w@, w@.drop_first());
                }
                let rest = sub_chars_from_one(w.as_slice());
                out = replace_first_chars(out.as_slice(), w.as_slice(), rest.as_slice());
            },
        }
    }
}

fn sub_chars_from_one(w: &[char]) -> (r: Vec<char>)
    requires
        w@.len() >= 1,
    ensures
        r@ == w@.drop_first(),
{
    let r = sub_chars(w, 1, w.len());
    assert(r@ =~= w@.drop_first());
    r
}

/// A file name of the map under its new base name: the old base name and
/// what follows it, when that starts with `.` or `_`.
pub open spec fn spec_renamed(file_name: Seq<char>, old: Seq<char>, new: Seq<char>) -> Option<Seq<char>> {
    if starts_with(file_name, old) {
        let rest = file_name.skip(old.len() as int);
        if rest.len() > 0 && (rest[0] == '.' || rest[0] == '_') {
            Some(new + rest)
        } else {
            None
        }
    } else {
        None
    }
}

/// The name a file of the map gets under the new base name, if it belongs to the map.
pub fn renamed(file_name: &str, old: &str, new: &str) -> (r: Option<String>)
    ensures
        match spec_renamed(file_name@, old@, new@) {
            Some(s) => r is Some && r->0@ == s,
            None => r is None,
        },
{
    let f = chars_of(file_name);
    let o = chars_of(old);
    if !has_prefix(f.as_slice(), o.as_slice()) {
        return None;
    }
    let rest = sub_chars(f.as_slice(), o.len(), f.len());
    assert(rest@ =~= file_name@.skip(old@.len() as int));
    if rest.len() > 0 && (rest[0] == '.' || rest[0] == '_') {
        let mut out = chars_of(new);
        extend_chars(&mut out, rest.as_slice());
        Some(string_from(out.as_slice()))
    } else {
        None
    }
}

/// Whether a line of a map file names the map's picture or title.
pub open spec fn names_the_map(line: Seq<char>) -> bool {
    let head = trim_start(line);
    starts_with(head, "#imagefile"@) || starts_with(head, "#winterimagefile"@) || starts_with(head, "#dom2title"@)
}

/// A line of a map file after the map is renamed: its carriage returns at the
/// end dropped, and the old base name replaced where it names the map.
pub open spec fn rewritten_line(raw: Seq<char>, old: Seq<char>, new: Seq<char>) -> Seq<char> {
    let line = strip_cr(raw);
    if names_the_map(line) {
        replace_all(line, old, new)
    } else {
        line
    }
}

/// Renaming touches exactly the lines that name the map: a line whose text,
/// after its leading blanks, begins `#imagefile`, `#winterimagefile` or
/// `#dom2title` comes out with every old base name in it replaced by the new
/// one; any other line comes out as it was. Either way the carriage returns
/// at its end are dropped.
pub proof fn lemma_renaming_rewrites_the_lines_naming_the_map(raw: Seq<char>, old: Seq<char>, new: Seq<char>)
    ensures
        starts_with(trim_start(strip_cr(raw)), "#winterimagefile"@) ==> rewritten_line(raw, old, new)
            == replace_all(strip_cr(raw), old, new),
        starts_with(trim_start(strip_cr(raw)), "#imagefile"@) ==> rewritten_line(raw, old, new) == replace_all(
            strip_cr(raw),
            old,
            new,
        ),
        starts_with(trim_start(strip_cr(raw)), "#dom2title"@) ==> rewritten_line(raw, old, new) == replace_all(
            strip_cr(raw),
            old,
            new,
        ),
        !starts_with(trim_start(strip_cr(raw)), "#winterimagefile"@) && !starts_with(
            trim_start(strip_cr(raw)),
            "#imagefile"@,
        ) && !starts_with(trim_start(strip_cr(raw)), "#dom2title"@) ==> rewritten_line(raw, old, new)
            == strip_cr(raw),
{
}

/// The line ending a text uses: `\r\n` when it holds one anywhere, else `\n`.
pub open spec fn newline_of(text: Seq<char>) -> Seq<char> {
    if contains(text, seq!['\r', '\n']) {
        seq!['\r', '\n']
    } else {
        seq!['\n']
    }
}

/// A map file's text after the map is renamed.
pub open spec fn spec_rewrite_map_text(text: Seq<char>, old: Seq<char>, new: Seq<char>) -> Seq<char> {
    join(split_on(text, '\n').map_values(|raw: Seq<char>| rewritten_line(raw, old, new)), newline_of(text))
}

fn rewrite_line(raw: &[char], old: &[char], new: &[char]) -> (r: Vec<char>)
    ensures
        r@ == rewritten_line(raw@, old@, new@),
{
    let end = strip_cr_at(raw);
    let line = sub_chars(raw, 0, end);
    assert(line@ =~= strip_cr(raw@));
    let a = trim_start_at(line.as_slice());
    let head = sub_chars(line.as_slice(), a, line.len());
    assert(head@ =~= trim_start(line@));
    let c1 = chars_of("#imagefile");
    let c2 = chars_of("#winterimagefile");
    let c3 = chars_of("#dom2title");
    let named = has_prefix(head.as_slice(), c1.as_slice()) || has_prefix(head.as_slice(), c2.as_slice())
        || has_prefix(head.as_slice(), c3.as_slice());
    if named {
        replace_chars(line.as_slice(), old, new)
    } else {
        line
    }
}

/// A map file's bytes after the map is renamed, the bytes taken as UTF-8
/// with what is not UTF-8 replaced.
pub fn rewrite_map_bytes(bytes: &[u8], old: &str, new: &str) -> (s: String)
    ensures
        s@ == spec_rewrite_map_text(lossy_utf8(bytes@), old@, new@),
{
    let text = crate::wire::string_from_utf8_lossy(bytes);
    rewrite_map_text(text.as_str(), old, new)
}

/// A map file's text with the old base name replaced by the new one in the
/// lines that name the map's picture or title.
pub fn rewrite_map_text(text: &str, old: &str, new: &str) -> (s: String)
    ensures
        s@ == spec_rewrite_map_text(text@, old@, new@),
{
    let t = chars_of(text);
    let o = chars_of(old);
    let n = chars_of(new);
    let crlf = vec!['\r', '\n'];
    let nl: Vec<char> = if crate::text::contains_chars(t.as_slice(), crlf.as_slice()) {
        vec!['\r', '\n']
    } else {
        vec!['\n']
    };
    assert(crlf@ =~= seq!['\r', '\n']);
    assert(nl@ =~= newline_of(text@));
    let raws = split_chars(t.as_slice(), '\n');
    let mut lines: Vec<Vec<char>> = Vec::new();
    let mut i: usize = 0;
    while i < raws.len()
        invariant
            i <= raws@.len(),
            o@ == old@,
            n@ == new@,
            seqs_of(raws@) == split_on(text@, '\n'),
            seqs_of(lines@) == seqs_of(raws@.take(i as int)).map_values(|raw: Seq<char>| rewritten_line(raw, old@, new@)),
        decreases raws@.len() - i,
    {
        let l = rewrite_line(raws[i].as_slice(), o.as_slice(), n.as_slice());
        let ghost before = lines@;
        lines.push(l);
        proof {
            let f = |raw: Seq<char>| rewritten_line(raw, old@, new@);
            assert(seqs_of(raws@.take(i + 1)) =~= seqs_of(raws@.take(i as int)).push(raws@[i as int]@));
            assert(seqs_of(lines@) =~= seqs_of(before).push(l@));
            assert(seqs_of(raws@.take(i + 1)).map_values(f) =~= seqs_of(raws@.take(i as int)).map_values(f).push(f(raws@[i as int]@)));
        }
        i += 1;
    }
    assert(raws@.take(raws@.len() as int) =~= raws@);
    let out = join_chars(&lines, nl.as_slice());
    string_from(out.as_slice())
}


/// The base name of a map file: its stem without the plane suffix.
pub fn base_of(map_path: &str) -> (r: Option<String>)
    ensures
        match file_stem(map_path@) {
            Some(st) => r is Some && r->0@ == spec_strip_plane_suffix(st).0,
            None => r is None,
        },
{
    match file_name_of(map_path) {
        Some(n) => {
            let (stem, _) = stem_and_ext_of(&n);
            let st = string_from(stem.as_slice());
            Some(strip_plane_suffix(st.as_str()).0)
        },
        None => None,
    }
}


/// A rename of a map's files: the name taken off and the one put on, the
/// files to move (from, to), and the map files to rewrite where they are.
pub struct Plan {
    pub old: String,
    pub new: String,
    pub moves: Vec<(String, String)>,
    pub rewrite: Vec<String>,
}

/// A plan as plain values.
pub struct PlanView {
    pub old: Seq<char>,
    pub new: Seq<char>,
    pub moves: Seq<(Seq<char>, Seq<char>)>,
    pub rewrite: Seq<Seq<char>>,
}

impl View for Plan {
    type V = PlanView;

    open spec fn view(&self) -> PlanView {
        PlanView {
            old: self.old@,
            new: self.new@,
            moves: self.moves@.map_values(|m: (String, String)| (m.0@, m.1@)),
            rewrite: self.rewrite@.map_values(|r: String| r@),
        }
    }
}

/// Which part of a plan is being carried out: checking that no file is in
/// the way, rewriting the maps that stay, moving the files, or done.
#[derive(Clone, Copy, PartialEq, Eq, Debug, Structural)]
pub enum Stage {
    Check,
    Rewrite,
    Move,
    Finished,
}

/// Where carrying out a plan stands: the stage, the item of it, what was
/// asked for that item (0 nothing yet), and the first plane's map so far.
pub struct Applying {
    pub stage: Stage,
    pub index: usize,
    pub step: u8,
    pub first_map: Option<String>,
}

/// Where carrying out a plan stands, as plain values.
pub struct ApplyingView {
    pub stage: Stage,
    pub index: nat,
    pub step: u8,
    pub first_map: Option<Seq<char>>,
}

impl View for Applying {
    type V = ApplyingView;

    open spec fn view(&self) -> ApplyingView {
        ApplyingView {
            stage: self.stage,
            index: self.index as nat,
            step: self.step,
            first_map: opt_view(self.first_map),
        }
    }
}

/// What the files answered to the last thing asked.
pub enum Answer {
    Started,
    Exists(bool),
    Read(Vec<u8>),
    Done,
    Failed(String),
}

/// What the files answered, as plain values.
pub enum AnswerView {
    Started,
    Exists(bool),
    Read(Seq<u8>),
    Done,
    Failed(Seq<char>),
}

impl View for Answer {
    type V = AnswerView;

    open spec fn view(&self) -> AnswerView {
        match self {
            Answer::Started => AnswerView::Started,
            Answer::Exists(b) => AnswerView::Exists(*b),
            Answer::Read(b) => AnswerView::Read(b@),
            Answer::Done => AnswerView::Done,
            Answer::Failed(e) => AnswerView::Failed(e@),
        }
    }
}

/// What to do next with the files.
pub enum Todo {
    AskExists(String),
    Read(String),
    WriteWithBackup(String, String),
    Write(String, String),
    Rename(String, String),
    Finish(Result<String, String>),
}

/// What to do next, as plain values.
pub enum TodoView {
    AskExists(Seq<char>),
    Read(Seq<char>),
    WriteWithBackup(Seq<char>, Seq<char>),
    Write(Seq<char>, Seq<char>),
    Rename(Seq<char>, Seq<char>),
    Finish(Result<Seq<char>, Seq<char>>),
}

impl View for Todo {
    type V = TodoView;

    open spec fn view(&self) -> TodoView {
        match self {
            Todo::AskExists(p) => TodoView::AskExists(p@),
            Todo::Read(p) => TodoView::Read(p@),
            Todo::WriteWithBackup(p, t) => TodoView::WriteWithBackup(p@, t@),
            Todo::Write(p, t) => TodoView::Write(p@, t@),
            Todo::Rename(a, b) => TodoView::Rename(a@, b@),
            Todo::Finish(Ok(p)) => TodoView::Finish(Ok(p@)),
            Todo::Finish(Err(e)) => TodoView::Finish(Err(e@)),
        }
    }
}

/// A file of the map's first plane: its stem carries no plane number past
/// the first.
pub open spec fn first_plane_file(path: Seq<char>) -> bool {
    spec_strip_plane_suffix(
        match file_stem(path) {
            Some(s) => s,
            None => Seq::empty(),
        },
    ).1 == 1
}

/// A map file by its extension: `map`, in any ASCII case.
pub open spec fn is_map_file(path: Seq<char>) -> bool {
    match extension(path) {
        Some(e) => e.len() == 3 && (e[0] == 'm' || e[0] == 'M') && (e[1] == 'a' || e[1] == 'A') && (e[2]
            == 'p' || e[2] == 'P'),
        None => false,
    }
}

/// The state and the first thing to ask for item `i` of a stage, going on
/// to the next stage, or to the end, where the stage has no such item.
pub open spec fn begin_item(p: PlanView, stage: Stage, i: nat, first: Option<Seq<char>>) -> (ApplyingView, TodoView) {
    let check_done = stage != Stage::Check || i >= p.moves.len();
    let j = if stage == Stage::Check { 0 } else { i };
    let rewrite_done = stage == Stage::Move || (check_done && j >= p.rewrite.len());
    let k = if stage == Stage::Move { i } else { 0 };
    if !check_done {
        (ApplyingView { stage: Stage::Check, index: i, step: 1, first_map: first }, TodoView::AskExists(p.moves[i as int].1))
    } else if !rewrite_done {
        (ApplyingView { stage: Stage::Rewrite, index: j, step: 1, first_map: first }, TodoView::Read(p.rewrite[j as int]))
    } else if k < p.moves.len() {
        if is_map_file(p.moves[k as int].1) {
            (ApplyingView { stage: Stage::Move, index: k, step: 1, first_map: first }, TodoView::Read(p.moves[k as int].0))
        } else {
            (
                ApplyingView { stage: Stage::Move, index: k, step: 4, first_map: first },
                TodoView::Rename(p.moves[k as int].0, p.moves[k as int].1),
            )
        }
    } else {
        (
            ApplyingView { stage: Stage::Finished, index: 0, step: 0, first_map: first },
            TodoView::Finish(
                match first {
                    Some(m) => Ok(m),
                    None => Err("no .map among the renamed files"@),
                },
            ),
        )
    }
}

/// Carrying out a plan stopped with an error.
pub open spec fn stopped(first: Option<Seq<char>>, e: Seq<char>) -> (ApplyingView, TodoView) {
    (ApplyingView { stage: Stage::Finished, index: 0, step: 0, first_map: first }, TodoView::Finish(Err(e)))
}

/// The next state and what to do, given what the files answered. First
/// each move's target is checked, and any that exists stops the plan before
/// anything changes. Then each map to rewrite is read, rewritten for the new
/// name and written back, a backup kept; a map of the first plane is noted.
/// Then each file moves: a map is read, rewritten and written to its new
/// place, and the old file becomes its backup (the first map of the first
/// plane among them is noted where none was); any other file is renamed.
/// Last, the first plane's map is the result, or an error where there is
/// none. A failure stops the plan with its message.
pub open spec fn spec_apply_step(p: PlanView, st: ApplyingView, a: AnswerView) -> (ApplyingView, TodoView) {
    let i = st.index;
    match a {
        AnswerView::Failed(e) => stopped(st.first_map, e),
        AnswerView::Started => begin_item(p, Stage::Check, 0, None),
        AnswerView::Exists(b) => if st.stage == Stage::Check && st.step == 1 {
            if b {
                stopped(st.first_map, p.moves[i as int].1 + " already exists"@)
            } else {
                begin_item(p, Stage::Check, i + 1, st.first_map)
            }
        } else {
            stopped(st.first_map, "unexpected answer"@)
        },
        AnswerView::Read(bytes) => if st.stage == Stage::Rewrite && st.step == 1 {
            (
                ApplyingView { step: 2, ..st },
                TodoView::WriteWithBackup(
                    p.rewrite[i as int],
                    spec_rewrite_map_text(lossy_utf8(bytes), p.old, p.new),
                ),
            )
        } else if st.stage == Stage::Move && st.step == 1 {
            (
                ApplyingView { step: 2, ..st },
                TodoView::Write(p.moves[i as int].1, spec_rewrite_map_text(lossy_utf8(bytes), p.old, p.new)),
            )
        } else {
            stopped(st.first_map, "unexpected answer"@)
        },
        AnswerView::Done => if st.stage == Stage::Rewrite && st.step == 2 {
            let m = p.rewrite[i as int];
            begin_item(p, Stage::Rewrite, i + 1, if first_plane_file(m) { Some(m) } else { st.first_map })
        } else if st.stage == Stage::Move && st.step == 2 {
            (
                ApplyingView { step: 3, ..st },
                TodoView::Rename(p.moves[i as int].0, p.moves[i as int].0 + ".bak"@),
            )
        } else if st.stage == Stage::Move && st.step == 3 {
            let to = p.moves[i as int].1;
            begin_item(
                p,
                Stage::Move,
                i + 1,
                if first_plane_file(to) && st.first_map is None { Some(to) } else { st.first_map },
            )
        } else if st.stage == Stage::Move && st.step == 4 {
            begin_item(p, Stage::Move, i + 1, st.first_map)
        } else {
            stopped(st.first_map, "unexpected answer"@)
        },
    }
}

/// A state that a plan can stand in: an item of its stage, once something
/// was asked for it.
pub open spec fn applying_ok(p: PlanView, st: ApplyingView) -> bool {
    &&& st.stage == Stage::Check && st.step != 0 ==> st.index < p.moves.len()
    &&& st.stage == Stage::Rewrite && st.step != 0 ==> st.index < p.rewrite.len()
    &&& st.stage == Stage::Move && st.step != 0 ==> st.index < p.moves.len()
}

/// Whether a path names a map file by its extension: `map` in any ASCII case.
pub fn is_map_path(path: &str) -> (b: bool)
    ensures
        b == is_map_file(path@),
{
    match file_name_of(path) {
        Some(n) => {
            let (_, ext) = stem_and_ext_of(&n);
            match ext {
                Some(e) => e.len() == 3 && (e[0] == 'm' || e[0] == 'M') && (e[1] == 'a' || e[1] == 'A')
                    && (e[2] == 'p' || e[2] == 'P'),
                None => false,
            }
        },
        None => false,
    }
}

fn is_first_plane_file(path: &str) -> (b: bool)
    ensures
        b == first_plane_file(path@),
{
    let stem = crate::map_chooser::name_of(path);
    let (_, n) = strip_plane_suffix(stem.as_str());
    n == 1
}

fn begin_exec(p: &Plan, stage: Stage, i: usize, first: Option<String>) -> (r: (Applying, Todo))
    requires
        stage != Stage::Finished,
        stage == Stage::Check ==> i <= p.moves@.len(),
        stage == Stage::Rewrite ==> i <= p.rewrite@.len(),
        stage == Stage::Move ==> i <= p.moves@.len(),
    ensures
        (r.0@, r.1@) == begin_item(p@, stage, i as nat, opt_view(first)),
        applying_ok(p@, r.0@),
{
    let ghost pv = p@;
    if stage == Stage::Check && i < p.moves.len() {
        let to = string_of(p.moves[i].1.as_str());
        return (Applying { stage: Stage::Check, index: i, step: 1, first_map: first }, Todo::AskExists(to));
    }
    let j: usize = if stage == Stage::Check { 0 } else { i };
    if stage != Stage::Move && j < p.rewrite.len() {
        let m = string_of(p.rewrite[j].as_str());
        return (Applying { stage: Stage::Rewrite, index: j, step: 1, first_map: first }, Todo::Read(m));
    }
    let k: usize = if stage == Stage::Move { i } else { 0 };
    if k < p.moves.len() {
        let from = string_of(p.moves[k].0.as_str());
        let to = string_of(p.moves[k].1.as_str());
        if is_map_path(p.moves[k].1.as_str()) {
            (Applying { stage: Stage::Move, index: k, step: 1, first_map: first }, Todo::Read(from))
        } else {
            (Applying { stage: Stage::Move, index: k, step: 4, first_map: first }, Todo::Rename(from, to))
        }
    } else {
        let out = match first {
            Some(m) => {
                let r: Result<String, String> = Ok(string_of(m.as_str()));
                (Applying { stage: Stage::Finished, index: 0, step: 0, first_map: Some(m) }, Todo::Finish(r))
            },
            None => (
                Applying { stage: Stage::Finished, index: 0, step: 0, first_map: None },
                Todo::Finish(Err(string_of("no .map among the renamed files"))),
            ),
        };
        out
    }
}

fn stop_exec(first: Option<String>, e: String) -> (r: (Applying, Todo))
    ensures
        (r.0@, r.1@) == stopped(opt_view(first), e@),
{
    (Applying { stage: Stage::Finished, index: 0, step: 0, first_map: first }, Todo::Finish(Err(e)))
}

/// One step of carrying out a plan: the next state and what to do, given
/// what the files answered to the last thing asked (`Started` at first).
pub fn apply_step(p: &Plan, st: Applying, a: Answer) -> (r: (Applying, Todo))
    requires
        applying_ok(p@, st@),
    ensures
        (r.0@, r.1@) == spec_apply_step(p@, st@, a@),
        applying_ok(p@, r.0@),
{
    let i = st.index;
    let _nm = p.moves.len();
    let _nr = p.rewrite.len();
    match a {
        Answer::Failed(e) => stop_exec(st.first_map, e),
        Answer::Started => begin_exec(p, Stage::Check, 0, None),
        Answer::Exists(b) => {
            if st.stage == Stage::Check && st.step == 1 {
                if b {
                    let mut msg = string_of(p.moves[i].1.as_str());
                    push_str(&mut msg, " already exists");
                    stop_exec(st.first_map, msg)
                } else {
                    begin_exec(p, Stage::Check, i + 1, st.first_map)
                }
            } else {
                stop_exec(st.first_map, string_of("unexpected answer"))
            }
        },
        Answer::Read(bytes) => {
            if st.stage == Stage::Rewrite && st.step == 1 {
                let text = rewrite_map_bytes(bytes.as_slice(), p.old.as_str(), p.new.as_str());
                let m = string_of(p.rewrite[i].as_str());
                (Applying { step: 2, ..st }, Todo::WriteWithBackup(m, text))
            } else if st.stage == Stage::Move && st.step == 1 {
                let text = rewrite_map_bytes(bytes.as_slice(), p.old.as_str(), p.new.as_str());
                let to = string_of(p.moves[i].1.as_str());
                (Applying { step: 2, ..st }, Todo::Write(to, text))
            } else {
                stop_exec(st.first_map, string_of("unexpected answer"))
            }
        },
        Answer::Done => {
            if st.stage == Stage::Rewrite && st.step == 2 {
                let m = p.rewrite[i].as_str();
                let first = if is_first_plane_file(m) {
                    Some(string_of(m))
                } else {
                    st.first_map
                };
                begin_exec(p, Stage::Rewrite, i + 1, first)
            } else if st.stage == Stage::Move && st.step == 2 {
                let from = string_of(p.moves[i].0.as_str());
                let mut bak = string_of(p.moves[i].0.as_str());
                push_str(&mut bak, ".bak");
                (Applying { step: 3, ..st }, Todo::Rename(from, bak))
            } else if st.stage == Stage::Move && st.step == 3 {
                let to = p.moves[i].1.as_str();
                let first = if is_first_plane_file(to) && st.first_map.is_none() {
                    Some(string_of(to))
                } else {
                    st.first_map
                };
                begin_exec(p, Stage::Move, i + 1, first)
            } else if st.stage == Stage::Move && st.step == 4 {
                begin_exec(p, Stage::Move, i + 1, st.first_map)
            } else {
                stop_exec(st.first_map, string_of("unexpected answer"))
            }
        },
    }
}


/// The name a file gets under the new base name, where it moves: it has a
/// file name, not a backup's, that starts with the old base name followed
/// by `.` or `_`.
pub open spec fn new_name_of(f: Seq<char>, old: Seq<char>, new: Seq<char>) -> Option<Seq<char>> {
    match file_name(f) {
        Some(n) => if ends_with(n, ".bak"@) {
            None
        } else {
            spec_renamed(n, old, new)
        },
        None => None,
    }
}

/// The files that move, in the order given.
pub open spec fn moving(files: Seq<Seq<char>>, old: Seq<char>, new: Seq<char>) -> Seq<Seq<char>>
    decreases files.len(),
{
    if files.len() == 0 {
        Seq::empty()
    } else {
        let r = moving(files.drop_last(), old, new);
        if new_name_of(files.last(), old, new) is Some {
            r.push(files.last())
        } else {
            r
        }
    }
}

/// A move of a file to its new name: the file moves, and where its path is
/// written with `/` only, it goes to the same folder under the new name.
pub open spec fn moved_right(m: (Seq<char>, Seq<char>), old: Seq<char>, new: Seq<char>) -> bool {
    match new_name_of(m.0, old, new) {
        Some(n) => {
            &&& simple_part(m.0) && simple_part(n) ==> m.1 == n
            &&& forall|dir: Seq<char>, last: Seq<char>|
                simple_path(dir) && simple_part(last) && simple_part(n) && #[trigger] (dir + "/"@ + last) == m.0
                    ==> m.1 == dir + "/"@ + n
        },
        None => false,
    }
}

/// The maps that no file moving leaves: those that are not among the files
/// moving, in their order.
pub open spec fn kept_maps(maps: Seq<Seq<char>>, froms: Seq<Seq<char>>) -> Seq<Seq<char>>
    decreases maps.len(),
{
    if maps.len() == 0 {
        Seq::empty()
    } else {
        let r = kept_maps(maps.drop_last(), froms);
        if froms.contains(maps.last()) {
            r
        } else {
            r.push(maps.last())
        }
    }
}

/// The texts of some strings.
pub open spec fn texts_of(v: Seq<String>) -> Seq<Seq<char>> {
    v.map_values(|s: String| s@)
}

/// `Path::with_file_name`: the path with its file name set to `name`. How a
/// path splits into components depends on the platform's separators, so
/// only this is claimed: a path that is one simple part becomes the name,
/// and a simple path, a `/` and a simple part becomes that path, a `/` and
/// the name, where the name is a simple part.
#[verifier::external_body]
fn path_with_file_name(path: &str, name: &str) -> (r: String)
    ensures
        simple_part(path@) && simple_part(name@) ==> r@ == name@,
        forall|dir: Seq<char>, last: Seq<char>|
            simple_path(dir) && simple_part(last) && simple_part(name@) && #[trigger] (dir + "/"@ + last)
                == path@ ==> r@ == dir + "/"@ + name@,
{
    std::path::Path::new(path).with_file_name(name).to_string_lossy().into_owned()
}

/// Whether one path sorts before another, as `Path`'s order has it, by
/// their components. Only that no path sorts before itself is claimed.
#[verifier::external_body]
pub(crate) fn path_before(a: &str, b: &str) -> (r: bool)
    ensures
        a@ == b@ ==> !r,
{
    std::path::Path::new(a) < std::path::Path::new(b)
}

/// Whether two paths are the same, as `Path`'s equality has it, by their
/// components. Claimed: the same text is the same path, and two paths
/// written with `/` only in simple parts are the same exactly when their
/// texts are.
#[verifier::external_body]
pub(crate) fn same_path(a: &str, b: &str) -> (r: bool)
    ensures
        a@ == b@ ==> r,
        simple_path(a@) && simple_path(b@) ==> (r <==> a@ == b@),
{
    std::path::Path::new(a) == std::path::Path::new(b)
}

/// Whether one move sorts before another: by where it comes from, then by
/// where it goes.
fn move_before(a: &(String, String), b: &(String, String)) -> bool {
    if path_before(a.0.as_str(), b.0.as_str()) {
        true
    } else if path_before(b.0.as_str(), a.0.as_str()) {
        false
    } else {
        path_before(a.1.as_str(), b.1.as_str())
    }
}

/// The moves as plain values.
pub open spec fn moves_view(v: Seq<(String, String)>) -> Seq<(Seq<char>, Seq<char>)> {
    v.map_values(|m: (String, String)| (m.0@, m.1@))
}

/// Where the moves come from.
pub open spec fn froms_of(v: Seq<(Seq<char>, Seq<char>)>) -> Seq<Seq<char>> {
    v.map_values(|m: (Seq<char>, Seq<char>)| m.0)
}

/// Every part of these paths is simple.
pub open spec fn all_simple(ps: Seq<Seq<char>>) -> bool {
    forall|i: int| 0 <= i < ps.len() ==> #[trigger] simple_path(ps[i])
}

/// A plan to rename a map: each of the files that belongs to the map (not a
/// backup) moves to its name under the new base name, the moves sorted by
/// their paths; each of the maps that does not move is rewritten where it
/// is. Claimed of the outside path calls only what holds on every platform:
/// the moves are those of the files that move, each to its new name beside
/// it where its path is written with `/` only; the maps rewritten are maps
/// that do not move, and where all paths are written with `/` only they are
/// exactly those, in their order.
pub fn plan(files: &[String], maps: &[String], old: &str, new: &str) -> (r: Plan)
    ensures
        r@.old == old@,
        r@.new == new@,
        froms_of(r@.moves).to_multiset() == moving(texts_of(files@), old@, new@).to_multiset(),
        forall|i: int| 0 <= i < r@.moves.len() ==> #[trigger] moved_right(r@.moves[i], old@, new@),
        forall|i: int|
            0 <= i < r@.rewrite.len() ==> texts_of(maps@).contains(#[trigger] r@.rewrite[i]) && !froms_of(
                r@.moves,
            ).contains(r@.rewrite[i]),
        all_simple(texts_of(maps@)) && all_simple(froms_of(r@.moves)) ==> r@.rewrite == kept_maps(
            texts_of(maps@),
            froms_of(r@.moves),
        ),
{
    let mut un: Vec<(String, String)> = Vec::new();
    let mut i: usize = 0;
    while i < files.len()
        invariant
            i <= files@.len(),
            froms_of(moves_view(un@)) == moving(texts_of(files@.take(i as int)), old@, new@),
            forall|j: int| 0 <= j < un@.len() ==> #[trigger] moved_right(moves_view(un@)[j], old@, new@),
        decreases files@.len() - i,
    {
        let ghost before = un@;
        let f = files[i].as_str();
        assert(texts_of(files@.take(i + 1)).drop_last() =~= texts_of(files@.take(i as int)));
        assert(texts_of(files@.take(i + 1)).last() == f@);
        match file_name_of(f) {
            Some(n) => {
                let name = string_from(n.as_slice());
                if !has_suffix(n.as_slice(), chars_of(".bak").as_slice()) {
                    match renamed(name.as_str(), old, new) {
                        Some(to) => {
                            let target = path_with_file_name(f, to.as_str());
                            un.push((string_of(f), target));
                            assert(moves_view(un@) =~= moves_view(before).push((f@, target@)));
                            assert(froms_of(moves_view(un@)) =~= froms_of(moves_view(before)).push(f@));
                        },
                        None => {},
                    }
                }
            },
            None => {},
        }
        i += 1;
    }
    assert(files@.take(files@.len() as int) =~= files@);
    let ghost unv = moves_view(un@);
    let mut moves: Vec<(String, String)> = Vec::new();
    let mut k: usize = 0;
    assert(froms_of(moves_view(moves@)) =~= Seq::<Seq<char>>::empty());
    assert(froms_of(unv.take(0)) =~= Seq::<Seq<char>>::empty());
    while k < un.len()
        invariant
            k <= un@.len(),
            unv == moves_view(un@),
            forall|j: int| 0 <= j < unv.len() ==> #[trigger] moved_right(unv[j], old@, new@),
            froms_of(moves_view(moves@)).to_multiset() == froms_of(unv.take(k as int)).to_multiset(),
            forall|j: int| 0 <= j < moves@.len() ==> #[trigger] moved_right(moves_view(moves@)[j], old@, new@),
        decreases un@.len() - k,
    {
        let m = (string_of(un[k].0.as_str()), string_of(un[k].1.as_str()));
        let mut p: usize = 0;
        while p < moves.len() && !move_before(&m, &moves[p])
            invariant
                p <= moves@.len(),
            decreases moves@.len() - p,
        {
            p += 1;
        }
        let ghost old_moves = moves@;
        moves.insert(p, m);
        proof {
            assert(moves_view(moves@) =~= moves_view(old_moves).insert(p as int, unv[k as int]));
            assert(froms_of(moves_view(moves@)) =~= froms_of(moves_view(old_moves)).insert(p as int, unv[k as int].0));
            vstd::seq_lib::to_multiset_insert(froms_of(moves_view(old_moves)), p as int, unv[k as int].0);
            assert(froms_of(unv.take(k + 1)) =~= froms_of(unv.take(k as int)).push(unv[k as int].0));
            vstd::seq_lib::to_multiset_build(froms_of(unv.take(k as int)), unv[k as int].0);
            assert forall|j: int| 0 <= j < moves@.len() implies #[trigger] moved_right(moves_view(moves@)[j], old@, new@) by {
                if j < p {
                    assert(moves_view(moves@)[j] == moves_view(old_moves)[j]);
                } else if j > p {
                    assert(moves_view(moves@)[j] == moves_view(old_moves)[j - 1]);
                }
            }
        }
        k += 1;
    }
    assert(unv.take(unv.len() as int) =~= unv);
    let ghost mv = moves_view(moves@);
    let ghost froms = froms_of(mv);
    let mut rewrite: Vec<String> = Vec::new();
    let mut j: usize = 0;
    while j < maps.len()
        invariant
            j <= maps@.len(),
            mv == moves_view(moves@),
            froms == froms_of(mv),
            forall|t: int|
                0 <= t < rewrite@.len() ==> texts_of(maps@).contains(#[trigger] texts_of(rewrite@)[t])
                    && !froms.contains(texts_of(rewrite@)[t]),
            all_simple(texts_of(maps@)) && all_simple(froms) ==> texts_of(rewrite@) == kept_maps(
                texts_of(maps@.take(j as int)),
                froms,
            ),
        decreases maps@.len() - j,
    {
        let mp = maps[j].as_str();
        let ghost simple_all = all_simple(texts_of(maps@)) && all_simple(froms);
        let mut found = false;
        let mut q: usize = 0;
        while q < moves.len()
            invariant
                q <= moves@.len(),
                j < maps@.len(),
                mp@ == texts_of(maps@)[j as int],
                mv == moves_view(moves@),
                froms == froms_of(mv),
                simple_all == (all_simple(texts_of(maps@)) && all_simple(froms)),
                found && simple_all ==> froms.contains(mp@),
                !found ==> forall|t: int| 0 <= t < q ==> froms[t] != mp@,
            decreases moves@.len() - q,
        {
            if same_path(moves[q].0.as_str(), mp) {
                proof {
                    if simple_all {
                        assert(simple_path(froms[q as int]));
                        assert(simple_path(texts_of(maps@)[j as int]));
                        assert(froms[q as int] == moves@[q as int].0@);
                        assert(froms.contains(mp@));
                    }
                }
                found = true;
            } else {
                assert(froms[q as int] == moves@[q as int].0@);
            }
            q += 1;
        }
        let ghost before = rewrite@;
        proof {
            assert(texts_of(maps@.take(j + 1)).drop_last() =~= texts_of(maps@.take(j as int)));
            assert(texts_of(maps@.take(j + 1)).last() == mp@);
            assert(texts_of(maps@).contains(mp@));
            if !found {
                assert(!froms.contains(mp@));
            }
        }
        if !found {
            rewrite.push(string_of(mp));
            assert(texts_of(rewrite@) =~= texts_of(before).push(mp@));
        }
        j += 1;
    }
    assert(maps@.take(maps@.len() as int) =~= maps@);
    let r = Plan { old: string_of(old), new: string_of(new), moves, rewrite };
    assert(r@.rewrite =~= texts_of(r.rewrite@));
    assert(r@.moves =~= mv);
    r
}

} // verus!
