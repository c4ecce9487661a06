//! Small helpers of the editor's window: shortening long texts for display.
use vstd::prelude::*;
use crate::text::{push_char, string_of, chars_of};

verus! {

/// The text shortened to its last `max - 1` characters after an ellipsis, when
/// it has more than `max` characters and `max` is at least two.
pub open spec fn spec_elide_left(text: Seq<char>, max: nat) -> Seq<char> {
    if text.len() <= max || max < 2 {
        text
    } else {
        seq!['\u{2026}'] + text.skip(text.len() - (max - 1))
    }
}

/// The text, shortened from the left to at most `max` characters.
pub fn elide_left(text: &str, max: usize) -> (s: String)
    ensures
        s@ == spec_elide_left(text@, max as nat),
{
    let chars = chars_of(text);
    if chars.len() <= max || max < 2 {
        return string_of(text);
    }
    let mut s = String::new();
    push_char(&mut s, '\u{2026}');
    let start = chars.len() - (max - 1);
    let mut i = start;
    while i < chars.len()
        invariant
            start <= i <= chars@.len(),
            chars@ == text@,
            start == text@.len() - (max - 1),
            s@ == seq!['\u{2026}'] + text@.subrange(start as int, i as int),
        decreases chars@.len() - i,
    {
        push_char(&mut s, chars[i]);
        assert(text@.subrange(start as int, i + 1) =~= text@.subrange(start as int, i as int).push(chars@[i as int]));
        i += 1;
    }
    assert(text@.subrange(start as int, text@.len() as int) =~= text@.skip(start as int));
    s
}

/// A shortened text is never longer than asked, when at least two characters are allowed.
pub proof fn lemma_elide_left_fits(text: Seq<char>, max: nat)
    requires
        max >= 2,
    ensures
        spec_elide_left(text, max).len() <= max,
{
}

} // verus!

verus! {

/// The editor's tools.
#[derive(Clone, Copy, Debug, PartialEq, Eq, Structural)]
pub enum Tool {
    Select,
    Link,
    Paint,
    Height,
}

/// What the keys can change in the editor: whether the generator is shown
/// and asked to run, the tool, the renaming box, the help, the placing of a
/// capital or a new province, the active plane and how many planes there
/// are, and whether the generator is running.
#[derive(Clone, Copy, Debug, PartialEq, Eq, Structural)]
pub struct KeyState {
    pub generator: bool,
    pub pending_generate: bool,
    pub tool: Tool,
    pub renaming: bool,
    pub show_help: bool,
    pub placing_capital: bool,
    pub placing_new: bool,
    pub active: usize,
    pub planes: usize,
    pub gen_running: bool,
}

/// The keys pressed in a frame, with the modifiers held, and whether a text
/// field has the focus.
#[derive(Clone, Copy, Debug, PartialEq, Eq, Structural)]
pub struct Keys {
    pub typing: bool,
    pub command: bool,
    pub alt: bool,
    pub shift: bool,
    pub n: bool,
    pub g: bool,
    pub z: bool,
    pub y: bool,
    pub s: bool,
    pub o: bool,
    pub l: bool,
    pub p: bool,
    pub h: bool,
    pub home: bool,
    pub escape: bool,
    pub f1: bool,
    pub tab: bool,
    pub f4: bool,
    pub page_down: bool,
    pub page_up: bool,
}

/// What the keys ask the editor to do: randomize the terrain, switch to a
/// plane, undo, redo, save, open a file, fit the map to the view, drop the
/// selection, and report a cancelled placing.
#[derive(Clone, Copy, Debug, PartialEq, Eq, Structural)]
pub struct KeyActions {
    pub randomize: bool,
    pub switch_plane: Option<usize>,
    pub undo: bool,
    pub redo: bool,
    pub save: bool,
    pub open: bool,
    pub fit: bool,
    pub deselect: bool,
    pub cancelled: bool,
}

/// No action at all.
pub open spec fn no_actions() -> KeyActions {
    KeyActions {
        randomize: false,
        switch_plane: None,
        undo: false,
        redo: false,
        save: false,
        open: false,
        fit: false,
        deselect: false,
        cancelled: false,
    }
}

/// The next tool in the cycle that Tab walks.
pub open spec fn next_tool(t: Tool) -> Tool {
    match t {
        Tool::Select => Tool::Link,
        Tool::Link => Tool::Paint,
        Tool::Paint => Tool::Height,
        Tool::Height => Tool::Select,
    }
}

/// The plane a plane key moves to: the next or the previous, round the
/// planes, where there is more than one (the active plane is one of them).
pub open spec fn plane_move(s: KeyState, k: Keys) -> Option<usize> {
    if (k.page_down || k.page_up) && s.planes > 1 {
        Some(
            if k.page_down {
                if s.active + 1 == s.planes {
                    0
                } else {
                    (s.active + 1) as usize
                }
            } else {
                if s.active == 0 {
                    (s.planes - 1) as usize
                } else {
                    (s.active - 1) as usize
                }
            },
        )
    } else {
        None
    }
}

/// Ctrl+N and G bring up the generator (G also asks it to run) unless it
/// is running.
pub open spec fn generator_keys(s: KeyState, k: Keys) -> KeyState {
    let plain = !k.command && !k.alt;
    let s1 = if k.command && k.n && !s.gen_running {
        KeyState { generator: true, ..s }
    } else {
        s
    };
    if plain && k.g && !s1.gen_running {
        KeyState { generator: true, pending_generate: true, ..s1 }
    } else {
        s1
    }
}

/// H and P switch their tool on, or back to Select; S and L pick theirs.
pub open spec fn tool_keys(t0: Tool, k: Keys) -> Tool {
    let plain = !k.command && !k.alt;
    let t1 = if plain && k.h {
        if t0 == Tool::Height {
            Tool::Select
        } else {
            Tool::Height
        }
    } else {
        t0
    };
    let t2 = if plain && k.s {
        Tool::Select
    } else {
        t1
    };
    let t3 = if plain && k.l {
        Tool::Link
    } else {
        t2
    };
    if plain && k.p {
        if t3 == Tool::Paint {
            Tool::Select
        } else {
            Tool::Paint
        }
    } else {
        t3
    }
}

/// What a frame's keys do, in order: nothing while a field takes text;
/// then the generator keys and the tool keys; F4 randomizes; the page keys
/// move between planes; the command keys undo, redo, save and open; Home
/// fits the view; Escape ends renaming, else hides the help, else cancels a
/// placing, else goes back to Select, else drops the selection; F1 shows or
/// hides the help; Tab walks the tools.
pub open spec fn spec_on_keys(s: KeyState, k: Keys) -> (KeyState, KeyActions) {
    if k.typing {
        (s, no_actions())
    } else {
        let s2 = generator_keys(s, k);
        let t4 = tool_keys(s2.tool, k);
        let esc = k.escape;
        let renaming_esc = esc && s2.renaming;
        let help_esc = esc && !s2.renaming && s2.show_help;
        let place_esc = esc && !s2.renaming && !s2.show_help && (s2.placing_capital || s2.placing_new);
        let tool_esc = esc && !s2.renaming && !s2.show_help && !(s2.placing_capital || s2.placing_new)
            && t4 != Tool::Select;
        let deselect = esc && !s2.renaming && !s2.show_help && !(s2.placing_capital || s2.placing_new)
            && t4 == Tool::Select;
        let t5 = if tool_esc {
            Tool::Select
        } else {
            t4
        };
        let help1 = if help_esc {
            false
        } else {
            s2.show_help
        };
        let c = k.command;
        (
            KeyState {
                tool: if k.tab {
                    next_tool(t5)
                } else {
                    t5
                },
                renaming: if renaming_esc {
                    false
                } else {
                    s2.renaming
                },
                show_help: if k.f1 {
                    !help1
                } else {
                    help1
                },
                placing_capital: if place_esc {
                    false
                } else {
                    s2.placing_capital
                },
                placing_new: if place_esc {
                    false
                } else {
                    s2.placing_new
                },
                active: match plane_move(s2, k) {
                    Some(i) => i,
                    None => s2.active,
                },
                ..s2
            },
            KeyActions {
                randomize: k.f4,
                switch_plane: plane_move(s2, k),
                undo: c && k.z && !k.shift,
                redo: c && (k.y || (k.z && k.shift)),
                save: c && k.s,
                open: c && k.o,
                fit: k.home,
                deselect,
                cancelled: place_esc,
            },
        )
    }
}

fn on_generator_keys(s: KeyState, k: Keys) -> (r: KeyState)
    ensures
        r == generator_keys(s, k),
{
    let mut st = s;
    let plain = !k.command && !k.alt;
    if k.command && k.n && !st.gen_running {
        st.generator = true;
    }
    if plain && k.g && !st.gen_running {
        st.generator = true;
        st.pending_generate = true;
    }
    st
}

fn on_tool_keys(t0: Tool, k: Keys) -> (t: Tool)
    ensures
        t == tool_keys(t0, k),
{
    let plain = !k.command && !k.alt;
    let mut t = t0;
    if plain && k.h {
        t = if t == Tool::Height { Tool::Select } else { Tool::Height };
    }
    if plain && k.s {
        t = Tool::Select;
    }
    if plain && k.l {
        t = Tool::Link;
    }
    if plain && k.p {
        t = if t == Tool::Paint { Tool::Select } else { Tool::Paint };
    }
    t
}

fn on_plane_keys(s: KeyState, k: Keys) -> (r: Option<usize>)
    requires
        s.planes > 1 ==> s.active < s.planes,
    ensures
        r == plane_move(s, k),
{
    if (k.page_down || k.page_up) && s.planes > 1 {
        let n = s.planes;
        if k.page_down {
            Some(if s.active + 1 == n { 0 } else { s.active + 1 })
        } else {
            Some(if s.active == 0 { n - 1 } else { s.active - 1 })
        }
    } else {
        None
    }
}

fn tab_tool(t: Tool) -> (r: Tool)
    ensures
        r == next_tool(t),
{
    match t {
        Tool::Select => Tool::Link,
        Tool::Link => Tool::Paint,
        Tool::Paint => Tool::Height,
        Tool::Height => Tool::Select,
    }
}

/// What a frame's keys do to the editor, and what they ask of it.
#[verifier::spinoff_prover]
#[verifier::rlimit(80)]
pub fn on_keys(s: KeyState, k: Keys) -> (r: (KeyState, KeyActions))
    requires
        s.planes > 1 ==> s.active < s.planes,
    ensures
        r == spec_on_keys(s, k),
{
    if k.typing {
        return (s, KeyActions {
            randomize: false,
            switch_plane: None,
            undo: false,
            redo: false,
            save: false,
            open: false,
            fit: false,
            deselect: false,
            cancelled: false,
        });
    }
    let s2 = on_generator_keys(s, k);
    let t4 = on_tool_keys(s2.tool, k);
    let plane = on_plane_keys(s2, k);
    let esc = k.escape;
    let renaming_esc = esc && s2.renaming;
    let help_esc = esc && !s2.renaming && s2.show_help;
    let place_esc = esc && !s2.renaming && !s2.show_help && (s2.placing_capital || s2.placing_new);
    let tool_esc = esc && !s2.renaming && !s2.show_help && !(s2.placing_capital || s2.placing_new)
        && t4 != Tool::Select;
    let deselect = esc && !s2.renaming && !s2.show_help && !(s2.placing_capital || s2.placing_new)
        && t4 == Tool::Select;
    let t5 = if tool_esc { Tool::Select } else { t4 };
    let help1 = if help_esc { false } else { s2.show_help };
    let c = k.command;
    let st = KeyState {
        tool: if k.tab { tab_tool(t5) } else { t5 },
        renaming: if renaming_esc { false } else { s2.renaming },
        show_help: if k.f1 { !help1 } else { help1 },
        placing_capital: if place_esc { false } else { s2.placing_capital },
        placing_new: if place_esc { false } else { s2.placing_new },
        active: match plane {
            Some(i) => i,
            None => s2.active,
        },
        ..s2
    };
    let acts = KeyActions {
        randomize: k.f4,
        switch_plane: plane,
        undo: c && k.z && !k.shift,
        redo: c && (k.y || (k.z && k.shift)),
        save: c && k.s,
        open: c && k.o,
        fit: k.home,
        deselect,
        cancelled: place_esc,
    };
    (st, acts)
}

} // verus!
