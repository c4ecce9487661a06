use dom6_simple_map_editor::app::{on_keys, KeyState, Keys, Tool};

fn state() -> KeyState {
    KeyState {
        generator: false,
        pending_generate: false,
        tool: Tool::Select,
        renaming: false,
        show_help: false,
        placing_capital: false,
        placing_new: false,
        active: 0,
        planes: 3,
        gen_running: false,
    }
}

fn none() -> Keys {
    Keys {
        typing: false,
        command: false,
        alt: false,
        shift: false,
        n: false,
        g: false,
        z: false,
        y: false,
        s: false,
        o: false,
        l: false,
        p: false,
        h: false,
        home: false,
        escape: false,
        f1: false,
        tab: false,
        f4: false,
        page_down: false,
        page_up: false,
    }
}

#[test]
fn keys_do_nothing_while_a_field_takes_text() {
    let k = Keys { typing: true, tab: true, escape: true, ..none() };
    let (s, a) = on_keys(state(), k);
    assert_eq!(s, state());
    assert!(!a.deselect && a.switch_plane.is_none());
}

#[test]
fn tab_walks_the_tools_and_h_p_toggle() {
    let (s, _) = on_keys(state(), Keys { tab: true, ..none() });
    assert_eq!(s.tool, Tool::Link);
    let (s, _) = on_keys(s, Keys { tab: true, ..none() });
    assert_eq!(s.tool, Tool::Paint);
    let (s, _) = on_keys(s, Keys { p: true, ..none() });
    assert_eq!(s.tool, Tool::Select);
    let (s, _) = on_keys(s, Keys { h: true, ..none() });
    assert_eq!(s.tool, Tool::Height);
    let (s, _) = on_keys(s, Keys { h: true, ..none() });
    assert_eq!(s.tool, Tool::Select);
    let (s, a) = on_keys(s, Keys { command: true, s: true, ..none() });
    assert_eq!(s.tool, Tool::Select);
    assert!(a.save);
}

#[test]
fn escape_works_down_its_cascade() {
    let start = KeyState { renaming: true, show_help: true, placing_new: true, tool: Tool::Paint, ..state() };
    let esc = Keys { escape: true, ..none() };
    let (s, a) = on_keys(start, esc);
    assert!(!s.renaming && s.show_help && !a.cancelled);
    let (s, _) = on_keys(s, esc);
    assert!(!s.show_help && s.placing_new);
    let (s, a) = on_keys(s, esc);
    assert!(!s.placing_new && a.cancelled);
    let (s, a) = on_keys(s, esc);
    assert_eq!(s.tool, Tool::Select);
    assert!(!a.deselect);
    let (_, a) = on_keys(s, esc);
    assert!(a.deselect);
}

#[test]
fn page_keys_go_round_the_planes() {
    let (s, a) = on_keys(state(), Keys { page_up: true, ..none() });
    assert_eq!(a.switch_plane, Some(2));
    assert_eq!(s.active, 2);
    let (s, a) = on_keys(s, Keys { page_down: true, ..none() });
    assert_eq!(a.switch_plane, Some(0));
    assert_eq!(s.active, 0);
    let one = KeyState { planes: 1, ..state() };
    let (_, a) = on_keys(one, Keys { page_down: true, ..none() });
    assert_eq!(a.switch_plane, None);
}

#[test]
fn g_brings_up_the_generator_unless_it_runs() {
    let (s, _) = on_keys(state(), Keys { g: true, ..none() });
    assert!(s.generator && s.pending_generate);
    let busy = KeyState { gen_running: true, ..state() };
    let (s, _) = on_keys(busy, Keys { g: true, ..none() });
    assert!(!s.generator);
    let (s, a) = on_keys(state(), Keys { command: true, z: true, shift: true, ..none() });
    assert!(a.redo && !a.undo && s.tool == Tool::Select);
}
