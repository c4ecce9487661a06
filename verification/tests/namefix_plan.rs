use dom6_simple_map_editor::namefix::{apply_step, plan, rewrite_map_bytes, Answer, Applying, Stage, Todo};

fn files() -> Vec<String> {
    vec![
        "d/old_plane2.map".to_string(),
        "d/old.map".to_string(),
        "d/old.d6m".to_string(),
        "d/old.map.bak".to_string(),
        "d/other.map".to_string(),
        "d/oldish.map".to_string(),
    ]
}

#[test]
fn a_plan_moves_the_maps_files_in_path_order() {
    let maps = vec!["d/old.map".to_string(), "d/old_plane2.map".to_string(), "d/x.map".to_string()];
    let p = plan(&files(), &maps, "old", "new");
    assert_eq!(p.old, "old");
    assert_eq!(p.new, "new");
    let moves: Vec<(&str, &str)> = p.moves.iter().map(|(a, b)| (a.as_str(), b.as_str())).collect();
    assert_eq!(
        moves,
        vec![
            ("d/old.d6m", "d/new.d6m"),
            ("d/old.map", "d/new.map"),
            ("d/old_plane2.map", "d/new_plane2.map"),
        ]
    );
    assert_eq!(p.rewrite, vec!["d/x.map".to_string()]);
}

fn run(p: &dom6_simple_map_editor::namefix::Plan, answers: Vec<Answer>) -> Vec<Todo> {
    let mut st = Applying { stage: Stage::Check, index: 0, step: 0, first_map: None };
    let mut out = Vec::new();
    for a in answers {
        let (next, todo) = apply_step(p, st, a);
        st = next;
        out.push(todo);
    }
    out
}

#[test]
fn applying_a_plan_checks_rewrites_and_moves() {
    let maps = vec!["d/old.map".to_string(), "d/keep.map".to_string()];
    let files = vec!["d/old.map".to_string(), "d/old.tga".to_string()];
    let p = plan(&files, &maps, "old", "new");
    let todos = run(
        &p,
        vec![
            Answer::Started,
            Answer::Exists(false),
            Answer::Exists(false),
            Answer::Read(b"#imagefile old.tga\n#terrain 1 0\n".to_vec()),
            Answer::Done,
            Answer::Read(b"#dom2title old\r\n".to_vec()),
            Answer::Done,
            Answer::Done,
            Answer::Done,
        ],
    );
    assert!(matches!(&todos[0], Todo::AskExists(t) if t == "d/new.map"));
    assert!(matches!(&todos[1], Todo::AskExists(t) if t == "d/new.tga"));
    assert!(matches!(&todos[2], Todo::Read(t) if t == "d/keep.map"));
    assert!(matches!(&todos[3], Todo::WriteWithBackup(t, text) if t == "d/keep.map" && text == "#imagefile new.tga\n#terrain 1 0\n"));
    assert!(matches!(&todos[4], Todo::Read(t) if t == "d/old.map"));
    assert!(matches!(&todos[5], Todo::Write(t, text) if t == "d/new.map" && text == "#dom2title new\r\n"));
    assert!(matches!(&todos[6], Todo::Rename(a, b) if a == "d/old.map" && b == "d/old.map.bak"));
    assert!(matches!(&todos[7], Todo::Rename(a, b) if a == "d/old.tga" && b == "d/new.tga"));
    assert!(matches!(&todos[8], Todo::Finish(Ok(m)) if m == "d/keep.map"));
}

#[test]
fn a_target_in_the_way_stops_the_plan_before_any_change() {
    let files = vec!["d/old.map".to_string()];
    let p = plan(&files, &[], "old", "new");
    let todos = run(&p, vec![Answer::Started, Answer::Exists(true)]);
    assert!(matches!(&todos[1], Todo::Finish(Err(e)) if e == "d/new.map already exists"));
    let none = plan(&["d/old.tga".to_string()], &[], "old", "new");
    let todos = run(&none, vec![Answer::Started, Answer::Exists(false), Answer::Done]);
    assert!(matches!(&todos[2], Todo::Finish(Err(e)) if e == "no .map among the renamed files"));
    let failed = run(&p, vec![Answer::Started, Answer::Failed("disk full".to_string())]);
    assert!(matches!(&failed[1], Todo::Finish(Err(e)) if e == "disk full"));
}

#[test]
fn a_map_files_bytes_are_rewritten_for_the_new_name() {
    let text = rewrite_map_bytes(b"#dom2title old\n#imagefile old.d6m\n#landname 1 \"old\xff\"\n", "old", "new");
    assert_eq!(text, "#dom2title new\n#imagefile new.d6m\n#landname 1 \"old\u{fffd}\"\n");
}
