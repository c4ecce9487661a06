use dom6_simple_map_editor::nations::{era_label, merge, parse_dm, parse_nations_table, Nation, FIRST_MOD_ID};
use dom6_simple_map_editor::terrain::{CAVE, DEEP_SEA, FOREST, SWAMP};

fn known() -> Vec<Nation> {
    let mut pangaea = Nation::blank(7);
    pangaea.name = "Pangaea".to_string();
    pangaea.from_mod = false;
    let mut first = Nation::blank(FIRST_MOD_ID);
    first.from_mod = false;
    vec![pangaea, first]
}

#[test]
fn a_mod_adds_and_changes_nations() {
    let dm = r#"
#modname "x"
#newmonster 5000
#name "not a nation"
#end
#newnation
#name "Frogfolk" -- comment
#epithet "Swamp Kings"
#era 2
#likesterr 32
#end
#selectnation 7
#likesterr 64
#end
#newnation
#name "Second"
#era 1
#uwnation
#end
"#;
    let known = known();
    let got = parse_dm(dm, &known);
    let mut free = FIRST_MOD_ID;
    while known.iter().any(|n| n.id == free) {
        free += 1;
    }
    assert_eq!(got.len(), 3);
    assert_eq!(got[0].id, free);
    assert_eq!(got[0].name, "Frogfolk");
    assert_eq!(got[0].epithet, "Swamp Kings");
    assert_eq!(got[0].era, 2);
    assert_eq!(got[0].start_label(), "swamp");
    assert_eq!(got[1].id, 7);
    assert_eq!(got[1].name, "Pangaea");
    assert_eq!(got[1].likesterr, 64);
    assert!(got[1].from_mod);
    let mut free2 = free + 1;
    while known.iter().any(|n| n.id == free2) {
        free2 += 1;
    }
    assert_eq!(got[2].id, free2);
    assert!(got[2].uw);
    let mut all = known;
    merge(&mut all, got);
    assert_eq!(all.iter().filter(|n| n.id == 7).count(), 1);
    assert!(all.iter().any(|n| n.id == free2));
    let ids: Vec<u32> = all.iter().map(|n| n.id).collect();
    assert_eq!(ids, vec![7, FIRST_MOD_ID, FIRST_MOD_ID + 1, FIRST_MOD_ID + 2]);
}

#[test]
fn a_nation_left_open_still_counts() {
    let got = parse_dm("#selectnation 9\n#era 9\n#cavenation -2", &[]);
    assert_eq!(got.len(), 1);
    assert_eq!(got[0].id, 9);
    assert_eq!(got[0].name, "Nation 9");
    assert_eq!(got[0].era, 3);
    assert_eq!(got[0].cave, 0);
}

#[test]
fn clearing_a_nation_forgets_its_wishes() {
    let got = parse_dm("#newnation\n#uwnation\n#coastnation\n#likesterr 128\n#clearnation\n#end\n", &[]);
    assert_eq!(got[0].id, FIRST_MOD_ID);
    assert!(!got[0].uw && !got[0].coast);
    assert_eq!(got[0].likesterr, 0);
    assert_eq!(got[0].start_label(), "any land");
}

#[test]
fn a_comment_inside_quotes_is_kept() {
    let got = parse_dm("#newnation\n#name \"A -- B\" -- gone\n#end", &[]);
    assert_eq!(got[0].name, "A -- B");
}

#[test]
fn start_labels_name_the_wishes() {
    let mut n = Nation::blank(1);
    n.uw = true;
    n.likesterr = DEEP_SEA;
    assert_eq!(n.start_label(), "deep sea");
    n.likesterr = 0;
    assert_eq!(n.start_label(), "sea");
    let mut c = Nation::blank(2);
    c.cave = 2;
    c.likesterr = CAVE | FOREST;
    assert_eq!(c.start_label(), "cave, forest");
    let mut e = Nation::blank(3);
    e.cave = 1;
    e.likesterr = SWAMP;
    assert_eq!(e.start_label(), "swamp, cave or land");
}

#[test]
fn titles_add_the_epithet() {
    let mut n = Nation::blank(4);
    assert_eq!(n.title(), "Nation 4");
    n.epithet = "Kings".to_string();
    assert_eq!(n.title(), "Nation 4, Kings");
}

#[test]
fn eras_have_names() {
    assert_eq!(era_label(1), "Early");
    assert_eq!(era_label(2), "Middle");
    assert_eq!(era_label(3), "Late");
    assert_eq!(era_label(0), "Any");
}

#[test]
fn the_nations_table_is_read_row_by_row() {
    let text = "id\tname\tepithet\tera\tlikesterr\tuw\tcoast\tcave\triver\n\
43\tAtlantis\tEmergence of the Deep\t1\t2048\t1\t0\t0\t0\n\
7\tPangaea\tAge of Revelry\t1\t128\t0\t0\t0\t0\n\
bad\trow\n\
x\tNoNumber\t\t1\t0\t0\t0\t0\t0\n\
15\tAgartha\tPale Ones\t+1\t-1\t0\t1\t2\tyes\r\n";
    let all = parse_nations_table(text);
    assert_eq!(all.len(), 3);
    let atlantis = all.iter().find(|n| n.id == 43).unwrap();
    assert!(atlantis.uw);
    assert_eq!(atlantis.era, 1);
    assert_eq!(atlantis.likesterr, DEEP_SEA);
    assert_eq!(atlantis.name, "Atlantis");
    assert_eq!(atlantis.epithet, "Emergence of the Deep");
    let pangaea = &all[1];
    assert_eq!(pangaea.id, 7);
    assert_eq!(pangaea.likesterr, FOREST);
    assert!(!pangaea.uw && !pangaea.coast && !pangaea.river);
    let agartha = &all[2];
    assert_eq!(agartha.cave, 2);
    assert_eq!(agartha.likesterr, u64::MAX);
    assert!(agartha.coast && agartha.river);
    assert!(!agartha.from_mod);
    assert!(parse_nations_table("").is_empty());
}
