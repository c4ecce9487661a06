use dom6_simple_map_editor::blueprint_editor::{encode_png, Blueprint};
use dom6_simple_map_editor::gen_settings::{base64_decode, base64_encode, decode, encode};
use dom6_simple_map_editor::generator_panel::OwnImage;
use dom6_simple_map_editor::generator_panel::Form;
use dom6_simple_map_editor::wire::Options;

#[test]
fn base64_round_trips_every_length() {
    for n in 0..40usize {
        let bytes: Vec<u8> = (0..n).map(|i| (i * 37 + 11) as u8).collect();
        let text = base64_encode(&bytes);
        assert_eq!(text.len() % 4, 0);
        assert_eq!(base64_decode(&text).unwrap(), bytes);
    }
    assert_eq!(base64_encode(b"Man"), "TWFu");
    assert_eq!(base64_encode(b"Ma"), "TWE=");
}

#[test]
fn base64_decoding_skips_blanks_stops_at_padding_and_refuses_strangers() {
    assert_eq!(base64_decode("TW Fu\n"), Some(b"Man".to_vec()));
    assert_eq!(base64_decode("TQ==!!"), Some(b"M".to_vec()));
    assert_eq!(base64_decode("TW*u"), None);
    assert_eq!(base64_decode(""), Some(vec![]));
    assert_eq!(base64_encode(b""), "");
    assert_eq!(base64_encode(&[0xff, 0xfe]), "//4=");
}

fn options() -> Options {
    Options {
        width: -1,
        height: -1,
        provinces: 200,
        sea_part: 30,
        mount_part: 10,
        forest_part: 10,
        farm_part: 10,
        swamp_part: 5,
        waste_part: 5,
        highland_part: 5,
        kelp_part: 3,
        gorge_part: 2,
        river_part: 100,
        hills: 50,
        rugedness: 40,
        sea_size: 500,
        extra_islands: 0,
        bridges: 20,
        no_water_prov: false,
        hwrap: false,
        vwrap: false,
        blueprint: None,
        blue_acc: 80,
        cave_world: false,
        caves_plane: true,
        cave_part: 25,
        cave_blueprint: None,
        rugedness_bits: None,
    }
}

fn form() -> Form {
    Form {
        opts: options(),
        auto_size: true,
        width: 2048,
        height: 1536,
        seed: 1,
        name: "random_1".to_string(),
        layout: 0,
        own: None,
        cave_layout: 0,
        cave_own: None,
        new_game: false,
        players: 4,
        per_player_bucket: 15,
        custom_count: false,
        manual_seed: false,
        roster: vec![],
        era: 0,
        generic_starts: false,
        auto_starts: false,
    }
}

const LAYOUTS: [&str; 3] = ["Standard", "OneSea", "TwirlingSea"];
const CAVES: [&str; 2] = ["Random", "OneCave"];

#[test]
fn a_map_without_settings_yields_nothing() {
    assert!(decode(&["#terrain 1 4".to_string()], form(), &LAYOUTS, &CAVES).is_none());
}

#[test]
fn settings_lines_fill_the_form_and_unknown_keys_are_counted() {
    let lines: Vec<String> = [
        "#dom2title x",
        "-- gen.app 1.2",
        "-- gen.seed 99",
        "-- gen.name  my map ",
        "-- gen.new_game yes",
        "-- gen.players 6",
        "-- gen.layout TwirlingSea",
        "-- gen.cave_layout Nowhere",
        "-- gen.provinces 321",
        "-- gen.hwrap 1",
        "-- gen.roster 5, 7,x,9",
        "-- gen.era 2",
        "-- gen.width wide",
        "-- gen.mystery 3",
    ]
    .iter()
    .map(|s| s.to_string())
    .collect();
    let a = decode(&lines, form(), &LAYOUTS, &CAVES).unwrap();
    assert_eq!(a.app.as_deref(), Some("1.2"));
    assert!(a.pool.is_none());
    assert_eq!(a.known, 12);
    assert_eq!(a.unknown, 1);
    let f = a.form;
    assert_eq!(f.seed, 99);
    assert_eq!(f.name, "my map");
    assert!(f.new_game);
    assert_eq!(f.players, 6);
    assert_eq!(f.layout, 2);
    assert_eq!(f.cave_layout, 0);
    assert_eq!(f.opts.provinces, 321);
    assert!(f.opts.hwrap);
    assert_eq!(f.roster, vec![5, 7, 9]);
    assert_eq!(f.era, 2);
    assert_eq!(f.width, 2048);
    assert!(f.manual_seed);
    assert!(f.own.is_none());
}

#[test]
fn an_embedded_image_comes_back_with_its_label() {
    let png = encode_png(2, 1, &[1, 2, 3, 255, 4, 5, 6, 255]).unwrap();
    let text = base64_encode(&png);
    let (a, b) = text.split_at(text.len() / 2);
    let lines = vec![
        "-- gen.own.label drawing".to_string(),
        format!("-- gen.own.png 1/2 {a}"),
        format!("-- gen.own.png 2/2 {b}"),
    ];
    let got = decode(&lines, form(), &LAYOUTS, &CAVES).unwrap();
    let own = got.form.own.unwrap();
    assert_eq!(own.label, "drawing");
    assert_eq!(
        own.image,
        Blueprint { w: 2, h: 1, bgra: vec![3, 2, 1, 255, 6, 5, 4, 255] }
    );
    assert!(got.form.cave_own.is_none());
}

#[test]
fn settings_written_for_a_form_read_back_into_it() {
    let mut f = form();
    f.seed = 4242;
    f.name = "my #1 map".to_string();
    f.layout = 1;
    f.cave_layout = 1;
    f.players = -3;
    f.opts.hwrap = true;
    f.opts.cave_part = -7;
    f.roster = vec![12, 7, 300];
    f.era = 3;
    f.auto_starts = true;
    let lines = encode(&f, "0.9.1", "pool-a", &LAYOUTS, &CAVES);
    assert_eq!(lines[0], "-- generator settings; loading this map restores them");
    assert_eq!(lines[1], "-- gen.app 0.9.1");
    assert_eq!(lines[3], "-- gen.seed 4242");
    assert_eq!(lines[4], "-- gen.name my _1 map");
    assert_eq!(lines[12], "-- gen.layout OneSea");
    assert!(lines.contains(&"-- gen.roster 12,7,300".to_string()));
    assert!(lines.contains(&"-- gen.hwrap 1".to_string()));
    assert!(lines.contains(&"-- gen.cave_part -7".to_string()));
    assert_eq!(lines.len(), 41);
    let a = decode(&lines, form(), &LAYOUTS, &CAVES).unwrap();
    assert_eq!(a.app.as_deref(), Some("0.9.1"));
    assert_eq!(a.pool.as_deref(), Some("pool-a"));
    assert_eq!(a.known, 40);
    assert_eq!(a.unknown, 0);
    let g = a.form;
    assert_eq!(g.seed, 4242);
    assert_eq!(g.name, "my _1 map");
    assert_eq!(g.layout, 1);
    assert_eq!(g.cave_layout, 1);
    assert_eq!(g.players, -3);
    assert!(g.opts.hwrap);
    assert_eq!(g.opts.cave_part, -7);
    assert_eq!(g.roster, vec![12, 7, 300]);
    assert_eq!(g.era, 3);
    assert!(g.auto_starts);
    assert!(g.manual_seed);
}

#[test]
fn an_own_image_is_written_as_a_label_and_numbered_chunks() {
    let mut f = form();
    let bgra: Vec<u8> = (0..4 * 40 * 30).map(|i| (i * 7 % 251) as u8).collect();
    f.own = Some(OwnImage {
        label: "two\nlines".to_string(),
        image: Blueprint { w: 40, h: 30, bgra: bgra.clone() },
    });
    let lines = encode(&f, "1", "p", &LAYOUTS, &CAVES);
    assert!(lines.contains(&"-- gen.own.label two lines".to_string()));
    let chunks: Vec<&String> = lines.iter().filter(|l| l.starts_with("-- gen.own.png ")).collect();
    assert!(chunks.len() >= 2);
    assert!(chunks[0].starts_with(&format!("-- gen.own.png 1/{} ", chunks.len())));
    let a = decode(&lines, form(), &LAYOUTS, &CAVES).unwrap();
    let own = a.form.own.unwrap();
    assert_eq!(own.label, "two lines");
    assert_eq!(own.image, Blueprint { w: 40, h: 30, bgra });
}
