use dom6_simple_map_editor::generator_panel::{
    default_name, mix_seed, name_is_usable, per_player_is_preset, Form, CUSTOM_PER_PLAYER, PER_PLAYER,
};
use dom6_simple_map_editor::wire::Options;

/// A form with every setting in its range, as a new form starts out.
fn default_form() -> Form {
    Form {
        opts: Options {
            width: -1,
            height: -1,
            provinces: 200,
            sea_part: 30,
            mount_part: 10,
            forest_part: 10,
            farm_part: 10,
            swamp_part: 5,
            waste_part: 5,
            highland_part: 5,
            kelp_part: 3,
            gorge_part: 2,
            river_part: 100,
            hills: 50,
            rugedness: 40,
            sea_size: 500,
            extra_islands: 0,
            bridges: 20,
            no_water_prov: false,
            hwrap: false,
            vwrap: false,
            blueprint: None,
            blue_acc: 80,
            cave_world: false,
            caves_plane: true,
            cave_part: 25,
            cave_blueprint: None,
            rugedness_bits: None,
        },
        auto_size: true,
        width: 2048,
        height: 1536,
        seed: 1,
        name: default_name(1),
        layout: 0,
        own: None,
        cave_layout: 0,
        cave_own: None,
        new_game: false,
        players: 4,
        per_player_bucket: 15,
        custom_count: false,
        manual_seed: false,
        roster: vec![],
        era: 0,
        generic_starts: false,
        auto_starts: false,
    }
}

#[test]
fn the_per_player_presets_are_the_size_buckets() {
    assert!(per_player_is_preset(10));
    assert!(per_player_is_preset(15));
    assert!(per_player_is_preset(20));
    assert!(!per_player_is_preset(CUSTOM_PER_PLAYER));
    for (v, label) in PER_PLAYER {
        assert!(!label.contains(char::is_numeric), "{v}");
    }
}

#[test]
fn default_names_follow_the_seed() {
    assert_eq!(default_name(42), "random_42");
    assert!(name_is_usable("my_map-2"));
    assert!(!name_is_usable(""));
    assert!(!name_is_usable("a/b"));
}

#[test]
fn seeds_from_the_clock_differ() {
    assert_ne!(mix_seed(1), mix_seed(2));
}

#[test]
fn defaults_validate() {
    assert!(default_form().validate().is_empty());
}

#[test]
fn province_count_is_bounded() {
    let mut f = default_form();
    f.opts.provinces = 9;
    assert_eq!(f.validate().len(), 1);
    f.opts.provinces = 1981;
    assert_eq!(f.validate().len(), 1);
    f.opts.provinces = 1980;
    assert!(f.validate().is_empty());
    f.opts.provinces = 10;
    assert!(f.validate().is_empty());
}

#[test]
fn axis_bounds_only_apply_when_size_is_not_auto() {
    let mut f = Form { width: 100, height: 9000, ..default_form() };
    assert!(f.validate().is_empty());
    f.auto_size = false;
    assert_eq!(f.validate().len(), 2);
    f.width = 500;
    f.height = 7500;
    assert!(f.validate().is_empty());
}

#[test]
fn percent_fields_reject_over_a_hundred() {
    let mut f = default_form();
    f.opts.sea_part = 101;
    f.opts.gorge_part = -1;
    f.opts.rugedness = 100;
    let e = f.validate();
    assert_eq!(e.len(), 2);
    assert!(e.iter().any(|m| m.starts_with("Sea")));
    assert!(e.iter().any(|m| m.starts_with("Gorge")));
}

#[test]
fn wide_fields_reach_a_thousand() {
    let mut f = default_form();
    f.opts.hills = 1000;
    f.opts.sea_size = 1000;
    f.opts.river_part = 1000;
    f.opts.extra_islands = 1000;
    assert!(f.validate().is_empty());
    f.opts.hills = 1001;
    assert_eq!(f.validate().len(), 1);
}

#[test]
fn name_must_be_a_plain_file_stem() {
    let mut f = Form { name: String::new(), ..default_form() };
    assert_eq!(f.validate().len(), 1);
    f.name = "my map".to_string();
    assert_eq!(f.validate().len(), 1);
    f.name = "my_map-2".to_string();
    assert!(f.validate().is_empty());
}

#[test]
fn new_game_mode_validates_players_and_size_instead_of_provinces() {
    let mut f = Form { new_game: true, players: 1, ..default_form() };
    f.opts.provinces = 5;
    let e = f.validate();
    assert_eq!(e.len(), 1);
    assert!(e[0].starts_with("Players"));
    f.players = 6;
    assert!(f.validate().is_empty());
    f.per_player_bucket = 0;
    assert_eq!(f.validate().len(), 1);
    f.per_player_bucket = 30;
    assert!(f.validate().is_empty());
}

#[test]
fn a_setting_out_of_range_names_its_bounds() {
    let mut f = default_form();
    f.opts.cave_part = 101;
    assert_eq!(f.validate(), vec!["Cave part must be between 0 and 100".to_string()]);
    let fields = f.percent_fields();
    assert_eq!(fields[12], ("Cave part", 101));
    assert_eq!(f.wide_fields()[1], ("Hills", 50));
}
