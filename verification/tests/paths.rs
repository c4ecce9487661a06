use dom6_simple_map_editor::imagemap::picture_names;
use dom6_simple_map_editor::map_chooser::name_of;
use dom6_simple_map_editor::namefix::base_of;
use dom6_simple_map_editor::paths::{file_name_of, stem_and_ext_of};

fn chars(s: &str) -> Vec<char> {
    s.chars().collect()
}

#[test]
fn a_path_has_its_last_part_as_file_name() {
    assert_eq!(file_name_of("maps/world.map"), Some(chars("world.map")));
    assert_eq!(file_name_of("maps/world.map/"), Some(chars("world.map")));
    assert_eq!(file_name_of("maps/./"), Some(chars("maps")));
    assert_eq!(file_name_of("maps/.."), None);
    assert_eq!(file_name_of(""), None);
}

#[test]
fn a_file_name_splits_at_its_last_dot() {
    assert_eq!(stem_and_ext_of(&chars("a.b.tga")), (chars("a.b"), Some(chars("tga"))));
    assert_eq!(stem_and_ext_of(&chars("noext")), (chars("noext"), None));
    assert_eq!(stem_and_ext_of(&chars(".hidden")), (chars(".hidden"), None));
}

#[test]
fn a_card_shows_the_stem_of_the_map_file() {
    assert_eq!(name_of("a/b/world.map"), "world");
    assert_eq!(name_of("world"), "world");
    assert_eq!(name_of(""), "");
}

#[test]
fn the_base_name_drops_the_plane_suffix() {
    assert_eq!(base_of("maps/w_plane2.map"), Some("w".to_string()));
    assert_eq!(base_of("maps/w.map"), Some("w".to_string()));
    assert_eq!(base_of(""), None);
}

#[test]
fn a_tga_picture_comes_with_its_terrain_and_winter_art() {
    let v = picture_names("maps/x.tga");
    assert_eq!(v.len(), 18);
    assert_eq!(v[0], "maps/x.tga");
    assert_eq!(v[1], "x_kelp.tga");
    assert_eq!(v[2], "x_kelpw.tga");
    assert_eq!(v[15], "x_plain.tga");
    assert_eq!(v[16], "x_plainw.tga");
    assert_eq!(v[17], "x_winter.tga");
    let upper = picture_names("y.TGA");
    assert_eq!(upper[1], "y_kelp.TGA");
}

#[test]
fn other_pictures_come_alone() {
    assert!(picture_names("maps/x.png").is_empty());
    assert!(picture_names("maps/x").is_empty());
}

use dom6_simple_map_editor::imagemap::guess_owners;

#[test]
fn owners_flood_out_from_the_capitals() {
    assert_eq!(guess_owners(3, 1, &[(0, 0), (2, 0)], false, false), vec![1, 1, 2]);
    assert_eq!(guess_owners(5, 1, &[(1, 0), (4, 0)], false, false), vec![1, 1, 1, 2, 2]);
    assert_eq!(guess_owners(5, 1, &[(1, 0), (4, 0)], true, false), vec![1, 1, 1, 2, 2]);
    assert_eq!(guess_owners(4, 1, &[(0, 0), (2, 0)], true, false), vec![1, 1, 2, 1]);
    assert_eq!(guess_owners(2, 2, &[(0, 0)], false, false), vec![1, 1, 1, 1]);
    assert_eq!(guess_owners(2, 2, &[(5, 5), (-1, 0)], false, false), vec![0, 0, 0, 0]);
    assert_eq!(guess_owners(2, 1, &[(0, 0), (0, 0)], false, false), vec![2, 2]);
    assert_eq!(guess_owners(0, 0, &[(0, 0)], false, false), Vec::<i16>::new());
}
