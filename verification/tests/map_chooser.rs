use dom6_simple_map_editor::imagemap::slot_for;
use dom6_simple_map_editor::map_chooser::{
    downsample, folder_from, folder_of, order, owned_box, preview_borders, preview_samples, rel_from, rel_of, stats_from_bytes,
    stats_from_text, Kind, Stats,
};
use dom6_simple_map_editor::textures::Image;
use dom6_simple_map_editor::mapfile::MapFile;
use dom6_simple_map_editor::terrain::UNKNOWN;

#[test]
fn a_capital_takes_the_slot_after_those_before_it_in_reading_order() {
    let caps = [(5i16, 0i16), (0, 1), (3, 0)];
    assert_eq!(slot_for(&caps, 10, None, (4, 0)), 2);
    assert_eq!(slot_for(&caps, 10, Some(3), (4, 0)), 1);
    assert_eq!(slot_for(&caps, 10, None, (0, 2)), 4);
}

#[test]
fn reading_order_holds_on_a_very_wide_picture() {
    let caps = [(5i16, 0i16), (0, 1), (3, 0)];
    let w = 1usize << 40;
    assert_eq!(slot_for(&caps, w, None, (4, 0)), 2);
    assert_eq!(slot_for(&caps, w, None, (1, 1)), 4);
    assert_eq!(slot_for(&caps, w, Some(2), (1, 1)), 3);
}

#[test]
fn a_picture_shrinks_to_the_means_of_its_blocks() {
    let src = Image {
        w: 3,
        h: 2,
        rgba: vec![
            0, 0, 0, 0, 4, 8, 12, 16, 10, 20, 30, 40, //
            2, 2, 2, 2, 6, 6, 6, 6, 20, 21, 22, 23,
        ],
    };
    let out = downsample(&src, 2);
    assert_eq!((out.w, out.h), (2, 1));
    assert_eq!(out.rgba, vec![3, 4, 5, 6, 15, 20, 26, 31]);
    let same = downsample(&src, 10);
    assert_eq!((same.w, same.h), (3, 2));
    assert_eq!(same.rgba, src.rgba);
}

#[test]
fn a_card_counts_the_provinces_and_their_sea() {
    let text = "#imagefile  Foo.D6M \n#mapsize 100 50\n#terrain 1 4\n#terrain 3 0\n#terrain 7 4\n";
    let (stats, image) = stats_from_text(text, "a.map", 2);
    assert_eq!(
        stats,
        Stats { kind: Kind::Recipe, size: Some((100, 50)), provinces: 7, sea: 2, land: 1, planes: 2 }
    );
    assert_eq!(image, Some("Foo.D6M".to_string()));
}

#[test]
fn a_card_of_a_picture_map_without_terrain() {
    let (stats, image) = stats_from_text("#imagefile map.TGA\n", "b.map", 1);
    assert_eq!(
        stats,
        Stats { kind: Kind::Picture, size: None, provinces: 0, sea: 0, land: 0, planes: 1 }
    );
    assert_eq!(image, Some("map.TGA".to_string()));
    let (plain, none) = stats_from_text("#terrain 2 0\n#terrain 5 0\n#terrain 9 0\n#terrain 10 0\n", "c.map", 1);
    assert_eq!(plain.kind, Kind::Unknown);
    assert_eq!(plain.provinces, 10);
    assert_eq!(plain.land, 4);
    assert_eq!(none, None);
}

#[test]
fn a_path_is_shown_under_its_root_with_forward_slashes() {
    assert_eq!(rel_of("/maps", "/maps/islands/big.map"), "islands/big.map");
    assert_eq!(folder_of("/maps", "/maps/islands/big.map"), "islands");
    assert_eq!(folder_of("/maps", "/maps/big.map"), "");
    assert_eq!(rel_of("/maps", "/other/big.map"), "/other/big.map");
    assert_eq!(folder_of("/maps", "/other/big.map"), "/other");
}

#[test]
fn backslashes_become_slashes_and_the_last_one_ends_the_folder() {
    assert_eq!(rel_from(Some("a\\b\\c.map"), "ignored"), "a/b/c.map");
    assert_eq!(rel_from(None, "x\\y.map"), "x/y.map");
    assert_eq!(folder_from("a/b/c.map"), "a/b");
    assert_eq!(folder_from("c.map"), "");
}

#[test]
fn a_simple_path_under_its_root_keeps_its_rest() {
    assert_eq!(rel_of("maps", "maps/x/y.map"), "x/y.map");
    assert_eq!(folder_of("/home/a", "/home/a/b/c/d.map"), "b/c");
}

#[test]
fn a_preview_samples_the_field_every_few_pixels() {
    let (ow, oh, hs, os) = preview_samples(3, 2, &[1, 2, 3, 4, 5, 6], &[0, 1, 1, 2, 2, 0]);
    assert_eq!((ow, oh), (3, 2));
    assert_eq!(hs, vec![1, 2, 3, 4, 5, 6]);
    assert_eq!(os, vec![0, 1, 1, 2, 2, 0]);
    let heights: Vec<i16> = (0..2050).map(|i| i as i16).collect();
    let owners = vec![1i16; 2050];
    let (ow, oh, hs, os) = preview_samples(2050, 1, &heights, &owners);
    assert_eq!((ow, oh), (684, 1));
    assert_eq!((hs[0], hs[1], hs[683]), (0, 3, 2049));
    assert_eq!(os.len(), 684);
}

#[test]
fn the_owned_box_holds_every_owned_pixel() {
    assert_eq!(owned_box(3, 2, &[0, 1, 0, 0, 0, 2]), Some((1, 0, 2, 1)));
    assert_eq!(owned_box(3, 2, &[0, 0, 0, 0, -1, 0]), None);
}

#[test]
fn a_card_reads_the_bytes_of_a_map_file() {
    let bytes = b"#imagefile a.tga\n#terrain 1 4\n#terrain 2 0\n\xff\n";
    let (stats, image) = stats_from_bytes(bytes, "m.map", 1);
    assert_eq!(stats.kind, Kind::Picture);
    assert_eq!((stats.provinces, stats.sea, stats.land), (2, 1, 1));
    assert_eq!(image, Some("a.tga".to_string()));
}

#[test]
fn the_chooser_orders_maps_by_their_lowercased_place_under_the_root() {
    let paths: Vec<String> = vec![
        "/maps/b/Z.map".to_string(),
        "/maps/a.map".to_string(),
        "/maps/B/y.map".to_string(),
        "/maps/a.map".to_string(),
    ];
    let got = order("/maps", &paths);
    assert_eq!(got, vec!["/maps/a.map".to_string(), "/maps/B/y.map".to_string(), "/maps/b/Z.map".to_string()]);
}

#[test]
fn the_preview_sorts_borders_into_rivers_lines_and_bridges() {
    let text = "#neighbour 1 2\n#neighbourspec 1 2 2\n#neighbour 3 2\n#neighbourspec 3 2 32\n#neighbour 1 3\n#neighbourspec 1 3 16\n#neighbour 3 4\n#neighbourspec 3 4 2\n#neighbour 2 4\n#neighbourspec 2 4 2\n";
    let m = MapFile::parse(text, "m.map");
    let flags = [0u64, 0, 0, 0, UNKNOWN];
    let (rivers, lines, bridges) = preview_borders(&flags, 4, &m);
    assert_eq!(rivers, vec![(1, 2), (1, 3)]);
    assert_eq!(lines, vec![(2, 3)]);
    assert_eq!(bridges, vec![(1, 3)]);
}
