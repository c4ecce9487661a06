use dom6_simple_map_editor::mapfile::{plane_file_name, strip_plane_suffix, MapFile};

const TEXT: &str = "#dom2title Test\r\n#imagefile test.d6m\r\n#mapsize 10 20\r\n#hwraparound\r\n#terrain 1 4\r\n#terrain 2 128\r\n#landname 1 \"Deep \"\r\n#gate 2 5\r\n#neighbour 2 1\r\n#neighbour 1 2\r\n#neighbourspec 1 2 4\r\n#pb 0 0 3 1\r\n#pb 3 0 2 2\r\n";

#[test]
fn a_map_file_reads_its_settings_and_provinces() {
    let m = MapFile::parse(TEXT, "maps/test.map");
    assert_eq!(m.path, "maps/test.map");
    assert_eq!(m.title, "Test");
    assert_eq!(m.imagefile.as_deref(), Some("test.d6m"));
    assert_eq!(m.mapsize, Some((10, 20)));
    assert!(m.hwrap);
    assert!(!m.vwrap);
    assert_eq!(m.terrain.get(&1), Some(&4));
    assert_eq!(m.terrain.get(&2), Some(&128));
    assert_eq!(m.name_of(1), Some("Deep "));
    assert_eq!(m.name_of(2), None);
    assert_eq!(m.gate_of(2), 5);
    assert_eq!(m.gate_of(1), 0);
    assert_eq!(m.neighbours, vec![(1, 2)]);
    assert!(m.are_neighbours(2, 1));
    assert_eq!(m.spec_between(2, 1), 4);
    assert_eq!(m.spec_between(1, 3), 0);
    assert_eq!(m.pb_count, 2);
    assert!(m.has_pb());
    assert!(!m.modified);
}

#[test]
fn untouched_text_is_written_back_as_it_was() {
    let m = MapFile::parse(TEXT, "x.map");
    assert_eq!(m.to_text(), TEXT);
    let plain = "#dom2title a\n\n-- note\n";
    assert_eq!(MapFile::parse(plain, "y.map").to_text(), plain);
}

#[test]
fn setting_terrain_replaces_the_line_in_place() {
    let mut m = MapFile::parse("#dom2title a\n#terrain 1 4\n#terrain 2 0\n", "a.map");
    m.set_terrain(1, 128);
    assert!(m.modified);
    assert_eq!(m.terrain.get(&1), Some(&128));
    assert_eq!(m.to_text(), "#dom2title a\n#terrain 1 128\n#terrain 2 0\n");
    let mut same = MapFile::parse("#terrain 1 4\n", "b.map");
    same.set_terrain(1, 4);
    assert!(!same.modified);
}

#[test]
fn a_new_line_goes_after_the_last_line_of_its_kind() {
    let mut m = MapFile::parse("#dom2title a\n#terrain 1 4\n#terrain 2 0\n#neighbour 1 2\n", "a.map");
    m.set_terrain(3, 64);
    assert_eq!(
        m.to_text(),
        "#dom2title a\n#terrain 1 4\n#terrain 2 0\n#terrain 3 64\n#neighbour 1 2\n"
    );
    m.set_neighbour(3, 1, true);
    assert!(m.are_neighbours(1, 3));
    assert_eq!(
        m.to_text(),
        "#dom2title a\n#terrain 1 4\n#terrain 2 0\n#terrain 3 64\n#neighbour 1 2\n#neighbour 1 3\n"
    );
}

#[test]
fn a_line_without_an_anchor_goes_to_the_end() {
    let mut m = MapFile::parse("#dom2title a\n\n\n", "a.map");
    m.set_gate(4, 2);
    assert_eq!(m.to_text(), "#dom2title a\n\n#gate 4 2\n");
    m.set_gate(4, 0);
    assert_eq!(m.gate_of(4), 0);
    assert_eq!(m.to_text(), "#dom2title a\n\n");
}

#[test]
fn names_are_quoted_and_blank_names_removed() {
    let mut m = MapFile::parse("#terrain 1 4\n", "a.map");
    m.set_name(1, Some("The \"Big\" Hill"));
    assert_eq!(m.name_of(1), Some("The 'Big' Hill"));
    assert_eq!(m.to_text(), "#terrain 1 4\n#landname 1 \"The 'Big' Hill\"\n");
    m.set_name(1, Some("   "));
    assert_eq!(m.name_of(1), None);
    assert_eq!(m.to_text(), "#terrain 1 4\n");
}

#[test]
fn removing_a_border_removes_its_kind() {
    let mut m = MapFile::parse("#neighbour 1 2\n#neighbourspec 2 1 4\n#terrain 1 0\n", "a.map");
    m.set_neighbour(2, 1, false);
    assert!(!m.are_neighbours(1, 2));
    assert_eq!(m.spec_between(1, 2), 0);
    assert_eq!(m.to_text(), "#terrain 1 0\n");
}

#[test]
fn a_border_kind_is_set_and_cleared() {
    let mut m = MapFile::parse("#neighbour 1 2\n", "a.map");
    m.set_spec(2, 1, 16);
    assert_eq!(m.spec_between(1, 2), 16);
    assert_eq!(m.to_text(), "#neighbour 1 2\n#neighbourspec 1 2 16\n");
    m.set_spec(1, 2, 0);
    assert_eq!(m.to_text(), "#neighbour 1 2\n");
}

#[test]
fn the_title_and_picture_are_set_once() {
    let mut m = MapFile::parse("#dom2title a\n#dom2title b\n#terrain 1 0\n", "a.map");
    m.set_title("c");
    assert_eq!(m.title, "c");
    m.set_imagefile("c.d6m");
    assert_eq!(m.imagefile.as_deref(), Some("c.d6m"));
    assert_eq!(m.to_text(), "#dom2title c\n#imagefile c.d6m\n#terrain 1 0\n");
}

#[test]
fn neighbours_come_back_sorted_and_once() {
    let m = MapFile::parse("#neighbour 5 3\n#neighbour 3 1\n#neighbour 3 5\n#neighbour 2 4\n", "a.map");
    assert_eq!(m.neighbours_of(3), vec![1, 5]);
    assert_eq!(m.neighbours_of(4), vec![2]);
    assert!(m.neighbours_of(9).is_empty());
}

#[test]
fn pixel_runs_are_written_where_the_old_ones_stood() {
    let mut m = MapFile::parse("#dom2title a\n#pb 0 0 1 9\n#terrain 1 0\n#pb 1 0 1 9\n", "a.map");
    m.replace_pb(3, 2, &[1, 1, 0, 2, 2, 1]);
    assert_eq!(
        m.to_text(),
        "#dom2title a\n#pb 0 0 2 1\n#pb 0 1 2 2\n#pb 2 1 1 1\n#terrain 1 0\n"
    );
    assert_eq!(m.pb_count, 3);
    let mut fresh = MapFile::parse("#dom2title a", "b.map");
    fresh.replace_pb(1, 1, &[4]);
    assert_eq!(fresh.to_text(), "#dom2title a\n\n#pb 0 0 1 4");
}

#[test]
fn the_plane_suffix_names_the_plane() {
    assert_eq!(strip_plane_suffix("world_plane2"), ("world".to_string(), 2));
    assert_eq!(strip_plane_suffix("world"), ("world".to_string(), 1));
    assert_eq!(strip_plane_suffix("world_planeX"), ("world_planeX".to_string(), 1));
    assert_eq!(plane_file_name("world", 1, "map"), "world.map");
    assert_eq!(plane_file_name("world", 3, "d6m"), "world_plane3.d6m");
}

fn same_fields(a: &MapFile, b: &MapFile) -> bool {
    a.title == b.title
        && a.imagefile == b.imagefile
        && a.mapsize == b.mapsize
        && a.hwrap == b.hwrap
        && a.vwrap == b.vwrap
        && a.terrain == b.terrain
        && a.names == b.names
        && a.gates == b.gates
        && a.neighbours == b.neighbours
        && a.specs == b.specs
        && a.pb_count == b.pb_count
}

#[test]
fn edited_fields_are_what_the_written_lines_say() {
    let mut m = MapFile::parse(TEXT, "x.map");
    m.set_title("New title");
    m.set_imagefile("other.tga");
    m.set_terrain(2, -5);
    m.set_terrain(9, 16);
    m.set_gate(2, 0);
    m.set_gate(1, 3);
    m.set_name(2, Some("Say \"hi\""));
    m.set_name(1, None);
    let again = MapFile::parse(&m.to_text(), "x.map");
    assert!(same_fields(&m, &again));
    assert_eq!(again.title, "New title");
    assert_eq!(again.terrain.get(&9), Some(&16));
    assert_eq!(again.gate_of(2), 0);
    assert_eq!(again.gate_of(1), 3);
    assert_eq!(again.name_of(2), Some("Say 'hi'"));
    assert_eq!(again.name_of(1), None);
}

#[test]
fn a_terrain_line_with_a_padded_number_is_not_the_one_edited() {
    let mut m = MapFile::parse("#terrain 1 4\n#terrain 01 8\n", "x.map");
    assert_eq!(m.terrain.get(&1), Some(&8));
    m.set_terrain(1, 2);
    let again = MapFile::parse(&m.to_text(), "x.map");
    assert_eq!(m.terrain.get(&1), Some(&2));
    assert_eq!(again.terrain.get(&1), Some(&8));
}

#[test]
fn an_edited_map_reads_back_from_its_text() {
    let mut m = MapFile::parse(TEXT, "a.map");
    m.set_name(2, Some("High \"Pass\""));
    m.set_neighbour(2, 3, true);
    m.set_spec(3, 2, 8);
    m.set_terrain(3, 16);
    let again = MapFile::parse(&m.to_text(), "a.map");
    assert_eq!(again.name_of(1), m.name_of(1));
    assert_eq!(again.name_of(2), Some("High 'Pass'"));
    assert!(again.are_neighbours(3, 2));
    assert_eq!(again.spec_between(2, 3), 8);
    assert_eq!(again.spec_between(1, 2), m.spec_between(1, 2));
    assert_eq!(again.to_text(), m.to_text());
    assert_eq!(again.title, m.title);
    assert_eq!(again.terrain, m.terrain);
    assert_eq!(again.names, m.names);
    assert_eq!(again.neighbours, m.neighbours);
}

#[test]
fn a_map_file_is_read_from_its_bytes() {
    let m = MapFile::parse_bytes(b"#dom2title caf\xe9\r\n#terrain 1 4\r\n", "x.map");
    assert_eq!(m.title, "caf\u{fffd}");
    assert_eq!(m.to_text(), "#dom2title caf\u{fffd}\r\n#terrain 1 4\r\n");
}

#[test]
fn runs_that_meet_name_different_provinces_and_skip_empty_pixels() {
    let mut m = MapFile::parse("#dom2title a", "c.map");
    m.replace_pb(5, 1, &[3, 3, 5, -1, 5]);
    assert_eq!(m.to_text(), "#dom2title a\n\n#pb 0 0 2 3\n#pb 2 0 1 5\n#pb 4 0 1 5");
    assert_eq!(m.pb_count, 3);
}
