use dom6_simple_map_editor::d6m::{D6m, Province};
use dom6_simple_map_editor::project::{apply_owner_changes, apply_pixel_changes, backup_path, generated_map_text, union, Edit};
use dom6_simple_map_editor::map_chooser::name_of;
use dom6_simple_map_editor::mapfile::{plane_file_name, strip_plane_suffix};
use dom6_simple_map_editor::render::Rect;

#[test]
fn a_backup_sits_beside_the_file() {
    assert_eq!(backup_path("maps/a.map"), "maps/a.map.bak");
}

#[test]
fn two_areas_join_into_one() {
    let a = Rect { x0: 0, y0: 5, x1: 3, y1: 9 };
    let b = Rect { x0: -2, y0: 6, x1: 1, y1: 12 };
    let u = union(Some(a), Some(b)).unwrap();
    assert_eq!((u.x0, u.y0, u.x1, u.y1), (-2, 5, 3, 12));
    assert!(union(None, None).is_none());
    let only = union(None, Some(a)).unwrap();
    assert_eq!((only.x0, only.y1), (0, 9));
}

#[test]
fn an_empty_edit_changes_nothing() {
    let e = Edit { label: "x".to_string(), heights: vec![], owners: vec![], map: vec![], rect: None };
    assert!(e.is_empty());
    let f = Edit { label: "y".to_string(), heights: vec![(1, 0, 2)], owners: vec![], map: vec![], rect: None };
    assert!(!f.is_empty());
}

#[test]
fn a_generated_map_lists_terrain_and_touching_provinces() {
    let d = D6m {
        version: 1,
        width: 3,
        height: 2,
        passthrough: 0,
        scale_frac: 0,
        scale_int: 1,
        provinces: vec![
            Province { x: 0, y: 0, terrain: 4 },
            Province { x: 2, y: 0, terrain: 128 },
            Province { x: 0, y: 1, terrain: 0 },
        ],
        heights: vec![0; 6],
        owners: vec![1, 2, 2, 3, 3, 0],
        trailing: vec![],
    };
    let text = generated_map_text("world", &d);
    assert_eq!(
        text,
        "#dom2title world\n#imagefile world.d6m\n#mapsize 3 2\n\n#terrain 1 4\n#terrain 2 128\n#terrain 3 0\n\n#neighbour 1 2\n#neighbour 1 3\n#neighbour 2 3\n"
    );
}

#[test]
fn an_edit_undone_gives_the_pixels_back() {
    let start = vec![0i16, 5, 7, 9];
    let changes = [(1u32, 5i16, 6i16), (1, 6, 8), (3, 9, -2)];
    let mut v = start.clone();
    apply_pixel_changes(&mut v, &changes, false);
    assert_eq!(v, vec![0, 8, 7, -2]);
    apply_pixel_changes(&mut v, &changes, true);
    assert_eq!(v, start);
}

#[test]
fn a_planes_file_name_reads_back_as_its_base_and_plane() {
    for n in [0u32, 1, 2, 9, 12] {
        let file = plane_file_name("island", n, "map");
        let (base, plane) = strip_plane_suffix(&name_of(&file));
        assert_eq!(base, "island");
        assert_eq!(plane, if n <= 1 { 1 } else { n });
    }
}

#[test]
fn owner_changes_keep_the_pixel_counts() {
    let start = vec![1i16, 1, 2, 0];
    let mut owners = start.clone();
    let mut counts = vec![7u32, 2, 1];
    let changes = [(0u32, 1i16, 2i16), (3, 0, 1), (2, 2, 5)];
    apply_owner_changes(&mut owners, &mut counts, &changes, false);
    assert_eq!(owners, vec![2, 1, 5, 1]);
    assert_eq!(counts, vec![7, 2, 1]);
    apply_owner_changes(&mut owners, &mut counts, &changes, true);
    assert_eq!(owners, start);
    assert_eq!(counts, vec![7, 2, 1]);
}
