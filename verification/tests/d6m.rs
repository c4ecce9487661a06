use dom6_simple_map_editor::d6m::{D6m, Error, Province, END_MAGIC, MAGIC};

fn sample(version: i32) -> D6m {
    D6m {
        version,
        width: 3,
        height: 2,
        passthrough: if version > 1 { -7 } else { 0 },
        scale_frac: 0x8000,
        scale_int: 12,
        provinces: vec![
            Province { x: 1, y: 0, terrain: if version > 2 { 4 } else { 0 } },
            Province { x: 2, y: 1, terrain: if version > 2 { -1 } else { 0 } },
        ],
        heights: vec![0, -16, 32, 100, -32000, 32000],
        owners: vec![1, 1, 2, 2, 0, -1],
        trailing: vec![9, 8],
    }
}

#[test]
fn a_recipe_reads_back_what_it_writes_in_every_version() {
    for v in [1, 2, 3, 7] {
        let d = sample(v);
        let b = d.to_bytes();
        let back = D6m::parse(&b).expect("parse");
        assert_eq!(back, d);
        assert_eq!(back.to_bytes(), b);
    }
}

#[test]
fn the_layout_of_a_version_three_recipe() {
    let b = sample(3).to_bytes();
    assert_eq!(i32::from_le_bytes([b[0], b[1], b[2], b[3]]), MAGIC);
    assert_eq!(b.len(), 34 + 2 * 12 + 6 * 4 + 4 + 2);
    let end = b.len() - 6;
    assert_eq!(i32::from_le_bytes([b[end], b[end + 1], b[end + 2], b[end + 3]]), END_MAGIC);
    let v1 = sample(1).to_bytes();
    assert_eq!(v1.len(), 26 + 2 * 4 + 6 * 4 + 4 + 2);
}

#[test]
fn broken_files_are_refused_with_the_reason() {
    let b = sample(3).to_bytes();
    assert!(matches!(D6m::parse(&b[..3]), Err(Error::Truncated(0))));
    assert!(matches!(D6m::parse(&b[..10]), Err(Error::Truncated(8))));
    assert!(matches!(D6m::parse(&b[..20]), Err(Error::Truncated(16))));
    assert!(matches!(D6m::parse(&b[..30]), Err(Error::Truncated(30))));
    assert!(matches!(D6m::parse(&b[..36]), Err(Error::Truncated(36))));
    assert!(matches!(D6m::parse(&b[..40]), Err(Error::Truncated(38))));
    assert!(matches!(D6m::parse(&b[..60]), Err(Error::Truncated(58))));
    assert!(matches!(D6m::parse(&b[..b.len() - 3]), Err(Error::Truncated(82))));
    let mut bad = b.clone();
    bad[0] = 0;
    assert!(matches!(D6m::parse(&bad), Err(Error::BadMagic(_))));
    let mut bad = b.clone();
    bad[8] = 0;
    assert!(matches!(D6m::parse(&bad), Err(Error::BadSize(0, 2))));
    let mut bad = b.clone();
    bad[33] = 0x80;
    assert!(matches!(D6m::parse(&bad), Err(Error::BadProvinceCount(_))));
    let mut bad = b.clone();
    bad[82] = 0;
    assert!(matches!(D6m::parse(&bad), Err(Error::BadEndMagic(0x400))));
}

#[test]
fn the_owner_field_tells_its_largest_province() {
    let d = sample(3);
    assert_eq!(d.max_owner(), 2);
    assert_eq!(d.pixel_count(), 6);
    let mut e = sample(3);
    e.owners = vec![];
    assert_eq!(e.max_owner(), 0);
    e.owners = vec![-5, -3];
    assert_eq!(e.max_owner(), -3);
}
