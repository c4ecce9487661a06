use dom6_simple_map_editor::zipfile::{build, crc32};

#[test]
fn the_crc_matches_the_reference_value() {
    assert_eq!(crc32(b"123456789"), 0xcbf4_3926);
}

#[test]
fn the_archive_lists_every_file_in_the_central_directory() {
    let z = build(&[
        ("a.map".to_string(), b"#dom2title a\n".to_vec()),
        ("a.d6m".to_string(), vec![1, 2, 3]),
    ]);
    assert_eq!(&z[..4], &[0x50, 0x4b, 0x03, 0x04]);
    let end = z.len() - 22;
    assert_eq!(&z[end..end + 4], &[0x50, 0x4b, 0x05, 0x06]);
    assert_eq!(u16::from_le_bytes([z[end + 10], z[end + 11]]), 2);
    let central_offset =
        u32::from_le_bytes([z[end + 16], z[end + 17], z[end + 18], z[end + 19]]) as usize;
    assert_eq!(
        &z[central_offset..central_offset + 4],
        &[0x50, 0x4b, 0x01, 0x02]
    );
    assert!(z.windows(5).any(|w| w == b"a.d6m"));
}

#[test]
fn an_empty_input_has_the_empty_crc_and_an_end_record_only() {
    assert_eq!(crc32(b""), 0);
    let z = build(&[]);
    assert_eq!(z, vec![0x50, 0x4b, 0x05, 0x06, 0, 0, 0, 0, 0, 0, 0, 0, 0, 0, 0, 0, 0, 0, 0, 0, 0, 0]);
}

#[test]
fn a_stored_entry_carries_its_crc_and_sizes() {
    let z = build(&[("x".to_string(), b"abc".to_vec())]);
    assert_eq!(u32::from_le_bytes([z[14], z[15], z[16], z[17]]), crc32(b"abc"));
    assert_eq!(crc32(b"abc"), 0x3524_41c2);
    assert_eq!(u32::from_le_bytes([z[18], z[19], z[20], z[21]]), 3);
    assert_eq!(&z[30..34], b"xabc");
}
