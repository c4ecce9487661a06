use dom6_simple_map_editor::textures::Image;
use dom6_simple_map_editor::tga::{decode, encode_rgba_bottom_up};

#[test]
fn an_image_written_as_tga_reads_back() {
    let img = Image { w: 3, h: 2, rgba: (0..24).map(|i| i as u8).collect() };
    let bytes = encode_rgba_bottom_up(&img);
    assert_eq!(&bytes[..18], &[0, 0, 2, 0, 0, 0, 0, 0, 0, 0, 0, 0, 3, 0, 2, 0, 32, 8]);
    assert_eq!(&bytes[18..22], &[2, 1, 0, 3]);
    let back = decode(&bytes).unwrap();
    assert_eq!((back.w, back.h), (3, 2));
    assert_eq!(back.rgba, img.rgba);
}

#[test]
fn run_length_packets_expand_and_top_down_files_are_flipped() {
    let mut b = vec![0u8, 0, 10, 0, 0, 0, 0, 0, 0, 0, 0, 0, 2, 0, 2, 0, 24, 0x20];
    b.extend_from_slice(&[0x81, 1, 2, 3]);
    b.extend_from_slice(&[0x01, 4, 5, 6, 7, 8, 9]);
    let img = decode(&b).unwrap();
    assert_eq!((img.w, img.h), (2, 2));
    assert_eq!(img.rgba, vec![6, 5, 4, 255, 9, 8, 7, 255, 3, 2, 1, 255, 3, 2, 1, 255]);
}

#[test]
fn broken_tga_files_say_what_is_wrong() {
    assert_eq!(decode(&[0; 5]).err().unwrap(), "tga too short");
    let mut h = vec![0u8; 18];
    h[1] = 1;
    assert_eq!(decode(&h).err().unwrap(), "colour-mapped tga not supported");
    h[1] = 0;
    h[2] = 1;
    assert_eq!(decode(&h).err().unwrap(), "unsupported tga type 1");
    h[2] = 2;
    h[16] = 16;
    assert_eq!(decode(&h).err().unwrap(), "unsupported tga depth 16");
    h[16] = 32;
    h[12] = 1;
    h[14] = 1;
    assert_eq!(decode(&h).err().unwrap(), "tga pixel data truncated");
    h[2] = 10;
    assert_eq!(decode(&h).err().unwrap(), "tga rle truncated");
}
