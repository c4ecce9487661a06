use dom6_simple_map_editor::blueprint_editor::encode_png;
use dom6_simple_map_editor::textures::{
    decode_png, image_from_png_frame, Frame, Image, PngFrame, Tex, TexSet, ALL,
};

fn img(w: usize, h: usize, f: impl Fn(usize) -> u8) -> Image {
    Image { w, h, rgba: (0..w * h * 4).map(f).collect() }
}

#[test]
fn every_texture_names_its_file() {
    assert_eq!(Tex::Plain.file_stem(), "bg_plain");
    assert_eq!(Tex::Kelpforest.file_stem(), "bg_kelpforest");
    assert_eq!(ALL.len(), 28);
    assert_eq!(ALL[27], Tex::Unknown);
}

#[test]
fn flipping_twice_gives_the_image_back() {
    let mut a = img(2, 3, |i| i as u8);
    let orig = a.rgba.clone();
    a.flip_rows();
    assert_eq!(&a.rgba[0..8], &orig[16..24]);
    a.flip_rows();
    assert_eq!(a.rgba, orig);
}

#[test]
fn tiling_wraps_around_the_edges() {
    let a = img(2, 2, |i| i as u8);
    assert_eq!(a.at(1, 1), [12, 13, 14, 15]);
    assert_eq!(a.tiled(3, 2), [4, 5, 6, 7]);
}

#[test]
fn a_frame_premultiplies_and_halves_down_to_two_pixels() {
    let a = img(8, 8, |i| if i % 4 == 3 { 128 } else { 200 });
    let f = Frame::from_image(a);
    let sizes: Vec<(usize, usize)> = f.mips.iter().map(|m| (m.w, m.h)).collect();
    assert_eq!(sizes, vec![(8, 8), (4, 4), (2, 2)]);
    assert_eq!(f.mips[0].rgba[0], ((200u32 * 128 + 127) / 255) as u8);
    assert_eq!(f.mips[2].rgba[3], 128);
    assert_eq!(f.level_for(4).w, 4);
    assert_eq!(f.level_for(100).w, 8);
    assert_eq!(f.level_for(1).w, 2);
}

#[test]
fn a_texture_set_hands_out_its_images_and_frames() {
    let set = TexSet::from_images(vec![img(1, 1, |_| 7), img(2, 1, |i| i as u8)]);
    assert!(set.frame(0).is_none());
    assert_eq!(set.get(Tex::Ash).w, 2);
    assert_eq!(set.sample(Tex::Ash, 3, 5), [4, 5, 6, 7]);
    let set = set.with_frames(vec![Frame::from_image(img(1, 1, |_| 9))]);
    assert!(set.frame(0).is_some());
    assert!(set.frame(-1).is_none());
    assert!(set.frame(1).is_none());
}

#[test]
fn grey_and_rgb_frames_become_rgba_and_others_are_refused() {
    let grey = PngFrame { width: 2, height: 1, color: 0, depth: 8, data: vec![10, 20] };
    assert_eq!(image_from_png_frame(grey).unwrap().rgba, vec![10, 10, 10, 255, 20, 20, 20, 255]);
    let rgb = PngFrame { width: 1, height: 1, color: 2, depth: 8, data: vec![1, 2, 3] };
    assert_eq!(image_from_png_frame(rgb).unwrap().rgba, vec![1, 2, 3, 255]);
    let ga = PngFrame { width: 1, height: 1, color: 4, depth: 8, data: vec![5, 6] };
    assert_eq!(image_from_png_frame(ga).unwrap().rgba, vec![5, 5, 5, 6]);
    let pal = PngFrame { width: 1, height: 1, color: 3, depth: 8, data: vec![0] };
    assert_eq!(image_from_png_frame(pal).err().unwrap(), "unsupported png Indexed Eight");
    let deep = PngFrame { width: 1, height: 1, color: 6, depth: 16, data: vec![0; 8] };
    assert_eq!(image_from_png_frame(deep).err().unwrap(), "unsupported png Rgba Sixteen");
}

#[test]
fn a_png_round_trips_and_garbage_is_refused() {
    let rgba: Vec<u8> = (0..3 * 2 * 4).map(|i| (i * 9) as u8).collect();
    let bytes = encode_png(3, 2, &rgba).unwrap();
    let back = decode_png(&bytes).unwrap();
    assert_eq!((back.w, back.h), (3, 2));
    assert_eq!(back.rgba, rgba);
    assert!(decode_png(b"not a png").is_err());
}
