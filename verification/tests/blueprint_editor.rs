use dom6_simple_map_editor::blueprint_editor::{Canvas, Paint, Tool, CANVAS_SHAPES};

fn count(c: &Canvas, paint: Paint) -> usize {
    c.cells.iter().filter(|v| **v == paint.index()).count()
}

#[test]
fn a_stroke_paints_a_line_of_discs() {
    let mut c = Canvas::new(32, 32, Paint::Sea);
    c.stroke((4, 16), (27, 16), 3, Paint::Land);
    for x in 4..=27 {
        assert_eq!(c.get(x, 16), Some(Paint::Land), "x={x}");
        assert_eq!(c.get(x, 15), Some(Paint::Land), "x={x}");
    }
    assert_eq!(c.get(2, 16), Some(Paint::Sea));
    assert_eq!(c.get(29, 16), Some(Paint::Sea));
    assert_eq!(c.get(0, 0), Some(Paint::Sea));
    assert_eq!(c.get(16, 13), Some(Paint::Sea));
}

#[test]
fn a_size_one_brush_touches_one_pixel() {
    let mut c = Canvas::new(8, 8, Paint::Sea);
    c.disc(3, 3, 1, Paint::Land);
    assert_eq!(count(&c, Paint::Land), 1);
    assert_eq!(c.get(3, 3), Some(Paint::Land));
}

#[test]
fn discs_are_clipped_at_the_edges() {
    let mut c = Canvas::new(16, 16, Paint::Sea);
    c.disc(0, 0, 9, Paint::Land);
    assert_eq!(c.get(0, 0), Some(Paint::Land));
    assert_eq!(c.get(4, 0), Some(Paint::Land));
    assert_eq!(c.get(5, 0), Some(Paint::Sea));
    let mut whole = Canvas::new(16, 16, Paint::Sea);
    whole.disc(8, 8, 9, Paint::Land);
    assert!(count(&c, Paint::Land) < count(&whole, Paint::Land));
    c.stroke((-40, -40), (60, 60), 7, Paint::NoStartLand);
    assert_eq!(c.get(15, 15), Some(Paint::NoStartLand));
}

#[test]
fn flood_fill_stops_at_a_painted_border() {
    let mut c = Canvas::new(16, 16, Paint::Sea);
    c.stroke((8, 0), (8, 15), 1, Paint::Land);
    assert!(c.flood_fill(0, 0, Paint::NoStartSea));
    assert_eq!(c.get(7, 9), Some(Paint::NoStartSea));
    assert_eq!(c.get(8, 9), Some(Paint::Land));
    assert_eq!(c.get(9, 9), Some(Paint::Sea));
    assert!(!c.flood_fill(0, 0, Paint::NoStartSea));
    assert!(!c.flood_fill(-1, 0, Paint::Land));
}

#[test]
fn a_disc_of_size_three_is_a_plus_with_corners_cut() {
    let mut c = Canvas::new(5, 5, Paint::Sea);
    c.disc(2, 2, 3, Paint::Land);
    // radius 1.5: the centre, its four sides and the four diagonal cells
    assert_eq!(count(&c, Paint::Land), 9);
    let mut d = Canvas::new(5, 5, Paint::Sea);
    d.disc(2, 2, 2, Paint::Land);
    // radius 1: the centre and its four sides
    assert_eq!(count(&d, Paint::Land), 5);
    assert_eq!(d.get(1, 1), Some(Paint::Sea));
}

#[test]
fn a_diagonal_stroke_visits_every_step() {
    let mut c = Canvas::new(6, 6, Paint::Sea);
    c.stroke((0, 0), (5, 5), 1, Paint::Land);
    for k in 0..6 {
        assert_eq!(c.get(k, k), Some(Paint::Land));
    }
    assert_eq!(count(&c, Paint::Land), 6);
    let mut s = Canvas::new(4, 4, Paint::Sea);
    s.stroke((2, 1), (2, 1), 1, Paint::NoStartLand);
    assert_eq!(count(&s, Paint::NoStartLand), 1);
}

#[test]
fn flood_fill_from_a_walled_corner_fills_only_the_corner() {
    let mut c = Canvas::new(4, 4, Paint::Sea);
    c.set(1, 0, Paint::Land);
    c.set(0, 1, Paint::Land);
    c.set(1, 1, Paint::Land);
    assert!(c.flood_fill(0, 0, Paint::NoStartLand));
    assert_eq!(count(&c, Paint::NoStartLand), 1);
    // the fill follows the land through its sides only
    assert!(c.flood_fill(1, 1, Paint::Sea));
    assert_eq!(count(&c, Paint::Land), 0);
    assert_eq!(count(&c, Paint::Sea), 15);
}

#[test]
fn new_canvases_are_at_least_one_cell_and_fill() {
    let c = Canvas::new(0, 0, Paint::NoStartSea);
    assert_eq!((c.w, c.h), (1, 1));
    assert_eq!(c.cells, vec![3]);
    let mut d = Canvas::new(3, 2, Paint::Land);
    assert_eq!(d.cells.len(), 6);
    d.fill_all(Paint::Sea);
    assert_eq!(count(&d, Paint::Sea), 6);
    assert_eq!(d.get(3, 0), None);
    assert_eq!(d.get(0, -1), None);
    d.set(5, 5, Paint::Land);
    assert_eq!(count(&d, Paint::Sea), 6);
}

#[test]
fn resampling_takes_the_nearest_cell() {
    let mut c = Canvas::new(2, 2, Paint::Sea);
    c.set(1, 0, Paint::Land);
    let r = c.resampled(4, 4);
    assert_eq!((r.w, r.h), (4, 4));
    assert_eq!(r.get(2, 0), Some(Paint::Land));
    assert_eq!(r.get(3, 1), Some(Paint::Land));
    assert_eq!(r.get(1, 0), Some(Paint::Sea));
    assert_eq!(r.get(3, 2), Some(Paint::Sea));
    let back = r.resampled(2, 2);
    assert_eq!(back, c);
}

#[test]
fn the_colours_are_four_bytes_a_cell() {
    let mut c = Canvas::new(2, 1, Paint::Sea);
    c.set(0, 0, Paint::Land);
    assert_eq!(c.rgba(), vec![5, 78, 32, 255, 33, 5, 144, 255]);
}

#[test]
fn paints_round_trip_through_their_numbers_and_codes() {
    for p in [Paint::Land, Paint::Sea, Paint::NoStartLand, Paint::NoStartSea] {
        assert_eq!(Paint::from_index(p.index()), p);
        assert_eq!(Paint::from_code(p.code()), p);
        assert!(!p.label().is_empty());
        assert!(!p.hint().is_empty());
    }
    assert_eq!(Paint::from_index(9), Paint::NoStartSea);
    assert_eq!(Paint::from_code(0), Paint::Sea);
    assert_eq!(Paint::NoStartLand.label(), "Land, no start");
    assert_eq!(Paint::Sea.hint(), "Water that players may start in");
    assert!(Tool::Brush != Tool::Fill);
    assert_eq!(CANVAS_SHAPES[2], ("2:1", 256, 128));
}

use dom6_simple_map_editor::blueprint_editor::{blueprint_rgba, encode_png, BlueprintEditor, UNDO_DEPTH};
use dom6_simple_map_editor::textures::decode_png;

fn mask_of(c: &Canvas) -> Vec<i8> {
    c.cells.iter().map(|v| Paint::from_index(*v).code()).collect()
}

#[test]
fn undo_restores_the_previous_canvas() {
    let mut e = BlueprintEditor::new(None);
    assert!(!e.can_undo());
    let before = e.canvas.clone();
    e.push_undo();
    e.canvas.disc(10, 10, 9, Paint::Land);
    assert_ne!(e.canvas, before);
    assert!(e.undo());
    assert_eq!(e.canvas, before);
    assert!(!e.undo());
}

#[test]
fn undo_keeps_a_bounded_stack() {
    let mut e = BlueprintEditor::new(None);
    for i in 0..UNDO_DEPTH + 10 {
        e.push_undo();
        e.canvas.set(i as i32 % 40, 0, Paint::Land);
    }
    assert_eq!(e.undo_len(), UNDO_DEPTH);
}

#[test]
fn export_uses_bgra_and_the_canvas_size() {
    let mut c = Canvas::new(4, 3, Paint::Sea);
    c.set(0, 0, Paint::Land);
    let bp = c.to_blueprint();
    assert_eq!((bp.w, bp.h), (4, 3));
    assert_eq!(bp.bgra.len(), 4 * 3 * 4);
    assert_eq!(&bp.bgra[0..4], &[32, 78, 5, 255]);
    assert_eq!(&bp.bgra[4..8], &[144, 5, 33, 255]);
}

#[test]
fn changing_the_canvas_shape_keeps_the_drawing() {
    let mut e = BlueprintEditor::new(None);
    e.canvas.fill_all(Paint::Land);
    e.set_shape(2);
    assert_eq!((e.canvas.w, e.canvas.h), (256, 128));
    assert_eq!(count(&e.canvas, Paint::Land), 256 * 128);
    assert!(e.can_undo());
    e.set_shape(2);
    assert_eq!((e.canvas.w, e.canvas.h), (256, 128));
}

#[test]
fn a_new_editor_starts_from_the_image_it_is_given() {
    let mut src = Canvas::new(16, 16, Paint::Land);
    src.set(0, 0, Paint::Sea);
    let bp = src.to_blueprint();
    let mask = mask_of(&src);
    let e = BlueprintEditor::new(Some((&bp, &mask)));
    assert_eq!((e.canvas.w, e.canvas.h), (256, 256));
    assert_eq!(e.canvas.get(0, 0), Some(Paint::Sea));
    assert_eq!(e.canvas.get(255, 255), Some(Paint::Land));
}

#[test]
fn a_png_of_the_canvas_decodes_back_to_the_same_pixels() {
    let mut c = Canvas::new(8, 5, Paint::Sea);
    c.disc(4, 2, 3, Paint::Land);
    let rgba = c.rgba();
    let bytes = encode_png(c.w, c.h, &rgba).unwrap();
    let img = decode_png(&bytes).unwrap();
    assert_eq!((img.w, img.h), (8, 5));
    assert_eq!(img.rgba, rgba);
    assert_eq!(blueprint_rgba(&c.to_blueprint()), rgba);
}

#[test]
fn the_overlay_paints_one_colour_per_class() {
    let mut c = Canvas::new(2, 2, Paint::Sea);
    c.set(0, 0, Paint::Land);
    c.set(0, 1, Paint::NoStartLand);
    c.set(1, 1, Paint::NoStartSea);
    let o = c.classification_rgba(&mask_of(&c));
    assert_eq!(&o[0..4], &[96, 176, 96, 255]);
    assert_eq!(&o[4..8], &[70, 110, 200, 255]);
    assert_eq!(&o[8..12], &[150, 150, 150, 255]);
    assert_eq!(&o[12..16], &[80, 80, 80, 255]);
}

#[test]
fn a_canvas_read_from_its_mask_is_the_same_canvas() {
    let mut c = Canvas::new(2, 2, Paint::Sea);
    c.set(0, 0, Paint::Land);
    c.set(0, 1, Paint::NoStartLand);
    c.set(1, 1, Paint::NoStartSea);
    let bp = c.to_blueprint();
    let back = Canvas::from_blueprint(&bp, &mask_of(&c), 2, 2);
    assert_eq!(back, c);
    let short = Canvas::from_blueprint(&bp, &[1, 1], 2, 2);
    assert_eq!(count(&short, Paint::Sea), 4);
}

#[test]
fn undo_after_replace_brings_back_the_old_canvas_and_the_shape_list_ends() {
    let mut e = BlueprintEditor::new(None);
    let before = e.canvas.clone();
    e.replace(Canvas::new(3, 3, Paint::Land));
    assert_eq!((e.canvas.w, e.canvas.h), (3, 3));
    assert!(e.undo());
    assert_eq!(e.canvas, before);
    e.set_shape(9);
    assert_eq!(e.shape, 0);
    assert!(!e.can_undo());
}

#[test]
fn an_encoder_refuses_an_empty_image() {
    assert!(encode_png(0, 0, &[]).is_err());
}

#[test]
fn pixels_that_do_not_fill_the_sides_get_the_encoders_size_error() {
    assert_eq!(
        encode_png(2, 2, &[0; 3]),
        Err("wrong data size, expected 16 got 3".to_string())
    );
}
