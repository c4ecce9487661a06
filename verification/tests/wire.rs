use dom6_simple_map_editor::blueprint_editor::Blueprint;
use dom6_simple_map_editor::generator_panel::GeneratedPlane;
use dom6_simple_map_editor::wire::{
    decode_done, decode_job, decode_progress, encode_done, encode_job, encode_progress, Gate, Job,
    Mode, Options, Reader, Writer,
};

fn options() -> Options {
    Options {
        width: -1,
        height: -1,
        provinces: 200,
        sea_part: 30,
        mount_part: 10,
        forest_part: 10,
        farm_part: 10,
        swamp_part: 5,
        waste_part: 5,
        highland_part: 5,
        kelp_part: 3,
        gorge_part: 2,
        river_part: 100,
        hills: 50,
        rugedness: 40,
        sea_size: 500,
        extra_islands: 0,
        bridges: 20,
        no_water_prov: false,
        hwrap: true,
        vwrap: false,
        blueprint: Some(Blueprint { w: 2, h: 1, bgra: vec![1, 2, 3, 4, 5, 6, 7, 8] }),
        blue_acc: 80,
        cave_world: false,
        caves_plane: true,
        cave_part: 25,
        cave_blueprint: None,
        rugedness_bits: Some(0.25f32.to_bits()),
    }
}

#[test]
fn a_job_survives_the_round_trip() {
    let job = Job {
        opts: options(),
        seed: 77,
        name: "ring".to_string(),
        mode: Mode::PerPlayer { players: 5, per: 13 },
    };
    let back = decode_job(&encode_job(&job)).expect("decode");
    assert_eq!(back, job);
}

#[test]
fn a_result_survives_the_round_trip() {
    let planes = vec![GeneratedPlane {
        d6m: vec![9, 8, 7],
        map_text: "#dom2title x\n".to_string(),
        width: 40,
        height: 30,
        provinces: 12,
    }];
    let gates = vec![Gate { surface: 3, cave: 14 }];
    let (p, g) = decode_done(&encode_done(&planes, &gates)).expect("decode");
    assert_eq!(p.len(), 1);
    assert_eq!(p[0].d6m, vec![9, 8, 7]);
    assert_eq!(p[0].map_text, "#dom2title x\n");
    assert_eq!(p[0].provinces, 12);
    assert_eq!(g.len(), 1);
    assert_eq!((g[0].surface, g[0].cave), (3, 14));
    let (stage, done, total) = decode_progress(&encode_progress(6, 4, 9), 10).unwrap();
    assert_eq!((stage, done, total), (6, 4, 9));
}

#[test]
fn broken_messages_are_refused_with_a_reason() {
    assert_eq!(decode_progress(&[1], 10).err().unwrap(), "not a progress message");
    assert_eq!(decode_progress(&encode_progress(12, 0, 0), 10).err().unwrap(), "unknown stage 12");
    assert_eq!(decode_progress(&[0, 1, 2], 10).err().unwrap(), "message truncated at byte 2 of 3");
    assert_eq!(decode_done(&[0]).err().unwrap(), "not a result message");
    let mut done = encode_done(&[], &[]);
    done.push(0);
    assert_eq!(decode_done(&done).err().unwrap(), "result message has trailing bytes");
    let mut job = encode_job(&Job { opts: options(), seed: 1, name: "x".into(), mode: Mode::Terrain });
    let last = job.len() - 1;
    job[last] = 7;
    assert_eq!(decode_job(&job).err().unwrap(), "unknown generation mode 7");
}

#[test]
fn the_writer_and_reader_agree_field_by_field() {
    let mut w = Writer::default();
    w.u8(7);
    w.bool(true);
    w.i32(-5);
    w.u32(0x0102_0304);
    w.bytes(&[9, 9]);
    w.str("héllo");
    let bytes = w.finish();
    assert_eq!(&bytes[0..6], &[7, 1, 0xfb, 0xff, 0xff, 0xff]);
    let mut r = Reader::new(&bytes);
    assert_eq!(r.u8().unwrap(), 7);
    assert!(r.bool().unwrap());
    assert_eq!(r.i32().unwrap(), -5);
    assert_eq!(r.u32().unwrap(), 0x0102_0304);
    assert_eq!(r.bytes().unwrap(), &[9, 9]);
    assert_eq!(r.str().unwrap(), "héllo");
    assert!(r.done());
    assert!(r.u8().is_err());
}

#[test]
fn bytes_that_are_not_utf8_are_read_lossily() {
    let mut w = Writer::default();
    w.bytes(&[0x61, 0xff, 0x62]);
    let bytes = w.finish();
    let mut r = Reader::new(&bytes);
    assert_eq!(r.str().unwrap(), "a\u{fffd}b");
}
