use dom6_simple_map_editor::starts::{place, PlaneGraph, Want};
use dom6_simple_map_editor::terrain::{FOREST, NO_START, SEA};

fn grid(w: usize, h: usize, sea: &[usize], forest: &[usize]) -> PlaneGraph {
    let n = w * h;
    let mut flags = vec![0u64; n + 1];
    let mut nbors = vec![Vec::new(); n + 1];
    for i in 0..n {
        let (x, y) = (i % w, i / w);
        let p = i + 1;
        if sea.contains(&p) {
            flags[p] |= SEA;
        }
        if forest.contains(&p) {
            flags[p] |= FOREST;
        }
        if x + 1 < w {
            nbors[p].push((p + 1) as u32);
            nbors[p + 1].push(p as u32);
        }
        if y + 1 < h {
            nbors[p].push((p + w) as u32);
            nbors[p + w].push(p as u32);
        }
    }
    PlaneGraph {
        flags,
        nbors,
        areas: vec![1; n + 1],
        cave: false,
    }
}

fn want(nation: u32) -> Want {
    Want {
        nation,
        uw: false,
        coast: false,
        cave: 0,
        likesterr: 0,
    }
}

#[test]
fn water_nations_get_sea_and_land_nations_get_land_far_apart() {
    let plane = grid(6, 6, &[1, 2, 7, 8, 36, 35], &[15, 16]);
    let wants = vec![
        Want {
            uw: true,
            ..want(43)
        },
        want(5),
        Want {
            likesterr: FOREST,
            ..want(7)
        },
        Want {
            coast: true,
            ..want(29)
        },
    ];
    let placed = place(&[plane], &[], &wants, 7);
    assert_eq!(placed.len(), 4);
    let plane = grid(6, 6, &[1, 2, 7, 8, 36, 35], &[15, 16]);
    let by = |n: u32| placed.iter().find(|p| p.nation == n).unwrap().prov as usize;
    assert!(plane.flags[by(43)] & SEA != 0);
    assert!(plane.flags[by(5)] & SEA == 0);
    let alone = place(
        &[grid(6, 6, &[1, 2, 7, 8, 36, 35], &[15, 16])],
        &[],
        &[Want {
            likesterr: FOREST,
            ..want(7)
        }],
        7,
    );
    assert!(plane.flags[alone[0].prov as usize] & FOREST != 0);
    let coast = by(29);
    assert!(plane.flags[coast] & SEA == 0);
    assert!(plane.nbors[coast]
        .iter()
        .any(|&n| plane.flags[n as usize] & SEA != 0));
    let mut provs: Vec<u32> = placed.iter().map(|p| p.prov).collect();
    provs.dedup();
    assert_eq!(provs.len(), 4);
    for a in &placed {
        for b in &placed {
            if a.nation != b.nation {
                let (ax, ay) = ((a.prov as usize - 1) % 6, (a.prov as usize - 1) / 6);
                let (bx, by2) = ((b.prov as usize - 1) % 6, (b.prov as usize - 1) / 6);
                assert!(ax.abs_diff(bx) + ay.abs_diff(by2) >= 2);
            }
        }
    }
}

#[test]
fn cave_nations_go_to_the_cave_plane_through_the_gates() {
    let surface = grid(4, 4, &[], &[]);
    let mut caves = grid(3, 3, &[], &[]);
    caves.cave = true;
    let wants = vec![
        Want {
            cave: 2,
            ..want(15)
        },
        want(5),
        want(6),
    ];
    let placed = place(&[surface, caves], &[((0, 1), (1, 1))], &wants, 3);
    assert_eq!(placed.len(), 3);
    let agartha = placed.iter().find(|p| p.nation == 15).unwrap();
    assert_eq!(agartha.plane, 1);
    assert!(placed
        .iter()
        .filter(|p| p.nation != 15)
        .all(|p| p.plane == 0));
}

#[test]
fn no_start_provinces_are_skipped() {
    let mut plane = grid(3, 1, &[], &[]);
    plane.flags[1] |= NO_START;
    plane.flags[3] |= NO_START;
    let placed = place(&[plane], &[], &[want(5)], 1);
    assert_eq!(placed[0].prov, 2);
}

#[test]
fn every_want_is_placed_while_provinces_last() {
    let plane = grid(2, 1, &[], &[]);
    let placed = place(&[plane], &[], &[want(1), want(2), want(3)], 9);
    assert_eq!(placed.len(), 2);
    assert_ne!(placed[0].prov, placed[1].prov);
    assert_eq!(placed[0].nation, 1);
    assert_eq!(placed[1].nation, 2);
}

#[test]
fn a_province_without_neighbours_holds_no_start() {
    let plane = PlaneGraph {
        flags: vec![0, 0, 0],
        nbors: vec![vec![], vec![], vec![]],
        areas: vec![1, 1, 1],
        cave: false,
    };
    let placed = place(&[plane], &[], &[want(4)], 2);
    assert!(placed.is_empty());
}
