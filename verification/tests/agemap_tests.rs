use canvas_replay::agemap::{replay_agemap, AgeEngine};
use canvas_replay::color::Rgba;
use canvas_replay::engine::Placement;
use canvas_replay::gradient::Gradient;
use canvas_replay::tiers::{Tier, TierTable};

fn table() -> TierTable {
    TierTable {
        frame_width: 10,
        frame_height: 10,
        tiers: vec![
            Tier { width: 4, height: 4 },
            Tier { width: 8, height: 8 },
        ],
    }
}

fn placement(x: u32, y: u32, t: i64) -> Placement {
    Placement { x, y, color: None, timestamp: t, retracted: false }
}

fn pixel(frame: &[u8], w: u32, x: u32, y: u32) -> [u8; 4] {
    let i = (4 * (y * w + x)) as usize;
    [frame[i], frame[i + 1], frame[i + 2], frame[i + 3]]
}

const BLACK: [u8; 4] = [0, 0, 0, 255];
const WHITE: [u8; 4] = [255, 255, 255, 255];

fn age_engine(lifetime: u32, ppf: i32, msf: i32) -> AgeEngine {
    AgeEngine::new(
        table(),
        Gradient::heat(),
        lifetime,
        ppf,
        msf,
        Rgba { r: 0, g: 0, b: 0, a: 255 },
        Rgba { r: 255, g: 255, b: 255, a: 255 },
    )
}

#[test]
fn fresh_cells_render_cold() {
    // Nothing placed: the one trailing frame renders every cell at the
    // gradient's coldest stop, over the white out-of-bounds fill.
    let frames = replay_agemap(
        table(),
        Gradient::heat(),
        60,
        2,
        5,
        Rgba { r: 0, g: 0, b: 0, a: 255 },
        Rgba { r: 255, g: 255, b: 255, a: 255 },
        &Vec::new(),
    );
    assert_eq!(frames.len(), 1);
    let f = &frames[0];
    assert_eq!(pixel(f, 10, 3, 3), BLACK);
    assert_eq!(pixel(f, 10, 5, 5), BLACK);
    assert_eq!(pixel(f, 10, 0, 0), WHITE);
}

#[test]
fn fresh_placement_renders_hot() {
    // One placement, then a boundary: the placed cell has decayed once
    // from the full lifetime of 60 and renders deep into the gradient's
    // hot end; every untouched cell stays at the coldest stop.
    let mut eng = age_engine(60, 1, 3);
    assert!(eng.step(&placement(1, 1, 0)).is_none());
    let f = eng.step(&placement(2, 2, 10)).unwrap();
    // Cell (1,1) at tier 0's offset (3,3) renders at ratio 59/60.
    let hot = pixel(&f, 10, 4, 4);
    assert_eq!(hot[3], 255);
    assert!(hot[0] > 200 && hot[1] > 200 && hot[2] > 200);
    assert_eq!(pixel(&f, 10, 3, 3), BLACK);
}

#[test]
fn cell_decays_to_cold_after_lifetime_boundaries() {
    // Lifetime two: after exactly two boundaries with no further
    // placements at the cell, it is back at the coldest stop.
    let mut eng = age_engine(2, 1, 1);
    assert!(eng.step(&placement(1, 1, 0)).is_none());
    let f1 = eng.step(&placement(2, 2, 10)).unwrap();
    assert_ne!(pixel(&f1, 10, 4, 4), BLACK);
    let f2 = eng.step(&placement(2, 3, 20)).unwrap();
    assert_eq!(pixel(&f2, 10, 4, 4), BLACK);
}

#[test]
fn retraction_resets_age_to_zero() {
    let mut eng = age_engine(60, 1, 3);
    assert!(eng.step(&placement(1, 1, 0)).is_none());
    let retract = Placement { x: 1, y: 1, color: None, timestamp: 1, retracted: true };
    assert!(eng.step(&retract).is_none());
    let f = eng.finish().unwrap();
    assert_eq!(pixel(&f, 10, 4, 4), BLACK);
}

#[test]
fn growth_moves_render_offset_without_moving_cells() {
    // The age grid is indexed by raw coordinates and does not re-center;
    // only the render offset moves when the canvas grows.
    let mut eng = age_engine(60, 10, 1000);
    assert!(eng.step(&placement(1, 1, 0)).is_none());
    assert!(eng.step(&placement(6, 6, 1)).is_none());
    let f = eng.finish().unwrap();
    // Tier 1's offset is (1,1): cell (1,1) renders at (2,2), cell (6,6)
    // at (7,7).
    assert_ne!(pixel(&f, 10, 2, 2), BLACK);
    assert_ne!(pixel(&f, 10, 7, 7), BLACK);
    assert_eq!(pixel(&f, 10, 4, 4), BLACK);
    assert_eq!(pixel(&f, 10, 0, 0), WHITE);
}

#[test]
fn age_replay_is_deterministic() {
    let placements = vec![
        placement(0, 0, 0),
        placement(3, 1, 7),
        placement(7, 2, 9),
        placement(2, 7, 23),
    ];
    let mk = || {
        replay_agemap(
            table(),
            Gradient::heat(),
            5,
            2,
            5,
            Rgba { r: 0, g: 0, b: 0, a: 255 },
            Rgba { r: 255, g: 255, b: 255, a: 255 },
            &placements,
        )
    };
    assert_eq!(mk(), mk());
}
