use canvas_replay::color::Rgba;
use canvas_replay::engine::{
    replay, Engine, ModeConfig, PaintRule, Placement, ReplayError,
};
use canvas_replay::tiers::{Tier, TierTable};

fn small_table() -> TierTable {
    TierTable {
        frame_width: 10,
        frame_height: 10,
        tiers: vec![
            Tier { width: 4, height: 4 },
            Tier { width: 8, height: 8 },
        ],
    }
}

fn timelapse_mode() -> ModeConfig {
    ModeConfig {
        in_bounds: Rgba { r: 0, g: 0, b: 0, a: 255 },
        out_of_bounds: Rgba { r: 255, g: 255, b: 255, a: 255 },
        paint: PaintRule::PlacementColor,
        revert: Rgba { r: 0, g: 0, b: 0, a: 255 },
    }
}

fn placement(x: u32, y: u32, color: &str, t: i64) -> Placement {
    Placement { x, y, color: Some(color.to_string()), timestamp: t, retracted: false }
}

fn pixel(frame: &[u8], w: u32, x: u32, y: u32) -> [u8; 4] {
    let i = (4 * (y * w + x)) as usize;
    [frame[i], frame[i + 1], frame[i + 2], frame[i + 3]]
}

const RED: [u8; 4] = [255, 0, 0, 255];
const GREEN: [u8; 4] = [0, 255, 0, 255];
const BLUE: [u8; 4] = [0, 0, 255, 255];
const BLACK: [u8; 4] = [0, 0, 0, 255];
const WHITE: [u8; 4] = [255, 255, 255, 255];

#[test]
fn growth_scenario_two_tiers() {
    // Tiers [(4,4),(8,8)], frame (10,10), two pixels per frame, at least
    // five seconds per frame. The first frame appears when the third
    // placement arrives; growth to tier 1 happens while processing it; a
    // trailing frame shows the terminal state.
    let table = small_table();
    let placements = vec![
        placement(1, 1, "#ff0000", 0),
        placement(2, 2, "#00ff00", 1),
        placement(6, 6, "#0000ff", 10),
    ];
    let frames = replay(table, timelapse_mode(), 2, 5, &placements).unwrap();
    assert_eq!(frames.len(), 2);

    // First frame: the first two pixels at tier 0's offset (3,3).
    let f1 = &frames[0];
    assert_eq!(f1.len(), 10 * 10 * 4);
    assert_eq!(pixel(f1, 10, 4, 4), RED);
    assert_eq!(pixel(f1, 10, 5, 5), GREEN);
    assert_eq!(pixel(f1, 10, 3, 3), BLACK);
    assert_eq!(pixel(f1, 10, 0, 0), WHITE);
    assert_eq!(pixel(f1, 10, 9, 9), WHITE);

    // Trailing frame: all three pixels, the first two re-centered at
    // tier 1's offset (1,1), the third at that offset plus its raw
    // coordinates.
    let f2 = &frames[1];
    assert_eq!(pixel(f2, 10, 2, 2), RED);
    assert_eq!(pixel(f2, 10, 3, 3), GREEN);
    assert_eq!(pixel(f2, 10, 7, 7), BLUE);
    assert_eq!(pixel(f2, 10, 5, 5), BLACK);
    assert_eq!(pixel(f2, 10, 0, 5), WHITE);
    assert_eq!(pixel(f2, 10, 5, 0), WHITE);
}

#[test]
fn replay_is_deterministic() {
    let placements = vec![
        placement(0, 0, "#102030", 0),
        placement(3, 1, "#405060", 7),
        placement(7, 2, "#708090", 9),
        placement(2, 8, "#a0b0c0", 23),
    ];
    let a = replay(small_table(), timelapse_mode(), 2, 5, &placements).unwrap();
    let b = replay(small_table(), timelapse_mode(), 2, 5, &placements).unwrap();
    assert_eq!(a, b);
}

#[test]
fn frame_count_matches_threshold_firings() {
    // Budget of one pixel, at least three seconds per frame. Timestamps
    // 0, 10, 20: the threshold fires at the second and third placements,
    // and the final batch is partially filled, so one trailing frame
    // follows.
    let placements = vec![
        placement(0, 0, "#111111", 0),
        placement(1, 1, "#222222", 10),
        placement(2, 2, "#333333", 20),
    ];
    let frames = replay(small_table(), timelapse_mode(), 1, 3, &placements).unwrap();
    assert_eq!(frames.len(), 3);
}

#[test]
fn empty_stream_emits_one_blank_trailing_frame() {
    // With no placements the budget sits below its reset value, so the
    // replay still ends on one frame of the untouched canvas.
    let frames = replay(small_table(), timelapse_mode(), 2, 5, &Vec::new()).unwrap();
    assert_eq!(frames.len(), 1);
    assert_eq!(pixel(&frames[0], 10, 5, 5), BLACK);
    assert_eq!(pixel(&frames[0], 10, 0, 0), WHITE);
}

#[test]
fn retraction_reverts_to_mode_background() {
    let mut eng = Engine::new(small_table(), timelapse_mode(), 100, 1000);
    let put = placement(1, 1, "#ff0000", 0);
    eng.step(&put).unwrap();
    let retract = Placement { x: 1, y: 1, color: None, timestamp: 1, retracted: true };
    eng.step(&retract).unwrap();
    // Tier 0's offset is (3,3): the cell reverts to the configured
    // revert color, not to transparency and not to red.
    let frame = eng.finish().unwrap();
    assert_eq!(pixel(&frame, 10, 4, 4), BLACK);
}

#[test]
fn bad_color_aborts_replay() {
    let placements = vec![placement(1, 1, "#zz0000", 0)];
    let err = replay(small_table(), timelapse_mode(), 2, 5, &placements).unwrap_err();
    assert_eq!(err, ReplayError::BadColor);
}

#[test]
fn missing_color_aborts_in_placement_color_mode() {
    let placements = vec![Placement {
        x: 1,
        y: 1,
        color: None,
        timestamp: 0,
        retracted: false,
    }];
    let err = replay(small_table(), timelapse_mode(), 2, 5, &placements).unwrap_err();
    assert_eq!(err, ReplayError::BadColor);
}

#[test]
fn fixed_paint_ignores_color_strings() {
    // The virgin-map mode paints every placement in one fixed color over
    // its own background, and needs no color strings at all.
    let mode = ModeConfig {
        in_bounds: Rgba { r: 255, g: 0, b: 255, a: 255 },
        out_of_bounds: Rgba { r: 0, g: 0, b: 0, a: 255 },
        paint: PaintRule::Fixed(Rgba { r: 0, g: 0, b: 0, a: 255 }),
        revert: Rgba { r: 255, g: 0, b: 255, a: 255 },
    };
    let placements = vec![Placement {
        x: 2,
        y: 2,
        color: None,
        timestamp: 0,
        retracted: false,
    }];
    let frames = replay(small_table(), mode, 2, 5, &placements).unwrap();
    assert_eq!(frames.len(), 1);
    let f = &frames[0];
    assert_eq!(pixel(f, 10, 5, 5), BLACK);
    assert_eq!(pixel(f, 10, 4, 4), [255, 0, 255, 255]);
    assert_eq!(pixel(f, 10, 0, 0), BLACK);
}

#[test]
fn edge_coordinate_stays_in_tier() {
    // A coordinate exactly equal to the tier's size still counts as
    // inside it (the overflow comparison is strict), and paints the
    // inclusive far edge of the centered rectangle.
    let placements = vec![placement(4, 4, "#ff0000", 0)];
    let frames = replay(small_table(), timelapse_mode(), 2, 5, &placements).unwrap();
    assert_eq!(frames.len(), 1);
    // Still tier 0: offset (3,3), so the pixel lands on (7,7).
    assert_eq!(pixel(&frames[0], 10, 7, 7), RED);
}

#[test]
fn growth_scans_tier_by_tier_under_a_jump() {
    // One placement that leaps past an intermediate tier: the growth
    // loop advances tier by tier until the placement fits.
    let table = TierTable {
        frame_width: 12,
        frame_height: 12,
        tiers: vec![
            Tier { width: 2, height: 2 },
            Tier { width: 4, height: 4 },
            Tier { width: 8, height: 8 },
        ],
    };
    let placements = vec![
        placement(1, 1, "#ff0000", 0),
        placement(7, 7, "#0000ff", 1),
    ];
    let frames = replay(table, timelapse_mode(), 10, 5, &placements).unwrap();
    assert_eq!(frames.len(), 1);
    let f = &frames[0];
    // Tier 2's offset is (2,2): the first pixel re-centered twice ends
    // at (3,3), the second at (9,9).
    assert_eq!(pixel(f, 12, 3, 3), RED);
    assert_eq!(pixel(f, 12, 9, 9), BLUE);
}

#[test]
fn first_placement_after_min_seconds_opens_with_blank_frame() {
    // The budget starts exhausted and the frame clock at the epoch, so a
    // first placement far enough past the epoch emits the untouched
    // canvas before it is applied.
    let placements = vec![placement(0, 0, "#ffffff", 100)];
    let frames = replay(small_table(), timelapse_mode(), 5, 5, &placements).unwrap();
    assert_eq!(frames.len(), 2);
    assert_eq!(pixel(&frames[0], 10, 3, 3), BLACK);
    assert_eq!(pixel(&frames[1], 10, 3, 3), WHITE);
}
