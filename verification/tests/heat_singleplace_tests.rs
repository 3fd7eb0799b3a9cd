use canvas_replay::engine::{Placement, ReplayError};
use canvas_replay::gradient::Gradient;
use canvas_replay::heat::{heat_counts, heatmap_image, hottest};
use canvas_replay::singleplace::singleplace_image;
use canvas_replay::tiers::{Tier, TierTable};

fn table() -> TierTable {
    TierTable {
        frame_width: 10,
        frame_height: 10,
        tiers: vec![
            Tier { width: 4, height: 4 },
            Tier { width: 8, height: 8 },
        ],
    }
}

fn placement(x: u32, y: u32, color: &str, retracted: bool) -> Placement {
    Placement { x, y, color: Some(color.to_string()), timestamp: 0, retracted }
}

fn pixel(data: &[u8], w: u32, x: u32, y: u32) -> [u8; 4] {
    let i = (4 * (y * w + x)) as usize;
    [data[i], data[i + 1], data[i + 2], data[i + 3]]
}

#[test]
fn first_claim_keeps_the_first_color() {
    let placements = vec![
        placement(1, 1, "#ff0000", false),
        placement(1, 1, "#00ff00", false),
    ];
    let c = singleplace_image(&table(), &placements).unwrap();
    assert_eq!(c.width, 8);
    assert_eq!(c.height, 8);
    assert_eq!(pixel(&c.data, 8, 1, 1), [255, 0, 0, 255]);
    assert_eq!(pixel(&c.data, 8, 0, 0), [255, 255, 255, 255]);
}

#[test]
fn retraction_reverts_to_white_and_releases_the_claim() {
    // The retraction reverts the cell to the mode's white background —
    // not to transparency and not to the prior red — and the next
    // placement may claim the cell again.
    let placements = vec![
        placement(1, 1, "#ff0000", false),
        placement(1, 1, "#00ff00", false),
        placement(1, 1, "", true),
        placement(1, 1, "#0000ff", false),
    ];
    let c = singleplace_image(&table(), &placements).unwrap();
    assert_eq!(pixel(&c.data, 8, 1, 1), [0, 0, 255, 255]);

    let only_retracted = vec![
        placement(2, 2, "#ff0000", false),
        placement(2, 2, "", true),
    ];
    let c = singleplace_image(&table(), &only_retracted).unwrap();
    assert_eq!(pixel(&c.data, 8, 2, 2), [255, 255, 255, 255]);
}

#[test]
fn first_claim_rejects_bad_colors_only_when_painting() {
    // The malformed color on the second placement is never decoded
    // because the cell is already claimed; the one on the third is.
    let claimed = vec![
        placement(1, 1, "#ff0000", false),
        placement(1, 1, "#oops", false),
    ];
    assert!(singleplace_image(&table(), &claimed).is_ok());
    let painting = vec![placement(2, 2, "#oops", false)];
    assert_eq!(
        singleplace_image(&table(), &painting).unwrap_err(),
        ReplayError::BadColor
    );
}

#[test]
fn heat_counts_are_exact() {
    let placements = vec![
        placement(0, 0, "#000000", false),
        placement(0, 0, "#000000", false),
        placement(2, 1, "#000000", false),
    ];
    let counts = heat_counts(3, 2, &placements);
    assert_eq!(counts.len(), 3);
    assert_eq!(counts[0], vec![2, 0]);
    assert_eq!(counts[1], vec![0, 0]);
    assert_eq!(counts[2], vec![0, 1]);
    assert_eq!(hottest(&counts), 2);
}

#[test]
fn heat_render_maps_counts_through_the_gradient() {
    let placements = vec![
        placement(1, 0, "#000000", false),
        placement(1, 0, "#000000", false),
        placement(0, 1, "#000000", false),
    ];
    let counts = heat_counts(2, 2, &placements);
    let img = heatmap_image(&Gradient::heat(), &counts, 2);
    assert_eq!(img.width, 2);
    assert_eq!(img.height, 2);
    // Count zero renders the coldest stop, the peak the hottest.
    assert_eq!(pixel(&img.data, 2, 0, 0), [0, 0, 0, 255]);
    assert_eq!(pixel(&img.data, 2, 1, 0), [255, 255, 255, 255]);
    // Count one of two sits halfway: the (0.2, 0.66) segment at
    // fraction 30/46, the same color the replay gradient shows there.
    assert_eq!(pixel(&img.data, 2, 0, 1), [214, 166, 0, 255]);
}

#[test]
fn heat_render_clamps_counts_above_the_cap() {
    let placements = vec![
        placement(0, 0, "#000000", false),
        placement(0, 0, "#000000", false),
        placement(0, 0, "#000000", false),
    ];
    let counts = heat_counts(1, 1, &placements);
    let img = heatmap_image(&Gradient::heat(), &counts, 2);
    assert_eq!(pixel(&img.data, 1, 0, 0), [255, 255, 255, 255]);
}
