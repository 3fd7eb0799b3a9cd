use canvas_replay::canvas::{
    blank_image, blank_image_borders, blank_image_borders_with_colour, white_image, Canvas,
};
use canvas_replay::color::Rgba;
use canvas_replay::grow::{extend_canvas, extend_canvas_with_colour};
use canvas_replay::tiers::{pixel_offset, Tier, TierTable};

fn table() -> TierTable {
    TierTable {
        frame_width: 10,
        frame_height: 10,
        tiers: vec![
            Tier { width: 4, height: 4 },
            Tier { width: 8, height: 8 },
        ],
    }
}

fn pixel(data: &[u8], w: u32, x: u32, y: u32) -> [u8; 4] {
    let i = (4 * (y * w + x)) as usize;
    [data[i], data[i + 1], data[i + 2], data[i + 3]]
}

#[test]
fn offsets_center_tiers() {
    let t = table();
    assert_eq!(pixel_offset(&t, 0), (3, 3));
    assert_eq!(pixel_offset(&t, 1), (1, 1));
}

#[test]
fn offset_biases_toward_top_left_on_odd_difference() {
    let t = TierTable {
        frame_width: 11,
        frame_height: 7,
        tiers: vec![Tier { width: 4, height: 4 }],
    };
    // Differences 7 and 3 halve by floor division to 3 and 1.
    assert_eq!(pixel_offset(&t, 0), (3, 1));
}

#[test]
fn table_validation() {
    assert!(table().is_well_formed());
    let empty = TierTable { frame_width: 10, frame_height: 10, tiers: vec![] };
    assert!(!empty.is_well_formed());
    let not_growing = TierTable {
        frame_width: 10,
        frame_height: 10,
        tiers: vec![Tier { width: 4, height: 4 }, Tier { width: 4, height: 8 }],
    };
    assert!(!not_growing.is_well_formed());
    let tier_as_big_as_frame = TierTable {
        frame_width: 10,
        frame_height: 10,
        tiers: vec![Tier { width: 10, height: 10 }],
    };
    assert!(!tier_as_big_as_frame.is_well_formed());
}

#[test]
fn border_fill_rectangle_is_edge_inclusive() {
    let t = table();
    let c = blank_image_borders_with_colour(
        &t,
        0,
        Rgba { r: 1, g: 2, b: 3, a: 4 },
        Rgba { r: 9, g: 8, b: 7, a: 6 },
    );
    assert_eq!(c.width, 10);
    assert_eq!(c.height, 10);
    assert_eq!(c.data.len(), 400);
    // Tier 0 sits at offset (3,3) with size 4: the filled rectangle
    // spans 3..=7 in both axes, the far edge included.
    assert_eq!(pixel(&c.data, 10, 3, 3), [1, 2, 3, 4]);
    assert_eq!(pixel(&c.data, 10, 7, 7), [1, 2, 3, 4]);
    assert_eq!(pixel(&c.data, 10, 2, 3), [9, 8, 7, 6]);
    assert_eq!(pixel(&c.data, 10, 8, 8), [9, 8, 7, 6]);
    assert_eq!(pixel(&c.data, 10, 0, 0), [9, 8, 7, 6]);
}

#[test]
fn stock_border_fill_is_black_on_white() {
    let t = table();
    let c = blank_image_borders(&t, 0);
    assert_eq!(pixel(&c.data, 10, 5, 5), [0, 0, 0, 255]);
    assert_eq!(pixel(&c.data, 10, 0, 0), [255, 255, 255, 255]);
}

#[test]
fn put_and_get_pixel() {
    let t = table();
    let mut c = blank_image_borders(&t, 0);
    c.put_pixel(6, 2, Rgba { r: 10, g: 20, b: 30, a: 40 });
    let got = c.get_pixel(6, 2);
    assert_eq!((got.r, got.g, got.b, got.a), (10, 20, 30, 40));
    assert_eq!(pixel(&c.data, 10, 6, 2), [10, 20, 30, 40]);
    // Neighbors stay untouched: (5,2) sits outside the tier rectangle
    // and keeps the white border, (6,3) inside it keeps the black fill.
    assert_eq!(pixel(&c.data, 10, 5, 2), [255, 255, 255, 255]);
    assert_eq!(pixel(&c.data, 10, 6, 3), [0, 0, 0, 255]);
}

#[test]
fn growth_recenters_old_content() {
    // Write a distinctive pattern into tier 0's content, grow, and read
    // it back pixel for pixel at tier 1's offset.
    let t = table();
    let mut old = blank_image_borders(&t, 0);
    for cx in 0..4u32 {
        for cy in 0..4u32 {
            old.put_pixel(
                cx + 3,
                cy + 3,
                Rgba { r: cx as u8, g: cy as u8, b: 100, a: 255 },
            );
        }
    }
    let grown = extend_canvas(&old, &t, 1);
    assert_eq!(grown.width, 10);
    assert_eq!(grown.height, 10);
    for cx in 0..4u32 {
        for cy in 0..4u32 {
            assert_eq!(
                pixel(&grown.data, 10, cx + 1, cy + 1),
                [cx as u8, cy as u8, 100, 255],
            );
        }
    }
    // Outside the copied rectangle the grown buffer holds the stock
    // growth fill: translucent white content on a black border.
    assert_eq!(pixel(&grown.data, 10, 8, 8), [255, 255, 255, 0]);
    assert_eq!(pixel(&grown.data, 10, 0, 0), [0, 0, 0, 255]);
}

#[test]
fn growth_with_custom_colours() {
    let t = table();
    let virgin = Rgba { r: 255, g: 0, b: 255, a: 255 };
    let black = Rgba { r: 0, g: 0, b: 0, a: 255 };
    let old = blank_image_borders_with_colour(&t, 0, virgin, black);
    let grown = extend_canvas_with_colour(&old, &t, 1, virgin, black);
    assert_eq!(pixel(&grown.data, 10, 2, 2), [255, 0, 255, 255]);
    assert_eq!(pixel(&grown.data, 10, 9, 9), [255, 0, 255, 255]);
    assert_eq!(pixel(&grown.data, 10, 0, 0), [0, 0, 0, 255]);
}

#[test]
fn final_tier_images() {
    let t = table();
    let w = white_image(&t);
    assert_eq!(w.width, 8);
    assert_eq!(w.height, 8);
    assert!(w.data.iter().all(|&b| b == 255));
    let b = blank_image(&t);
    assert_eq!(b.width, 8);
    assert_eq!(b.height, 8);
    assert!(b.data.iter().all(|&v| v == 0));
}

#[test]
fn snapshot_copies_bytes() {
    let t = table();
    let mut c = blank_image_borders(&t, 0);
    let snap = c.snapshot();
    assert_eq!(snap, c.data);
    c.put_pixel(5, 5, Rgba { r: 1, g: 1, b: 1, a: 1 });
    // The snapshot is an independent copy of the earlier state.
    assert_eq!(pixel(&snap, 10, 5, 5), [0, 0, 0, 255]);
}

#[test]
fn canvas_is_row_major_rgba() {
    let mut c = Canvas { width: 2, height: 2, data: vec![0; 16] };
    c.put_pixel(1, 0, Rgba { r: 5, g: 6, b: 7, a: 8 });
    assert_eq!(c.data, vec![0, 0, 0, 0, 5, 6, 7, 8, 0, 0, 0, 0, 0, 0, 0, 0]);
}
