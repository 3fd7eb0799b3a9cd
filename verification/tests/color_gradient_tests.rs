use canvas_replay::color::{hex_to_rgba, Rgba};
use canvas_replay::gradient::{heatmap_color, Gradient, GradientStop};

fn rgba(c: Rgba) -> [u8; 4] {
    [c.r, c.g, c.b, c.a]
}

#[test]
fn hex_decodes_primary_colors() {
    assert_eq!(rgba(hex_to_rgba("#ff0000").unwrap()), [255, 0, 0, 255]);
    assert_eq!(rgba(hex_to_rgba("#00ff00").unwrap()), [0, 255, 0, 255]);
    assert_eq!(rgba(hex_to_rgba("#0000ff").unwrap()), [0, 0, 255, 255]);
}

#[test]
fn hex_decodes_mixed_case_digits() {
    assert_eq!(rgba(hex_to_rgba("#1aB2c3").unwrap()), [0x1a, 0xb2, 0xc3, 255]);
    assert_eq!(rgba(hex_to_rgba("#DEADBE").unwrap()), [0xde, 0xad, 0xbe, 255]);
}

#[test]
fn hex_ignores_leading_byte_and_trailing_bytes() {
    // Only the six digit positions are read, as the replay's event
    // source always sends a leading `#`.
    assert_eq!(rgba(hex_to_rgba("x102030").unwrap()), [0x10, 0x20, 0x30, 255]);
    assert_eq!(rgba(hex_to_rgba("#102030ff").unwrap()), [0x10, 0x20, 0x30, 255]);
}

#[test]
fn hex_rejects_bad_input() {
    assert!(hex_to_rgba("").is_none());
    assert!(hex_to_rgba("#fff").is_none());
    assert!(hex_to_rgba("#gg0000").is_none());
    assert!(hex_to_rgba("#ff00 0").is_none());
    assert!(hex_to_rgba("red").is_none());
}

#[test]
fn gradient_cold_end_is_first_stop() {
    let g = Gradient::heat();
    assert_eq!(rgba(heatmap_color(&g, 0, 60)), [0, 0, 0, 255]);
}

#[test]
fn gradient_hot_end_is_last_stop() {
    let g = Gradient::heat();
    assert_eq!(rgba(heatmap_color(&g, 60, 60)), [255, 255, 255, 255]);
}

#[test]
fn gradient_at_first_interior_stop() {
    // A ratio of exactly 0.2 interpolates to the dark red stop:
    // 255 * 5451 / 10000 truncates to 139.
    let g = Gradient::heat();
    assert_eq!(rgba(heatmap_color(&g, 12, 60)), [139, 0, 0, 255]);
}

#[test]
fn gradient_interpolates_between_stops() {
    // Ratio 0.5 sits in the (0.2, 0.66) segment at fraction 30/46:
    // red runs from 5451 to 10000 and green from 0 to 10000, landing on
    // 214 and 166 after scaling to bytes.
    let g = Gradient::heat();
    assert_eq!(rgba(heatmap_color(&g, 30, 60)), [214, 166, 0, 255]);
}

#[test]
fn gradient_clamps_ratios_above_one() {
    let g = Gradient::heat();
    assert_eq!(rgba(heatmap_color(&g, 90, 60)), [255, 255, 255, 255]);
}

#[test]
fn gradient_with_unit_lifetime() {
    let g = Gradient::heat();
    assert_eq!(rgba(heatmap_color(&g, 0, 1)), [0, 0, 0, 255]);
    assert_eq!(rgba(heatmap_color(&g, 1, 1)), [255, 255, 255, 255]);
}

#[test]
fn custom_gradient_with_falling_channel() {
    // A two-stop table whose red channel falls: halfway lands on the
    // exact midpoint, 255 * 5000 / 10000 = 127.
    let g = Gradient {
        stops: vec![
            GradientStop { threshold: 0, red: 10000, green: 0, blue: 0 },
            GradientStop { threshold: 100, red: 0, green: 10000, blue: 0 },
        ],
    };
    assert_eq!(rgba(heatmap_color(&g, 1, 2)), [127, 127, 0, 255]);
    assert_eq!(rgba(heatmap_color(&g, 0, 2)), [255, 0, 0, 255]);
    assert_eq!(rgba(heatmap_color(&g, 2, 2)), [0, 255, 0, 255]);
}
