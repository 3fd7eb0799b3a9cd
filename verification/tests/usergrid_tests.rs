use canvas_replay::color::Rgba;
use canvas_replay::usergrid::{grid_image, latest_grid, CellWrite};

fn write(x: u32, y: u32, user: u64, rgb: (u8, u8, u8), retracted: bool) -> CellWrite {
    CellWrite {
        x,
        y,
        user,
        color: Rgba { r: rgb.0, g: rgb.1, b: rgb.2, a: 255 },
        retracted,
    }
}

fn pixel(data: &[u8], w: u32, x: u32, y: u32) -> [u8; 4] {
    let i = (4 * (y * w + x)) as usize;
    [data[i], data[i + 1], data[i + 2], data[i + 3]]
}

#[test]
fn last_writer_wins() {
    let writes = vec![
        write(1, 1, 7, (255, 0, 0), false),
        write(1, 1, 9, (0, 255, 0), false),
        write(0, 2, 7, (0, 0, 255), false),
    ];
    let grid = latest_grid(3, 3, &writes);
    assert_eq!(grid[1][1], (9, Rgba { r: 0, g: 255, b: 0, a: 255 }));
    assert_eq!(grid[0][2], (7, Rgba { r: 0, g: 0, b: 255, a: 255 }));
    // Untouched cells stay anonymous and transparent.
    assert_eq!(grid[2][2], (0, Rgba { r: 0, g: 0, b: 0, a: 0 }));
}

#[test]
fn retraction_clears_the_cell_to_anonymous_white() {
    let writes = vec![
        write(1, 1, 7, (255, 0, 0), false),
        write(1, 1, 7, (255, 0, 0), true),
    ];
    let grid = latest_grid(2, 2, &writes);
    assert_eq!(grid[1][1], (0, Rgba { r: 255, g: 255, b: 255, a: 255 }));
}

#[test]
fn grid_renders_over_background() {
    let writes = vec![
        write(0, 0, 7, (10, 20, 30), false),
        write(1, 1, 8, (40, 50, 60), true),
    ];
    let grid = latest_grid(2, 2, &writes);
    let img = grid_image(&grid, Rgba { r: 255, g: 255, b: 255, a: 255 });
    assert_eq!(img.width, 2);
    assert_eq!(img.height, 2);
    assert_eq!(pixel(&img.data, 2, 0, 0), [10, 20, 30, 255]);
    // The retracted cell shows white by its own value, the untouched
    // cells by the background.
    assert_eq!(pixel(&img.data, 2, 1, 1), [255, 255, 255, 255]);
    assert_eq!(pixel(&img.data, 2, 1, 0), [255, 255, 255, 255]);
}
