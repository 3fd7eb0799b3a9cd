//! The last-writer grid: which user's pixel, in which color, each cell
//! of the final canvas currently shows. A moderation retraction clears
//! the cell to an anonymous white.

use vstd::prelude::*;

use crate::canvas::{lemma_grid_index, lemma_pix_index_bound, pix_index, spec_pixel, Canvas};
use crate::color::Rgba;

verus! {

/// One write into the cell grid: the placing user, the display color
/// the caller chose for the write, and whether moderation retracted it.
#[derive(Debug)]
pub struct CellWrite {
    pub x: u32,
    pub y: u32,
    pub user: u64,
    pub color: Rgba,
    pub retracted: bool,
}

/// The mathematical shadow of a [`CellWrite`].
pub ghost struct CellWriteModel {
    pub x: int,
    pub y: int,
    pub user: int,
    pub color: Rgba,
    pub retracted: bool,
}

impl View for CellWrite {
    type V = CellWriteModel;

    open spec fn view(&self) -> CellWriteModel {
        CellWriteModel {
            x: self.x as int,
            y: self.y as int,
            user: self.user as int,
            color: self.color,
            retracted: self.retracted,
        }
    }
}

impl DeepView for CellWrite {
    type V = CellWriteModel;

    open spec fn deep_view(&self) -> CellWriteModel {
        self.view()
    }
}

/// What an untouched cell holds: no user, fully transparent.
pub open spec fn spec_untouched_cell() -> (int, Rgba) {
    (0, Rgba { r: 0, g: 0, b: 0, a: 0 })
}

/// What one write leaves in its cell: the user and color for an
/// ordinary write, an anonymous white for a retraction.
pub open spec fn spec_cell_of(w: CellWriteModel) -> (int, Rgba) {
    if w.retracted {
        (0, Rgba { r: 255, g: 255, b: 255, a: 255 })
    } else {
        (w.user, w.color)
    }
}

/// The value cell `(x, y)` holds after a whole write sequence: the last
/// write that hit it decides, and an untouched cell stays transparent.
pub open spec fn spec_latest(ws: Seq<CellWriteModel>, x: int, y: int) -> (int, Rgba)
    decreases ws.len(),
{
    if ws.len() == 0 {
        spec_untouched_cell()
    } else {
        let last = ws[ws.len() - 1];
        if last.x == x && last.y == y {
            spec_cell_of(last)
        } else {
            spec_latest(ws.drop_last(), x, y)
        }
    }
}

/// Folds a whole write sequence into the cell grid, indexed column
/// first.
pub fn latest_grid(width: u32, height: u32, writes: &Vec<CellWrite>) -> (r: Vec<
    Vec<(u64, Rgba)>,
>)
    requires
        forall|i: int|
            0 <= i < writes@.len() ==> 0 <= (#[trigger] writes@[i])@.x < width && 0
                <= writes@[i]@.y < height,
    ensures
        r@.len() == width,
        forall|x: int| 0 <= x < width ==> (#[trigger] r@[x])@.len() == height,
        forall|x: int, y: int|
            0 <= x < width && 0 <= y < height ==> ({
                let cell = #[trigger] r@[x]@[y];
                (cell.0 as int, cell.1) == spec_latest(writes.deep_view(), x, y)
            }),
{
    let ghost ws = writes.deep_view();
    let mut grid: Vec<Vec<(u64, Rgba)>> = Vec::new();
    let mut cx: u32 = 0;
    while cx < width
        invariant
            cx <= width,
            grid@.len() == cx,
            forall|j: int|
                0 <= j < cx ==> (#[trigger] grid@[j])@ =~= Seq::new(
                    height as nat,
                    |y: int| (0u64, Rgba { r: 0, g: 0, b: 0, a: 0 }),
                ),
        decreases width - cx,
    {
        let mut col: Vec<(u64, Rgba)> = Vec::new();
        let mut cy: u32 = 0;
        while cy < height
            invariant
                cy <= height,
                col@.len() == cy,
                forall|k: int| 0 <= k < cy ==> col@[k] == (0u64, Rgba { r: 0, g: 0, b: 0, a: 0 }),
            decreases height - cy,
        {
            col.push((0, Rgba { r: 0, g: 0, b: 0, a: 0 }));
            cy += 1;
        }
        proof {
            assert(col@ =~= Seq::new(
                height as nat,
                |y: int| (0u64, Rgba { r: 0, g: 0, b: 0, a: 0 }),
            ));
        }
        grid.push(col);
        cx += 1;
    }
    proof {
        assert(ws.take(0) =~= Seq::<CellWriteModel>::empty());
    }
    let mut i: usize = 0;
    while i < writes.len()
        invariant
            i <= writes@.len(),
            ws == writes.deep_view(),
            ws.len() == writes@.len(),
            forall|j: int|
                0 <= j < writes@.len() ==> 0 <= (#[trigger] writes@[j])@.x < width && 0
                    <= writes@[j]@.y < height,
            grid@.len() == width,
            forall|x: int| 0 <= x < width ==> (#[trigger] grid@[x])@.len() == height,
            forall|x: int, y: int|
                0 <= x < width && 0 <= y < height ==> ({
                    let cell = #[trigger] grid@[x]@[y];
                    (cell.0 as int, cell.1) == spec_latest(ws.take(i as int), x, y)
                }),
        decreases writes@.len() - i,
    {
        let w = &writes[i];
        proof {
            assert(w@ == ws[i as int]);
            assert forall|x: int, y: int| 0 <= x < width && 0 <= y < height implies
                spec_latest(ws.take(i + 1), x, y) == (if ws[i as int].x == x && ws[i as int].y
                == y {
                spec_cell_of(ws[i as int])
            } else {
                spec_latest(ws.take(i as int), x, y)
            }) by {
                assert(ws.take(i + 1).len() == i + 1);
                assert(ws.take(i + 1)[i as int] == ws[i as int]);
                assert(ws.take(i + 1).drop_last() =~= ws.take(i as int));
            }
        }
        let value: (u64, Rgba) = if w.retracted {
            (0, Rgba { r: 255, g: 255, b: 255, a: 255 })
        } else {
            (w.user, w.color)
        };
        let x = w.x as usize;
        let y = w.y as usize;
        let col = &mut grid[x];
        col.set(y, value);
        i += 1;
    }
    proof {
        assert(ws.take(i as int) =~= ws);
    }
    grid
}

/// One byte of the rendered cell grid: an untouched cell shows the
/// background, every other cell its stored color.
pub open spec fn cell_byte(
    grid: Seq<Seq<(u64, Rgba)>>,
    w: int,
    background: Rgba,
    k: int,
) -> u8 {
    let p = k / 4;
    let ch = k % 4;
    let x = p % w;
    let y = p / w;
    let cell = grid[x][y];
    if (cell.0 as int, cell.1) == spec_untouched_cell() {
        background.byte(ch)
    } else {
        cell.1.byte(ch)
    }
}

/// Renders the cell grid into a canvas over a background color.
pub fn grid_image(grid: &Vec<Vec<(u64, Rgba)>>, background: Rgba) -> (r: Canvas)
    requires
        grid@.len() <= u32::MAX,
        forall|x: int| 0 <= x < grid@.len() ==> (#[trigger] grid@[x])@.len() == grid@[0]@.len(),
        grid@.len() * (if grid@.len() == 0 {
            0int
        } else {
            grid@[0]@.len() as int
        }) <= usize::MAX / 4,
        forall|x: int| 0 <= x < grid@.len() ==> (#[trigger] grid@[x])@.len() <= u32::MAX,
    ensures
        r.wf(),
        r.width == grid@.len(),
        grid@.len() > 0 ==> r.height == grid@[0]@.len(),
        forall|x: int, y: int|
            0 <= x < grid@.len() && 0 <= y < grid@[x]@.len() ==> spec_pixel(
                r.data@,
                grid@.len() as int,
                x,
                y,
            ) == ({
                let cell = #[trigger] grid@[x]@[y];
                if (cell.0 as int, cell.1) == spec_untouched_cell() {
                    background
                } else {
                    cell.1
                }
            }),
{
    let w: u32 = grid.len() as u32;
    let h: u32 = if grid.len() == 0 {
        0
    } else {
        grid[0].len() as u32
    };
    let ghost gv = grid@.map_values(|col: Vec<(u64, Rgba)>| col@);
    proof {
        assert forall|x: int| 0 <= x < gv.len() implies (#[trigger] gv[x]).len() == h && gv[x]
            == grid@[x]@ by {
        }
    }
    let mut data: Vec<u8> = Vec::new();
    let mut y: u32 = 0;
    while y < h
        invariant
            y <= h,
            w == grid@.len(),
            gv == grid@.map_values(|col: Vec<(u64, Rgba)>| col@),
            gv.len() == w,
            forall|x: int| 0 <= x < gv.len() ==> (#[trigger] gv[x]).len() == h,
            w * h <= usize::MAX / 4,
            data@.len() == 4 * (y * w),
            forall|k: int|
                0 <= k < data@.len() ==> data@[k] == cell_byte(gv, w as int, background, k),
        decreases h - y,
    {
        let mut x: u32 = 0;
        while x < w
            invariant
                x <= w,
                y < h,
                w == grid@.len(),
                gv == grid@.map_values(|col: Vec<(u64, Rgba)>| col@),
                gv.len() == w,
                forall|j: int| 0 <= j < gv.len() ==> (#[trigger] gv[j]).len() == h,
                w * h <= usize::MAX / 4,
                data@.len() == 4 * (y * w + x),
                forall|k: int|
                    0 <= k < data@.len() ==> data@[k] == cell_byte(gv, w as int, background, k),
            decreases w - x,
        {
            proof {
                assert(gv[x as int] == grid@[x as int]@);
                assert(gv[x as int].len() == h);
            }
            let cell = grid[x as usize][y as usize];
            let c = if cell.0 == 0 && cell.1.r == 0 && cell.1.g == 0 && cell.1.b == 0
                && cell.1.a == 0 {
                background
            } else {
                cell.1
            };
            proof {
                assert(cell == gv[x as int][y as int]);
                assert((cell.0 == 0 && cell.1.r == 0 && cell.1.g == 0 && cell.1.b == 0
                    && cell.1.a == 0) == ((cell.0 as int, cell.1) == spec_untouched_cell()));
                lemma_pix_index_bound(w as int, h as int, x as int, y as int);
                lemma_grid_index(w as int, x as int, y as int, 0);
                lemma_grid_index(w as int, x as int, y as int, 1);
                lemma_grid_index(w as int, x as int, y as int, 2);
                lemma_grid_index(w as int, x as int, y as int, 3);
            }
            data.push(c.r);
            data.push(c.g);
            data.push(c.b);
            data.push(c.a);
            x += 1;
        }
        proof {
            assert(4 * (y * w + w) == 4 * ((y + 1) * w)) by (nonlinear_arith);
        }
        y += 1;
    }
    proof {
        assert(4 * (h as int * w as int) == w as int * h as int * 4) by (nonlinear_arith);
        assert forall|x: int, y: int| 0 <= x < grid@.len() && 0 <= y < grid@[x]@.len() implies
            spec_pixel(data@, grid@.len() as int, x, y) == ({
            let cell = #[trigger] grid@[x]@[y];
            if (cell.0 as int, cell.1) == spec_untouched_cell() {
                background
            } else {
                cell.1
            }
        }) by {
            lemma_pix_index_bound(w as int, h as int, x, y);
            lemma_grid_index(w as int, x, y, 0);
            lemma_grid_index(w as int, x, y, 1);
            lemma_grid_index(w as int, x, y, 2);
            lemma_grid_index(w as int, x, y, 3);
            assert(gv[x] == grid@[x]@);
            let cell = grid@[x]@[y];
            let e = if (cell.0 as int, cell.1) == spec_untouched_cell() {
                background
            } else {
                cell.1
            };
            let r = spec_pixel(data@, w as int, x, y);
            assert(r.r == e.byte(0) && r.g == e.byte(1) && r.b == e.byte(2) && r.a == e.byte(3));
            assert(r == e);
        }
    }
    Canvas { width: w, height: h, data }
}

} // verus!
