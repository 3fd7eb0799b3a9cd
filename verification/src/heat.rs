//! The heat map: how often each cell of the final canvas was placed,
//! and the rendering of those counts through the heat gradient.

use vstd::prelude::*;

use crate::canvas::{lemma_grid_index, Canvas};
use crate::color::Rgba;
use crate::engine::{Placement, PlacementModel};
use crate::gradient::{heatmap_color, spec_gradient_color, spec_gradient_color_from, Gradient};

verus! {

/// How many placements of the stream land on cell `(x, y)`.
pub open spec fn spec_cell_count(ps: Seq<PlacementModel>, x: int, y: int) -> int
    decreases ps.len(),
{
    if ps.len() == 0 {
        0
    } else {
        (if ps[0].x == x && ps[0].y == y {
            1int
        } else {
            0int
        }) + spec_cell_count(ps.drop_first(), x, y)
    }
}

/// One more placement raises exactly its own cell's count by one.
pub proof fn lemma_cell_count_push(ps: Seq<PlacementModel>, p: PlacementModel, x: int, y: int)
    ensures
        spec_cell_count(ps.push(p), x, y) == spec_cell_count(ps, x, y) + if p.x == x && p.y == y {
            1int
        } else {
            0int
        },
    decreases ps.len(),
{
    if ps.len() == 0 {
        assert(ps.push(p)[0] == p);
        assert(ps.push(p).drop_first() =~= Seq::<PlacementModel>::empty());
        assert(spec_cell_count(ps.push(p).drop_first(), x, y) == 0);
    } else {
        assert(ps.push(p)[0] == ps[0]);
        assert(ps.push(p).drop_first() =~= ps.drop_first().push(p));
        lemma_cell_count_push(ps.drop_first(), p, x, y);
    }
}

/// A cell's count never exceeds the stream's length.
pub proof fn lemma_cell_count_bound(ps: Seq<PlacementModel>, x: int, y: int)
    ensures
        0 <= spec_cell_count(ps, x, y) <= ps.len(),
    decreases ps.len(),
{
    if ps.len() != 0 {
        lemma_cell_count_bound(ps.drop_first(), x, y);
    }
}

/// Counts the placements landing on each cell of a `width` by `height`
/// grid, indexed column first.
pub fn heat_counts(width: u32, height: u32, placements: &Vec<Placement>) -> (r: Vec<Vec<u64>>)
    requires
        forall|i: int|
            0 <= i < placements@.len() ==> 0 <= (#[trigger] placements@[i])@.x < width && 0
                <= placements@[i]@.y < height,
    ensures
        r.deep_view().len() == width,
        forall|x: int| 0 <= x < width ==> (#[trigger] r.deep_view()[x]).len() == height,
        forall|x: int, y: int|
            0 <= x < width && 0 <= y < height ==> #[trigger] r.deep_view()[x][y]
                == spec_cell_count(placements.deep_view(), x, y),
{
    let ghost ps = placements.deep_view();
    let mut counts: Vec<Vec<u64>> = Vec::new();
    let mut cx: u32 = 0;
    while cx < width
        invariant
            cx <= width,
            counts@.len() == cx,
            forall|j: int|
                0 <= j < cx ==> (#[trigger] counts@[j])@ =~= Seq::new(
                    height as nat,
                    |y: int| 0u64,
                ),
        decreases width - cx,
    {
        let mut col: Vec<u64> = Vec::new();
        let mut cy: u32 = 0;
        while cy < height
            invariant
                cy <= height,
                col@.len() == cy,
                forall|k: int| 0 <= k < cy ==> col@[k] == 0u64,
            decreases height - cy,
        {
            col.push(0);
            cy += 1;
        }
        proof {
            assert(col@ =~= Seq::new(height as nat, |y: int| 0u64));
        }
        counts.push(col);
        cx += 1;
    }
    proof {
        assert(ps.take(0) =~= Seq::<PlacementModel>::empty());
    }
    let mut i: usize = 0;
    while i < placements.len()
        invariant
            i <= placements@.len(),
            ps == placements.deep_view(),
            ps.len() == placements@.len(),
            forall|j: int|
                0 <= j < placements@.len() ==> 0 <= (#[trigger] placements@[j])@.x < width && 0
                    <= placements@[j]@.y < height,
            counts@.len() == width,
            forall|x: int| 0 <= x < width ==> (#[trigger] counts@[x])@.len() == height,
            forall|x: int, y: int|
                0 <= x < width && 0 <= y < height ==> #[trigger] counts@[x]@[y]
                    == spec_cell_count(ps.take(i as int), x, y),
        decreases placements@.len() - i,
    {
        let p = &placements[i];
        proof {
            assert(p@ == ps[i as int]);
            assert forall|x: int, y: int| 0 <= x < width && 0 <= y < height implies
                spec_cell_count(ps.take(i + 1), x, y) == spec_cell_count(ps.take(i as int), x, y)
                + (if ps[i as int].x == x && ps[i as int].y == y {
                1int
            } else {
                0int
            }) by {
                lemma_cell_count_push(ps.take(i as int), ps[i as int], x, y);
                assert(ps.take(i as int).push(ps[i as int]) =~= ps.take(i + 1));
            }
            lemma_cell_count_bound(ps.take(i as int), p@.x, p@.y);
            assert(ps.take(i as int).len() <= placements@.len());
            assert(placements.len() == placements@.len());
        }
        let x = p.x as usize;
        let y = p.y as usize;
        let current = counts[x][y];
        let col = &mut counts[x];
        col.set(y, current + 1);
        i += 1;
    }
    proof {
        assert(ps.take(i as int) =~= ps);
        assert forall|x: int| 0 <= x < width implies (#[trigger] counts.deep_view()[x]).len()
            == height by {
            assert(counts.deep_view()[x] == counts@[x].deep_view());
        }
        assert forall|x: int, y: int| 0 <= x < width && 0 <= y < height implies #[trigger] counts
            .deep_view()[x][y] == spec_cell_count(ps, x, y) by {
            assert(counts.deep_view()[x] == counts@[x].deep_view());
        }
    }
    counts
}

/// The largest count in a nonempty grid.
pub fn hottest(counts: &Vec<Vec<u64>>) -> (r: u64)
    requires
        counts@.len() >= 1,
        forall|x: int| 0 <= x < counts@.len() ==> (#[trigger] counts@[x])@.len() >= 1,
    ensures
        exists|x: int, y: int|
            0 <= x < counts@.len() && 0 <= y < counts@[x]@.len() && #[trigger] counts@[x]@[y] == r,
        forall|x: int, y: int|
            0 <= x < counts@.len() && 0 <= y < counts@[x]@.len() ==> #[trigger] counts@[x]@[y]
                <= r,
{
    let mut best: u64 = counts[0][0];
    proof {
        assert(counts@[0]@[0] == best);
    }
    let mut x: usize = 0;
    while x < counts.len()
        invariant
            x <= counts@.len(),
            counts@.len() >= 1,
            forall|j: int| 0 <= j < counts@.len() ==> (#[trigger] counts@[j])@.len() >= 1,
            exists|a: int, b: int|
                0 <= a < counts@.len() && 0 <= b < counts@[a]@.len() && #[trigger] counts@[a]@[b]
                    == best,
            forall|a: int, b: int|
                0 <= a < x && 0 <= b < counts@[a]@.len() ==> #[trigger] counts@[a]@[b] <= best,
        decreases counts@.len() - x,
    {
        let col_len = counts[x].len();
        let mut y: usize = 0;
        while y < col_len
            invariant
                x < counts@.len(),
                y <= col_len,
                col_len == counts@[x as int]@.len(),
                counts@.len() >= 1,
                forall|j: int| 0 <= j < counts@.len() ==> (#[trigger] counts@[j])@.len() >= 1,
                exists|a: int, b: int|
                    0 <= a < counts@.len() && 0 <= b < counts@[a]@.len() && #[trigger] counts@[a]@[b]
                        == best,
                forall|a: int, b: int|
                    0 <= a < x && 0 <= b < counts@[a]@.len() ==> #[trigger] counts@[a]@[b] <= best,
                forall|b: int| 0 <= b < y ==> #[trigger] counts@[x as int]@[b] <= best,
            decreases col_len - y,
        {
            let v = counts[x][y];
            if v > best {
                best = v;
                proof {
                    assert(counts@[x as int]@[y as int] == best);
                }
            }
            y += 1;
        }
        x += 1;
    }
    best
}

/// Past the hottest stop every ratio above one renders alike: the
/// search never finds a bracketing pair and clamps to the last stop.
pub proof fn lemma_gradient_clamps(g: Gradient, value: int, lifetime: int, i: int)
    requires
        g.wf(),
        lifetime >= 1,
        100 * value > 100 * lifetime,
        0 <= i,
    ensures
        spec_gradient_color_from(g, value, lifetime, i) == g.stops@[g.stops@.len()
            - 1].spec_rgba(),
    decreases g.stops@.len() - i,
{
    if i + 1 < g.stops@.len() {
        let s2 = g.stops@[i + 1];
        assert(s2.threshold <= 100) by {
            assert(g.stops@[i + 1].threshold < g.stops@[g.stops@.len() - 1].threshold || i + 1
                == g.stops@.len() - 1);
        }
        assert(s2.threshold as int * lifetime <= 100 * lifetime) by (nonlinear_arith)
            requires
                s2.threshold <= 100,
                lifetime >= 1,
        ;
        lemma_gradient_clamps(g, value, lifetime, i + 1);
    }
}

/// One byte of the rendered heat image: the flat index decodes to a
/// cell and a channel, and the cell's count maps through the gradient.
pub open spec fn heat_byte(g: Gradient, grid: Seq<Seq<u64>>, w: int, cap: int, k: int) -> u8 {
    let p = k / 4;
    let ch = k % 4;
    let x = p % w;
    let y = p / w;
    spec_gradient_color(g, grid[x][y] as int, cap).byte(ch)
}

/// Renders a count grid through the gradient at ratio
/// `count / hottest_capped`, one cell per pixel, row-major.
pub fn heatmap_image(g: &Gradient, counts: &Vec<Vec<u64>>, hottest_capped: u32) -> (r: Canvas)
    requires
        g.wf(),
        1 <= hottest_capped < u32::MAX,
        counts@.len() <= u32::MAX,
        forall|x: int| 0 <= x < counts@.len() ==> (#[trigger] counts@[x])@.len()
            == counts@[0]@.len(),
        counts@.len() * (if counts@.len() == 0 { 0int } else { counts@[0]@.len() as int })
            <= usize::MAX / 4,
        forall|x: int| 0 <= x < counts@.len() ==> (#[trigger] counts@[x])@.len() <= u32::MAX,
    ensures
        r.wf(),
        r.width == counts@.len(),
        counts@.len() > 0 ==> r.height == counts@[0]@.len(),
        forall|x: int, y: int|
            0 <= x < counts@.len() && 0 <= y < counts@[x]@.len() ==> crate::canvas::spec_pixel(
                r.data@,
                counts@.len() as int,
                x,
                y,
            ) == spec_gradient_color(*g, counts@[x]@[y] as int, hottest_capped as int),
{
    let w: u32 = counts.len() as u32;
    let h: u32 = if counts.len() == 0 {
        0
    } else {
        counts[0].len() as u32
    };
    let ghost grid = counts.deep_view();
    proof {
        assert forall|x: int| 0 <= x < grid.len() implies (#[trigger] grid[x]).len() == h
            && grid[x] == counts@[x]@ by {
            assert(grid[x] == counts@[x].deep_view());
            assert(counts@[x].deep_view() =~= counts@[x]@);
        }
    }
    let mut data: Vec<u8> = Vec::new();
    let mut y: u32 = 0;
    while y < h
        invariant
            y <= h,
            w == counts@.len(),
            grid == counts.deep_view(),
            grid.len() == w,
            forall|x: int| 0 <= x < grid.len() ==> (#[trigger] grid[x]).len() == h,
            g.wf(),
            1 <= hottest_capped < u32::MAX,
            w * h <= usize::MAX / 4,
            data@.len() == 4 * (y * w),
            forall|k: int|
                0 <= k < data@.len() ==> data@[k] == heat_byte(
                    *g,
                    grid,
                    w as int,
                    hottest_capped as int,
                    k,
                ),
        decreases h - y,
    {
        let mut x: u32 = 0;
        while x < w
            invariant
                x <= w,
                y < h,
                w == counts@.len(),
                grid == counts.deep_view(),
                grid.len() == w,
                forall|j: int| 0 <= j < grid.len() ==> (#[trigger] grid[j]).len() == h,
                g.wf(),
                1 <= hottest_capped < u32::MAX,
                w * h <= usize::MAX / 4,
                data@.len() == 4 * (y * w + x),
                forall|k: int|
                    0 <= k < data@.len() ==> data@[k] == heat_byte(
                        *g,
                        grid,
                        w as int,
                        hottest_capped as int,
                        k,
                    ),
            decreases w - x,
        {
            proof {
                assert(grid[x as int] == counts@[x as int].deep_view());
                assert(counts@[x as int].deep_view() =~= counts@[x as int]@);
            }
            let count = counts[x as usize][y as usize];
            // Ratios above one clamp to the hottest stop, so capping the
            // executable value preserves the rendered color exactly.
            let value: u32 = if count > hottest_capped as u64 {
                proof {
                    assert(100 * (count as int) > 100 * (hottest_capped as int));
                    assert(100 * ((hottest_capped as int) + 1) > 100 * (hottest_capped as int));
                    lemma_gradient_clamps(*g, count as int, hottest_capped as int, 0);
                    lemma_gradient_clamps(
                        *g,
                        (hottest_capped as int) + 1,
                        hottest_capped as int,
                        0,
                    );
                }
                hottest_capped + 1
            } else {
                count as u32
            };
            let c = heatmap_color(g, value, hottest_capped);
            proof {
                assert(c == spec_gradient_color(
                    *g,
                    grid[x as int][y as int] as int,
                    hottest_capped as int,
                ));
                crate::canvas::lemma_pix_index_bound(w as int, h as int, x as int, y as int);
                lemma_grid_index(w as int, x as int, y as int, 0);
                lemma_grid_index(w as int, x as int, y as int, 1);
                lemma_grid_index(w as int, x as int, y as int, 2);
                lemma_grid_index(w as int, x as int, y as int, 3);
            }
            data.push(c.r);
            data.push(c.g);
            data.push(c.b);
            data.push(c.a);
            x += 1;
        }
        proof {
            assert(4 * (y * w + w) == 4 * ((y + 1) * w)) by (nonlinear_arith);
        }
        y += 1;
    }
    proof {
        assert(4 * (h as int * w as int) == w as int * h as int * 4) by (nonlinear_arith);
        assert forall|px: int, py: int| 0 <= px < w && 0 <= py < h implies
            crate::canvas::spec_pixel(data@, w as int, px, py) == spec_gradient_color(
            *g,
            grid[px][py] as int,
            hottest_capped as int,
        ) by {
            crate::canvas::lemma_pix_index_bound(w as int, h as int, px, py);
            lemma_grid_index(w as int, px, py, 0);
            lemma_grid_index(w as int, px, py, 1);
            lemma_grid_index(w as int, px, py, 2);
            lemma_grid_index(w as int, px, py, 3);
            let e = spec_gradient_color(*g, grid[px][py] as int, hottest_capped as int);
            let r = crate::canvas::spec_pixel(data@, w as int, px, py);
            assert(r.r == e.byte(0) && r.g == e.byte(1) && r.b == e.byte(2) && r.a == e.byte(3));
            assert(r == e);
        }
        assert forall|px: int, py: int| 0 <= px < counts@.len() && 0 <= py < counts@[px]@.len()
            implies crate::canvas::spec_pixel(data@, counts@.len() as int, px, py)
            == spec_gradient_color(*g, counts@[px]@[py] as int, hottest_capped as int) by {
            assert(grid[px] == counts@[px].deep_view());
            assert(counts@[px].deep_view() =~= counts@[px]@);
        }
    }
    Canvas { width: w, height: h, data }
}

} // verus!
