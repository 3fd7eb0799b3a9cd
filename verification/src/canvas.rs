//! The canvas buffer: a grid of RGBA pixels stored as raw bytes in
//! row-major order, four bytes per pixel, exactly the layout of an emitted
//! frame.

use vstd::prelude::*;
use vstd::arithmetic::div_mod::lemma_fundamental_div_mod_converse;
use vstd::pervasive::VecAdditionalExecFns;

use crate::color::Rgba;
use crate::tiers::{Tier, TierTable};

verus! {

/// Byte index of the first channel of pixel `(x, y)` in a grid `w` wide.
pub open spec fn pix_index(w: int, x: int, y: int) -> int {
    4 * (y * w + x)
}

/// The pixel value stored at `(x, y)` in a raw byte grid `w` wide.
pub open spec fn spec_pixel(data: Seq<u8>, w: int, x: int, y: int) -> Rgba {
    Rgba {
        r: data[pix_index(w, x, y)],
        g: data[pix_index(w, x, y) + 1],
        b: data[pix_index(w, x, y) + 2],
        a: data[pix_index(w, x, y) + 3],
    }
}

/// The raw byte grid after writing pixel `c` at `(x, y)`.
pub open spec fn spec_put(data: Seq<u8>, w: int, x: int, y: int, c: Rgba) -> Seq<u8> {
    data.update(pix_index(w, x, y), c.r).update(pix_index(w, x, y) + 1, c.g).update(
        pix_index(w, x, y) + 2,
        c.b,
    ).update(pix_index(w, x, y) + 3, c.a)
}

/// A uniform fill: every pixel of a `w` by `h` grid holds `c`.
pub open spec fn spec_filled(w: int, h: int, c: Rgba) -> Seq<u8> {
    Seq::new((w * h * 4) as nat, |k: int| c.byte(k % 4))
}

/// Whether frame coordinate `(x, y)` lies in the centered content
/// rectangle of a tier of size `w` by `h` at offset `(ox, oy)`. The far
/// edge is inclusive, so the rectangle spans `w + 1` by `h + 1` pixels.
pub open spec fn in_tier_rect(ox: int, oy: int, w: int, h: int, x: int, y: int) -> bool {
    ox <= x <= ox + w && oy <= y <= oy + h
}

/// One byte of the background fill for tier `idx`: the in-bounds color
/// within the tier's centered rectangle, the out-of-bounds color elsewhere.
pub open spec fn border_byte(
    table: TierTable,
    idx: int,
    in_bounds: Rgba,
    out_of_bounds: Rgba,
    k: int,
) -> u8 {
    let p = k / 4;
    let ch = k % 4;
    let x = p % (table.frame_width as int);
    let y = p / (table.frame_width as int);
    if in_tier_rect(
        table.spec_offset_x(idx),
        table.spec_offset_y(idx),
        table.tiers@[idx].width as int,
        table.tiers@[idx].height as int,
        x,
        y,
    ) {
        in_bounds.byte(ch)
    } else {
        out_of_bounds.byte(ch)
    }
}

/// A frame-sized byte grid holding the background fill for tier `idx`.
pub open spec fn spec_border(
    table: TierTable,
    idx: int,
    in_bounds: Rgba,
    out_of_bounds: Rgba,
) -> Seq<u8> {
    Seq::new(table.spec_frame_bytes() as nat, |k: int| border_byte(table, idx, in_bounds, out_of_bounds, k))
}

/// Decodes the flat byte index `4 * (y * w + x) + ch` back into its parts.
pub proof fn lemma_grid_index(w: int, x: int, y: int, ch: int)
    requires
        0 <= x < w,
        0 <= y,
        0 <= ch < 4,
    ensures
        (4 * (y * w + x) + ch) / 4 == y * w + x,
        (4 * (y * w + x) + ch) % 4 == ch,
        (y * w + x) / w == y,
        (y * w + x) % w == x,
{
    let p = y * w + x;
    assert(y * w + x >= 0) by (nonlinear_arith)
        requires
            0 <= x < w,
            0 <= y,
    ;
    lemma_fundamental_div_mod_converse(4 * p + ch, 4, p, ch);
    assert(p == y * w + x);
    lemma_fundamental_div_mod_converse(p, w, y, x);
}

/// A pixel's four bytes lie within the grid's byte store.
pub proof fn lemma_pix_index_bound(w: int, h: int, x: int, y: int)
    requires
        0 <= x < w,
        0 <= y < h,
    ensures
        0 <= pix_index(w, x, y),
        pix_index(w, x, y) + 4 <= w * h * 4,
{
    assert(0 <= 4 * (y * w + x) && 4 * (y * w + x) + 4 <= w * h * 4) by (nonlinear_arith)
        requires
            0 <= x < w,
            0 <= y < h,
    ;
}

/// A pixel grid sized to the output frame, owned by the replay pipeline
/// and mutated in place as placements arrive.
#[derive(Debug)]
pub struct Canvas {
    pub width: u32,
    pub height: u32,
    pub data: Vec<u8>,
}

impl Canvas {
    /// The byte store is exactly one RGBA quadruple per grid cell.
    pub open spec fn wf(self) -> bool {
        self.data@.len() == self.width * self.height * 4
    }

    /// Builds a canvas with every pixel set to `c`.
    pub fn new_filled(width: u32, height: u32, c: Rgba) -> (r: Canvas)
        requires
            width * height <= usize::MAX / 4,
        ensures
            r.wf(),
            r.width == width,
            r.height == height,
            r.data@ == spec_filled(width as int, height as int, c),
    {
        let npix: usize = (width as usize) * (height as usize);
        let mut data: Vec<u8> = Vec::new();
        let mut i: usize = 0;
        while i < npix
            invariant
                i <= npix,
                npix == width * height,
                npix <= usize::MAX / 4,
                data@.len() == 4 * i,
                forall|k: int| 0 <= k < 4 * i ==> data@[k] == c.byte(#[trigger] (k % 4)),
            decreases npix - i,
        {
            proof {
                lemma_grid_index(1, 0, i as int, 0);
                lemma_grid_index(1, 0, i as int, 1);
                lemma_grid_index(1, 0, i as int, 2);
                lemma_grid_index(1, 0, i as int, 3);
            }
            data.push(c.r);
            data.push(c.g);
            data.push(c.b);
            data.push(c.a);
            i += 1;
        }
        proof {
            assert(data@ =~= spec_filled(width as int, height as int, c));
        }
        Canvas { width, height, data }
    }

    /// Writes pixel `c` at `(x, y)`.
    pub fn put_pixel(&mut self, x: u32, y: u32, c: Rgba)
        requires
            old(self).wf(),
            x < old(self).width,
            y < old(self).height,
        ensures
            final(self).wf(),
            final(self).width == old(self).width,
            final(self).height == old(self).height,
            final(self).data@ == spec_put(
                old(self).data@,
                old(self).width as int,
                x as int,
                y as int,
                c,
            ),
    {
        proof {
            lemma_pix_index_bound(
                self.width as int,
                self.height as int,
                x as int,
                y as int,
            );
            assert(self.data.len() == self.data@.len());
        }
        let idx: usize = ((y as usize) * (self.width as usize) + (x as usize)) * 4;
        self.data.set(idx, c.r);
        self.data.set(idx + 1, c.g);
        self.data.set(idx + 2, c.b);
        self.data.set(idx + 3, c.a);
    }

    /// Reads the pixel at `(x, y)`.
    pub fn get_pixel(&self, x: u32, y: u32) -> (r: Rgba)
        requires
            self.wf(),
            x < self.width,
            y < self.height,
        ensures
            r == spec_pixel(self.data@, self.width as int, x as int, y as int),
    {
        proof {
            lemma_pix_index_bound(
                self.width as int,
                self.height as int,
                x as int,
                y as int,
            );
            assert(self.data.len() == self.data@.len());
        }
        let idx: usize = ((y as usize) * (self.width as usize) + (x as usize)) * 4;
        Rgba { r: self.data[idx], g: self.data[idx + 1], b: self.data[idx + 2], a: self.data[idx + 3] }
    }

    /// An immutable byte snapshot of the whole grid, in emission layout.
    pub fn snapshot(&self) -> (r: Vec<u8>)
        ensures
            r@ == self.data@,
    {
        let r = self.data.clone();
        proof {
            assert forall|i: int| 0 <= i < r@.len() implies r@[i] == self.data@[i] by {
                assert(cloned(self.data@[i], r@[i]));
            }
            assert(r@ =~= self.data@);
        }
        r
    }
}

/// Builds the background-filled frame for tier `canvas_size_idx`: the
/// in-bounds color across the tier's centered rectangle (far edge
/// inclusive), the out-of-bounds color elsewhere.
pub fn blank_image_borders_with_colour(
    table: &TierTable,
    canvas_size_idx: usize,
    in_bounds: Rgba,
    out_of_bounds: Rgba,
) -> (r: Canvas)
    requires
        table.wf(),
        canvas_size_idx < table.tiers@.len(),
    ensures
        r.wf(),
        r.width == table.frame_width,
        r.height == table.frame_height,
        r.data@ == spec_border(*table, canvas_size_idx as int, in_bounds, out_of_bounds),
{
    let ghost idx = canvas_size_idx as int;
    let fw = table.frame_width;
    let fh = table.frame_height;
    let t = table.tier_at(canvas_size_idx);
    let (ox, oy) = crate::tiers::pixel_offset(table, canvas_size_idx);
    let mut data: Vec<u8> = Vec::new();
    let mut y: u32 = 0;
    while y < fh
        invariant
            y <= fh,
            fw == table.frame_width,
            fh == table.frame_height,
            table.wf(),
            idx == canvas_size_idx < table.tiers@.len(),
            t == table.tiers@[idx],
            ox == table.spec_offset_x(idx),
            oy == table.spec_offset_y(idx),
            data@.len() == 4 * (y * fw),
            forall|k: int|
                0 <= k < data@.len() ==> data@[k] == border_byte(
                    *table,
                    idx,
                    in_bounds,
                    out_of_bounds,
                    k,
                ),
        decreases fh - y,
    {
        let mut x: u32 = 0;
        while x < fw
            invariant
                x <= fw,
                y < fh,
                fw == table.frame_width,
                fh == table.frame_height,
                table.wf(),
                idx == canvas_size_idx < table.tiers@.len(),
                t == table.tiers@[idx],
                ox == table.spec_offset_x(idx),
                oy == table.spec_offset_y(idx),
                data@.len() == 4 * (y * fw + x),
                forall|k: int|
                    0 <= k < data@.len() ==> data@[k] == border_byte(
                        *table,
                        idx,
                        in_bounds,
                        out_of_bounds,
                        k,
                    ),
            decreases fw - x,
        {
            let in_rect = ox <= x && x <= ox + t.width && oy <= y && y <= oy + t.height;
            let c = if in_rect {
                in_bounds
            } else {
                out_of_bounds
            };
            proof {
                lemma_pix_index_bound(fw as int, fh as int, x as int, y as int);
                lemma_grid_index(fw as int, x as int, y as int, 0);
                lemma_grid_index(fw as int, x as int, y as int, 1);
                lemma_grid_index(fw as int, x as int, y as int, 2);
                lemma_grid_index(fw as int, x as int, y as int, 3);
                assert(in_rect == in_tier_rect(
                    table.spec_offset_x(idx),
                    table.spec_offset_y(idx),
                    t.width as int,
                    t.height as int,
                    x as int,
                    y as int,
                ));
            }
            data.push(c.r);
            data.push(c.g);
            data.push(c.b);
            data.push(c.a);
            x += 1;
        }
        proof {
            assert(4 * (y * fw + fw) == 4 * ((y + 1) * fw)) by (nonlinear_arith);
        }
        y += 1;
    }
    proof {
        assert(4 * (fh as int * fw as int) == fw as int * fh as int * 4) by (nonlinear_arith);
        assert(data@ =~= spec_border(*table, idx, in_bounds, out_of_bounds));
    }
    Canvas { width: fw, height: fh, data }
}

/// Background fill with the stock colors: black content on a white border.
pub fn blank_image_borders(table: &TierTable, canvas_size_idx: usize) -> (r: Canvas)
    requires
        table.wf(),
        canvas_size_idx < table.tiers@.len(),
    ensures
        r.wf(),
        r.width == table.frame_width,
        r.height == table.frame_height,
        r.data@ == spec_border(
            *table,
            canvas_size_idx as int,
            Rgba { r: 0, g: 0, b: 0, a: 255 },
            Rgba { r: 255, g: 255, b: 255, a: 255 },
        ),
{
    blank_image_borders_with_colour(
        table,
        canvas_size_idx,
        Rgba { r: 0, g: 0, b: 0, a: 255 },
        Rgba { r: 255, g: 255, b: 255, a: 255 },
    )
}

/// A canvas sized to the final tier, filled with one color.
fn single_color_image(table: &TierTable, color: Rgba) -> (r: Canvas)
    requires
        table.wf(),
    ensures
        r.wf(),
        r.width == table.tiers@[table.spec_last()].width,
        r.height == table.tiers@[table.spec_last()].height,
        r.data@ == spec_filled(r.width as int, r.height as int, color),
{
    let last = table.len() - 1;
    let t = table.tier_at(last);
    proof {
        assert(t.width * t.height <= table.frame_width * table.frame_height) by (nonlinear_arith)
            requires
                t.width <= table.frame_width,
                t.height <= table.frame_height,
        ;
    }
    Canvas::new_filled(t.width, t.height, color)
}

/// A final-tier-sized canvas of opaque white pixels.
pub fn white_image(table: &TierTable) -> (r: Canvas)
    requires
        table.wf(),
    ensures
        r.wf(),
        r.width == table.tiers@[table.spec_last()].width,
        r.height == table.tiers@[table.spec_last()].height,
        r.data@ == spec_filled(r.width as int, r.height as int, Rgba { r: 255, g: 255, b: 255, a: 255 }),
{
    single_color_image(table, Rgba { r: 255, g: 255, b: 255, a: 255 })
}

/// A final-tier-sized canvas of fully transparent pixels.
pub fn blank_image(table: &TierTable) -> (r: Canvas)
    requires
        table.wf(),
    ensures
        r.wf(),
        r.width == table.tiers@[table.spec_last()].width,
        r.height == table.tiers@[table.spec_last()].height,
        r.data@ == spec_filled(r.width as int, r.height as int, Rgba { r: 0, g: 0, b: 0, a: 0 }),
{
    single_color_image(table, Rgba { r: 0, g: 0, b: 0, a: 0 })
}

} // verus!
