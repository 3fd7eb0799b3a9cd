//! Canvas growth: re-centering the previous tier's content inside the
//! background fill of the next, larger tier.

use vstd::prelude::*;

use crate::canvas::{
    blank_image_borders_with_colour, border_byte, in_tier_rect, lemma_grid_index,
    lemma_pix_index_bound, pix_index, spec_border, spec_pixel, spec_put, Canvas,
};
use crate::color::Rgba;
use crate::tiers::{pixel_offset, TierTable};

verus! {

/// Whether frame coordinate `(px, py)` receives a copied pixel when the
/// old tier's `w` by `h` content rectangle lands at offset `(nox, noy)`.
/// Unlike the background rectangle, the copied rectangle excludes its far
/// edge: only the `w` by `h` cells of the old tier are carried over.
pub open spec fn in_copy_rect(nox: int, noy: int, w: int, h: int, px: int, py: int) -> bool {
    nox <= px < nox + w && noy <= py < noy + h
}

/// The frame bytes after growing into tier `new_idx`: the old tier's
/// content re-read at the old offset and re-written at the new offset,
/// over a fresh background fill for the new tier.
pub open spec fn spec_grow(
    old_data: Seq<u8>,
    table: TierTable,
    new_idx: int,
    in_bounds: Rgba,
    out_of_bounds: Rgba,
) -> Seq<u8> {
    let fw = table.frame_width as int;
    let old_w = table.tiers@[new_idx - 1].width as int;
    let old_h = table.tiers@[new_idx - 1].height as int;
    let oox = table.spec_offset_x(new_idx - 1);
    let ooy = table.spec_offset_y(new_idx - 1);
    let nox = table.spec_offset_x(new_idx);
    let noy = table.spec_offset_y(new_idx);
    Seq::new(
        table.spec_frame_bytes() as nat,
        |k: int|
            {
                let p = k / 4;
                let ch = k % 4;
                let px = p % fw;
                let py = p / fw;
                if in_copy_rect(nox, noy, old_w, old_h, px, py) {
                    old_data[pix_index(fw, px - nox + oox, py - noy + ooy) + ch]
                } else {
                    border_byte(table, new_idx, in_bounds, out_of_bounds, k)
                }
            },
    )
}

/// A tier's centering offsets are nonnegative and leave even the far,
/// inclusive edge of its content rectangle inside the frame.
pub proof fn lemma_offset_bounds(table: TierTable, idx: int)
    requires
        table.wf(),
        0 <= idx < table.tiers@.len(),
    ensures
        0 <= table.spec_offset_x(idx),
        table.spec_offset_x(idx) + table.tiers@[idx].width < table.frame_width,
        0 <= table.spec_offset_y(idx),
        table.spec_offset_y(idx) + table.tiers@[idx].height < table.frame_height,
{
    let dx = table.frame_width - table.tiers@[idx].width;
    assert(2 * (dx / 2) + dx % 2 == dx);
    assert(dx / 2 < dx);
    let dy = table.frame_height - table.tiers@[idx].height;
    assert(2 * (dy / 2) + dy % 2 == dy);
    assert(dy / 2 < dy);
}

/// Decodes a flat frame byte index into pixel coordinates and a channel.
pub proof fn lemma_byte_decode(fw: int, fh: int, k: int)
    requires
        1 <= fw,
        1 <= fh,
        0 <= k < fw * fh * 4,
    ensures
        0 <= k % 4 < 4,
        0 <= (k / 4) % fw < fw,
        0 <= (k / 4) / fw < fh,
        k == pix_index(fw, (k / 4) % fw, (k / 4) / fw) + k % 4,
{
    let p = k / 4;
    assert(0 <= p < fw * fh) by (nonlinear_arith)
        requires
            0 <= k < fw * fh * 4,
            p == k / 4,
    ;
    let py = p / fw;
    let px = p % fw;
    assert(0 <= py < fh) by (nonlinear_arith)
        requires
            0 <= p < fw * fh,
            1 <= fw,
            py == p / fw,
    ;
    vstd::arithmetic::div_mod::lemma_fundamental_div_mod(p, fw);
    assert(p == fw * (p / fw) + p % fw);
    assert(pix_index(fw, px, py) == 4 * (py * fw + px));
    assert(py * fw + px == p) by (nonlinear_arith)
        requires
            p == fw * py + px,
    ;
    assert(k == 4 * (k / 4) + k % 4);
}

/// Writing one pixel changes that pixel and no other.
pub proof fn lemma_put_pixel_effect(
    data: Seq<u8>,
    w: int,
    h: int,
    x: int,
    y: int,
    c: Rgba,
    x2: int,
    y2: int,
)
    requires
        data.len() == w * h * 4,
        0 <= x < w,
        0 <= y < h,
        0 <= x2 < w,
        0 <= y2 < h,
    ensures
        spec_pixel(spec_put(data, w, x, y, c), w, x2, y2) == if x2 == x && y2 == y {
            c
        } else {
            spec_pixel(data, w, x2, y2)
        },
{
    lemma_pix_index_bound(w, h, x, y);
    lemma_pix_index_bound(w, h, x2, y2);
    if x2 == x && y2 == y {
        let r = spec_pixel(spec_put(data, w, x, y, c), w, x2, y2);
        assert(r.r == c.r && r.g == c.g && r.b == c.b && r.a == c.a);
        assert(r == c);
    } else {
        assert(pix_index(w, x, y) + 4 <= pix_index(w, x2, y2) || pix_index(w, x2, y2) + 4
            <= pix_index(w, x, y)) by (nonlinear_arith)
            requires
                0 <= x < w,
                0 <= y < h,
                0 <= x2 < w,
                0 <= y2 < h,
                !(x2 == x && y2 == y),
        ;
    }
}

/// The background fill holds the in-bounds color across the tier's
/// centered rectangle and the out-of-bounds color elsewhere.
pub proof fn lemma_border_pixel(
    table: TierTable,
    idx: int,
    in_bounds: Rgba,
    out_of_bounds: Rgba,
    x: int,
    y: int,
)
    requires
        table.wf(),
        0 <= idx < table.tiers@.len(),
        0 <= x < table.frame_width,
        0 <= y < table.frame_height,
    ensures
        spec_pixel(spec_border(table, idx, in_bounds, out_of_bounds), table.frame_width as int, x, y)
            == if in_tier_rect(
            table.spec_offset_x(idx),
            table.spec_offset_y(idx),
            table.tiers@[idx].width as int,
            table.tiers@[idx].height as int,
            x,
            y,
        ) {
            in_bounds
        } else {
            out_of_bounds
        },
{
    let fw = table.frame_width as int;
    let fh = table.frame_height as int;
    lemma_pix_index_bound(fw, fh, x, y);
    lemma_grid_index(fw, x, y, 0);
    lemma_grid_index(fw, x, y, 1);
    lemma_grid_index(fw, x, y, 2);
    lemma_grid_index(fw, x, y, 3);
    let r = spec_pixel(spec_border(table, idx, in_bounds, out_of_bounds), fw, x, y);
    let e = if in_tier_rect(
        table.spec_offset_x(idx),
        table.spec_offset_y(idx),
        table.tiers@[idx].width as int,
        table.tiers@[idx].height as int,
        x,
        y,
    ) {
        in_bounds
    } else {
        out_of_bounds
    };
    assert(r.r == e.r && r.g == e.g && r.b == e.b && r.a == e.a);
    assert(r == e);
}

/// The pixel the finished growth holds at frame coordinate `(px, py)`.
pub open spec fn grown_pixel(
    old_data: Seq<u8>,
    table: TierTable,
    new_idx: int,
    in_bounds: Rgba,
    out_of_bounds: Rgba,
    px: int,
    py: int,
) -> Rgba {
    let fw = table.frame_width as int;
    let old_w = table.tiers@[new_idx - 1].width as int;
    let old_h = table.tiers@[new_idx - 1].height as int;
    let oox = table.spec_offset_x(new_idx - 1);
    let ooy = table.spec_offset_y(new_idx - 1);
    let nox = table.spec_offset_x(new_idx);
    let noy = table.spec_offset_y(new_idx);
    if in_copy_rect(nox, noy, old_w, old_h, px, py) {
        spec_pixel(old_data, fw, px - nox + oox, py - noy + ooy)
    } else if in_tier_rect(
        nox,
        noy,
        table.tiers@[new_idx].width as int,
        table.tiers@[new_idx].height as int,
        px,
        py,
    ) {
        in_bounds
    } else {
        out_of_bounds
    }
}

/// `spec_grow` read back pixel by pixel is `grown_pixel`.
pub proof fn lemma_grow_pixel(
    old_data: Seq<u8>,
    table: TierTable,
    new_idx: int,
    in_bounds: Rgba,
    out_of_bounds: Rgba,
    px: int,
    py: int,
)
    requires
        table.wf(),
        1 <= new_idx < table.tiers@.len(),
        0 <= px < table.frame_width,
        0 <= py < table.frame_height,
    ensures
        spec_pixel(
            spec_grow(old_data, table, new_idx, in_bounds, out_of_bounds),
            table.frame_width as int,
            px,
            py,
        ) == grown_pixel(old_data, table, new_idx, in_bounds, out_of_bounds, px, py),
{
    let fw = table.frame_width as int;
    let fh = table.frame_height as int;
    lemma_pix_index_bound(fw, fh, px, py);
    lemma_grid_index(fw, px, py, 0);
    lemma_grid_index(fw, px, py, 1);
    lemma_grid_index(fw, px, py, 2);
    lemma_grid_index(fw, px, py, 3);
    let r = spec_pixel(spec_grow(old_data, table, new_idx, in_bounds, out_of_bounds), fw, px, py);
    let e = grown_pixel(old_data, table, new_idx, in_bounds, out_of_bounds, px, py);
    if in_copy_rect(
        table.spec_offset_x(new_idx),
        table.spec_offset_y(new_idx),
        table.tiers@[new_idx - 1].width as int,
        table.tiers@[new_idx - 1].height as int,
        px,
        py,
    ) {
        assert(r.r == e.r && r.g == e.g && r.b == e.b && r.a == e.a);
    } else {
        lemma_border_pixel(table, new_idx, in_bounds, out_of_bounds, px, py);
        assert(r.r == e.r && r.g == e.g && r.b == e.b && r.a == e.a);
    }
    assert(r == e);
}

/// Growth is order-preserving: every pixel of the old tier's content
/// rectangle, read at the old offset, reappears identically at the new
/// offset in the grown buffer.
pub proof fn lemma_grow_preserves_content(
    old_data: Seq<u8>,
    table: TierTable,
    new_idx: int,
    in_bounds: Rgba,
    out_of_bounds: Rgba,
    cx: int,
    cy: int,
)
    requires
        table.wf(),
        1 <= new_idx < table.tiers@.len(),
        0 <= cx < table.tiers@[new_idx - 1].width,
        0 <= cy < table.tiers@[new_idx - 1].height,
    ensures
        spec_pixel(
            spec_grow(old_data, table, new_idx, in_bounds, out_of_bounds),
            table.frame_width as int,
            cx + table.spec_offset_x(new_idx),
            cy + table.spec_offset_y(new_idx),
        ) == spec_pixel(
            old_data,
            table.frame_width as int,
            cx + table.spec_offset_x(new_idx - 1),
            cy + table.spec_offset_y(new_idx - 1),
        ),
{
    lemma_offset_bounds(table, new_idx);
    lemma_offset_bounds(table, new_idx - 1);
    lemma_grow_pixel(
        old_data,
        table,
        new_idx,
        in_bounds,
        out_of_bounds,
        cx + table.spec_offset_x(new_idx),
        cy + table.spec_offset_y(new_idx),
    );
}

/// Builds the buffer for tier `canvas_size_idx` from the buffer of the
/// tier before it: a fresh background fill, with the old tier's content
/// copied over at the new centering offset.
pub fn extend_canvas_with_colour(
    image: &Canvas,
    table: &TierTable,
    canvas_size_idx: usize,
    in_bounds: Rgba,
    out_of_bounds: Rgba,
) -> (r: Canvas)
    requires
        table.wf(),
        1 <= canvas_size_idx < table.tiers@.len(),
        image.wf(),
        image.width == table.frame_width,
        image.height == table.frame_height,
    ensures
        r.wf(),
        r.width == table.frame_width,
        r.height == table.frame_height,
        r.data@ == spec_grow(
            image.data@,
            *table,
            canvas_size_idx as int,
            in_bounds,
            out_of_bounds,
        ),
{
    let ghost idx = canvas_size_idx as int;
    let fw = table.frame_width;
    let fh = table.frame_height;
    let old_t = table.tier_at(canvas_size_idx - 1);
    let (oox, ooy) = pixel_offset(table, canvas_size_idx - 1);
    let (nox, noy) = pixel_offset(table, canvas_size_idx);
    proof {
        lemma_offset_bounds(*table, idx);
        lemma_offset_bounds(*table, idx - 1);
    }
    let mut new_image = blank_image_borders_with_colour(
        table,
        canvas_size_idx,
        in_bounds,
        out_of_bounds,
    );
    proof {
        assert forall|px: int, py: int| 0 <= px < fw && 0 <= py < fh implies spec_pixel(
            new_image.data@,
            fw as int,
            px,
            py,
        ) == {
            if in_tier_rect(
                table.spec_offset_x(idx),
                table.spec_offset_y(idx),
                table.tiers@[idx].width as int,
                table.tiers@[idx].height as int,
                px,
                py,
            ) {
                in_bounds
            } else {
                out_of_bounds
            }
        } by {
            lemma_border_pixel(*table, idx, in_bounds, out_of_bounds, px, py);
        }
    }
    let mut x: u32 = 0;
    while x < old_t.width
        invariant
            x <= old_t.width,
            table.wf(),
            1 <= idx < table.tiers@.len(),
            old_t == table.tiers@[idx - 1],
            fw == table.frame_width,
            fh == table.frame_height,
            oox == table.spec_offset_x(idx - 1),
            ooy == table.spec_offset_y(idx - 1),
            nox == table.spec_offset_x(idx),
            noy == table.spec_offset_y(idx),
            image.wf(),
            image.width == fw,
            image.height == fh,
            new_image.wf(),
            new_image.width == fw,
            new_image.height == fh,
            forall|px: int, py: int|
                0 <= px < fw && 0 <= py < fh ==> #[trigger] spec_pixel(
                    new_image.data@,
                    fw as int,
                    px,
                    py,
                ) == {
                    let cx = px - nox;
                    let cy = py - noy;
                    if in_copy_rect(
                        nox as int,
                        noy as int,
                        old_t.width as int,
                        old_t.height as int,
                        px,
                        py,
                    ) && cx < x {
                        spec_pixel(image.data@, fw as int, cx + oox, cy + ooy)
                    } else if in_tier_rect(
                        nox as int,
                        noy as int,
                        table.tiers@[idx].width as int,
                        table.tiers@[idx].height as int,
                        px,
                        py,
                    ) {
                        in_bounds
                    } else {
                        out_of_bounds
                    }
                },
        decreases old_t.width - x,
    {
        let mut y: u32 = 0;
        while y < old_t.height
            invariant
                x < old_t.width,
                y <= old_t.height,
                table.wf(),
                1 <= idx < table.tiers@.len(),
                old_t == table.tiers@[idx - 1],
                fw == table.frame_width,
                fh == table.frame_height,
                oox == table.spec_offset_x(idx - 1),
                ooy == table.spec_offset_y(idx - 1),
                nox == table.spec_offset_x(idx),
                noy == table.spec_offset_y(idx),
                image.wf(),
                image.width == fw,
                image.height == fh,
                new_image.wf(),
                new_image.width == fw,
                new_image.height == fh,
                forall|px: int, py: int|
                    0 <= px < fw && 0 <= py < fh ==> #[trigger] spec_pixel(
                        new_image.data@,
                        fw as int,
                        px,
                        py,
                    ) == {
                        let cx = px - nox;
                        let cy = py - noy;
                        if in_copy_rect(
                            nox as int,
                            noy as int,
                            old_t.width as int,
                            old_t.height as int,
                            px,
                            py,
                        ) && (cx < x || (cx == x && cy < y)) {
                            spec_pixel(image.data@, fw as int, cx + oox, cy + ooy)
                        } else if in_tier_rect(
                            nox as int,
                            noy as int,
                            table.tiers@[idx].width as int,
                            table.tiers@[idx].height as int,
                            px,
                            py,
                        ) {
                            in_bounds
                        } else {
                            out_of_bounds
                        }
                    },
            decreases old_t.height - y,
        {
            proof {
                lemma_offset_bounds(*table, idx);
                lemma_offset_bounds(*table, idx - 1);
                assert(table.tiers@[idx - 1].width < table.tiers@[idx].width
                    && table.tiers@[idx - 1].height < table.tiers@[idx].height);
            }
            let c = image.get_pixel(x + oox, y + ooy);
            let ghost before = new_image.data@;
            new_image.put_pixel(x + nox, y + noy, c);
            proof {
                assert forall|px: int, py: int| 0 <= px < fw && 0 <= py < fh implies
                    #[trigger] spec_pixel(new_image.data@, fw as int, px, py) == {
                    let cx = px - nox;
                    let cy = py - noy;
                    if in_copy_rect(
                        nox as int,
                        noy as int,
                        old_t.width as int,
                        old_t.height as int,
                        px,
                        py,
                    ) && (cx < x || (cx == x && cy < y + 1)) {
                        spec_pixel(image.data@, fw as int, cx + oox, cy + ooy)
                    } else if in_tier_rect(
                        nox as int,
                        noy as int,
                        table.tiers@[idx].width as int,
                        table.tiers@[idx].height as int,
                        px,
                        py,
                    ) {
                        in_bounds
                    } else {
                        out_of_bounds
                    }
                } by {
                    lemma_put_pixel_effect(
                        before,
                        fw as int,
                        fh as int,
                        x + nox,
                        y + noy,
                        c,
                        px,
                        py,
                    );
                }
            }
            y += 1;
        }
        x += 1;
    }
    proof {
        let result = spec_grow(image.data@, *table, idx, in_bounds, out_of_bounds);
        assert(new_image.data@.len() == result.len());
        assert forall|k: int| 0 <= k < result.len() implies new_image.data@[k] == result[k] by {
            lemma_byte_decode(fw as int, fh as int, k);
            let px = (k / 4) % (fw as int);
            let py = (k / 4) / (fw as int);
            lemma_grow_pixel(image.data@, *table, idx, in_bounds, out_of_bounds, px, py);
            assert(spec_pixel(new_image.data@, fw as int, px, py) == grown_pixel(
                image.data@,
                *table,
                idx,
                in_bounds,
                out_of_bounds,
                px,
                py,
            ));
        }
        assert(new_image.data@ =~= result);
    }
    new_image
}

/// Growth with the stock colors: translucent white content on a black
/// border.
pub fn extend_canvas(image: &Canvas, table: &TierTable, canvas_size_idx: usize) -> (r: Canvas)
    requires
        table.wf(),
        1 <= canvas_size_idx < table.tiers@.len(),
        image.wf(),
        image.width == table.frame_width,
        image.height == table.frame_height,
    ensures
        r.wf(),
        r.width == table.frame_width,
        r.height == table.frame_height,
        r.data@ == spec_grow(
            image.data@,
            *table,
            canvas_size_idx as int,
            Rgba { r: 255, g: 255, b: 255, a: 0 },
            Rgba { r: 0, g: 0, b: 0, a: 255 },
        ),
{
    extend_canvas_with_colour(
        image,
        table,
        canvas_size_idx,
        Rgba { r: 255, g: 255, b: 255, a: 0 },
        Rgba { r: 0, g: 0, b: 0, a: 255 },
    )
}

} // verus!
