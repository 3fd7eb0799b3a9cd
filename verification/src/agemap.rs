//! The age-tracking replay variant: instead of colors, the canvas shows
//! how recently each cell was placed. A grid of remaining lifetimes is
//! decremented at every frame boundary and rendered through the heat
//! gradient.

use vstd::prelude::*;

use crate::canvas::{
    border_byte, in_tier_rect, lemma_grid_index, lemma_pix_index_bound, Canvas,
    blank_image_borders_with_colour, spec_pixel,
};
use crate::color::Rgba;
use crate::engine::{opt_frame_seq, spec_dec, spec_fits, spec_landing, Placement, PlacementModel};
use crate::gradient::{heatmap_color, spec_gradient_color, Gradient};
use crate::grow::{lemma_border_pixel, lemma_byte_decode, lemma_offset_bounds, lemma_put_pixel_effect};
use crate::tiers::{pixel_offset, TierTable};

verus! {

/// The ghost state of an age replay between two placements.
pub ghost struct AgeModel {
    pub table: TierTable,
    pub gradient: Gradient,
    pub pixel_lifetime: int,
    pub pixels_per_frame: int,
    pub min_seconds_per_frame: int,
    pub in_bounds: Rgba,
    pub out_of_bounds: Rgba,
    pub ages: Seq<Seq<u32>>,
    pub tier_idx: int,
    pub frame_start_time: int,
    pub remaining_pixels: int,
}

/// One column of the age grid after a frame boundary: every positive
/// lifetime falls by exactly one.
pub open spec fn spec_decay_col(col: Seq<u32>) -> Seq<u32> {
    Seq::new(
        col.len(),
        |y: int|
            if col[y] > 0 {
                (col[y] - 1) as u32
            } else {
                0u32
            },
    )
}

/// The whole age grid after one frame boundary.
pub open spec fn spec_decay(ages: Seq<Seq<u32>>) -> Seq<Seq<u32>> {
    Seq::new(ages.len(), |x: int| spec_decay_col(ages[x]))
}

impl AgeModel {
    /// Width of the age grid: the final tier's width.
    pub open spec fn final_width(self) -> int {
        self.table.tiers@[self.table.spec_last()].width as int
    }

    /// Height of the age grid: the final tier's height.
    pub open spec fn final_height(self) -> int {
        self.table.tiers@[self.table.spec_last()].height as int
    }

    /// State invariant: well-formed table and gradient, the tier index on
    /// the table, a final-tier-sized age grid of lifetimes within bounds,
    /// and a nonnegative clock and thresholds.
    pub open spec fn inv(self) -> bool {
        &&& self.table.wf()
        &&& self.gradient.wf()
        &&& 1 <= self.pixel_lifetime <= u32::MAX
        &&& 0 <= self.tier_idx < self.table.tiers@.len()
        &&& self.ages.len() == self.final_width()
        &&& forall|x: int|
            0 <= x < self.ages.len() ==> (#[trigger] self.ages[x]).len() == self.final_height()
        &&& forall|x: int, y: int|
            0 <= x < self.ages.len() && 0 <= y < self.final_height() ==> #[trigger] self.ages[x][y]
                <= self.pixel_lifetime
        &&& 0 <= self.frame_start_time <= i64::MAX
        &&& 0 <= self.pixels_per_frame <= i64::MAX
        &&& 0 <= self.min_seconds_per_frame <= i64::MAX
        &&& i64::MIN <= self.remaining_pixels <= i64::MAX
    }
}

/// The frame an age replay shows: each age-grid cell that lies within the
/// current tier's rectangle (far edge inclusive) is mapped through the
/// gradient at ratio `age / pixel_lifetime` and drawn at the tier's
/// offset; everything else keeps the background fill.
pub open spec fn spec_render(m: AgeModel) -> Seq<u8> {
    let fw = m.table.frame_width as int;
    let ox = m.table.spec_offset_x(m.tier_idx);
    let oy = m.table.spec_offset_y(m.tier_idx);
    let w = m.table.tiers@[m.tier_idx].width as int;
    let h = m.table.tiers@[m.tier_idx].height as int;
    Seq::new(
        m.table.spec_frame_bytes() as nat,
        |k: int|
            {
                let p = k / 4;
                let ch = k % 4;
                let px = p % fw;
                let py = p / fw;
                let cx = px - ox;
                let cy = py - oy;
                if 0 <= cx <= w && cx < m.final_width() && 0 <= cy <= h && cy
                    < m.final_height() {
                    spec_gradient_color(m.gradient, m.ages[cx][cy] as int, m.pixel_lifetime).byte(
                        ch,
                    )
                } else {
                    border_byte(m.table, m.tier_idx, m.in_bounds, m.out_of_bounds, k)
                }
            },
    )
}

/// The dual-threshold frame boundary, as in the direct-color engine.
pub open spec fn spec_age_emits(m: AgeModel, ts: int) -> bool {
    m.remaining_pixels <= 0 && ts - m.frame_start_time >= m.min_seconds_per_frame
}

/// One placement applied to the age model: at a boundary the grid decays
/// and the decayed grid renders into the emitted frame, before anything
/// else; then the budget is spent, the tier index advances until the
/// placement fits, and the placement's cell is set to the full lifetime,
/// or to zero for a retraction.
pub open spec fn spec_age_step(m: AgeModel, p: PlacementModel) -> (AgeModel, Option<Seq<u8>>) {
    let emit = spec_age_emits(m, p.timestamp);
    let ages1 = if emit {
        spec_decay(m.ages)
    } else {
        m.ages
    };
    let m1 = AgeModel { ages: ages1, ..m };
    let frame = if emit {
        Option::Some(spec_render(m1))
    } else {
        Option::<Seq<u8>>::None
    };
    let fs1 = if emit {
        p.timestamp
    } else {
        m.frame_start_time
    };
    let rem1 = spec_dec(
        if emit {
            m.pixels_per_frame
        } else {
            m.remaining_pixels
        },
    );
    let land = spec_landing(m.table, m.tier_idx, p.x, p.y);
    let a = if p.retracted {
        0u32
    } else {
        m.pixel_lifetime as u32
    };
    let ages2 = ages1.update(p.x, ages1[p.x].update(p.y, a));
    (
        AgeModel {
            ages: ages2,
            tier_idx: land,
            frame_start_time: fs1,
            remaining_pixels: rem1,
            ..m
        },
        frame,
    )
}

/// Whether the stream's end owes one trailing frame.
pub open spec fn spec_age_trailing(m: AgeModel) -> bool {
    m.remaining_pixels < m.pixels_per_frame
}

/// The stream's end: one more decay, and a render of the terminal grid,
/// when the final batch was partially filled.
pub open spec fn spec_age_finish(m: AgeModel) -> (AgeModel, Option<Seq<u8>>) {
    if spec_age_trailing(m) {
        let m1 = AgeModel { ages: spec_decay(m.ages), ..m };
        (m1, Option::Some(spec_render(m1)))
    } else {
        (m, Option::<Seq<u8>>::None)
    }
}

/// The pixel the rendered frame holds at frame coordinate `(px, py)`.
pub open spec fn rendered_pixel(m: AgeModel, px: int, py: int) -> Rgba {
    let ox = m.table.spec_offset_x(m.tier_idx);
    let oy = m.table.spec_offset_y(m.tier_idx);
    let w = m.table.tiers@[m.tier_idx].width as int;
    let h = m.table.tiers@[m.tier_idx].height as int;
    let cx = px - ox;
    let cy = py - oy;
    if 0 <= cx <= w && cx < m.final_width() && 0 <= cy <= h && cy < m.final_height() {
        spec_gradient_color(m.gradient, m.ages[cx][cy] as int, m.pixel_lifetime)
    } else if in_tier_rect(ox, oy, w, h, px, py) {
        m.in_bounds
    } else {
        m.out_of_bounds
    }
}

/// `spec_render` read back pixel by pixel is `rendered_pixel`.
pub proof fn lemma_render_pixel(m: AgeModel, px: int, py: int)
    requires
        m.table.wf(),
        0 <= m.tier_idx < m.table.tiers@.len(),
        0 <= px < m.table.frame_width,
        0 <= py < m.table.frame_height,
    ensures
        spec_pixel(spec_render(m), m.table.frame_width as int, px, py) == rendered_pixel(m, px, py),
{
    let fw = m.table.frame_width as int;
    let fh = m.table.frame_height as int;
    lemma_pix_index_bound(fw, fh, px, py);
    lemma_grid_index(fw, px, py, 0);
    lemma_grid_index(fw, px, py, 1);
    lemma_grid_index(fw, px, py, 2);
    lemma_grid_index(fw, px, py, 3);
    let r = spec_pixel(spec_render(m), fw, px, py);
    let e = rendered_pixel(m, px, py);
    let ox = m.table.spec_offset_x(m.tier_idx);
    let oy = m.table.spec_offset_y(m.tier_idx);
    let w = m.table.tiers@[m.tier_idx].width as int;
    let h = m.table.tiers@[m.tier_idx].height as int;
    if 0 <= px - ox <= w && px - ox < m.final_width() && 0 <= py - oy <= h && py - oy
        < m.final_height() {
        assert(r.r == e.r && r.g == e.g && r.b == e.b && r.a == e.a);
    } else {
        lemma_border_pixel(m.table, m.tier_idx, m.in_bounds, m.out_of_bounds, px, py);
        assert(r.r == e.r && r.g == e.g && r.b == e.b && r.a == e.a);
    }
    assert(r == e);
}

/// Builds one column's decayed successor.
fn decay_col(col: &Vec<u32>) -> (r: Vec<u32>)
    ensures
        r@ == spec_decay_col(col@),
{
    let n = col.len();
    let mut r: Vec<u32> = Vec::new();
    let mut y: usize = 0;
    while y < n
        invariant
            y <= n,
            n == col@.len(),
            r@.len() == y,
            forall|k: int| 0 <= k < y ==> r@[k] == spec_decay_col(col@)[k],
        decreases n - y,
    {
        let a = col[y];
        if a > 0 {
            r.push(a - 1);
        } else {
            r.push(0);
        }
        y += 1;
    }
    proof {
        assert(r@ =~= spec_decay_col(col@));
    }
    r
}

/// The age replay engine: owns the age grid and the batching state.
#[derive(Debug)]
pub struct AgeEngine {
    pub table: TierTable,
    pub gradient: Gradient,
    pub pixel_lifetime: u32,
    pub pixels_per_frame: i64,
    pub min_seconds_per_frame: i64,
    pub in_bounds: Rgba,
    pub out_of_bounds: Rgba,
    pub ages: Vec<Vec<u32>>,
    pub tier_idx: usize,
    pub frame_start_time: i64,
    pub remaining_pixels: i64,
}

impl View for AgeEngine {
    type V = AgeModel;

    open spec fn view(&self) -> AgeModel {
        AgeModel {
            table: self.table,
            gradient: self.gradient,
            pixel_lifetime: self.pixel_lifetime as int,
            pixels_per_frame: self.pixels_per_frame as int,
            min_seconds_per_frame: self.min_seconds_per_frame as int,
            in_bounds: self.in_bounds,
            out_of_bounds: self.out_of_bounds,
            ages: self.ages.deep_view(),
            tier_idx: self.tier_idx as int,
            frame_start_time: self.frame_start_time as int,
            remaining_pixels: self.remaining_pixels as int,
        }
    }
}

/// The fresh state an age replay starts from: a zeroed age grid, tier 0,
/// the frame clock at the epoch, and an exhausted pixel budget.
pub open spec fn spec_age_init(
    table: TierTable,
    gradient: Gradient,
    pixel_lifetime: int,
    pixels_per_frame: int,
    min_seconds_per_frame: int,
    in_bounds: Rgba,
    out_of_bounds: Rgba,
) -> AgeModel {
    AgeModel {
        table,
        gradient,
        pixel_lifetime,
        pixels_per_frame,
        min_seconds_per_frame,
        in_bounds,
        out_of_bounds,
        ages: Seq::new(
            table.tiers@[table.spec_last()].width as nat,
            |x: int| Seq::new(table.tiers@[table.spec_last()].height as nat, |y: int| 0u32),
        ),
        tier_idx: 0,
        frame_start_time: 0,
        remaining_pixels: 0,
    }
}

impl AgeEngine {
    /// The executable state refines the model invariant.
    pub open spec fn wf(self) -> bool {
        self@.inv()
    }

    /// Starts an age replay with every cell fully decayed.
    pub fn new(
        table: TierTable,
        gradient: Gradient,
        pixel_lifetime: u32,
        pixels_per_frame: i32,
        min_seconds_per_frame: i32,
        in_bounds: Rgba,
        out_of_bounds: Rgba,
    ) -> (r: AgeEngine)
        requires
            table.wf(),
            gradient.wf(),
            pixel_lifetime >= 1,
            pixels_per_frame >= 0,
            min_seconds_per_frame >= 0,
        ensures
            r.wf(),
            r@ == spec_age_init(
                table,
                gradient,
                pixel_lifetime as int,
                pixels_per_frame as int,
                min_seconds_per_frame as int,
                in_bounds,
                out_of_bounds,
            ),
    {
        let t = table.tier_at(table.len() - 1);
        let mut ages: Vec<Vec<u32>> = Vec::new();
        let mut x: u32 = 0;
        while x < t.width
            invariant
                x <= t.width,
                ages@.len() == x,
                forall|j: int|
                    0 <= j < x ==> (#[trigger] ages@[j])@ =~= Seq::new(
                        t.height as nat,
                        |y: int| 0u32,
                    ),
            decreases t.width - x,
        {
            let mut col: Vec<u32> = Vec::new();
            let mut y: u32 = 0;
            while y < t.height
                invariant
                    y <= t.height,
                    col@.len() == y,
                    forall|k: int| 0 <= k < y ==> col@[k] == 0u32,
                decreases t.height - y,
            {
                col.push(0);
                y += 1;
            }
            proof {
                assert(col@ =~= Seq::new(t.height as nat, |yy: int| 0u32));
            }
            ages.push(col);
            x += 1;
        }
        let r = AgeEngine {
            table,
            gradient,
            pixel_lifetime,
            pixels_per_frame: pixels_per_frame as i64,
            min_seconds_per_frame: min_seconds_per_frame as i64,
            in_bounds,
            out_of_bounds,
            ages,
            tier_idx: 0,
            frame_start_time: 0,
            remaining_pixels: 0,
        };
        proof {
            assert(r@.ages =~~= spec_age_init(
                table,
                gradient,
                pixel_lifetime as int,
                pixels_per_frame as int,
                min_seconds_per_frame as int,
                in_bounds,
                out_of_bounds,
            ).ages);
        }
        r
    }

    /// One frame boundary's decay: every positive cell falls by one.
    fn decay(&mut self)
        ensures
            final(self)@ == (AgeModel { ages: spec_decay(old(self)@.ages), ..old(self)@ }),
    {
        let n = self.ages.len();
        let mut x: usize = 0;
        while x < n
            invariant
                x <= n,
                n == self.ages@.len(),
                self.table == old(self).table,
                self.gradient == old(self).gradient,
                self.pixel_lifetime == old(self).pixel_lifetime,
                self.pixels_per_frame == old(self).pixels_per_frame,
                self.min_seconds_per_frame == old(self).min_seconds_per_frame,
                self.in_bounds == old(self).in_bounds,
                self.out_of_bounds == old(self).out_of_bounds,
                self.tier_idx == old(self).tier_idx,
                self.frame_start_time == old(self).frame_start_time,
                self.remaining_pixels == old(self).remaining_pixels,
                self.ages@.len() == old(self).ages@.len(),
                forall|j: int|
                    0 <= j < x ==> (#[trigger] self.ages@[j])@ == spec_decay_col(
                        old(self).ages@[j]@,
                    ),
                forall|j: int| x <= j < n ==> #[trigger] self.ages@[j] == old(self).ages@[j],
            decreases n - x,
        {
            let col = decay_col(&self.ages[x]);
            self.ages.set(x, col);
            x += 1;
        }
        proof {
            assert(self@.ages =~~= spec_decay(old(self)@.ages));
        }
    }

    /// Renders the current age grid into a frame at the current tier.
    fn render(&self) -> (r: Vec<u8>)
        requires
            self.wf(),
        ensures
            r@ == spec_render(self@),
    {
        let ghost m = self@;
        let t = self.table.tier_at(self.tier_idx);
        let last = self.table.tier_at(self.table.len() - 1);
        let (ox, oy) = pixel_offset(&self.table, self.tier_idx);
        proof {
            lemma_offset_bounds(self.table, self.tier_idx as int);
            assert(t.width <= last.width && t.height <= last.height);
        }
        let mut img = blank_image_borders_with_colour(
            &self.table,
            self.tier_idx,
            self.in_bounds,
            self.out_of_bounds,
        );
        let fw = self.table.frame_width;
        let fh = self.table.frame_height;
        proof {
            assert forall|px: int, py: int| 0 <= px < fw && 0 <= py < fh implies spec_pixel(
                img.data@,
                fw as int,
                px,
                py,
            ) == {
                if in_tier_rect(ox as int, oy as int, t.width as int, t.height as int, px, py) {
                    self.in_bounds
                } else {
                    self.out_of_bounds
                }
            } by {
                lemma_border_pixel(
                    self.table,
                    self.tier_idx as int,
                    self.in_bounds,
                    self.out_of_bounds,
                    px,
                    py,
                );
            }
        }
        let n = self.ages.len();
        let mut x: usize = 0;
        while x < n
            invariant
                x <= n,
                n == m.final_width(),
                self.wf(),
                self@ == m,
                t == self.table.tiers@[self.tier_idx as int],
                last == self.table.tiers@[self.table.spec_last()],
                ox == self.table.spec_offset_x(self.tier_idx as int),
                oy == self.table.spec_offset_y(self.tier_idx as int),
                fw == self.table.frame_width,
                fh == self.table.frame_height,
                n == self.ages@.len(),
                img.wf(),
                img.width == fw,
                img.height == fh,
                forall|px: int, py: int|
                    0 <= px < fw && 0 <= py < fh ==> #[trigger] spec_pixel(
                        img.data@,
                        fw as int,
                        px,
                        py,
                    ) == {
                        let cx = px - ox;
                        let cy = py - oy;
                        if 0 <= cx <= t.width && cx < m.final_width() && 0 <= cy <= t.height
                            && cy < m.final_height() && cx < x {
                            spec_gradient_color(m.gradient, m.ages[cx][cy] as int, m.pixel_lifetime)
                        } else if in_tier_rect(
                            ox as int,
                            oy as int,
                            t.width as int,
                            t.height as int,
                            px,
                            py,
                        ) {
                            self.in_bounds
                        } else {
                            self.out_of_bounds
                        }
                    },
            decreases n - x,
        {
            if x <= t.width as usize {
                proof {
                    assert(m.ages[x as int].len() == m.final_height());
                    assert(m.ages[x as int] == self.ages@[x as int].deep_view());
                }
                let colh = self.ages[x].len();
                let mut y: usize = 0;
                while y < colh
                    invariant
                        y <= colh,
                        x < n,
                        x <= t.width as usize,
                        colh == m.final_height(),
                        n == m.final_width(),
                        self.wf(),
                        self@ == m,
                        t == self.table.tiers@[self.tier_idx as int],
                        last == self.table.tiers@[self.table.spec_last()],
                        ox == self.table.spec_offset_x(self.tier_idx as int),
                        oy == self.table.spec_offset_y(self.tier_idx as int),
                        fw == self.table.frame_width,
                        fh == self.table.frame_height,
                        n == self.ages@.len(),
                        colh == self.ages@[x as int]@.len(),
                        img.wf(),
                        img.width == fw,
                        img.height == fh,
                        forall|px: int, py: int|
                            0 <= px < fw && 0 <= py < fh ==> #[trigger] spec_pixel(
                                img.data@,
                                fw as int,
                                px,
                                py,
                            ) == {
                                let cx = px - ox;
                                let cy = py - oy;
                                if 0 <= cx <= t.width && cx < m.final_width() && 0 <= cy
                                    <= t.height && cy < m.final_height() && (cx < x || (cx == x
                                    && cy < y)) {
                                    spec_gradient_color(
                                        m.gradient,
                                        m.ages[cx][cy] as int,
                                        m.pixel_lifetime,
                                    )
                                } else if in_tier_rect(
                                    ox as int,
                                    oy as int,
                                    t.width as int,
                                    t.height as int,
                                    px,
                                    py,
                                ) {
                                    self.in_bounds
                                } else {
                                    self.out_of_bounds
                                }
                            },
                    decreases colh - y,
                {
                    if y <= t.height as usize {
                        proof {
                            lemma_offset_bounds(self.table, self.tier_idx as int);
                        }
                        let age = self.ages[x][y];
                        proof {
                            assert(age == m.ages[x as int][y as int]);
                            assert(m.ages[x as int][y as int] <= m.pixel_lifetime);
                        }
                        let c = heatmap_color(&self.gradient, age, self.pixel_lifetime);
                        let ghost before = img.data@;
                        img.put_pixel(x as u32 + ox, y as u32 + oy, c);
                        proof {
                            assert forall|px: int, py: int| 0 <= px < fw && 0 <= py < fh implies
                                #[trigger] spec_pixel(img.data@, fw as int, px, py) == {
                                let cx = px - ox;
                                let cy = py - oy;
                                if 0 <= cx <= t.width && cx < m.final_width() && 0 <= cy
                                    <= t.height && cy < m.final_height() && (cx < x || (cx == x
                                    && cy < y + 1)) {
                                    spec_gradient_color(
                                        m.gradient,
                                        m.ages[cx][cy] as int,
                                        m.pixel_lifetime,
                                    )
                                } else if in_tier_rect(
                                    ox as int,
                                    oy as int,
                                    t.width as int,
                                    t.height as int,
                                    px,
                                    py,
                                ) {
                                    self.in_bounds
                                } else {
                                    self.out_of_bounds
                                }
                            } by {
                                lemma_put_pixel_effect(
                                    before,
                                    fw as int,
                                    fh as int,
                                    x + ox,
                                    y + oy,
                                    c,
                                    px,
                                    py,
                                );
                            }
                        }
                    }
                    y += 1;
                }
            }
            x += 1;
        }
        proof {
            let result = spec_render(m);
            assert(img.data@.len() == result.len());
            assert forall|k: int| 0 <= k < result.len() implies img.data@[k] == result[k] by {
                lemma_byte_decode(fw as int, fh as int, k);
                let px = (k / 4) % (fw as int);
                let py = (k / 4) / (fw as int);
                lemma_render_pixel(m, px, py);
                assert(spec_pixel(img.data@, fw as int, px, py) == rendered_pixel(m, px, py));
            }
            assert(img.data@ =~= result);
        }
        let Canvas { width: _, height: _, data } = img;
        data
    }

    /// Applies one placement: at a frame boundary the whole grid decays
    /// and the decayed grid is rendered and emitted first; then the
    /// budget is spent, the tier index advances until the placement
    /// fits, and the placement's cell is set to the full lifetime — or
    /// to zero for a retraction, reverting it to the coldest color.
    pub fn step(&mut self, p: &Placement) -> (r: Option<Vec<u8>>)
        requires
            old(self).wf(),
            0 <= p@.x < old(self)@.final_width(),
            0 <= p@.y < old(self)@.final_height(),
            p.timestamp >= 0,
        ensures
            final(self).wf(),
            final(self)@ == spec_age_step(old(self)@, p@).0,
            match r {
                Option::Some(v) => spec_age_step(old(self)@, p@).1 == Option::Some(v@),
                Option::None => spec_age_step(old(self)@, p@).1 is None,
            },
    {
        let ghost m0 = self@;
        let frame: Option<Vec<u8>> = if self.remaining_pixels <= 0 && p.timestamp
            - self.frame_start_time >= self.min_seconds_per_frame {
            self.decay();
            proof {
                lemma_decay_preserves_inv(m0.ages, m0.pixel_lifetime);
            }
            let f = self.render();
            self.remaining_pixels = self.pixels_per_frame;
            self.frame_start_time = p.timestamp;
            Some(f)
        } else {
            None
        };
        if self.remaining_pixels > i64::MIN {
            self.remaining_pixels = self.remaining_pixels - 1;
        }

        let ghost land = spec_landing(m0.table, m0.tier_idx, p@.x, p@.y);
        let ghost pre = *self;
        proof {
            assert(spec_fits(m0.table.tiers@[m0.table.spec_last()], p@.x, p@.y));
            crate::engine::lemma_landing_fits(m0.table, m0.tier_idx, p@.x, p@.y);
        }
        let mut t = self.table.tier_at(self.tier_idx);
        while p.x > t.width || p.y > t.height
            invariant
                self.table == m0.table,
                self.table.wf(),
                m0.tier_idx <= self.tier_idx < self.table.tiers@.len(),
                t == self.table.tiers@[self.tier_idx as int],
                spec_fits(self.table.tiers@[self.table.spec_last()], p@.x, p@.y),
                land == spec_landing(m0.table, self.tier_idx as int, p@.x, p@.y),
                self.ages == pre.ages,
                self.gradient == pre.gradient,
                self.pixel_lifetime == pre.pixel_lifetime,
                self.pixels_per_frame == pre.pixels_per_frame,
                self.min_seconds_per_frame == pre.min_seconds_per_frame,
                self.in_bounds == pre.in_bounds,
                self.out_of_bounds == pre.out_of_bounds,
                self.frame_start_time == pre.frame_start_time,
                self.remaining_pixels == pre.remaining_pixels,
            decreases self.table.tiers@.len() - self.tier_idx,
        {
            proof {
                assert(self.tier_idx as int != self.table.spec_last());
                assert(self.table.tiers.len() == self.table.tiers@.len());
            }
            self.tier_idx = self.tier_idx + 1;
            t = self.table.tier_at(self.tier_idx);
        }
        proof {
            assert(land == self.tier_idx as int);
        }

        let v: u32 = if p.retracted {
            0
        } else {
            self.pixel_lifetime
        };
        let x = p.x as usize;
        let y = p.y as usize;
        let ghost ages_mid = self@.ages;
        proof {
            lemma_decay_preserves_inv(m0.ages, m0.pixel_lifetime);
            assert(m0.ages[x as int].len() == m0.final_height());
            assert(ages_mid.len() == m0.final_width());
            assert(ages_mid[x as int].len() == m0.final_height());
            assert(self.ages@.len() == ages_mid.len());
            assert(self.ages@[x as int].deep_view() == ages_mid[x as int]);
        }
        let col = &mut self.ages[x];
        col.set(y, v);
        proof {
            let stepped = spec_age_step(m0, p@).0;
            assert(self@.ages =~~= stepped.ages);
            assert(self@ == stepped);
            assert forall|xx: int, yy: int|
                0 <= xx < stepped.ages.len() && 0 <= yy < stepped.final_height() implies
                #[trigger] stepped.ages[xx][yy] <= stepped.pixel_lifetime by {
                if m0.remaining_pixels <= 0 && p@.timestamp - m0.frame_start_time
                    >= m0.min_seconds_per_frame {
                    lemma_decay_preserves_inv(m0.ages, m0.pixel_lifetime);
                }
            }
        }
        frame
    }

    /// The stream has ended: when the final batch was partially filled,
    /// one more decay runs and the terminal grid is rendered into a
    /// trailing frame.
    pub fn finish(&mut self) -> (r: Option<Vec<u8>>)
        requires
            old(self).wf(),
        ensures
            final(self).wf(),
            final(self)@ == spec_age_finish(old(self)@).0,
            match r {
                Option::Some(v) => spec_age_finish(old(self)@).1 == Option::Some(v@),
                Option::None => spec_age_finish(old(self)@).1 is None,
            },
    {
        if self.remaining_pixels < self.pixels_per_frame {
            let ghost m0 = self@;
            self.decay();
            proof {
                lemma_decay_preserves_inv(m0.ages, m0.pixel_lifetime);
            }
            Some(self.render())
        } else {
            None
        }
    }
}

/// Decay keeps the grid's shape and its lifetime bound.
pub proof fn lemma_decay_preserves_inv(ages: Seq<Seq<u32>>, lifetime: int)
    ensures
        spec_decay(ages).len() == ages.len(),
        forall|x: int|
            0 <= x < ages.len() ==> (#[trigger] spec_decay(ages)[x]).len() == ages[x].len(),
        forall|x: int, y: int|
            0 <= x < ages.len() && 0 <= y < ages[x].len() && ages[x][y] <= lifetime ==> #[trigger]
                spec_decay(ages)[x][y] <= lifetime,
{
}

/// The age model folded over a whole placement sequence.
pub open spec fn spec_age_run(m: AgeModel, ps: Seq<PlacementModel>) -> (AgeModel, Seq<Seq<u8>>)
    decreases ps.len(),
{
    if ps.len() == 0 {
        (m, Seq::<Seq<u8>>::empty())
    } else {
        let first = spec_age_step(m, ps[0]);
        let rest = spec_age_run(first.0, ps.drop_first());
        (rest.0, opt_frame_seq(first.1) + rest.1)
    }
}

/// Every frame a full age replay emits, the trailing frame included.
pub open spec fn spec_age_replay(m: AgeModel, ps: Seq<PlacementModel>) -> Seq<Seq<u8>> {
    let end = spec_age_run(m, ps);
    end.1 + opt_frame_seq(spec_age_finish(end.0).1)
}

/// Appending one placement to an age run folds one more step onto its
/// end.
pub proof fn lemma_age_run_push(m: AgeModel, ps: Seq<PlacementModel>, x: PlacementModel)
    ensures
        spec_age_run(m, ps.push(x)) == ({
            let a = spec_age_run(m, ps);
            let s = spec_age_step(a.0, x);
            (s.0, a.1 + opt_frame_seq(s.1))
        }),
    decreases ps.len(),
{
    if ps.len() == 0 {
        let s = spec_age_step(m, x);
        assert(ps.push(x)[0] == x);
        assert(ps.push(x).drop_first() =~= Seq::<PlacementModel>::empty());
        assert(spec_age_run(s.0, ps.push(x).drop_first()) == (s.0, Seq::<Seq<u8>>::empty()));
        assert(opt_frame_seq(s.1) + Seq::<Seq<u8>>::empty() =~= opt_frame_seq(s.1));
        assert(Seq::<Seq<u8>>::empty() + opt_frame_seq(s.1) =~= opt_frame_seq(s.1));
    } else {
        assert(ps.push(x)[0] == ps[0]);
        assert(ps.push(x).drop_first() =~= ps.drop_first().push(x));
        let first = spec_age_step(m, ps[0]);
        lemma_age_run_push(first.0, ps.drop_first(), x);
        let a = spec_age_run(first.0, ps.drop_first());
        let s = spec_age_step(spec_age_run(m, ps).0, x);
        assert(opt_frame_seq(first.1) + (a.1 + opt_frame_seq(s.1)) =~= (opt_frame_seq(first.1)
            + a.1) + opt_frame_seq(s.1));
    }
}

/// Replays a whole placement stream in age-tracking mode and returns
/// every emitted frame, the trailing frame of the terminal grid
/// included.
pub fn replay_agemap(
    table: TierTable,
    gradient: Gradient,
    pixel_lifetime: u32,
    pixels_per_frame: i32,
    min_seconds_per_frame: i32,
    in_bounds: Rgba,
    out_of_bounds: Rgba,
    placements: &Vec<Placement>,
) -> (r: Vec<Vec<u8>>)
    requires
        table.wf(),
        gradient.wf(),
        pixel_lifetime >= 1,
        pixels_per_frame >= 0,
        min_seconds_per_frame >= 0,
        forall|i: int|
            0 <= i < placements@.len() ==> 0 <= (#[trigger] placements@[i])@.x
                < table.tiers@[table.spec_last()].width && 0 <= placements@[i]@.y
                < table.tiers@[table.spec_last()].height,
        forall|i: int| 0 <= i < placements@.len() ==> (#[trigger] placements@[i])@.timestamp >= 0,
    ensures
        r.deep_view() == spec_age_replay(
            spec_age_init(
                table,
                gradient,
                pixel_lifetime as int,
                pixels_per_frame as int,
                min_seconds_per_frame as int,
                in_bounds,
                out_of_bounds,
            ),
            placements.deep_view(),
        ),
{
    let ghost ps = placements.deep_view();
    let ghost init = spec_age_init(
        table,
        gradient,
        pixel_lifetime as int,
        pixels_per_frame as int,
        min_seconds_per_frame as int,
        in_bounds,
        out_of_bounds,
    );
    let mut eng = AgeEngine::new(
        table,
        gradient,
        pixel_lifetime,
        pixels_per_frame,
        min_seconds_per_frame,
        in_bounds,
        out_of_bounds,
    );
    let mut frames: Vec<Vec<u8>> = Vec::new();
    let mut i: usize = 0;
    proof {
        assert(ps.take(0) =~= Seq::<PlacementModel>::empty());
    }
    while i < placements.len()
        invariant
            i <= placements@.len(),
            ps == placements.deep_view(),
            ps.len() == placements@.len(),
            eng.wf(),
            eng.table == table,
            table.wf(),
            eng@.final_width() == table.tiers@[table.spec_last()].width,
            eng@.final_height() == table.tiers@[table.spec_last()].height,
            forall|j: int|
                0 <= j < placements@.len() ==> 0 <= (#[trigger] placements@[j])@.x
                    < table.tiers@[table.spec_last()].width && 0 <= placements@[j]@.y
                    < table.tiers@[table.spec_last()].height,
            forall|j: int|
                0 <= j < placements@.len() ==> (#[trigger] placements@[j])@.timestamp >= 0,
            eng@ == spec_age_run(init, ps.take(i as int)).0,
            frames.deep_view() == spec_age_run(init, ps.take(i as int)).1,
        decreases placements@.len() - i,
    {
        let p = &placements[i];
        proof {
            assert(p@ == ps[i as int]);
        }
        let stepped = eng.step(p);
        proof {
            lemma_age_run_push(init, ps.take(i as int), ps[i as int]);
            assert(ps.take(i as int).push(ps[i as int]) =~= ps.take(i + 1));
        }
        match stepped {
            Some(f) => {
                let ghost old_frames = frames.deep_view();
                frames.push(f);
                proof {
                    assert(frames.deep_view() =~~= old_frames.push(f@));
                    assert(old_frames.push(f@) =~= old_frames + opt_frame_seq(
                        Option::Some(f@),
                    ));
                }
            },
            None => {
                proof {
                    assert(frames.deep_view() =~= frames.deep_view() + opt_frame_seq(
                        Option::<Seq<u8>>::None,
                    ));
                }
            },
        }
        i += 1;
    }
    proof {
        assert(ps.take(i as int) =~= ps);
    }
    let last = eng.finish();
    match last {
        Some(f) => {
            let ghost old_frames = frames.deep_view();
            frames.push(f);
            proof {
                assert(frames.deep_view() =~~= old_frames.push(f@));
                assert(old_frames.push(f@) =~= old_frames + opt_frame_seq(Option::Some(f@)));
            }
        },
        None => {
            proof {
                assert(frames.deep_view() =~= frames.deep_view() + opt_frame_seq(
                    Option::<Seq<u8>>::None,
                ));
            }
        },
    }
    frames
}

} // verus!
