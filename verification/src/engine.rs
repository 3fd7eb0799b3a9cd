//! The replay engine: consumes a time-ordered stream of pixel placements,
//! grows the canvas through its tiers, and cuts frames under the dual
//! threshold of elapsed seconds and placement count.
//!
//! Every mutation is mirrored by a ghost model over plain sequences and
//! integers; the executable engine is proved to follow that model step by
//! step, so properties of whole replays can be stated and proved over the
//! model alone.

use vstd::prelude::*;
use vstd::utf8::encode_utf8;

use crate::canvas::{spec_border, spec_put, Canvas, blank_image_borders_with_colour};
use crate::color::{hex_to_rgba, spec_hex_color, Rgba};
use crate::grow::{extend_canvas_with_colour, lemma_offset_bounds, spec_grow};
use crate::tiers::{pixel_offset, Tier, TierTable};

verus! {

/// One pixel-placement event, as the event source delivers it: raw
/// coordinates, an optional `#rrggbb` color string, seconds since the
/// epoch, and whether moderation retracted the pixel instead of placing
/// one.
#[derive(Debug)]
pub struct Placement {
    pub x: u32,
    pub y: u32,
    pub color: Option<String>,
    pub timestamp: i64,
    pub retracted: bool,
}

/// The mathematical shadow of a [`Placement`]: the color string is kept
/// as its UTF-8 bytes.
pub ghost struct PlacementModel {
    pub x: int,
    pub y: int,
    pub color: Option<Seq<u8>>,
    pub timestamp: int,
    pub retracted: bool,
}

impl View for Placement {
    type V = PlacementModel;

    open spec fn view(&self) -> PlacementModel {
        PlacementModel {
            x: self.x as int,
            y: self.y as int,
            color: match self.color {
                Option::Some(s) => Option::Some(encode_utf8(s@)),
                Option::None => Option::None,
            },
            timestamp: self.timestamp as int,
            retracted: self.retracted,
        }
    }
}

impl DeepView for Placement {
    type V = PlacementModel;

    open spec fn deep_view(&self) -> PlacementModel {
        self.view()
    }
}

/// Where a non-retracted placement's pixel color comes from.
#[derive(Clone, Copy, PartialEq, Eq, Structural, Debug)]
pub enum PaintRule {
    /// Decode the placement's own `#rrggbb` string.
    PlacementColor,
    /// Paint every placement in one fixed color.
    Fixed(Rgba),
}

/// The colors of one render mode: the background inside the current
/// tier's rectangle, the fill outside it, the paint rule, and the color a
/// retracted pixel reverts to.
#[derive(Clone, Copy, PartialEq, Eq, Structural, Debug)]
pub struct ModeConfig {
    pub in_bounds: Rgba,
    pub out_of_bounds: Rgba,
    pub paint: PaintRule,
    pub revert: Rgba,
}

/// Why a replay aborts: the stream is assumed pre-validated, so a color
/// string that does not decode is fatal.
#[derive(Clone, Copy, PartialEq, Eq, Structural, Debug)]
pub enum ReplayError {
    BadColor,
}

/// The ghost state of a replay between two placements.
pub ghost struct EngineModel {
    pub table: TierTable,
    pub mode: ModeConfig,
    pub pixels_per_frame: int,
    pub min_seconds_per_frame: int,
    pub canvas: Seq<u8>,
    pub tier_idx: int,
    pub frame_start_time: int,
    pub remaining_pixels: int,
}

/// Whether a placement's raw coordinates lie within a tier. The
/// overflow comparison is deliberately strict, so the tier's own width
/// and height are inclusive upper bounds: a placement exactly on the
/// edge stays in the tier and paints the far, inclusive edge of its
/// centered rectangle.
pub open spec fn spec_fits(t: Tier, x: int, y: int) -> bool {
    !(x > t.width || y > t.height)
}

/// The tier the replay stands on after growing just far enough that the
/// placement fits, scanning tier by tier from `idx`.
pub open spec fn spec_landing(table: TierTable, idx: int, x: int, y: int) -> int
    decreases table.tiers@.len() - idx,
{
    if idx + 1 < table.tiers@.len() && !spec_fits(table.tiers@[idx], x, y) {
        spec_landing(table, idx + 1, x, y)
    } else {
        idx
    }
}

/// The canvas after growing from tier `from` up to tier `to`, one
/// re-centering copy per tier boundary.
pub open spec fn spec_grow_chain(
    data: Seq<u8>,
    table: TierTable,
    mode: ModeConfig,
    from: int,
    to: int,
) -> Seq<u8>
    decreases to - from,
{
    if from < to {
        spec_grow_chain(
            spec_grow(data, table, from + 1, mode.in_bounds, mode.out_of_bounds),
            table,
            mode,
            from + 1,
            to,
        )
    } else {
        data
    }
}

/// The color a placement writes: the mode's revert color for a
/// retraction, otherwise whatever the paint rule yields. `None` is a
/// malformed color string, which aborts the replay.
pub open spec fn spec_paint_color(mode: ModeConfig, p: PlacementModel) -> Option<Rgba> {
    if p.retracted {
        Option::Some(mode.revert)
    } else {
        match mode.paint {
            PaintRule::Fixed(c) => Option::Some(c),
            PaintRule::PlacementColor => match p.color {
                Option::Some(bytes) => spec_hex_color(bytes),
                Option::None => Option::None,
            },
        }
    }
}

/// The dual-threshold frame boundary: the pixel budget is spent and
/// enough seconds have passed since the current frame began.
pub open spec fn spec_emits(m: EngineModel, ts: int) -> bool {
    m.remaining_pixels <= 0 && ts - m.frame_start_time >= m.min_seconds_per_frame
}

/// The budget counter falls by one per placement; it stops at the far
/// bottom of its machine range, unreachable by any real stream.
pub open spec fn spec_dec(r: int) -> int {
    if r > i64::MIN {
        r - 1
    } else {
        r
    }
}

impl EngineModel {
    /// State invariant: a well-formed table, the tier index on the table,
    /// a frame-sized canvas, and a nonnegative clock and thresholds.
    pub open spec fn inv(self) -> bool {
        &&& self.table.wf()
        &&& 0 <= self.tier_idx < self.table.tiers@.len()
        &&& self.canvas.len() == self.table.spec_frame_bytes()
        &&& 0 <= self.frame_start_time <= i64::MAX
        &&& 0 <= self.pixels_per_frame <= i64::MAX
        &&& 0 <= self.min_seconds_per_frame <= i64::MAX
        &&& i64::MIN <= self.remaining_pixels <= i64::MAX
    }
}

/// The fresh state a replay starts from: the background fill of tier 0,
/// a frame clock at the epoch, and an exhausted pixel budget, so the
/// first placement after `min_seconds_per_frame` opens with a frame of
/// the untouched canvas.
pub open spec fn spec_init(
    table: TierTable,
    mode: ModeConfig,
    pixels_per_frame: int,
    min_seconds_per_frame: int,
) -> EngineModel {
    EngineModel {
        table,
        mode,
        pixels_per_frame,
        min_seconds_per_frame,
        canvas: spec_border(table, 0, mode.in_bounds, mode.out_of_bounds),
        tier_idx: 0,
        frame_start_time: 0,
        remaining_pixels: 0,
    }
}

/// One placement applied to the model: possibly a frame cut before
/// anything changes, then the budget spent, then growth until the
/// placement fits, then the pixel written at the landing tier's offset.
///
/// Meaningful when `spec_paint_color` yields a color; a replay aborts
/// before reaching this state otherwise.
pub open spec fn spec_step(m: EngineModel, p: PlacementModel) -> (EngineModel, Option<Seq<u8>>) {
    let emit = spec_emits(m, p.timestamp);
    let frame = if emit {
        Option::Some(m.canvas)
    } else {
        Option::<Seq<u8>>::None
    };
    let fs1 = if emit {
        p.timestamp
    } else {
        m.frame_start_time
    };
    let rem1 = spec_dec(
        if emit {
            m.pixels_per_frame
        } else {
            m.remaining_pixels
        },
    );
    let land = spec_landing(m.table, m.tier_idx, p.x, p.y);
    let grown = spec_grow_chain(m.canvas, m.table, m.mode, m.tier_idx, land);
    let c = match spec_paint_color(m.mode, p) {
        Option::Some(c) => c,
        Option::None => m.mode.revert,
    };
    let canvas2 = spec_put(
        grown,
        m.table.frame_width as int,
        p.x + m.table.spec_offset_x(land),
        p.y + m.table.spec_offset_y(land),
        c,
    );
    (
        EngineModel {
            canvas: canvas2,
            tier_idx: land,
            frame_start_time: fs1,
            remaining_pixels: rem1,
            ..m
        },
        frame,
    )
}

/// Whether the stream's end owes one trailing frame: the last emitted
/// frame does not show the terminal state whenever the final batch was
/// partially filled.
pub open spec fn spec_trailing(m: EngineModel) -> bool {
    m.remaining_pixels < m.pixels_per_frame
}

/// The frame the stream's end emits, if any.
pub open spec fn spec_final_frame(m: EngineModel) -> Option<Seq<u8>> {
    if spec_trailing(m) {
        Option::Some(m.canvas)
    } else {
        Option::<Seq<u8>>::None
    }
}

/// A frame option as the sequence of frames it contributes.
pub open spec fn opt_frame_seq(f: Option<Seq<u8>>) -> Seq<Seq<u8>> {
    match f {
        Option::Some(v) => seq![v],
        Option::None => Seq::<Seq<u8>>::empty(),
    }
}

/// The model folded over a whole placement sequence: the end state and
/// the frames emitted along the way, in order.
pub open spec fn spec_run(m: EngineModel, ps: Seq<PlacementModel>) -> (EngineModel, Seq<Seq<u8>>)
    decreases ps.len(),
{
    if ps.len() == 0 {
        (m, Seq::<Seq<u8>>::empty())
    } else {
        let first = spec_step(m, ps[0]);
        let rest = spec_run(first.0, ps.drop_first());
        (rest.0, opt_frame_seq(first.1) + rest.1)
    }
}

/// Every frame a full replay emits: the frames of the stream plus the
/// trailing frame of the terminal state, if one is owed.
pub open spec fn spec_replay(m: EngineModel, ps: Seq<PlacementModel>) -> Seq<Seq<u8>> {
    let end = spec_run(m, ps);
    end.1 + opt_frame_seq(spec_final_frame(end.0))
}

/// Whether every placement of a stream resolves to a color under a mode.
pub open spec fn spec_colors_ok(mode: ModeConfig, ps: Seq<PlacementModel>) -> bool {
    forall|i: int| 0 <= i < ps.len() ==> spec_paint_color(mode, #[trigger] ps[i]) is Some
}

/// The landing scan only moves forward, stays on the table, and ends on
/// a tier the placement fits.
pub proof fn lemma_landing_fits(table: TierTable, idx: int, x: int, y: int)
    requires
        table.wf(),
        0 <= idx < table.tiers@.len(),
        spec_fits(table.tiers@[table.spec_last()], x, y),
    ensures
        idx <= spec_landing(table, idx, x, y) < table.tiers@.len(),
        spec_fits(table.tiers@[spec_landing(table, idx, x, y)], x, y),
    decreases table.tiers@.len() - idx,
{
    if idx + 1 < table.tiers@.len() && !spec_fits(table.tiers@[idx], x, y) {
        lemma_landing_fits(table, idx + 1, x, y);
    }
}

/// Each growth step keeps the canvas frame-sized, so the whole chain
/// does.
pub proof fn lemma_grow_chain_len(
    data: Seq<u8>,
    table: TierTable,
    mode: ModeConfig,
    from: int,
    to: int,
)
    requires
        data.len() == table.spec_frame_bytes(),
    ensures
        spec_grow_chain(data, table, mode, from, to).len() == table.spec_frame_bytes(),
    decreases to - from,
{
    if from < to {
        lemma_grow_chain_len(
            spec_grow(data, table, from + 1, mode.in_bounds, mode.out_of_bounds),
            table,
            mode,
            from + 1,
            to,
        );
    }
}

/// Growing one tier beyond a chain is the chain into the next tier.
pub proof fn lemma_grow_chain_snoc(
    data: Seq<u8>,
    table: TierTable,
    mode: ModeConfig,
    from: int,
    to: int,
)
    requires
        from <= to,
    ensures
        spec_grow_chain(data, table, mode, from, to + 1) == spec_grow(
            spec_grow_chain(data, table, mode, from, to),
            table,
            to + 1,
            mode.in_bounds,
            mode.out_of_bounds,
        ),
    decreases to - from,
{
    if from < to {
        lemma_grow_chain_snoc(
            spec_grow(data, table, from + 1, mode.in_bounds, mode.out_of_bounds),
            table,
            mode,
            from + 1,
            to,
        );
    } else {
        let once = spec_grow(data, table, from + 1, mode.in_bounds, mode.out_of_bounds);
        assert(spec_grow_chain(once, table, mode, from + 1, to + 1) == once);
        assert(spec_grow_chain(data, table, mode, from, to) == data);
    }
}

/// Appending one placement to a run folds one more step onto its end.
pub proof fn lemma_run_push(m: EngineModel, ps: Seq<PlacementModel>, x: PlacementModel)
    ensures
        spec_run(m, ps.push(x)) == ({
            let a = spec_run(m, ps);
            let s = spec_step(a.0, x);
            (s.0, a.1 + opt_frame_seq(s.1))
        }),
    decreases ps.len(),
{
    if ps.len() == 0 {
        let s = spec_step(m, x);
        assert(ps.push(x)[0] == x);
        assert(ps.push(x).drop_first() =~= Seq::<PlacementModel>::empty());
        assert(spec_run(s.0, ps.push(x).drop_first()) == (s.0, Seq::<Seq<u8>>::empty()));
        assert(opt_frame_seq(s.1) + Seq::<Seq<u8>>::empty() =~= opt_frame_seq(s.1));
        assert(Seq::<Seq<u8>>::empty() + opt_frame_seq(s.1) =~= opt_frame_seq(s.1));
    } else {
        assert(ps.push(x)[0] == ps[0]);
        assert(ps.push(x).drop_first() =~= ps.drop_first().push(x));
        let first = spec_step(m, ps[0]);
        lemma_run_push(first.0, ps.drop_first(), x);
        let a = spec_run(first.0, ps.drop_first());
        let s = spec_step(spec_run(m, ps).0, x);
        assert(opt_frame_seq(first.1) + (a.1 + opt_frame_seq(s.1)) =~= (opt_frame_seq(first.1)
            + a.1) + opt_frame_seq(s.1));
    }
}

/// The replay engine for the direct-color modes: owns the canvas and the
/// batching state, and applies one placement at a time.
#[derive(Debug)]
pub struct Engine {
    pub table: TierTable,
    pub mode: ModeConfig,
    pub pixels_per_frame: i64,
    pub min_seconds_per_frame: i64,
    pub canvas: Canvas,
    pub tier_idx: usize,
    pub frame_start_time: i64,
    pub remaining_pixels: i64,
}

impl View for Engine {
    type V = EngineModel;

    open spec fn view(&self) -> EngineModel {
        EngineModel {
            table: self.table,
            mode: self.mode,
            pixels_per_frame: self.pixels_per_frame as int,
            min_seconds_per_frame: self.min_seconds_per_frame as int,
            canvas: self.canvas.data@,
            tier_idx: self.tier_idx as int,
            frame_start_time: self.frame_start_time as int,
            remaining_pixels: self.remaining_pixels as int,
        }
    }
}

impl Engine {
    /// The executable state refines the model invariant: the canvas
    /// value really is a frame-sized grid.
    pub open spec fn wf(self) -> bool {
        &&& self@.inv()
        &&& self.canvas.wf()
        &&& self.canvas.width == self.table.frame_width
        &&& self.canvas.height == self.table.frame_height
    }

    /// Starts a replay at tier 0 with an empty, background-filled canvas.
    pub fn new(
        table: TierTable,
        mode: ModeConfig,
        pixels_per_frame: i32,
        min_seconds_per_frame: i32,
    ) -> (r: Engine)
        requires
            table.wf(),
            pixels_per_frame >= 0,
            min_seconds_per_frame >= 0,
        ensures
            r.wf(),
            r@ == spec_init(table, mode, pixels_per_frame as int, min_seconds_per_frame as int),
    {
        let canvas = blank_image_borders_with_colour(&table, 0, mode.in_bounds, mode.out_of_bounds);
        Engine {
            table,
            mode,
            pixels_per_frame: pixels_per_frame as i64,
            min_seconds_per_frame: min_seconds_per_frame as i64,
            canvas,
            tier_idx: 0,
            frame_start_time: 0,
            remaining_pixels: 0,
        }
    }

    /// Applies one placement: emits a frame first if the dual threshold
    /// fires, spends one unit of budget, grows the canvas until the
    /// placement fits, and writes the placement's color at the landing
    /// tier's offset. A color string that does not decode aborts with
    /// the state untouched.
    pub fn step(&mut self, p: &Placement) -> (r: Result<Option<Vec<u8>>, ReplayError>)
        requires
            old(self).wf(),
            spec_fits(
                old(self).table.tiers@[old(self).table.spec_last()],
                p@.x,
                p@.y,
            ),
            p.timestamp >= 0,
        ensures
            match r {
                Result::Err(e) => {
                    &&& e == ReplayError::BadColor
                    &&& spec_paint_color(old(self).mode, p@) is None
                    &&& *final(self) == *old(self)
                },
                Result::Ok(fr) => {
                    &&& final(self).wf()
                    &&& spec_paint_color(old(self).mode, p@) is Some
                    &&& final(self)@ == spec_step(old(self)@, p@).0
                    &&& match fr {
                        Option::Some(v) => spec_step(old(self)@, p@).1 == Option::Some(v@),
                        Option::None => spec_step(old(self)@, p@).1 is None,
                    }
                },
            },
    {
        let color_opt: Option<Rgba> = if p.retracted {
            Some(self.mode.revert)
        } else {
            match self.mode.paint {
                PaintRule::Fixed(c) => Some(c),
                PaintRule::PlacementColor => match &p.color {
                    Some(s) => hex_to_rgba(s.as_str()),
                    None => None,
                },
            }
        };
        let color = match color_opt {
            Some(c) => c,
            None => {
                return Err(ReplayError::BadColor);
            },
        };
        proof {
            assert(color_opt == spec_paint_color(self.mode, p@));
        }

        let frame: Option<Vec<u8>> = if self.remaining_pixels <= 0 && p.timestamp
            - self.frame_start_time >= self.min_seconds_per_frame {
            let snap = self.canvas.snapshot();
            self.remaining_pixels = self.pixels_per_frame;
            self.frame_start_time = p.timestamp;
            Some(snap)
        } else {
            None
        };

        if self.remaining_pixels > i64::MIN {
            self.remaining_pixels = self.remaining_pixels - 1;
        }

        let ghost m0 = old(self)@;
        let ghost land = spec_landing(m0.table, m0.tier_idx, p@.x, p@.y);
        proof {
            lemma_landing_fits(m0.table, m0.tier_idx, p@.x, p@.y);
        }
        let mut t = self.table.tier_at(self.tier_idx);
        while p.x > t.width || p.y > t.height
            invariant
                self.table == m0.table,
                self.mode == m0.mode,
                self.table.wf(),
                self.canvas.wf(),
                self.canvas.width == self.table.frame_width,
                self.canvas.height == self.table.frame_height,
                m0.tier_idx <= self.tier_idx < self.table.tiers@.len(),
                t == self.table.tiers@[self.tier_idx as int],
                spec_fits(self.table.tiers@[self.table.spec_last()], p@.x, p@.y),
                land == spec_landing(m0.table, self.tier_idx as int, p@.x, p@.y),
                self.canvas.data@ == spec_grow_chain(
                    m0.canvas,
                    m0.table,
                    m0.mode,
                    m0.tier_idx,
                    self.tier_idx as int,
                ),
                m0.canvas.len() == m0.table.spec_frame_bytes(),
                self.pixels_per_frame == old(self).pixels_per_frame,
                self.min_seconds_per_frame == old(self).min_seconds_per_frame,
                self.frame_start_time == if spec_emits(m0, p@.timestamp) {
                    p@.timestamp
                } else {
                    m0.frame_start_time
                },
                self.remaining_pixels as int == spec_dec(
                    if spec_emits(m0, p@.timestamp) {
                        m0.pixels_per_frame
                    } else {
                        m0.remaining_pixels
                    },
                ),
            decreases self.table.tiers@.len() - self.tier_idx,
        {
            proof {
                assert(self.tier_idx as int != self.table.spec_last());
                assert(self.table.tiers.len() == self.table.tiers@.len());
                assert(self.tier_idx + 1 < self.table.tiers@.len());
                lemma_grow_chain_snoc(
                    m0.canvas,
                    m0.table,
                    m0.mode,
                    m0.tier_idx,
                    self.tier_idx as int,
                );
            }
            self.tier_idx = self.tier_idx + 1;
            let grown = extend_canvas_with_colour(
                &self.canvas,
                &self.table,
                self.tier_idx,
                self.mode.in_bounds,
                self.mode.out_of_bounds,
            );
            self.canvas = grown;
            t = self.table.tier_at(self.tier_idx);
        }
        proof {
            assert(land == self.tier_idx as int);
            lemma_offset_bounds(self.table, self.tier_idx as int);
        }
        let (ox, oy) = pixel_offset(&self.table, self.tier_idx);
        self.canvas.put_pixel(p.x + ox, p.y + oy, color);
        proof {
            lemma_grow_chain_len(m0.canvas, m0.table, m0.mode, m0.tier_idx, land);
            assert(self@ == spec_step(m0, p@).0);
        }
        Ok(frame)
    }

    /// The stream has ended: emits one final frame of the terminal canvas
    /// unless the pixel budget sits exactly at its reset value, in which
    /// case the last emitted frame already shows this state.
    pub fn finish(&self) -> (r: Option<Vec<u8>>)
        ensures
            match r {
                Option::Some(v) => spec_final_frame(self@) == Option::Some(v@),
                Option::None => spec_final_frame(self@) is None,
            },
    {
        if self.remaining_pixels < self.pixels_per_frame {
            Some(self.canvas.snapshot())
        } else {
            None
        }
    }
}

/// Replays a whole placement stream from a fresh canvas and returns
/// every emitted frame, the trailing frame of the terminal state
/// included; aborts on the first placement whose color string does not
/// decode.
pub fn replay(
    table: TierTable,
    mode: ModeConfig,
    pixels_per_frame: i32,
    min_seconds_per_frame: i32,
    placements: &Vec<Placement>,
) -> (r: Result<Vec<Vec<u8>>, ReplayError>)
    requires
        table.wf(),
        pixels_per_frame >= 0,
        min_seconds_per_frame >= 0,
        forall|i: int|
            0 <= i < placements@.len() ==> spec_fits(
                table.tiers@[table.spec_last()],
                (#[trigger] placements@[i])@.x,
                placements@[i]@.y,
            ),
        forall|i: int| 0 <= i < placements@.len() ==> (#[trigger] placements@[i])@.timestamp >= 0,
    ensures
        match r {
            Result::Ok(frames) => {
                &&& spec_colors_ok(mode, placements.deep_view())
                &&& frames.deep_view() == spec_replay(
                    spec_init(table, mode, pixels_per_frame as int, min_seconds_per_frame as int),
                    placements.deep_view(),
                )
            },
            Result::Err(e) => {
                &&& e == ReplayError::BadColor
                &&& !spec_colors_ok(mode, placements.deep_view())
            },
        },
{
    let ghost ps = placements.deep_view();
    let ghost init = spec_init(
        table,
        mode,
        pixels_per_frame as int,
        min_seconds_per_frame as int,
    );
    let mut eng = Engine::new(table, mode, pixels_per_frame, min_seconds_per_frame);
    let mut frames: Vec<Vec<u8>> = Vec::new();
    let mut i: usize = 0;
    proof {
        assert(ps.take(0) =~= Seq::<PlacementModel>::empty());
    }
    while i < placements.len()
        invariant
            i <= placements@.len(),
            ps == placements.deep_view(),
            ps.len() == placements@.len(),
            eng.wf(),
            eng.table == table,
            eng.mode == mode,
            table.wf(),
            forall|j: int|
                0 <= j < placements@.len() ==> spec_fits(
                    table.tiers@[table.spec_last()],
                    (#[trigger] placements@[j])@.x,
                    placements@[j]@.y,
                ),
            forall|j: int|
                0 <= j < placements@.len() ==> (#[trigger] placements@[j])@.timestamp >= 0,
            forall|j: int| 0 <= j < i ==> spec_paint_color(mode, #[trigger] ps[j]) is Some,
            eng@ == spec_run(init, ps.take(i as int)).0,
            frames.deep_view() == spec_run(init, ps.take(i as int)).1,
        decreases placements@.len() - i,
    {
        let ghost prev = eng@;
        let p = &placements[i];
        proof {
            assert(p@ == ps[i as int]);
        }
        let stepped = eng.step(p);
        proof {
            lemma_run_push(init, ps.take(i as int), ps[i as int]);
            assert(ps.take(i as int).push(ps[i as int]) =~= ps.take(i + 1));
        }
        match stepped {
            Ok(Some(f)) => {
                let ghost old_frames = frames.deep_view();
                frames.push(f);
                proof {
                    assert(frames.deep_view() =~~= old_frames.push(f@));
                    assert(old_frames.push(f@) =~= old_frames + opt_frame_seq(
                        Option::Some(f@),
                    ));
                }
            },
            Ok(None) => {
                proof {
                    assert(frames.deep_view() =~= frames.deep_view() + opt_frame_seq(
                        Option::<Seq<u8>>::None,
                    ));
                }
            },
            Err(e) => {
                proof {
                    assert(spec_paint_color(mode, ps[i as int]) is None);
                }
                return Err(e);
            },
        }
        i += 1;
    }
    proof {
        assert(ps.take(i as int) =~= ps);
    }
    let last = eng.finish();
    match last {
        Some(f) => {
            let ghost old_frames = frames.deep_view();
            frames.push(f);
            proof {
                assert(frames.deep_view() =~~= old_frames.push(f@));
                assert(old_frames.push(f@) =~= old_frames + opt_frame_seq(Option::Some(f@)));
            }
        },
        None => {
            proof {
                assert(frames.deep_view() =~= frames.deep_view() + opt_frame_seq(
                    Option::<Seq<u8>>::None,
                ));
            }
        },
    }
    Ok(frames)
}

} // verus!
