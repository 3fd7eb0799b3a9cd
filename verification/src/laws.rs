//! Replay-wide laws of the engine models: frame counting, determinism,
//! age decay, and retraction.

use vstd::prelude::*;

use crate::agemap::{spec_age_emits, spec_age_run, spec_age_step, spec_decay, AgeModel};
use crate::canvas::spec_pixel;
use crate::engine::{
    lemma_grow_chain_len, lemma_landing_fits, spec_emits, spec_fits, spec_grow_chain, spec_landing,
    spec_replay, spec_run, spec_step, spec_trailing, EngineModel, PlacementModel,
};
use crate::gradient::{lemma_gradient_at_zero, spec_gradient_color};
use crate::grow::{lemma_offset_bounds, lemma_put_pixel_effect};

verus! {

/// How often the dual-threshold boundary fires over a placement stream.
pub open spec fn spec_fire_count(m: EngineModel, ps: Seq<PlacementModel>) -> int
    decreases ps.len(),
{
    if ps.len() == 0 {
        0
    } else {
        (if spec_emits(m, ps[0].timestamp) {
            1int
        } else {
            0int
        }) + spec_fire_count(spec_step(m, ps[0]).0, ps.drop_first())
    }
}

/// A run emits exactly one frame per firing of the dual threshold.
proof fn lemma_run_emission_count(m: EngineModel, ps: Seq<PlacementModel>)
    ensures
        spec_run(m, ps).1.len() == spec_fire_count(m, ps),
    decreases ps.len(),
{
    if ps.len() != 0 {
        lemma_run_emission_count(spec_step(m, ps[0]).0, ps.drop_first());
    }
}

/// For every placement stream strictly increasing in timestamp, the
/// number of emitted frames equals the number of times the batcher's
/// dual-threshold condition fires, plus exactly one trailing frame when
/// the final partial batch left the budget off its reset value.
pub proof fn lemma_frame_count(m: EngineModel, ps: Seq<PlacementModel>)
    requires
        forall|i: int, j: int|
            0 <= i < j < ps.len() ==> (#[trigger] ps[i]).timestamp < (#[trigger] ps[j]).timestamp,
    ensures
        spec_replay(m, ps).len() == spec_fire_count(m, ps) + if spec_trailing(
            spec_run(m, ps).0,
        ) {
            1int
        } else {
            0int
        },
{
    lemma_run_emission_count(m, ps);
}

/// Determinism: replaying equal placement streams from equal starting
/// states yields byte-identical frame sequences. Since `replay`'s
/// contract equates each run's output with `spec_replay` of its input,
/// two runs over the same stream emit the same bytes.
pub proof fn lemma_replay_deterministic(
    m1: EngineModel,
    ps1: Seq<PlacementModel>,
    m2: EngineModel,
    ps2: Seq<PlacementModel>,
)
    requires
        m1 == m2,
        ps1 == ps2,
    ensures
        spec_replay(m1, ps1) == spec_replay(m2, ps2),
{
}

/// How often the frame boundary fires over an age replay.
pub open spec fn spec_age_fire_count(m: AgeModel, ps: Seq<PlacementModel>) -> int
    decreases ps.len(),
{
    if ps.len() == 0 {
        0
    } else {
        (if spec_age_emits(m, ps[0].timestamp) {
            1int
        } else {
            0int
        }) + spec_age_fire_count(spec_age_step(m, ps[0]).0, ps.drop_first())
    }
}

/// The shape constraints the cell-decay argument needs of an age grid.
pub open spec fn age_grid_shaped(m: AgeModel) -> bool {
    &&& m.ages.len() == m.final_width()
    &&& forall|x: int| 0 <= x < m.ages.len() ==> (#[trigger] m.ages[x]).len() == m.final_height()
}

/// A cell no placement touches decays by one per frame boundary and
/// stops at zero.
proof fn lemma_age_run_cell(m: AgeModel, ps: Seq<PlacementModel>, x: int, y: int)
    requires
        age_grid_shaped(m),
        0 <= x < m.final_width(),
        0 <= y < m.final_height(),
        forall|i: int|
            0 <= i < ps.len() ==> 0 <= (#[trigger] ps[i]).x < m.final_width() && 0 <= ps[i].y
                < m.final_height() && !(ps[i].x == x && ps[i].y == y),
    ensures
        ({
            let end = spec_age_run(m, ps).0;
            &&& end.table == m.table
            &&& end.gradient == m.gradient
            &&& end.pixel_lifetime == m.pixel_lifetime
            &&& age_grid_shaped(end)
            &&& end.ages[x][y] as int == ({
                let fc = spec_age_fire_count(m, ps);
                if m.ages[x][y] >= fc {
                    m.ages[x][y] - fc
                } else {
                    0int
                }
            })
            &&& spec_age_fire_count(m, ps) >= 0
        }),
    decreases ps.len(),
{
    if ps.len() != 0 {
        let p = ps[0];
        let stepped = spec_age_step(m, p).0;
        let emit = spec_age_emits(m, p.timestamp);
        let ages1 = if emit {
            spec_decay(m.ages)
        } else {
            m.ages
        };
        crate::agemap::lemma_decay_preserves_inv(m.ages, m.pixel_lifetime);
        assert(age_grid_shaped(stepped));
        assert(stepped.ages[x][y] == ages1[x][y]);
        assert(ages1[x][y] as int == if emit {
            if m.ages[x][y] > 0 {
                m.ages[x][y] - 1
            } else {
                0int
            }
        } else {
            m.ages[x][y] as int
        });
        lemma_age_run_cell(stepped, ps.drop_first(), x, y);
    }
}

/// Age decay: a pixel whose age stands at `pixel_lifetime` and that
/// receives no further placements decays to zero over exactly
/// `pixel_lifetime` frame boundaries, and the gradient then renders it
/// as the coldest stop's own color.
pub proof fn lemma_age_decay_to_cold(m: AgeModel, ps: Seq<PlacementModel>, x: int, y: int)
    requires
        age_grid_shaped(m),
        m.gradient.wf(),
        1 <= m.pixel_lifetime <= u32::MAX,
        0 <= x < m.final_width(),
        0 <= y < m.final_height(),
        m.ages[x][y] == m.pixel_lifetime,
        forall|i: int|
            0 <= i < ps.len() ==> 0 <= (#[trigger] ps[i]).x < m.final_width() && 0 <= ps[i].y
                < m.final_height() && !(ps[i].x == x && ps[i].y == y),
        spec_age_fire_count(m, ps) == m.pixel_lifetime,
    ensures
        spec_age_run(m, ps).0.ages[x][y] == 0,
        spec_gradient_color(m.gradient, 0, m.pixel_lifetime) == m.gradient.stops@[0].spec_rgba(),
{
    lemma_age_run_cell(m, ps, x, y);
    lemma_gradient_at_zero(m.gradient, m.pixel_lifetime);
}

/// A retracted placement reverts its cell: after the step, the canvas
/// holds the mode's configured revert color at the placement's landing
/// position — not transparency and not the prior color.
pub proof fn lemma_retraction_reverts(m: EngineModel, p: PlacementModel)
    requires
        m.inv(),
        p.retracted,
        0 <= p.x,
        0 <= p.y,
        spec_fits(m.table.tiers@[m.table.spec_last()], p.x, p.y),
    ensures
        ({
            let land = spec_landing(m.table, m.tier_idx, p.x, p.y);
            spec_pixel(
                spec_step(m, p).0.canvas,
                m.table.frame_width as int,
                p.x + m.table.spec_offset_x(land),
                p.y + m.table.spec_offset_y(land),
            ) == m.mode.revert
        }),
{
    let land = spec_landing(m.table, m.tier_idx, p.x, p.y);
    lemma_landing_fits(m.table, m.tier_idx, p.x, p.y);
    lemma_offset_bounds(m.table, land);
    lemma_grow_chain_len(m.canvas, m.table, m.mode, m.tier_idx, land);
    let grown = spec_grow_chain(m.canvas, m.table, m.mode, m.tier_idx, land);
    lemma_put_pixel_effect(
        grown,
        m.table.frame_width as int,
        m.table.frame_height as int,
        p.x + m.table.spec_offset_x(land),
        p.y + m.table.spec_offset_y(land),
        m.mode.revert,
        p.x + m.table.spec_offset_x(land),
        p.y + m.table.spec_offset_y(land),
    );
}

} // verus!
