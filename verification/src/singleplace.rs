//! The first-claim canvas: placements color a cell only while it is
//! unclaimed, and a moderation retraction reverts the cell to the
//! mode's white background and releases the claim.

use vstd::prelude::*;

use crate::canvas::{spec_filled, spec_put, white_image, Canvas};
use crate::color::{hex_to_rgba, spec_hex_color, Rgba};
use crate::engine::{Placement, PlacementModel, ReplayError};
use crate::tiers::TierTable;

verus! {

/// One placement applied to the first-claim state: a retraction reverts
/// the cell to the mode's white background — not to transparency and
/// not to the prior color — and releases its claim; a placement on a
/// claimed cell does nothing; a placement on an unclaimed cell paints
/// it and claims it. `None` is a missing or malformed color string on a
/// placement that paints, which aborts the run.
pub open spec fn spec_claim_step(
    canvas: Seq<u8>,
    claimed: Seq<Seq<bool>>,
    w: int,
    p: PlacementModel,
) -> Option<(Seq<u8>, Seq<Seq<bool>>)> {
    if p.retracted {
        Option::Some(
            (
                spec_put(canvas, w, p.x, p.y, Rgba { r: 255, g: 255, b: 255, a: 255 }),
                claimed.update(p.x, claimed[p.x].update(p.y, false)),
            ),
        )
    } else if claimed[p.x][p.y] {
        Option::Some((canvas, claimed))
    } else {
        match p.color {
            Option::None => Option::None,
            Option::Some(bytes) => match spec_hex_color(bytes) {
                Option::None => Option::None,
                Option::Some(c) => Option::Some(
                    (
                        spec_put(canvas, w, p.x, p.y, c),
                        claimed.update(p.x, claimed[p.x].update(p.y, true)),
                    ),
                ),
            },
        }
    }
}

/// The first-claim state folded over a whole placement sequence; `None`
/// as soon as a painting placement's color does not decode.
pub open spec fn spec_claim_run(
    canvas: Seq<u8>,
    claimed: Seq<Seq<bool>>,
    w: int,
    ps: Seq<PlacementModel>,
) -> Option<(Seq<u8>, Seq<Seq<bool>>)>
    decreases ps.len(),
{
    if ps.len() == 0 {
        Option::Some((canvas, claimed))
    } else {
        match spec_claim_step(canvas, claimed, w, ps[0]) {
            Option::None => Option::None,
            Option::Some(st) => spec_claim_run(st.0, st.1, w, ps.drop_first()),
        }
    }
}

/// The fully unclaimed grid.
pub open spec fn spec_unclaimed(w: int, h: int) -> Seq<Seq<bool>> {
    Seq::new(w as nat, |x: int| Seq::new(h as nat, |y: int| false))
}

/// Appending one placement to a first-claim run folds one more step
/// onto its end.
pub proof fn lemma_claim_run_push(
    canvas: Seq<u8>,
    claimed: Seq<Seq<bool>>,
    w: int,
    ps: Seq<PlacementModel>,
    p: PlacementModel,
)
    ensures
        spec_claim_run(canvas, claimed, w, ps.push(p)) == (match spec_claim_run(
            canvas,
            claimed,
            w,
            ps,
        ) {
            Option::None => Option::<(Seq<u8>, Seq<Seq<bool>>)>::None,
            Option::Some(st) => spec_claim_step(st.0, st.1, w, p),
        }),
    decreases ps.len(),
{
    if ps.len() == 0 {
        assert(ps.push(p)[0] == p);
        assert(ps.push(p).drop_first() =~= Seq::<PlacementModel>::empty());
        match spec_claim_step(canvas, claimed, w, p) {
            Option::None => {
            },
            Option::Some(st) => {
                assert(spec_claim_run(st.0, st.1, w, ps.push(p).drop_first()) == Option::Some(st));
            },
        }
    } else {
        assert(ps.push(p)[0] == ps[0]);
        assert(ps.push(p).drop_first() =~= ps.drop_first().push(p));
        match spec_claim_step(canvas, claimed, w, ps[0]) {
            Option::None => {
            },
            Option::Some(st) => {
                lemma_claim_run_push(st.0, st.1, w, ps.drop_first(), p);
            },
        }
    }
}

/// Once a first-claim run has aborted, no further placements revive it.
pub proof fn lemma_claim_run_error_sticky(
    canvas: Seq<u8>,
    claimed: Seq<Seq<bool>>,
    w: int,
    ps: Seq<PlacementModel>,
    i: int,
)
    requires
        0 <= i <= ps.len(),
        spec_claim_run(canvas, claimed, w, ps.take(i)) is None,
    ensures
        spec_claim_run(canvas, claimed, w, ps) is None,
    decreases i,
{
    assert(i != 0) by {
        if i == 0 {
            assert(ps.take(0) =~= Seq::<PlacementModel>::empty());
        }
    }
    assert(ps.take(i)[0] == ps[0]);
    match spec_claim_step(canvas, claimed, w, ps[0]) {
        Option::None => {
        },
        Option::Some(st) => {
            assert(ps.take(i).drop_first() =~= ps.drop_first().take(i - 1));
            lemma_claim_run_error_sticky(st.0, st.1, w, ps.drop_first(), i - 1);
        },
    }
}

/// Renders the first-claim canvas of a whole placement log onto a white
/// final-tier-sized grid, aborting on the first painting placement
/// whose color string does not decode.
pub fn singleplace_image(table: &TierTable, placements: &Vec<Placement>) -> (r: Result<
    Canvas,
    ReplayError,
>)
    requires
        table.wf(),
        forall|i: int|
            0 <= i < placements@.len() ==> 0 <= (#[trigger] placements@[i])@.x
                < table.tiers@[table.spec_last()].width && 0 <= placements@[i]@.y
                < table.tiers@[table.spec_last()].height,
    ensures
        ({
            let w = table.tiers@[table.spec_last()].width as int;
            let h = table.tiers@[table.spec_last()].height as int;
            let run = spec_claim_run(
                spec_filled(w, h, Rgba { r: 255, g: 255, b: 255, a: 255 }),
                spec_unclaimed(w, h),
                w,
                placements.deep_view(),
            );
            match run {
                Option::Some(st) => r matches Ok(c) && c.wf() && c.width
                    == table.tiers@[table.spec_last()].width && c.height
                    == table.tiers@[table.spec_last()].height && c.data@ == st.0,
                Option::None => r matches Err(e) && e == ReplayError::BadColor,
            }
        }),
{
    let ghost ps = placements.deep_view();
    let t = table.tier_at(table.len() - 1);
    let ghost w = t.width as int;
    let ghost h = t.height as int;
    let mut canvas = white_image(table);
    let ghost init_canvas = canvas.data@;
    let mut claimed: Vec<Vec<bool>> = Vec::new();
    let mut cx: u32 = 0;
    while cx < t.width
        invariant
            cx <= t.width,
            claimed@.len() == cx,
            forall|j: int|
                0 <= j < cx ==> (#[trigger] claimed@[j])@ =~= Seq::new(
                    t.height as nat,
                    |y: int| false,
                ),
        decreases t.width - cx,
    {
        let mut col: Vec<bool> = Vec::new();
        let mut cy: u32 = 0;
        while cy < t.height
            invariant
                cy <= t.height,
                col@.len() == cy,
                forall|k: int| 0 <= k < cy ==> col@[k] == false,
            decreases t.height - cy,
        {
            col.push(false);
            cy += 1;
        }
        proof {
            assert(col@ =~= Seq::new(t.height as nat, |y: int| false));
        }
        claimed.push(col);
        cx += 1;
    }
    proof {
        assert(claimed.deep_view() =~~= spec_unclaimed(w, h));
        assert(ps.take(0) =~= Seq::<PlacementModel>::empty());
    }

    let mut i: usize = 0;
    while i < placements.len()
        invariant
            i <= placements@.len(),
            ps == placements.deep_view(),
            ps.len() == placements@.len(),
            table.wf(),
            t == table.tiers@[table.spec_last()],
            w == t.width as int,
            h == t.height as int,
            forall|j: int|
                0 <= j < placements@.len() ==> 0 <= (#[trigger] placements@[j])@.x < t.width && 0
                    <= placements@[j]@.y < t.height,
            canvas.wf(),
            canvas.width == t.width,
            canvas.height == t.height,
            claimed@.len() == w,
            forall|j: int| 0 <= j < w ==> (#[trigger] claimed@[j])@.len() == h,
            spec_claim_run(init_canvas, spec_unclaimed(w, h), w, ps.take(i as int))
                == Option::Some((canvas.data@, claimed.deep_view())),
            init_canvas == spec_filled(w, h, Rgba { r: 255, g: 255, b: 255, a: 255 }),
        decreases placements@.len() - i,
    {
        let p = &placements[i];
        proof {
            assert(p@ == ps[i as int]);
            lemma_claim_run_push(init_canvas, spec_unclaimed(w, h), w, ps.take(i as int), ps[i as int]);
            assert(ps.take(i as int).push(ps[i as int]) =~= ps.take(i + 1));
        }
        let x = p.x as usize;
        let y = p.y as usize;
        let ghost claimed_before = claimed.deep_view();
        proof {
            assert(claimed_before[x as int].len() == h);
            assert(claimed@[x as int].deep_view() == claimed_before[x as int]);
        }
        if p.retracted {
            canvas.put_pixel(p.x, p.y, Rgba { r: 255, g: 255, b: 255, a: 255 });
            let col = &mut claimed[x];
            col.set(y, false);
            proof {
                assert(claimed.deep_view() =~~= claimed_before.update(
                    x as int,
                    claimed_before[x as int].update(y as int, false),
                ));
            }
        } else {
            let already = claimed[x][y];
            if !already {
                let decoded = match &p.color {
                    Some(s) => hex_to_rgba(s.as_str()),
                    None => None,
                };
                let c = match decoded {
                    Some(c) => c,
                    None => {
                        proof {
                            lemma_claim_run_error_sticky(
                                init_canvas,
                                spec_unclaimed(w, h),
                                w,
                                ps,
                                i + 1,
                            );
                        }
                        return Err(ReplayError::BadColor);
                    },
                };
                canvas.put_pixel(p.x, p.y, c);
                let col = &mut claimed[x];
                col.set(y, true);
                proof {
                    assert(claimed.deep_view() =~~= claimed_before.update(
                        x as int,
                        claimed_before[x as int].update(y as int, true),
                    ));
                }
            }
        }
        i += 1;
    }
    proof {
        assert(ps.take(i as int) =~= ps);
    }
    Ok(canvas)
}

} // verus!
