//! The tier table: the growth sequence of canvas sizes, each centered
//! within a fixed output frame.

use vstd::prelude::*;

verus! {

/// One canvas rectangle size in the growth sequence.
#[derive(Clone, Copy, PartialEq, Eq, Structural, Debug)]
pub struct Tier {
    pub width: u32,
    pub height: u32,
}

/// The fixed output frame size together with the ordered list of canvas
/// tiers that are centered within it over the life of a replay.
#[derive(Clone, Debug)]
pub struct TierTable {
    pub frame_width: u32,
    pub frame_height: u32,
    pub tiers: Vec<Tier>,
}

impl TierTable {
    /// Well-formedness of the growth sequence: at least one tier, strictly
    /// growing in both dimensions, every tier strictly inside the output
    /// frame, and a frame whose raw RGBA byte size fits in memory.
    ///
    /// Strict containment in the frame keeps every centered write within
    /// bounds even at a tier's inclusive edge coordinate.
    pub open spec fn wf(self) -> bool {
        &&& self.tiers@.len() >= 1
        &&& forall|i: int, j: int|
            0 <= i < j < self.tiers@.len() ==> (#[trigger] self.tiers@[i]).width
                < (#[trigger] self.tiers@[j]).width && self.tiers@[i].height
                < self.tiers@[j].height
        &&& forall|i: int|
            0 <= i < self.tiers@.len() ==> (#[trigger] self.tiers@[i]).width < self.frame_width
                && self.tiers@[i].height < self.frame_height
        &&& self.frame_width * self.frame_height <= usize::MAX / 4
    }

    /// Number of bytes in one raw RGBA frame of the output size.
    pub open spec fn spec_frame_bytes(self) -> int {
        self.frame_width * self.frame_height * 4
    }

    /// Horizontal offset centering tier `i` within the frame; integer floor
    /// division biases an odd difference one pixel toward the left.
    pub open spec fn spec_offset_x(self, i: int) -> int {
        (self.frame_width - self.tiers@[i].width) / 2
    }

    /// Vertical offset centering tier `i` within the frame.
    pub open spec fn spec_offset_y(self, i: int) -> int {
        (self.frame_height - self.tiers@[i].height) / 2
    }

    /// The index of the last, largest tier.
    pub open spec fn spec_last(self) -> int {
        self.tiers@.len() - 1
    }

    /// Checks the growth sequence, so that a table built from runtime data
    /// can be validated once and used under [`TierTable::wf`] after.
    pub fn is_well_formed(&self) -> (r: bool)
        ensures
            r == self.wf(),
    {
        if self.tiers.len() < 1 {
            return false;
        }
        proof {
            assert((self.frame_width as int) * (self.frame_height as int) <= u64::MAX)
                by (nonlinear_arith)
                requires
                    self.frame_width <= u32::MAX,
                    self.frame_height <= u32::MAX,
            ;
        }
        let area: u64 = (self.frame_width as u64) * (self.frame_height as u64);
        if !(area <= usize::MAX as u64 / 4) {
            return false;
        }
        let mut i: usize = 0;
        while i < self.tiers.len()
            invariant
                i <= self.tiers@.len(),
                forall|k: int, l: int|
                    0 <= k < l < i ==> (#[trigger] self.tiers@[k]).width
                        < (#[trigger] self.tiers@[l]).width && self.tiers@[k].height
                        < self.tiers@[l].height,
                forall|k: int|
                    0 <= k < i ==> (#[trigger] self.tiers@[k]).width < self.frame_width
                        && self.tiers@[k].height < self.frame_height,
            decreases self.tiers@.len() - i,
        {
            let t = self.tiers[i];
            if !(t.width < self.frame_width && t.height < self.frame_height) {
                return false;
            }
            if i > 0 {
                let prev = self.tiers[i - 1];
                if !(prev.width < t.width && prev.height < t.height) {
                    return false;
                }
                proof {
                    assert forall|k: int, l: int| 0 <= k < l < i + 1 implies (
                    #[trigger] self.tiers@[k]).width < (#[trigger] self.tiers@[l]).width
                        && self.tiers@[k].height < self.tiers@[l].height by {
                        if l == i && k < i - 1 {
                            assert(self.tiers@[k].width < self.tiers@[i - 1].width);
                        }
                    }
                }
            }
            i += 1;
        }
        true
    }

    /// Number of tiers in the table.
    pub fn len(&self) -> (r: usize)
        ensures
            r == self.tiers@.len(),
    {
        self.tiers.len()
    }

    /// The tier at `index`.
    pub fn tier_at(&self, index: usize) -> (t: Tier)
        requires
            index < self.tiers@.len(),
        ensures
            t == self.tiers@[index as int],
    {
        self.tiers[index]
    }
}

/// The offset that centers tier `canvas_size_idx` within the output frame.
pub fn pixel_offset(table: &TierTable, canvas_size_idx: usize) -> (r: (u32, u32))
    requires
        table.wf(),
        canvas_size_idx < table.tiers@.len(),
    ensures
        r.0 == table.spec_offset_x(canvas_size_idx as int),
        r.1 == table.spec_offset_y(canvas_size_idx as int),
{
    let t = table.tiers[canvas_size_idx];
    ((table.frame_width - t.width) / 2, (table.frame_height - t.height) / 2)
}

} // verus!
