//! Replay engine for a growing pixel canvas.
//!
//! A time-ordered log of pixel placements is replayed onto a canvas that
//! grows through a fixed sequence of resolution tiers, each centered within
//! a constant output frame. Frames are cut from the replay under a dual
//! threshold (elapsed seconds and placement count) and emitted as raw RGBA
//! byte snapshots, ready for an external encoder or image writer.
//!
//! Beside the replay engine and its age-tracking variant stand two
//! single-frame renders over the same canvas model: the first-claim
//! image and the heat map of placement counts.

pub mod agemap;
pub mod canvas;
pub mod color;
pub mod engine;
pub mod gradient;
pub mod grow;
pub mod heat;
pub mod laws;
pub mod sessions;
pub mod singleplace;
pub mod tiers;
pub mod usergrid;
