//! Chart compilation for a rhythm game: a tempo map converting beats to
//! time, a catalog of easing curves, keyframe timelines, integration of
//! scroll speed into scroll height, and assembly of a chart from its
//! authoring format, all in fixed-point integers.
use vstd::prelude::*;

pub mod fixed;
pub mod tempo;
pub mod tween;
pub mod anim;
pub mod speed;
pub mod chart;
pub mod rpe;
pub mod page;

verus! {

} // verus!
