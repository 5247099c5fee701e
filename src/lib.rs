use vstd::prelude::*;

pub mod recording;
pub mod sorts;
pub mod playback;

verus! {

} // verus!
