use vstd::prelude::*;

verus! {

/// The number of channels in a DMX universe.
pub const DMX_CHANNELS: usize = 512;

} // verus!
