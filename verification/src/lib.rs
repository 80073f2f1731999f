use vstd::prelude::*;

pub mod cmd;
pub mod codec;
pub mod conn;
pub mod frame;
pub mod frame_laws;
pub mod num;
pub mod store;
pub mod text;

verus! {

/// Adds two machine-word counters; the caller guarantees the sum fits.
pub fn add(left: usize, right: usize) -> (r: usize)
    requires
        left + right <= usize::MAX,
    ensures
        r == left + right,
{
    left + right
}

} // verus!
