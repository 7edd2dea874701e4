use vstd::prelude::*;

verus! {

/// Widens a `u32` to `usize`; every `u32` fits.
pub fn cast_usize(n: u32) -> (r: usize)
    ensures
        r == n,
{
    n as usize
}

} // verus!
