use vstd::prelude::*;

verus! {

/// The binary-reflected Gray code of `n`: each bit of the result is
/// the exclusive-or of the corresponding bit of `n` and the next more
/// significant one, so consecutive values of `n` yield codes that
/// differ in exactly one bit.
pub fn gray_code(n: u32) -> (r: u32)
    ensures
        r == n ^ (n >> 1u32),
{
    n ^ (n >> 1)
}

} // verus!
