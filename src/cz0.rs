//! CZ0: the bitmap is stored as it is.

use vstd::prelude::*;
use crate::bytes::{copy_range, push_all};

verus! {

/// The bitmap: every byte from `pos` to the end.
pub fn decode(input: &[u8], pos: usize) -> (r: Vec<u8>)
    requires
        pos <= input@.len(),
    ensures
        r@ == input@.subrange(pos as int, input@.len() as int),
{
    copy_range(input, pos, input.len() - pos)
}

/// Appends the bitmap as it is.
pub fn encode(output: &mut Vec<u8>, bitmap: &[u8])
    ensures
        final(output)@ == old(output)@ + bitmap@,
{
    push_all(output, bitmap);
}

} // verus!
