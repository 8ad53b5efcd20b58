//! The per-call response buffer. The host boundary keeps the most recent
//! response bytes in a buffer it owns; this replaces its contents.

use vstd::prelude::*;

verus! {

/// Replaces the held response bytes with the given ones.
pub fn set_output_bytes(buffer: &mut Vec<u8>, bytes: Vec<u8>)
    ensures
        final(buffer)@ == bytes@,
{
    *buffer = bytes;
}

} // verus!
