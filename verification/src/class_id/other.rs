//! Platforms on which the class ID keeps its byte order.

use vstd::prelude::*;

verus! {

/// The class ID as hosts on this platform expect it: the ID itself.
pub fn swap_vst3_uid_byte_order(uid: [u8; 16]) -> (r: [u8; 16])
    ensures
        r == uid,
{
    uid
}

} // verus!
