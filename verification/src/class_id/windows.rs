//! The byte order of the class ID on Windows.

use vstd::prelude::*;

verus! {

/// The place in the class ID that the byte at place `i` comes from: the first four bytes and the
/// next two pairs are reversed.
pub open spec fn source(i: int) -> int {
    if 0 <= i < 4 {
        3 - i
    } else if 4 <= i < 6 {
        9 - i
    } else if 6 <= i < 8 {
        13 - i
    } else {
        i
    }
}

/// The class ID in the byte order of Windows.
pub open spec fn swapped(uid: Seq<u8>) -> Seq<u8> {
    Seq::new(uid.len(), |i: int| uid[source(i)])
}

/// The class ID as hosts on this platform expect it.
pub fn swap_vst3_uid_byte_order(uid: [u8; 16]) -> (r: [u8; 16])
    ensures
        r@ == swapped(uid@),
{
    let original_uid = uid;
    let mut uid = uid;

    uid[0] = original_uid[3];
    uid[1] = original_uid[2];
    uid[2] = original_uid[1];
    uid[3] = original_uid[0];

    uid[4] = original_uid[5];
    uid[5] = original_uid[4];
    uid[6] = original_uid[7];
    uid[7] = original_uid[6];

    assert(uid@ =~= swapped(original_uid@));
    uid
}

/// Swapping the byte order twice gives the class ID back.
pub proof fn law_swapping_twice_restores_class_id(uid: Seq<u8>)
    requires
        uid.len() == 16,
    ensures
        swapped(swapped(uid)) == uid,
{
    assert(swapped(swapped(uid)) =~= uid);
}

} // verus!
