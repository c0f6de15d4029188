//! The byte order of the class ID by which hosts know a plugin.
//!
//! Windows hosts read the first two groups of the ID in the opposite byte order, so the ID is
//! reordered there for projects and presets to be shared between platforms.

pub mod other;
pub mod windows;

use vstd::prelude::*;

verus! {

/// The platform that a host runs on, as far as the class ID goes.
#[derive(Clone, Copy)]
pub enum Platform {
    Windows,
    Other,
}

/// The class ID as hosts on a platform expect it.
pub open spec fn ordered(uid: Seq<u8>, platform: Platform) -> Seq<u8> {
    match platform {
        Platform::Windows => windows::swapped(uid),
        Platform::Other => uid,
    }
}

} // verus!
