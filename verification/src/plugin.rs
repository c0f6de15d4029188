//! What a plugin declares about its VST3 form.

use vstd::prelude::*;
use crate::class_id;
use crate::class_id::Platform;

verus! {

/// The auxiliary metadata of a VST3 plugin.
pub trait Vst3Plugin {
    /// The unique class ID that identifies this particular plugin.
    ///
    /// Windows hosts get it in a different byte order: see [`platform_vst3_class_id`].
    const VST3_CLASS_ID: [u8; 16];

    /// One or more subcategories, by which a host may sort the plugin. Hosts get them as one
    /// string with a `|` between them, of which they read no more than 127 characters.
    const VST3_SUBCATEGORIES: &'static [&'static str];

    /// Whether this plugin accepts 64-bit host buffers.
    ///
    /// A plugin processes 32-bit samples all the same. The host samples are quantized once, and
    /// what that drops is delayed by the latency that the plugin reports and then added to the
    /// 64-bit output.
    const VST3_SUPPORTS_SAMPLE64: bool = false;

    /// The longest latency that the residual delay covers, in seconds, as the bit pattern of a
    /// 64-bit sample. By default it is one second.
    ///
    /// It has to be high enough for every latency that the plugin can report.
    const VST3_SAMPLE64_MAX_LATENCY_SECONDS: u64 = 0x3ff0_0000_0000_0000;
}

/// The class ID of a plugin in the byte order of a platform, so that projects and presets can be
/// shared between platforms.
pub fn platform_vst3_class_id<P: Vst3Plugin>(platform: Platform) -> (r: [u8; 16])
    ensures
        r@ == class_id::ordered(P::VST3_CLASS_ID@, platform),
{
    match platform {
        Platform::Windows => class_id::windows::swap_vst3_uid_byte_order(P::VST3_CLASS_ID),
        Platform::Other => class_id::other::swap_vst3_uid_byte_order(P::VST3_CLASS_ID),
    }
}

} // verus!
