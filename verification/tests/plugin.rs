use vst3_sample64::class_id::{other, windows, Platform};
use vst3_sample64::plugin::{platform_vst3_class_id, Vst3Plugin};

struct Quiet;

impl Vst3Plugin for Quiet {
    const VST3_CLASS_ID: [u8; 16] = *b"QuietPluginClass";
    const VST3_SUBCATEGORIES: &'static [&'static str] = &["Fx"];
}

struct Precise;

impl Vst3Plugin for Precise {
    const VST3_CLASS_ID: [u8; 16] = *b"0123456789abcdef";
    const VST3_SUBCATEGORIES: &'static [&'static str] = &["Fx", "Dynamics"];
    const VST3_SUPPORTS_SAMPLE64: bool = true;
    const VST3_SAMPLE64_MAX_LATENCY_SECONDS: u64 = 0x4000_0000_0000_0000;
}

#[test]
fn class_id_is_reordered_on_windows_only() {
    assert_eq!(windows::swap_vst3_uid_byte_order(*b"0123456789abcdef"), *b"3210547689abcdef");
    assert_eq!(other::swap_vst3_uid_byte_order(*b"0123456789abcdef"), *b"0123456789abcdef");
    assert_eq!(platform_vst3_class_id::<Precise>(Platform::Windows), *b"3210547689abcdef");
    assert_eq!(platform_vst3_class_id::<Precise>(Platform::Other), *b"0123456789abcdef");
    assert_eq!(platform_vst3_class_id::<Quiet>(Platform::Other), Quiet::VST3_CLASS_ID);
}

#[test]
fn reordering_twice_restores_the_class_id() {
    let swapped = windows::swap_vst3_uid_byte_order(Quiet::VST3_CLASS_ID);
    assert_ne!(swapped, Quiet::VST3_CLASS_ID);
    assert_eq!(windows::swap_vst3_uid_byte_order(swapped), Quiet::VST3_CLASS_ID);
}

#[test]
fn plugins_take_32_bit_buffers_and_one_second_by_default() {
    assert!(!Quiet::VST3_SUPPORTS_SAMPLE64);
    assert_eq!(Quiet::VST3_SAMPLE64_MAX_LATENCY_SECONDS, 1.0f64.to_bits());
    assert!(Precise::VST3_SUPPORTS_SAMPLE64);
    assert_eq!(Precise::VST3_SAMPLE64_MAX_LATENCY_SECONDS, 2.0f64.to_bits());
}
