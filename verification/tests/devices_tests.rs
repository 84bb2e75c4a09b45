use waypipe_core::devices::{can_import_image, choose_modifiers, wayland_to_drm, ImageMismatch, ModifierError, ModifierLimits};
use waypipe_core::devices::{
    device_rank, device_supports_timeline_import_export, has_device, nominal_size, pick_device,
    DeviceInfo, DeviceKind,
};

fn dev(id: u64, primary: Option<u64>, kind: DeviceKind, enc: bool, dec: bool, timeline: bool) -> DeviceInfo {
    DeviceInfo {
        render_device_id: id,
        primary_device_id: primary,
        kind,
        hw_enc_h264: enc,
        hw_dec_h264: dec,
        hw_dec_av1: false,
        supports_timeline_import_export: timeline,
    }
}

#[test]
fn ranks_prefer_discrete_devices_with_video() {
    assert_eq!(device_rank(&dev(1, None, DeviceKind::DiscreteGpu, true, true, false)), 0);
    assert_eq!(device_rank(&dev(1, None, DeviceKind::DiscreteGpu, false, true, false)), 1);
    assert_eq!(device_rank(&dev(1, None, DeviceKind::DiscreteGpu, true, false, false)), 2);
    assert_eq!(device_rank(&dev(1, None, DeviceKind::IntegratedGpu, false, false, false)), 7);
    assert_eq!(device_rank(&dev(1, None, DeviceKind::Cpu, false, false, false)), 15);
    assert_eq!(device_rank(&dev(1, None, DeviceKind::Other, true, true, false)), 12);
    let mut av1 = dev(1, None, DeviceKind::VirtualGpu, true, false, false);
    av1.hw_dec_av1 = true;
    assert_eq!(device_rank(&av1), 8);
}

#[test]
fn devices_are_picked_by_number_or_rank() {
    let devs = [
        dev(10, Some(20), DeviceKind::IntegratedGpu, false, false, true),
        dev(11, None, DeviceKind::DiscreteGpu, false, false, false),
        dev(12, Some(21), DeviceKind::DiscreteGpu, false, false, true),
    ];
    assert_eq!(pick_device(&devs, Some(20)), Some(0));
    assert_eq!(pick_device(&devs, Some(12)), Some(2));
    assert_eq!(pick_device(&devs, Some(99)), None);
    assert_eq!(pick_device(&devs, None), Some(1));
    assert_eq!(pick_device(&[], None), None);
    assert!(has_device(&devs, None));
    assert!(!has_device(&devs, Some(99)));
    assert!(!device_supports_timeline_import_export(&devs, None));
    assert!(device_supports_timeline_import_export(&devs, Some(21)));
}

#[test]
fn nominal_sizes() {
    assert_eq!(nominal_size(10, 20, 4, None), 800);
    assert_eq!(nominal_size(10, 20, 4, Some(64)), 1280);
}

#[test]
fn modifiers_are_those_accepted_that_fit() {
    let lim = |s: Option<(u32, u32)>, t: (u32, u32)| ModifierLimits { max_size_store_and_sample: s, max_size_transfer: t };
    let mods = [10u64, 20, 30, 40];
    let limits = [lim(Some((100, 100)), (200, 200)), lim(None, (4096, 4096)), lim(Some((4096, 4096)), (4096, 4096)), lim(Some((8, 8)), (8, 8))];
    assert_eq!(choose_modifiers(&mods, &limits, &[40, 30, 20, 10], 150, 150, false), Ok(vec![10, 20, 30]));
    assert_eq!(choose_modifiers(&mods, &limits, &[40, 30, 20, 10], 150, 150, true), Ok(vec![30]));
    assert_eq!(choose_modifiers(&mods, &limits, &[20, 40], 64, 64, false), Ok(vec![20]));
    assert_eq!(choose_modifiers(&mods, &limits, &[10], 300, 10, false), Err(ModifierError::NoneAvailable));
    // Modifiers without limits are not offered.
    assert_eq!(choose_modifiers(&mods, &limits[..2], &[30], 1, 1, false), Err(ModifierError::NoneAvailable));
}

#[test]
fn shm_formats_map_to_drm_codes() {
    let fourcc = |s: &[u8; 4]| u32::from_le_bytes(*s);
    assert_eq!(wayland_to_drm(0), fourcc(b"AR24"));
    assert_eq!(wayland_to_drm(1), fourcc(b"XR24"));
    assert_eq!(wayland_to_drm(fourcc(b"AB24")), fourcc(b"AB24"));
}

#[test]
fn importing_checks_format_modifier_and_size() {
    let lim = |s: Option<(u32, u32)>, t: (u32, u32)| ModifierLimits { max_size_store_and_sample: s, max_size_transfer: t };
    let mods = [0u64, 5, 5];
    let limits = [lim(Some((64, 64)), (128, 128)), lim(None, (16, 16)), lim(Some((1, 1)), (1, 1))];
    assert_eq!(can_import_image(false, &mods, &limits, 0, 1, 1, false), Err(ImageMismatch::Format));
    assert_eq!(can_import_image(true, &mods, &limits, 9, 1, 1, false), Err(ImageMismatch::Modifier));
    assert_eq!(can_import_image(true, &mods, &limits, 0, 100, 100, false), Ok(()));
    assert_eq!(can_import_image(true, &mods, &limits, 0, 100, 100, true), Err(ImageMismatch::Size(64, 64)));
    // The first entry for a modifier decides.
    assert_eq!(can_import_image(true, &mods, &limits, 5, 16, 16, false), Ok(()));
}
