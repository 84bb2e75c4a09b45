//! Choosing the GPU for buffer copies, and the size of a buffer's linear view.
use vstd::prelude::*;

verus! {

/// The kind of a physical device, as the graphics driver reports it.
#[derive(Debug, Clone, Copy, PartialEq, Eq, Structural)]
pub enum DeviceKind {
    DiscreteGpu,
    IntegratedGpu,
    VirtualGpu,
    Cpu,
    Other,
}

/// What is known of a physical device.
#[derive(Debug, Clone, Copy)]
pub struct DeviceInfo {
    /// Device number of its render node.
    pub render_device_id: u64,
    /// Device number of its primary node, if it has one.
    pub primary_device_id: Option<u64>,
    pub kind: DeviceKind,
    pub hw_enc_h264: bool,
    pub hw_dec_h264: bool,
    pub hw_dec_av1: bool,
    pub supports_timeline_import_export: bool,
}

/// Preference for a device, lower first: discrete, integrated, virtual, then the rest;
/// within a kind, devices with hardware video decoding, then those with hardware encoding.
pub open spec fn rank_spec(info: DeviceInfo) -> int {
    let base: int = match info.kind {
        DeviceKind::DiscreteGpu => 0,
        DeviceKind::IntegratedGpu => 1,
        DeviceKind::VirtualGpu => 2,
        _ => 3,
    };
    let no_enc: int = if info.hw_enc_h264 { 0 } else { 1 };
    let no_dec: int = if info.hw_dec_h264 || info.hw_dec_av1 { 0 } else { 1 };
    base * 4 + no_enc + 2 * no_dec
}

/// The preference rank of a device (see `rank_spec`).
pub fn device_rank(info: &DeviceInfo) -> (r: u8)
    ensures
        r == rank_spec(*info),
{
    let base_score: u8 = match info.kind {
        DeviceKind::DiscreteGpu => 0,
        DeviceKind::IntegratedGpu => 1,
        DeviceKind::VirtualGpu => 2,
        DeviceKind::Cpu => 3,
        DeviceKind::Other => 3,
    };
    let hw_enc = info.hw_enc_h264;
    let hw_dec = info.hw_dec_h264 || info.hw_dec_av1;
    base_score * 4 + (if hw_enc { 0u8 } else { 1u8 }) + 2 * (if hw_dec { 0u8 } else { 1u8 })
}

/// The device is the one with device number `d`, by its render node or its primary node.
pub open spec fn device_matches(info: DeviceInfo, d: u64) -> bool {
    info.render_device_id == d || info.primary_device_id == Some(d)
}

/// The device to use: the first that matches the main device, when one is named; else the
/// first of those with the lowest rank.
pub open spec fn picked(devs: Seq<DeviceInfo>, main_device: Option<u64>, k: int) -> bool {
    &&& 0 <= k < devs.len()
    &&& match main_device {
        Some(d) => device_matches(devs[k], d) && forall|j: int| 0 <= j < k ==> !device_matches(#[trigger] devs[j], d),
        None => (forall|j: int| 0 <= j < devs.len() ==> rank_spec(devs[k]) <= rank_spec(#[trigger] devs[j]))
            && (forall|j: int| 0 <= j < k ==> rank_spec(devs[k]) < rank_spec(#[trigger] devs[j])),
    }
}

/// The index of the device to use (see `picked`); none if no device fits.
pub fn pick_device(devs: &[DeviceInfo], main_device: Option<u64>) -> (r: Option<usize>)
    ensures
        match r {
            Some(k) => picked(devs@, main_device, k as int),
            None => match main_device {
                Some(d) => forall|j: int| 0 <= j < devs@.len() ==> !device_matches(#[trigger] devs@[j], d),
                None => devs@.len() == 0,
            },
        },
{
    if let Some(d) = main_device {
        let mut i: usize = 0;
        while i < devs.len()
            invariant
                i <= devs@.len(),
                main_device == Some(d),
                forall|j: int| 0 <= j < i ==> !device_matches(#[trigger] devs@[j], d),
            decreases devs@.len() - i,
        {
            let x = &devs[i];
            if x.render_device_id == d || x.primary_device_id == Some(d) {
                return Some(i);
            }
            i = i + 1;
        }
        None
    } else {
        let mut best: Option<usize> = None;
        let mut i: usize = 0;
        while i < devs.len()
            invariant
                i <= devs@.len(),
                main_device is None,
                i == 0 <==> best is None,
                best matches Some(k) ==> {
                    &&& 0 <= k < i
                    &&& forall|j: int| 0 <= j < i ==> rank_spec(devs@[k as int]) <= rank_spec(#[trigger] devs@[j])
                    &&& forall|j: int| 0 <= j < k ==> rank_spec(devs@[k as int]) < rank_spec(#[trigger] devs@[j])
                },
            decreases devs@.len() - i,
        {
            match best {
                Some(cur) => {
                    if device_rank(&devs[i]) < device_rank(&devs[cur]) {
                        best = Some(i);
                    }
                },
                None => {
                    best = Some(i);
                },
            }
            i = i + 1;
        }
        best
    }
}

/// A device fits (see `pick_device`).
pub fn has_device(devs: &[DeviceInfo], main_device: Option<u64>) -> (r: bool)
    ensures
        r == exists|k: int| picked(devs@, main_device, k),
{
    match pick_device(devs, main_device) {
        Some(k) => true,
        None => {
            proof {
                assert forall|k: int| !picked(devs@, main_device, k) by {
                    if picked(devs@, main_device, k) {
                        if let Some(d) = main_device {
                            assert(!device_matches(devs@[k], d));
                        }
                    }
                }
            }
            false
        },
    }
}

/// The device that fits can import and export timeline semaphores.
pub fn device_supports_timeline_import_export(devs: &[DeviceInfo], main_device: Option<u64>) -> (r: bool)
    ensures
        r == exists|k: int| picked(devs@, main_device, k) && devs@[k].supports_timeline_import_export,
{
    match pick_device(devs, main_device) {
        Some(k) => {
            let s = devs[k].supports_timeline_import_export;
            proof {
                lemma_picked_unique(devs@, main_device, k as int);
            }
            s
        },
        None => {
            proof {
                assert forall|k: int| !picked(devs@, main_device, k) by {
                    if picked(devs@, main_device, k) {
                        if let Some(d) = main_device {
                            assert(!device_matches(devs@[k], d));
                        }
                    }
                }
            }
            false
        },
    }
}

/// At most one device is picked.
pub proof fn lemma_picked_unique(devs: Seq<DeviceInfo>, main_device: Option<u64>, k: int)
    requires
        picked(devs, main_device, k),
    ensures
        forall|m: int| #[trigger] picked(devs, main_device, m) ==> m == k,
{
    assert forall|m: int| #[trigger] picked(devs, main_device, m) implies m == k by {
        if m < k {
            match main_device {
                Some(d) => {
                    assert(!device_matches(devs[m], d));
                },
                None => {
                    assert(rank_spec(devs[k]) < rank_spec(devs[m]));
                    assert(rank_spec(devs[m]) <= rank_spec(devs[k]));
                },
            }
        } else if m > k {
            match main_device {
                Some(d) => {
                    assert(!device_matches(devs[k], d));
                },
                None => {
                    assert(rank_spec(devs[m]) < rank_spec(devs[k]));
                    assert(rank_spec(devs[k]) <= rank_spec(devs[m]));
                },
            }
        }
    }
}

/// The size in bytes of the linear view of a `width` by `height` image with `bpp` bytes
/// per pixel: `height` rows of the view's stride, or of `width * bpp` bytes without one.
pub fn nominal_size(width: u32, height: u32, bpp: u32, view_row_length: Option<u32>) -> (r: usize)
    requires
        view_row_length matches Some(s) ==> height * s <= usize::MAX,
        view_row_length is None ==> width * height <= usize::MAX && width * height * bpp <= usize::MAX,
    ensures
        r == match view_row_length {
            Some(s) => height * s,
            None => width * height * bpp,
        },
{
    if let Some(r) = view_row_length {
        (height as usize) * (r as usize)
    } else {
        (width as usize) * (height as usize) * (bpp as usize)
    }
}

/// The largest image a modifier allows: for images that are stored to and sampled, if
/// it supports that at all, and for images only copied to and from.
#[derive(Debug, Clone, Copy)]
pub struct ModifierLimits {
    pub max_size_store_and_sample: Option<(u32, u32)>,
    pub max_size_transfer: (u32, u32),
}

/// A modifier with limits `d` can hold a `width` by `height` image of the given use.
pub open spec fn modifier_fits(d: ModifierLimits, width: u32, height: u32, store_and_sample: bool) -> bool {
    let lim = if store_and_sample { d.max_size_store_and_sample } else { Some(d.max_size_transfer) };
    match lim {
        Some(m) => width <= m.0 && height <= m.1,
        None => false,
    }
}

/// Among the first `n` modifiers the device offers for a format (with their limits), those
/// that the other side accepts (`options`) and that can hold the image, in the device's order.
pub open spec fn usable_modifiers(
    mods: Seq<u64>,
    limits: Seq<ModifierLimits>,
    options: Seq<u64>,
    width: u32,
    height: u32,
    store_and_sample: bool,
    n: int,
) -> Seq<u64>
    decreases n,
{
    if n <= 0 {
        Seq::empty()
    } else {
        let prev = usable_modifiers(mods, limits, options, width, height, store_and_sample, n - 1);
        if options.contains(mods[n - 1]) && modifier_fits(limits[n - 1], width, height, store_and_sample) {
            prev.push(mods[n - 1])
        } else {
            prev
        }
    }
}

/// The number of modifiers paired with limits.
pub open spec fn paired_len(mods: Seq<u64>, limits: Seq<ModifierLimits>) -> int {
    if mods.len() <= limits.len() { mods.len() as int } else { limits.len() as int }
}

/// Why no image could be made.
#[derive(Debug, Clone, Copy, PartialEq, Eq, Structural)]
pub enum ModifierError {
    /// No modifier is both accepted and able to hold the image.
    NoneAvailable,
}

fn contains_u64(v: &[u64], x: u64) -> (r: bool)
    ensures
        r == v@.contains(x),
{
    let mut i: usize = 0;
    while i < v.len()
        invariant
            i <= v.len(),
            forall|j: int| 0 <= j < i ==> v@[j] != x,
        decreases v.len() - i,
    {
        if v[i] == x {
            proof {
                assert(v@[i as int] == x);
            }
            return true;
        }
        i = i + 1;
    }
    false
}

/// The modifiers to offer when making a `width` by `height` image (see `usable_modifiers`);
/// an error when there are none.
pub fn choose_modifiers(
    mods: &[u64],
    limits: &[ModifierLimits],
    options: &[u64],
    width: u32,
    height: u32,
    store_and_sample: bool,
) -> (r: Result<Vec<u64>, ModifierError>)
    ensures
        ({
            let u = usable_modifiers(mods@, limits@, options@, width, height, store_and_sample, paired_len(mods@, limits@));
            match r {
                Ok(v) => v@ == u && u.len() > 0,
                Err(e) => e == ModifierError::NoneAvailable && u.len() == 0,
            }
        }),
{
    let n = if mods.len() <= limits.len() {
        mods.len()
    } else {
        limits.len()
    };
    let mut out: Vec<u64> = Vec::new();
    let mut k: usize = 0;
    while k < n
        invariant
            k <= n,
            n == paired_len(mods@, limits@),
            n <= mods@.len() && n <= limits@.len(),
            out@ == usable_modifiers(mods@, limits@, options@, width, height, store_and_sample, k as int),
        decreases n - k,
    {
        let v = mods[k];
        let d = limits[k];
        if contains_u64(options, v) {
            let fits = if store_and_sample {
                match d.max_size_store_and_sample {
                    Some(m) => width <= m.0 && height <= m.1,
                    None => false,
                }
            } else {
                width <= d.max_size_transfer.0 && height <= d.max_size_transfer.1
            };
            if fits {
                out.push(v);
            }
        }
        k = k + 1;
    }
    if out.len() == 0 {
        Err(ModifierError::NoneAvailable)
    } else {
        Ok(out)
    }
}

/// The four-character code `a b c d`, first character in the lowest byte.
pub open spec fn fourcc_spec(a: u8, b: u8, c: u8, d: u8) -> u32 {
    (a as int + 256 * b as int + 65536 * c as int + 16777216 * d as int) as u32
}

/// The DRM format of a `wl_shm` format: the two formats that `wl_shm` numbers 0 and 1
/// (ARGB8888 and XRGB8888) have the codes AR24 and XR24; every other `wl_shm` format is
/// numbered by its DRM code already.
pub open spec fn wayland_to_drm_spec(wl_format: u32) -> u32 {
    if wl_format == 0 {
        fourcc_spec(65, 82, 50, 52)
    } else if wl_format == 1 {
        fourcc_spec(88, 82, 50, 52)
    } else {
        wl_format
    }
}

/// The DRM format of a `wl_shm` format (see `wayland_to_drm_spec`).
pub fn wayland_to_drm(wl_format: u32) -> (r: u32)
    ensures
        r == wayland_to_drm_spec(wl_format),
        wl_format == 0 ==> r == 0x34325241,
        wl_format == 1 ==> r == 0x34325258,
{
    if wl_format == 0 {
        0x34325241
    } else if wl_format == 1 {
        0x34325258
    } else {
        wl_format
    }
}

/// Why a dmabuf cannot be imported.
#[derive(Debug, Clone, Copy, PartialEq, Eq)]
pub enum ImageMismatch {
    /// The format is not supported.
    Format,
    /// The modifier is not supported for the format.
    Modifier,
    /// The image is larger than the modifier allows; the largest size is given.
    Size(u32, u32),
}

/// The first position of `m` in `mods`, if any.
pub open spec fn first_position(mods: Seq<u64>, m: u64) -> Option<int> {
    if exists|i: int| 0 <= i < mods.len() && mods[i] == m {
        Some(choose|i: int| 0 <= i < mods.len() && mods[i] == m && forall|j: int| 0 <= j < i ==> mods[j] != m)
    } else {
        None
    }
}

/// Whether a `width` by `height` dmabuf with `modifier` can be imported, given whether the
/// device supports its format (`format_known`) and, for that format, the modifiers it offers
/// with their limits: the format must be supported, the modifier offered, and the image
/// within that modifier's largest size for the use.
pub fn can_import_image(
    format_known: bool,
    mods: &[u64],
    limits: &[ModifierLimits],
    modifier: u64,
    width: u32,
    height: u32,
    store_and_sample: bool,
) -> (r: Result<(), ImageMismatch>)
    requires
        mods@.len() <= limits@.len(),
        format_known && store_and_sample ==> match first_position(mods@, modifier) {
            Some(i) => limits@[i].max_size_store_and_sample is Some,
            None => true,
        },
    ensures
        !format_known ==> r == Err::<(), ImageMismatch>(ImageMismatch::Format),
        format_known ==> match first_position(mods@, modifier) {
            None => r == Err::<(), ImageMismatch>(ImageMismatch::Modifier),
            Some(i) => {
                let m = if store_and_sample {
                    limits@[i].max_size_store_and_sample->0
                } else {
                    limits@[i].max_size_transfer
                };
                if width <= m.0 && height <= m.1 {
                    r == Ok::<(), ImageMismatch>(())
                } else {
                    r == Err::<(), ImageMismatch>(ImageMismatch::Size(m.0, m.1))
                }
            },
        },
{
    if !format_known {
        return Err(ImageMismatch::Format);
    }
    let mut i: usize = 0;
    while i < mods.len() && mods[i] != modifier
        invariant
            i <= mods@.len(),
            forall|j: int| 0 <= j < i ==> mods@[j] != modifier,
        decreases mods@.len() - i,
    {
        i = i + 1;
    }
    if i == mods.len() {
        proof {
            assert(!exists|j: int| 0 <= j < mods@.len() && mods@[j] == modifier);
        }
        return Err(ImageMismatch::Modifier);
    }
    proof {
        let c = choose|j: int| 0 <= j < mods@.len() && mods@[j] == modifier && forall|k: int| 0 <= k < j ==> mods@[k] != modifier;
        assert(mods@[i as int] == modifier);
        assert(c == i) by {
            if c < i {
                assert(mods@[c] != modifier);
            } else if c > i {
                assert(mods@[i as int] != modifier);
            }
        }
    }
    let d = limits[i];
    let m = if store_and_sample {
        match d.max_size_store_and_sample {
            Some(m) => m,
            None => {
                proof {
                    assert(false);
                }
                (0, 0)
            },
        }
    } else {
        d.max_size_transfer
    };
    if width <= m.0 && height <= m.1 {
        Ok(())
    } else {
        Err(ImageMismatch::Size(m.0, m.1))
    }
}

} // verus!
