use waypipe_core::damage::Rect;
use waypipe_core::surface::{
    apply_damage_rect_transform, apply_viewport_transform, clip_wlrect_to_buffer,
    damage_for_entire_buffer, get_damage_for_dmabuf, get_damage_for_shm, get_damage_rects,
    inverse_damage_rect_transform, inverse_viewport_transform, BufferAttachment, DamageBatch,
    ObjWlBufferShm, ObjWlSurface, ShmFormatLayout, ShmPlaneLayout, WlOutputTransform, WlRect,
};

fn wl(x: i32, y: i32, width: i32, height: i32) -> WlRect {
    WlRect { x, y, width, height }
}

fn rect(x1: u32, x2: u32, y1: u32, y2: u32) -> Rect {
    Rect { x1, x2, y1, y2 }
}

fn same(a: Option<Rect>, b: Option<Rect>) -> bool {
    match (a, b) {
        (None, None) => true,
        (Some(a), Some(b)) => (a.x1, a.x2, a.y1, a.y2) == (b.x1, b.x2, b.y1, b.y2),
        _ => false,
    }
}

fn attachment(uid: u64, w: i32, h: i32) -> BufferAttachment {
    BufferAttachment {
        scale: 1,
        transform: WlOutputTransform::Normal,
        viewport_src: None,
        viewport_dst: None,
        buffer_uid: uid,
        buffer_size: (w, h),
    }
}

fn batch(att: BufferAttachment, damage: Vec<WlRect>, damage_buffer: Vec<WlRect>) -> DamageBatch {
    DamageBatch { attachment: att, damage, damage_buffer }
}

fn surface(history: [DamageBatch; 7]) -> ObjWlSurface {
    ObjWlSurface { attached_buffer_id: None, damage_history: history, viewport_id: None }
}

fn plane(bpt: u32, hsub: u32, vsub: u32) -> ShmPlaneLayout {
    ShmPlaneLayout { bpt, hsub, vsub, htex: 1, vtex: 1 }
}

#[test]
fn clipping_to_the_buffer() {
    assert!(same(clip_wlrect_to_buffer(&wl(-5, 10, 20, 100), 50, 60), Some(rect(0, 15, 10, 60))));
    assert!(same(clip_wlrect_to_buffer(&wl(50, 0, 10, 10), 50, 60), None));
    assert!(same(clip_wlrect_to_buffer(&wl(i32::MAX - 1, 0, 10, 10), i32::MAX, 60), Some(rect(2147483646, 2147483647, 0, 10))));
}

#[test]
fn viewport_scaling() {
    let a = wl(10, 20, 30, 40);
    assert!(same(apply_viewport_transform(&a, (200, 100), None, None), Some(rect(10, 40, 20, 60))));
    assert!(same(apply_viewport_transform(&a, (200, 100), None, Some((100, 50))), Some(rect(20, 80, 40, 100))));
    let src = Some((256 * 10, 256 * 5, 256 * 50, 256 * 25));
    assert!(same(apply_viewport_transform(&wl(0, 0, 10, 10), (200, 100), src, None), Some(rect(10, 20, 5, 15))));
    assert!(same(apply_viewport_transform(&wl(60, 0, 10, 10), (200, 100), src, None), None));
}

#[test]
fn rotated_and_scaled_damage() {
    let r = apply_damage_rect_transform(&wl(0, 0, 10, 20), 2, WlOutputTransform::Item90, None, None, 100, 60);
    assert!(same(r, Some(rect(0, 40, 40, 60))));
    let r = apply_damage_rect_transform(&wl(3, 4, 5, 6), 1, WlOutputTransform::Normal, None, None, 100, 60);
    assert!(same(r, Some(rect(3, 8, 4, 10))));
    let r = apply_damage_rect_transform(&wl(3, 4, 5, 6), 1, WlOutputTransform::Item180, None, None, 100, 60);
    assert!(same(r, Some(rect(92, 97, 50, 56))));
    let r = apply_damage_rect_transform(&wl(3, 4, 5, 6), 1, WlOutputTransform::Flipped, None, None, 100, 60);
    assert!(same(r, Some(rect(92, 97, 4, 10))));
}

#[test]
fn inverse_transform_maps_back() {
    let w = inverse_damage_rect_transform(&wl(0, 40, 40, 20), 2, WlOutputTransform::Item90, None, None, 100, 60).unwrap();
    assert_eq!((w.x, w.y, w.width, w.height), (0, 0, 10, 20));
    let w = inverse_viewport_transform(&rect(10, 20, 5, 15), (200, 100), Some((256 * 10, 256 * 5, 256 * 50, 256 * 25)), None).unwrap();
    assert_eq!((w.x, w.y, w.width, w.height), (0, 0, 10, 10));
    assert!(inverse_viewport_transform(&rect(0, 5, 0, 5), (200, 100), Some((256 * 10, 256 * 10, 256 * 50, 256 * 25)), None).is_none());
}

fn empty_history(att: BufferAttachment) -> [DamageBatch; 7] {
    [
        batch(att, vec![], vec![]),
        batch(att, vec![], vec![]),
        batch(att, vec![], vec![]),
        batch(att, vec![], vec![]),
        batch(att, vec![], vec![]),
        batch(att, vec![], vec![]),
        batch(att, vec![], vec![]),
    ]
}

#[test]
fn unknown_buffer_is_damaged_entirely() {
    let s = surface(empty_history(attachment(0, 0, 0)));
    let r = get_damage_rects(&s, &attachment(5, 30, 20));
    assert_eq!(r.len(), 1);
    assert!(same(Some(r[0]), Some(rect(0, 30, 0, 20))));
}

#[test]
fn damage_since_last_use_of_the_buffer() {
    let att = attachment(5, 30, 20);
    let mut h = empty_history(attachment(9, 30, 20));
    h[0] = batch(att, vec![wl(10, 10, 5, 5)], vec![wl(1, 2, 3, 4)]);
    h[1] = batch(attachment(7, 30, 20), vec![wl(0, 0, 2, 2)], vec![wl(28, 18, 10, 10)]);
    h[2] = batch(att, vec![], vec![]);
    let s = surface(h);
    let r = get_damage_rects(&s, &att);
    let got: Vec<(u32, u32, u32, u32)> = r.iter().map(|r| (r.x1, r.x2, r.y1, r.y2)).collect();
    assert_eq!(got, vec![(1, 4, 2, 6), (10, 15, 10, 15), (28, 30, 18, 20), (0, 2, 0, 2)]);

    let mut changed = att;
    changed.scale = 2;
    let mut h = empty_history(attachment(9, 30, 20));
    h[0] = batch(att, vec![wl(10, 10, 5, 5)], vec![]);
    h[1] = batch(changed, vec![], vec![]);
    let r = get_damage_rects(&surface(h), &att);
    assert_eq!(r.len(), 1);
    assert!(same(Some(r[0]), Some(rect(0, 30, 0, 20))));
}

#[test]
fn entire_buffer_spans() {
    let b = ObjWlBufferShm { width: 10, height: 20, format: 0, offset: 100, stride: 40 };
    assert_eq!(damage_for_entire_buffer(&b, None), (64, 960));
    let one = ShmFormatLayout { planes: vec![plane(4, 1, 1)] };
    assert_eq!(damage_for_entire_buffer(&b, Some(&one)), (64, 960));
    let two = ShmFormatLayout { planes: vec![plane(1, 1, 1), plane(2, 2, 2)] };
    assert_eq!(damage_for_entire_buffer(&b, Some(&two)), (64, 1344));
}

#[test]
fn shm_damage_covers_the_damaged_rows() {
    let att = attachment(5, 10, 20);
    let b = ObjWlBufferShm { width: 10, height: 20, format: 0, offset: 0, stride: 40 };
    let one = ShmFormatLayout { planes: vec![plane(4, 1, 1)] };
    let s = surface(empty_history(attachment(0, 0, 0)));
    assert_eq!(get_damage_for_shm(&b, Some(&one), &s, &att), vec![(0, 832)]);
    let two = ShmFormatLayout { planes: vec![plane(1, 1, 1), plane(2, 2, 2)] };
    assert_eq!(get_damage_for_shm(&b, Some(&two), &s, &att), vec![(0, 1216)]);
    assert_eq!(get_damage_for_shm(&b, None, &s, &att), vec![(0, 832)]);

    let mut h = empty_history(attachment(9, 10, 20));
    h[0] = batch(att, vec![], vec![wl(0, 0, 1, 1), wl(0, 19, 1, 1)]);
    h[1] = batch(att, vec![], vec![]);
    let segs = get_damage_for_shm(&b, Some(&one), &surface(h), &att);
    assert_eq!(segs, vec![(0, 64), (704, 768)]);
}

#[test]
fn dmabuf_damage() {
    let att = attachment(5, 10, 20);
    let s = surface(empty_history(attachment(0, 0, 0)));
    assert_eq!(get_damage_for_dmabuf(1000, 10, None, 0x34325258, None, &s, &att), vec![(0, 1024)]);
    let one = ShmFormatLayout { planes: vec![plane(4, 1, 1)] };
    assert_eq!(get_damage_for_dmabuf(1000, 10, None, 0x34325258, Some(&one), &s, &att), vec![(0, 832)]);
    assert_eq!(get_damage_for_dmabuf(2000, 10, Some(100), 0x34325258, Some(&one), &s, &att), vec![(0, 1984)]);
}

#[test]
fn reprojected_damage_covers_the_damage() {
    let transforms = [
        WlOutputTransform::Normal,
        WlOutputTransform::Item90,
        WlOutputTransform::Item180,
        WlOutputTransform::Item270,
        WlOutputTransform::Flipped,
        WlOutputTransform::Flipped90,
        WlOutputTransform::Flipped180,
        WlOutputTransform::Flipped270,
    ];
    for t in transforms {
        for dst in [None, Some((37, 91))] {
            for a in [wl(3, 5, 7, 9), wl(0, 0, 120, 80), wl(-4, 77, 10, 10), wl(119, 0, 1, 1)] {
                let s = inverse_damage_rect_transform(&a, 2, t, None, dst, 120, 80).unwrap();
                let b = apply_damage_rect_transform(&s, 2, t, None, dst, 120, 80).unwrap();
                let c = clip_wlrect_to_buffer(&a, 120, 80).unwrap();
                assert!(b.x1 <= c.x1 && c.x2 <= b.x2 && b.y1 <= c.y1 && c.y2 <= b.y2);
            }
        }
    }
}

#[test]
fn unknown_buffer_is_damaged_entirely_whatever_its_scale() {
    let s = surface(empty_history(attachment(0, 0, 0)));
    let mut att = attachment(5, 30, 20);
    att.scale = 0;
    let r = get_damage_rects(&s, &att);
    assert_eq!(r.len(), 1);
    assert!(same(Some(r[0]), Some(rect(0, 30, 0, 20))));
}
