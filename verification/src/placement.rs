//! Where surface damage lands in the buffer under each `wl_output.transform`, written out
//! coordinate by coordinate.
use vstd::prelude::*;
use crate::damage::Rect;
use crate::surface::{damage_transform_spec, pre_viewport_size, viewport_spec, WlOutputTransform, WlRect};

verus! {

/// The buffer rectangle that the surface rectangle with corners `(x, y)` and `(xe, ye)`
/// covers in a `w` by `h` buffer at scale 1 under each transform, written out corner by
/// corner: 90 degrees takes surface x to buffer y counted from the bottom, 180 degrees
/// mirrors both axes, 270 degrees takes surface y to buffer x counted from the right, and
/// the flipped transforms mirror the surface horizontally first.
pub open spec fn transformed_corners(t: WlOutputTransform, x: int, xe: int, y: int, ye: int, w: int, h: int) -> (int, int, int, int) {
    match t {
        WlOutputTransform::Normal => (x, xe, y, ye),
        WlOutputTransform::Item90 => (y, ye, h - xe, h - x),
        WlOutputTransform::Item180 => (w - xe, w - x, h - ye, h - y),
        WlOutputTransform::Item270 => (w - ye, w - y, x, xe),
        WlOutputTransform::Flipped => (w - xe, w - x, y, ye),
        WlOutputTransform::Flipped90 => (y, ye, x, xe),
        WlOutputTransform::Flipped180 => (x, xe, h - ye, h - y),
        WlOutputTransform::Flipped270 => (w - ye, w - y, h - xe, h - x),
    }
}

/// The size of the surface of a `w` by `h` buffer at scale 1: the axes exchanged by the
/// transforms that turn by a quarter.
pub open spec fn surface_extent(t: WlOutputTransform, w: int, h: int) -> (int, int) {
    match t {
        WlOutputTransform::Item90 | WlOutputTransform::Item270 | WlOutputTransform::Flipped90
        | WlOutputTransform::Flipped270 => (h, w),
        _ => (w, h),
    }
}

/// Surface damage inside the surface lands in the buffer where each `wl_output.transform`
/// puts it (see `transformed_corners`), at scale 1 and without a viewport.
pub proof fn lemma_transform_placement(a: WlRect, t: WlOutputTransform, width: i32, height: i32)
    requires
        width > 0,
        height > 0,
        a.width > 0,
        a.height > 0,
        0 <= a.x,
        0 <= a.y,
        a.x + a.width <= surface_extent(t, width as int, height as int).0,
        a.y + a.height <= surface_extent(t, width as int, height as int).1,
    ensures
        ({
            let c = transformed_corners(t, a.x as int, a.x + a.width, a.y as int, a.y + a.height, width as int, height as int);
            damage_transform_spec(a, 1, t, None, None, width, height) == Some(Rect { x1: c.0 as u32, x2: c.1 as u32, y1: c.2 as u32, y2: c.3 as u32 })
        }),
{
    let bs = pre_viewport_size(1, t, width, height);
    assert(bs.0 as int == surface_extent(t, width as int, height as int).0);
    assert(bs.1 as int == surface_extent(t, width as int, height as int).1);
    let d0 = bs.0 as int;
    let d1 = bs.1 as int;
    let xe = a.x + a.width;
    let ye = a.y + a.height;
    vstd::arithmetic::div_mod::lemma_div_multiples_vanish(a.x as int, d0);
    vstd::arithmetic::div_mod::lemma_div_multiples_vanish(xe, d0);
    vstd::arithmetic::div_mod::lemma_div_multiples_vanish(a.y as int, d1);
    vstd::arithmetic::div_mod::lemma_div_multiples_vanish(ye, d1);
    vstd::arithmetic::div_mod::lemma_mod_multiples_basic(xe, d0);
    vstd::arithmetic::div_mod::lemma_mod_multiples_basic(ye, d1);
    vstd::arithmetic::mul::lemma_mul_is_commutative(a.x as int, d0);
    vstd::arithmetic::mul::lemma_mul_is_commutative(xe, d0);
    vstd::arithmetic::mul::lemma_mul_is_commutative(a.y as int, d1);
    vstd::arithmetic::mul::lemma_mul_is_commutative(ye, d1);
    let b = Rect { x1: a.x as u32, x2: xe as u32, y1: a.y as u32, y2: ye as u32 };
    assert(viewport_spec(a, bs, None, None) == Some(b));
}

} // verus!
