//! Surface damage: mapping damage rectangles between surface coordinates and buffer
//! coordinates through the buffer scale, the buffer transform and the viewport.
use vstd::prelude::*;
use crate::damage::{Rect, saturate, round_up, rect_fits, segments_valid, rect_covered, compute_damaged_segments, lemma_rounding, damaged_segments_spec, sorted_by_start};

verus! {

/// A rectangle as the protocol sends it: corner and size, in signed integers.
#[derive(Clone, Copy, Debug)]
pub struct WlRect {
    pub x: i32,
    pub y: i32,
    pub width: i32,
    pub height: i32,
}

/// How the buffer contents are rotated and mirrored relative to the surface.
#[derive(Clone, Copy, Debug, PartialEq, Eq, Structural)]
pub enum WlOutputTransform {
    Normal,
    Item90,
    Item180,
    Item270,
    Flipped,
    Flipped90,
    Flipped180,
    Flipped270,
}

/// The transform exchanges the two axes.
pub open spec fn swaps_xy(t: WlOutputTransform) -> bool {
    match t {
        WlOutputTransform::Item90 | WlOutputTransform::Item270 | WlOutputTransform::Flipped90
        | WlOutputTransform::Flipped270 => true,
        _ => false,
    }
}

/// The transform mirrors the horizontal axis (of the buffer, before any exchange of axes).
pub open spec fn flips_x(t: WlOutputTransform) -> bool {
    match t {
        WlOutputTransform::Item90 | WlOutputTransform::Item180 | WlOutputTransform::Flipped
        | WlOutputTransform::Flipped270 => true,
        _ => false,
    }
}

/// The transform mirrors the vertical axis (of the buffer, before any exchange of axes).
pub open spec fn flips_y(t: WlOutputTransform) -> bool {
    match t {
        WlOutputTransform::Item180 | WlOutputTransform::Item270 | WlOutputTransform::Flipped180
        | WlOutputTransform::Flipped270 => true,
        _ => false,
    }
}

fn transform_flags(t: WlOutputTransform) -> (r: (bool, bool, bool))
    ensures
        r == (swaps_xy(t), flips_x(t), flips_y(t)),
{
    match t {
        WlOutputTransform::Normal => (false, false, false),
        WlOutputTransform::Item90 => (true, true, false),
        WlOutputTransform::Item180 => (false, true, true),
        WlOutputTransform::Item270 => (true, false, true),
        WlOutputTransform::Flipped => (false, true, false),
        WlOutputTransform::Flipped90 => (true, false, false),
        WlOutputTransform::Flipped180 => (false, false, true),
        WlOutputTransform::Flipped270 => (true, true, true),
    }
}

/// `v` clamped to `lo..=hi`.
pub open spec fn clamp_int(v: int, lo: int, hi: int) -> int {
    if v < lo {
        lo
    } else if v > hi {
        hi
    } else {
        v
    }
}

/// `v` saturated to the range of `i32`.
pub open spec fn sat_i32(v: int) -> int {
    if v > i32::MAX {
        i32::MAX as int
    } else if v < i32::MIN {
        i32::MIN as int
    } else {
        v
    }
}

/// `a / b` rounded up, for `b > 0`.
pub open spec fn ceil_div(a: int, b: int) -> int {
    if a % b == 0 {
        a / b
    } else {
        a / b + 1
    }
}

pub open spec fn min_int(a: int, b: int) -> int {
    if a <= b {
        a
    } else {
        b
    }
}

fn clamp_i32(v: i32, lo: i32, hi: i32) -> (r: i32)
    requires
        lo <= hi,
    ensures
        r == clamp_int(v as int, lo as int, hi as int),
{
    if v < lo {
        lo
    } else if v > hi {
        hi
    } else {
        v
    }
}

fn sat_add_i32(a: i32, b: i32) -> (r: i32)
    ensures
        r == sat_i32(a + b),
{
    let s: i64 = a as i64 + b as i64;
    if s > i32::MAX as i64 {
        i32::MAX
    } else if s < i32::MIN as i64 {
        i32::MIN
    } else {
        s as i32
    }
}

fn div_ceil_u64(a: u64, b: u64) -> (r: u64)
    requires
        b > 0,
    ensures
        r == ceil_div(a as int, b as int),
{
    if a % b == 0 {
        a / b
    } else {
        proof {
            assert(b >= 2);
            vstd::arithmetic::div_mod::lemma_div_is_ordered_by_denominator(a as int, 2, b as int);
        }
        a / b + 1
    }
}

fn div_ceil_u32(a: u32, b: u32) -> (r: u32)
    requires
        b > 0,
    ensures
        r == ceil_div(a as int, b as int),
{
    if a % b == 0 {
        a / b
    } else {
        proof {
            assert(b >= 2);
            vstd::arithmetic::div_mod::lemma_div_is_ordered_by_denominator(a as int, 2, b as int);
        }
        a / b + 1
    }
}

/// `ceil_div` is the least multiple count that reaches `a`, and stays below `a / b + 1`.
proof fn lemma_ceil_div(a: int, b: int)
    requires
        a >= 0,
        b > 0,
    ensures
        a / b <= ceil_div(a, b) <= a / b + 1,
        ceil_div(a, b) * b >= a,
        (ceil_div(a, b) - 1) * b < a || a == 0,
        0 <= a / b,
{
    vstd::arithmetic::div_mod::lemma_fundamental_div_mod(a, b);
    vstd::arithmetic::div_mod::lemma_mod_bound(a, b);
    vstd::arithmetic::div_mod::lemma_div_pos_is_pos(a, b);
    assert(ceil_div(a, b) * b >= a) by (nonlinear_arith)
        requires
            a == b * (a / b) + a % b,
            0 <= a % b < b,
            ceil_div(a, b) == if a % b == 0 { a / b } else { a / b + 1 },
    ;
    assert((ceil_div(a, b) - 1) * b < a || a == 0) by (nonlinear_arith)
        requires
            a == b * (a / b) + a % b,
            0 <= a % b < b,
            a >= 0,
            b > 0,
            ceil_div(a, b) == if a % b == 0 { a / b } else { a / b + 1 },
    ;
}

/// The part of `a` inside a `w` by `h` buffer, if any.
pub open spec fn clip_spec(a: WlRect, w: int, h: int) -> Option<Rect> {
    let x1 = clamp_int(a.x as int, 0, w);
    let x2 = clamp_int(sat_i32(a.x + a.width), 0, w);
    let y1 = clamp_int(a.y as int, 0, h);
    let y2 = clamp_int(sat_i32(a.y + a.height), 0, h);
    if x2 > x1 && y2 > y1 {
        Some(Rect { x1: x1 as u32, x2: x2 as u32, y1: y1 as u32, y2: y2 as u32 })
    } else {
        None
    }
}

/// The part of a damage rectangle that lies inside a `w` by `h` buffer.
pub fn clip_wlrect_to_buffer(a: &WlRect, w: i32, h: i32) -> (r: Option<Rect>)
    requires
        w >= 0,
        h >= 0,
    ensures
        r == clip_spec(*a, w as int, h as int),
        r matches Some(c) ==> c.nonempty() && c.x2 <= w && c.y2 <= h,
{
    let x1 = a.x;
    let x2 = sat_add_i32(a.x, a.width);
    let y1 = a.y;
    let y2 = sat_add_i32(a.y, a.height);
    let nx1 = clamp_i32(x1, 0, w);
    let nx2 = clamp_i32(x2, 0, w);
    let ny1 = clamp_i32(y1, 0, h);
    let ny2 = clamp_i32(y2, 0, h);
    if nx2 > nx1 && ny2 > ny1 {
        Some(Rect { x1: nx1 as u32, x2: nx2 as u32, y1: ny1 as u32, y2: ny2 as u32 })
    } else {
        None
    }
}

/// The viewport's source rectangle has a nonnegative corner and a positive size (in units
/// of 1/256 pixel), and its destination size is positive.
pub open spec fn viewport_ok(src: Option<(i32, i32, i32, i32)>, dst: Option<(i32, i32)>) -> bool {
    &&& match src {
        Some(v) => v.0 >= 0 && v.1 >= 0 && v.2 > 0 && v.3 > 0,
        None => true,
    }
    &&& match dst {
        Some(d) => d.0 > 0 && d.1 > 0,
        None => true,
    }
}

/// The size of the surface: the viewport destination, else the viewport source size in
/// whole pixels, else the size of the buffer as scaled and transformed.
pub open spec fn vp_dest(bs: (i32, i32), src: Option<(i32, i32, i32, i32)>, dst: Option<(i32, i32)>) -> (int, int) {
    match dst {
        Some(d) => (d.0 as int, d.1 as int),
        None => match src {
            Some(v) => (v.2 / 256, v.3 / 256),
            None => (bs.0 as int, bs.1 as int),
        },
    }
}

/// Buffer coordinate, rounded down, of surface coordinate `v` through a source range of
/// size `sz` starting at `off` (both in 1/256 pixel) shown over `dst` surface pixels.
pub open spec fn source_floor(v: int, dst: int, sz: int, off: int) -> int {
    (v * sz / dst + off) / 256
}

/// As `source_floor`, rounded up at both steps.
pub open spec fn source_ceil(v: int, dst: int, sz: int, off: int) -> int {
    ceil_div(ceil_div(v * sz, dst) + off, 256)
}

/// The buffer rectangle (in buffer pixels, before scale and transform) that surface
/// rectangle `a` shows through the viewport, where `bs` is the size of the buffer as seen
/// by the viewport.
pub open spec fn viewport_spec(
    a: WlRect,
    bs: (i32, i32),
    src: Option<(i32, i32, i32, i32)>,
    dst: Option<(i32, i32)>,
) -> Option<Rect> {
    let d = vp_dest(bs, src, dst);
    let x1 = clamp_int(a.x as int, 0, d.0);
    let x2 = clamp_int(sat_i32(a.x + a.width), 0, d.0);
    let y1 = clamp_int(a.y as int, 0, d.1);
    let y2 = clamp_int(sat_i32(a.y + a.height), 0, d.1);
    if x2 <= x1 || y2 <= y1 {
        None
    } else {
        match src {
            Some(v) => {
                let sx1 = min_int(source_floor(x1, d.0, v.2 as int, v.0 as int), bs.0 as int);
                let sx2 = min_int(source_ceil(x2, d.0, v.2 as int, v.0 as int), bs.0 as int);
                let sy1 = min_int(source_floor(y1, d.1, v.3 as int, v.1 as int), bs.1 as int);
                let sy2 = min_int(source_ceil(y2, d.1, v.3 as int, v.1 as int), bs.1 as int);
                if sx1 >= sx2 || sy1 >= sy2 {
                    None
                } else {
                    Some(Rect { x1: sx1 as u32, x2: sx2 as u32, y1: sy1 as u32, y2: sy2 as u32 })
                }
            },
            None => Some(
                Rect {
                    x1: (x1 * bs.0 / d.0) as u32,
                    x2: ceil_div(x2 * bs.0, d.0) as u32,
                    y1: (y1 * bs.1 / d.1) as u32,
                    y2: ceil_div(y2 * bs.1, d.1) as u32,
                },
            ),
        }
    }
}

/// Scaling a position `v` within `0..=d` by `s / d` keeps it within `0..=s`, and is monotonic.
proof fn lemma_scaled(v: int, w: int, d: int, s: int)
    requires
        0 <= v <= w <= d,
        d > 0,
        s >= 0,
    ensures
        0 <= v * s / d <= ceil_div(v * s, d) <= s,
        v * s / d <= w * s / d,
        ceil_div(v * s, d) <= ceil_div(w * s, d),
        v < w ==> v * s / d <= ceil_div(w * s, d),
{
    assert(0 <= v * s <= w * s <= d * s) by (nonlinear_arith)
        requires
            0 <= v <= w <= d,
            s >= 0,
    ;
    lemma_ceil_div(v * s, d);
    lemma_ceil_div(w * s, d);
    vstd::arithmetic::div_mod::lemma_div_is_ordered(v * s, w * s, d);
    vstd::arithmetic::div_mod::lemma_div_is_ordered(w * s, d * s, d);
    vstd::arithmetic::div_mod::lemma_div_multiples_vanish(s, d);
    vstd::arithmetic::div_mod::lemma_fundamental_div_mod(w * s, d);
    vstd::arithmetic::div_mod::lemma_fundamental_div_mod(v * s, d);
    if (w * s) % d != 0 {
        assert(w * s < d * s);
        assert(w * s / d < s) by (nonlinear_arith)
            requires
                w * s == d * (w * s / d) + (w * s) % d,
                (w * s) % d >= 0,
                w * s < d * s,
                d > 0,
        ;
    }
    if (v * s) % d != 0 && (w * s) % d == 0 {
        assert(v * s / d < w * s / d) by (nonlinear_arith)
            requires
                v * s == d * (v * s / d) + (v * s) % d,
                w * s == d * (w * s / d),
                0 < (v * s) % d < d,
                v * s <= w * s,
                d > 0,
        ;
    }
}

fn source_floor_exec(v: i32, dst: i32, sz: i32, off: i32) -> (r: u32)
    requires
        0 <= v <= dst,
        dst > 0,
        sz > 0,
        off >= 0,
    ensures
        r == source_floor(v as int, dst as int, sz as int, off as int),
{
    proof {
        lemma_scaled(v as int, v as int, dst as int, sz as int);
        assert((v as u64) * (sz as u64) <= 0x7fff_ffff * 0x7fff_ffffu64) by (nonlinear_arith)
            requires
                0 <= v <= 0x7fff_ffff,
                0 <= sz <= 0x7fff_ffff,
        ;
    }
    let q: u64 = (v as u64) * (sz as u64) / (dst as u64) + (off as u64);
    (q / 256) as u32
}

fn source_ceil_exec(v: i32, dst: i32, sz: i32, off: i32) -> (r: u32)
    requires
        0 <= v <= dst,
        dst > 0,
        sz > 0,
        off >= 0,
    ensures
        r == source_ceil(v as int, dst as int, sz as int, off as int),
{
    proof {
        lemma_scaled(v as int, v as int, dst as int, sz as int);
        assert((v as u64) * (sz as u64) <= 0x7fff_ffff * 0x7fff_ffffu64) by (nonlinear_arith)
            requires
                0 <= v <= 0x7fff_ffff,
                0 <= sz <= 0x7fff_ffff,
        ;
    }
    let c: u64 = div_ceil_u64((v as u64) * (sz as u64), dst as u64);
    let q: u64 = div_ceil_u64(c + (off as u64), 256);
    proof {
        lemma_ceil_div(c + off, 256);
    }
    q as u32
}

fn min_u32(a: u32, b: u32) -> (r: u32)
    ensures
        r == min_int(a as int, b as int),
{
    if a <= b {
        a
    } else {
        b
    }
}

/// The buffer rectangle that surface rectangle `a` shows through a viewport with source
/// `view_src` and destination `view_dst`, for a buffer of size `buffer_size` (after scale
/// and transform); none when nothing of `a` is visible.
pub fn apply_viewport_transform(
    a: &WlRect,
    buffer_size: (i32, i32),
    view_src: Option<(i32, i32, i32, i32)>,
    view_dst: Option<(i32, i32)>,
) -> (r: Option<Rect>)
    requires
        a.width >= 0,
        a.height >= 0,
        buffer_size.0 >= 0,
        buffer_size.1 >= 0,
        viewport_ok(view_src, view_dst),
    ensures
        r == viewport_spec(*a, buffer_size, view_src, view_dst),
        r matches Some(b) ==> b.x1 <= b.x2 <= buffer_size.0 && b.y1 <= b.y2 <= buffer_size.1,
{
    let dst: (i32, i32) = if let Some(x) = view_dst {
        (x.0, x.1)
    } else if let Some(x) = view_src {
        ((x.2 as u32 / 256) as i32, (x.3 as u32 / 256) as i32)
    } else {
        (buffer_size.0, buffer_size.1)
    };
    proof {
        assert(dst.0 == vp_dest(buffer_size, view_src, view_dst).0);
        assert(dst.1 == vp_dest(buffer_size, view_src, view_dst).1);
    }
    let x1 = clamp_i32(a.x, 0, dst.0);
    let x2 = clamp_i32(sat_add_i32(a.x, a.width), 0, dst.0);
    let y1 = clamp_i32(a.y, 0, dst.1);
    let y2 = clamp_i32(sat_add_i32(a.y, a.height), 0, dst.1);
    if x2 <= x1 || y2 <= y1 {
        return None;
    }
    if let Some(v) = view_src {
        let sx1 = min_u32(source_floor_exec(x1, dst.0, v.2, v.0), buffer_size.0 as u32);
        let sx2 = min_u32(source_ceil_exec(x2, dst.0, v.2, v.0), buffer_size.0 as u32);
        let sy1 = min_u32(source_floor_exec(y1, dst.1, v.3, v.1), buffer_size.1 as u32);
        let sy2 = min_u32(source_ceil_exec(y2, dst.1, v.3, v.1), buffer_size.1 as u32);
        if sx1 >= sx2 || sy1 >= sy2 {
            return None;
        }
        Some(Rect { x1: sx1, x2: sx2, y1: sy1, y2: sy2 })
    } else {
        proof {
            lemma_scaled(x1 as int, x2 as int, dst.0 as int, buffer_size.0 as int);
            lemma_scaled(y1 as int, y2 as int, dst.1 as int, buffer_size.1 as int);
            lemma_scaled(x2 as int, x2 as int, dst.0 as int, buffer_size.0 as int);
            lemma_scaled(y2 as int, y2 as int, dst.1 as int, buffer_size.1 as int);
            assert((x2 as u64) * (buffer_size.0 as u64) <= 0x7fff_ffff * 0x7fff_ffffu64) by (nonlinear_arith)
                requires
                    0 <= x2 <= 0x7fff_ffff,
                    0 <= buffer_size.0 <= 0x7fff_ffff,
            ;
            assert((y2 as u64) * (buffer_size.1 as u64) <= 0x7fff_ffff * 0x7fff_ffffu64) by (nonlinear_arith)
                requires
                    0 <= y2 <= 0x7fff_ffff,
                    0 <= buffer_size.1 <= 0x7fff_ffff,
            ;
            assert((x1 as u64) * (buffer_size.0 as u64) <= (x2 as u64) * (buffer_size.0 as u64)) by (nonlinear_arith)
                requires
                    0 <= x1 <= x2,
                    0 <= buffer_size.0,
            ;
            assert((y1 as u64) * (buffer_size.1 as u64) <= (y2 as u64) * (buffer_size.1 as u64)) by (nonlinear_arith)
                requires
                    0 <= y1 <= y2,
                    0 <= buffer_size.1,
            ;
        }
        let sx1 = ((x1 as u64) * (buffer_size.0 as u64) / (dst.0 as u64)) as u32;
        let sx2 = div_ceil_u64((x2 as u64) * (buffer_size.0 as u64), dst.0 as u64) as u32;
        let sy1 = ((y1 as u64) * (buffer_size.1 as u64) / (dst.1 as u64)) as u32;
        let sy2 = div_ceil_u64((y2 as u64) * (buffer_size.1 as u64), dst.1 as u64) as u32;
        Some(Rect { x1: sx1, x2: sx2, y1: sy1, y2: sy2 })
    }
}

/// The size the viewport sees: the buffer size divided by the scale, axes exchanged when
/// the transform exchanges them.
pub open spec fn pre_viewport_size(scale: u32, t: WlOutputTransform, width: i32, height: i32) -> (i32, i32) {
    if swaps_xy(t) {
        ((height as int / scale as int) as i32, (width as int / scale as int) as i32)
    } else {
        ((width as int / scale as int) as i32, (height as int / scale as int) as i32)
    }
}

/// The buffer rectangle for a buffer rectangle `b` of the viewport's view: scaled, then
/// mirrored and its axes exchanged as the transform says, in a `width` by `height` buffer.
pub open spec fn untransform_rect(b: Rect, scale: u32, t: WlOutputTransform, width: i32, height: i32) -> Rect {
    let xl = b.x1 * scale;
    let xh = b.x2 * scale;
    let yl = b.y1 * scale;
    let yh = b.y2 * scale;
    let ew = if swaps_xy(t) { height as int } else { width as int };
    let eh = if swaps_xy(t) { width as int } else { height as int };
    let (xl2, xh2) = if flips_x(t) { (ew - xh, ew - xl) } else { (xl, xh) };
    let (yl2, yh2) = if flips_y(t) { (eh - yh, eh - yl) } else { (yl, yh) };
    if swaps_xy(t) {
        Rect { x1: yl2 as u32, x2: yh2 as u32, y1: xl2 as u32, y2: xh2 as u32 }
    } else {
        Rect { x1: xl2 as u32, x2: xh2 as u32, y1: yl2 as u32, y2: yh2 as u32 }
    }
}

/// The buffer rectangle that surface damage `a` covers, for a `width` by `height` buffer
/// attached with `scale`, transform `t` and the given viewport.
pub open spec fn damage_transform_spec(
    a: WlRect,
    scale: u32,
    t: WlOutputTransform,
    src: Option<(i32, i32, i32, i32)>,
    dst: Option<(i32, i32)>,
    width: i32,
    height: i32,
) -> Option<Rect> {
    match viewport_spec(a, pre_viewport_size(scale, t, width, height), src, dst) {
        None => None,
        Some(b) => Some(untransform_rect(b, scale, t, width, height)),
    }
}

/// The scales that a surface can be given: positive values of a signed 32-bit integer.
pub open spec fn scale_ok(scale: u32) -> bool {
    0 < scale <= i32::MAX
}

/// The buffer rectangle that surface damage `a` covers, for a `width` by `height` buffer
/// attached with `scale`, `transform` and the given viewport; none when nothing of `a` is
/// visible.
pub fn apply_damage_rect_transform(
    a: &WlRect,
    scale: u32,
    transform: WlOutputTransform,
    view_src: Option<(i32, i32, i32, i32)>,
    view_dst: Option<(i32, i32)>,
    width: i32,
    height: i32,
) -> (r: Option<Rect>)
    requires
        a.width >= 0,
        a.height >= 0,
        scale_ok(scale),
        width >= 0,
        height >= 0,
        viewport_ok(view_src, view_dst),
    ensures
        r == damage_transform_spec(*a, scale, transform, view_src, view_dst, width, height),
        r matches Some(c) ==> c.x1 <= c.x2 <= width && c.y1 <= c.y2 <= height,
{
    let (swap_xy, flip_x, flip_y) = transform_flags(transform);
    let pre_vp_size: (i32, i32) = if swap_xy {
        (((height as u32) / scale) as i32, ((width as u32) / scale) as i32)
    } else {
        (((width as u32) / scale) as i32, ((height as u32) / scale) as i32)
    };
    proof {
        assert(pre_vp_size == pre_viewport_size(scale, transform, width, height));
    }
    let b = match apply_viewport_transform(a, pre_vp_size, view_src, view_dst) {
        Some(b) => b,
        None => return None,
    };
    let end_w: u32 = if swap_xy { height as u32 } else { width as u32 };
    let end_h: u32 = if swap_xy { width as u32 } else { height as u32 };
    proof {
        let pw = pre_vp_size.0 as int;
        let ph = pre_vp_size.1 as int;
        assert(pw * scale <= end_w) by (nonlinear_arith)
            requires
                pw == end_w as int / scale as int,
                scale > 0,
        ;
        assert(ph * scale <= end_h) by (nonlinear_arith)
            requires
                ph == end_h as int / scale as int,
                scale > 0,
        ;
        assert(b.x1 * scale <= b.x2 * scale <= pw * scale) by (nonlinear_arith)
            requires
                b.x1 <= b.x2 <= pw,
                scale > 0,
        ;
        assert(b.y1 * scale <= b.y2 * scale <= ph * scale) by (nonlinear_arith)
            requires
                b.y1 <= b.y2 <= ph,
                scale > 0,
        ;
    }
    let mut xl = b.x1 * scale;
    let mut yl = b.y1 * scale;
    let mut xh = b.x2 * scale;
    let mut yh = b.y2 * scale;
    if flip_x {
        let nxh = end_w - xl;
        let nxl = end_w - xh;
        xh = nxh;
        xl = nxl;
    }
    if flip_y {
        let nyh = end_h - yl;
        let nyl = end_h - yh;
        yh = nyh;
        yl = nyl;
    }
    if swap_xy {
        Some(Rect { x1: yl, x2: yh, y1: xl, y2: xh })
    } else {
        Some(Rect { x1: xl, x2: xh, y1: yl, y2: yh })
    }
}

/// Rectangle `a` of the viewport's buffer in units of 1/256 pixel, restricted to the
/// viewport source and moved to its corner, as (x1, x2, y1, y2).
pub open spec fn inverse_clip(a: Rect, src: Option<(i32, i32, i32, i32)>) -> (int, int, int, int) {
    let x1 = a.x1 * 256;
    let x2 = a.x2 * 256;
    let y1 = a.y1 * 256;
    let y2 = a.y2 * 256;
    match src {
        Some(v) => (
            clamp_int(x1, v.0 as int, v.0 + v.2) - v.0,
            clamp_int(x2, v.0 as int, v.0 + v.2) - v.0,
            clamp_int(y1, v.1 as int, v.1 + v.3) - v.1,
            clamp_int(y2, v.1 as int, v.1 + v.3) - v.1,
        ),
        None => (x1, x2, y1, y2),
    }
}

/// Some of `a` lies inside the viewport source (always, without a source).
pub open spec fn inverse_clip_nonempty(a: Rect, src: Option<(i32, i32, i32, i32)>) -> bool {
    let c = inverse_clip(a, src);
    src is None || (c.0 < c.1 && c.2 < c.3)
}

/// The size of the viewport source in units of 1/256 pixel.
pub open spec fn inverse_src_size(bs: (i32, i32), src: Option<(i32, i32, i32, i32)>) -> (int, int) {
    match src {
        Some(v) => (v.2 as int, v.3 as int),
        None => (bs.0 * 256, bs.1 * 256),
    }
}

/// The surface rectangle that shows buffer rectangle `a` through the viewport, where `bs`
/// is the size of the buffer as seen by the viewport.
pub open spec fn inverse_viewport_spec(
    a: Rect,
    bs: (i32, i32),
    src: Option<(i32, i32, i32, i32)>,
    dst: Option<(i32, i32)>,
) -> Option<WlRect> {
    if !inverse_clip_nonempty(a, src) {
        None
    } else {
        let c = inverse_clip(a, src);
        let s = inverse_src_size(bs, src);
        let d = vp_dest(bs, src, dst);
        let xl = c.0 * d.0 / s.0;
        let xh = ceil_div(c.1 * d.0, s.0);
        let yl = c.2 * d.1 / s.1;
        let yh = ceil_div(c.3 * d.1, s.1);
        Some(WlRect { x: xl as i32, y: yl as i32, width: (xh - xl) as i32, height: (yh - yl) as i32 })
    }
}

/// The inputs on which mapping a buffer rectangle back through the viewport is defined: a
/// nonempty rectangle inside a nonempty buffer, and, where the rectangle is visible, a
/// surface size of at least one pixel.
pub open spec fn inverse_viewport_ok(
    a: Rect,
    bs: (i32, i32),
    src: Option<(i32, i32, i32, i32)>,
    dst: Option<(i32, i32)>,
) -> bool {
    &&& bs.0 > 0 && bs.1 > 0
    &&& a.x1 < a.x2 && a.y1 < a.y2
    &&& a.x2 <= bs.0 && a.y2 <= bs.1
    &&& viewport_ok(src, dst)
    &&& inverse_clip_nonempty(a, src) ==> vp_dest(bs, src, dst).0 > 0 && vp_dest(bs, src, dst).1 > 0
}

fn clamp_u64(v: u64, lo: u64, hi: u64) -> (r: u64)
    requires
        lo <= hi,
    ensures
        r == clamp_int(v as int, lo as int, hi as int),
{
    if v < lo {
        lo
    } else if v > hi {
        hi
    } else {
        v
    }
}

fn div_ceil_u128(a: u128, b: u128) -> (r: u128)
    requires
        b > 0,
    ensures
        r == ceil_div(a as int, b as int),
{
    if a % b == 0 {
        a / b
    } else {
        proof {
            assert(b >= 2);
            vstd::arithmetic::div_mod::lemma_div_is_ordered_by_denominator(a as int, 2, b as int);
        }
        a / b + 1
    }
}

/// The surface rectangle that shows buffer rectangle `a` through a viewport with source
/// `view_src` and destination `view_dst`, for a buffer of size `buffer_size` (after scale
/// and transform); none when `a` lies outside the viewport source.
pub fn inverse_viewport_transform(
    a: &Rect,
    buffer_size: (i32, i32),
    view_src: Option<(i32, i32, i32, i32)>,
    view_dst: Option<(i32, i32)>,
) -> (r: Option<WlRect>)
    requires
        inverse_viewport_ok(*a, buffer_size, view_src, view_dst),
    ensures
        r == inverse_viewport_spec(*a, buffer_size, view_src, view_dst),
        r matches Some(w) ==> w.x >= 0 && w.y >= 0 && w.width > 0 && w.height > 0,
{
    let mut x1: u64 = (a.x1 as u64) * 256;
    let mut x2: u64 = (a.x2 as u64) * 256;
    let mut y1: u64 = (a.y1 as u64) * 256;
    let mut y2: u64 = (a.y2 as u64) * 256;
    if let Some((sx, sy, sw, sh)) = view_src {
        let e: (u64, u64) = (sx as u64 + sw as u64, sy as u64 + sh as u64);
        x1 = clamp_u64(x1, sx as u64, e.0) - (sx as u64);
        x2 = clamp_u64(x2, sx as u64, e.0) - (sx as u64);
        y1 = clamp_u64(y1, sy as u64, e.1) - (sy as u64);
        y2 = clamp_u64(y2, sy as u64, e.1) - (sy as u64);
        if x2 <= x1 || y2 <= y1 {
            return None;
        }
    }
    let ghost c = inverse_clip(*a, view_src);
    proof {
        assert(x1 == c.0 && x2 == c.1 && y1 == c.2 && y2 == c.3);
    }
    let src: (u64, u64) = if let Some(x) = view_src {
        (x.2 as u64, x.3 as u64)
    } else {
        (buffer_size.0 as u64 * 256, buffer_size.1 as u64 * 256)
    };
    let dst: (u32, u32) = if let Some(x) = view_dst {
        (x.0 as u32, x.1 as u32)
    } else if let Some(x) = view_src {
        (x.2 as u32 / 256, x.3 as u32 / 256)
    } else {
        (buffer_size.0 as u32, buffer_size.1 as u32)
    };
    let ghost s = inverse_src_size(buffer_size, view_src);
    let ghost d = vp_dest(buffer_size, view_src, view_dst);
    proof {
        assert(src.0 == s.0 && src.1 == s.1);
        assert(dst.0 == d.0 && dst.1 == d.1);
        assert(0 <= c.0 < c.1 <= s.0 && 0 <= c.2 < c.3 <= s.1);
        assert(0 < d.0 <= i32::MAX && 0 < d.1 <= i32::MAX);
        assert(s.0 <= 0x80_0000_0000 && s.1 <= 0x80_0000_0000);
        lemma_scaled(c.0, c.1, s.0, d.0);
        lemma_scaled(c.1, c.1, s.0, d.0);
        lemma_scaled(c.2, c.3, s.1, d.1);
        lemma_scaled(c.3, c.3, s.1, d.1);
        lemma_floor_below_ceil(c.0, c.1, s.0, d.0);
        lemma_floor_below_ceil(c.2, c.3, s.1, d.1);
        assert(c.1 * d.0 <= 0x80_0000_0000 * 0x7fff_ffff) by (nonlinear_arith)
            requires
                0 <= c.1 <= 0x80_0000_0000,
                0 <= d.0 <= 0x7fff_ffff,
        ;
        assert(c.3 * d.1 <= 0x80_0000_0000 * 0x7fff_ffff) by (nonlinear_arith)
            requires
                0 <= c.3 <= 0x80_0000_0000,
                0 <= d.1 <= 0x7fff_ffff,
        ;
        assert(c.0 * d.0 <= c.1 * d.0) by (nonlinear_arith)
            requires
                0 <= c.0 <= c.1,
                0 <= d.0,
        ;
        assert(c.2 * d.1 <= c.3 * d.1) by (nonlinear_arith)
            requires
                0 <= c.2 <= c.3,
                0 <= d.1,
        ;
    }
    let xl: u128 = ((x1 as u128) * (dst.0 as u128)) / (src.0 as u128);
    let xh: u128 = div_ceil_u128((x2 as u128) * (dst.0 as u128), src.0 as u128);
    let yl: u128 = ((y1 as u128) * (dst.1 as u128)) / (src.1 as u128);
    let yh: u128 = div_ceil_u128((y2 as u128) * (dst.1 as u128), src.1 as u128);
    Some(WlRect { x: xl as i32, y: yl as i32, width: (xh - xl) as i32, height: (yh - yl) as i32 })
}

/// For `v < w` and a positive scaling `d / s`, the scaled `v` rounded down lies below the
/// scaled `w` rounded up.
proof fn lemma_floor_below_ceil(v: int, w: int, s: int, d: int)
    requires
        0 <= v < w,
        s > 0,
        d > 0,
    ensures
        v * d / s < ceil_div(w * d, s),
{
    assert(v * d < w * d) by (nonlinear_arith)
        requires
            0 <= v < w,
            d > 0,
    ;
    assert(v * d >= 0) by (nonlinear_arith)
        requires
            0 <= v,
            d > 0,
    ;
    lemma_ceil_div(w * d, s);
    vstd::arithmetic::div_mod::lemma_fundamental_div_mod(v * d, s);
    vstd::arithmetic::div_mod::lemma_mod_bound(v * d, s);
    assert(v * d / s < ceil_div(w * d, s)) by (nonlinear_arith)
        requires
            v * d == s * (v * d / s) + (v * d) % s,
            (v * d) % s >= 0,
            ceil_div(w * d, s) * s >= w * d,
            v * d < w * d,
            s > 0,
    ;
}

/// The rectangle of the viewport's view of the buffer that buffer damage `a` touches:
/// clipped to the `width` by `height` buffer, its axes exchanged and mirrored back as the
/// transform says, then divided by the scale, rounding outwards.
pub open spec fn inverse_scaled_rect(a: WlRect, scale: u32, t: WlOutputTransform, width: i32, height: i32) -> Option<Rect> {
    let xl = clamp_int(a.x as int, 0, width as int);
    let xh = clamp_int(sat_i32(a.x + a.width), 0, width as int);
    let yl = clamp_int(a.y as int, 0, height as int);
    let yh = clamp_int(sat_i32(a.y + a.height), 0, height as int);
    if xh <= xl || yh <= yl {
        None
    } else {
        let ew = if swaps_xy(t) { height as int } else { width as int };
        let eh = if swaps_xy(t) { width as int } else { height as int };
        let (x1, x2, y1, y2) = if swaps_xy(t) { (yl, yh, xl, xh) } else { (xl, xh, yl, yh) };
        let (y1b, y2b) = if flips_y(t) { (eh - y2, eh - y1) } else { (y1, y2) };
        let (x1b, x2b) = if flips_x(t) { (ew - x2, ew - x1) } else { (x1, x2) };
        Some(
            Rect {
                x1: (x1b / scale as int) as u32,
                x2: ceil_div(x2b, scale as int) as u32,
                y1: (y1b / scale as int) as u32,
                y2: ceil_div(y2b, scale as int) as u32,
            },
        )
    }
}

/// The surface rectangle that buffer damage `a` shows at, for a `width` by `height`
/// buffer attached with `scale`, transform `t` and the given viewport.
pub open spec fn inverse_damage_spec(
    a: WlRect,
    scale: u32,
    t: WlOutputTransform,
    src: Option<(i32, i32, i32, i32)>,
    dst: Option<(i32, i32)>,
    width: i32,
    height: i32,
) -> Option<WlRect> {
    match inverse_scaled_rect(a, scale, t, width, height) {
        None => None,
        Some(b) => inverse_viewport_spec(b, pre_viewport_size(scale, t, width, height), src, dst),
    }
}

/// The inputs on which mapping buffer damage back to the surface is defined: a nonempty
/// buffer, a valid scale and viewport, and a damaged part that the viewport can map.
pub open spec fn inverse_damage_ok(
    a: WlRect,
    scale: u32,
    t: WlOutputTransform,
    src: Option<(i32, i32, i32, i32)>,
    dst: Option<(i32, i32)>,
    width: i32,
    height: i32,
) -> bool {
    &&& width > 0 && height > 0
    &&& scale_ok(scale)
    &&& viewport_ok(src, dst)
    &&& match inverse_scaled_rect(a, scale, t, width, height) {
        None => true,
        Some(b) => inverse_viewport_ok(b, pre_viewport_size(scale, t, width, height), src, dst),
    }
}

/// The surface rectangle at which buffer damage `a` shows, for a `width` by `height` buffer
/// attached with `scale`, `transform` and the given viewport; none when it does not show.
pub fn inverse_damage_rect_transform(
    a: &WlRect,
    scale: u32,
    transform: WlOutputTransform,
    view_src: Option<(i32, i32, i32, i32)>,
    view_dst: Option<(i32, i32)>,
    width: i32,
    height: i32,
) -> (r: Option<WlRect>)
    requires
        inverse_damage_ok(*a, scale, transform, view_src, view_dst, width, height),
    ensures
        r == inverse_damage_spec(*a, scale, transform, view_src, view_dst, width, height),
        r matches Some(w) ==> w.x >= 0 && w.y >= 0 && w.width > 0 && w.height > 0,
{
    let (swap_xy, flip_x, flip_y) = transform_flags(transform);
    let mut xl = clamp_i32(a.x, 0, width) as u32;
    let mut xh = clamp_i32(sat_add_i32(a.x, a.width), 0, width) as u32;
    let mut yl = clamp_i32(a.y, 0, height) as u32;
    let mut yh = clamp_i32(sat_add_i32(a.y, a.height), 0, height) as u32;
    if xh <= xl || yh <= yl {
        return None;
    }
    let (end_w, end_h): (u32, u32) = if swap_xy {
        (height as u32, width as u32)
    } else {
        (width as u32, height as u32)
    };
    if swap_xy {
        let (a1, a2, b1, b2) = (yl, yh, xl, xh);
        xl = a1;
        xh = a2;
        yl = b1;
        yh = b2;
    }
    if flip_y {
        let nyh = end_h - yl;
        let nyl = end_h - yh;
        yh = nyh;
        yl = nyl;
    }
    if flip_x {
        let nxh = end_w - xl;
        let nxl = end_w - xh;
        xh = nxh;
        xl = nxl;
    }
    let bx1 = xl / scale;
    let bx2 = div_ceil_u32(xh, scale);
    let by1 = yl / scale;
    let by2 = div_ceil_u32(yh, scale);
    let post_vp_size: (i32, i32) = if swap_xy {
        (((height as u32) / scale) as i32, ((width as u32) / scale) as i32)
    } else {
        (((width as u32) / scale) as i32, ((height as u32) / scale) as i32)
    };
    let b = Rect { x1: bx1, x2: bx2, y1: by1, y2: by2 };
    proof {
        assert(post_vp_size == pre_viewport_size(scale, transform, width, height));
        assert(inverse_scaled_rect(*a, scale, transform, width, height) == Some(b));
    }
    inverse_viewport_transform(&b, post_vp_size, view_src, view_dst)
}

/// How a buffer is attached to a surface.
#[derive(Clone, Copy, Debug, PartialEq, Eq)]
pub struct BufferAttachment {
    /// The buffer scale: buffer pixels per surface pixel.
    pub scale: u32,
    pub transform: WlOutputTransform,
    /// Viewport source rectangle (x, y, width, height) in units of 1/256 pixel.
    pub viewport_src: Option<(i32, i32, i32, i32)>,
    /// Viewport destination size.
    pub viewport_dst: Option<(i32, i32)>,
    /// Identifies the attached buffer.
    pub buffer_uid: u64,
    pub buffer_size: (i32, i32),
}

/// The damage of one commit, with the attachment it was committed with.
#[derive(Clone, Debug)]
pub struct DamageBatch {
    pub attachment: BufferAttachment,
    /// Damage in surface coordinates.
    pub damage: Vec<WlRect>,
    /// Damage in buffer coordinates.
    pub damage_buffer: Vec<WlRect>,
}

/// The number of commits whose damage a surface remembers, the pending one included.
pub const DAMAGE_HISTORY_LEN: usize = 7;

/// A surface: the pending damage (entry 0) and that of the last commits, newest first.
pub struct ObjWlSurface {
    pub attached_buffer_id: Option<u32>,
    pub damage_history: [DamageBatch; 7],
    pub viewport_id: Option<u32>,
}

/// The two attachments are the same in every field.
pub fn same_attachment(a: &BufferAttachment, b: &BufferAttachment) -> (r: bool)
    ensures
        r == (*a == *b),
{
    a.scale == b.scale && a.transform == b.transform && a.viewport_src == b.viewport_src
        && a.viewport_dst == b.viewport_dst && a.buffer_uid == b.buffer_uid
        && a.buffer_size.0 == b.buffer_size.0 && a.buffer_size.1 == b.buffer_size.1
}

/// The attachment's scale and viewport are valid.
pub open spec fn attachment_ok(att: BufferAttachment) -> bool {
    scale_ok(att.scale) && viewport_ok(att.viewport_src, att.viewport_dst)
}

/// The first index from `i` on of a batch for the buffer `uid`.
pub open spec fn first_match_from(hist: Seq<DamageBatch>, uid: u64, i: int) -> Option<int>
    decreases hist.len() - i,
{
    if i < 0 || i >= hist.len() {
        None
    } else if hist[i].attachment.buffer_uid == uid {
        Some(i)
    } else {
        first_match_from(hist, uid, i + 1)
    }
}

pub open spec fn opt_seq(o: Option<Rect>) -> Seq<Rect> {
    match o {
        Some(r) => seq![r],
        None => Seq::empty(),
    }
}

/// The parts of buffer damage `s` inside a `w` by `h` buffer.
pub open spec fn clipped_rects(s: Seq<WlRect>, w: i32, h: i32) -> Seq<Rect>
    decreases s.len(),
{
    if s.len() == 0 {
        Seq::empty()
    } else {
        clipped_rects(s.drop_last(), w, h) + opt_seq(clip_spec(s.last(), w as int, h as int))
    }
}

/// Buffer rectangle of surface damage `a` under attachment `att`.
pub open spec fn att_transform(a: WlRect, att: BufferAttachment) -> Option<Rect> {
    damage_transform_spec(a, att.scale, att.transform, att.viewport_src, att.viewport_dst, att.buffer_size.0, att.buffer_size.1)
}

/// Surface rectangle of buffer damage `a` under attachment `att`.
pub open spec fn att_inverse(a: WlRect, att: BufferAttachment) -> Option<WlRect> {
    inverse_damage_spec(a, att.scale, att.transform, att.viewport_src, att.viewport_dst, att.buffer_size.0, att.buffer_size.1)
}

/// Buffer rectangles of surface damage `s` under attachment `att`.
pub open spec fn transformed_rects(s: Seq<WlRect>, att: BufferAttachment) -> Seq<Rect>
    decreases s.len(),
{
    if s.len() == 0 {
        Seq::empty()
    } else {
        transformed_rects(s.drop_last(), att) + opt_seq(att_transform(s.last(), att))
    }
}

/// Buffer rectangles under attachment `att` of buffer damage `s` made under `from`.
pub open spec fn reprojected_rects(s: Seq<WlRect>, from: BufferAttachment, att: BufferAttachment) -> Seq<Rect>
    decreases s.len(),
{
    if s.len() == 0 {
        Seq::empty()
    } else {
        reprojected_rects(s.drop_last(), from, att) + match att_inverse(s.last(), from) {
            None => Seq::empty(),
            Some(w) => opt_seq(att_transform(w, att)),
        }
    }
}

/// The buffer rectangles under `att` of one batch; the pending batch (`first`) has its
/// buffer damage in the current buffer's coordinates already.
pub open spec fn batch_rects(b: DamageBatch, first: bool, att: BufferAttachment) -> Seq<Rect> {
    (if first {
        clipped_rects(b.damage_buffer@, att.buffer_size.0, att.buffer_size.1)
    } else {
        reprojected_rects(b.damage_buffer@, b.attachment, att)
    }) + transformed_rects(b.damage@, att)
}

/// The buffer rectangles under `att` of the first `n` batches.
pub open spec fn history_rects(hist: Seq<DamageBatch>, att: BufferAttachment, n: int) -> Seq<Rect>
    decreases n,
{
    if n <= 0 {
        Seq::empty()
    } else {
        history_rects(hist, att, n - 1) + batch_rects(hist[n - 1], n - 1 == 0, att)
    }
}

/// The whole buffer.
pub open spec fn full_rect(att: BufferAttachment) -> Rect {
    Rect { x1: 0, x2: att.buffer_size.0 as u32, y1: 0, y2: att.buffer_size.1 as u32 }
}

/// What changed in the buffer of `att` since it was last committed: the whole buffer if
/// no earlier batch used it, or the last one that did used it differently; else the
/// damage of every batch since, mapped into its coordinates.
pub open spec fn damage_rects_spec(hist: Seq<DamageBatch>, att: BufferAttachment) -> Seq<Rect> {
    match first_match_from(hist, att.buffer_uid, 1) {
        None => seq![full_rect(att)],
        Some(i) => if hist[i].attachment != att {
            seq![full_rect(att)]
        } else {
            history_rects(hist, att, i)
        },
    }
}

/// Every rectangle has a nonnegative size.
pub open spec fn sizes_nonneg(s: Seq<WlRect>) -> bool {
    forall|k: int| 0 <= k < s.len() ==> (#[trigger] s[k]).width >= 0 && s[k].height >= 0
}

/// The batches that `damage_rects_spec` maps can be mapped: sizes of surface damage are
/// nonnegative, and earlier buffer damage can be mapped back to its surface.
pub open spec fn history_ok(hist: Seq<DamageBatch>, n: int) -> bool {
    forall|j: int| #![trigger hist[j]] 0 <= j < n ==> {
        &&& sizes_nonneg(hist[j].damage@)
        &&& j > 0 ==> forall|k: int| 0 <= k < hist[j].damage_buffer@.len() ==> {
            let b = hist[j].attachment;
            inverse_damage_ok(#[trigger] hist[j].damage_buffer@[k], b.scale, b.transform, b.viewport_src, b.viewport_dst, b.buffer_size.0, b.buffer_size.1)
        }
    }
}

/// The inputs on which `get_damage_rects` is defined.
pub open spec fn damage_rects_ok(hist: Seq<DamageBatch>, att: BufferAttachment) -> bool {
    &&& att.buffer_size.0 >= 0 && att.buffer_size.1 >= 0
    &&& match first_match_from(hist, att.buffer_uid, 1) {
        Some(i) => hist[i].attachment == att ==> attachment_ok(att) && history_ok(hist, i),
        None => true,
    }
}

proof fn lemma_first_match(hist: Seq<DamageBatch>, uid: u64, i: int)
    requires
        0 <= i <= hist.len(),
    ensures
        match first_match_from(hist, uid, i) {
            Some(j) => i <= j < hist.len() && hist[j].attachment.buffer_uid == uid
                && forall|k: int| i <= k < j ==> (#[trigger] hist[k]).attachment.buffer_uid != uid,
            None => forall|k: int| i <= k < hist.len() ==> (#[trigger] hist[k]).attachment.buffer_uid != uid,
        },
    decreases hist.len() - i,
{
    if i < hist.len() && hist[i].attachment.buffer_uid != uid {
        lemma_first_match(hist, uid, i + 1);
    }
}

/// The rectangles of the buffer of `attachment` that changed since it was last committed
/// to `surface` (see `damage_rects_spec`).
pub fn get_damage_rects(surface: &ObjWlSurface, attachment: &BufferAttachment) -> (rects: Vec<Rect>)
    requires
        damage_rects_ok(surface.damage_history@, *attachment),
    ensures
        rects@ == damage_rects_spec(surface.damage_history@, *attachment),
{
    let ghost hist = surface.damage_history@;
    let (width, height) = attachment.buffer_size;
    let mut rects: Vec<Rect> = Vec::new();
    let full_damage = Rect { x1: 0, x2: width as u32, y1: 0, y2: height as u32 };
    let mut first_idx: usize = 1;
    while first_idx < DAMAGE_HISTORY_LEN && surface.damage_history[first_idx].attachment.buffer_uid != attachment.buffer_uid
        invariant
            1 <= first_idx <= 7,
            hist == surface.damage_history@,
            hist.len() == 7,
            first_match_from(hist, attachment.buffer_uid, 1) == first_match_from(hist, attachment.buffer_uid, first_idx as int),
        decreases 7 - first_idx,
    {
        first_idx = first_idx + 1;
    }
    if first_idx == DAMAGE_HISTORY_LEN {
        rects.push(full_damage);
        proof {
            assert(rects@ =~= seq![full_rect(*attachment)]);
        }
        return rects;
    }
    if !same_attachment(&surface.damage_history[first_idx].attachment, attachment) {
        rects.push(full_damage);
        proof {
            assert(rects@ =~= seq![full_rect(*attachment)]);
        }
        return rects;
    }
    let mut i: usize = 0;
    while i < first_idx
        invariant
            1 <= first_idx < 7,
            i <= first_idx,
            hist == surface.damage_history@,
            hist.len() == 7,
            width == attachment.buffer_size.0,
            height == attachment.buffer_size.1,
            width >= 0 && height >= 0,
            attachment_ok(*attachment),
            history_ok(hist, first_idx as int),
            rects@ == history_rects(hist, *attachment, i as int),
        decreases first_idx - i,
    {
        let batch = &surface.damage_history[i];
        let ghost before = rects@;
        proof {
            assert(hist[i as int] == *batch);
        }
        let mut k: usize = 0;
        if i == 0 {
            while k < batch.damage_buffer.len()
                invariant
                    k <= batch.damage_buffer@.len(),
                    width >= 0 && height >= 0,
                    rects@ == before + clipped_rects(batch.damage_buffer@.subrange(0, k as int), width, height),
                decreases batch.damage_buffer@.len() - k,
            {
                let r = clip_wlrect_to_buffer(&batch.damage_buffer[k], width, height);
                if let Some(r) = r {
                    rects.push(r);
                }
                proof {
                    let s1 = batch.damage_buffer@.subrange(0, k as int + 1);
                    assert(s1.drop_last() =~= batch.damage_buffer@.subrange(0, k as int));
                    assert(rects@ =~= before + clipped_rects(s1, width, height));
                }
                k = k + 1;
            }
        } else {
            while k < batch.damage_buffer.len()
                invariant
                    0 < i < first_idx,
                    hist == surface.damage_history@,
                    hist[i as int] == *batch,
                    history_ok(hist, first_idx as int),
                    k <= batch.damage_buffer@.len(),
                    width == attachment.buffer_size.0,
                    height == attachment.buffer_size.1,
                    width >= 0 && height >= 0,
                    attachment_ok(*attachment),
                    rects@ == before + reprojected_rects(batch.damage_buffer@.subrange(0, k as int), batch.attachment, *attachment),
                decreases batch.damage_buffer@.len() - k,
            {
                let w = &batch.damage_buffer[k];
                proof {
                    assert(batch.damage_buffer@[k as int] == hist[i as int].damage_buffer@[k as int]);
                }
                let s = inverse_damage_rect_transform(
                    w,
                    batch.attachment.scale,
                    batch.attachment.transform,
                    batch.attachment.viewport_src,
                    batch.attachment.viewport_dst,
                    batch.attachment.buffer_size.0,
                    batch.attachment.buffer_size.1,
                );
                if let Some(s) = s {
                    let r = apply_damage_rect_transform(
                        &s,
                        attachment.scale,
                        attachment.transform,
                        attachment.viewport_src,
                        attachment.viewport_dst,
                        width,
                        height,
                    );
                    if let Some(r) = r {
                        rects.push(r);
                    }
                }
                proof {
                    let s1 = batch.damage_buffer@.subrange(0, k as int + 1);
                    assert(s1.drop_last() =~= batch.damage_buffer@.subrange(0, k as int));
                    assert(rects@ =~= before + reprojected_rects(s1, batch.attachment, *attachment));
                }
                k = k + 1;
            }
        }
        proof {
            assert(batch.damage_buffer@.subrange(0, batch.damage_buffer@.len() as int) =~= batch.damage_buffer@);
        }
        let ghost mid = rects@;
        let mut k: usize = 0;
        while k < batch.damage.len()
            invariant
                i < first_idx,
                hist == surface.damage_history@,
                hist[i as int] == *batch,
                history_ok(hist, first_idx as int),
                k <= batch.damage@.len(),
                width == attachment.buffer_size.0,
                height == attachment.buffer_size.1,
                width >= 0 && height >= 0,
                attachment_ok(*attachment),
                rects@ == mid + transformed_rects(batch.damage@.subrange(0, k as int), *attachment),
            decreases batch.damage@.len() - k,
        {
            proof {
                assert(sizes_nonneg(hist[i as int].damage@));
                assert(batch.damage@[k as int] == hist[i as int].damage@[k as int]);
            }
            let r = apply_damage_rect_transform(
                &batch.damage[k],
                attachment.scale,
                attachment.transform,
                attachment.viewport_src,
                attachment.viewport_dst,
                width,
                height,
            );
            if let Some(r) = r {
                rects.push(r);
            }
            proof {
                let s1 = batch.damage@.subrange(0, k as int + 1);
                assert(s1.drop_last() =~= batch.damage@.subrange(0, k as int));
                assert(rects@ =~= mid + transformed_rects(s1, *attachment));
            }
            k = k + 1;
        }
        proof {
            assert(batch.damage@.subrange(0, batch.damage@.len() as int) =~= batch.damage@);
            assert(rects@ =~= history_rects(hist, *attachment, i as int + 1));
        }
        i = i + 1;
    }
    rects
}

/// One plane of a pixel format: bytes per texel block, horizontal and vertical
/// subsampling, and the texel block's width and height in pixels. All are positive.
#[derive(Clone, Copy, Debug)]
pub struct ShmPlaneLayout {
    pub bpt: u32,
    pub hsub: u32,
    pub vsub: u32,
    pub htex: u32,
    pub vtex: u32,
}

/// The linear layout of a pixel format: its planes, in order.
#[derive(Clone, Debug)]
pub struct ShmFormatLayout {
    pub planes: Vec<ShmPlaneLayout>,
}

/// A format has at least one plane, and every quantity of every plane is positive.
pub open spec fn layout_ok(l: &ShmFormatLayout) -> bool {
    &&& l.planes@.len() > 0
    &&& forall|k: int|
        0 <= k < l.planes@.len() ==> {
            let p = #[trigger] l.planes@[k];
            p.bpt > 0 && p.hsub > 0 && p.vsub > 0 && p.htex > 0 && p.vtex > 0
        }
}

/// A buffer made from a shared-memory pool.
#[derive(Clone, Copy, Debug)]
pub struct ObjWlBufferShm {
    pub width: i32,
    pub height: i32,
    pub format: u32,
    pub offset: i32,
    pub stride: i32,
}

/// The bytes that plane `k` spans, saturated to `u32`.
pub open spec fn plane_bytes(planes: Seq<ShmPlaneLayout>, stride: int, height: int, k: int) -> int {
    let p0 = planes[0];
    let p = planes[k];
    let ext_stride = stride * p0.hsub;
    let plane_stride = ceil_div(ext_stride * p.bpt, p0.bpt * p.hsub);
    let plane_height = ceil_div(height, p.vsub as int);
    min_int(plane_height * plane_stride, u32::MAX as int)
}

/// `start` plus the bytes of the first `n` planes, saturated at each step.
pub open spec fn layout_end(start: int, planes: Seq<ShmPlaneLayout>, stride: int, height: int, n: int) -> int
    decreases n,
{
    if n <= 0 {
        start
    } else {
        saturate(layout_end(start, planes, stride, height, n - 1) + plane_bytes(planes, stride, height, n - 1))
    }
}

/// Where the buffer ends: after its planes when the format's layout is known, else after
/// `stride * height` bytes.
pub open spec fn buffer_end(buffer: ObjWlBufferShm, layout: Option<&ShmFormatLayout>) -> int {
    let start = (buffer.offset as usize) as int;
    match layout {
        Some(l) => layout_end(start, l.planes@, buffer.stride as int, buffer.height as int, l.planes@.len() as int),
        None => saturate(start + ((sat_i32(buffer.stride * buffer.height) as usize) as int)),
    }
}

/// The span of the whole buffer, widened to multiples of 64 bytes.
pub open spec fn entire_buffer_span(buffer: ObjWlBufferShm, layout: Option<&ShmFormatLayout>) -> (usize, usize) {
    let start = (buffer.offset as usize) as int;
    ((64 * (start / 64)) as usize, round_up(buffer_end(buffer, layout), 64) as usize)
}

/// The inputs on which `damage_for_entire_buffer` is defined: the end, rounded up, fits,
/// and with a known layout the size is nonnegative and the plane strides fit in `u32`.
pub open spec fn entire_buffer_ok(buffer: ObjWlBufferShm, layout: Option<&ShmFormatLayout>) -> bool {
    &&& round_up(buffer_end(buffer, layout), 64) <= usize::MAX
    &&& match layout {
        None => true,
        Some(l) => {
            let planes = l.planes@;
            &&& layout_ok(l)
            &&& buffer.stride >= 0 && buffer.width >= 0 && buffer.height >= 0
            &&& buffer.stride * planes[0].hsub <= u32::MAX
            &&& forall|k: int|
                0 <= k < planes.len() ==> buffer.stride * planes[0].hsub * (#[trigger] planes[k]).bpt <= u32::MAX
                    && planes[0].bpt * planes[k].hsub <= u32::MAX
        },
    }
}

fn sat_mul_u32(a: u32, b: u32) -> (r: u32)
    ensures
        r == min_int(a * b, u32::MAX as int),
{
    proof {
        assert(a as u64 * b as u64 <= 0xffff_ffff * 0xffff_ffffu64) by (nonlinear_arith)
            requires
                a <= 0xffff_ffff,
                b <= 0xffff_ffff,
        ;
    }
    let p: u64 = a as u64 * b as u64;
    if p > u32::MAX as u64 {
        u32::MAX
    } else {
        p as u32
    }
}

fn sat_mul_i32(a: i32, b: i32) -> (r: i32)
    ensures
        r == sat_i32(a * b),
{
    proof {
        assert(-0x8000_0000 * 0x8000_0000 <= a as i64 * b as i64 <= 0x8000_0000 * 0x8000_0000) by (nonlinear_arith)
            requires
                -0x8000_0000 <= a <= 0x7fff_ffff,
                -0x8000_0000 <= b <= 0x7fff_ffff,
        ;
    }
    let p: i64 = a as i64 * b as i64;
    if p > i32::MAX as i64 {
        i32::MAX
    } else if p < i32::MIN as i64 {
        i32::MIN
    } else {
        p as i32
    }
}

fn align64(x: usize) -> (r: usize)
    requires
        round_up(x as int, 64) <= usize::MAX,
    ensures
        r == round_up(x as int, 64),
{
    proof {
        lemma_rounding(x as int, 64);
    }
    if x % 64 == 0 {
        x
    } else {
        x + (64 - x % 64)
    }
}

/// The byte span of the whole buffer, widened to multiples of 64 bytes. With a known
/// layout the planes are counted one after the other; otherwise the buffer is taken to be
/// `stride * height` bytes.
pub fn damage_for_entire_buffer(buffer: &ObjWlBufferShm, layout: Option<&ShmFormatLayout>) -> (r: (usize, usize))
    requires
        entire_buffer_ok(*buffer, layout),
    ensures
        r == entire_buffer_span(*buffer, layout),
{
    let start = buffer.offset as usize;
    let end = if let Some(layout) = layout {
        let mut end = start;
        let p0 = layout.planes[0];
        let ext_stride = (buffer.stride as u32) * p0.hsub;
        let ghost planes = layout.planes@;
        let mut k: usize = 0;
        while k < layout.planes.len()
            invariant
                k <= planes.len(),
                planes == layout.planes@,
                p0 == planes[0],
                entire_buffer_ok(*buffer, Some(layout)),
                ext_stride == buffer.stride * p0.hsub,
                end == layout_end(start as int, planes, buffer.stride as int, buffer.height as int, k as int),
            decreases planes.len() - k,
        {
            let plane = layout.planes[k];
            proof {
                assert(planes[k as int] == plane);
                assert(plane.hsub > 0 && plane.vsub > 0 && p0.bpt > 0);
                assert(p0.bpt * plane.hsub > 0) by (nonlinear_arith)
                    requires
                        p0.bpt > 0,
                        plane.hsub > 0,
                ;
            }
            let plane_stride = div_ceil_u32(ext_stride * plane.bpt, p0.bpt * plane.hsub);
            let plane_height = div_ceil_u32(buffer.height as u32, plane.vsub);
            let bytes = sat_mul_u32(plane_height, plane_stride);
            end = end.saturating_add(bytes as usize);
            k = k + 1;
        }
        end
    } else {
        start.saturating_add(sat_mul_i32(buffer.stride, buffer.height) as usize)
    };
    (64 * (start / 64), align64(end))
}

/// Byte ranges of a shared-memory buffer that changed since it was last committed to
/// `surface`: the whole buffer, widened to multiples of 64 bytes, when the format has no
/// known single-plane layout without subsampling; otherwise ranges, aligned to 64 bytes
/// and at least 128 bytes apart, covering every row of every damaged rectangle.
pub fn get_damage_for_shm(
    shm_info: &ObjWlBufferShm,
    layout: Option<&ShmFormatLayout>,
    surface: &ObjWlSurface,
    attachment: &BufferAttachment,
) -> (r: Vec<(usize, usize)>)
    requires
        match layout {
            Some(l) => layout_ok(l) && if l.planes@.len() == 1 && l.planes@[0].hsub == 1 && l.planes@[0].vsub == 1
                && l.planes@[0].htex == 1 && l.planes@[0].vtex == 1 {
                &&& damage_rects_ok(surface.damage_history@, *attachment)
                &&& shm_info.offset >= 0
                &&& shm_info.stride >= 0
                &&& damage_rects_spec(surface.damage_history@, *attachment).len() > 0 ==> {
                    &&& shm_info.stride > 0
                    &&& forall|i: int| 0 <= i < damage_rects_spec(surface.damage_history@, *attachment).len()
                        ==> rect_fits(
                            #[trigger] damage_rects_spec(surface.damage_history@, *attachment)[i],
                            shm_info.offset as int,
                            shm_info.stride as int,
                            l.planes@[0].bpt as int,
                            6,
                        )
                }
            } else {
                entire_buffer_ok(*shm_info, layout)
            },
            None => entire_buffer_ok(*shm_info, layout),
        },
    ensures
        match layout {
            Some(l) => if l.planes@.len() == 1 && l.planes@[0].hsub == 1 && l.planes@[0].vsub == 1
                && l.planes@[0].htex == 1 && l.planes@[0].vtex == 1 {
                let rects = damage_rects_spec(surface.damage_history@, *attachment);
                &&& exists|sorted: Seq<Rect>|
                    sorted.to_multiset() == rects.to_multiset()
                        && sorted_by_start(sorted, shm_info.offset as int, shm_info.stride as int, l.planes@[0].bpt as int)
                        && r@ == #[trigger] damaged_segments_spec(sorted, 6, 128, shm_info.offset as int, shm_info.stride as int, l.planes@[0].bpt as int)
                &&& segments_valid(r@, 6, 128)
                &&& rects.len() == 0 ==> r@.len() == 0
                &&& forall|i: int| 0 <= i < rects.len() ==> rect_covered(
                    r@,
                    #[trigger] rects[i],
                    shm_info.offset as int,
                    shm_info.stride as int,
                    l.planes@[0].bpt as int,
                )
            } else {
                r@ == seq![entire_buffer_span(*shm_info, layout)]
            },
            None => r@ == seq![entire_buffer_span(*shm_info, layout)],
        },
{
    let l = match layout {
        Some(l) => l,
        None => {
            return vec![damage_for_entire_buffer(shm_info, layout)];
        },
    };
    if l.planes.len() != 1 {
        return vec![damage_for_entire_buffer(shm_info, layout)];
    }
    let p0 = l.planes[0];
    if p0.hsub != 1 || p0.vsub != 1 || p0.htex != 1 || p0.vtex != 1 {
        return vec![damage_for_entire_buffer(shm_info, layout)];
    }
    let bpp = p0.bpt;
    let mut rects = get_damage_rects(surface, attachment);
    let out = compute_damaged_segments(rects.as_mut_slice(), 6, 128, shm_info.offset as usize, shm_info.stride as usize, bpp as usize);
    proof {
        assert(rects@.to_multiset() == damage_rects_spec(surface.damage_history@, *attachment).to_multiset());
        assert(out@ == damaged_segments_spec(rects@, 6, 128, shm_info.offset as int, shm_info.stride as int, bpp as int));
    }
    out
}

/// The single plane of `layout`, when it has exactly one and that plane has no
/// subsampling and one-pixel texel blocks.
pub open spec fn simple_plane(layout: Option<&ShmFormatLayout>) -> Option<ShmPlaneLayout> {
    match layout {
        Some(l) => if l.planes@.len() == 1 && l.planes@[0].hsub == 1 && l.planes@[0].vsub == 1
            && l.planes@[0].htex == 1 && l.planes@[0].vtex == 1 {
            Some(l.planes@[0])
        } else {
            None
        },
        None => None,
    }
}

/// The row stride of a dmabuf: the stride of its view if known, else `width` pixels.
pub open spec fn dmabuf_stride(width: u32, view_row_stride: Option<u32>, bpp: u32) -> int {
    match view_row_stride {
        Some(s) => s as int,
        None => width * bpp,
    }
}

/// Byte ranges of a dmabuf's linear view (of `nom_len` bytes, `width` pixels wide, with
/// format `drm_format` whose layout is `layout`) that changed since it was last committed
/// to `surface`: all of it, rounded up to 64 bytes, when the layout is unknown or not a
/// single plane without subsampling; otherwise ranges, aligned to 64 bytes and at least
/// 128 bytes apart, covering every row of every damaged rectangle.
pub fn get_damage_for_dmabuf(
    nom_len: usize,
    width: u32,
    view_row_stride: Option<u32>,
    drm_format: u32,
    layout: Option<&ShmFormatLayout>,
    surface: &ObjWlSurface,
    attachment: &BufferAttachment,
) -> (r: Vec<(usize, usize)>)
    requires
        drm_format != 0 && drm_format != 1,
        layout matches Some(l) ==> layout_ok(l),
        match simple_plane(layout) {
            Some(p0) => {
                let rects = damage_rects_spec(surface.damage_history@, *attachment);
                let stride = dmabuf_stride(width, view_row_stride, p0.bpt);
                &&& damage_rects_ok(surface.damage_history@, *attachment)
                &&& stride <= u32::MAX
                &&& rects.len() > 0 ==> {
                    &&& stride > 0
                    &&& forall|i: int| 0 <= i < rects.len() ==> rect_fits(#[trigger] rects[i], 0, stride, p0.bpt as int, 6)
                }
            },
            None => round_up(nom_len as int, 64) <= usize::MAX,
        },
    ensures
        match simple_plane(layout) {
            Some(p0) => {
                let rects = damage_rects_spec(surface.damage_history@, *attachment);
                let stride = dmabuf_stride(width, view_row_stride, p0.bpt);
                &&& exists|sorted: Seq<Rect>|
                    sorted.to_multiset() == rects.to_multiset() && sorted_by_start(sorted, 0, stride, p0.bpt as int)
                        && r@ == #[trigger] damaged_segments_spec(sorted, 6, 128, 0, stride, p0.bpt as int)
                &&& segments_valid(r@, 6, 128)
                &&& rects.len() == 0 ==> r@.len() == 0
                &&& forall|i: int| 0 <= i < rects.len() ==> rect_covered(r@, #[trigger] rects[i], 0, stride, p0.bpt as int)
            },
            None => r@ == seq![(0usize, round_up(nom_len as int, 64) as usize)],
        },
{
    let l = match layout {
        Some(l) => l,
        None => {
            return vec![(0, align64(nom_len))];
        },
    };
    if l.planes.len() != 1 {
        return vec![(0, align64(nom_len))];
    }
    let p0 = l.planes[0];
    if p0.hsub != 1 || p0.vsub != 1 || p0.htex != 1 || p0.vtex != 1 {
        return vec![(0, align64(nom_len))];
    }
    let bpp = p0.bpt;
    let mut rects = get_damage_rects(surface, attachment);
    let stride: u32 = match view_row_stride {
        Some(s) => s,
        None => width * bpp,
    };
    let out = compute_damaged_segments(rects.as_mut_slice(), 6, 128, 0, stride as usize, bpp as usize);
    proof {
        assert(rects@.to_multiset() == damage_rects_spec(surface.damage_history@, *attachment).to_multiset());
        assert(out@ == damaged_segments_spec(rects@, 6, 128, 0, stride as int, bpp as int));
    }
    out
}

/// Common factors cancel in a quotient and in a quotient rounded up.
proof fn lemma_cancel(x: int, y: int, k: int)
    requires
        x >= 0,
        y > 0,
        k > 0,
    ensures
        (x * k) / (y * k) == x / y,
        ceil_div(x * k, y * k) == ceil_div(x, y),
{
    vstd::arithmetic::div_mod::lemma_fundamental_div_mod(x, y);
    vstd::arithmetic::div_mod::lemma_mod_bound(x, y);
    let q = x / y;
    let r = x % y;
    assert(x * k == q * (y * k) + r * k) by (nonlinear_arith)
        requires
            x == y * q + r,
    ;
    assert(0 <= r * k < y * k) by (nonlinear_arith)
        requires
            0 <= r < y,
            k > 0,
    ;
    vstd::arithmetic::div_mod::lemma_fundamental_div_mod_converse(x * k, y * k, q, r * k);
    assert(r * k == 0 <==> r == 0) by (nonlinear_arith)
        requires
            k > 0,
    ;
}

/// Along one axis of the viewport's view, without a viewport source: mapping buffer
/// damage `q1..q2` (in a buffer `e` pixels long, mirrored if `flip`, scale `k`, viewport
/// destination `d` for a view `bs` pixels long) to the surface and back gives a range that
/// contains `q1..q2`. Also, the surface range lies in `0..d` and is nonempty.
proof fn lemma_axis_roundtrip(q1: int, q2: int, e: int, k: int, bs: int, d: int, flip: bool)
    requires
        0 <= q1 < q2 <= e,
        k > 0,
        bs == e / k,
        bs > 0,
        d > 0,
        ceil_div(if flip { e - q1 } else { q2 }, k) <= bs,
    ensures
        ({
            let u1 = if flip { e - q2 } else { q1 };
            let u2 = if flip { e - q1 } else { q2 };
            let p1 = u1 / k;
            let p2 = ceil_div(u2, k);
            let xl = (p1 * 256 * d) / (bs * 256);
            let xh = ceil_div(p2 * 256 * d, bs * 256);
            let v1 = (xl * bs / d) * k;
            let v2 = ceil_div(xh * bs, d) * k;
            &&& 0 <= xl < xh <= d
            &&& (if flip { e - v2 } else { v1 }) <= q1
            &&& q2 <= (if flip { e - v1 } else { v2 })
        }),
{
    let u1 = if flip { e - q2 } else { q1 };
    let u2 = if flip { e - q1 } else { q2 };
    let p1 = u1 / k;
    let p2 = ceil_div(u2, k);
    assert(0 <= u1 < u2 <= e);
    lemma_ceil_div(u2, k);
    lemma_ceil_div(u1, k);
    vstd::arithmetic::div_mod::lemma_fundamental_div_mod(u1, k);
    vstd::arithmetic::div_mod::lemma_mod_bound(u1, k);
    assert(p1 * k <= u1) by (nonlinear_arith)
        requires
            u1 == k * p1 + u1 % k,
            u1 % k >= 0,
    ;
    assert(p2 * k >= u2);
    assert(p1 < p2) by (nonlinear_arith)
        requires
            p1 * k <= u1,
            u1 < u2,
            p2 * k >= u2,
            k > 0,
    ;
    assert(0 <= p1);
    // The surface range.
    assert(p1 * 256 * d == (p1 * d) * 256 && bs * 256 == bs * 256) by (nonlinear_arith);
    assert(p2 * 256 * d == (p2 * d) * 256) by (nonlinear_arith);
    assert(p1 * d >= 0 && p2 * d >= 0) by (nonlinear_arith)
        requires
            p1 >= 0,
            p2 >= 0,
            d > 0,
    ;
    lemma_cancel(p1 * d, bs, 256);
    lemma_cancel(p2 * d, bs, 256);
    let xl = (p1 * d) / bs;
    let xh = ceil_div(p2 * d, bs);
    assert((p1 * 256 * d) / (bs * 256) == xl);
    assert(ceil_div(p2 * 256 * d, bs * 256) == xh);
    lemma_scaled(p1, p2, bs, d);
    lemma_floor_below_ceil(p1, p2, bs, d);
    lemma_scaled(p2, p2, bs, d);
    // Back to the buffer: the rounding goes outwards at each step.
    vstd::arithmetic::div_mod::lemma_fundamental_div_mod(p1 * d, bs);
    vstd::arithmetic::div_mod::lemma_mod_bound(p1 * d, bs);
    assert(xl * bs <= p1 * d) by (nonlinear_arith)
        requires
            p1 * d == bs * xl + (p1 * d) % bs,
            (p1 * d) % bs >= 0,
    ;
    lemma_ceil_div(p2 * d, bs);
    assert(xh * bs >= p2 * d);
    assert(xl * bs >= 0 && xh * bs >= 0) by (nonlinear_arith)
        requires
            xl >= 0,
            xh >= 0,
            bs > 0,
    ;
    let r1 = xl * bs / d;
    let r2 = ceil_div(xh * bs, d);
    vstd::arithmetic::div_mod::lemma_fundamental_div_mod(xl * bs, d);
    vstd::arithmetic::div_mod::lemma_mod_bound(xl * bs, d);
    assert(r1 <= p1) by (nonlinear_arith)
        requires
            xl * bs == d * r1 + (xl * bs) % d,
            (xl * bs) % d >= 0,
            xl * bs <= p1 * d,
            d > 0,
    ;
    lemma_ceil_div(xh * bs, d);
    assert(r2 >= p2) by (nonlinear_arith)
        requires
            r2 * d >= xh * bs,
            xh * bs >= p2 * d,
            d > 0,
    ;
    assert(r1 * k <= p1 * k && r2 * k >= p2 * k) by (nonlinear_arith)
        requires
            r1 <= p1,
            r2 >= p2,
            k > 0,
    ;
}

/// Along one axis of a buffer `e` pixels long whose length is a multiple of the scale `k`,
/// a nonempty range `lo..hi` scales to a nonempty range inside `0..e / k`.
proof fn lemma_axis_scaled_inside(lo: int, hi: int, e: int, k: int)
    requires
        0 <= lo < hi <= e,
        k > 0,
        e % k == 0,
    ensures
        0 <= lo / k,
        lo / k < ceil_div(hi, k),
        ceil_div(hi, k) <= e / k,
{
    lemma_ceil_div(hi, k);
    lemma_ceil_div(lo, k);
    vstd::arithmetic::div_mod::lemma_fundamental_div_mod(lo, k);
    vstd::arithmetic::div_mod::lemma_mod_bound(lo, k);
    vstd::arithmetic::div_mod::lemma_fundamental_div_mod(e, k);
    let c = ceil_div(hi, k);
    let q = lo / k;
    let qe = e / k;
    assert(q * k <= lo) by (nonlinear_arith)
        requires
            lo == k * q + lo % k,
            lo % k >= 0,
    ;
    assert(q < c) by (nonlinear_arith)
        requires
            q * k <= lo,
            lo < hi,
            c * k >= hi,
            k > 0,
    ;
    assert(c <= qe) by (nonlinear_arith)
        requires
            (c - 1) * k < hi || hi == 0,
            hi > 0,
            hi <= e,
            e == k * qe,
            k > 0,
    ;
}

/// Buffer damage is never lost between commits: without a viewport, for a buffer whose
/// sides are multiples of the scale, mapping a damaged rectangle inside the buffer to the
/// surface and back under the same scale and transform gives a rectangle that contains it.
pub proof fn lemma_damage_roundtrip_no_viewport(r: Rect, scale: u32, t: WlOutputTransform, width: i32, height: i32)
    requires
        width > 0,
        height > 0,
        scale_ok(scale),
        (width as int) % (scale as int) == 0,
        (height as int) % (scale as int) == 0,
        r.x1 < r.x2 <= width,
        r.y1 < r.y2 <= height,
    ensures
        ({
            let a = WlRect { x: r.x1 as i32, y: r.y1 as i32, width: (r.x2 - r.x1) as i32, height: (r.y2 - r.y1) as i32 };
            match inverse_damage_spec(a, scale, t, None, None, width, height) {
                Some(s) => s.width >= 0 && s.height >= 0 && match damage_transform_spec(s, scale, t, None, None, width, height) {
                    Some(q) => q.x1 <= r.x1 && r.x2 <= q.x2 && q.y1 <= r.y1 && r.y2 <= q.y2,
                    None => false,
                },
                None => false,
            }
        }),
{
    let a = WlRect { x: r.x1 as i32, y: r.y1 as i32, width: (r.x2 - r.x1) as i32, height: (r.y2 - r.y1) as i32 };
    let k = scale as int;
    assert(clip_spec(a, width as int, height as int) == Some(r));
    let sw = swaps_xy(t);
    let ew = if sw { height as int } else { width as int };
    let eh = if sw { width as int } else { height as int };
    let (x1, x2, y1, y2) = if sw {
        (r.y1 as int, r.y2 as int, r.x1 as int, r.x2 as int)
    } else {
        (r.x1 as int, r.x2 as int, r.y1 as int, r.y2 as int)
    };
    let (y1b, y2b) = if flips_y(t) { (eh - y2, eh - y1) } else { (y1, y2) };
    let (x1b, x2b) = if flips_x(t) { (ew - x2, ew - x1) } else { (x1, x2) };
    lemma_axis_scaled_inside(x1b, x2b, ew, k);
    lemma_axis_scaled_inside(y1b, y2b, eh, k);
    vstd::arithmetic::div_mod::lemma_div_is_ordered_by_denominator(ew, 1, k);
    vstd::arithmetic::div_mod::lemma_div_is_ordered_by_denominator(eh, 1, k);
    assert(inverse_damage_ok(a, scale, t, None, None, width, height));
    lemma_reprojection_covers(a, scale, t, None, width, height);
}

/// Without a viewport source, mapping buffer damage to the surface and back under the
/// same attachment gives a rectangle that contains the part of the damage inside the
/// buffer: carrying damage over between commits loses none of it.
#[verifier::spinoff_prover]
pub proof fn lemma_reprojection_covers(
    a: WlRect,
    scale: u32,
    t: WlOutputTransform,
    dst: Option<(i32, i32)>,
    width: i32,
    height: i32,
)
    requires
        inverse_damage_ok(a, scale, t, None, dst, width, height),
        clip_spec(a, width as int, height as int) is Some,
    ensures
        match (inverse_damage_spec(a, scale, t, None, dst, width, height), clip_spec(a, width as int, height as int)) {
            (Some(s), Some(c)) => s.width >= 0 && s.height >= 0 && match damage_transform_spec(
                s,
                scale,
                t,
                None,
                dst,
                width,
                height,
            ) {
                Some(b) => b.x1 <= c.x1 && c.x2 <= b.x2 && b.y1 <= c.y1 && c.y2 <= b.y2,
                None => false,
            },
            _ => false,
        },
{
    let k = scale as int;
    let xl0 = clamp_int(a.x as int, 0, width as int);
    let xh0 = clamp_int(sat_i32(a.x + a.width), 0, width as int);
    let yl0 = clamp_int(a.y as int, 0, height as int);
    let yh0 = clamp_int(sat_i32(a.y + a.height), 0, height as int);
    let sw = swaps_xy(t);
    let ew = if sw { height as int } else { width as int };
    let eh = if sw { width as int } else { height as int };
    let (qx1, qx2) = if sw { (yl0, yh0) } else { (xl0, xh0) };
    let (qy1, qy2) = if sw { (xl0, xh0) } else { (yl0, yh0) };
    let pre = pre_viewport_size(scale, t, width, height);
    assert(pre.0 == ew / k && pre.1 == eh / k);
    let b = inverse_scaled_rect(a, scale, t, width, height)->0;
    let ux2 = if flips_x(t) { ew - qx1 } else { qx2 };
    let uy2 = if flips_y(t) { eh - qy1 } else { qy2 };
    lemma_ceil_div(ux2, k);
    lemma_ceil_div(uy2, k);
    assert(b.x2 == ceil_div(ux2, k));
    assert(b.y2 == ceil_div(uy2, k));
    let d = vp_dest(pre, None, dst);
    lemma_axis_roundtrip(qx1, qx2, ew, k, pre.0 as int, d.0, flips_x(t));
    lemma_axis_roundtrip(qy1, qy2, eh, k, pre.1 as int, d.1, flips_y(t));
    // The surface rectangle.
    let xl = (b.x1 * 256 * d.0) / (pre.0 * 256);
    let xh = ceil_div(b.x2 * 256 * d.0, pre.0 * 256);
    let yl = (b.y1 * 256 * d.1) / (pre.1 * 256);
    let yh = ceil_div(b.y2 * 256 * d.1, pre.1 * 256);
    let sr = WlRect { x: xl as i32, y: yl as i32, width: (xh - xl) as i32, height: (yh - yl) as i32 };
    assert(inverse_damage_spec(a, scale, t, None, dst, width, height) == Some(sr));
    // Back to the buffer.
    assert(clamp_int(sr.x as int, 0, d.0) == xl);
    assert(clamp_int(sat_i32(sr.x + sr.width), 0, d.0) == xh);
    assert(clamp_int(sr.y as int, 0, d.1) == yl);
    assert(clamp_int(sat_i32(sr.y + sr.height), 0, d.1) == yh);
    let r1 = xl * pre.0 / d.0;
    let r2 = ceil_div(xh * pre.0, d.0);
    let s1 = yl * pre.1 / d.1;
    let s2 = ceil_div(yh * pre.1, d.1);
    lemma_scaled(xl, xh, d.0, pre.0 as int);
    lemma_scaled(xh, xh, d.0, pre.0 as int);
    lemma_scaled(yl, yh, d.1, pre.1 as int);
    lemma_scaled(yh, yh, d.1, pre.1 as int);
    let b2 = Rect { x1: r1 as u32, x2: r2 as u32, y1: s1 as u32, y2: s2 as u32 };
    assert(viewport_spec(sr, pre, None, dst) == Some(b2));
    assert(damage_transform_spec(sr, scale, t, None, dst, width, height) == Some(untransform_rect(b2, scale, t, width, height)));
    assert(r2 * k <= ew && s2 * k <= eh) by (nonlinear_arith)
        requires
            r2 <= pre.0,
            s2 <= pre.1,
            pre.0 == ew / k,
            pre.1 == eh / k,
            k > 0,
            ew >= 0,
            eh >= 0,
    ;
    assert(0 <= r1 * k && 0 <= s1 * k) by (nonlinear_arith)
        requires
            r1 >= 0,
            s1 >= 0,
            k > 0,
    ;
}

} // verus!
