//! Copy regions between a linear buffer and an image: a byte range of the image's linear
//! layout becomes up to three rectangles of whole pixels (a partial first row, a block of
//! full rows, a partial last row).
use vstd::prelude::*;

verus! {

/// A rectangle of pixels copied between a buffer and an image: the pixels at columns
/// `x..x + width` of rows `y..y + height` of the image, stored in the buffer from byte
/// `buffer_offset` on, `buffer_row_length` pixels per row.
#[derive(Clone, Copy, Debug, PartialEq, Eq, Structural)]
pub struct CopyRegion {
    pub buffer_offset: u64,
    pub buffer_row_length: u32,
    pub x: i32,
    pub y: i32,
    pub width: u32,
    pub height: u32,
}

/// The row stride: that of the view, else `width * bpp`.
pub open spec fn row_len(view_row_length: Option<u32>, width: u32, bpp: u32) -> int {
    match view_row_length {
        Some(r) => r as int,
        None => width * bpp,
    }
}

/// Where a segment's pieces lie: its first and last row, the first pixel of its first
/// row and one past the last pixel of its last row, and the buffer offset of its first
/// pixel, after moving a start past the image's width to the next row and clipping the
/// end to the width.
pub struct SegmentPlan {
    pub offset: int,
    pub start_row: int,
    pub end_row: int,
    pub start_pos: int,
    pub end_pos: int,
}

pub open spec fn plan(seg: (u32, u32, u32), l: int, b: int, w: int) -> SegmentPlan {
    let so = seg.0 as int;
    let start = seg.1 as int;
    let end = seg.2 as int;
    let start_row = start / l;
    let end_row = (end - 1) / l;
    let start_pos = (start % l) / b;
    let end_pos = 1 + ((end - 1) % l) / b;
    let wraps = start_pos >= w;
    SegmentPlan {
        offset: if wraps { so + (l - start_pos * b) } else { so },
        start_row: if wraps { start_row + 1 } else { start_row },
        end_row,
        start_pos: if wraps { 0 } else { start_pos },
        end_pos: if end_pos > w { w } else { end_pos },
    }
}

/// The segment covers no whole pixel of the image.
pub open spec fn plan_empty(p: SegmentPlan) -> bool {
    p.start_row > p.end_row || (p.start_row == p.end_row && p.start_pos >= p.end_pos)
}

/// The first row and buffer offset of the block of full rows.
pub open spec fn mid_start(p: SegmentPlan, l: int, b: int) -> (int, int) {
    if p.start_pos == 0 {
        (p.start_row, p.offset)
    } else {
        (p.start_row + 1, p.offset + (l - p.start_pos * b))
    }
}

/// The last row of the block of full rows.
pub open spec fn mid_end(p: SegmentPlan, w: int) -> int {
    if p.end_pos >= w {
        p.end_row
    } else {
        p.end_row - 1
    }
}

pub open spec fn region(offset: int, l: int, b: int, x: int, y: int, width: int, height: int) -> CopyRegion {
    CopyRegion {
        buffer_offset: offset as u64,
        buffer_row_length: (l / b) as u32,
        x: x as i32,
        y: y as i32,
        width: width as u32,
        height: height as u32,
    }
}

/// The regions that copy segment `seg`: (buffer offset, first byte, end byte) of the
/// image's linear layout with row stride `l`, `b` bytes per pixel, `w` pixels per row.
pub open spec fn segment_regions(seg: (u32, u32, u32), l: int, b: int, w: int) -> Seq<CopyRegion> {
    let p = plan(seg, l, b, w);
    if plan_empty(p) {
        Seq::empty()
    } else if p.start_row == p.end_row {
        seq![region(p.offset, l, b, p.start_pos, p.start_row, p.end_pos - p.start_pos, 1)]
    } else {
        let (ms, mrs) = mid_start(p, l, b);
        let me = mid_end(p, w);
        (if p.start_pos > 0 {
            seq![region(p.offset, l, b, p.start_pos, p.start_row, w - p.start_pos, 1)]
        } else {
            Seq::empty()
        }) + (if me >= ms {
            seq![region(mrs, l, b, 0, ms, w, me + 1 - ms)]
        } else {
            Seq::empty()
        }) + (if p.end_pos < w {
            seq![region(mrs + l * (me + 1 - ms), l, b, 0, p.end_row, p.end_pos, 1)]
        } else {
            Seq::empty()
        })
    }
}

/// The regions for the first `n` segments, in order.
pub open spec fn all_regions(segs: Seq<(u32, u32, u32)>, l: int, b: int, w: int, n: int) -> Seq<CopyRegion>
    decreases n,
{
    if n <= 0 {
        Seq::empty()
    } else {
        all_regions(segs, l, b, w, n - 1) + segment_regions(segs[n - 1], l, b, w)
    }
}

/// The segment ends after it starts, both ends fall on pixel boundaries, and the offsets
/// computed for its pieces fit in 32 bits.
pub open spec fn segment_ok(seg: (u32, u32, u32), l: int, b: int, w: int) -> bool {
    let start = seg.1 as int;
    let end = seg.2 as int;
    let p = plan(seg, l, b, w);
    &&& end >= 1
    &&& (start % l) % b == 0
    &&& (end % l) % b == 0
    &&& p.offset <= u32::MAX
    &&& p.start_row <= u32::MAX
    &&& !plan_empty(p) && p.start_row < p.end_row ==> {
        let (ms, mrs) = mid_start(p, l, b);
        let me = mid_end(p, w);
        &&& mrs <= u32::MAX
        &&& p.end_pos < w ==> mrs + l * (me + 1 - ms) <= u32::MAX
    }
}

/// The inputs on which `make_copy_regions` is defined: a positive pixel size, a row
/// stride that holds a row of pixels and is a whole number of pixels, and segments that
/// `segment_ok` accepts.
pub open spec fn copy_regions_ok(segs: Seq<(u32, u32, u32)>, bpp: u32, view_row_length: Option<u32>, width: u32) -> bool {
    let l = row_len(view_row_length, width, bpp);
    &&& bpp > 0
    &&& width * bpp <= u32::MAX
    &&& l >= width * bpp
    &&& l % (bpp as int) == 0
    &&& segs.len() > 0 ==> l > 0
    &&& forall|i: int| 0 <= i < segs.len() ==> segment_ok(#[trigger] segs[i], l, bpp as int, width as int)
}

/// The regions that copy each segment (buffer offset, first byte, end byte of the image's
/// linear layout) between the buffer and an image `width` pixels wide with `bpp` bytes per
/// pixel, whose rows are `view_row_length` bytes apart (else `width * bpp`).
pub fn make_copy_regions(
    segments: &[(u32, u32, u32)],
    bpp: u32,
    view_row_length: Option<u32>,
    width: u32,
) -> (regions: Vec<CopyRegion>)
    requires
        copy_regions_ok(segments@, bpp, view_row_length, width),
    ensures
        regions@ == all_regions(
            segments@,
            row_len(view_row_length, width, bpp),
            bpp as int,
            width as int,
            segments@.len() as int,
        ),
{
    let packed = width * bpp;
    let row_length = match view_row_length {
        Some(r) => r,
        None => packed,
    };
    let ghost l = row_length as int;
    let ghost b = bpp as int;
    let ghost w = width as int;
    let buffer_row_length = row_length / bpp;
    let mut regions: Vec<CopyRegion> = Vec::new();
    let mut i: usize = 0;
    while i < segments.len()
        invariant
            i <= segments@.len(),
            l == row_length,
            l == row_len(view_row_length, width, bpp),
            b == bpp,
            w == width,
            buffer_row_length == l / b,
            copy_regions_ok(segments@, bpp, view_row_length, width),
            regions@ == all_regions(segments@, l, b, w, i as int),
        decreases segments@.len() - i,
    {
        let seg = segments[i];
        let (mut source_offset, start, end) = seg;
        proof {
            assert(segment_ok(segments@[i as int], l, b, w));
            assert(l > 0);
            lemma_pos_in_row(start as int, l, b);
            lemma_pos_in_row(end - 1, l, b);
        }
        let ghost p = plan(seg, l, b, w);
        let ghost before = regions@;
        let mut start_row = start / row_length;
        let end_row = (end - 1) / row_length;
        let mut start_pos = (start % row_length) / bpp;
        let mut end_pos = 1 + ((end - 1) % row_length) / bpp;
        if start_pos >= width {
            source_offset = source_offset + (row_length - start_pos * bpp);
            start_pos = 0;
            start_row = start_row + 1;
        }
        if end_pos > width {
            end_pos = width;
        }
        proof {
            assert(source_offset == p.offset && start_row == p.start_row && end_row == p.end_row);
            assert(start_pos == p.start_pos && end_pos == p.end_pos);
        }
        if start_row > end_row || (start_row == end_row && start_pos >= end_pos) {
            proof {
                assert(regions@ =~= all_regions(segments@, l, b, w, i as int + 1));
            }
            i = i + 1;
            continue;
        }
        if start_row == end_row {
            regions.push(CopyRegion {
                buffer_offset: source_offset as u64,
                buffer_row_length,
                x: start_pos as i32,
                y: start_row as i32,
                width: end_pos - start_pos,
                height: 1,
            });
        } else {
            let (mid_start, mid_row_start): (u32, u32) = if start_pos == 0 {
                (start_row, source_offset)
            } else {
                (start_row + 1, source_offset + (row_length - start_pos * bpp))
            };
            let mid_end = if end_pos >= width { end_row } else { end_row - 1 };
            if start_pos > 0 {
                regions.push(CopyRegion {
                    buffer_offset: source_offset as u64,
                    buffer_row_length,
                    x: start_pos as i32,
                    y: start_row as i32,
                    width: width - start_pos,
                    height: 1,
                });
            }
            if mid_end >= mid_start {
                regions.push(CopyRegion {
                    buffer_offset: mid_row_start as u64,
                    buffer_row_length,
                    x: 0,
                    y: mid_start as i32,
                    width,
                    height: mid_end + 1 - mid_start,
                });
            }
            if end_pos < width {
                let adv2 = mid_row_start + (row_length * (mid_end + 1 - mid_start));
                regions.push(CopyRegion {
                    buffer_offset: adv2 as u64,
                    buffer_row_length,
                    x: 0,
                    y: end_row as i32,
                    width: end_pos,
                    height: 1,
                });
            }
        }
        proof {
            assert(regions@ =~= before + segment_regions(seg, l, b, w));
            assert(segments@[i as int] == seg);
        }
        i = i + 1;
    }
    regions
}

/// The pixel position of byte `v` within its row is below the row's width in pixels.
proof fn lemma_pos_in_row(v: int, l: int, b: int)
    requires
        v >= 0,
        l > 0,
        b > 0,
        l % b == 0,
    ensures
        0 <= v % l < l,
        0 <= (v % l) / b,
        (v % l) / b * b <= v % l,
        (v % l) / b < l / b,
        1 + (v % l) / b <= l / b,
        v / l >= 0,
{
    vstd::arithmetic::div_mod::lemma_mod_bound(v, l);
    vstd::arithmetic::div_mod::lemma_div_pos_is_pos(v, l);
    vstd::arithmetic::div_mod::lemma_fundamental_div_mod(v % l, b);
    vstd::arithmetic::div_mod::lemma_mod_bound(v % l, b);
    vstd::arithmetic::div_mod::lemma_fundamental_div_mod(l, b);
    vstd::arithmetic::div_mod::lemma_div_pos_is_pos(v % l, b);
    assert((v % l) / b < l / b) by (nonlinear_arith)
        requires
            v % l == b * ((v % l) / b) + (v % l) % b,
            0 <= (v % l) % b,
            l == b * (l / b),
            v % l < l,
            b > 0,
    ;
    assert((v % l) / b * b <= v % l) by (nonlinear_arith)
        requires
            v % l == b * ((v % l) / b) + (v % l) % b,
            0 <= (v % l) % b,
    ;
}

/// Pixel `(x, y)` lies in region `r`.
pub open spec fn in_region(r: CopyRegion, x: int, y: int) -> bool {
    r.x <= x < r.x + r.width && r.y <= y < r.y + r.height
}

/// The buffer byte where region `r` keeps pixel `(x, y)`, with `b` bytes per pixel.
pub open spec fn region_byte(r: CopyRegion, b: int, x: int, y: int) -> int {
    r.buffer_offset + (y - r.y) * (r.buffer_row_length * b) + (x - r.x) * b
}

/// Pixel `(x, y)` of an image `w` pixels wide lies in the bytes `seg.1..seg.2` of its
/// linear layout (row stride `l`, `b` bytes per pixel).
pub open spec fn in_segment(seg: (u32, u32, u32), l: int, b: int, w: int, x: int, y: int) -> bool {
    0 <= x < w && 0 <= y && seg.1 <= y * l + x * b < seg.2
}

/// The buffer byte where segment `seg` keeps pixel `(x, y)`: its byte in the image's
/// layout, moved from `seg.1` to `seg.0`.
pub open spec fn segment_byte(seg: (u32, u32, u32), l: int, b: int, x: int, y: int) -> int {
    seg.0 + y * l + x * b - seg.1
}

/// Comparing byte positions of row-major layouts compares rows first, then positions in
/// the row.
proof fn lemma_lex(y: int, xb: int, r: int, rem: int, l: int)
    requires
        l > 0,
        0 <= xb < l,
        0 <= rem < l,
    ensures
        (y * l + xb >= r * l + rem) <==> (y > r || (y == r && xb >= rem)),
{
    if y > r {
        assert(y * l >= r * l + l) by (nonlinear_arith)
            requires
                y >= r + 1,
                l > 0,
        ;
    } else if y < r {
        assert(r * l >= y * l + l) by (nonlinear_arith)
            requires
                r >= y + 1,
                l > 0,
        ;
    }
}

/// `x * b` compared with a multiple of `b`.
proof fn lemma_scale_order(x: int, k: int, b: int)
    requires
        b > 0,
    ensures
        (x * b >= k * b) <==> x >= k,
        (x * b <= k * b) <==> x <= k,
{
    if x >= k {
        assert(x * b >= k * b) by (nonlinear_arith)
            requires
                x >= k,
                b > 0,
        ;
    } else {
        assert(x * b < k * b) by (nonlinear_arith)
            requires
                x < k,
                b > 0,
        ;
    }
    if x <= k {
        assert(x * b <= k * b) by (nonlinear_arith)
            requires
                x <= k,
                b > 0,
        ;
    } else {
        assert(x * b > k * b) by (nonlinear_arith)
            requires
                x > k,
                b > 0,
        ;
    }
}

/// The regions of a segment copy exactly the whole pixels of the image that lie in the
/// segment, no pixel twice, and each keeps every such pixel at the same buffer byte as the
/// segment does.
pub proof fn lemma_segment_regions_exact(seg: (u32, u32, u32), l: int, b: int, w: int)
    requires
        b > 0,
        l > 0,
        l % b == 0,
        0 <= w,
        w * b <= l,
        w <= i32::MAX,
        (seg.2 - 1) / l + 1 <= i32::MAX,
        l <= u32::MAX,
        segment_ok(seg, l, b, w),
    ensures
        forall|x: int, y: int|
            #![trigger in_segment(seg, l, b, w, x, y)]
            in_segment(seg, l, b, w, x, y) <==> exists|i: int|
                0 <= i < segment_regions(seg, l, b, w).len() && in_region(#[trigger] segment_regions(seg, l, b, w)[i], x, y),
        forall|i: int, x: int, y: int|
            0 <= i < segment_regions(seg, l, b, w).len() && #[trigger] in_region(segment_regions(seg, l, b, w)[i], x, y)
                ==> region_byte(segment_regions(seg, l, b, w)[i], b, x, y) == segment_byte(seg, l, b, x, y),
        forall|i: int, j: int, x: int, y: int|
            0 <= i < j < segment_regions(seg, l, b, w).len() ==> !(#[trigger] in_region(segment_regions(seg, l, b, w)[i], x, y)
                && #[trigger] in_region(segment_regions(seg, l, b, w)[j], x, y)),
{
    let so = seg.0 as int;
    let s = seg.1 as int;
    let e = seg.2 as int;
    let p = plan(seg, l, b, w);
    let regs = segment_regions(seg, l, b, w);
    let sr0 = s / l;
    let sp0 = (s % l) / b;
    let er = (e - 1) / l;
    let ep0 = 1 + ((e - 1) % l) / b;
    lemma_pos_in_row(s, l, b);
    lemma_pos_in_row(e - 1, l, b);
    vstd::arithmetic::div_mod::lemma_fundamental_div_mod(s, l);
    vstd::arithmetic::div_mod::lemma_fundamental_div_mod(e - 1, l);
    vstd::arithmetic::div_mod::lemma_fundamental_div_mod(s % l, b);
    vstd::arithmetic::div_mod::lemma_fundamental_div_mod((e - 1) % l, b);
    vstd::arithmetic::div_mod::lemma_fundamental_div_mod(l, b);
    vstd::arithmetic::div_mod::lemma_mod_bound((e - 1) % l, b);
    assert(s % l == sp0 * b) by (nonlinear_arith)
        requires
            s % l == b * ((s % l) / b) + (s % l) % b,
            (s % l) % b == 0,
            sp0 == (s % l) / b,
    ;
    assert(l / b * b == l) by (nonlinear_arith)
        requires
            l == b * (l / b) + l % b,
            l % b == 0,
    ;
    assert(s == sr0 * l + sp0 * b) by (nonlinear_arith)
        requires
            s == l * (s / l) + s % l,
            s % l == sp0 * b,
            sr0 == s / l,
    ;
    assert(e - 1 == er * l + (e - 1) % l) by (nonlinear_arith)
        requires
            e - 1 == l * ((e - 1) / l) + (e - 1) % l,
            er == (e - 1) / l,
    ;
    // Membership in the segment, as lexicographic bounds on (row, column).
    assert forall|x: int, y: int| 0 <= x < w && 0 <= y implies (in_segment(seg, l, b, w, x, y) <==> (
        (y > p.start_row || (y == p.start_row && x >= p.start_pos))
        && (y < p.end_row || (y == p.end_row && x < p.end_pos)))) by {
        assert(0 <= x * b && x * b + b <= w * b) by (nonlinear_arith)
            requires
                0 <= x < w,
                b > 0,
        ;
        let pos = y * l + x * b;
        lemma_lex(y, x * b, sr0, s % l, l);
        assert((pos >= s) <==> (y > sr0 || (y == sr0 && x * b >= sp0 * b)));
        lemma_scale_order(x, sp0, b);
        assert((pos >= s) <==> (y > sr0 || (y == sr0 && x >= sp0)));
        lemma_lex(er, (e - 1) % l, y, x * b, l);
        assert((pos <= e - 1) <==> (er > y || (er == y && (e - 1) % l >= x * b)));
        let q = ((e - 1) % l) / b;
        lemma_scale_order(x, q, b);
        lemma_scale_order(x, q + 1, b);
        assert((x * b <= (e - 1) % l) <==> x <= q) by (nonlinear_arith)
            requires
                b > 0,
                (e - 1) % l == b * q + ((e - 1) % l) % b,
                0 <= ((e - 1) % l) % b < b,
                (x * b <= q * b) <==> x <= q,
                (x * b >= (q + 1) * b) <==> x >= q + 1,
        ;
        assert((pos < e) <==> (y < er || (y == er && x < ep0)));
    }
    assert forall|x: int, y: int|
        #![trigger in_segment(seg, l, b, w, x, y)]
        in_segment(seg, l, b, w, x, y) <==> exists|i: int| 0 <= i < regs.len() && in_region(#[trigger] regs[i], x, y) by {
        if !plan_empty(p) && p.start_row < p.end_row {
            let (ms, mrs) = mid_start(p, l, b);
            let me = mid_end(p, w);
            let r1 = seq![region(p.offset, l, b, p.start_pos, p.start_row, w - p.start_pos, 1)];
            let r2 = seq![region(mrs, l, b, 0, ms, w, me + 1 - ms)];
            let r3 = seq![region(mrs + l * (me + 1 - ms), l, b, 0, p.end_row, p.end_pos, 1)];
            let a1: Seq<CopyRegion> = if p.start_pos > 0 { r1 } else { Seq::empty() };
            let a2: Seq<CopyRegion> = if me >= ms { r2 } else { Seq::empty() };
            let a3: Seq<CopyRegion> = if p.end_pos < w { r3 } else { Seq::empty() };
            assert(regs == a1 + a2 + a3);
            if in_segment(seg, l, b, w, x, y) {
                if y == p.start_row && p.start_pos > 0 {
                    assert(in_region(regs[0], x, y));
                } else if y == p.end_row && p.end_pos < w {
                    assert(in_region(regs[regs.len() - 1], x, y));
                } else {
                    assert(me >= ms);
                    assert(in_region(regs[a1.len() as int], x, y));
                }
            }
        } else if !plan_empty(p) {
            if in_segment(seg, l, b, w, x, y) {
                assert(in_region(regs[0], x, y));
            }
        }
    }
    assert forall|i: int, x: int, y: int|
        0 <= i < regs.len() && #[trigger] in_region(regs[i], x, y)
            implies region_byte(regs[i], b, x, y) == segment_byte(seg, l, b, x, y) by {
        let r = regs[i];
        assert(r.buffer_row_length * b == l);
        assert(p.offset == so + p.start_row * l + p.start_pos * b - s) by {
            assert((sr0 + 1) * l == sr0 * l + l) by (nonlinear_arith);
        }
        if !plan_empty(p) && p.start_row < p.end_row {
            let (ms, mrs) = mid_start(p, l, b);
            let me = mid_end(p, w);
            let r1 = seq![region(p.offset, l, b, p.start_pos, p.start_row, w - p.start_pos, 1)];
            let r2 = seq![region(mrs, l, b, 0, ms, w, me + 1 - ms)];
            let r3 = seq![region(mrs + l * (me + 1 - ms), l, b, 0, p.end_row, p.end_pos, 1)];
            let a1: Seq<CopyRegion> = if p.start_pos > 0 { r1 } else { Seq::empty() };
            let a2: Seq<CopyRegion> = if me >= ms { r2 } else { Seq::empty() };
            let a3: Seq<CopyRegion> = if p.end_pos < w { r3 } else { Seq::empty() };
            assert(regs == a1 + a2 + a3);
            assert(mrs == so + ms * l - s) by {
                assert((p.start_row + 1) * l == p.start_row * l + l) by (nonlinear_arith);
            }
            assert(mrs + l * (me + 1 - ms) == so + (me + 1) * l - s) by {
                assert(l * (me + 1 - ms) == (me + 1) * l - ms * l) by (nonlinear_arith);
            }
            assert(0 <= p.start_row < p.end_row);
            assert(0 <= p.start_pos < w);
            assert(0 <= mrs <= u32::MAX);
            if i < a1.len() {
                assert(r == r1[0]);
                assert(r.y == p.start_row && r.x == p.start_pos && r.buffer_offset == p.offset);
                assert(r.y * l + r.x * b - s + so == r.buffer_offset);
            } else if i < a1.len() + a2.len() {
                assert(r == r2[0]);
                assert(ms <= p.end_row);
                assert(r.y == ms && r.x == 0 && r.buffer_offset == mrs);
                assert(r.y * l + r.x * b - s + so == r.buffer_offset);
            } else {
                assert(r == r3[0]);
                assert(me + 1 == p.end_row);
                assert(r.y == p.end_row && r.x == 0 && r.buffer_offset == mrs + l * (me + 1 - ms));
                assert(r.y * l + r.x * b - s + so == r.buffer_offset);
            }
            assert(r.y * l + r.x * b - s + so == r.buffer_offset);
        } else {
            assert(!plan_empty(p));
            assert(r == region(p.offset, l, b, p.start_pos, p.start_row, p.end_pos - p.start_pos, 1));
            assert(0 <= p.start_pos < w);
            assert(0 <= p.start_row <= p.end_row);
            assert(r.y == p.start_row && r.x == p.start_pos);
            assert(r.buffer_offset == p.offset);
            assert(r.y * l + r.x * b - s + so == r.buffer_offset);
        }
        assert((y - r.y) * l + (x - r.x) * b == (y * l + x * b) - (r.y * l + r.x * b)) by (nonlinear_arith);
    }
    assert forall|i: int, j: int, x: int, y: int|
        0 <= i < j < regs.len() implies !(#[trigger] in_region(regs[i], x, y) && #[trigger] in_region(regs[j], x, y)) by {
        if !plan_empty(p) && p.start_row < p.end_row {
            let (ms, mrs) = mid_start(p, l, b);
            let me = mid_end(p, w);
            let r1 = seq![region(p.offset, l, b, p.start_pos, p.start_row, w - p.start_pos, 1)];
            let r2 = seq![region(mrs, l, b, 0, ms, w, me + 1 - ms)];
            let r3 = seq![region(mrs + l * (me + 1 - ms), l, b, 0, p.end_row, p.end_pos, 1)];
            let a1: Seq<CopyRegion> = if p.start_pos > 0 { r1 } else { Seq::empty() };
            let a2: Seq<CopyRegion> = if me >= ms { r2 } else { Seq::empty() };
            let a3: Seq<CopyRegion> = if p.end_pos < w { r3 } else { Seq::empty() };
            assert(regs == a1 + a2 + a3);
            assert(0 <= p.start_row < p.end_row);
            assert(0 <= p.start_pos < w);
            assert(0 <= mrs <= u32::MAX);
            assert(ms <= p.end_row);
            if p.start_pos > 0 {
                assert(regs[0] == r1[0]);
                assert(regs[0].y == p.start_row && regs[0].height == 1);
            }
            if me >= ms {
                assert(regs[a1.len() as int] == r2[0]);
                assert(regs[a1.len() as int].y == ms);
            }
            if p.end_pos < w {
                assert(regs[regs.len() - 1] == r3[0]);
                assert(regs[regs.len() - 1].y == p.end_row);
            }
        }
    }
}

} // verus!
