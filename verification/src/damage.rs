use vstd::prelude::*;
use vstd::arithmetic::power2::{pow2, lemma_pow2_pos};
use vstd::arithmetic::div_mod::{lemma_fundamental_div_mod, lemma_mod_bound, lemma_div_is_ordered, lemma_mod_multiples_basic, lemma_div_multiples_vanish};
use vstd::arithmetic::mul::{lemma_mul_inequality, lemma_mul_is_commutative};
use vstd::bits::{lemma_usize_shr_is_div, lemma_usize_shl_is_mul, lemma_usize_pow2_no_overflow};

verus! {

/// A damaged rectangle of a buffer, in pixels: columns `x1..x2`, rows `y1..y2`.
#[derive(Debug, Copy, Clone)]
pub struct Rect {
    pub x1: u32,
    pub x2: u32,
    pub y1: u32,
    pub y2: u32,
}

impl Rect {
    /// A rectangle with at least one pixel.
    pub open spec fn nonempty(self) -> bool {
        self.x1 < self.x2 && self.y1 < self.y2
    }
}

/// The alignment unit `2^align_bits`.
pub open spec fn align_unit(align_bits: u32) -> int {
    pow2(align_bits as nat) as int
}

/// `x` rounded down to a multiple of `m`.
pub open spec fn round_down(x: int, m: int) -> int {
    (x / m) * m
}

/// `x` rounded up to a multiple of `m`.
pub open spec fn round_up(x: int, m: int) -> int {
    ((x + m - 1) / m) * m
}

pub open spec fn is_aligned(x: int, m: int) -> bool {
    x % m == 0
}

/// `x` clamped to the range of `usize`.
pub open spec fn saturate(x: int) -> int {
    if x > usize::MAX {
        usize::MAX as int
    } else {
        x
    }
}

/// Byte position of pixel column `x` of row `y`.
pub open spec fn pixel_pos(x: int, y: int, offset: int, stride: int, bpp: int) -> int {
    offset + y * stride + x * bpp
}

/// Facts about rounding to a multiple of a positive `m`.
pub proof fn lemma_rounding(x: int, m: int)
    requires
        x >= 0,
        m > 0,
    ensures
        0 <= round_down(x, m) <= x < round_down(x, m) + m,
        x <= round_up(x, m) < x + m,
        is_aligned(round_down(x, m), m),
        is_aligned(round_up(x, m), m),
        is_aligned(x, m) ==> round_down(x, m) == x && round_up(x, m) == x,
        !is_aligned(x, m) ==> round_up(x, m) == round_down(x, m) + m,
        round_down(x, m) == x - x % m,
{
    lemma_fundamental_div_mod(x, m);
    lemma_mod_bound(x, m);
    lemma_mod_multiples_basic(x / m, m);
    lemma_mod_multiples_basic((x + m - 1) / m, m);
    lemma_mul_is_commutative(x / m, m);
    lemma_mul_is_commutative((x + m - 1) / m, m);
    assert((x / m) * m >= 0) by (nonlinear_arith)
        requires
            x >= 0,
            m > 0,
    ;
    let q = x / m;
    let r = x % m;
    if r == 0 {
        assert((x + m - 1) / m == q) by {
            lemma_fundamental_div_mod(x + m - 1, m);
            lemma_mod_bound(x + m - 1, m);
            assert(x + m - 1 == q * m + (m - 1));
            vstd::arithmetic::div_mod::lemma_fundamental_div_mod_converse(x + m - 1, m, q, m - 1);
        }
    } else {
        assert((x + m - 1) / m == q + 1) by {
            assert(x + m - 1 == (q + 1) * m + (r - 1)) by (nonlinear_arith)
                requires
                    x == q * m + r,
            ;
            vstd::arithmetic::div_mod::lemma_fundamental_div_mod_converse(x + m - 1, m, q + 1, r - 1);
        }
        assert((q + 1) * m == q * m + m) by (nonlinear_arith);
    }
}

/// Rounding is monotone.
pub proof fn lemma_rounding_monotone(x: int, y: int, m: int)
    requires
        0 <= x <= y,
        m > 0,
    ensures
        round_down(x, m) <= round_down(y, m),
        round_up(x, m) <= round_up(y, m),
{
    lemma_div_is_ordered(x, y, m);
    lemma_div_is_ordered(x + m - 1, y + m - 1, m);
    lemma_mul_inequality(x / m, y / m, m);
    lemma_mul_inequality((x + m - 1) / m, (y + m - 1) / m, m);
}

/// Rounding an aligned value down, or up, is the identity; rounding stays within aligned bounds.
pub proof fn lemma_round_down_above_aligned(a: int, x: int, m: int)
    requires
        0 <= a <= x,
        m > 0,
        is_aligned(a, m),
    ensures
        a <= round_down(x, m),
{
    lemma_rounding(a, m);
    lemma_rounding_monotone(a, x, m);
}

pub proof fn lemma_round_up_below_aligned(x: int, b: int, m: int)
    requires
        0 <= x <= b,
        m > 0,
        is_aligned(b, m),
    ensures
        round_up(x, m) <= b,
{
    lemma_rounding(b, m);
    lemma_rounding_monotone(x, b, m);
}

/// `x` rounded down to a multiple of `2^align_bits`.
fn align_down(x: usize, align_bits: u32) -> (r: usize)
    requires
        align_bits < usize::BITS,
    ensures
        r == round_down(x as int, align_unit(align_bits)),
{
    let s = align_bits as usize;
    proof {
        lemma_pow2_pos(align_bits as nat);
        lemma_usize_shr_is_div(x, s);
        lemma_rounding(x as int, align_unit(align_bits));
    }
    let q = x >> s;
    proof {
        assert(q * pow2(s as nat) <= usize::MAX) by {
            lemma_mul_is_commutative(q as int, pow2(s as nat) as int);
        }
        lemma_usize_shl_is_mul(q, s);
    }
    q << s
}

/// `x` rounded up to a multiple of `2^align_bits`.
fn align_up(x: usize, align_bits: u32) -> (r: usize)
    requires
        align_bits < usize::BITS,
        round_up(x as int, align_unit(align_bits)) <= usize::MAX,
    ensures
        r == round_up(x as int, align_unit(align_bits)),
{
    let s = align_bits as usize;
    proof {
        lemma_pow2_pos(align_bits as nat);
        lemma_usize_pow2_no_overflow(s as nat);
        lemma_usize_shl_is_mul(1, s);
        lemma_rounding(x as int, align_unit(align_bits));
    }
    let m: usize = 1usize << s;
    let r = x % m;
    if r == 0 {
        x
    } else {
        x + (m - r)
    }
}


/// Byte position where row `k` (counted from `r.y1`) of `r` starts.
pub open spec fn row_start(r: Rect, k: int, offset: int, stride: int, bpp: int) -> int {
    pixel_pos(r.x1 as int, r.y1 + k, offset, stride, bpp)
}

/// Byte position just past the end of row `k` (counted from `r.y1`) of `r`.
pub open spec fn row_end(r: Rect, k: int, offset: int, stride: int, bpp: int) -> int {
    pixel_pos(r.x2 as int, r.y1 + k, offset, stride, bpp)
}

/// Some segment of `segs` contains the byte interval `[s, e)`.
pub open spec fn contains_interval(segs: Seq<(usize, usize)>, s: int, e: int) -> bool {
    exists|j: int| 0 <= j < segs.len() && #[trigger] segs[j].0 <= s && e <= segs[j].1
}

/// Every row of `r` lies inside one segment of `segs`.
pub open spec fn rect_covered(
    segs: Seq<(usize, usize)>,
    r: Rect,
    offset: int,
    stride: int,
    bpp: int,
) -> bool {
    forall|k: int|
        0 <= k < r.y2 - r.y1 ==> contains_interval(
            segs,
            #[trigger] row_start(r, k, offset, stride, bpp),
            row_end(r, k, offset, stride, bpp),
        )
}

/// The rectangle is nonempty and its whole extent, rounded up to the alignment, has a
/// byte position that fits in `usize`.
pub open spec fn rect_fits(r: Rect, offset: int, stride: int, bpp: int, align_bits: u32) -> bool {
    &&& r.nonempty()
    &&& round_up(pixel_pos(r.x2 as int, r.y2 as int, offset, stride, bpp), align_unit(align_bits))
        <= usize::MAX
}

/// Segments are nonempty, aligned to `2^align_bits`, in increasing order, and separated by
/// gaps of at least `min_gap` bytes.
#[verifier::opaque]
pub open spec fn segments_valid(segs: Seq<(usize, usize)>, align_bits: u32, min_gap: int) -> bool {
    &&& forall|j: int|
        0 <= j < segs.len() ==> {
            &&& (#[trigger] segs[j]).0 < segs[j].1
            &&& is_aligned(segs[j].0 as int, align_unit(align_bits))
            &&& is_aligned(segs[j].1 as int, align_unit(align_bits))
        }
    &&& forall|j: int| 1 <= j < segs.len() ==> #[trigger] segs[j].0 >= segs[j - 1].1 + min_gap
}

/// Appending a segment that starts late enough keeps the segments valid.
pub proof fn lemma_segments_push(segs: Seq<(usize, usize)>, x: (usize, usize), align_bits: u32, min_gap: int)
    requires
        segments_valid(segs, align_bits, min_gap),
        x.0 < x.1,
        is_aligned(x.0 as int, align_unit(align_bits)),
        is_aligned(x.1 as int, align_unit(align_bits)),
        segs.len() > 0 ==> x.0 >= segs.last().1 + min_gap,
    ensures
        segments_valid(segs.push(x), align_bits, min_gap),
        segs.push(x).last() == x,
{
    reveal(segments_valid);
    let s2 = segs.push(x);
    assert forall|j: int| 1 <= j < s2.len() implies #[trigger] s2[j].0 >= s2[j - 1].1 + min_gap by {
        if j < s2.len() - 1 {
            assert(s2[j] == segs[j] && s2[j - 1] == segs[j - 1]);
        }
    }
    assert forall|j: int| 0 <= j < s2.len() implies {
        &&& (#[trigger] s2[j]).0 < s2[j].1
        &&& is_aligned(s2[j].0 as int, align_unit(align_bits))
        &&& is_aligned(s2[j].1 as int, align_unit(align_bits))
    } by {
        if j < s2.len() - 1 {
            assert(s2[j] == segs[j]);
        }
    }
}

/// Segments from index `from` on lie within `bound`.
#[verifier::opaque]
pub open spec fn tail_within(segs: Seq<(usize, usize)>, from: int, bound: (usize, usize)) -> bool {
    forall|j: int| from <= j < segs.len() ==> bound.0 <= (#[trigger] segs[j]).0 && segs[j].1 <= bound.1
}

pub proof fn lemma_tail_within_push(segs: Seq<(usize, usize)>, from: int, bound: (usize, usize), x: (usize, usize))
    requires
        0 <= from <= segs.len(),
        tail_within(segs, from, bound),
        bound.0 <= x.0,
        x.1 <= bound.1,
    ensures
        tail_within(segs.push(x), from, bound),
{
    reveal(tail_within);
    assert forall|j: int| from <= j < segs.push(x).len() implies bound.0 <= (#[trigger] segs.push(x)[j]).0
        && segs.push(x)[j].1 <= bound.1 by {
        if j < segs.len() {
            assert(segs.push(x)[j] == segs[j]);
        }
    }
}

/// Positions of the pixels of a row, and of the rows of a rectangle, are ordered as expected.
pub proof fn lemma_row_positions(
    r: Rect,
    k: int,
    offset: int,
    stride: int,
    bpp: int,
)
    requires
        r.nonempty(),
        0 <= k < r.y2 - r.y1,
        offset >= 0,
        stride > 0,
        bpp > 0,
    ensures
        0 <= (r.y1 + k) * stride,
        (r.y1 + k) * stride + stride <= r.y2 * stride,
        0 <= r.x1 * bpp < r.x2 * bpp,
        (r.x2 - r.x1) * bpp == r.x2 * bpp - r.x1 * bpp,
        pixel_pos(r.x1 as int, r.y1 as int, offset, stride, bpp) <= row_start(r, k, offset, stride, bpp),
        row_start(r, k, offset, stride, bpp) < row_end(r, k, offset, stride, bpp),
        row_end(r, k, offset, stride, bpp) + stride <= pixel_pos(r.x2 as int, r.y2 as int, offset, stride, bpp),
        row_start(r, k, offset, stride, bpp) + stride == row_start(r, k + 1, offset, stride, bpp),
        r.y2 * stride == (r.y2 - 1) * stride + stride,
        r.y2 <= r.y2 * stride,
        row_end(r, k, offset, stride, bpp) <= row_end(r, r.y2 - r.y1 - 1, offset, stride, bpp),
{
    assert(r.y2 <= r.y2 * stride) by (nonlinear_arith)
        requires
            stride >= 1,
            r.y2 >= 0,
    ;
    assert((r.y1 + k) * stride <= (r.y2 - 1) * stride) by (nonlinear_arith)
        requires
            r.y1 + k <= r.y2 - 1,
            stride > 0,
    ;
    assert(0 <= (r.y1 + k) * stride) by (nonlinear_arith)
        requires
            r.y1 + k >= 0,
            stride > 0,
    ;
    assert((r.y1 + k) * stride + stride <= r.y2 * stride) by (nonlinear_arith)
        requires
            r.y1 + k + 1 <= r.y2,
            stride > 0,
    ;
    assert(0 <= r.x1 * bpp < r.x2 * bpp) by (nonlinear_arith)
        requires
            0 <= r.x1 < r.x2,
            bpp > 0,
    ;
    assert((r.x2 - r.x1) * bpp == r.x2 * bpp - r.x1 * bpp) by (nonlinear_arith);
    assert(r.y1 * stride <= (r.y1 + k) * stride) by (nonlinear_arith)
        requires
            k >= 0,
            stride > 0,
    ;
    assert((r.y1 + k) * stride + stride == (r.y1 + k + 1) * stride) by (nonlinear_arith);
    assert(r.y2 * stride == (r.y2 - 1) * stride + stride) by (nonlinear_arith);
}

/// Later rows of a rectangle start later.
pub proof fn lemma_rows_ordered(
    r: Rect,
    k1: int,
    k2: int,
    offset: int,
    stride: int,
    bpp: int,
)
    requires
        0 <= k1 <= k2,
        stride > 0,
    ensures
        row_start(r, k1, offset, stride, bpp) <= row_start(r, k2, offset, stride, bpp),
        row_end(r, k1, offset, stride, bpp) <= row_end(r, k2, offset, stride, bpp),
{
    assert((r.y1 + k1) * stride <= (r.y1 + k2) * stride) by (nonlinear_arith)
        requires
            k1 <= k2,
            stride > 0,
    ;
}

/// The floor of the base-2 logarithm of `x`, taken as 0 below 2.
pub open spec fn log2_floor(x: nat) -> nat
    decreases x,
{
    if x < 2 {
        0
    } else {
        1 + log2_floor(x / 2)
    }
}

/// The floor of the base-2 logarithm of a positive `x`.
fn floor_log2(x: usize) -> (r: u32)
    requires
        x >= 1,
    ensures
        pow2(r as nat) <= x < pow2(r as nat + 1),
        r < usize::BITS,
        r == log2_floor(x as nat),
{
    let mut r: u32 = 0;
    let mut y: usize = x;
    proof {
        vstd::arithmetic::power2::lemma2_to64();
    }
    while y > 1
        invariant
            1 <= y <= x,
            r < usize::BITS,
            x as nat / pow2(r as nat) == y,
            pow2(r as nat) <= x,
            r + log2_floor(y as nat) == log2_floor(x as nat),
        decreases y,
    {
        proof {
            lemma_pow2_pos(r as nat);
            vstd::arithmetic::power2::lemma_pow2_unfold(r as nat + 1);
            vstd::arithmetic::div_mod::lemma_div_denominator(x as int, pow2(r as nat) as int, 2);
            assert(pow2(r as nat) * 2 <= x) by {
                lemma_fundamental_div_mod(x as int, pow2(r as nat) as int);
                lemma_mod_bound(x as int, pow2(r as nat) as int);
                assert(pow2(r as nat) * y >= pow2(r as nat) * 2) by (nonlinear_arith)
                    requires
                        y >= 2,
                ;
            }
            vstd::arithmetic::power2::lemma2_to64();
            if r + 1 >= usize::BITS {
                assert(pow2(usize::BITS as nat) > usize::MAX) by {
                    vstd::arithmetic::power2::lemma2_to64_rest();
                }
                assert(r + 1 == usize::BITS);
                assert(false);
            }
        }
        y = y / 2;
        r = r + 1;
    }
    proof {
        lemma_pow2_pos(r as nat);
        vstd::arithmetic::power2::lemma_pow2_unfold(r as nat + 1);
        lemma_fundamental_div_mod(x as int, pow2(r as nat) as int);
        lemma_mod_bound(x as int, pow2(r as nat) as int);
        lemma_mul_is_commutative(pow2(r as nat) as int, (x as nat / pow2(r as nat)) as int);
    }
    r
}

/// The number of `true` entries of `s`.
pub open spec fn count_true(s: Seq<bool>) -> nat
    decreases s.len(),
{
    if s.len() == 0 {
        0
    } else {
        count_true(s.drop_last()) + if s.last() {
            1nat
        } else {
            0nat
        }
    }
}

proof fn lemma_count_true_bound(s: Seq<bool>)
    ensures
        count_true(s) <= s.len(),
    decreases s.len(),
{
    if s.len() > 0 {
        lemma_count_true_bound(s.drop_last());
    }
}

fn count_active(active: &Vec<bool>) -> (c: usize)
    ensures
        c == count_true(active@),
{
    let mut c: usize = 0;
    let mut i: usize = 0;
    while i < active.len()
        invariant
            i <= active.len(),
            c == count_true(active@.subrange(0, i as int)),
        decreases active.len() - i,
    {
        proof {
            assert(active@.subrange(0, i as int + 1).drop_last() =~= active@.subrange(0, i as int));
            lemma_count_true_bound(active@.subrange(0, i as int));
        }
        if active[i] {
            c = c + 1;
        }
        i = i + 1;
    }
    proof {
        assert(active@.subrange(0, i as int) =~= active@);
    }
    c
}

/// Among the first `k` entries, the active one with the smallest start, the largest index
/// among equal starts.
pub open spec fn scan_min(starts: Seq<usize>, active: Seq<bool>, k: int) -> Option<int>
    decreases k,
{
    if k <= 0 {
        None
    } else {
        let b = scan_min(starts, active, k - 1);
        if active[k - 1] {
            match b {
                None => Some(k - 1),
                Some(m) => if starts[k - 1] <= starts[m] {
                    Some(k - 1)
                } else {
                    Some(m)
                },
            }
        } else {
            b
        }
    }
}

/// The entry whose row is visited next, if any is active.
pub open spec fn next_row(starts: Seq<usize>, active: Seq<bool>) -> Option<int> {
    scan_min(starts, active, active.len() as int)
}

/// Index of the active entry with the smallest start, the largest index among equal starts.
fn select_min(starts: &Vec<usize>, active: &Vec<bool>) -> (res: Option<usize>)
    requires
        starts.len() == active.len(),
    ensures
        res is None ==> forall|i: int| 0 <= i < active.len() ==> !active[i],
        res matches Some(m) ==> next_row(starts@, active@) == Some(m as int),
        res is None ==> next_row(starts@, active@) is None,
        res matches Some(m) ==> {
            &&& m < active.len()
            &&& active[m as int]
            &&& forall|i: int| 0 <= i < active.len() && active[i] ==> starts[m as int] <= starts[i]
            &&& forall|i: int| m < i < active.len() && active[i] ==> starts[m as int] < starts[i]
        },
{
    let mut best: Option<usize> = None;
    let mut i: usize = 0;
    while i < active.len()
        invariant
            i <= active.len(),
            starts.len() == active.len(),
            best is None ==> forall|j: int| 0 <= j < i ==> !active[j],
            best == (match scan_min(starts@, active@, i as int) {
                Some(m) => Some(m as usize),
                None => None::<usize>,
            }),
            scan_min(starts@, active@, i as int) matches Some(m) ==> 0 <= m < i,
            best matches Some(m) ==> {
                &&& m < i
                &&& active[m as int]
                &&& forall|j: int| 0 <= j < i && active[j] ==> starts[m as int] <= starts[j]
                &&& forall|j: int| m < j < i && active[j] ==> starts[m as int] < starts[j]
            },
        decreases active.len() - i,
    {
        if active[i] {
            match best {
                None => {
                    best = Some(i);
                },
                Some(m) => {
                    if starts[i] <= starts[m] {
                        best = Some(i);
                    }
                },
            }
        }
        i = i + 1;
    }
    best
}


/// The interval `[s, e)` lies in one of `segs` or in the segment under construction.
pub open spec fn covered_by(segs: Seq<(usize, usize)>, cur: Option<(usize, usize)>, s: int, e: int) -> bool {
    contains_interval(segs, s, e) || (cur matches Some(c) && c.0 <= s && e <= c.1)
}

/// Rows wider than a stride less the minimum gap are treated as one block.
pub open spec fn is_wide(r: Rect, stride: int, bpp: int, min_gap: int) -> bool {
    (r.x2 - r.x1) * bpp > (if stride - min_gap < 0 { 0 } else { stride - min_gap })
}

#[verifier::opaque]
/// State of rectangle `i` while a group is processed: which rows are already covered, and
/// where its next row to process starts.
pub open spec fn row_state_ok(
    rects: Seq<Rect>,
    starts: Seq<usize>,
    active: Seq<bool>,
    rc: Seq<usize>,
    segs: Seq<(usize, usize)>,
    cur: Option<(usize, usize)>,
    i: int,
    offset: int,
    stride: int,
    bpp: int,
    align_bits: u32,
    min_gap: int,
) -> bool {
    let r = rects[i];
    let h = r.y2 - r.y1;
    let m = align_unit(align_bits);
    if is_wide(r, stride, bpp, min_gap) {
        &&& rc[i] == usize::MAX
        &&& active[i] ==> starts[i] == round_down(row_start(r, 0, offset, stride, bpp), m)
        &&& !active[i] ==> forall|k: int|
            0 <= k < h ==> covered_by(
                segs,
                cur,
                #[trigger] row_start(r, k, offset, stride, bpp),
                row_end(r, k, offset, stride, bpp),
            )
    } else {
        &&& rc[i] <= h
        &&& rc[i] < usize::MAX
        &&& forall|k: int|
            0 <= k < rc[i] ==> covered_by(
                segs,
                cur,
                #[trigger] row_start(r, k, offset, stride, bpp),
                row_end(r, k, offset, stride, bpp),
            )
        &&& (active[i] <==> rc[i] < h)
        &&& active[i] ==> starts[i] == round_down(row_start(r, rc[i] as int, offset, stride, bpp), m)
    }
}

fn saturating_mul(a: usize, b: usize) -> (r: usize)
    ensures
        r == saturate(a * b),
{
    match a.checked_mul(b) {
        Some(v) => v,
        None => usize::MAX,
    }
}

/// The byte range from the first pixel of the rectangle's first row to the end of the row
/// after its last row, saturated to `usize`.
fn bounding_interval(r: &Rect, offset: usize, stride: usize, bpp: usize) -> (res: (usize, usize))
    ensures
        res.0 == saturate(pixel_pos(r.x1 as int, r.y1 as int, offset as int, stride as int, bpp as int)),
        res.1 == saturate(pixel_pos(r.x2 as int, r.y2 as int, offset as int, stride as int, bpp as int)),
{
    proof {
        assert(r.y1 * stride >= 0 && r.x1 * bpp >= 0 && r.y2 * stride >= 0 && r.x2 * bpp >= 0)
            by (nonlinear_arith);
    }
    let start = offset.saturating_add(saturating_mul(r.y1 as usize, stride)).saturating_add(
        saturating_mul(r.x1 as usize, bpp),
    );
    let end = offset.saturating_add(saturating_mul(r.y2 as usize, stride)).saturating_add(
        saturating_mul(r.x2 as usize, bpp),
    );
    (start, end)
}

/// The bounding interval, widened to multiples of `2^align_bits`.
fn aligned_bounding_interval(
    r: &Rect,
    offset: usize,
    stride: usize,
    bpp: usize,
    align_bits: u32,
) -> (res: (usize, usize))
    requires
        align_bits < usize::BITS,
        round_up(
            saturate(pixel_pos(r.x2 as int, r.y2 as int, offset as int, stride as int, bpp as int)),
            align_unit(align_bits),
        ) <= usize::MAX,
    ensures
        res.0 == round_down(
            saturate(pixel_pos(r.x1 as int, r.y1 as int, offset as int, stride as int, bpp as int)),
            align_unit(align_bits),
        ),
        res.1 == round_up(
            saturate(pixel_pos(r.x2 as int, r.y2 as int, offset as int, stride as int, bpp as int)),
            align_unit(align_bits),
        ),
{
    let x = bounding_interval(r, offset, stride, bpp);
    (align_down(x.0, align_bits), align_up(x.1, align_bits))
}


proof fn lemma_covered_extend(segs: Seq<(usize, usize)>, c: (usize, usize), e2: usize)
    requires
        c.1 <= e2,
    ensures
        forall|s: int, e: int|
            covered_by(segs, Some(c), s, e) ==> #[trigger] covered_by(segs, Some((c.0, e2)), s, e),
{
}

proof fn lemma_covered_flush(segs: Seq<(usize, usize)>, c: (usize, usize), nxt: (usize, usize))
    ensures
        forall|s: int, e: int|
            covered_by(segs, Some(c), s, e) ==> #[trigger] covered_by(segs.push(c), Some(nxt), s, e),
{
    assert forall|s: int, e: int| covered_by(segs, Some(c), s, e) implies #[trigger] covered_by(
        segs.push(c),
        Some(nxt),
        s,
        e,
    ) by {
        if contains_interval(segs, s, e) {
            let j = choose|j: int| 0 <= j < segs.len() && #[trigger] segs[j].0 <= s && e <= segs[j].1;
            assert(segs.push(c)[j] == segs[j]);
        } else {
            assert(segs.push(c)[segs.len() as int] == c);
        }
    }
}

proof fn lemma_covered_close(segs: Seq<(usize, usize)>, c: (usize, usize))
    ensures
        forall|s: int, e: int|
            covered_by(segs, Some(c), s, e) ==> #[trigger] contains_interval(segs.push(c), s, e),
{
    assert forall|s: int, e: int| covered_by(segs, Some(c), s, e) implies #[trigger] contains_interval(
        segs.push(c),
        s,
        e,
    ) by {
        if contains_interval(segs, s, e) {
            let j = choose|j: int| 0 <= j < segs.len() && #[trigger] segs[j].0 <= s && e <= segs[j].1;
            assert(segs.push(c)[j] == segs[j]);
        } else {
            assert(segs.push(c)[segs.len() as int] == c);
        }
    }
}

/// A rectangle's state depends only on its own entries.
proof fn lemma_row_state_local(
    rects: Seq<Rect>,
    starts1: Seq<usize>,
    active1: Seq<bool>,
    rc1: Seq<usize>,
    starts2: Seq<usize>,
    active2: Seq<bool>,
    rc2: Seq<usize>,
    segs: Seq<(usize, usize)>,
    cur: Option<(usize, usize)>,
    i: int,
    offset: int,
    stride: int,
    bpp: int,
    align_bits: u32,
    min_gap: int,
)
    requires
        row_state_ok(rects, starts1, active1, rc1, segs, cur, i, offset, stride, bpp, align_bits, min_gap),
        starts1[i] == starts2[i],
        active1[i] == active2[i],
        rc1[i] == rc2[i],
    ensures
        row_state_ok(rects, starts2, active2, rc2, segs, cur, i, offset, stride, bpp, align_bits, min_gap),
{
    reveal(row_state_ok);
}

/// Adding the range `[start, end)` to the segment under construction `cur` after the
/// segments `out`: when it starts within `min_gap` of the end of `cur`, `cur` is extended;
/// otherwise `cur` is emitted and the range begins a new segment.
pub open spec fn merge_spec(
    out: Seq<(usize, usize)>,
    cur: Option<(usize, usize)>,
    start: usize,
    end: usize,
    min_gap: int,
) -> (Seq<(usize, usize)>, (usize, usize)) {
    match cur {
        Some(c) => if start <= c.1 || start - c.1 < min_gap {
            (out, (c.0, if c.1 >= end { c.1 } else { end }))
        } else {
            (out.push(c), (start, end))
        },
        None => (out, (start, end)),
    }
}

/// Visiting the pending row of rectangle `i` (all its rows, where it is one block): the
/// byte range of the row, aligned, is merged into the segment under construction, and the
/// rectangle moves on to its next row or is done. Returns the new pending starts, pending
/// flags, row counters, emitted segments and segment under construction.
#[verifier::opaque]
pub open spec fn visit_spec(
    rects: Seq<Rect>,
    starts: Seq<usize>,
    active: Seq<bool>,
    rc: Seq<usize>,
    out: Seq<(usize, usize)>,
    cur: Option<(usize, usize)>,
    i: int,
    offset: int,
    stride: int,
    bpp: int,
    align_bits: u32,
    min_gap: int,
) -> (Seq<usize>, Seq<bool>, Seq<usize>, Seq<(usize, usize)>, (usize, usize)) {
    let r = rects[i];
    let h = r.y2 - r.y1;
    let m = align_unit(align_bits);
    let wide = rc[i] == usize::MAX;
    let last_row: int = if wide { h - 1 } else { rc[i] as int };
    let end = round_up(row_end(r, last_row, offset, stride, bpp), m);
    let (out2, nc) = merge_spec(out, cur, starts[i], end as usize, min_gap);
    if wide {
        (starts, active.update(i, false), rc, out2, nc)
    } else if rc[i] + 1 < h {
        (
            starts.update(i, round_down(row_start(r, rc[i] + 1, offset, stride, bpp), m) as usize),
            active,
            rc.update(i, (rc[i] + 1) as usize),
            out2,
            nc,
        )
    } else {
        (starts, active.update(i, false), rc.update(i, (rc[i] + 1) as usize), out2, nc)
    }
}

/// The work estimate after a visit that leaves `active` pending: the logarithm of the
/// number of pending rectangles, at least 16.
pub open spec fn visit_work(active: Seq<bool>) -> nat {
    log2_floor(if count_true(active) > 16 { count_true(active) } else { 16 })
}

/// The segments emitted by the row merge of one group from the given state on: rows are
/// visited in order of start (see `next_row`) and merged (see `visit_spec`); once the
/// accumulated work estimate exceeds an eighth of the group's extent `bound`, one segment
/// from the start of the segment under construction to the end of `bound` closes the
/// group; when no row is pending, the segment under construction is emitted. `fuel` bounds
/// the number of visits.
#[verifier::opaque]
pub open spec fn merge_run(
    rects: Seq<Rect>,
    bound: (usize, usize),
    starts: Seq<usize>,
    active: Seq<bool>,
    rc: Seq<usize>,
    out: Seq<(usize, usize)>,
    cur: Option<(usize, usize)>,
    work: int,
    fuel: nat,
    offset: int,
    stride: int,
    bpp: int,
    align_bits: u32,
    min_gap: int,
) -> Seq<(usize, usize)>
    decreases fuel,
{
    match next_row(starts, active) {
        None => match cur {
            Some(c) => out.push(c),
            None => out,
        },
        Some(i) => if fuel == 0 {
            out
        } else {
            let (s2, a2, r2, o2, nc) = visit_spec(rects, starts, active, rc, out, cur, i, offset, stride, bpp, align_bits, min_gap);
            let w2 = work + visit_work(a2);
            if w2 > (bound.1 - bound.0) / 8 {
                o2.push((nc.0, bound.1))
            } else {
                merge_run(rects, bound, s2, a2, r2, o2, Some(nc), w2, (fuel - 1) as nat, offset, stride, bpp, align_bits, min_gap)
            }
        },
    }
}

/// Row counters at the start of a group: `usize::MAX` marks a rectangle merged as one block.
pub open spec fn initial_rc(rects: Seq<Rect>, stride: int, bpp: int, min_gap: int) -> Seq<usize> {
    Seq::new(rects.len(), |i: int| if is_wide(rects[i], stride, bpp, min_gap) { usize::MAX } else { 0usize })
}

/// Pending starts at the start of a group: the aligned start of each first row.
pub open spec fn initial_starts(rects: Seq<Rect>, offset: int, stride: int, bpp: int, align_bits: u32) -> Seq<usize> {
    Seq::new(rects.len(), |i: int| round_down(row_start(rects[i], 0, offset, stride, bpp), align_unit(align_bits)) as usize)
}

/// The segments that the row merge of the group `rects`, with extent `bound`, appends to `out`.
pub open spec fn group_segments(
    rects: Seq<Rect>,
    bound: (usize, usize),
    out: Seq<(usize, usize)>,
    offset: int,
    stride: int,
    bpp: int,
    align_bits: u32,
    min_gap: int,
) -> Seq<(usize, usize)> {
    let starts = initial_starts(rects, offset, stride, bpp, align_bits);
    let active = Seq::new(rects.len(), |i: int| true);
    let rc = initial_rc(rects, stride, bpp, min_gap);
    merge_run(
        rects,
        bound,
        starts,
        active,
        rc,
        out,
        None,
        0,
        total_remaining(rects, active, rc, rects.len() as int, stride, bpp, min_gap) + 1,
        offset,
        stride,
        bpp,
        align_bits,
        min_gap,
    )
}

/// One visit of the row merge, as `merge_run` takes it.
proof fn lemma_merge_run_visit(
    rects: Seq<Rect>,
    bound: (usize, usize),
    starts1: Seq<usize>,
    active1: Seq<bool>,
    rc1: Seq<usize>,
    out1: Seq<(usize, usize)>,
    cur1: Option<(usize, usize)>,
    work1: int,
    fuel: nat,
    i: int,
    starts2: Seq<usize>,
    active2: Seq<bool>,
    rc2: Seq<usize>,
    out2: Seq<(usize, usize)>,
    nc: (usize, usize),
    offset: int,
    stride: int,
    bpp: int,
    align_bits: u32,
    min_gap: int,
)
    requires
        next_row(starts1, active1) == Some(i),
        fuel > 0,
        (starts2, active2, rc2, out2, nc) == visit_spec(rects, starts1, active1, rc1, out1, cur1, i, offset, stride, bpp, align_bits, min_gap),
    ensures
        work1 + visit_work(active2) > (bound.1 - bound.0) / 8 ==> merge_run(rects, bound, starts1, active1, rc1, out1, cur1, work1, fuel, offset, stride, bpp, align_bits, min_gap)
            == out2.push((nc.0, bound.1)),
        work1 + visit_work(active2) <= (bound.1 - bound.0) / 8 ==> merge_run(rects, bound, starts1, active1, rc1, out1, cur1, work1, fuel, offset, stride, bpp, align_bits, min_gap)
            == merge_run(rects, bound, starts2, active2, rc2, out2, Some(nc), work1 + visit_work(active2), (fuel - 1) as nat, offset, stride, bpp, align_bits, min_gap),
{
    reveal(merge_run);
}

/// With no row pending, the row merge emits the segment under construction.
proof fn lemma_merge_run_done(
    rects: Seq<Rect>,
    bound: (usize, usize),
    starts: Seq<usize>,
    active: Seq<bool>,
    rc: Seq<usize>,
    out: Seq<(usize, usize)>,
    c: (usize, usize),
    work: int,
    fuel: nat,
    offset: int,
    stride: int,
    bpp: int,
    align_bits: u32,
    min_gap: int,
)
    requires
        next_row(starts, active) is None,
    ensures
        merge_run(rects, bound, starts, active, rc, out, Some(c), work, fuel, offset, stride, bpp, align_bits, min_gap) == out.push(c),
{
    reveal(merge_run);
}

/// Add the byte range `[start, end)` to the segment under construction `cur`: extend it
/// when `start` is within `min_gap` of its end, otherwise emit it and begin a new one.
fn merge_into(
    output: &mut Vec<(usize, usize)>,
    cur: Option<(usize, usize)>,
    start: usize,
    end: usize,
    min_gap: usize,
    align_bits: u32,
) -> (nc: (usize, usize))
    requires
        start < end,
        is_aligned(start as int, align_unit(align_bits)),
        is_aligned(end as int, align_unit(align_bits)),
        segments_valid(old(output)@, align_bits, min_gap as int),
        cur is None ==> (old(output)@.len() > 0 ==> start >= old(output)@.last().1 + min_gap),
        cur matches Some(c) ==> {
            &&& c.0 <= start
            &&& c.0 < c.1
            &&& is_aligned(c.0 as int, align_unit(align_bits))
            &&& is_aligned(c.1 as int, align_unit(align_bits))
            &&& old(output)@.len() > 0 ==> c.0 >= old(output)@.last().1 + min_gap
        },
    ensures
        nc.0 <= start,
        end <= nc.1,
        nc.0 < nc.1,
        is_aligned(nc.0 as int, align_unit(align_bits)),
        is_aligned(nc.1 as int, align_unit(align_bits)),
        segments_valid(final(output)@, align_bits, min_gap as int),
        final(output)@.len() > 0 ==> nc.0 >= final(output)@.last().1 + min_gap,
        forall|s: int, e: int|
            covered_by(old(output)@, cur, s, e) ==> #[trigger] covered_by(final(output)@, Some(nc), s, e),
        (final(output)@, nc) == merge_spec(old(output)@, cur, start, end, min_gap as int),
        cur is None ==> final(output)@ == old(output)@ && nc == (start, end),
        cur matches Some(c) ==> {
            ||| final(output)@ == old(output)@ && nc.0 == c.0 && (nc.1 == c.1 || nc.1 == end)
            ||| final(output)@ == old(output)@.push(c) && nc == (start, end)
        },
{
    match cur {
        Some(cv) => {
            if start <= cv.1 || start - cv.1 < min_gap {
                let e2 = if cv.1 >= end {
                    cv.1
                } else {
                    end
                };
                proof {
                    lemma_covered_extend(output@, cv, e2);
                }
                (cv.0, e2)
            } else {
                let ghost prev = output@;
                output.push(cv);
                proof {
                    lemma_covered_flush(prev, cv, (start, end));
                    lemma_segments_push(prev, cv, align_bits, min_gap as int);
                }
                (start, end)
            }
        },
        None => (start, end),
    }
}

/// Row states carry over when every interval covered before stays covered.
proof fn lemma_row_state_transfer(
    rects: Seq<Rect>,
    starts: Seq<usize>,
    active: Seq<bool>,
    rc: Seq<usize>,
    segs1: Seq<(usize, usize)>,
    cur1: Option<(usize, usize)>,
    segs2: Seq<(usize, usize)>,
    cur2: Option<(usize, usize)>,
    i: int,
    offset: int,
    stride: int,
    bpp: int,
    align_bits: u32,
    min_gap: int,
)
    requires
        row_state_ok(rects, starts, active, rc, segs1, cur1, i, offset, stride, bpp, align_bits, min_gap),
        forall|s: int, e: int| covered_by(segs1, cur1, s, e) ==> #[trigger] covered_by(segs2, cur2, s, e),
    ensures
        row_state_ok(rects, starts, active, rc, segs2, cur2, i, offset, stride, bpp, align_bits, min_gap),
{
    reveal(row_state_ok);
}

/// Merge the rows of the rectangles of one group, visiting rows in order of their
/// start, into segments appended to `output`. When the estimated work grows beyond an
/// eighth of the group's extent, the rest of the group is covered by one segment.
#[verifier::rlimit(100)]
#[verifier::spinoff_prover]
fn process_group(
    rects: &[Rect],
    bound: (usize, usize),
    output: &mut Vec<(usize, usize)>,
    align_bits: u32,
    min_gap: usize,
    offset: usize,
    stride: usize,
    bpp: usize,
)
    requires
        group_ok(rects@, bound, align_bits, offset as int, stride as int, bpp as int),
        segments_valid(old(output)@, align_bits, min_gap as int),
        old(output)@.len() > 0 ==> bound.0 >= old(output)@.last().1 + min_gap,
    ensures
        final(output)@.len() > old(output)@.len(),
        final(output)@.subrange(0, old(output)@.len() as int) == old(output)@,
        segments_valid(final(output)@, align_bits, min_gap as int),
        tail_within(final(output)@, old(output)@.len() as int, bound),
        final(output)@ == group_segments(rects@, bound, old(output)@, offset as int, stride as int, bpp as int, align_bits, min_gap as int),
        forall|i: int|
            0 <= i < rects@.len() ==> rect_covered(
                final(output)@,
                #[trigger] rects@[i],
                offset as int,
                stride as int,
                bpp as int,
            ),
{
    let n = rects.len();
    let ghost o = offset as int;
    let ghost st = stride as int;
    let ghost bp = bpp as int;
    let ghost mg = min_gap as int;
    let ghost m = align_unit(align_bits);
    let ghost old_out = output@;
    proof {
        lemma_pow2_pos(align_bits as nat);
        reveal(tail_within);
    }

    // Pending row of each rectangle: its aligned start, whether it is pending, and which
    // row it is (or `usize::MAX` where the whole rectangle is one block).
    let mut starts: Vec<usize> = Vec::new();
    let mut active: Vec<bool> = Vec::new();
    let mut row_counters: Vec<usize> = Vec::new();
    let mut i: usize = 0;
    while i < n
        invariant
            i <= n,
            n == rects@.len(),
            group_ok(rects@, bound, align_bits, o, st, bp),
            stride == st,
            offset == o,
            bpp == bp,
            min_gap == mg,
            m == align_unit(align_bits),
            m > 0,
            starts.len() == i,
            active.len() == i,
            row_counters.len() == i,
            forall|j: int| 0 <= j < i ==> #[trigger] active[j],
            forall|j: int| 0 <= j < i ==> #[trigger] starts[j] == round_down(row_start(rects@[j], 0, o, st, bp), m) as usize,
            forall|j: int|
                0 <= j < i ==> #[trigger] row_counters[j] == (if is_wide(rects@[j], st, bp, mg) { usize::MAX } else { 0usize }),
            forall|j: int|
                0 <= j < i ==> #[trigger] row_state_ok(
                    rects@,
                    starts@,
                    active@,
                    row_counters@,
                    old_out,
                    None,
                    j,
                    o,
                    st,
                    bp,
                    align_bits,
                    mg,
                ),
        decreases n - i,
    {
        let r = rects[i];
        proof {
            assert(rect_fits(rects@[i as int], o, st, bp, align_bits));
            lemma_row_positions(r, 0, o, st, bp);
            lemma_rounding(pixel_pos(r.x2 as int, r.y2 as int, o, st, bp), m);
        }
        let wide = (r.x2 - r.x1) as usize * bpp > stride.saturating_sub(min_gap);
        proof {
            assert(wide == is_wide(r, st, bp, mg));
        }
        let ghost s0 = starts@;
        let ghost a0 = active@;
        let ghost r0 = row_counters@;
        if wide {
            row_counters.push(usize::MAX);
        } else {
            row_counters.push(0);
        }
        let start_pos = align_down(
            offset + (r.y1 as usize) * stride + (r.x1 as usize) * bpp,
            align_bits,
        );
        starts.push(start_pos);
        active.push(true);
        proof {
            reveal(row_state_ok);
            assert forall|j: int| 0 <= j < i + 1 implies #[trigger] row_state_ok(
                rects@,
                starts@,
                active@,
                row_counters@,
                old_out,
                None,
                j,
                o,
                st,
                bp,
                align_bits,
                mg,
            ) by {
                if j < i {
                    lemma_row_state_local(rects@, s0, a0, r0, starts@, active@, row_counters@, old_out, None, j, o, st, bp, align_bits, mg);
                }
            }
        }
        i = i + 1;
    }

    let ghost target = group_segments(rects@, bound, old_out, o, st, bp, align_bits, mg);
    proof {
        assert(starts@ =~= initial_starts(rects@, o, st, bp, align_bits));
        assert(active@ =~= Seq::new(n as nat, |j: int| true));
        assert(row_counters@ =~= initial_rc(rects@, st, bp, mg));
    }
    let ghost mut fuel: nat = total_remaining(rects@, active@, row_counters@, n as int, st, bp, mg) + 1;
    let mut cur: Option<(usize, usize)> = None;
    let mut work_estimate: usize = 0;
    let mut sel = select_min(&starts, &active);
    while sel.is_some()
        invariant
            n == rects@.len(),
            group_ok(rects@, bound, align_bits, o, st, bp),
            stride == st,
            offset == o,
            bpp == bp,
            min_gap == mg,
            m == align_unit(align_bits),
            m > 0,
            starts.len() == n,
            active.len() == n,
            row_counters.len() == n,
            sel is None ==> forall|j: int| 0 <= j < n ==> !active[j],
            sel is None ==> next_row(starts@, active@) is None,
            sel matches Some(mi) ==> next_row(starts@, active@) == Some(mi as int),
            merge_run(rects@, bound, starts@, active@, row_counters@, output@, cur, work_estimate as int, fuel, o, st, bp, align_bits, mg) == target,
            target == group_segments(rects@, bound, old_out, o, st, bp, align_bits, mg),
            total_remaining(rects@, active@, row_counters@, n as int, st, bp, mg) < fuel,
            sel matches Some(mi) ==> {
                &&& mi < n
                &&& active[mi as int]
                &&& forall|j: int| 0 <= j < n && active[j] ==> starts[mi as int] <= starts[j]
            },
            forall|j: int|
                0 <= j < n ==> #[trigger] row_state_ok(
                    rects@,
                    starts@,
                    active@,
                    row_counters@,
                    output@,
                    cur,
                    j,
                    o,
                    st,
                    bp,
                    align_bits,
                    mg,
                ),
            cur is None ==> output@ == old_out,
            cur is None ==> forall|j: int| 0 <= j < n ==> #[trigger] active[j],
            cur is None ==> (old_out.len() > 0 ==> bound.0 >= old_out.last().1 + mg),
            cur matches Some(c) ==> {
                &&& c.0 < c.1
                &&& is_aligned(c.0 as int, m)
                &&& is_aligned(c.1 as int, m)
                &&& bound.0 <= c.0
                &&& c.1 <= bound.1
                &&& output@.len() > 0 ==> c.0 >= output@.last().1 + mg
                &&& forall|j: int| 0 <= j < n && active[j] ==> c.0 <= #[trigger] starts[j]
            },
            old_out == old(output)@,
            output@.len() >= old_out.len(),
            output@.subrange(0, old_out.len() as int) == old_out,
            segments_valid(output@, align_bits, mg),
            tail_within(output@, old_out.len() as int, bound),
            work_estimate <= (bound.1 - bound.0) / 8,
        decreases total_remaining(rects@, active@, row_counters@, n as int, st, bp, mg),
    {
        let i = sel.unwrap();
        let start = starts[i];
        let rect = rects[i];
        let ghost h = rect.y2 - rect.y1;
        let ghost wide = is_wide(rect, st, bp, mg);
        let ghost old_starts = starts@;
        let ghost old_active = active@;
        let ghost old_rc = row_counters@;
        let ghost prev_out = output@;
        let ghost prev_cur = cur;
        let ghost old_work = work_estimate;
        proof {
            assert(rect_fits(rects@[i as int], o, st, bp, align_bits));
            lemma_row_state_facts(rects@, starts@, active@, row_counters@, output@, cur, i as int, o, st, bp, align_bits, mg);
            lemma_row_positions(rect, 0, o, st, bp);
            lemma_total_remaining_pos(rects@, active@, row_counters@, n as int, st, bp, mg, i as int);
        }
        let merge_opt = row_counters[i] == usize::MAX;
        let ghost k0: int = if merge_opt { 0 } else { row_counters[i as int] as int };
        let ghost k1: int = if merge_opt { h - 1 } else { row_counters[i as int] as int };
        proof {
            assert(merge_opt == wide);
            lemma_row_positions(rect, k1, o, st, bp);
            lemma_rounding(pixel_pos(rect.x2 as int, rect.y2 as int, o, st, bp), m);
            assert(h < usize::MAX);
            lemma_rows_ordered(rect, k0, k1, o, st, bp);
            lemma_rounding(row_start(rect, k0, o, st, bp), m);
            lemma_rounding(row_end(rect, k1, o, st, bp), m);
            lemma_round_up_below_aligned(row_end(rect, k1, o, st, bp), bound.1 as int, m);
            lemma_round_down_above_aligned(bound.0 as int, row_start(rect, k0, o, st, bp), m);
            lemma_rows_ordered(rect, 0, k0, o, st, bp);
            lemma_rows_ordered(rect, k1, h - 1, o, st, bp);
            lemma_rounding_monotone(
                row_end(rect, k1, o, st, bp),
                pixel_pos(rect.x2 as int, rect.y2 as int, o, st, bp),
                m,
            );
        }
        let end = if merge_opt {
            align_up(
                offset + ((rect.y2 - 1) as usize) * stride + (rect.x2 as usize) * bpp,
                align_bits,
            )
        } else {
            align_up(
                offset + (rect.y1 as usize + row_counters[i]) * stride + (rect.x2 as usize) * bpp,
                align_bits,
            )
        };
        let nc = merge_into(output, cur, start, end, min_gap, align_bits);
        proof {
            if output@.len() > prev_out.len() {
                lemma_tail_within_push(prev_out, old_out.len() as int, bound, prev_cur.unwrap());
            }
        }
        cur = Some(nc);
        active.set(i, false);
        let ghost mid_out = output@;
        proof {
            assert(output@.subrange(0, old_out.len() as int) =~= prev_out.subrange(0, old_out.len() as int));
            assert forall|k: int| k0 <= k <= k1 implies #[trigger] covered_by(
                mid_out,
                cur,
                row_start(rect, k, o, st, bp),
                row_end(rect, k, o, st, bp),
            ) by {
                lemma_rows_ordered(rect, k0, k, o, st, bp);
                lemma_rows_ordered(rect, k, k1, o, st, bp);
            }
        }
        if !merge_opt {
            let nrc = row_counters[i] + 1;
            row_counters.set(i, nrc);
            if nrc < (rect.y2 - rect.y1) as usize {
                proof {
                    lemma_row_positions(rect, nrc as int, o, st, bp);
                    lemma_rows_ordered(rect, k0, nrc as int, o, st, bp);
                    lemma_rounding_monotone(
                        row_start(rect, k0, o, st, bp),
                        row_start(rect, nrc as int, o, st, bp),
                        m,
                    );
                }
                let sp = align_down(
                    offset + (rect.y1 as usize + nrc) * stride + (rect.x1 as usize) * bpp,
                    align_bits,
                );
                starts.set(i, sp);
                active.set(i, true);
            }
        }
        proof {
            lemma_visit_step(
                rects@, old_starts, old_active, old_rc, starts@, active@, row_counters@,
                prev_out, prev_cur, mid_out, nc, i as int, k0, k1, o, st, bp, align_bits, mg,
            );
            assert forall|j: int| 0 <= j < n && active[j] implies nc.0 <= #[trigger] starts[j] by {
                if j != i {
                    assert(old_active[j]);
                }
            }
            lemma_total_remaining_step(rects@, old_active, old_rc, active@, row_counters@, n as int, st, bp, mg, i as int);
        }
        proof {
            let vs = visit_spec(rects@, old_starts, old_active, old_rc, prev_out, prev_cur, i as int, o, st, bp, align_bits, mg);
            assert(vs == (starts@, active@, row_counters@, mid_out, nc)) by {
                reveal(visit_spec);
                assert(end as int == round_up(row_end(rect, k1, o, st, bp), m));
                if merge_opt {
                    assert(active@ =~= old_active.update(i as int, false));
                    assert(starts@ =~= old_starts);
                    assert(row_counters@ =~= old_rc);
                } else if old_rc[i as int] + 1 < h {
                    assert(active@ =~= old_active);
                    assert(starts@ =~= old_starts.update(i as int, round_down(row_start(rect, old_rc[i as int] + 1, o, st, bp), m) as usize));
                    assert(row_counters@ =~= old_rc.update(i as int, (old_rc[i as int] + 1) as usize));
                } else {
                    assert(active@ =~= old_active.update(i as int, false));
                    assert(starts@ =~= old_starts);
                    assert(row_counters@ =~= old_rc.update(i as int, (old_rc[i as int] + 1) as usize));
                }
            }
            lemma_merge_run_visit(rects@, bound, old_starts, old_active, old_rc, prev_out, prev_cur, old_work as int, fuel, i as int,
                starts@, active@, row_counters@, mid_out, nc, o, st, bp, align_bits, mg);
        }
        let n_active = count_active(&active);
        proof {
            lemma_count_true_bound(active@);
        }
        let lg = floor_log2(if n_active > 16 { n_active } else { 16 });
        proof {
            assert(lg == visit_work(active@));
        }
        work_estimate = work_estimate + lg as usize;
        if work_estimate > (bound.1 - bound.0) / 8 {
            let c = cur.unwrap();
            let ghost before = output@;
            output.push((c.0, bound.1));
            proof {
                lemma_segments_push(before, (c.0, bound.1), align_bits, mg);
                lemma_tail_within_push(before, old_out.len() as int, bound, (c.0, bound.1));
                lemma_finish_early(rects@, starts@, active@, row_counters@, before, c, bound, o, st, bp, align_bits, mg);
                assert(output@.subrange(0, old_out.len() as int) =~= before.subrange(0, old_out.len() as int));
                assert(before == mid_out);
            }
            return;
        }
        proof {
            fuel = (fuel - 1) as nat;
        }
        sel = select_min(&starts, &active);
    }
    proof {
        if cur is None {
            assert(active@[0]);
        }
        lemma_merge_run_done(rects@, bound, starts@, active@, row_counters@, output@, cur.unwrap(), work_estimate as int, fuel, o, st, bp, align_bits, mg);
    }
    let ghost before = output@;
    let cv = cur.unwrap();
    output.push(cv);
    proof {
        lemma_segments_push(before, cv, align_bits, mg);
        lemma_tail_within_push(before, old_out.len() as int, bound, cv);
        lemma_finish(rects@, starts@, active@, row_counters@, before, cv, o, st, bp, align_bits, mg);
        assert(output@.subrange(0, old_out.len() as int) =~= before.subrange(0, old_out.len() as int));
    }
}

/// Every rectangle of a group is nonempty and fits, and lies within the group's aligned bounds.
pub open spec fn group_ok(
    rects: Seq<Rect>,
    bound: (usize, usize),
    align_bits: u32,
    offset: int,
    stride: int,
    bpp: int,
) -> bool {
    &&& rects.len() >= 1
    &&& offset >= 0
    &&& stride > 0
    &&& bpp > 0
    &&& align_bits < usize::BITS
    &&& forall|i: int| 0 <= i < rects.len() ==> rect_fits(#[trigger] rects[i], offset, stride, bpp, align_bits)
    &&& bound.0 <= bound.1
    &&& is_aligned(bound.0 as int, align_unit(align_bits))
    &&& is_aligned(bound.1 as int, align_unit(align_bits))
    &&& forall|i: int| 0 <= i < rects.len() ==> bound_ok(#[trigger] rects[i], bound, offset, stride, bpp)
}

/// What the state says of a pending rectangle.
proof fn lemma_row_state_facts(
    rects: Seq<Rect>,
    starts: Seq<usize>,
    active: Seq<bool>,
    rc: Seq<usize>,
    segs: Seq<(usize, usize)>,
    cur: Option<(usize, usize)>,
    i: int,
    offset: int,
    stride: int,
    bpp: int,
    align_bits: u32,
    min_gap: int,
)
    requires
        row_state_ok(rects, starts, active, rc, segs, cur, i, offset, stride, bpp, align_bits, min_gap),
        active[i],
    ensures
        is_wide(rects[i], stride, bpp, min_gap) ==> rc[i] == usize::MAX && starts[i] == round_down(
            row_start(rects[i], 0, offset, stride, bpp),
            align_unit(align_bits),
        ),
        !is_wide(rects[i], stride, bpp, min_gap) ==> rc[i] < rects[i].y2 - rects[i].y1 && rc[i]
            < usize::MAX && starts[i] == round_down(
            row_start(rects[i], rc[i] as int, offset, stride, bpp),
            align_unit(align_bits),
        ),
{
    reveal(row_state_ok);
}

/// After visiting the pending row(s) `k0..=k1` of rectangle `i`, every rectangle's state holds
/// again.
proof fn lemma_visit_step(
    rects: Seq<Rect>,
    starts1: Seq<usize>,
    active1: Seq<bool>,
    rc1: Seq<usize>,
    starts2: Seq<usize>,
    active2: Seq<bool>,
    rc2: Seq<usize>,
    segs1: Seq<(usize, usize)>,
    cur1: Option<(usize, usize)>,
    segs2: Seq<(usize, usize)>,
    c2: (usize, usize),
    i: int,
    k0: int,
    k1: int,
    offset: int,
    stride: int,
    bpp: int,
    align_bits: u32,
    min_gap: int,
)
    requires
        0 <= i < rects.len(),
        rects[i].y2 - rects[i].y1 < usize::MAX,
        starts1.len() == active1.len() == rc1.len() == rects.len(),
        starts2.len() == active2.len() == rc2.len() == rects.len(),
        stride > 0,
        forall|j: int|
            0 <= j < rects.len() ==> #[trigger] row_state_ok(
                rects,
                starts1,
                active1,
                rc1,
                segs1,
                cur1,
                j,
                offset,
                stride,
                bpp,
                align_bits,
                min_gap,
            ),
        forall|j: int|
            0 <= j < rects.len() && j != i ==> starts1[j] == starts2[j] && active1[j] == active2[j]
                && rc1[j] == rc2[j],
        forall|s: int, e: int| covered_by(segs1, cur1, s, e) ==> #[trigger] covered_by(segs2, Some(c2), s, e),
        active1[i],
        forall|k: int|
            k0 <= k <= k1 ==> #[trigger] covered_by(
                segs2,
                Some(c2),
                row_start(rects[i], k, offset, stride, bpp),
                row_end(rects[i], k, offset, stride, bpp),
            ),
        is_wide(rects[i], stride, bpp, min_gap) ==> {
            &&& k0 == 0
            &&& k1 == rects[i].y2 - rects[i].y1 - 1
            &&& rc2[i] == rc1[i]
            &&& !active2[i]
        },
        !is_wide(rects[i], stride, bpp, min_gap) ==> {
            &&& k0 == rc1[i]
            &&& k1 == k0
            &&& rc2[i] == rc1[i] + 1
            &&& (active2[i] <==> rc2[i] < rects[i].y2 - rects[i].y1)
            &&& active2[i] ==> starts2[i] == round_down(
                row_start(rects[i], rc2[i] as int, offset, stride, bpp),
                align_unit(align_bits),
            )
        },
    ensures
        forall|j: int|
            0 <= j < rects.len() ==> #[trigger] row_state_ok(
                rects,
                starts2,
                active2,
                rc2,
                segs2,
                Some(c2),
                j,
                offset,
                stride,
                bpp,
                align_bits,
                min_gap,
            ),
{
    reveal(row_state_ok);
    assert forall|j: int| 0 <= j < rects.len() implies #[trigger] row_state_ok(
        rects,
        starts2,
        active2,
        rc2,
        segs2,
        Some(c2),
        j,
        offset,
        stride,
        bpp,
        align_bits,
        min_gap,
    ) by {
        assert(row_state_ok(rects, starts1, active1, rc1, segs1, cur1, j, offset, stride, bpp, align_bits, min_gap));
        if j != i {
            lemma_row_state_transfer(rects, starts1, active1, rc1, segs1, cur1, segs2, Some(c2), j, offset, stride, bpp, align_bits, min_gap);
            lemma_row_state_local(rects, starts1, active1, rc1, starts2, active2, rc2, segs2, Some(c2), j, offset, stride, bpp, align_bits, min_gap);
        } else {
            let r = rects[i];
            if !is_wide(r, stride, bpp, min_gap) {
                assert(rc1[i] < r.y2 - r.y1);
            }
            assert forall|k: int| 0 <= k < k0 implies #[trigger] covered_by(
                segs2,
                Some(c2),
                row_start(r, k, offset, stride, bpp),
                row_end(r, k, offset, stride, bpp),
            ) by {
                assert(covered_by(segs1, cur1, row_start(r, k, offset, stride, bpp), row_end(r, k, offset, stride, bpp)));
            }
        }
    }
}

/// When no row is pending, closing the segment under construction covers every rectangle.
proof fn lemma_finish(
    rects: Seq<Rect>,
    starts: Seq<usize>,
    active: Seq<bool>,
    rc: Seq<usize>,
    segs: Seq<(usize, usize)>,
    c: (usize, usize),
    offset: int,
    stride: int,
    bpp: int,
    align_bits: u32,
    min_gap: int,
)
    requires
        forall|j: int| 0 <= j < rects.len() ==> !active[j],
        forall|j: int|
            0 <= j < rects.len() ==> #[trigger] row_state_ok(
                rects,
                starts,
                active,
                rc,
                segs,
                Some(c),
                j,
                offset,
                stride,
                bpp,
                align_bits,
                min_gap,
            ),
    ensures
        forall|i: int|
            0 <= i < rects.len() ==> rect_covered(segs.push(c), #[trigger] rects[i], offset, stride, bpp),
{
    reveal(row_state_ok);
    lemma_covered_close(segs, c);
    assert forall|i: int| 0 <= i < rects.len() implies rect_covered(
        segs.push(c),
        #[trigger] rects[i],
        offset,
        stride,
        bpp,
    ) by {
        assert(row_state_ok(rects, starts, active, rc, segs, Some(c), i, offset, stride, bpp, align_bits, min_gap));
    }
}

/// Stopping early with one segment from the start of the current one to the group's end
/// covers every rectangle of the group.
proof fn lemma_finish_early(
    rects: Seq<Rect>,
    starts: Seq<usize>,
    active: Seq<bool>,
    rc: Seq<usize>,
    segs: Seq<(usize, usize)>,
    c: (usize, usize),
    bound: (usize, usize),
    offset: int,
    stride: int,
    bpp: int,
    align_bits: u32,
    min_gap: int,
)
    requires
        group_ok(rects, bound, align_bits, offset, stride, bpp),
        c.1 <= bound.1,
        forall|j: int| 0 <= j < rects.len() && active[j] ==> c.0 <= #[trigger] starts[j],
        forall|j: int|
            0 <= j < rects.len() ==> #[trigger] row_state_ok(
                rects,
                starts,
                active,
                rc,
                segs,
                Some(c),
                j,
                offset,
                stride,
                bpp,
                align_bits,
                min_gap,
            ),
    ensures
        forall|i: int|
            0 <= i < rects.len() ==> rect_covered(
                segs.push((c.0, bound.1)),
                #[trigger] rects[i],
                offset,
                stride,
                bpp,
            ),
{
    reveal(row_state_ok);
    let last = (c.0, bound.1);
    let segs2 = segs.push(last);
    lemma_pow2_pos(align_bits as nat);
    assert forall|i: int| 0 <= i < rects.len() implies rect_covered(
        segs2,
        #[trigger] rects[i],
        offset,
        stride,
        bpp,
    ) by {
        let r = rects[i];
        let h = r.y2 - r.y1;
        assert(row_state_ok(rects, starts, active, rc, segs, Some(c), i, offset, stride, bpp, align_bits, min_gap));
        assert(rect_fits(rects[i], offset, stride, bpp, align_bits));
        assert forall|k: int| 0 <= k < h implies contains_interval(
            segs2,
            #[trigger] row_start(r, k, offset, stride, bpp),
            row_end(r, k, offset, stride, bpp),
        ) by {
            let rs = row_start(r, k, offset, stride, bpp);
            let re = row_end(r, k, offset, stride, bpp);
            assert(segs2[segs.len() as int] == last);
            lemma_row_positions(r, k, offset, stride, bpp);
            lemma_rows_ordered(r, k, h - 1, offset, stride, bpp);
            assert(re <= bound.1);
            if contains_interval(segs, rs, re) {
                let j = choose|j: int| 0 <= j < segs.len() && #[trigger] segs[j].0 <= rs && re <= segs[j].1;
                assert(segs2[j] == segs[j]);
            } else if covered_by(segs, Some(c), rs, re) {
                assert(segs2[segs.len() as int].0 <= rs && re <= segs2[segs.len() as int].1);
            } else {
                // The row is still pending: it starts after the pending start of its rectangle.
                assert(active[i]);
                let k0: int = if is_wide(r, stride, bpp, min_gap) { 0 } else { rc[i] as int };
                lemma_rows_ordered(r, k0, k, offset, stride, bpp);
                lemma_row_positions(r, k0, offset, stride, bpp);
                lemma_rounding(row_start(r, k0, offset, stride, bpp), align_unit(align_bits));
                assert(c.0 <= starts[i]);
                assert(segs2[segs.len() as int].0 <= rs && re <= segs2[segs.len() as int].1);
            }
        }
    }
}

/// The position of the first byte of a rectangle, saturated; rectangles are sorted by it.
pub open spec fn start_key(r: Rect, offset: int, stride: int, bpp: int) -> int {
    saturate(pixel_pos(r.x1 as int, r.y1 as int, offset, stride, bpp))
}

pub open spec fn sorted_by_start(rects: Seq<Rect>, offset: int, stride: int, bpp: int) -> bool {
    forall|i: int, j: int|
        0 <= i <= j < rects.len() ==> start_key(#[trigger] rects[i], offset, stride, bpp) <= start_key(
            #[trigger] rects[j],
            offset,
            stride,
            bpp,
        )
}

proof fn lemma_swap_multiset<A>(s: Seq<A>, i: int, j: int)
    requires
        0 <= i < s.len(),
        0 <= j < s.len(),
        i != j,
    ensures
        s.update(i, s[j]).update(j, s[i]).to_multiset() =~= s.to_multiset(),
{
    broadcast use vstd::seq_lib::to_multiset_update;
    broadcast use vstd::seq_lib::group_to_multiset_ensures;
    broadcast use vstd::multiset::group_multiset_axioms;
    let s1 = s.update(i, s[j]);
    let m = s.to_multiset();
    assert(s1[j] == s[j]);
    assert(s.contains(s[i]));
    assert(s1.to_multiset() =~= m.insert(s[j]).remove(s[i]));
    assert(s1.update(j, s[i]).to_multiset() =~= s1.to_multiset().insert(s[i]).remove(s[j]));
    assert(m.count(s[i]) > 0);
    assert(m.insert(s[j]).remove(s[i]).insert(s[i]).remove(s[j]) =~= m);
}

/// Sort rectangles by the position of their first byte (insertion sort, keys computed once).
fn sort_by_start(rects: &mut [Rect], offset: usize, stride: usize, bpp: usize)
    ensures
        final(rects)@.len() == old(rects)@.len(),
        final(rects)@.to_multiset() == old(rects)@.to_multiset(),
        sorted_by_start(final(rects)@, offset as int, stride as int, bpp as int),
{
    let n = rects.len();
    let ghost o = offset as int;
    let ghost st = stride as int;
    let ghost bp = bpp as int;
    let mut keys: Vec<usize> = Vec::new();
    let mut k: usize = 0;
    while k < n
        invariant
            k <= n,
            n == rects@.len(),
            rects@ == old(rects)@,
            o == offset,
            st == stride,
            bp == bpp,
            keys.len() == k,
            forall|t: int| 0 <= t < k ==> keys[t] == start_key(#[trigger] rects@[t], o, st, bp),
        decreases n - k,
    {
        let b = bounding_interval(&rects[k], offset, stride, bpp);
        let ghost k0 = keys@;
        keys.push(b.0);
        proof {
            assert forall|t: int| 0 <= t < k + 1 implies keys[t] == start_key(#[trigger] rects@[t], o, st, bp) by {
                if t < k {
                    assert(keys@[t] == k0[t]);
                }
            }
        }
        k = k + 1;
    }
    let mut i: usize = 1;
    while i < n
        invariant
            1 <= i || n == 0,
            i <= n || n == 0,
            n == rects@.len(),
            keys.len() == n,
            rects@.to_multiset() == old(rects)@.to_multiset(),
            forall|t: int| 0 <= t < n ==> keys[t] == start_key(#[trigger] rects@[t], o, st, bp),
            forall|a: int, b: int| 0 <= a <= b < i && b < n ==> keys[a] <= keys[b],
        decreases n - i,
    {
        let mut j: usize = i;
        while j > 0 && keys[j - 1] > keys[j]
            invariant
                0 <= j <= i < n,
                n == rects@.len(),
                keys.len() == n,
                rects@.to_multiset() == old(rects)@.to_multiset(),
                forall|t: int| 0 <= t < n ==> keys[t] == start_key(#[trigger] rects@[t], o, st, bp),
                forall|a: int, b: int| 0 <= a <= b < i + 1 && a != j && b != j ==> keys[a] <= keys[b],
                forall|b: int| j < b <= i ==> keys[j as int] <= keys[b],
            decreases j,
        {
            let ghost r0 = rects@;
            let tr = rects[j - 1];
            let tk = keys[j - 1];
            rects[j - 1] = rects[j];
            rects[j] = tr;
            keys.set(j - 1, keys[j]);
            keys.set(j, tk);
            proof {
                lemma_swap_multiset(r0, j - 1, j as int);
                assert(rects@ =~= r0.update(j - 1, r0[j as int]).update(j as int, r0[j - 1]));
            }
            j = j - 1;
        }
        i = i + 1;
    }
    proof {
        assert forall|a: int, b: int| 0 <= a <= b < rects@.len() implies start_key(#[trigger] rects@[a], o, st, bp)
            <= start_key(#[trigger] rects@[b], o, st, bp) by {
            assert(keys[a] <= keys[b]);
        }
    }
}

/// Coverage by a prefix of segments carries over to the whole sequence.
proof fn lemma_covered_prefix(segs: Seq<(usize, usize)>, len: int, r: Rect, offset: int, stride: int, bpp: int)
    requires
        0 <= len <= segs.len(),
        rect_covered(segs.subrange(0, len), r, offset, stride, bpp),
    ensures
        rect_covered(segs, r, offset, stride, bpp),
{
    let pre = segs.subrange(0, len);
    assert forall|k: int| 0 <= k < r.y2 - r.y1 implies contains_interval(
        segs,
        #[trigger] row_start(r, k, offset, stride, bpp),
        row_end(r, k, offset, stride, bpp),
    ) by {
        assert(contains_interval(pre, row_start(r, k, offset, stride, bpp), row_end(r, k, offset, stride, bpp)));
        let j = choose|j: int| 0 <= j < pre.len() && #[trigger] pre[j].0 <= row_start(r, k, offset, stride, bpp) && row_end(r, k, offset, stride, bpp) <= pre[j].1;
        assert(segs[j] == pre[j]);
    }
}

/// The byte extent of a rectangle, from its first byte to the end of the row after its
/// last row, widened to multiples of `2^align_bits`.
pub open spec fn aligned_extent(r: Rect, offset: int, stride: int, bpp: int, align_bits: u32) -> (usize, usize) {
    (
        round_down(start_key(r, offset, stride, bpp), align_unit(align_bits)) as usize,
        round_up(saturate(pixel_pos(r.x2 as int, r.y2 as int, offset, stride, bpp)), align_unit(align_bits)) as usize,
    )
}

/// The segments for the sorted rectangles `rects`, from rectangle `i` on, given that the
/// group under construction starts at rectangle `g_start` with extent `region` and that
/// `out` was emitted before it. A rectangle whose extent starts within `min_gap` of the
/// group's end joins the group; otherwise the group's rows are merged (see
/// `group_segments`) and the rectangle starts the next group.
pub open spec fn damage_run(
    rects: Seq<Rect>,
    i: int,
    g_start: int,
    region: (usize, usize),
    out: Seq<(usize, usize)>,
    offset: int,
    stride: int,
    bpp: int,
    align_bits: u32,
    min_gap: int,
) -> Seq<(usize, usize)>
    decreases rects.len() - i,
{
    if i >= rects.len() {
        group_segments(rects.subrange(g_start, rects.len() as int), region, out, offset, stride, bpp, align_bits, min_gap)
    } else {
        let b = aligned_extent(rects[i], offset, stride, bpp, align_bits);
        if b.0 <= region.1 || b.0 - region.1 < min_gap {
            damage_run(
                rects,
                i + 1,
                g_start,
                (region.0, if region.1 >= b.1 { region.1 } else { b.1 }),
                out,
                offset,
                stride,
                bpp,
                align_bits,
                min_gap,
            )
        } else {
            damage_run(
                rects,
                i + 1,
                i,
                b,
                group_segments(rects.subrange(g_start, i), region, out, offset, stride, bpp, align_bits, min_gap),
                offset,
                stride,
                bpp,
                align_bits,
                min_gap,
            )
        }
    }
}

/// The damaged byte ranges of the rectangles `rects`, taken in the given order (sorted by
/// the position of their first byte).
pub open spec fn damaged_segments_spec(
    rects: Seq<Rect>,
    align_bits: u32,
    min_gap: int,
    offset: int,
    stride: int,
    bpp: int,
) -> Seq<(usize, usize)> {
    if rects.len() == 0 {
        Seq::empty()
    } else {
        damage_run(rects, 1, 0, aligned_extent(rects[0], offset, stride, bpp, align_bits), Seq::empty(), offset, stride, bpp, align_bits, min_gap)
    }
}

/// Compute a list of byte ranges, in increasing order, that together contain every row of
/// every damaged rectangle of an image with `bpp` bytes per pixel and `stride` bytes per
/// row, starting `offset` bytes into a buffer. Each range starts and ends at a multiple of
/// `2^align_bits`, and any two ranges are separated by at least `min_gap` bytes.
///
/// The rectangles are sorted in place by the position of their first byte. Rectangles whose
/// rows lie close together are grouped; the rows of each group are then merged in order of
/// position, unless the merging work grows too large for the group's extent, in which case
/// the rest of the group is covered by a single range.
pub fn compute_damaged_segments(
    rects: &mut [Rect],
    align_bits: u32,
    min_gap: usize,
    offset: usize,
    stride: usize,
    bpp: usize,
) -> (out: Vec<(usize, usize)>)
    requires
        old(rects)@.len() > 0 ==> {
            &&& stride > 0
            &&& bpp > 0
            &&& align_bits < usize::BITS
            &&& forall|i: int|
                0 <= i < old(rects)@.len() ==> rect_fits(
                    #[trigger] old(rects)@[i],
                    offset as int,
                    stride as int,
                    bpp as int,
                    align_bits,
                )
        },
    ensures
        final(rects)@.to_multiset() == old(rects)@.to_multiset(),
        sorted_by_start(final(rects)@, offset as int, stride as int, bpp as int),
        old(rects)@.len() == 0 ==> out@.len() == 0,
        out@ == damaged_segments_spec(final(rects)@, align_bits, min_gap as int, offset as int, stride as int, bpp as int),
        segments_valid(out@, align_bits, min_gap as int),
        forall|i: int|
            0 <= i < old(rects)@.len() ==> rect_covered(
                out@,
                #[trigger] old(rects)@[i],
                offset as int,
                stride as int,
                bpp as int,
            ),
{
    if rects.len() == 0 {
        proof {
            reveal(segments_valid);
        }
        return Vec::new();
    }
    let ghost o = offset as int;
    let ghost st = stride as int;
    let ghost bp = bpp as int;
    let ghost mg = min_gap as int;
    let ghost m = align_unit(align_bits);
    let ghost orig = rects@;

    sort_by_start(rects, offset, stride, bpp);
    let n = rects.len();
    proof {
        broadcast use vstd::seq_lib::group_to_multiset_ensures;
        lemma_pow2_pos(align_bits as nat);
        assert forall|i: int| 0 <= i < n implies rect_fits(#[trigger] rects@[i], o, st, bp, align_bits) by {
            assert(rects@.contains(rects@[i]));
            assert(rects@.to_multiset().count(rects@[i]) > 0);
            assert(orig.contains(rects@[i]));
        }
        reveal(segments_valid);
    }

    let mut output: Vec<(usize, usize)> = Vec::new();
    proof {
        lemma_fit_rect_facts(rects@[0], o, st, bp, align_bits);
        lemma_rect_extent_rounding(rects@[0], o, st, bp, align_bits);
    }
    let first = aligned_bounding_interval(&rects[0], offset, stride, bpp, align_bits);
    let mut g_start: usize = 0;
    let mut region = first;
    let mut i: usize = 1;
    let ghost target = damaged_segments_spec(rects@, align_bits, mg, o, st, bp);
    proof {
        assert(first == aligned_extent(rects@[0], o, st, bp, align_bits));
    }
    while i < n
        invariant
            target == damaged_segments_spec(rects@, align_bits, mg, o, st, bp),
            damage_run(rects@, i as int, g_start as int, region, output@, o, st, bp, align_bits, mg) == target,
            n == rects@.len(),
            n >= 1,
            o == offset,
            st == stride,
            bp == bpp,
            mg == min_gap,
            m == align_unit(align_bits),
            m > 0,
            stride > 0,
            bpp > 0,
            align_bits < usize::BITS,
            forall|t: int| 0 <= t < n ==> rect_fits(#[trigger] rects@[t], o, st, bp, align_bits),
            sorted_by_start(rects@, o, st, bp),
            g_start < i <= n,
            region.0 == round_down(start_key(rects@[g_start as int], o, st, bp), m),
            region.0 <= region.1,
            is_aligned(region.0 as int, m),
            is_aligned(region.1 as int, m),
            forall|t: int|
                g_start <= t < i ==> round_up(
                    pixel_pos((#[trigger] rects@[t]).x2 as int, rects@[t].y2 as int, o, st, bp),
                    m,
                ) <= region.1,
            segments_valid(output@, align_bits, mg),
            output@.len() > 0 ==> region.0 >= output@.last().1 + mg,
            forall|t: int| 0 <= t < g_start ==> rect_covered(output@, #[trigger] rects@[t], o, st, bp),
        decreases n - i,
    {
        proof {
            lemma_fit_rect_facts(rects@[i as int], o, st, bp, align_bits);
            lemma_rect_extent_rounding(rects@[i as int], o, st, bp, align_bits);
        }
        let b = aligned_bounding_interval(&rects[i], offset, stride, bpp, align_bits);
        proof {
            assert(b == aligned_extent(rects@[i as int], o, st, bp, align_bits));
        }
        if b.0 <= region.1 || (b.0 - region.1) < min_gap {
            let e = if region.1 >= b.1 {
                region.1
            } else {
                b.1
            };
            region = (region.0, e);
        } else {
            let ghost before = output@;
            proof {
                lemma_group_ok(rects@, g_start as int, i as int, region, o, st, bp, align_bits);
            }
            process_group(
                &rects[g_start..i],
                region,
                &mut output,
                align_bits,
                min_gap,
                offset,
                stride,
                bpp,
            );
            proof {
                lemma_after_group(rects@, g_start as int, i as int, before, output@, region, o, st, bp, align_bits);
                lemma_rounding(start_key(rects@[i as int], o, st, bp), m);
            }
            g_start = i;
            region = b;
        }
        i = i + 1;
    }
    let ghost before = output@;
    proof {
        lemma_group_ok(rects@, g_start as int, n as int, region, o, st, bp, align_bits);
    }
    process_group(
        &rects[g_start..n],
        region,
        &mut output,
        align_bits,
        min_gap,
        offset,
        stride,
        bpp,
    );
    proof {
        lemma_after_group(rects@, g_start as int, n as int, before, output@, region, o, st, bp, align_bits);
        broadcast use vstd::seq_lib::group_to_multiset_ensures;
        assert forall|t: int| 0 <= t < orig.len() implies rect_covered(
            output@,
            #[trigger] orig[t],
            o,
            st,
            bp,
        ) by {
            assert(orig.contains(orig[t]));
            assert(orig.to_multiset().count(orig[t]) > 0);
            assert(rects@.contains(orig[t]));
            let u = choose|u: int| 0 <= u < rects@.len() && rects@[u] == orig[t];
            assert(rect_covered(output@, rects@[u], o, st, bp));
        }
    }
    output
}

/// For a rectangle that fits, its bounding positions need no saturation.
proof fn lemma_fit_rect_facts(r: Rect, offset: int, stride: int, bpp: int, align_bits: u32)
    requires
        rect_fits(r, offset, stride, bpp, align_bits),
        offset >= 0,
        stride > 0,
        bpp > 0,
        align_bits < usize::BITS,
    ensures
        start_key(r, offset, stride, bpp) == row_start(r, 0, offset, stride, bpp),
        saturate(pixel_pos(r.x2 as int, r.y2 as int, offset, stride, bpp)) == pixel_pos(
            r.x2 as int,
            r.y2 as int,
            offset,
            stride,
            bpp,
        ),
        round_up(
            saturate(pixel_pos(r.x2 as int, r.y2 as int, offset, stride, bpp)),
            align_unit(align_bits),
        ) <= usize::MAX,
        row_end(r, r.y2 - r.y1 - 1, offset, stride, bpp) <= pixel_pos(
            r.x2 as int,
            r.y2 as int,
            offset,
            stride,
            bpp,
        ),
        0 <= row_start(r, 0, offset, stride, bpp),
{
    lemma_pow2_pos(align_bits as nat);
    lemma_row_positions(r, 0, offset, stride, bpp);
    lemma_row_positions(r, r.y2 - r.y1 - 1, offset, stride, bpp);
    lemma_rounding(pixel_pos(r.x2 as int, r.y2 as int, offset, stride, bpp), align_unit(align_bits));
}

/// The aligned extent of a rectangle that fits is a nonempty aligned range.
proof fn lemma_rect_extent_rounding(r: Rect, offset: int, stride: int, bpp: int, align_bits: u32)
    requires
        rect_fits(r, offset, stride, bpp, align_bits),
        offset >= 0,
        stride > 0,
        bpp > 0,
        align_bits < usize::BITS,
    ensures
        round_down(start_key(r, offset, stride, bpp), align_unit(align_bits)) <= round_up(
            pixel_pos(r.x2 as int, r.y2 as int, offset, stride, bpp),
            align_unit(align_bits),
        ),
        is_aligned(round_down(start_key(r, offset, stride, bpp), align_unit(align_bits)), align_unit(align_bits)),
        is_aligned(round_up(pixel_pos(r.x2 as int, r.y2 as int, offset, stride, bpp), align_unit(align_bits)), align_unit(align_bits)),
{
    lemma_pow2_pos(align_bits as nat);
    lemma_fit_rect_facts(r, offset, stride, bpp, align_bits);
    lemma_row_positions(r, 0, offset, stride, bpp);
    lemma_rounding(start_key(r, offset, stride, bpp), align_unit(align_bits));
    lemma_rounding(pixel_pos(r.x2 as int, r.y2 as int, offset, stride, bpp), align_unit(align_bits));
}

/// A run of sorted rectangles whose aligned extents lie in `region` forms a valid group.
proof fn lemma_group_ok(
    rects: Seq<Rect>,
    g_start: int,
    g_end: int,
    region: (usize, usize),
    offset: int,
    stride: int,
    bpp: int,
    align_bits: u32,
)
    requires
        0 <= g_start < g_end <= rects.len(),
        offset >= 0,
        stride > 0,
        bpp > 0,
        align_bits < usize::BITS,
        forall|t: int| 0 <= t < rects.len() ==> rect_fits(#[trigger] rects[t], offset, stride, bpp, align_bits),
        sorted_by_start(rects, offset, stride, bpp),
        region.0 == round_down(start_key(rects[g_start], offset, stride, bpp), align_unit(align_bits)),
        region.0 <= region.1,
        is_aligned(region.0 as int, align_unit(align_bits)),
        is_aligned(region.1 as int, align_unit(align_bits)),
        forall|t: int|
            g_start <= t < g_end ==> round_up(
                pixel_pos((#[trigger] rects[t]).x2 as int, rects[t].y2 as int, offset, stride, bpp),
                align_unit(align_bits),
            ) <= region.1,
    ensures
        group_ok(rects.subrange(g_start, g_end), region, align_bits, offset, stride, bpp),
{
    let g = rects.subrange(g_start, g_end);
    let m = align_unit(align_bits);
    lemma_pow2_pos(align_bits as nat);
    lemma_fit_rect_facts(rects[g_start], offset, stride, bpp, align_bits);
    lemma_rounding(start_key(rects[g_start], offset, stride, bpp), m);
    assert forall|i: int| 0 <= i < g.len() implies rect_fits(#[trigger] g[i], offset, stride, bpp, align_bits) by {
        assert(g[i] == rects[g_start + i]);
    }
    assert forall|i: int| 0 <= i < g.len() implies bound_ok(g[i], region, offset, stride, bpp) by {
        let r = rects[g_start + i];
        assert(g[i] == r);
        lemma_fit_rect_facts(r, offset, stride, bpp, align_bits);
        assert(start_key(rects[g_start], offset, stride, bpp) <= start_key(r, offset, stride, bpp));
        lemma_rounding(pixel_pos(r.x2 as int, r.y2 as int, offset, stride, bpp), m);
    }
}

/// The row range of a rectangle lies within `bound`.
pub open spec fn bound_ok(r: Rect, bound: (usize, usize), offset: int, stride: int, bpp: int) -> bool {
    bound.0 <= row_start(r, 0, offset, stride, bpp) && row_end(r, r.y2 - r.y1 - 1, offset, stride, bpp)
        <= bound.1
}

/// After a group is processed, all rectangles up to its end are covered, and the output ends
/// within the group's region.
proof fn lemma_after_group(
    rects: Seq<Rect>,
    g_start: int,
    g_end: int,
    before: Seq<(usize, usize)>,
    after: Seq<(usize, usize)>,
    region: (usize, usize),
    offset: int,
    stride: int,
    bpp: int,
    align_bits: u32,
)
    requires
        0 <= g_start < g_end <= rects.len(),
        after.len() > before.len(),
        after.subrange(0, before.len() as int) == before,
        tail_within(after, before.len() as int, region),
        forall|t: int| 0 <= t < g_start ==> rect_covered(before, #[trigger] rects[t], offset, stride, bpp),
        forall|i: int|
            0 <= i < g_end - g_start ==> rect_covered(
                after,
                #[trigger] rects.subrange(g_start, g_end)[i],
                offset,
                stride,
                bpp,
            ),
    ensures
        forall|t: int| 0 <= t < g_end ==> rect_covered(after, #[trigger] rects[t], offset, stride, bpp),
        after.last().1 <= region.1,
{
    reveal(tail_within);
    assert(after.last() == after[after.len() - 1]);
    assert forall|t: int| 0 <= t < g_end implies rect_covered(after, #[trigger] rects[t], offset, stride, bpp) by {
        if t < g_start {
            lemma_covered_prefix(after, before.len() as int, rects[t], offset, stride, bpp);
        } else {
            assert(rects.subrange(g_start, g_end)[t - g_start] == rects[t]);
        }
    }
}

/// Rows of a rectangle still to visit while its group is processed.
pub open spec fn rows_remaining(r: Rect, active: bool, rc: usize, stride: int, bpp: int, min_gap: int) -> nat {
    if !active {
        0
    } else if is_wide(r, stride, bpp, min_gap) {
        1
    } else if r.y2 - r.y1 - rc >= 0 {
        (r.y2 - r.y1 - rc) as nat
    } else {
        0
    }
}

/// Rows still to visit among the first `k` rectangles.
pub open spec fn total_remaining(
    rects: Seq<Rect>,
    active: Seq<bool>,
    rc: Seq<usize>,
    k: int,
    stride: int,
    bpp: int,
    min_gap: int,
) -> nat
    decreases k,
{
    if k <= 0 {
        0
    } else {
        total_remaining(rects, active, rc, k - 1, stride, bpp, min_gap) + rows_remaining(
            rects[k - 1],
            active[k - 1],
            rc[k - 1],
            stride,
            bpp,
            min_gap,
        )
    }
}

proof fn lemma_total_remaining_pos(
    rects: Seq<Rect>,
    active: Seq<bool>,
    rc: Seq<usize>,
    k: int,
    stride: int,
    bpp: int,
    min_gap: int,
    i: int,
)
    requires
        0 <= i < k,
    ensures
        total_remaining(rects, active, rc, k, stride, bpp, min_gap) >= rows_remaining(
            rects[i],
            active[i],
            rc[i],
            stride,
            bpp,
            min_gap,
        ),
    decreases k,
{
    if i < k - 1 {
        lemma_total_remaining_pos(rects, active, rc, k - 1, stride, bpp, min_gap, i);
    }
}

proof fn lemma_total_remaining_step(
    rects: Seq<Rect>,
    active1: Seq<bool>,
    rc1: Seq<usize>,
    active2: Seq<bool>,
    rc2: Seq<usize>,
    k: int,
    stride: int,
    bpp: int,
    min_gap: int,
    i: int,
)
    requires
        0 <= i < k,
        k <= active1.len() == active2.len(),
        k <= rc1.len() == rc2.len(),
        forall|j: int| 0 <= j < k && j != i ==> active1[j] == active2[j] && rc1[j] == rc2[j],
        rows_remaining(rects[i], active2[i], rc2[i], stride, bpp, min_gap) < rows_remaining(
            rects[i],
            active1[i],
            rc1[i],
            stride,
            bpp,
            min_gap,
        ),
    ensures
        total_remaining(rects, active2, rc2, k, stride, bpp, min_gap) < total_remaining(
            rects,
            active1,
            rc1,
            k,
            stride,
            bpp,
            min_gap,
        ),
    decreases k,
{
    if i < k - 1 {
        lemma_total_remaining_step(rects, active1, rc1, active2, rc2, k - 1, stride, bpp, min_gap, i);
    } else {
        lemma_total_remaining_same(rects, active1, rc1, active2, rc2, k - 1, stride, bpp, min_gap);
    }
}

proof fn lemma_total_remaining_same(
    rects: Seq<Rect>,
    active1: Seq<bool>,
    rc1: Seq<usize>,
    active2: Seq<bool>,
    rc2: Seq<usize>,
    k: int,
    stride: int,
    bpp: int,
    min_gap: int,
)
    requires
        forall|j: int| 0 <= j < k ==> active1[j] == active2[j] && rc1[j] == rc2[j],
    ensures
        total_remaining(rects, active2, rc2, k, stride, bpp, min_gap) == total_remaining(
            rects,
            active1,
            rc1,
            k,
            stride,
            bpp,
            min_gap,
        ),
    decreases k,
{
    if k > 0 {
        lemma_total_remaining_same(rects, active1, rc1, active2, rc2, k - 1, stride, bpp, min_gap);
    }
}

} // verus!

verus! {

/// Both lists in order of start; on equal starts the element of `a` comes first.
pub open spec fn merge_by_start(a: Seq<(usize, usize)>, b: Seq<(usize, usize)>) -> Seq<(usize, usize)>
    decreases a.len() + b.len(),
{
    if a.len() == 0 {
        b
    } else if b.len() == 0 {
        a
    } else if a[0].0 <= b[0].0 {
        seq![a[0]] + merge_by_start(a.drop_first(), b)
    } else {
        seq![b[0]] + merge_by_start(a, b.drop_first())
    }
}

/// One step of gap closing: extend the open segment `state.1` with `nxt` if `nxt` starts
/// within `min_gap` of its end, otherwise emit it and open `nxt`.
pub open spec fn gap_step(
    state: (Seq<(usize, usize)>, Option<(usize, usize)>),
    nxt: (usize, usize),
    min_gap: int,
) -> (Seq<(usize, usize)>, Option<(usize, usize)>) {
    match state.1 {
        None => (state.0, Some(nxt)),
        Some(y) => if nxt.0 <= y.1 || nxt.0 - y.1 < min_gap {
            (state.0, Some((y.0, if y.1 >= nxt.1 { y.1 } else { nxt.1 })))
        } else {
            (state.0.push(y), Some(nxt))
        },
    }
}

/// Gap closing applied to every element of `s`, in order.
pub open spec fn gap_fold(s: Seq<(usize, usize)>, min_gap: int) -> (Seq<(usize, usize)>, Option<(usize, usize)>)
    decreases s.len(),
{
    if s.len() == 0 {
        (Seq::empty(), None)
    } else {
        gap_step(gap_fold(s.drop_last(), min_gap), s.last(), min_gap)
    }
}

/// The segments of `s` with every gap shorter than `min_gap` closed.
pub open spec fn close_gaps(s: Seq<(usize, usize)>, min_gap: int) -> Seq<(usize, usize)> {
    let st = gap_fold(s, min_gap);
    match st.1 {
        Some(e) => st.0.push(e),
        None => st.0,
    }
}

/// Valid segments at least one byte apart are left as they are by gap closing.
proof fn lemma_gap_fold_valid(a: Seq<(usize, usize)>, min_gap: int)
    requires
        segments_valid(a, 0, min_gap),
        min_gap >= 1,
        a.len() > 0,
    ensures
        gap_fold(a, min_gap) == (a.drop_last(), Some(a.last())),
    decreases a.len(),
{
    reveal(segments_valid);
    let t = a.drop_last();
    if t.len() == 0 {
        assert(gap_fold(t, min_gap) == (Seq::<(usize, usize)>::empty(), None::<(usize, usize)>));
    } else {
        assert(segments_valid(t, 0, min_gap)) by {
            assert forall|j: int| 1 <= j < t.len() implies #[trigger] t[j].0 >= t[j - 1].1 + min_gap by {
                assert(t[j] == a[j] && t[j - 1] == a[j - 1]);
            }
            assert forall|j: int| 0 <= j < t.len() implies {
                &&& (#[trigger] t[j]).0 < t[j].1
                &&& is_aligned(t[j].0 as int, align_unit(0))
                &&& is_aligned(t[j].1 as int, align_unit(0))
            } by {
                assert(t[j] == a[j]);
            }
        }
        lemma_gap_fold_valid(t, min_gap);
        assert(a[a.len() - 1].0 >= a[a.len() - 2].1 + min_gap);
        assert(t.drop_last().push(t.last()) =~= t);
    }
}

/// The empty list is a unit of the union: the union of valid segments at least one byte
/// apart with no segments, on either side, is those segments.
pub proof fn lemma_union_empty_unit(a: Seq<(usize, usize)>, min_gap: int)
    requires
        segments_valid(a, 0, min_gap),
        min_gap >= 1,
    ensures
        close_gaps(merge_by_start(a, Seq::empty()), min_gap) == a,
        close_gaps(merge_by_start(Seq::empty(), a), min_gap) == a,
{
    assert(merge_by_start(a, Seq::empty()) == a);
    assert(merge_by_start(Seq::empty(), a) == a);
    if a.len() > 0 {
        lemma_gap_fold_valid(a, min_gap);
        assert(a.drop_last().push(a.last()) =~= a);
    } else {
        assert(gap_fold(a, min_gap) == (Seq::<(usize, usize)>::empty(), None::<(usize, usize)>));
    }
}

/// Segments are nonempty and their starts strictly increase.
pub open spec fn starts_increasing(s: Seq<(usize, usize)>) -> bool {
    &&& forall|j: int| 0 <= j < s.len() ==> (#[trigger] s[j]).0 < s[j].1
    &&& forall|j: int| 1 <= j < s.len() ==> s[j - 1].0 < (#[trigger] s[j]).0
}

proof fn lemma_valid_increasing(s: Seq<(usize, usize)>, min_gap: int)
    requires
        segments_valid(s, 0, min_gap),
        min_gap >= 0,
    ensures
        starts_increasing(s),
{
    reveal(segments_valid);
    assert forall|j: int| 1 <= j < s.len() implies s[j - 1].0 < (#[trigger] s[j]).0 by {
        assert(s[j - 1].0 < s[j - 1].1);
    }
}

/// Gap closing from state `st` over the elements of `s`, first to last.
pub open spec fn gap_fold_from(
    st: (Seq<(usize, usize)>, Option<(usize, usize)>),
    s: Seq<(usize, usize)>,
    min_gap: int,
) -> (Seq<(usize, usize)>, Option<(usize, usize)>)
    decreases s.len(),
{
    if s.len() == 0 {
        st
    } else {
        gap_fold_from(gap_step(st, s[0], min_gap), s.drop_first(), min_gap)
    }
}

proof fn lemma_gap_fold_from_push(
    st: (Seq<(usize, usize)>, Option<(usize, usize)>),
    s: Seq<(usize, usize)>,
    x: (usize, usize),
    min_gap: int,
)
    ensures
        gap_fold_from(st, s.push(x), min_gap) == gap_step(gap_fold_from(st, s, min_gap), x, min_gap),
    decreases s.len(),
{
    if s.len() > 0 {
        assert(s.push(x)[0] == s[0]);
        assert(s.push(x).drop_first() =~= s.drop_first().push(x));
        lemma_gap_fold_from_push(gap_step(st, s[0], min_gap), s.drop_first(), x, min_gap);
    } else {
        assert(s.push(x)[0] == x);
        assert(s.push(x).drop_first() =~= Seq::<(usize, usize)>::empty());
        assert(gap_fold_from(gap_step(st, x, min_gap), Seq::<(usize, usize)>::empty(), min_gap) == gap_step(st, x, min_gap));
    }
}

proof fn lemma_gap_fold_is_from(s: Seq<(usize, usize)>, min_gap: int)
    ensures
        gap_fold(s, min_gap) == gap_fold_from((Seq::empty(), None), s, min_gap),
    decreases s.len(),
{
    if s.len() > 0 {
        lemma_gap_fold_is_from(s.drop_last(), min_gap);
        lemma_gap_fold_from_push((Seq::empty(), None), s.drop_last(), s.last(), min_gap);
        assert(s.drop_last().push(s.last()) =~= s);
    }
}

/// Two nonempty segments with the same start can be taken in either order.
proof fn lemma_gap_step_swap(
    st: (Seq<(usize, usize)>, Option<(usize, usize)>),
    x: (usize, usize),
    y: (usize, usize),
    min_gap: int,
)
    requires
        x.0 == y.0,
        x.0 < x.1,
        y.0 < y.1,
    ensures
        gap_step(gap_step(st, x, min_gap), y, min_gap) == gap_step(gap_step(st, y, min_gap), x, min_gap),
{
}

/// Folding the merge of two lists, each with increasing starts, gives the same state in
/// either order of the lists.
proof fn lemma_fold_merge_swap(
    st: (Seq<(usize, usize)>, Option<(usize, usize)>),
    a: Seq<(usize, usize)>,
    b: Seq<(usize, usize)>,
    min_gap: int,
)
    requires
        starts_increasing(a),
        starts_increasing(b),
    ensures
        gap_fold_from(st, merge_by_start(a, b), min_gap) == gap_fold_from(st, merge_by_start(b, a), min_gap),
    decreases a.len() + b.len(),
{
    if a.len() == 0 || b.len() == 0 {
        assert(merge_by_start(a, b) == merge_by_start(b, a));
    } else {
        let a1 = a.drop_first();
        let b1 = b.drop_first();
        assert(starts_increasing(a1)) by {
            assert forall|j: int| 1 <= j < a1.len() implies a1[j - 1].0 < (#[trigger] a1[j]).0 by {
                assert(a[j].0 < a[j + 1].0);
            }
            assert forall|j: int| 0 <= j < a1.len() implies (#[trigger] a1[j]).0 < a1[j].1 by {
                assert(a[j + 1].0 < a[j + 1].1);
            }
        }
        assert(starts_increasing(b1)) by {
            assert forall|j: int| 1 <= j < b1.len() implies b1[j - 1].0 < (#[trigger] b1[j]).0 by {
                assert(b[j].0 < b[j + 1].0);
            }
            assert forall|j: int| 0 <= j < b1.len() implies (#[trigger] b1[j]).0 < b1[j].1 by {
                assert(b[j + 1].0 < b[j + 1].1);
            }
        }
        if a[0].0 < b[0].0 {
            let m1 = merge_by_start(a1, b);
            assert(merge_by_start(a, b) == seq![a[0]] + m1);
            assert(merge_by_start(b, a) == seq![a[0]] + merge_by_start(b, a1));
            assert((seq![a[0]] + m1).drop_first() =~= m1);
            assert((seq![a[0]] + merge_by_start(b, a1)).drop_first() =~= merge_by_start(b, a1));
            lemma_fold_merge_swap(gap_step(st, a[0], min_gap), a1, b, min_gap);
        } else if b[0].0 < a[0].0 {
            let m1 = merge_by_start(a, b1);
            assert(merge_by_start(a, b) == seq![b[0]] + m1);
            assert(merge_by_start(b, a) == seq![b[0]] + merge_by_start(b1, a));
            assert((seq![b[0]] + m1).drop_first() =~= m1);
            assert((seq![b[0]] + merge_by_start(b1, a)).drop_first() =~= merge_by_start(b1, a));
            lemma_fold_merge_swap(gap_step(st, b[0], min_gap), a, b1, min_gap);
        } else {
            // Equal starts: each merge takes both heads, in opposite orders.
            let rest_ab = merge_by_start(a1, b1);
            let rest_ba = merge_by_start(b1, a1);
            assert(merge_by_start(a1, b) == seq![b[0]] + rest_ab) by {
                if a1.len() > 0 {
                    assert(a[0].0 < a[1].0);
                }
            }
            assert(merge_by_start(b1, a) == seq![a[0]] + rest_ba) by {
                if b1.len() > 0 {
                    assert(b[0].0 < b[1].0);
                }
            }
            let mab = merge_by_start(a, b);
            let mba = merge_by_start(b, a);
            assert(mab == seq![a[0]] + (seq![b[0]] + rest_ab));
            assert(mba == seq![b[0]] + (seq![a[0]] + rest_ba));
            assert(mab.drop_first() =~= seq![b[0]] + rest_ab);
            assert((seq![b[0]] + rest_ab).drop_first() =~= rest_ab);
            assert(mba.drop_first() =~= seq![a[0]] + rest_ba);
            assert((seq![a[0]] + rest_ba).drop_first() =~= rest_ba);
            assert(a[0].0 < a[0].1 && b[0].0 < b[0].1);
            lemma_gap_step_swap(st, a[0], b[0], min_gap);
            let st2 = gap_step(gap_step(st, a[0], min_gap), b[0], min_gap);
            let m2 = seq![b[0]] + rest_ab;
            let n2 = seq![a[0]] + rest_ba;
            assert(mab[0] == a[0] && m2[0] == b[0] && mba[0] == b[0] && n2[0] == a[0]);
            assert(gap_fold_from(st, mab, min_gap) == gap_fold_from(gap_step(st, a[0], min_gap), m2, min_gap));
            assert(gap_fold_from(gap_step(st, a[0], min_gap), m2, min_gap) == gap_fold_from(st2, rest_ab, min_gap));
            assert(gap_fold_from(st, mba, min_gap) == gap_fold_from(gap_step(st, b[0], min_gap), n2, min_gap));
            assert(gap_fold_from(gap_step(st, b[0], min_gap), n2, min_gap) == gap_fold_from(st2, rest_ba, min_gap));
            lemma_fold_merge_swap(st2, a1, b1, min_gap);
        }
    }
}

/// The union of damage is commutative: uniting valid segments `a` with `b` gives what
/// uniting `b` with `a` gives.
pub proof fn lemma_union_commutes(a: Seq<(usize, usize)>, b: Seq<(usize, usize)>, min_gap: int)
    requires
        segments_valid(a, 0, min_gap),
        segments_valid(b, 0, min_gap),
        min_gap >= 0,
    ensures
        close_gaps(merge_by_start(a, b), min_gap) == close_gaps(merge_by_start(b, a), min_gap),
{
    lemma_valid_increasing(a, min_gap);
    lemma_valid_increasing(b, min_gap);
    lemma_gap_fold_is_from(merge_by_start(a, b), min_gap);
    lemma_gap_fold_is_from(merge_by_start(b, a), min_gap);
    lemma_fold_merge_swap((Seq::empty(), None), a, b, min_gap);
}

proof fn lemma_merge_unfold(a: Seq<(usize, usize)>, b: Seq<(usize, usize)>, ia: int, ib: int)
    requires
        0 <= ia <= a.len(),
        0 <= ib <= b.len(),
        ia < a.len() || ib < b.len(),
    ensures
        (ia < a.len() && (ib >= b.len() || a[ia].0 <= b[ib].0)) ==> merge_by_start(a.skip(ia), b.skip(ib))
            == seq![a[ia]] + merge_by_start(a.skip(ia + 1), b.skip(ib)),
        (ib < b.len() && (ia >= a.len() || a[ia].0 > b[ib].0)) ==> merge_by_start(a.skip(ia), b.skip(ib))
            == seq![b[ib]] + merge_by_start(a.skip(ia), b.skip(ib + 1)),
{
    if ia < a.len() {
        assert(a.skip(ia).drop_first() =~= a.skip(ia + 1));
    }
    if ib < b.len() {
        assert(b.skip(ib).drop_first() =~= b.skip(ib + 1));
    }
    if ia < a.len() && ib >= b.len() {
        assert(b.skip(ib).len() == 0);
        assert(a.skip(ia) =~= seq![a[ia]] + a.skip(ia + 1));
        assert(merge_by_start(a.skip(ia + 1), b.skip(ib)) == a.skip(ia + 1));
    }
    if ib < b.len() && ia >= a.len() {
        assert(a.skip(ia).len() == 0);
        assert(b.skip(ib) =~= seq![b[ib]] + b.skip(ib + 1));
        assert(merge_by_start(a.skip(ia), b.skip(ib + 1)) == b.skip(ib + 1));
    }
}

/// Merge two valid segment lists into one, joining segments that overlap or lie closer than
/// `min_gap` to each other.
pub fn union_damage(a: &[(usize, usize)], b: &[(usize, usize)], min_gap: usize) -> (out: Vec<(usize, usize)>)
    requires
        segments_valid(a@, 0, min_gap as int),
        segments_valid(b@, 0, min_gap as int),
    ensures
        out@ == close_gaps(merge_by_start(a@, b@), min_gap as int),
{
    let mut output: Vec<(usize, usize)> = Vec::new();
    let mut ia: usize = 0;
    let mut ib: usize = 0;
    let mut last: Option<(usize, usize)> = None;
    let ghost mut visited: Seq<(usize, usize)> = Seq::empty();
    proof {
        assert(a@.skip(0) =~= a@);
        assert(b@.skip(0) =~= b@);
        assert(visited + merge_by_start(a@, b@) =~= merge_by_start(a@, b@));
    }
    while ia < a.len() || ib < b.len()
        invariant
            ia <= a@.len(),
            ib <= b@.len(),
            merge_by_start(a@, b@) == visited + merge_by_start(a@.skip(ia as int), b@.skip(ib as int)),
            (output@, last) == gap_fold(visited, min_gap as int),
        decreases a@.len() + b@.len() - ia - ib,
    {
        proof {
            lemma_merge_unfold(a@, b@, ia as int, ib as int);
        }
        let take_a = if ia < a.len() && ib < b.len() {
            a[ia].0 <= b[ib].0
        } else {
            ia < a.len()
        };
        let nxt = if take_a {
            let v = a[ia];
            ia = ia + 1;
            v
        } else {
            let v = b[ib];
            ib = ib + 1;
            v
        };
        proof {
            let v2 = visited.push(nxt);
            assert(v2.drop_last() =~= visited);
            assert(visited + merge_by_start(a@.skip(ia - (if take_a { 1int } else { 0int })), b@.skip(ib - (if take_a { 0int } else { 1int }))) =~= v2 + merge_by_start(a@.skip(ia as int), b@.skip(ib as int)));
            visited = v2;
        }
        match last {
            None => {
                last = Some(nxt);
            },
            Some(y) => {
                if nxt.0 <= y.1 || (nxt.0 - y.1) < min_gap {
                    let e = if y.1 >= nxt.1 {
                        y.1
                    } else {
                        nxt.1
                    };
                    last = Some((y.0, e));
                } else {
                    output.push(y);
                    last = Some(nxt);
                }
            },
        }
    }
    proof {
        assert(a@.skip(ia as int).len() == 0 && b@.skip(ib as int).len() == 0);
        assert(merge_by_start(a@.skip(ia as int), b@.skip(ib as int)) =~= Seq::<(usize, usize)>::empty());
        assert(visited + Seq::<(usize, usize)>::empty() =~= visited);
    }
    if let Some(e) = last {
        output.push(e);
    }
    output
}

} // verus!

verus! {

/// Why a list of segments is not valid.
#[derive(Debug, Clone, Copy)]
pub enum SegmentError {
    /// A segment whose end is not after its start.
    EmptyInterval(usize, usize),
    /// A segment with an end that is not a multiple of the alignment.
    Misaligned(usize, usize),
    /// A segment that starts before the previous one ends.
    Overlapping((usize, usize), (usize, usize)),
    /// A segment that starts less than the minimum gap after the previous one ends.
    GapTooSmall((usize, usize), (usize, usize)),
}

/// The first `k` segments are nonempty and aligned.
pub open spec fn intervals_ok(a: Seq<(usize, usize)>, k: int, align_bits: u32) -> bool {
    forall|j: int|
        0 <= j < k ==> {
            &&& (#[trigger] a[j]).0 < a[j].1
            &&& is_aligned(a[j].0 as int, align_unit(align_bits))
            &&& is_aligned(a[j].1 as int, align_unit(align_bits))
        }
}

/// The first `k` segments are separated by at least `min_gap`.
pub open spec fn gaps_ok(a: Seq<(usize, usize)>, k: int, min_gap: int) -> bool {
    forall|j: int| 1 <= j < k ==> #[trigger] a[j].0 >= a[j - 1].1 + min_gap
}

pub proof fn lemma_segments_valid_parts(a: Seq<(usize, usize)>, align_bits: u32, min_gap: int)
    ensures
        segments_valid(a, align_bits, min_gap) <==> intervals_ok(a, a.len() as int, align_bits) && gaps_ok(
            a,
            a.len() as int,
            min_gap,
        ),
{
    reveal(segments_valid);
}

/// Check that segments are nonempty, aligned to `2^align_bits`, and in increasing order with
/// gaps of at least `min_gap`; report the first violation found, checking every segment's
/// own shape before the spacing between segments.
pub fn validate_output(a: &[(usize, usize)], align_bits: u32, min_gap: usize) -> (res: Result<(), SegmentError>)
    requires
        align_bits < usize::BITS,
    ensures
        res is Ok <==> segments_valid(a@, align_bits, min_gap as int),
        res matches Err(SegmentError::EmptyInterval(x, y)) ==> exists|j: int|
            0 <= j < a@.len() && intervals_ok(a@, j, align_bits) && a@[j] == (x, y) && x >= y,
        res matches Err(SegmentError::Misaligned(x, y)) ==> exists|j: int|
            0 <= j < a@.len() && intervals_ok(a@, j, align_bits) && a@[j] == (x, y) && x < y && !(
            is_aligned(x as int, align_unit(align_bits)) && is_aligned(y as int, align_unit(align_bits))),
        res matches Err(SegmentError::Overlapping(p, q)) ==> intervals_ok(a@, a@.len() as int, align_bits)
            && exists|j: int|
            1 <= j < a@.len() && gaps_ok(a@, j, min_gap as int) && a@[j - 1] == p && a@[j] == q && q.0 < p.1,
        res matches Err(SegmentError::GapTooSmall(p, q)) ==> intervals_ok(a@, a@.len() as int, align_bits)
            && exists|j: int|
            1 <= j < a@.len() && gaps_ok(a@, j, min_gap as int) && a@[j - 1] == p && a@[j] == q && p.1
                <= q.0 && q.0 < p.1 + min_gap,
{
    proof {
        lemma_segments_valid_parts(a@, align_bits, min_gap as int);
        vstd::bits::lemma_usize_pow2_no_overflow(align_bits as nat);
        lemma_pow2_pos(align_bits as nat);
        lemma_usize_shl_is_mul(1, align_bits as usize);
    }
    let m: usize = 1usize << (align_bits as usize);
    let mask = m - 1;
    proof {
        assert(mask == vstd::bits::low_bits_mask(align_bits as nat) as usize);
    }
    let mut i: usize = 0;
    while i < a.len()
        invariant
            i <= a@.len(),
            m == align_unit(align_bits),
            mask == vstd::bits::low_bits_mask(align_bits as nat) as usize,
            align_bits < usize::BITS,
            intervals_ok(a@, i as int, align_bits),
        decreases a@.len() - i,
    {
        let (x, y) = a[i];
        if x >= y {
            proof {
                assert(a@[i as int].0 >= a@[i as int].1);
                assert(!intervals_ok(a@, a@.len() as int, align_bits));
                lemma_segments_valid_parts(a@, align_bits, min_gap as int);
            }
            return Err(SegmentError::EmptyInterval(x, y));
        }
        proof {
            vstd::bits::lemma_usize_low_bits_mask_is_mod(x, align_bits as nat);
            vstd::bits::lemma_usize_low_bits_mask_is_mod(y, align_bits as nat);
        }
        if x & mask != 0 || y & mask != 0 {
            proof {
                assert(!(is_aligned(a@[i as int].0 as int, m as int) && is_aligned(a@[i as int].1 as int, m as int)));
                assert(!intervals_ok(a@, a@.len() as int, align_bits));
                lemma_segments_valid_parts(a@, align_bits, min_gap as int);
            }
            return Err(SegmentError::Misaligned(x, y));
        }
        i = i + 1;
    }
    let mut i: usize = 1;
    while i < a.len()
        invariant
            1 <= i,
            i <= a@.len() || a@.len() == 0,
            intervals_ok(a@, a@.len() as int, align_bits),
            gaps_ok(a@, i as int, min_gap as int),
        decreases a@.len() - i,
    {
        if a[i].0 < a[i - 1].1 {
            proof {
                assert(!(a@[i as int].0 >= a@[i - 1].1 + min_gap));
                assert(!gaps_ok(a@, a@.len() as int, min_gap as int));
                lemma_segments_valid_parts(a@, align_bits, min_gap as int);
            }
            return Err(SegmentError::Overlapping(a[i - 1], a[i]));
        }
        if a[i].0 - a[i - 1].1 < min_gap {
            proof {
                assert(!(a@[i as int].0 >= a@[i - 1].1 + min_gap));
                assert(!gaps_ok(a@, a@.len() as int, min_gap as int));
                lemma_segments_valid_parts(a@, align_bits, min_gap as int);
            }
            return Err(SegmentError::GapTooSmall(a[i - 1], a[i]));
        }
        i = i + 1;
    }
    proof {
        if a@.len() == 0 {
            assert(gaps_ok(a@, 0, min_gap as int));
        }
        lemma_segments_valid_parts(a@, align_bits, min_gap as int);
    }
    Ok(())
}

} // verus!

verus! {

/// Starts never decrease along `s`.
pub open spec fn starts_nondecreasing(s: Seq<(usize, usize)>) -> bool {
    forall|i: int, j: int| 0 <= i <= j < s.len() ==> (#[trigger] s[i]).0 <= (#[trigger] s[j]).0
}

proof fn lemma_merge_contents(a: Seq<(usize, usize)>, b: Seq<(usize, usize)>)
    ensures
        merge_by_start(a, b).len() == a.len() + b.len(),
        forall|x: (usize, usize)| #[trigger] merge_by_start(a, b).contains(x) <==> a.contains(x) || b.contains(x),
    decreases a.len() + b.len(),
{
    if a.len() == 0 {
    } else if b.len() == 0 {
    } else if a[0].0 <= b[0].0 {
        lemma_merge_contents(a.drop_first(), b);
        let rest = merge_by_start(a.drop_first(), b);
        assert forall|x: (usize, usize)| #[trigger] merge_by_start(a, b).contains(x) <==> a.contains(x) || b.contains(x) by {
            assert(merge_by_start(a, b) == seq![a[0]] + rest);
            if a.contains(x) && x != a[0] {
                let k = choose|k: int| 0 <= k < a.len() && a[k] == x;
                assert(a.drop_first()[k - 1] == x);
            }
            if merge_by_start(a, b).contains(x) {
                let k = choose|k: int| 0 <= k < merge_by_start(a, b).len() && merge_by_start(a, b)[k] == x;
                if k > 0 {
                    assert(rest[k - 1] == x);
                    if a.drop_first().contains(x) {
                        let t = choose|t: int| 0 <= t < a.drop_first().len() && a.drop_first()[t] == x;
                        assert(a[t + 1] == x);
                    }
                }
            }
            if rest.contains(x) {
                let t = choose|t: int| 0 <= t < rest.len() && rest[t] == x;
                assert(merge_by_start(a, b)[t + 1] == x);
            }
            assert(merge_by_start(a, b)[0] == a[0]);
        }
    } else {
        lemma_merge_contents(a, b.drop_first());
        let rest = merge_by_start(a, b.drop_first());
        assert forall|x: (usize, usize)| #[trigger] merge_by_start(a, b).contains(x) <==> a.contains(x) || b.contains(x) by {
            assert(merge_by_start(a, b) == seq![b[0]] + rest);
            if b.contains(x) && x != b[0] {
                let k = choose|k: int| 0 <= k < b.len() && b[k] == x;
                assert(b.drop_first()[k - 1] == x);
            }
            if merge_by_start(a, b).contains(x) {
                let k = choose|k: int| 0 <= k < merge_by_start(a, b).len() && merge_by_start(a, b)[k] == x;
                if k > 0 {
                    assert(rest[k - 1] == x);
                    if b.drop_first().contains(x) {
                        let t = choose|t: int| 0 <= t < b.drop_first().len() && b.drop_first()[t] == x;
                        assert(b[t + 1] == x);
                    }
                }
            }
            if rest.contains(x) {
                let t = choose|t: int| 0 <= t < rest.len() && rest[t] == x;
                assert(merge_by_start(a, b)[t + 1] == x);
            }
            assert(merge_by_start(a, b)[0] == b[0]);
        }
    }
}

proof fn lemma_merge_sorted(a: Seq<(usize, usize)>, b: Seq<(usize, usize)>)
    requires
        starts_nondecreasing(a),
        starts_nondecreasing(b),
    ensures
        starts_nondecreasing(merge_by_start(a, b)),
        merge_by_start(a, b).len() > 0 ==> {
            ||| (a.len() > 0 && merge_by_start(a, b)[0] == a[0] && (b.len() > 0 ==> a[0].0 <= b[0].0))
            ||| (b.len() > 0 && merge_by_start(a, b)[0] == b[0] && (a.len() > 0 ==> b[0].0 <= a[0].0))
        },
    decreases a.len() + b.len(),
{
    if a.len() == 0 || b.len() == 0 {
    } else if a[0].0 <= b[0].0 {
        let a2 = a.drop_first();
        lemma_merge_sorted(a2, b);
        let rest = merge_by_start(a2, b);
        let m = merge_by_start(a, b);
        assert(m == seq![a[0]] + rest);
        assert forall|i: int, j: int| 0 <= i <= j < m.len() implies (#[trigger] m[i]).0 <= (#[trigger] m[j]).0 by {
            if i == 0 && j > 0 {
                assert(m[j] == rest[j - 1]);
                assert(rest[0] == a2[0] || rest[0] == b[0]);
                assert(a2.len() > 0 ==> a2[0] == a[1]);
                assert(rest[0].0 <= rest[j - 1].0);
            } else if i > 0 {
                assert(m[i] == rest[i - 1] && m[j] == rest[j - 1]);
            }
        }
    } else {
        let b2 = b.drop_first();
        lemma_merge_sorted(a, b2);
        let rest = merge_by_start(a, b2);
        let m = merge_by_start(a, b);
        assert(m == seq![b[0]] + rest);
        assert forall|i: int, j: int| 0 <= i <= j < m.len() implies (#[trigger] m[i]).0 <= (#[trigger] m[j]).0 by {
            if i == 0 && j > 0 {
                assert(m[j] == rest[j - 1]);
                assert(rest[0] == a[0] || rest[0] == b2[0]);
                assert(b2.len() > 0 ==> b2[0] == b[1]);
                assert(rest[0].0 <= rest[j - 1].0);
            } else if i > 0 {
                assert(m[i] == rest[i - 1] && m[j] == rest[j - 1]);
            }
        }
    }
}

/// What gap closing keeps true on a list sorted by start of nonempty aligned segments.
proof fn lemma_gap_fold_inv(s: Seq<(usize, usize)>, align_bits: u32, min_gap: int)
    requires
        starts_nondecreasing(s),
        intervals_ok(s, s.len() as int, align_bits),
        min_gap >= 0,
    ensures
        ({
            let st = gap_fold(s, min_gap);
            &&& segments_valid(st.0, align_bits, min_gap)
            &&& (st.1 is Some <==> s.len() > 0)
            &&& st.1 matches Some(y) ==> {
                &&& y.0 < y.1
                &&& is_aligned(y.0 as int, align_unit(align_bits))
                &&& is_aligned(y.1 as int, align_unit(align_bits))
                &&& y.0 <= s.last().0
                &&& st.0.len() > 0 ==> y.0 >= st.0.last().1 + min_gap
            }
            &&& forall|k: int| 0 <= k < s.len() ==> covered_by(st.0, st.1, (#[trigger] s[k]).0 as int, s[k].1 as int)
        }),
    decreases s.len(),
{
    if s.len() == 0 {
        reveal(segments_valid);
    } else {
        let p = s.drop_last();
        assert(starts_nondecreasing(p));
        lemma_gap_fold_inv(p, align_bits, min_gap);
        let prev = gap_fold(p, min_gap);
        let nxt = s.last();
        let st = gap_fold(s, min_gap);
        assert(st == gap_step(prev, nxt, min_gap));
        assert(s[s.len() - 1] == nxt);
        match prev.1 {
            None => {
                assert forall|k: int| 0 <= k < s.len() implies covered_by(st.0, st.1, (#[trigger] s[k]).0 as int, s[k].1 as int) by {
                    assert(k == s.len() - 1);
                }
            },
            Some(y) => {
                assert(y.0 <= nxt.0) by {
                    assert(p.last() == s[s.len() - 2]);
                }
                if nxt.0 <= y.1 || nxt.0 - y.1 < min_gap {
                    let y2 = (y.0, if y.1 >= nxt.1 { y.1 } else { nxt.1 });
                    lemma_covered_extend(prev.0, y, y2.1);
                    assert forall|k: int| 0 <= k < s.len() implies covered_by(st.0, st.1, (#[trigger] s[k]).0 as int, s[k].1 as int) by {
                        if k < s.len() - 1 {
                            assert(s[k] == p[k]);
                            assert(covered_by(prev.0, prev.1, p[k].0 as int, p[k].1 as int));
                        }
                    }
                } else {
                    lemma_covered_flush(prev.0, y, nxt);
                    lemma_segments_push(prev.0, y, align_bits, min_gap);
                    assert forall|k: int| 0 <= k < s.len() implies covered_by(st.0, st.1, (#[trigger] s[k]).0 as int, s[k].1 as int) by {
                        if k < s.len() - 1 {
                            assert(s[k] == p[k]);
                            assert(covered_by(prev.0, prev.1, p[k].0 as int, p[k].1 as int));
                        }
                    }
                }
            },
        }
    }
}

/// Valid segments have strictly increasing starts.
proof fn lemma_valid_sorted(a: Seq<(usize, usize)>, align_bits: u32, min_gap: int)
    requires
        segments_valid(a, align_bits, min_gap),
        min_gap >= 0,
    ensures
        starts_nondecreasing(a),
        intervals_ok(a, a.len() as int, align_bits),
    decreases a.len(),
{
    reveal(segments_valid);
    if a.len() > 0 {
        let p = a.drop_last();
        assert(segments_valid(p, align_bits, min_gap)) by {
            assert forall|j: int| 1 <= j < p.len() implies #[trigger] p[j].0 >= p[j - 1].1 + min_gap by {
                assert(p[j] == a[j] && p[j - 1] == a[j - 1]);
            }
            assert forall|j: int| 0 <= j < p.len() implies {
                &&& (#[trigger] p[j]).0 < p[j].1
                &&& is_aligned(p[j].0 as int, align_unit(align_bits))
                &&& is_aligned(p[j].1 as int, align_unit(align_bits))
            } by {
                assert(p[j] == a[j]);
            }
        }
        lemma_valid_sorted(p, align_bits, min_gap);
        assert forall|i: int, j: int| 0 <= i <= j < a.len() implies (#[trigger] a[i]).0 <= (#[trigger] a[j]).0 by {
            if j < a.len() - 1 {
                assert(a[i] == p[i] && a[j] == p[j]);
            } else if i < j {
                assert(a[i] == p[i]);
                assert(p[i].0 <= p[j - 1].0);
                assert(a[j - 1] == p[j - 1]);
            }
        }
    }
}

/// The union of two valid segment lists is valid, with the same alignment and minimum gap.
pub proof fn lemma_union_valid(a: Seq<(usize, usize)>, b: Seq<(usize, usize)>, align_bits: u32, min_gap: int)
    requires
        segments_valid(a, align_bits, min_gap),
        segments_valid(b, align_bits, min_gap),
        min_gap >= 0,
    ensures
        segments_valid(close_gaps(merge_by_start(a, b), min_gap), align_bits, min_gap),
{
    lemma_union_facts(a, b, align_bits, min_gap);
}

/// Every segment of either input lies inside one segment of their union.
pub proof fn lemma_union_covers(a: Seq<(usize, usize)>, b: Seq<(usize, usize)>, min_gap: int)
    requires
        segments_valid(a, 0, min_gap),
        segments_valid(b, 0, min_gap),
        min_gap >= 0,
    ensures
        forall|k: int|
            0 <= k < a.len() ==> contains_interval(
                close_gaps(merge_by_start(a, b), min_gap),
                (#[trigger] a[k]).0 as int,
                a[k].1 as int,
            ),
        forall|k: int|
            0 <= k < b.len() ==> contains_interval(
                close_gaps(merge_by_start(a, b), min_gap),
                (#[trigger] b[k]).0 as int,
                b[k].1 as int,
            ),
{
    lemma_union_facts(a, b, 0, min_gap);
}

proof fn lemma_union_facts(a: Seq<(usize, usize)>, b: Seq<(usize, usize)>, align_bits: u32, min_gap: int)
    requires
        segments_valid(a, align_bits, min_gap),
        segments_valid(b, align_bits, min_gap),
        min_gap >= 0,
    ensures
        segments_valid(close_gaps(merge_by_start(a, b), min_gap), align_bits, min_gap),
        forall|k: int|
            0 <= k < a.len() ==> contains_interval(
                close_gaps(merge_by_start(a, b), min_gap),
                (#[trigger] a[k]).0 as int,
                a[k].1 as int,
            ),
        forall|k: int|
            0 <= k < b.len() ==> contains_interval(
                close_gaps(merge_by_start(a, b), min_gap),
                (#[trigger] b[k]).0 as int,
                b[k].1 as int,
            ),
{
    lemma_valid_sorted(a, align_bits, min_gap);
    lemma_valid_sorted(b, align_bits, min_gap);
    lemma_merge_sorted(a, b);
    lemma_merge_contents(a, b);
    let s = merge_by_start(a, b);
    assert forall|j: int| 0 <= j < s.len() implies {
        &&& (#[trigger] s[j]).0 < s[j].1
        &&& is_aligned(s[j].0 as int, align_unit(align_bits))
        &&& is_aligned(s[j].1 as int, align_unit(align_bits))
    } by {
        assert(s.contains(s[j]));
        if a.contains(s[j]) {
            let t = choose|t: int| 0 <= t < a.len() && a[t] == s[j];
        } else {
            let t = choose|t: int| 0 <= t < b.len() && b[t] == s[j];
        }
    }
    lemma_gap_fold_inv(s, align_bits, min_gap);
    let st = gap_fold(s, min_gap);
    let out = close_gaps(s, min_gap);
    if let Some(y) = st.1 {
        lemma_segments_push(st.0, y, align_bits, min_gap);
        lemma_covered_close(st.0, y);
    } else {
        assert(s.len() == 0);
    }
    assert forall|k: int| 0 <= k < a.len() implies contains_interval(out, (#[trigger] a[k]).0 as int, a[k].1 as int) by {
        assert(a.contains(a[k]));
        assert(s.contains(a[k]));
        let t = choose|t: int| 0 <= t < s.len() && s[t] == a[k];
        assert(covered_by(st.0, st.1, s[t].0 as int, s[t].1 as int));
    }
    assert forall|k: int| 0 <= k < b.len() implies contains_interval(out, (#[trigger] b[k]).0 as int, b[k].1 as int) by {
        assert(b.contains(b[k]));
        assert(s.contains(b[k]));
        let t = choose|t: int| 0 <= t < s.len() && s[t] == b[k];
        assert(covered_by(st.0, st.1, s[t].0 as int, s[t].1 as int));
    }
}

} // verus!
