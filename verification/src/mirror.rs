//! A byte region that several users may write at once, each through a reserved range that
//! overlaps no other reservation.
use vstd::prelude::*;

verus! {

/// Two nonempty ranges `[a.0, a.1)` and `[b.0, b.1)` share a byte.
pub open spec fn overlaps(a: (usize, usize), b: (usize, usize)) -> bool {
    b.0 < a.1 && a.0 < b.1
}

fn nonempty_range_overlap(a: &(usize, usize), b: &(usize, usize)) -> (r: bool)
    ensures
        r == overlaps(*a, *b),
{
    b.0 < a.1 && a.0 < b.1
}

/// The reserved ranges are nonempty and no two of them share a byte.
pub open spec fn ranges_disjoint(s: Set<(usize, usize)>) -> bool {
    &&& forall|a: (usize, usize)| #[trigger] s.contains(a) ==> a.0 < a.1
    &&& forall|a: (usize, usize), b: (usize, usize)| #[trigger] s.contains(a) && #[trigger] s.contains(b) && a != b ==> !overlaps(a, b)
}

/// Why a mirror could not be created or grown.
#[derive(Debug, Clone, Copy)]
pub enum MirrorError {
    /// The requested size exceeds `isize::MAX`.
    TooLarge(usize),
}

/// A copy of a shared buffer, with the ranges currently reserved for writing.
pub struct Mirror {
    data: Vec<u8>,
    ranges: Vec<(usize, usize)>,
    mmapped: bool,
}

/// A reservation of the bytes `span.0..span.1` of a mirror.
pub struct MirrorRange {
    span: (usize, usize),
}

impl MirrorRange {
    pub closed spec fn span(&self) -> (usize, usize) {
        self.span
    }
}

impl Mirror {
    /// The bytes of the mirror.
    pub closed spec fn bytes(&self) -> Seq<u8> {
        self.data@
    }

    /// The reserved ranges.
    pub closed spec fn reserved(&self) -> Set<(usize, usize)> {
        self.ranges@.to_set()
    }

    /// Whether the mirror was asked to be backed by an anonymous mapping.
    pub closed spec fn is_mapped(&self) -> bool {
        self.mmapped
    }

    /// A mirror of `size` zero bytes, with no reservation.
    pub fn new(size: usize, mmapped: bool) -> (res: Result<Mirror, MirrorError>)
        ensures
            size > isize::MAX ==> (res matches Err(MirrorError::TooLarge(s)) && s == size),
            size <= isize::MAX ==> (res matches Ok(m) && m.bytes() == Seq::new(size as nat, |i: int| 0u8)
                && m.reserved() == Set::<(usize, usize)>::empty() && m.is_mapped() == mmapped
                && ranges_disjoint(m.reserved())),
    {
        if size > isize::MAX as usize {
            return Err(MirrorError::TooLarge(size));
        }
        let data = vec![0u8; size];
        let m = Mirror { data, ranges: Vec::new(), mmapped };
        proof {
            assert(m.bytes() =~= Seq::new(size as nat, |i: int| 0u8));
            assert(m.reserved() =~= Set::<(usize, usize)>::empty());
        }
        Ok(m)
    }

    /// Reserve the range `start..end`. Returns `None` when the range is empty or overlaps a
    /// reservation (nothing changes), or when it reaches past the end of the mirror (the
    /// range then stays reserved).
    pub fn get_mut_range(&mut self, start: usize, end: usize) -> (res: Option<MirrorRange>)
        ensures
            final(self).bytes() == old(self).bytes(),
            final(self).is_mapped() == old(self).is_mapped(),
            end <= start ==> res is None && final(self).reserved() == old(self).reserved(),
            start < end && (exists|r: (usize, usize)| old(self).reserved().contains(r) && overlaps(r, (start, end)))
                ==> res is None && final(self).reserved() == old(self).reserved(),
            start < end && !(exists|r: (usize, usize)| old(self).reserved().contains(r) && overlaps(r, (start, end)))
                ==> {
                &&& final(self).reserved() == old(self).reserved().insert((start, end))
                &&& end > old(self).bytes().len() ==> res is None
                &&& end <= old(self).bytes().len() ==> (res matches Some(g) && g.span() == (start, end))
            },
            ranges_disjoint(old(self).reserved()) ==> ranges_disjoint(final(self).reserved()),
    {
        if end <= start {
            return None;
        }
        let x = (start, end);
        let mut i: usize = 0;
        while i < self.ranges.len()
            invariant
                i <= self.ranges@.len(),
                x == (start, end),
                forall|j: int| 0 <= j < i ==> !overlaps(#[trigger] self.ranges@[j], x),
            decreases self.ranges@.len() - i,
        {
            if nonempty_range_overlap(&self.ranges[i], &x) {
                proof {
                    assert(self.ranges@.to_set().contains(self.ranges@[i as int]));
                    assert(overlaps(self.ranges@[i as int], (start, end)));
                }
                return None;
            }
            i = i + 1;
        }
        proof {
            assert forall|r: (usize, usize)| old(self).reserved().contains(r) implies !overlaps(r, x) by {
                let j = choose|j: int| 0 <= j < self.ranges@.len() && self.ranges@[j] == r;
            }
        }
        let ghost prev = self.ranges@;
        self.ranges.push(x);
        proof {
            assert(self.ranges@.to_set() =~= prev.to_set().insert(x)) by {
                assert forall|r: (usize, usize)| self.ranges@.to_set().contains(r) <==> prev.to_set().insert(x).contains(r) by {
                    if self.ranges@.to_set().contains(r) && r != x {
                        let j = choose|j: int| 0 <= j < self.ranges@.len() && self.ranges@[j] == r;
                        assert(prev[j] == r);
                    }
                    if prev.to_set().contains(r) {
                        let j = choose|j: int| 0 <= j < prev.len() && prev[j] == r;
                        assert(self.ranges@[j] == r);
                    }
                    if r == x {
                        assert(self.ranges@[prev.len() as int] == x);
                    }
                }
            }
        }
        if end > self.data.len() {
            return None;
        }
        Some(MirrorRange { span: x })
    }

    /// End a reservation.
    pub fn release(&mut self, range: MirrorRange)
        ensures
            final(self).bytes() == old(self).bytes(),
            final(self).is_mapped() == old(self).is_mapped(),
            final(self).reserved() == old(self).reserved().remove(range.span()),
            ranges_disjoint(old(self).reserved()) ==> ranges_disjoint(final(self).reserved()),
    {
        let mut kept: Vec<(usize, usize)> = Vec::new();
        let mut i: usize = 0;
        while i < self.ranges.len()
            invariant
                i <= self.ranges@.len(),
                forall|r: (usize, usize)| #[trigger] kept@.contains(r) <==> (exists|j: int| 0 <= j < i && self.ranges@[j] == r) && r != range.span,
            decreases self.ranges@.len() - i,
        {
            let r = self.ranges[i];
            let ghost k0 = kept@;
            if !(r.0 == range.span.0 && r.1 == range.span.1) {
                kept.push(r);
            }
            proof {
                assert forall|q: (usize, usize)| #[trigger] kept@.contains(q) <==> (exists|j: int| 0 <= j < i + 1 && self.ranges@[j] == q) && q != range.span by {
                    if kept@.contains(q) && q != r {
                        let t = choose|t: int| 0 <= t < kept@.len() && kept@[t] == q;
                        assert(k0[t] == q);
                        assert(k0.contains(q));
                    }
                    if q == r && q != range.span {
                        assert(kept@[kept@.len() - 1] == q);
                    }
                    if k0.contains(q) {
                        let t = choose|t: int| 0 <= t < k0.len() && k0[t] == q;
                        assert(kept@[t] == q);
                    }
                    if (exists|j: int| 0 <= j < i + 1 && self.ranges@[j] == q) && q != range.span && q != r {
                        let j = choose|j: int| 0 <= j < i + 1 && self.ranges@[j] == q;
                        assert(j < i);
                    }
                }
            }
            i = i + 1;
        }
        let ghost prev = self.ranges@;
        self.ranges = kept;
        proof {
            assert(self.ranges@.to_set() =~= prev.to_set().remove(range.span)) by {
                assert forall|q: (usize, usize)| self.ranges@.to_set().contains(q) <==> prev.to_set().remove(range.span).contains(q) by {
                    if prev.to_set().contains(q) && q != range.span {
                        let j = choose|j: int| 0 <= j < prev.len() && prev[j] == q;
                        assert(exists|j: int| 0 <= j < prev.len() && prev[j] == q);
                    }
                }
            }
        }
    }

    /// The bytes of a reserved range.
    pub fn read_range(&self, range: &MirrorRange) -> (r: Vec<u8>)
        requires
            range.span().0 <= range.span().1 <= self.bytes().len(),
        ensures
            r@ == self.bytes().subrange(range.span().0 as int, range.span().1 as int),
    {
        vstd::slice::slice_to_vec(vstd::slice::slice_subrange(self.data.as_slice(), range.span.0, range.span.1))
    }

    /// Write `src` into a reserved range, starting `pos` bytes into it.
    pub fn write_range(&mut self, range: &MirrorRange, pos: usize, src: &[u8])
        requires
            range.span().0 <= range.span().1 <= old(self).bytes().len(),
            pos <= range.span().1 - range.span().0,
            src@.len() <= range.span().1 - range.span().0 - pos,
        ensures
            final(self).reserved() == old(self).reserved(),
            final(self).is_mapped() == old(self).is_mapped(),
            final(self).bytes().len() == old(self).bytes().len(),
            forall|i: int|
                0 <= i < old(self).bytes().len() ==> #[trigger] final(self).bytes()[i] == if range.span().0
                    + pos <= i < range.span().0 + pos + src@.len() {
                    src@[i - range.span().0 - pos]
                } else {
                    old(self).bytes()[i]
                },
    {
        let base = range.span.0 + pos;
        let mut k: usize = 0;
        while k < src.len()
            invariant
                k <= src@.len(),
                base + src@.len() <= self.data.len(),
                base == range.span().0 + pos,
                self.data@.len() == old(self).data@.len(),
                self.ranges == old(self).ranges,
                self.mmapped == old(self).mmapped,
                forall|i: int|
                    0 <= i < old(self).data@.len() ==> #[trigger] self.data@[i] == if base <= i < base + k {
                        src@[i - base]
                    } else {
                        old(self).data@[i]
                    },
            decreases src@.len() - k,
        {
            let idx = base + k;
            self.data.set(idx, src[k]);
            k = k + 1;
        }
    }

    /// Grow the mirror to `new_size` bytes; the new bytes are zero. Fails when `new_size`
    /// exceeds `isize::MAX`.
    pub fn extend(&mut self, new_size: usize) -> (res: Result<(), MirrorError>)
        requires
            new_size <= isize::MAX ==> old(self).reserved().is_empty() && old(self).bytes().len() <= new_size,
        ensures
            final(self).reserved() == old(self).reserved(),
            final(self).is_mapped() == old(self).is_mapped(),
            new_size > isize::MAX ==> (res matches Err(MirrorError::TooLarge(s)) && s == new_size
                && final(self).bytes() == old(self).bytes()),
            new_size <= isize::MAX ==> res is Ok && final(self).bytes() == old(self).bytes() + Seq::new(
                (new_size - old(self).bytes().len()) as nat,
                |i: int| 0u8,
            ),
    {
        if new_size > isize::MAX as usize {
            return Err(MirrorError::TooLarge(new_size));
        }
        let old_size = self.data.len();
        if new_size == old_size {
            proof {
                assert(self.data@ =~= self.data@ + Seq::new(0, |i: int| 0u8));
            }
            return Ok(());
        }
        let ghost prev = self.data@;
        let mut k: usize = old_size;
        while k < new_size
            invariant
                old_size <= k <= new_size,
                self.data@ == prev + Seq::new((k - old_size) as nat, |i: int| 0u8),
                self.ranges == old(self).ranges,
                self.mmapped == old(self).mmapped,
            decreases new_size - k,
        {
            self.data.push(0u8);
            proof {
                assert(self.data@ =~= prev + Seq::new((k + 1 - old_size) as nat, |i: int| 0u8));
            }
            k = k + 1;
        }
        Ok(())
    }

    /// The size of the mirror in bytes.
    pub fn len(&self) -> (r: usize)
        ensures
            r == self.bytes().len(),
    {
        self.data.len()
    }
}

} // verus!
