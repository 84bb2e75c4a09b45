//! Tracking of protocol objects and of the buffer formats that the compositor offers.
use std::collections::{BTreeMap, BTreeSet, VecDeque};
use vstd::prelude::*;
use crate::bytes::{le_value, le_bytes, read_le, push_le};
use crate::surface::ObjWlSurface;
use crate::wire::{MsgOutput, MsgError, word_at, string_arg, array_arg, parse_u32, parse_string, parse_array, copy_msg, spliced, write_at};

verus! {

broadcast use vstd::laws_cmp::group_laws_cmp;

/// Identifier of a protocol object.
pub type ObjId = u32;

/// Index of a protocol interface in the table of known interfaces.
pub type WaylandInterface = u32;

/// The interface of the display object, which exists from the start of each connection.
pub const WL_DISPLAY: WaylandInterface = 0;

/// Identifier of a file shared with the other side.
pub type Rid = i32;

/// What the proxy keeps about an object beyond its interface.
pub enum WpExtra {
    /// Nothing.
    Plain,
    /// A surface: its attached buffer, damage history and viewport.
    WlSurface(ObjWlSurface),
    /// A viewport, and the surface it belongs to until one of them is destroyed.
    WpViewport(Option<ObjId>),
}

/// A protocol object known to be alive.
pub struct WpObject {
    pub obj_type: WaylandInterface,
    pub extra: WpExtra,
}

/// Outcome of processing one message.
#[derive(Debug, PartialEq, Eq)]
pub enum ProcMsg {
    /// The message was handled.
    Done,
    /// The output needs this many more bytes and file descriptors.
    NeedsSpace((usize, usize)),
    /// Processing must wait until the file with this id is ready.
    WaitFor(Rid),
}

/// The object map at the start of a connection: only the display, with id 1.
pub fn setup_object_map() -> (map: BTreeMap<ObjId, WpObject>)
    ensures
        map@.dom() == set![1u32],
        map@[1u32].obj_type == WL_DISPLAY,
        map@[1u32].extra is Plain,
{
    let mut map = BTreeMap::new();
    map.insert(1, WpObject { obj_type: WL_DISPLAY, extra: WpExtra::Plain });
    proof {
        assert(map@.dom() =~= set![1u32]);
    }
    map
}

/// Why an object could not be registered.
#[derive(Debug, Clone, Copy)]
pub enum ObjectError {
    /// An object of type `old_type` already has id `id`; the new object, of type
    /// `new_type`, replaced it.
    IdInUse { id: ObjId, new_type: WaylandInterface, old_type: WaylandInterface },
}

/// Register a new object. The object always takes the id; it is an error if the id was
/// already in use.
pub fn insert_new_object(objects: &mut BTreeMap<ObjId, WpObject>, id: ObjId, obj: WpObject) -> (res: Result<(), ObjectError>)
    ensures
        final(objects)@ == old(objects)@.insert(id, obj),
        !old(objects)@.contains_key(id) ==> res is Ok,
        old(objects)@.contains_key(id) ==> res == Err::<(), ObjectError>(
            ObjectError::IdInUse { id, new_type: obj.obj_type, old_type: old(objects)@[id].obj_type },
        ),
{
    let t = obj.obj_type;
    match objects.insert(id, obj) {
        Some(old) => Err(ObjectError::IdInUse { id, new_type: t, old_type: old.obj_type }),
        None => Ok(()),
    }
}

/// Objects with ids from `0xff000000` on are created by the server.
pub fn is_server_object(id: ObjId) -> (r: bool)
    ensures
        r == (id >= 0xff000000),
{
    id >= 0xff000000
}

/// Space `x` fits in space `y`: bytes and file descriptors both.
pub fn space_le(x: (usize, usize), y: (usize, usize)) -> (r: bool)
    ensures
        r == (x.0 <= y.0 && x.1 <= y.1),
{
    x.0 <= y.0 && x.1 <= y.1
}

/// The format and modifier of entry `k` of a format table: a 32-bit format, 4 bytes of
/// padding, and a 64-bit modifier, all little-endian.
pub open spec fn format_entry(data: Seq<u8>, k: int) -> (u32, u64) {
    (
        le_value(data.subrange(16 * k, 16 * k + 4)) as u32,
        le_value(data.subrange(16 * k + 8, 16 * k + 16)) as u64,
    )
}

/// The (format, modifier) pairs of a format table; trailing bytes that do not make a whole
/// 16-byte entry are ignored.
pub fn parse_format_table(data: &[u8]) -> (t: Vec<(u32, u64)>)
    ensures
        t@.len() == data@.len() / 16,
        forall|k: int| 0 <= k < t@.len() ==> #[trigger] t@[k] == format_entry(data@, k),
{
    let mut t: Vec<(u32, u64)> = Vec::new();
    let n = data.len() / 16;
    let mut k: usize = 0;
    while k < n
        invariant
            k <= n,
            n == data@.len() / 16,
            t@.len() == k,
            forall|j: int| 0 <= j < k ==> #[trigger] t@[j] == format_entry(data@, j),
        decreases n - k,
    {
        proof {
            vstd::arithmetic::div_mod::lemma_fundamental_div_mod(data@.len() as int, 16);
            assert(16 * k + 16 <= 16 * n) by (nonlinear_arith)
                requires
                    k < n,
            ;
            assert(16 * k + 16 <= data.len());
            crate::bytes::lemma_le_value_bound(data@.subrange(16 * k as int, 16 * k + 4));
            assert(vstd::arithmetic::power::pow(256, 4) == 0x1_0000_0000) by {
                reveal_with_fuel(vstd::arithmetic::power::pow, 5);
            }
        }
        let format = read_le(data, 16 * k, 4) as u32;
        let modifier = read_le(data, 16 * k + 8, 8);
        t.push((format, modifier));
        k = k + 1;
    }
    t
}

/// A device number sent as a 4- or 8-byte little-endian array; other lengths are refused.
pub fn parse_dev_array(arr: &[u8]) -> (r: Option<u64>)
    ensures
        arr@.len() == 4 || arr@.len() == 8 ==> r == Some(le_value(arr@) as u64),
        !(arr@.len() == 4 || arr@.len() == 8) ==> r is None,
{
    if arr.len() == 4 || arr.len() == 8 {
        proof {
            assert(arr@.subrange(0, arr@.len() as int) =~= arr@);
        }
        Some(read_le(arr, 0, arr.len()))
    } else {
        None
    }
}

/// The size in bytes of a device number.
pub const SIZEOF_DEV_T: usize = 8;

/// A device number as the array that messages carry.
pub fn write_dev_array(dev: u64) -> (r: Vec<u8>)
    ensures
        r@ == le_bytes(dev as int, SIZEOF_DEV_T as nat),
        le_value(r@) == dev,
{
    let mut out: Vec<u8> = Vec::new();
    push_le(&mut out, dev, SIZEOF_DEV_T);
    proof {
        assert(Seq::<u8>::empty() + le_bytes(dev as int, 8) =~= le_bytes(dev as int, 8));
        assert(vstd::arithmetic::power::pow(256, 8) == 0x1_0000_0000_0000_0000) by {
            reveal_with_fuel(vstd::arithmetic::power::pow, 9);
        }
        crate::bytes::lemma_le_roundtrip(dev as int, 8);
    }
    out
}

/// `list` followed by the entries of `mods` that are not yet in it, each once, in order.
pub open spec fn append_unique(list: Seq<u64>, mods: Seq<u64>) -> Seq<u64>
    decreases mods.len(),
{
    if mods.len() == 0 {
        list
    } else {
        let l2 = append_unique(list, mods.drop_last());
        if l2.contains(mods.last()) {
            l2
        } else {
            l2.push(mods.last())
        }
    }
}

/// Record that `format` is offered with `modifiers`, keeping each modifier once.
pub fn add_advertised_modifiers(map: &mut BTreeMap<u32, Vec<u64>>, format: u32, modifiers: &[u64])
    ensures
        modifiers@.len() == 0 ==> final(map)@ == old(map)@,
        modifiers@.len() > 0 ==> final(map)@.dom() == old(map)@.dom().insert(format),
        modifiers@.len() > 0 ==> forall|k: u32| k != format && #[trigger] old(map)@.contains_key(k) ==> final(map)@[k] == old(map)@[k],
        modifiers@.len() > 0 ==> final(map)@[format]@ == append_unique(
            if old(map)@.contains_key(format) {
                old(map)@[format]@
            } else {
                Seq::empty()
            },
            modifiers@,
        ),
{
    if modifiers.len() == 0 {
        return;
    }
    let ghost m0 = map@;
    let mut entries: Vec<u64> = match map.remove(&format) {
        Some(v) => v,
        None => Vec::new(),
    };
    let ghost base = entries@;
    proof {
        assert(base == if m0.contains_key(format) { m0[format]@ } else { Seq::<u64>::empty() });
    }
    let mut i: usize = 0;
    while i < modifiers.len()
        invariant
            i <= modifiers@.len(),
            entries@ == append_unique(base, modifiers@.subrange(0, i as int)),
        decreases modifiers@.len() - i,
    {
        let m = modifiers[i];
        let mut found = false;
        let mut j: usize = 0;
        while j < entries.len()
            invariant
                j <= entries@.len(),
                found == (exists|t: int| 0 <= t < j && entries@[t] == m),
            decreases entries@.len() - j,
        {
            if entries[j] == m {
                found = true;
            }
            j = j + 1;
        }
        proof {
            let s = modifiers@.subrange(0, i as int + 1);
            assert(s.drop_last() =~= modifiers@.subrange(0, i as int));
            assert(s.last() == m);
            assert(found == entries@.contains(m));
        }
        if !found {
            entries.push(m);
        }
        i = i + 1;
    }
    proof {
        assert(modifiers@.subrange(0, modifiers@.len() as int) =~= modifiers@);
    }
    map.insert(format, entries);
    proof {
        assert(map@.dom() =~= m0.dom().insert(format));
    }
}


/// One tranche of formats that the compositor offers for a device.
pub struct DmabufTranche {
    pub flags: u32,
    /// (format, modifier) pairs.
    pub values: Vec<(u32, u64)>,
    /// Little-endian 16-bit positions of `values` in the format table.
    pub indices: Vec<u8>,
    pub device: u64,
}

/// State of a dmabuf feedback object.
pub struct ObjZwpLinuxDmabufFeedback {
    pub input_format_table: Option<Vec<(u32, u64)>>,
    pub output_format_table: Option<Vec<u8>>,
    pub main_device: Option<u64>,
    pub tranches: Vec<DmabufTranche>,
    pub current: DmabufTranche,
    pub processed: bool,
}

/// Lexicographic order on (format, modifier) pairs.
pub open spec fn pair_lt(a: (u32, u64), b: (u32, u64)) -> bool {
    a.0 < b.0 || (a.0 == b.0 && a.1 < b.1)
}

pub open spec fn strictly_sorted(s: Seq<(u32, u64)>) -> bool {
    forall|i: int, j: int| 0 <= i < j < s.len() ==> pair_lt(#[trigger] s[i], #[trigger] s[j])
}

/// The pair occurs among the values of some tranche.
pub open spec fn in_tranches(ts: Seq<DmabufTranche>, p: (u32, u64)) -> bool {
    exists|t: int| 0 <= t < ts.len() && (#[trigger] ts[t]).values@.contains(p)
}

/// `l` lists every pair of the tranches once, in increasing order.
pub open spec fn is_format_index(l: Seq<(u32, u64)>, ts: Seq<DmabufTranche>) -> bool {
    &&& strictly_sorted(l)
    &&& forall|p: (u32, u64)| #[trigger] l.contains(p) <==> in_tranches(ts, p)
}

/// One 16-byte entry of a format table.
pub open spec fn table_record(p: (u32, u64)) -> Seq<u8> {
    le_bytes(p.0 as int, 4) + le_bytes(0, 4) + le_bytes(p.1 as int, 8)
}

/// The format table listing the pairs of `l`.
pub open spec fn table_bytes(l: Seq<(u32, u64)>) -> Seq<u8>
    decreases l.len(),
{
    if l.len() == 0 {
        Seq::empty()
    } else {
        table_bytes(l.drop_last()) + table_record(l.last())
    }
}

/// The 16-bit little-endian positions in `l` of each of `values`.
pub open spec fn index_bytes(l: Seq<(u32, u64)>, values: Seq<(u32, u64)>) -> Seq<u8>
    decreases values.len(),
{
    if values.len() == 0 {
        Seq::empty()
    } else {
        index_bytes(l, values.drop_last()) + le_bytes(l.index_of(values.last()), 2)
    }
}

/// Why a format table could not be built.
#[derive(Debug, Clone, Copy)]
pub enum FormatTableError {
    /// More distinct pairs than 16-bit indices can address.
    TooLarge(usize),
    /// No format of the main device is supported on this side.
    NoCommonFormats,
}

fn pair_less(a: (u32, u64), b: (u32, u64)) -> (r: bool)
    ensures
        r == pair_lt(a, b),
{
    a.0 < b.0 || (a.0 == b.0 && a.1 < b.1)
}

/// Insert `v` into the strictly increasing list `l` unless it is already there.
fn insert_sorted(l: &mut Vec<(u32, u64)>, v: (u32, u64))
    requires
        strictly_sorted(old(l)@),
    ensures
        strictly_sorted(final(l)@),
        forall|p: (u32, u64)| #[trigger] final(l)@.contains(p) <==> old(l)@.contains(p) || p == v,
{
    let mut p: usize = 0;
    while p < l.len() && pair_less(l[p], v)
        invariant
            p <= l@.len(),
            l@ == old(l)@,
            strictly_sorted(l@),
            forall|i: int| 0 <= i < p ==> pair_lt(#[trigger] l@[i], v),
        decreases l@.len() - p,
    {
        p = p + 1;
    }
    if p < l.len() && l[p].0 == v.0 && l[p].1 == v.1 {
        proof {
            assert(l@[p as int] == v);
        }
        return;
    }
    let ghost l0 = l@;
    l.insert(p, v);
    proof {
        assert forall|i: int, j: int| 0 <= i < j < l@.len() implies pair_lt(#[trigger] l@[i], #[trigger] l@[j]) by {
            if j < p {
                assert(l@[i] == l0[i] && l@[j] == l0[j]);
            } else if j == p {
                assert(l@[i] == l0[i]);
            } else if i < p {
                assert(l@[i] == l0[i] && l@[j] == l0[j - 1]);
                assert(pair_lt(l0[i], l0[p as int]) || i == p);
            } else if i == p {
                assert(l@[j] == l0[j - 1]);
                assert(!pair_lt(l0[p as int], v));
                assert(l0[p as int] != v);
            } else {
                assert(l@[i] == l0[i - 1] && l@[j] == l0[j - 1]);
            }
        }
        assert forall|q: (u32, u64)| #[trigger] l@.contains(q) <==> l0.contains(q) || q == v by {
            if l@.contains(q) {
                let i = choose|i: int| 0 <= i < l@.len() && l@[i] == q;
                if i < p {
                    assert(l0[i] == q);
                } else if i > p {
                    assert(l0[i - 1] == q);
                }
            }
            if l0.contains(q) {
                let i = choose|i: int| 0 <= i < l0.len() && l0[i] == q;
                if i < p {
                    assert(l@[i] == q);
                } else {
                    assert(l@[i + 1] == q);
                }
            }
            if q == v {
                assert(l@[p as int] == v);
            }
        }
    }
}

/// The position of `v` in the list `l`, which holds it.
fn position_of(l: &Vec<(u32, u64)>, v: (u32, u64)) -> (k: usize)
    requires
        l@.contains(v),
        strictly_sorted(l@),
    ensures
        k < l@.len(),
        l@[k as int] == v,
        k == l@.index_of(v),
{
    let mut k: usize = 0;
    while k < l.len()
        invariant
            k <= l@.len(),
            l@.contains(v),
            strictly_sorted(l@),
            forall|i: int| 0 <= i < k ==> l@[i] != v,
        decreases l@.len() - k,
    {
        if l[k].0 == v.0 && l[k].1 == v.1 {
            proof {
                assert(l@[k as int] == v);
                assert(l@.index_of(v) == k) by {
                    let i = l@.index_of(v);
                    assert(0 <= i < l@.len() && l@[i] == v);
                    if k < i {
                        assert(pair_lt(l@[k as int], l@[i]));
                    }
                }
            }
            return k;
        }
        k = k + 1;
    }
    proof {
        let i = choose|i: int| 0 <= i < l@.len() && l@[i] == v;
    }
    k
}

/// A copy of a list of pairs.
fn copy_pairs(v: &Vec<(u32, u64)>) -> (r: Vec<(u32, u64)>)
    ensures
        r@ == v@,
{
    let mut r: Vec<(u32, u64)> = Vec::new();
    let mut i: usize = 0;
    while i < v.len()
        invariant
            i <= v@.len(),
            r@ == v@.subrange(0, i as int),
        decreases v@.len() - i,
    {
        r.push(v[i]);
        proof {
            assert(r@ =~= v@.subrange(0, i as int + 1));
        }
        i = i + 1;
    }
    proof {
        assert(v@.subrange(0, v@.len() as int) =~= v@);
    }
    r
}

/// Build the format table for the tranches of `feedback`: every (format, modifier) pair
/// once, in increasing order, as 16-byte entries; and set each tranche's indices to the
/// positions of its pairs in that table. Fails, leaving `feedback` unchanged, when there
/// are more pairs than 16-bit indices can address.
pub fn process_dmabuf_feedback(feedback: &mut ObjZwpLinuxDmabufFeedback) -> (res: Result<Vec<u8>, FormatTableError>)
    ensures
        exists|l: Seq<(u32, u64)>|
            #![trigger is_format_index(l, old(feedback).tranches@)]
            is_format_index(l, old(feedback).tranches@) && if l.len() > 0xffff {
                &&& res matches Err(FormatTableError::TooLarge(n)) && n == l.len()
                &&& final(feedback).tranches@ == old(feedback).tranches@
            } else {
                &&& res matches Ok(table) && table@ == table_bytes(l)
                &&& final(feedback).tranches@.len() == old(feedback).tranches@.len()
                &&& forall|t: int|
                    0 <= t < old(feedback).tranches@.len() ==> {
                        let a = #[trigger] final(feedback).tranches@[t];
                        let b = old(feedback).tranches@[t];
                        &&& a.flags == b.flags
                        &&& a.device == b.device
                        &&& a.values@ == b.values@
                        &&& a.indices@ == index_bytes(l, b.values@)
                    }
            },
        final(feedback).input_format_table == old(feedback).input_format_table,
        final(feedback).output_format_table == old(feedback).output_format_table,
        final(feedback).main_device == old(feedback).main_device,
        final(feedback).current == old(feedback).current,
        final(feedback).processed == old(feedback).processed,
{
    let ghost ts = feedback.tranches@;
    let mut index: Vec<(u32, u64)> = Vec::new();
    let mut t: usize = 0;
    while t < feedback.tranches.len()
        invariant
            t <= ts.len(),
            feedback.tranches@ == ts,
            strictly_sorted(index@),
            forall|p: (u32, u64)| #[trigger] index@.contains(p) <==> in_tranches(ts.subrange(0, t as int), p),
        decreases ts.len() - t,
    {
        let mut k: usize = 0;
        while k < feedback.tranches[t].values.len()
            invariant
                t < ts.len(),
                feedback.tranches@ == ts,
                k <= ts[t as int].values@.len(),
                strictly_sorted(index@),
                forall|p: (u32, u64)| #[trigger] index@.contains(p) <==> in_tranches(ts.subrange(0, t as int), p)
                    || ts[t as int].values@.subrange(0, k as int).contains(p),
            decreases ts[t as int].values@.len() - k,
        {
            let v = feedback.tranches[t].values[k];
            let ghost i0 = index@;
            insert_sorted(&mut index, v);
            proof {
                let vs = ts[t as int].values@;
                let s0 = vs.subrange(0, k as int);
                let s1 = vs.subrange(0, k as int + 1);
                assert forall|p: (u32, u64)| #[trigger] index@.contains(p) <==> in_tranches(ts.subrange(0, t as int), p)
                    || s1.contains(p) by {
                    if s0.contains(p) {
                        let j = choose|j: int| 0 <= j < s0.len() && s0[j] == p;
                        assert(s1[j] == p);
                    }
                    if s1.contains(p) && p != v {
                        let j = choose|j: int| 0 <= j < s1.len() && s1[j] == p;
                        assert(s0[j] == p);
                    }
                    if p == v {
                        assert(s1[k as int] == p);
                    }
                }
            }
            k = k + 1;
        }
        proof {
            let vs = ts[t as int].values@;
            assert(vs.subrange(0, vs.len() as int) =~= vs);
            assert forall|p: (u32, u64)| #[trigger] index@.contains(p) <==> in_tranches(ts.subrange(0, t as int + 1), p) by {
                if in_tranches(ts.subrange(0, t as int + 1), p) {
                    let u = choose|u: int| 0 <= u < t + 1 && (#[trigger] ts.subrange(0, t as int + 1)[u]).values@.contains(p);
                    if u < t {
                        assert(ts.subrange(0, t as int)[u] == ts[u]);
                    }
                }
                if in_tranches(ts.subrange(0, t as int), p) {
                    let u = choose|u: int| 0 <= u < t && (#[trigger] ts.subrange(0, t as int)[u]).values@.contains(p);
                    assert(ts.subrange(0, t as int + 1)[u] == ts[u]);
                }
                if vs.contains(p) {
                    assert(ts.subrange(0, t as int + 1)[t as int] == ts[t as int]);
                }
            }
        }
        t = t + 1;
    }
    proof {
        assert(ts.subrange(0, ts.len() as int) =~= ts);
        assert(is_format_index(index@, ts));
    }
    if index.len() > 0xffff {
        return Err(FormatTableError::TooLarge(index.len()));
    }
    let mut table: Vec<u8> = Vec::new();
    let mut i: usize = 0;
    while i < index.len()
        invariant
            i <= index@.len(),
            table@ == table_bytes(index@.subrange(0, i as int)),
        decreases index@.len() - i,
    {
        let p = index[i];
        push_le(&mut table, p.0 as u64, 4);
        push_le(&mut table, 0, 4);
        push_le(&mut table, p.1, 8);
        proof {
            let s = index@.subrange(0, i as int + 1);
            assert(s.drop_last() =~= index@.subrange(0, i as int));
            assert(s.last() == p);
            assert(table@ =~= table_bytes(s));
        }
        i = i + 1;
    }
    proof {
        assert(index@.subrange(0, index@.len() as int) =~= index@);
    }
    let mut new_tranches: Vec<DmabufTranche> = Vec::new();
    let mut t: usize = 0;
    while t < feedback.tranches.len()
        invariant
            t <= ts.len(),
            feedback.tranches@ == ts,
            index@.len() <= 0xffff,
            is_format_index(index@, ts),
            new_tranches@.len() == t,
            forall|u: int|
                0 <= u < t ==> {
                    let a = #[trigger] new_tranches@[u];
                    let b = ts[u];
                    &&& a.flags == b.flags
                    &&& a.device == b.device
                    &&& a.values@ == b.values@
                    &&& a.indices@ == index_bytes(index@, b.values@)
                },
        decreases ts.len() - t,
    {
        let mut indices: Vec<u8> = Vec::new();
        let mut k: usize = 0;
        while k < feedback.tranches[t].values.len()
            invariant
                t < ts.len(),
                feedback.tranches@ == ts,
                index@.len() <= 0xffff,
                is_format_index(index@, ts),
                k <= ts[t as int].values@.len(),
                indices@ == index_bytes(index@, ts[t as int].values@.subrange(0, k as int)),
            decreases ts[t as int].values@.len() - k,
        {
            let v = feedback.tranches[t].values[k];
            proof {
                assert(ts[t as int].values@.contains(v));
                assert(in_tranches(ts, v));
            }
            let pos = position_of(&index, v);
            push_le(&mut indices, pos as u64, 2);
            proof {
                let s = ts[t as int].values@.subrange(0, k as int + 1);
                assert(s.drop_last() =~= ts[t as int].values@.subrange(0, k as int));
                assert(s.last() == v);
            }
            k = k + 1;
        }
        proof {
            assert(ts[t as int].values@.subrange(0, ts[t as int].values@.len() as int) =~= ts[t as int].values@);
        }
        let values = copy_pairs(&feedback.tranches[t].values);
        new_tranches.push(DmabufTranche {
            flags: feedback.tranches[t].flags,
            values,
            indices,
            device: feedback.tranches[t].device,
        });
        t = t + 1;
    }
    feedback.tranches = new_tranches;
    Ok(table)
}

/// The modifiers that this side's device supports, for each format.
pub struct DmabufDevice {
    pub modifiers: BTreeMap<u32, Vec<u64>>,
}

/// The modifiers the device supports for `format`; none for a format it does not know.
pub open spec fn device_modifiers(dev: &DmabufDevice, format: u32) -> Seq<u64> {
    if dev.modifiers@.contains_key(format) {
        dev.modifiers@[format]@
    } else {
        Seq::empty()
    }
}

fn dmabuf_dev_modifier_list(dev: &DmabufDevice, format: u32) -> (r: &[u64])
    ensures
        r@ == device_modifiers(dev, format),
{
    match dev.modifiers.get(&format) {
        Some(v) => v.as_slice(),
        None => &[],
    }
}

/// Some pair of `vals` has format `f`.
pub open spec fn has_format(vals: Seq<(u32, u64)>, f: u32) -> bool {
    exists|k: int| 0 <= k < vals.len() && (#[trigger] vals[k]).0 == f
}

/// Some tranche of device `main` among the first `t` offers format `f`.
pub open spec fn main_offers_before(ts: Seq<DmabufTranche>, main: u64, t: int, f: u32) -> bool {
    exists|u: int| 0 <= u < t && (#[trigger] ts[u]).device == main && has_format(ts[u].values@, f)
}

/// Format `f` paired with each of `mods`, in order.
pub open spec fn pairs_for(f: u32, mods: Seq<u64>) -> Seq<(u32, u64)> {
    Seq::new(mods.len(), |i: int| (f, mods[i]))
}

/// The values of the rebuilt form of tranche `t`, from its first `k` pairs: each format
/// that no earlier pair of a tranche of the main device had, with every modifier that
/// this side's device supports for it.
pub open spec fn rebuilt_values(dev: &DmabufDevice, ts: Seq<DmabufTranche>, main: u64, t: int, k: int) -> Seq<(u32, u64)>
    decreases k,
{
    if k <= 0 {
        Seq::empty()
    } else {
        let vals = ts[t].values@;
        let f = vals[k - 1].0;
        let fresh = !main_offers_before(ts, main, t, f) && !has_format(vals.subrange(0, k - 1), f);
        rebuilt_values(dev, ts, main, t, k - 1) + if fresh {
            pairs_for(f, device_modifiers(dev, f))
        } else {
            Seq::empty()
        }
    }
}

/// The values of the rebuilt tranches for the first `n` tranches: one per tranche of
/// the main device whose rebuilt values are not empty.
pub open spec fn rebuilt_tranches(dev: &DmabufDevice, ts: Seq<DmabufTranche>, main: u64, n: int) -> Seq<Seq<(u32, u64)>>
    decreases n,
{
    if n <= 0 {
        Seq::empty()
    } else {
        let prev = rebuilt_tranches(dev, ts, main, n - 1);
        let v = rebuilt_values(dev, ts, main, n - 1, ts[n - 1].values@.len() as int);
        if ts[n - 1].device == main && v.len() > 0 {
            prev.push(v)
        } else {
            prev
        }
    }
}

/// Replace the tranches of `feedback` by tranches of its main device that offer, for each
/// format the remote side listed for that device, the modifiers that this side's device
/// supports. Fails, leaving `feedback` unchanged, when no such tranche is left.
pub fn rebuild_format_table(dmabuf_dev: &DmabufDevice, feedback: &mut ObjZwpLinuxDmabufFeedback) -> (res: Result<(), FormatTableError>)
    requires
        old(feedback).main_device is Some,
    ensures
        ({
            let main = old(feedback).main_device->0;
            let ts = old(feedback).tranches@;
            let r = rebuilt_tranches(dmabuf_dev, ts, main, ts.len() as int);
            &&& r.len() == 0 ==> (res matches Err(FormatTableError::NoCommonFormats))
                && final(feedback).tranches@ == ts
            &&& r.len() > 0 ==> res is Ok && final(feedback).tranches@.len() == r.len()
                && forall|i: int| 0 <= i < r.len() ==> {
                    let a = #[trigger] final(feedback).tranches@[i];
                    &&& a.values@ == r[i]
                    &&& a.device == main
                    &&& a.flags == 0
                    &&& a.indices@.len() == 0
                }
        }),
        final(feedback).input_format_table == old(feedback).input_format_table,
        final(feedback).output_format_table == old(feedback).output_format_table,
        final(feedback).main_device == old(feedback).main_device,
        final(feedback).current == old(feedback).current,
        final(feedback).processed == old(feedback).processed,
{
    let ghost ts = feedback.tranches@;
    let main = match feedback.main_device {
        Some(d) => d,
        None => 0,
    };
    let mut remote_formats: BTreeSet<u32> = BTreeSet::new();
    let mut t: usize = 0;
    while t < feedback.tranches.len()
        invariant
            t <= ts.len(),
            feedback.tranches@ == ts,
            forall|f: u32| #[trigger] remote_formats@.contains(f) <==> main_offers_before(ts, main, t as int, f),
        decreases ts.len() - t,
    {
        if feedback.tranches[t].device == main {
            let mut k: usize = 0;
            while k < feedback.tranches[t].values.len()
                invariant
                    t < ts.len(),
                    feedback.tranches@ == ts,
                    ts[t as int].device == main,
                    k <= ts[t as int].values@.len(),
                    forall|f: u32| #[trigger] remote_formats@.contains(f) <==> main_offers_before(ts, main, t as int, f)
                        || has_format(ts[t as int].values@.subrange(0, k as int), f),
                decreases ts[t as int].values@.len() - k,
            {
                let fmt = feedback.tranches[t].values[k].0;
                remote_formats.insert(fmt);
                proof {
                    let vs = ts[t as int].values@;
                    let s0 = vs.subrange(0, k as int);
                    let s1 = vs.subrange(0, k as int + 1);
                    assert forall|f: u32| has_format(s1, f) <==> has_format(s0, f) || f == fmt by {
                        if has_format(s0, f) {
                            let j = choose|j: int| 0 <= j < s0.len() && (#[trigger] s0[j]).0 == f;
                            assert(s1[j] == s0[j]);
                        }
                        if has_format(s1, f) && f != fmt {
                            let j = choose|j: int| 0 <= j < s1.len() && (#[trigger] s1[j]).0 == f;
                            assert(s0[j] == s1[j]);
                        }
                        if f == fmt {
                            assert(s1[k as int].0 == f);
                        }
                    }
                }
                k = k + 1;
            }
            proof {
                let vs = ts[t as int].values@;
                assert(vs.subrange(0, vs.len() as int) =~= vs);
                assert forall|f: u32| #[trigger] remote_formats@.contains(f) <==> main_offers_before(ts, main, t as int + 1, f) by {
                    if main_offers_before(ts, main, t as int + 1, f) {
                        let u = choose|u: int| 0 <= u < t + 1 && (#[trigger] ts[u]).device == main && has_format(ts[u].values@, f);
                    }
                    if has_format(vs, f) {
                        assert(ts[t as int].device == main);
                    }
                }
            }
        } else {
            proof {
                assert forall|f: u32| #[trigger] remote_formats@.contains(f) <==> main_offers_before(ts, main, t as int + 1, f) by {
                    if main_offers_before(ts, main, t as int + 1, f) {
                        let u = choose|u: int| 0 <= u < t + 1 && (#[trigger] ts[u]).device == main && has_format(ts[u].values@, f);
                    }
                }
            }
        }
        t = t + 1;
    }
    let ghost all = ts.len() as int;
    let mut new_tranches: Vec<DmabufTranche> = Vec::new();
    let mut t: usize = 0;
    while t < feedback.tranches.len()
        invariant
            t <= ts.len(),
            all == ts.len(),
            feedback.tranches@ == ts,
            forall|f: u32| #[trigger] remote_formats@.contains(f) <==> main_offers_before(ts, main, all, f)
                && !main_offers_before(ts, main, t as int, f),
            new_tranches@.len() == rebuilt_tranches(dmabuf_dev, ts, main, t as int).len(),
            forall|i: int| 0 <= i < new_tranches@.len() ==> {
                let a = #[trigger] new_tranches@[i];
                &&& a.values@ == rebuilt_tranches(dmabuf_dev, ts, main, t as int)[i]
                &&& a.device == main
                &&& a.flags == 0
                &&& a.indices@.len() == 0
            },
        decreases ts.len() - t,
    {
        if feedback.tranches[t].device != main {
            proof {
                assert forall|f: u32| #[trigger] remote_formats@.contains(f) <==> main_offers_before(ts, main, all, f)
                    && !main_offers_before(ts, main, t as int + 1, f) by {
                    if main_offers_before(ts, main, t as int + 1, f) {
                        let u = choose|u: int| 0 <= u < t + 1 && (#[trigger] ts[u]).device == main && has_format(ts[u].values@, f);
                    }
                }
            }
            t = t + 1;
            continue;
        }
        let mut values: Vec<(u32, u64)> = Vec::new();
        let mut k: usize = 0;
        while k < feedback.tranches[t].values.len()
            invariant
                t < ts.len(),
                all == ts.len(),
                feedback.tranches@ == ts,
                ts[t as int].device == main,
                k <= ts[t as int].values@.len(),
                forall|f: u32| #[trigger] remote_formats@.contains(f) <==> main_offers_before(ts, main, all, f)
                    && !main_offers_before(ts, main, t as int, f)
                    && !has_format(ts[t as int].values@.subrange(0, k as int), f),
                values@ == rebuilt_values(dmabuf_dev, ts, main, t as int, k as int),
            decreases ts[t as int].values@.len() - k,
        {
            let fmt = feedback.tranches[t].values[k].0;
            let ghost vs = ts[t as int].values@;
            let ghost s0 = vs.subrange(0, k as int);
            let ghost s1 = vs.subrange(0, k as int + 1);
            proof {
                assert(has_format(vs, fmt)) by {
                    assert(vs[k as int].0 == fmt);
                }
                assert(main_offers_before(ts, main, all, fmt)) by {
                    assert(ts[t as int].device == main && has_format(ts[t as int].values@, fmt));
                }
                assert(s0 =~= vs.subrange(0, k as int + 1 - 1));
            }
            let fresh = remote_formats.remove(&fmt);
            let ghost v0 = values@;
            if fresh {
                let mods = dmabuf_dev_modifier_list(dmabuf_dev, fmt);
                let mut j: usize = 0;
                while j < mods.len()
                    invariant
                        j <= mods@.len(),
                        values@ == v0 + pairs_for(fmt, mods@.subrange(0, j as int)),
                    decreases mods@.len() - j,
                {
                    values.push((fmt, mods[j]));
                    proof {
                        assert(pairs_for(fmt, mods@.subrange(0, j as int + 1)) =~= pairs_for(fmt, mods@.subrange(0, j as int)).push((fmt, mods@[j as int])));
                    }
                    j = j + 1;
                }
                proof {
                    assert(mods@.subrange(0, mods@.len() as int) =~= mods@);
                }
            } else {
                proof {
                    assert(values@ =~= v0 + Seq::<(u32, u64)>::empty());
                }
            }
            proof {
                assert forall|f: u32| has_format(s1, f) <==> has_format(s0, f) || f == fmt by {
                    if has_format(s0, f) {
                        let j = choose|j: int| 0 <= j < s0.len() && (#[trigger] s0[j]).0 == f;
                        assert(s1[j] == s0[j]);
                    }
                    if has_format(s1, f) && f != fmt {
                        let j = choose|j: int| 0 <= j < s1.len() && (#[trigger] s1[j]).0 == f;
                        assert(s0[j] == s1[j]);
                    }
                    if f == fmt {
                        assert(s1[k as int].0 == f);
                    }
                }
            }
            k = k + 1;
        }
        proof {
            let vs = ts[t as int].values@;
            assert(vs.subrange(0, vs.len() as int) =~= vs);
            assert forall|f: u32| #[trigger] remote_formats@.contains(f) <==> main_offers_before(ts, main, all, f)
                && !main_offers_before(ts, main, t as int + 1, f) by {
                if main_offers_before(ts, main, t as int + 1, f) {
                    let u = choose|u: int| 0 <= u < t + 1 && (#[trigger] ts[u]).device == main && has_format(ts[u].values@, f);
                }
                if has_format(vs, f) {
                    assert(ts[t as int].device == main);
                }
            }
        }
        if values.len() > 0 {
            new_tranches.push(DmabufTranche { device: main, flags: 0, values, indices: Vec::new() });
        }
        t = t + 1;
    }
    if new_tranches.len() == 0 {
        return Err(FormatTableError::NoCommonFormats);
    }
    feedback.tranches = new_tranches;
    Ok(())
}

/// The type of one argument of a protocol message.
#[derive(Debug, Clone, Copy, PartialEq, Eq, Structural)]
pub enum WaylandArgument {
    Uint,
    Int,
    Fixed,
    Fd,
    /// An object of the given interface.
    Object(WaylandInterface),
    /// An object of any interface.
    GenericObject,
    /// A new object of the given interface.
    NewId(WaylandInterface),
    /// A new object whose interface is named in the message, with a version.
    GenericNewId,
    String,
    OptionalString,
    Array,
}

/// A request or event: the types of its arguments, and whether it destroys its object.
pub struct WaylandMethod {
    pub sig: Vec<WaylandArgument>,
    pub destructor: bool,
}

/// Why a message could not be processed.
#[derive(Debug, Clone, Copy)]
pub enum RegisterError {
    /// The arguments do not parse.
    Msg(MsgError),
    /// A new object took an id that was in use.
    Object(ObjectError),
    /// A new object of an interface named in the message has an id that is in use.
    IdNotDeleted(ObjId),
}

/// The interface named `name`: its index in the table of interface names.
pub open spec fn lookup_spec(names: Seq<Seq<u8>>, name: Seq<u8>) -> Option<WaylandInterface> {
    if exists|i: int| 0 <= i < names.len() && names[i] == name {
        Some((choose|i: int| 0 <= i < names.len() && names[i] == name && forall|j: int| 0 <= j < i ==> names[j] != name) as u32)
    } else {
        None
    }
}

pub open spec fn name_bytes(names: Seq<Vec<u8>>) -> Seq<Seq<u8>> {
    names.map_values(|n: Vec<u8>| n@)
}

/// The effect of one argument of type `arg` at `pos`: an error, if any, the position
/// after it, and the objects after registering any object it creates.
pub open spec fn reg_step(
    msg: Seq<u8>,
    arg: WaylandArgument,
    names: Seq<Seq<u8>>,
    pos: int,
    objs: Map<ObjId, WpObject>,
) -> (Option<RegisterError>, int, Map<ObjId, WpObject>) {
    match arg {
        WaylandArgument::Uint | WaylandArgument::Int | WaylandArgument::Fixed => (
            None,
            if word_at(msg, pos) is Some { pos + 4 } else { pos },
            objs,
        ),
        WaylandArgument::Fd => (None, pos, objs),
        WaylandArgument::Object(_) | WaylandArgument::GenericObject => match word_at(msg, pos) {
            Some(_) => (None, pos + 4, objs),
            None => (Some(RegisterError::Msg(MsgError::Truncated)), pos, objs),
        },
        WaylandArgument::NewId(intf) => match word_at(msg, pos) {
            Some(id) => (
                if objs.contains_key(id) {
                    Some(RegisterError::Object(ObjectError::IdInUse { id, new_type: intf, old_type: objs[id].obj_type }))
                } else {
                    None
                },
                pos + 4,
                objs.insert(id, WpObject { obj_type: intf, extra: WpExtra::Plain }),
            ),
            None => (Some(RegisterError::Msg(MsgError::Truncated)), pos, objs),
        },
        WaylandArgument::GenericNewId => match string_arg(msg, pos) {
            Err(e) => (Some(RegisterError::Msg(e)), pos, objs),
            Ok((None, p1)) => (Some(RegisterError::Msg(MsgError::NullString)), p1, objs),
            Ok((Some((a, b)), p1)) => match (word_at(msg, p1), word_at(msg, p1 + 4)) {
                (Some(_), Some(id)) => if objs.contains_key(id) {
                    (Some(RegisterError::IdNotDeleted(id)), p1 + 8, objs)
                } else {
                    match lookup_spec(names, msg.subrange(a, b)) {
                        Some(intf) => (None, p1 + 8, objs.insert(id, WpObject { obj_type: intf, extra: WpExtra::Plain })),
                        None => (None, p1 + 8, objs),
                    }
                },
                (Some(_), None) => (Some(RegisterError::Msg(MsgError::Truncated)), p1 + 4, objs),
                (None, _) => (Some(RegisterError::Msg(MsgError::Truncated)), p1, objs),
            },
        },
        WaylandArgument::String => match string_arg(msg, pos) {
            Err(e) => (Some(RegisterError::Msg(e)), pos, objs),
            Ok((None, p1)) => (Some(RegisterError::Msg(MsgError::NullString)), p1, objs),
            Ok((Some(_), p1)) => (None, p1, objs),
        },
        WaylandArgument::OptionalString => match string_arg(msg, pos) {
            Err(e) => (Some(RegisterError::Msg(e)), pos, objs),
            Ok((_, p1)) => (None, p1, objs),
        },
        WaylandArgument::Array => match array_arg(msg, pos) {
            Err(e) => (Some(RegisterError::Msg(e)), pos, objs),
            Ok((_, p1)) => (None, p1, objs),
        },
    }
}

/// The effect of the first `n` arguments of `sig`, read from byte 8 of `msg` on, stopping
/// at the first error.
pub open spec fn reg_prefix(
    msg: Seq<u8>,
    sig: Seq<WaylandArgument>,
    names: Seq<Seq<u8>>,
    objs: Map<ObjId, WpObject>,
    n: int,
) -> (Option<RegisterError>, int, Map<ObjId, WpObject>)
    decreases n,
{
    if n <= 0 {
        (None, 8, objs)
    } else {
        let prev = reg_prefix(msg, sig, names, objs, n - 1);
        if prev.0 is Some {
            prev
        } else {
            reg_step(msg, sig[n - 1], names, prev.1, prev.2)
        }
    }
}

/// Registering the objects a message creates keeps every object that was alive.
pub proof fn lemma_reg_keeps(msg: Seq<u8>, sig: Seq<WaylandArgument>, names: Seq<Seq<u8>>, objs: Map<ObjId, WpObject>, n: int, k: ObjId)
    requires
        objs.contains_key(k),
    ensures
        reg_prefix(msg, sig, names, objs, n).2.contains_key(k),
    decreases n,
{
    if n > 0 {
        lemma_reg_keeps(msg, sig, names, objs, n - 1, k);
    }
}

/// Once an argument fails, later ones change nothing.
proof fn lemma_reg_stuck(
    msg: Seq<u8>,
    sig: Seq<WaylandArgument>,
    names: Seq<Seq<u8>>,
    objs: Map<ObjId, WpObject>,
    n: int,
    m: int,
)
    requires
        0 <= n <= m,
    ensures
        reg_prefix(msg, sig, names, objs, n).0 is Some ==> reg_prefix(msg, sig, names, objs, m) == reg_prefix(
            msg,
            sig,
            names,
            objs,
            n,
        ),
    decreases m - n,
{
    if n < m {
        lemma_reg_stuck(msg, sig, names, objs, n, m - 1);
    }
}

/// The position of `name` in `names`, if there.
fn lookup_intf_by_name(names: &[Vec<u8>], msg: &[u8], a: usize, b: usize) -> (r: Option<WaylandInterface>)
    requires
        a <= b <= msg@.len(),
        names@.len() <= u32::MAX,
    ensures
        r == lookup_spec(name_bytes(names@), msg@.subrange(a as int, b as int)),
{
    let ghost nm = name_bytes(names@);
    let ghost target = msg@.subrange(a as int, b as int);
    let mut i: usize = 0;
    while i < names.len()
        invariant
            i <= names@.len(),
            names@.len() <= u32::MAX,
            nm == name_bytes(names@),
            target == msg@.subrange(a as int, b as int),
            a <= b <= msg@.len(),
            forall|j: int| 0 <= j < i ==> nm[j] != target,
        decreases names@.len() - i,
    {
        let n = &names[i];
        let mut same = n.len() == b - a;
        let mut k: usize = 0;
        while same && k < n.len()
            invariant
                n@ == nm[i as int],
                target == msg@.subrange(a as int, b as int),
                a <= b <= msg@.len(),
                k <= n@.len(),
                same ==> n@.len() == b - a,
                same ==> forall|j: int| 0 <= j < k ==> n@[j] == target[j],
                !same ==> n@ != target,
            decreases n@.len() - k,
        {
            if n[k] != msg[a + k] {
                same = false;
                proof {
                    assert(n@[k as int] != target[k as int]);
                }
            }
            k = k + 1;
        }
        if same {
            proof {
                assert(n@ =~= target);
                let c = choose|c: int| 0 <= c < nm.len() && nm[c] == target && forall|j: int| 0 <= j < c ==> nm[j] != target;
                assert(c == i) by {
                    if c > i {
                        assert(nm[i as int] != target);
                    }
                }
            }
            return Some(i as u32);
        }
        i = i + 1;
    }
    None
}

/// Read one argument of type `arg` at `*pos`, registering the object it creates (see
/// `reg_step`).
fn register_arg(
    msg: &[u8],
    arg: WaylandArgument,
    names: &[Vec<u8>],
    pos: &mut usize,
    objects: &mut BTreeMap<ObjId, WpObject>,
) -> (res: Result<(), RegisterError>)
    requires
        *old(pos) <= msg@.len(),
        names@.len() <= u32::MAX,
    ensures
        ({
            let r = reg_step(msg@, arg, name_bytes(names@), *old(pos) as int, old(objects)@);
            &&& final(objects)@ == r.2
            &&& *final(pos) <= msg@.len()
            &&& match r.0 {
                None => res is Ok && *final(pos) == r.1,
                Some(e) => res matches Err(e2) && e2 == e,
            }
        }),
{
    match arg {
        WaylandArgument::Uint | WaylandArgument::Int | WaylandArgument::Fixed => {
            let _ = parse_u32(msg, pos);
        },
        WaylandArgument::Fd => {},
        WaylandArgument::Object(_) | WaylandArgument::GenericObject => {
            if let Err(e) = parse_u32(msg, pos) {
                return Err(RegisterError::Msg(e));
            }
        },
        WaylandArgument::NewId(new_intf) => {
            let id = match parse_u32(msg, pos) {
                Ok(v) => v,
                Err(e) => return Err(RegisterError::Msg(e)),
            };
            if let Err(e) = insert_new_object(objects, id, WpObject { obj_type: new_intf, extra: WpExtra::Plain }) {
                return Err(RegisterError::Object(e));
            }
        },
        WaylandArgument::GenericNewId => {
            let range = match parse_string(msg, pos) {
                Ok(Some(r)) => r,
                Ok(None) => return Err(RegisterError::Msg(MsgError::NullString)),
                Err(e) => return Err(RegisterError::Msg(e)),
            };
            if let Err(e) = parse_u32(msg, pos) {
                return Err(RegisterError::Msg(e));
            }
            let id = match parse_u32(msg, pos) {
                Ok(v) => v,
                Err(e) => return Err(RegisterError::Msg(e)),
            };
            if objects.contains_key(&id) {
                return Err(RegisterError::IdNotDeleted(id));
            }
            if let Some(new_intf) = lookup_intf_by_name(names, msg, range.0, range.1) {
                objects.insert(id, WpObject { obj_type: new_intf, extra: WpExtra::Plain });
            }
        },
        WaylandArgument::String => {
            match parse_string(msg, pos) {
                Ok(Some(_)) => {},
                Ok(None) => return Err(RegisterError::Msg(MsgError::NullString)),
                Err(e) => return Err(RegisterError::Msg(e)),
            }
        },
        WaylandArgument::OptionalString => {
            if let Err(e) = parse_string(msg, pos) {
                return Err(RegisterError::Msg(e));
            }
        },
        WaylandArgument::Array => {
            if let Err(e) = parse_array(msg, pos) {
                return Err(RegisterError::Msg(e));
            }
        },
    }
    Ok(())
}

/// Register the objects that a message creates, reading its arguments (after the 8-byte
/// header) as `sig` lists them: a new object of a fixed interface always takes its id (an
/// error if the id was in use); one whose interface is named in the message takes it only
/// if the id is free and the name is in `names`.
pub fn register_generic_new_ids(
    msg: &[u8],
    sig: &[WaylandArgument],
    names: &[Vec<u8>],
    objects: &mut BTreeMap<ObjId, WpObject>,
) -> (res: Result<(), RegisterError>)
    requires
        msg@.len() >= 8,
        names@.len() <= u32::MAX,
    ensures
        ({
            let r = reg_prefix(msg@, sig@, name_bytes(names@), old(objects)@, sig@.len() as int);
            &&& final(objects)@ == r.2
            &&& match r.0 {
                None => res is Ok,
                Some(e) => res matches Err(e2) && e2 == e,
            }
        }),
{
    let ghost nm = name_bytes(names@);
    let ghost objs0 = objects@;
    let mut pos: usize = 8;
    let mut k: usize = 0;
    while k < sig.len()
        invariant
            k <= sig@.len(),
            msg@.len() >= 8,
            names@.len() <= u32::MAX,
            nm == name_bytes(names@),
            objs0 == old(objects)@,
            pos <= msg@.len(),
            reg_prefix(msg@, sig@, nm, objs0, k as int) == (None::<RegisterError>, pos as int, objects@),
        decreases sig@.len() - k,
    {
        let ghost before = objects@;
        let ghost p0 = pos as int;
        proof {
            lemma_reg_stuck(msg@, sig@, nm, objs0, k as int + 1, sig@.len() as int);
            assert(reg_prefix(msg@, sig@, nm, objs0, k as int + 1) == reg_step(msg@, sig@[k as int], nm, p0, before));
        }
        if let Err(e) = register_arg(msg, sig[k], names, &mut pos, objects) {
            return Err(e);
        }
        proof {
            assert(reg_prefix(msg@, sig@, nm, objs0, k as int + 1) == reg_step(msg@, sig@[k as int], nm, p0, before));
        }
        k = k + 1;
    }
    Ok(())
}

/// What the default path does with a message whose method is `meth`: with too little room
/// in the output, it asks for more and changes nothing; otherwise it registers the objects
/// that the message creates (stopping at the first bad argument, with its error), forgets
/// the message's object if the method is a destructor (for requests, only objects that the
/// server made), and copies the message to the output.
pub open spec fn default_path(
    msg: Seq<u8>,
    meth: WaylandMethod,
    names: Seq<Seq<u8>>,
    is_req: bool,
    object_id: ObjId,
    objs0: Map<ObjId, WpObject>,
    objs1: Map<ObjId, WpObject>,
    d0: MsgOutput,
    d1: MsgOutput,
    res: Result<ProcMsg, RegisterError>,
) -> bool {
    let r = reg_prefix(msg, meth.sig@, names, objs0, meth.sig@.len() as int);
    &&& d1.wf()
    &&& if msg.len() > d0.remaining() {
        &&& res matches Ok(ProcMsg::NeedsSpace(s)) && s == (msg.len() as usize, 0usize)
        &&& objs1 == objs0
        &&& d1 == d0
    } else {
        match r.0 {
            Some(e) => (res matches Err(e2) && e2 == e) && objs1 == r.2,
            None => {
                &&& res matches Ok(ProcMsg::Done)
                &&& objs1 == if meth.destructor && (!is_req || object_id >= 0xff000000) {
                    r.2.remove(object_id)
                } else {
                    r.2
                }
                &&& d1.pos == d0.pos + msg.len()
                &&& d1.data@ == spliced(d0.data@, d0.pos as int, msg)
            },
        }
    }
}

/// Pass a message on unchanged after registering the objects it creates, and forget its
/// object if it is a destructor (for requests, only objects that the server made are
/// forgotten, as the client's are kept until the server confirms). Asks for more space if
/// the output cannot hold the message.
pub fn default_proc_way_msg(
    msg: &[u8],
    dst: &mut MsgOutput,
    meth: &WaylandMethod,
    names: &[Vec<u8>],
    is_req: bool,
    object_id: ObjId,
    objects: &mut BTreeMap<ObjId, WpObject>,
) -> (res: Result<ProcMsg, RegisterError>)
    requires
        old(dst).wf(),
        msg@.len() >= 8,
        names@.len() <= u32::MAX,
        ({
            let r = reg_prefix(msg@, meth.sig@, name_bytes(names@), old(objects)@, meth.sig@.len() as int);
            msg@.len() <= old(dst).remaining() && r.0 is None && meth.destructor && (!is_req || object_id >= 0xff000000)
                ==> r.2.contains_key(object_id)
        }),
    ensures
        default_path(msg@, *meth, name_bytes(names@), is_req, object_id, old(objects)@, final(objects)@, *old(dst), *final(dst), res),
{
    if dst.space() < msg.len() {
        return Ok(ProcMsg::NeedsSpace((msg.len(), 0)));
    }
    match register_generic_new_ids(msg, meth.sig.as_slice(), names, objects) {
        Ok(()) => {},
        Err(e) => return Err(e),
    }
    if meth.destructor {
        if !is_req || is_server_object(object_id) {
            objects.remove(&object_id);
        }
    }
    copy_msg(msg, dst);
    Ok(ProcMsg::Done)
}

proof fn lemma_le_bytes_len(x: int, n: nat)
    ensures
        le_bytes(x, n).len() == n,
    decreases n,
{
    if n > 0 {
        lemma_le_bytes_len(x / 256, (n - 1) as nat);
    }
}

/// A format table lists its pairs as 16-byte entries that read back as those pairs.
pub proof fn lemma_format_table_roundtrip(l: Seq<(u32, u64)>)
    ensures
        table_bytes(l).len() == 16 * l.len(),
        forall|k: int| 0 <= k < l.len() ==> #[trigger] format_entry(table_bytes(l), k) == l[k],
    decreases l.len(),
{
    if l.len() > 0 {
        let prev = l.drop_last();
        lemma_format_table_roundtrip(prev);
        let p = l.last();
        let t = table_bytes(l);
        let n = prev.len() as int;
        lemma_le_bytes_len(p.0 as int, 4);
        lemma_le_bytes_len(0, 4);
        lemma_le_bytes_len(p.1 as int, 8);
        assert(vstd::arithmetic::power::pow(256, 4) == 0x1_0000_0000) by {
            reveal_with_fuel(vstd::arithmetic::power::pow, 5);
        }
        assert(vstd::arithmetic::power::pow(256, 8) == 0x1_0000_0000_0000_0000) by {
            reveal_with_fuel(vstd::arithmetic::power::pow, 9);
        }
        crate::bytes::lemma_le_roundtrip(p.0 as int, 4);
        crate::bytes::lemma_le_roundtrip(p.1 as int, 8);
        assert forall|k: int| 0 <= k < l.len() implies #[trigger] format_entry(t, k) == l[k] by {
            if k < n {
                assert(t.subrange(16 * k, 16 * k + 4) =~= table_bytes(prev).subrange(16 * k, 16 * k + 4));
                assert(t.subrange(16 * k + 8, 16 * k + 16) =~= table_bytes(prev).subrange(16 * k + 8, 16 * k + 16));
                assert(format_entry(table_bytes(prev), k) == prev[k]);
            } else {
                assert(t.subrange(16 * k, 16 * k + 4) =~= le_bytes(p.0 as int, 4));
                assert(t.subrange(16 * k + 8, 16 * k + 16) =~= le_bytes(p.1 as int, 8));
            }
        }
    }
}

/// The array written for a device number reads back as that number.
pub proof fn lemma_dev_array_roundtrip(dev: u64)
    ensures
        le_bytes(dev as int, SIZEOF_DEV_T as nat).len() == 4 || le_bytes(dev as int, SIZEOF_DEV_T as nat).len() == 8,
        le_value(le_bytes(dev as int, SIZEOF_DEV_T as nat)) == dev,
{
    assert(vstd::arithmetic::power::pow(256, 8) == 0x1_0000_0000_0000_0000) by {
        reveal_with_fuel(vstd::arithmetic::power::pow, 9);
    }
    crate::bytes::lemma_le_roundtrip(dev as int, 8);
}

/// Each 16-bit index written for a tranche names the table entry of the corresponding
/// value.
pub proof fn lemma_indices_name_values(l: Seq<(u32, u64)>, values: Seq<(u32, u64)>)
    requires
        l.len() <= 0x10000,
        forall|j: int| 0 <= j < values.len() ==> l.contains(#[trigger] values[j]),
    ensures
        index_bytes(l, values).len() == 2 * values.len(),
        forall|j: int|
            0 <= j < values.len() ==> {
                let k = le_value(#[trigger] index_bytes(l, values).subrange(2 * j, 2 * j + 2));
                0 <= k < l.len() && l[k] == values[j]
            },
    decreases values.len(),
{
    if values.len() > 0 {
        let prev = values.drop_last();
        assert forall|j: int| 0 <= j < prev.len() implies l.contains(#[trigger] prev[j]) by {
            assert(prev[j] == values[j]);
        }
        lemma_indices_name_values(l, prev);
        let v = values.last();
        assert(l.contains(values[values.len() - 1]));
        let k = l.index_of(v);
        assert(0 <= k < l.len() && l[k] == v);
        assert(vstd::arithmetic::power::pow(256, 2) == 0x10000) by {
            reveal_with_fuel(vstd::arithmetic::power::pow, 3);
        }
        crate::bytes::lemma_le_roundtrip(k, 2);
        let ib = index_bytes(l, values);
        let n = prev.len() as int;
        assert forall|j: int| 0 <= j < values.len() implies {
            let kk = le_value(#[trigger] index_bytes(l, values).subrange(2 * j, 2 * j + 2));
            0 <= kk < l.len() && l[kk] == values[j]
        } by {
            if j < n {
                assert(ib.subrange(2 * j, 2 * j + 2) =~= index_bytes(l, prev).subrange(2 * j, 2 * j + 2));
                assert(prev[j] == values[j]);
            } else {
                assert(ib.subrange(2 * j, 2 * j + 2) =~= le_bytes(k, 2));
            }
        }
    }
}

/// A file passed along with messages, as the proxy knows it.
#[derive(Debug, Clone, Copy, PartialEq, Eq, Structural)]
pub struct PassedFd {
    /// The id by which both proxies name the file.
    pub remote_id: Rid,
    /// For a shared-memory file, the updates from the other side not yet applied to it;
    /// none for other kinds of file.
    pub pending_apply_tasks: Option<u32>,
}

/// Why passing a file failed.
#[derive(Debug, Clone, Copy, PartialEq, Eq, Structural)]
pub enum PassError {
    /// The file is not a shared-memory file.
    NotAFile,
    /// The message announces more files than arrived.
    MissingFd,
}

/// Whether updates to a shared-memory file are still waiting to be applied.
pub fn file_has_pending_apply_tasks(fd: &PassedFd) -> (r: Result<bool, PassError>)
    ensures
        match fd.pending_apply_tasks {
            Some(n) => r == Ok::<bool, PassError>(n > 0),
            None => r == Err::<bool, PassError>(PassError::NotAFile),
        },
{
    match fd.pending_apply_tasks {
        Some(n) => Ok(n > 0),
        None => Err(PassError::NotAFile),
    }
}

/// The number of files that the other proxy says come with a message: bits 11 to 15 of
/// its second header word.
pub open spec fn tagged_fd_count(h2: u32) -> int {
    ((h2 & 0xffffu32) >> 11u32) as int
}

/// A shared-memory file with updates still to apply.
pub open spec fn waits(f: PassedFd) -> bool {
    match f.pending_apply_tasks {
        Some(p) => p > 0,
        None => false,
    }
}

/// The first of the first `n` files that waits for updates, if any.
pub open spec fn first_waiting(fds: Seq<PassedFd>, n: int) -> Option<int> {
    if exists|k: int| 0 <= k < n && waits(#[trigger] fds[k]) {
        Some(choose|k: int| 0 <= k < n && waits(#[trigger] fds[k]) && forall|j: int| 0 <= j < k ==> !waits(fds[j]))
    } else {
        None
    }
}

/// What the path for messages of unknown type does: from the application, the message is
/// copied as it is; from the other proxy, the files that its header announces move from
/// `in0` to `out0` (waiting while one of them has updates to apply) and the header's count
/// of files is cleared. It asks for more space where the output cannot hold the message or
/// the outgoing files would exceed `max_fds`.
pub open spec fn unknown_path(
    msg: Seq<u8>,
    from_channel: bool,
    max_fds: usize,
    d0: MsgOutput,
    d1: MsgOutput,
    in0: Seq<PassedFd>,
    in1: Seq<PassedFd>,
    out0: Seq<PassedFd>,
    out1: Seq<PassedFd>,
    res: Result<ProcMsg, PassError>,
) -> bool {
    &&& d1.wf()
    &&& {
            let h2 = le_value(msg.subrange(4, 8)) as u32;
            let n = tagged_fd_count(h2);
            let len = msg.len();
            if !from_channel {
                &&& in1 == in0
                &&& out1 == out0
                &&& if len > d0.remaining() {
                    res matches Ok(ProcMsg::NeedsSpace(s)) && s == (len as usize, 0usize) && d1 == d0
                } else {
                    res matches Ok(ProcMsg::Done) && d1.pos == d0.pos + len
                        && d1.data@ == spliced(d0.data@, d0.pos as int, msg)
                }
            } else if len > d0.remaining() || out0.len() + n > max_fds {
                &&& res matches Ok(ProcMsg::NeedsSpace(s)) && s == (len as usize, n as usize)
                &&& d1 == d0
                &&& in1 == in0
                &&& out1 == out0
            } else if in0.len() < n {
                &&& res == Err::<ProcMsg, PassError>(PassError::MissingFd)
                &&& d1 == d0
                &&& in1 == in0
                &&& out1 == out0
            } else {
                match first_waiting(in0, n) {
                    Some(k) => {
                        &&& res == Ok::<ProcMsg, PassError>(ProcMsg::WaitFor(in0[k].remote_id))
                        &&& d1 == d0
                        &&& in1 == in0
                        &&& out1 == out0
                    },
                    None => {
                        &&& res matches Ok(ProcMsg::Done)
                        &&& in1 == in0.skip(n)
                        &&& out1 == out0 + in0.take(n)
                        &&& d1.pos == d0.pos + len
                        &&& d1.data@ == spliced(
                            spliced(d0.data@, d0.pos as int, msg),
                            d0.pos + 4,
                            le_bytes((h2 & !0xf800u32) as int, 4),
                        )
                    },
                }
            }
        }
}

/// Pass on a message of unknown type unchanged. From the other proxy, the files its
/// header announces move from `incoming` to `outgoing` (waiting while one of them has
/// updates to apply) and the header's count of files is cleared; from the application,
/// the message is copied as it is. Asks for more space where the output cannot hold the
/// message or `outgoing` would exceed `max_outgoing_fds`.
pub fn proc_unknown_way_msg(
    msg: &[u8],
    dst: &mut MsgOutput,
    from_channel: bool,
    incoming: &mut VecDeque<PassedFd>,
    outgoing: &mut VecDeque<PassedFd>,
    max_outgoing_fds: usize,
) -> (res: Result<ProcMsg, PassError>)
    requires
        old(dst).wf(),
        msg@.len() >= 8,
    ensures
        unknown_path(msg@, from_channel, max_outgoing_fds, *old(dst), *final(dst), old(incoming)@, final(incoming)@, old(outgoing)@, final(outgoing)@, res),
{
    proof {
        crate::bytes::lemma_le_value_bound(msg@.subrange(4, 8));
        assert(vstd::arithmetic::power::pow(256, 4) == 0x1_0000_0000) by {
            reveal_with_fuel(vstd::arithmetic::power::pow, 5);
        }
    }
    let header2 = read_le(msg, 4, 4) as u32;
    let ntagfds = ((header2 & 0xffff) >> 11) as usize;
    proof {
        assert((header2 & 0xffffu32) >> 11u32 <= 31) by (bit_vector);
    }
    if !from_channel {
        if dst.space() < msg.len() {
            return Ok(ProcMsg::NeedsSpace((msg.len(), 0)));
        }
        copy_msg(msg, dst);
        return Ok(ProcMsg::Done);
    }
    if dst.space() < msg.len() || ntagfds > max_outgoing_fds || outgoing.len() > max_outgoing_fds - ntagfds {
        return Ok(ProcMsg::NeedsSpace((msg.len(), ntagfds)));
    }
    if incoming.len() < ntagfds {
        return Err(PassError::MissingFd);
    }
    let ghost inc = incoming@;
    let mut k: usize = 0;
    while k < ntagfds
        invariant
            k <= ntagfds <= inc.len(),
            incoming@ == inc,
            inc == old(incoming)@,
            outgoing@ == old(outgoing)@,
            *dst == *old(dst),
            old(dst).wf(),
            from_channel,
            msg@.len() >= 8,
            header2 == le_value(msg@.subrange(4, 8)) as u32,
            ntagfds == tagged_fd_count(header2),
            msg@.len() <= old(dst).remaining(),
            old(outgoing)@.len() + ntagfds <= max_outgoing_fds,
            forall|j: int| 0 <= j < k ==> !waits(#[trigger] inc[j]),
        decreases ntagfds - k,
    {
        let f = incoming[k];
        if let Some(p) = f.pending_apply_tasks {
            if p > 0 {
                proof {
                    assert(inc[k as int] == f);
                    assert(waits(inc[k as int]));
                    let c = choose|c: int| 0 <= c < ntagfds && waits(#[trigger] inc[c]) && forall|j: int| 0 <= j < c ==> !waits(inc[j]);
                    assert(c == k) by {
                        if c < k {
                            assert(!waits(inc[c]));
                        } else if c > k {
                            assert(!waits(inc[k as int]));
                        }
                    }
                }
                return Ok(ProcMsg::WaitFor(f.remote_id));
            }
        }
        k = k + 1;
    }
    proof {
        assert(first_waiting(inc, ntagfds as int) is None);
    }
    let ghost out0 = outgoing@;
    let mut m: usize = 0;
    while m < ntagfds
        invariant
            m <= ntagfds <= inc.len(),
            incoming@ == inc.skip(m as int),
            outgoing@ == out0 + inc.take(m as int),
        decreases ntagfds - m,
    {
        let sfd = match incoming.pop_front() {
            Some(v) => v,
            None => {
                proof {
                    assert(false);
                }
                return Err(PassError::MissingFd);
            },
        };
        outgoing.push_back(sfd);
        proof {
            assert(incoming@ =~= inc.skip(m as int + 1));
            assert(outgoing@ =~= out0 + inc.take(m as int + 1));
        }
        m = m + 1;
    }
    let total = dst.data.len();
    let pos = dst.pos;
    write_at(&mut dst.data, pos, msg);
    let new_h2 = header2 & !0xf800;
    let mut word: Vec<u8> = Vec::new();
    push_le(&mut word, new_h2 as u64, 4);
    proof {
        assert(word@ =~= le_bytes(new_h2 as int, 4));
        crate::bytes::lemma_le_roundtrip(new_h2 as int, 4);
    }
    write_at(&mut dst.data, pos + 4, word.as_slice());
    dst.pos = pos + msg.len();
    proof {
        assert(dst.pos <= total);
    }
    Ok(ProcMsg::Done)
}

} // verus!
