//! Wayland wire messages: copying them into an output buffer, retagging the header word
//! that counts attached file descriptors, and reading their arguments.
use vstd::prelude::*;
use crate::bytes::{le_value, le_bytes, read_le, push_le, lemma_le_value_bound};

verus! {

/// An output buffer being filled from the front: `data[..pos]` holds what was written,
/// `data[pos..]` is the space left.
pub struct MsgOutput {
    pub data: Vec<u8>,
    pub pos: usize,
}

impl MsgOutput {
    pub open spec fn wf(&self) -> bool {
        self.pos <= self.data@.len()
    }

    /// The bytes of space left.
    pub open spec fn remaining(&self) -> int {
        self.data@.len() - self.pos
    }

    /// An empty output with `size` bytes of space, all zero.
    pub fn new(size: usize) -> (r: MsgOutput)
        ensures
            r.wf(),
            r.pos == 0,
            r.data@ == Seq::new(size as nat, |i: int| 0u8),
    {
        let mut data: Vec<u8> = Vec::new();
        let mut i: usize = 0;
        while i < size
            invariant
                i <= size,
                data@ == Seq::new(i as nat, |j: int| 0u8),
            decreases size - i,
        {
            data.push(0);
            proof {
                assert(data@ =~= Seq::new((i + 1) as nat, |j: int| 0u8));
            }
            i = i + 1;
        }
        MsgOutput { data, pos: 0 }
    }

    /// The bytes of space left.
    pub fn space(&self) -> (r: usize)
        requires
            self.wf(),
        ensures
            r == self.remaining(),
    {
        self.data.len() - self.pos
    }

    /// What was written so far.
    pub fn written(&self) -> (r: &[u8])
        requires
            self.wf(),
        ensures
            r@ == self.data@.subrange(0, self.pos as int),
    {
        vstd::slice::slice_subrange(self.data.as_slice(), 0, self.pos)
    }
}

/// `data` with `msg` written over it from position `pos` on.
pub open spec fn spliced(data: Seq<u8>, pos: int, msg: Seq<u8>) -> Seq<u8> {
    data.subrange(0, pos) + msg + data.subrange(pos + msg.len(), data.len() as int)
}

/// Write `msg` at the front of the space left in `dst`, and move past it.
pub fn copy_msg(msg: &[u8], dst: &mut MsgOutput)
    requires
        old(dst).wf(),
        msg@.len() <= old(dst).remaining(),
    ensures
        final(dst).wf(),
        final(dst).pos == old(dst).pos + msg@.len(),
        final(dst).data@ == spliced(old(dst).data@, old(dst).pos as int, msg@),
{
    let total = dst.data.len();
    write_at(&mut dst.data, dst.pos, msg);
    dst.pos = dst.pos + msg.len();
    proof {
        assert(dst.pos <= total);
    }
}

/// Write `msg` into `data` from position `pos` on.
pub fn write_at(data: &mut Vec<u8>, pos: usize, msg: &[u8])
    requires
        pos + msg@.len() <= old(data)@.len(),
    ensures
        final(data)@ == spliced(old(data)@, pos as int, msg@),
{
    let ghost d0 = data@;
    let n = data.len();
    let mut i: usize = 0;
    while i < msg.len()
        invariant
            i <= msg@.len(),
            n == d0.len(),
            pos + msg@.len() <= d0.len(),
            data@.len() == d0.len(),
            forall|j: int| 0 <= j < pos ==> data@[j] == d0[j],
            forall|j: int| pos + msg@.len() <= j < d0.len() ==> data@[j] == d0[j],
            forall|j: int| pos <= j < pos + i ==> data@[j] == msg@[j - pos],
        decreases msg@.len() - i,
    {
        data.set(pos + i, msg[i]);
        i = i + 1;
    }
    proof {
        assert(data@ =~= spliced(d0, pos as int, msg@));
    }
}

/// The second header word of a message after retagging: from the other proxy, the count
/// of attached file descriptors is cleared and the tag bit must have been set (none
/// otherwise); towards it, the count is cleared and the tag bit set.
pub open spec fn tagged_header(h2: u32, from_channel: bool) -> Option<u32> {
    if from_channel {
        if h2 & 0x800u32 == 0 {
            None
        } else {
            Some(h2 & !0xff00u32)
        }
    } else {
        Some((h2 & !0xff00u32) | 0x800u32)
    }
}

/// The header word at byte 4 of `msg`.
pub open spec fn second_word(msg: Seq<u8>) -> u32 {
    le_value(msg.subrange(4, 8)) as u32
}

/// `msg` with its second header word retagged (see `tagged_header`), if the tag allows it.
pub open spec fn retagged(msg: Seq<u8>, from_channel: bool) -> Option<Seq<u8>> {
    match tagged_header(second_word(msg), from_channel) {
        Some(h) => Some(spliced(msg, 4, le_bytes(h as int, 4))),
        None => None,
    }
}

/// Why a message could not be passed on.
#[derive(Debug, Clone, Copy, PartialEq, Eq, Structural)]
pub enum MsgError {
    /// A message from the other proxy lacks the tag bit for attached file descriptors; the
    /// header word is given.
    MissingFdTag(u32),
    /// The message ends before an argument does.
    Truncated,
    /// A string argument does not end with a zero byte.
    UnterminatedString,
    /// A string argument that may not be null is null.
    NullString,
}

/// Write `msg` at the front of the space left in `dst` and retag its second header word
/// (see `tagged_header`); move past it unless the tag was missing.
pub fn copy_msg_tag_fd(msg: &[u8], dst: &mut MsgOutput, from_channel: bool) -> (res: Result<(), MsgError>)
    requires
        old(dst).wf(),
        msg@.len() <= old(dst).remaining(),
        old(dst).remaining() >= 8,
    ensures
        final(dst).wf(),
        ({
            let pos = old(dst).pos as int;
            let d1 = spliced(old(dst).data@, pos, msg@);
            let h2 = le_value(d1.subrange(pos + 4, pos + 8)) as u32;
            match tagged_header(h2, from_channel) {
                None => res == Err::<(), MsgError>(MsgError::MissingFdTag(h2)) && final(dst).data@ == d1
                    && final(dst).pos == old(dst).pos,
                Some(h) => res is Ok && final(dst).data@ == spliced(d1, pos + 4, le_bytes(h as int, 4))
                    && final(dst).pos == old(dst).pos + msg@.len(),
            }
        }),
        msg@.len() >= 8 ==> match retagged(msg@, from_channel) {
            Some(m2) => res is Ok && final(dst).data@ == spliced(old(dst).data@, old(dst).pos as int, m2),
            None => res == Err::<(), MsgError>(MsgError::MissingFdTag(second_word(msg@))),
        },
{
    let total = dst.data.len();
    let ghost d0 = dst.data@;
    write_at(&mut dst.data, dst.pos, msg);
    let ghost pos = dst.pos as int;
    let ghost d1 = dst.data@;
    proof {
        if msg@.len() >= 8 {
            lemma_splice_inside(d0, pos, msg@, seq![0u8, 0u8, 0u8, 0u8]);
        }
    }
    proof {
        assert(d1.len() == total);
        lemma_le_value_bound(d1.subrange(pos + 4, pos + 8));
        assert(vstd::arithmetic::power::pow(256, 4) == 0x1_0000_0000) by {
            reveal_with_fuel(vstd::arithmetic::power::pow, 5);
        }
        assert(d1.subrange(pos + 4, pos + 8) =~= dst.data@.subrange(dst.pos + 4, dst.pos + 4 + 4));
    }
    let mut h2: u32 = read_le(dst.data.as_slice(), dst.pos + 4, 4) as u32;
    let ghost h0 = h2;
    if from_channel {
        if h2 & 0x800 == 0 {
            proof {
                assert(d1 == dst.data@);
            }
            return Err(MsgError::MissingFdTag(h2));
        }
        h2 = h2 & !0xff00;
    } else {
        h2 = (h2 & !0xff00) | 0x800;
    }
    let mut word: Vec<u8> = Vec::new();
    push_le(&mut word, h2 as u64, 4);
    proof {
        assert(word@ =~= le_bytes(h2 as int, 4));
        crate::bytes::lemma_le_roundtrip(h2 as int, 4);
    }
    write_at(&mut dst.data, dst.pos + 4, word.as_slice());
    proof {
        if msg@.len() >= 8 {
            lemma_splice_inside(d0, pos, msg@, word@);
        }
    }
    dst.pos = dst.pos + msg.len();
    Ok(())
}

/// Overwriting bytes 4..8 of a message just written is writing the changed message.
proof fn lemma_splice_inside(d: Seq<u8>, pos: int, msg: Seq<u8>, w: Seq<u8>)
    requires
        0 <= pos,
        pos + msg.len() <= d.len(),
        msg.len() >= 8,
        w.len() == 4,
    ensures
        spliced(spliced(d, pos, msg), pos + 4, w) == spliced(d, pos, spliced(msg, 4, w)),
        spliced(d, pos, msg).subrange(pos + 4, pos + 8) == msg.subrange(4, 8),
{
    assert(spliced(spliced(d, pos, msg), pos + 4, w) =~= spliced(d, pos, spliced(msg, 4, w)));
    assert(spliced(d, pos, msg).subrange(pos + 4, pos + 8) =~= msg.subrange(4, 8));
}

/// The 32-bit little-endian word at `pos`, if `msg` has four bytes there.
pub open spec fn word_at(msg: Seq<u8>, pos: int) -> Option<u32> {
    if 0 <= pos && pos + 4 <= msg.len() {
        Some(le_value(msg.subrange(pos, pos + 4)) as u32)
    } else {
        None
    }
}

/// `n` rounded up to a multiple of four.
pub open spec fn pad4(n: int) -> int {
    if n % 4 == 0 {
        n
    } else {
        n + (4 - n % 4)
    }
}

/// A string argument at `pos`: its length (zero for a null string, else counting the
/// terminating zero byte) and its bytes padded to a multiple of four. Gives the range of
/// the string's bytes without the terminator (none for null) and the position after it.
pub open spec fn string_arg(msg: Seq<u8>, pos: int) -> Result<(Option<(int, int)>, int), MsgError> {
    match word_at(msg, pos) {
        None => Err(MsgError::Truncated),
        Some(len) => if len == 0 {
            Ok((None, pos + 4))
        } else if pos + 4 + pad4(len as int) > msg.len() {
            Err(MsgError::Truncated)
        } else if msg[pos + 4 + len - 1] != 0 {
            Err(MsgError::UnterminatedString)
        } else {
            Ok((Some((pos + 4, pos + 4 + len - 1)), pos + 4 + pad4(len as int)))
        },
    }
}

/// An array argument at `pos`: its length, then its bytes padded to a multiple of four.
/// Gives the range of its bytes and the position after it.
pub open spec fn array_arg(msg: Seq<u8>, pos: int) -> Result<((int, int), int), MsgError> {
    match word_at(msg, pos) {
        None => Err(MsgError::Truncated),
        Some(len) => if pos + 4 + pad4(len as int) > msg.len() {
            Err(MsgError::Truncated)
        } else {
            Ok(((pos + 4, pos + 4 + len), pos + 4 + pad4(len as int)))
        },
    }
}

proof fn lemma_word_bound(msg: Seq<u8>, pos: int)
    requires
        0 <= pos,
        pos + 4 <= msg.len(),
    ensures
        le_value(msg.subrange(pos, pos + 4)) < 0x1_0000_0000,
        le_value(msg.subrange(pos, pos + 4)) >= 0,
{
    lemma_le_value_bound(msg.subrange(pos, pos + 4));
    assert(vstd::arithmetic::power::pow(256, 4) == 0x1_0000_0000) by {
        reveal_with_fuel(vstd::arithmetic::power::pow, 5);
    }
}

/// Read the word at `*pos` and move past it; fails, without moving, where `msg` ends
/// before.
pub fn parse_u32(msg: &[u8], pos: &mut usize) -> (r: Result<u32, MsgError>)
    requires
        *old(pos) <= msg@.len(),
    ensures
        *final(pos) <= msg@.len(),
        match word_at(msg@, *old(pos) as int) {
            Some(v) => r == Ok::<u32, MsgError>(v) && *final(pos) == *old(pos) + 4,
            None => r == Err::<u32, MsgError>(MsgError::Truncated) && *final(pos) == *old(pos),
        },
{
    if msg.len() - *pos < 4 {
        return Err(MsgError::Truncated);
    }
    proof {
        lemma_word_bound(msg@, *pos as int);
    }
    let v = read_le(msg, *pos, 4) as u32;
    *pos = *pos + 4;
    Ok(v)
}

fn pad4_exec(n: u32) -> (r: u64)
    ensures
        r == pad4(n as int),
{
    if n % 4 == 0 {
        n as u64
    } else {
        n as u64 + (4 - n % 4) as u64
    }
}

/// Read a string argument at `*pos` (see `string_arg`) and move past it; fails, without
/// moving, where it is cut short or has no terminator.
pub fn parse_string(msg: &[u8], pos: &mut usize) -> (r: Result<Option<(usize, usize)>, MsgError>)
    requires
        *old(pos) <= msg@.len(),
    ensures
        *final(pos) <= msg@.len(),
        match string_arg(msg@, *old(pos) as int) {
            Ok((range, next)) => *final(pos) == next && match range {
                None => r == Ok::<Option<(usize, usize)>, MsgError>(None),
                Some((a, b)) => r == Ok::<Option<(usize, usize)>, MsgError>(Some((a as usize, b as usize))),
            },
            Err(e) => r == Err::<Option<(usize, usize)>, MsgError>(e) && *final(pos) == *old(pos),
        },
{
    let start = *pos;
    let len = match parse_u32(msg, pos) {
        Ok(v) => v,
        Err(e) => return Err(e),
    };
    if len == 0 {
        return Ok(None);
    }
    let padded = pad4_exec(len);
    if ((msg.len() - *pos) as u64) < padded {
        *pos = start;
        return Err(MsgError::Truncated);
    }
    let body = *pos;
    if msg[body + len as usize - 1] != 0 {
        *pos = start;
        return Err(MsgError::UnterminatedString);
    }
    *pos = body + padded as usize;
    Ok(Some((body, body + len as usize - 1)))
}

/// Read an array argument at `*pos` (see `array_arg`) and move past it; fails, without
/// moving, where it is cut short.
pub fn parse_array(msg: &[u8], pos: &mut usize) -> (r: Result<(usize, usize), MsgError>)
    requires
        *old(pos) <= msg@.len(),
    ensures
        *final(pos) <= msg@.len(),
        match array_arg(msg@, *old(pos) as int) {
            Ok(((a, b), next)) => *final(pos) == next && r == Ok::<(usize, usize), MsgError>((a as usize, b as usize)),
            Err(e) => r == Err::<(usize, usize), MsgError>(e) && *final(pos) == *old(pos),
        },
{
    let start = *pos;
    let len = match parse_u32(msg, pos) {
        Ok(v) => v,
        Err(e) => return Err(e),
    };
    let padded = pad4_exec(len);
    if ((msg.len() - *pos) as u64) < padded {
        *pos = start;
        return Err(MsgError::Truncated);
    }
    let body = *pos;
    *pos = body + padded as usize;
    Ok((body, body + len as usize))
}

/// Tagging a header word for the other proxy and untagging it on arrival clears its
/// count of attached file descriptors and keeps every other bit.
pub proof fn lemma_fd_tag_roundtrip(h: u32)
    ensures
        tagged_header(h, false) matches Some(t) && tagged_header(t, true) == Some(h & !0xff00u32),
{
    let t = (h & !0xff00u32) | 0x800u32;
    assert(t & 0x800u32 != 0) by (bit_vector)
        requires
            t == (h & !0xff00u32) | 0x800u32,
    ;
    assert(t & !0xff00u32 == h & !0xff00u32) by (bit_vector)
        requires
            t == (h & !0xff00u32) | 0x800u32,
    ;
}

/// The little-endian bytes of the value of a byte string are that byte string.
proof fn lemma_le_bytes_of_value(b: Seq<u8>)
    ensures
        le_bytes(le_value(b), b.len()) == b,
    decreases b.len(),
{
    if b.len() > 0 {
        let t = b.drop_first();
        lemma_le_bytes_of_value(t);
        crate::bytes::lemma_le_value_bound(t);
        let x = le_value(b);
        assert(x == b[0] + 256 * le_value(t));
        vstd::arithmetic::div_mod::lemma_fundamental_div_mod_converse(x, 256, le_value(t), b[0] as int);
        assert(le_bytes(x, b.len()) == seq![(x % 256) as u8] + le_bytes(x / 256, t.len()));
        assert(seq![b[0]] + t =~= b);
    }
}

/// Retagging a whole message for the other proxy and untagging it on arrival gives the
/// message back, when its header word counts no attached file descriptors.
pub proof fn lemma_msg_tag_roundtrip(msg: Seq<u8>)
    requires
        msg.len() >= 8,
        second_word(msg) & 0xff00u32 == 0,
    ensures
        retagged(msg, false) matches Some(m2) && retagged(m2, true) == Some(msg),
{
    let h = second_word(msg);
    lemma_fd_tag_roundtrip(h);
    let t = (h & !0xff00u32) | 0x800u32;
    let w = le_bytes(t as int, 4);
    assert(vstd::arithmetic::power::pow(256, 4) == 0x1_0000_0000) by {
        reveal_with_fuel(vstd::arithmetic::power::pow, 5);
    }
    crate::bytes::lemma_le_roundtrip(t as int, 4);
    let m2 = spliced(msg, 4, w);
    assert(m2.subrange(4, 8) =~= w);
    assert(second_word(m2) == t);
    assert(h & !0xff00u32 == h) by (bit_vector)
        requires
            h & 0xff00u32 == 0,
    ;
    crate::bytes::lemma_le_value_bound(msg.subrange(4, 8));
    lemma_le_bytes_of_value(msg.subrange(4, 8));
    assert(le_bytes(h as int, 4) == msg.subrange(4, 8));
    assert(spliced(m2, 4, le_bytes(h as int, 4)) =~= msg);
}

} // verus!
