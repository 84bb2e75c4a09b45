//! Splitting the byte stream received from the other side into whole messages.
//!
//! Each message starts with a 4-byte little-endian header whose upper 27 bits give the
//! message length in bytes (at least 4, counting the header); messages are padded to a
//! multiple of 4 bytes.
use std::collections::VecDeque;
use vstd::prelude::*;
use crate::damage::round_up;

verus! {

/// The value of the little-endian 32-bit word at byte `i` of `b`.
pub open spec fn le_u32_at(b: Seq<u8>, i: int) -> int {
    b[i] as int + 256 * b[i + 1] as int + 65536 * b[i + 2] as int + 16777216 * b[i + 3] as int
}

/// The message length that the header at the start of `b` declares.
pub open spec fn declared_len(b: Seq<u8>) -> int {
    le_u32_at(b, 0) / 32
}

/// The number of bytes the message at the start of `b` occupies, with padding.
pub open spec fn padded_len(b: Seq<u8>) -> int {
    round_up(declared_len(b), 4)
}

/// Split `b` into the whole messages at its start, the incomplete rest, and whether
/// splitting stopped at a header that declares a length below 4.
pub open spec fn split_frames(b: Seq<u8>) -> (Seq<Seq<u8>>, Seq<u8>, bool)
    decreases b.len(),
{
    if b.len() < 4 {
        (Seq::empty(), b, false)
    } else if declared_len(b) < 4 {
        (Seq::empty(), b, true)
    } else if b.len() < padded_len(b) {
        (Seq::empty(), b, false)
    } else {
        let rest = split_frames(b.skip(padded_len(b)));
        (seq![b.take(padded_len(b))] + rest.0, rest.1, rest.2)
    }
}

/// After the messages `done`, splitting resumes at byte `pos` of `all`.
pub open spec fn split_progress(all: Seq<u8>, pos: int, done: Seq<Seq<u8>>) -> bool {
    let r = split_frames(all.skip(pos));
    split_frames(all) == (done + r.0, r.1, r.2)
}

proof fn lemma_split_start(all: Seq<u8>)
    ensures
        split_progress(all, 0, Seq::empty()),
{
    assert(all.skip(0) =~= all);
    let r = split_frames(all);
    assert(Seq::<Seq<u8>>::empty() + r.0 =~= r.0);
}

proof fn lemma_split_short(b: Seq<u8>)
    requires
        b.len() < 4,
    ensures
        split_frames(b) == (Seq::<Seq<u8>>::empty(), b, false),
{
}

proof fn lemma_round_up_4(n: int)
    requires
        n >= 0,
    ensures
        round_up(n, 4) == (n + 3) / 4 * 4,
{
}

proof fn lemma_split_advance(all: Seq<u8>, pos: int, done: Seq<Seq<u8>>)
    requires
        0 <= pos,
        pos + 4 <= all.len(),
        split_progress(all, pos, done),
        declared_len(all.skip(pos)) >= 4,
        pos + padded_len(all.skip(pos)) <= all.len(),
    ensures
        split_progress(
            all,
            pos + padded_len(all.skip(pos)),
            done.push(all.skip(pos).take(padded_len(all.skip(pos)))),
        ),
{
    let rest = all.skip(pos);
    let p = padded_len(rest);
    assert(rest.skip(p) =~= all.skip(pos + p));
    let r2 = split_frames(all.skip(pos + p));
    assert(split_frames(rest) == (seq![rest.take(p)] + r2.0, r2.1, r2.2));
    assert(done + (seq![rest.take(p)] + r2.0) =~= done.push(rest.take(p)) + r2.0);
}

proof fn lemma_split_finish(all: Seq<u8>, pos: int, done: Seq<Seq<u8>>)
    requires
        0 <= pos <= all.len(),
        split_progress(all, pos, done),
        split_frames(all.skip(pos)).0.len() == 0,
        split_frames(all.skip(pos)).1 == all.skip(pos),
    ensures
        split_frames(all).0 == done,
        split_frames(all).1 == all.skip(pos),
        split_frames(all).2 == split_frames(all.skip(pos)).2,
{
    assert(done + split_frames(all.skip(pos)).0 =~= done);
}

/// The concatenation of a list of byte strings.
pub open spec fn concat(s: Seq<Seq<u8>>) -> Seq<u8>
    decreases s.len(),
{
    if s.len() == 0 {
        Seq::empty()
    } else {
        s[0] + concat(s.drop_first())
    }
}

proof fn lemma_concat_append(a: Seq<Seq<u8>>, b: Seq<Seq<u8>>)
    ensures
        concat(a + b) == concat(a) + concat(b),
    decreases a.len(),
{
    if a.len() == 0 {
        assert(a + b =~= b);
        assert(Seq::<u8>::empty() + concat(b) =~= concat(b));
    } else {
        assert((a + b).drop_first() =~= a.drop_first() + b);
        lemma_concat_append(a.drop_first(), b);
        assert((a + b)[0] == a[0]);
        assert(a[0] + (concat(a.drop_first()) + concat(b)) =~= (a[0] + concat(a.drop_first())) + concat(b));
    }
}

/// Splitting loses and reorders nothing: the messages, followed by the rest, are the input.
/// Every message found is as long as its header declares, padded to a multiple of 4.
pub proof fn lemma_split_frames_exact(b: Seq<u8>)
    ensures
        concat(split_frames(b).0) + split_frames(b).1 == b,
        forall|k: int|
            0 <= k < split_frames(b).0.len() ==> {
                let m = #[trigger] split_frames(b).0[k];
                &&& m.len() >= 4
                &&& declared_len(m) >= 4
                &&& m.len() == padded_len(m)
            },
    decreases b.len(),
{
    if b.len() < 4 || declared_len(b) < 4 || b.len() < padded_len(b) {
        assert(concat(Seq::<Seq<u8>>::empty()) + b =~= b);
    } else {
        let p = padded_len(b);
        let rest = split_frames(b.skip(p));
        lemma_split_frames_exact(b.skip(p));
        let frames = seq![b.take(p)] + rest.0;
        assert(frames.drop_first() =~= rest.0);
        assert(concat(frames) == b.take(p) + concat(rest.0));
        assert(b.take(p) + concat(rest.0) + rest.1 =~= b.take(p) + (concat(rest.0) + rest.1));
        assert(b.take(p) + b.skip(p) =~= b);
        let m0 = b.take(p);
        assert(m0[0] == b[0] && m0[1] == b[1] && m0[2] == b[2] && m0[3] == b[3]);
        assert(declared_len(m0) == declared_len(b));
        assert forall|k: int| 0 <= k < frames.len() implies {
            let m = #[trigger] frames[k];
            &&& m.len() >= 4
            &&& declared_len(m) >= 4
            &&& m.len() == padded_len(m)
        } by {
            if k > 0 {
                assert(frames[k] == rest.0[k - 1]);
            }
        }
    }
}

/// A whole message: at least a header, declaring a length of at least 4, and exactly as
/// long as that length padded to a multiple of 4.
pub open spec fn whole_message(m: Seq<u8>) -> bool {
    &&& m.len() >= 4
    &&& declared_len(m) >= 4
    &&& m.len() == padded_len(m)
}

/// Every entry is a whole message.
pub open spec fn whole_messages(ms: Seq<Seq<u8>>) -> bool {
    forall|k: int| 0 <= k < ms.len() ==> whole_message(#[trigger] ms[k])
}

proof fn lemma_whole_messages_tail(ms: Seq<Seq<u8>>)
    requires
        whole_messages(ms),
        ms.len() > 0,
    ensures
        whole_messages(ms.drop_first()),
        concat(ms) == ms[0] + concat(ms.drop_first()),
{
    assert forall|k: int| 0 <= k < ms.drop_first().len() implies whole_message(#[trigger] ms.drop_first()[k]) by {
        assert(ms.drop_first()[k] == ms[k + 1]);
    }
}

/// A header at the start of a message is the header at the start of anything it begins.
proof fn lemma_same_header(m: Seq<u8>, rest: Seq<u8>)
    requires
        m.len() >= 4,
    ensures
        declared_len(m + rest) == declared_len(m),
        padded_len(m + rest) == padded_len(m),
        (m + rest).take(m.len() as int) == m,
        (m + rest).skip(m.len() as int) == rest,
{
    let b = m + rest;
    assert(b[0] == m[0] && b[1] == m[1] && b[2] == m[2] && b[3] == m[3]);
    assert(b.take(m.len() as int) =~= m);
    assert(b.skip(m.len() as int) =~= rest);
}

/// Splitting a stream made of whole messages gives back exactly those messages, with
/// nothing left over and no error.
pub proof fn lemma_split_whole_messages(ms: Seq<Seq<u8>>)
    requires
        whole_messages(ms),
    ensures
        split_frames(concat(ms)) == (ms, Seq::<u8>::empty(), false),
    decreases ms.len(),
{
    if ms.len() == 0 {
        assert(concat(ms) =~= Seq::<u8>::empty());
        assert(ms =~= Seq::<Seq<u8>>::empty());
    } else {
        lemma_whole_messages_tail(ms);
        let m = ms[0];
        let rest = ms.drop_first();
        assert(whole_message(m));
        lemma_same_header(m, concat(rest));
        lemma_split_whole_messages(rest);
        assert(seq![m] + rest =~= ms);
    }
}

/// Reading is unambiguous: when whole messages `queued`, followed by bytes `pending` in
/// which no whole message or bad header is found, make up the same bytes as the whole
/// messages `ms`, then `queued` is `ms` and nothing is pending. So however a stream of whole
/// messages arrives in pieces, once all of it has been pushed the messages taken from the
/// buffer are the messages sent, in order.
pub proof fn lemma_whole_messages_unique(queued: Seq<Seq<u8>>, pending: Seq<u8>, ms: Seq<Seq<u8>>)
    requires
        whole_messages(queued),
        whole_messages(ms),
        split_frames(pending) == (Seq::<Seq<u8>>::empty(), pending, false),
        concat(queued) + pending == concat(ms),
    ensures
        queued == ms,
        pending == Seq::<u8>::empty(),
    decreases queued.len(),
{
    if queued.len() == 0 {
        assert(concat(queued) + pending =~= pending);
        lemma_split_whole_messages(ms);
        if ms.len() > 0 {
            assert(split_frames(concat(ms)).0.len() > 0);
        }
        assert(queued =~= ms);
    } else {
        lemma_whole_messages_tail(queued);
        let q = queued[0];
        assert(whole_message(q));
        assert(concat(queued) + pending =~= q + (concat(queued.drop_first()) + pending));
        if ms.len() == 0 {
            assert(concat(ms) =~= Seq::<u8>::empty());
            assert((q + (concat(queued.drop_first()) + pending)).len() >= 4);
        } else {
            lemma_whole_messages_tail(ms);
            let m = ms[0];
            assert(whole_message(m));
            let b = concat(ms);
            lemma_same_header(q, concat(queued.drop_first()) + pending);
            lemma_same_header(m, concat(ms.drop_first()));
            assert(q == m);
            assert(concat(queued.drop_first()) + pending == concat(ms.drop_first()));
            lemma_whole_messages_unique(queued.drop_first(), pending, ms.drop_first());
            assert(queued =~= seq![q] + queued.drop_first());
            assert(ms =~= seq![m] + ms.drop_first());
        }
    }
}

/// What splitting leaves over holds no further whole message.
pub proof fn lemma_split_rest(b: Seq<u8>)
    ensures
        split_frames(split_frames(b).1) == (Seq::<Seq<u8>>::empty(), split_frames(b).1, split_frames(b).2),
    decreases b.len(),
{
    if !(b.len() < 4 || declared_len(b) < 4 || b.len() < padded_len(b)) {
        lemma_split_rest(b.skip(padded_len(b)));
    }
}

/// Appending bytes to the buffer keeps the stream intact: the waiting messages followed by
/// the pending bytes are what they were before, followed by the new bytes.
pub proof fn lemma_push_keeps_stream(messages: Seq<Seq<u8>>, pending: Seq<u8>, data: Seq<u8>)
    ensures
        ({
            let sp = split_frames(pending + data);
            concat(messages + sp.0) + sp.1 == concat(messages) + pending + data
        }),
{
    let sp = split_frames(pending + data);
    lemma_split_frames_exact(pending + data);
    lemma_concat_append(messages, sp.0);
    assert(concat(messages) + concat(sp.0) + sp.1 =~= concat(messages) + (concat(sp.0) + sp.1));
    assert(concat(messages) + (pending + data) =~= concat(messages) + pending + data);
}

/// Why the stream could not be split into messages.
#[derive(Debug, Clone, Copy)]
pub enum ReadError {
    /// A header declared a message shorter than the header itself.
    MessageTooShort(usize),
}

/// One whole message, possibly with some leading bytes already consumed.
pub struct ReadBufferView {
    data: Vec<u8>,
}

impl ReadBufferView {
    pub closed spec fn view(&self) -> Seq<u8> {
        self.data@
    }

    /// The remaining bytes of the message.
    pub fn get(&self) -> (r: &[u8])
        ensures
            r@ == self.view(),
    {
        self.data.as_slice()
    }

    /// The remaining bytes of the message, for modification.
    pub fn get_mut(&mut self) -> (r: &mut Vec<u8>)
        ensures
            r@ == old(self).view(),
            final(self).view() == final(r)@,
    {
        &mut self.data
    }

    /// Drop the first `skip` bytes of the message.
    pub fn advance(&mut self, skip: usize)
        requires
            skip % 4 == 0,
            skip <= old(self).view().len(),
        ensures
            final(self).view() == old(self).view().skip(skip as int),
    {
        let s = vstd::slice::slice_subrange(self.data.as_slice(), skip, self.data.len());
        self.data = vstd::slice::slice_to_vec(s);
    }
}

/// Bytes received so far, split into whole messages waiting to be taken and the start of
/// a message not yet complete.
pub struct ReadBuffer {
    pending: Vec<u8>,
    msg_queue: VecDeque<ReadBufferView>,
}

impl ReadBuffer {
    /// The messages waiting to be taken, oldest first.
    pub closed spec fn messages(&self) -> Seq<Seq<u8>> {
        self.msg_queue@.map_values(|v: ReadBufferView| v.view())
    }

    /// The bytes after the last whole message.
    pub closed spec fn pending(&self) -> Seq<u8> {
        self.pending@
    }

    /// An empty buffer.
    pub fn new() -> (r: Self)
        ensures
            r.messages() == Seq::<Seq<u8>>::empty(),
            r.pending() == Seq::<u8>::empty(),
    {
        let r = ReadBuffer { pending: Vec::new(), msg_queue: VecDeque::new() };
        proof {
            assert(r.messages() =~= Seq::<Seq<u8>>::empty());
        }
        r
    }

    /// Take the oldest whole message.
    pub fn pop_next_msg(&mut self) -> (r: Option<ReadBufferView>)
        ensures
            old(self).messages().len() == 0 ==> r is None && final(self).messages() == old(self).messages(),
            old(self).messages().len() > 0 ==> (r matches Some(v) && v.view() == old(self).messages()[0]
                && final(self).messages() == old(self).messages().drop_first()),
            final(self).pending() == old(self).pending(),
    {
        let r = self.msg_queue.pop_front();
        proof {
            assert(self.messages() =~= old(self).messages().subrange(1, old(self).messages().len() as int)
                || old(self).messages().len() == 0);
        }
        r
    }

    /// Append bytes received from the stream, and queue every message they complete.
    /// On a header that declares a length below 4, the messages before it are queued and
    /// the error is returned.
    pub fn push_bytes(&mut self, data: &[u8]) -> (res: Result<(), ReadError>)
        ensures
            ({
                let sp = split_frames(old(self).pending() + data@);
                &&& final(self).messages() == old(self).messages() + sp.0
                &&& final(self).pending() == sp.1
                &&& (res is Err <==> sp.2)
            }),
    {
        let ghost all = self.pending@ + data@;
        self.pending.extend_from_slice(data);
        proof {
            assert(self.pending@ =~= all);
        }
        let ghost q0 = self.messages();
        let mut pos: usize = 0;
        let mut err: Option<usize> = None;
        let ghost mut done: Seq<Seq<u8>> = Seq::empty();
        proof {
            lemma_split_start(all);
        }
        while self.pending.len() - pos >= 4
            invariant_except_break
                err is None,
            invariant
                pos <= self.pending@.len(),
                self.pending@ == all,
                split_progress(all, pos as int, done),
                self.messages() == q0 + done,
            ensures
                pos <= self.pending@.len(),
                self.pending@ == all,
                self.messages() == q0 + done,
                split_progress(all, pos as int, done),
                err is None ==> split_frames(all.skip(pos as int)) == (
                Seq::<Seq<u8>>::empty(),
                all.skip(pos as int),
                false,
                ) || pos + 4 > all.len(),
                err is Some ==> split_frames(all.skip(pos as int)) == (
                Seq::<Seq<u8>>::empty(),
                all.skip(pos as int),
                true,
                ),
            decreases self.pending@.len() - pos,
        {
            let ghost rest = all.skip(pos as int);
            let header: u32 = (self.pending[pos] as u32) + (self.pending[pos + 1] as u32) * 256 + (
            self.pending[pos + 2] as u32) * 65536 + (self.pending[pos + 3] as u32) * 16777216;
            let msg_len = (header / 32) as usize;
            proof {
                assert(rest[0] == all[pos as int] && rest[1] == all[pos + 1] && rest[2] == all[pos
                    + 2] && rest[3] == all[pos + 3]);
                assert(msg_len as int == declared_len(rest));
            }
            if msg_len < 4 {
                err = Some(msg_len);
                break;
            }
            let padded = (msg_len + 3) / 4 * 4;
            proof {
                lemma_round_up_4(msg_len as int);
            }
            if self.pending.len() - pos < padded {
                break;
            }
            let msg = vstd::slice::slice_to_vec(
                vstd::slice::slice_subrange(self.pending.as_slice(), pos, pos + padded),
            );
            let ghost old_q = self.msg_queue@;
            self.msg_queue.push_back(ReadBufferView { data: msg });
            proof {
                assert(msg@ =~= rest.take(padded as int));
                lemma_split_advance(all, pos as int, done);
                assert(self.msg_queue@ == old_q.push(ReadBufferView { data: msg }));
                let f = |v: ReadBufferView| v.view();
                assert(self.msg_queue@.map_values(f) =~= old_q.map_values(f).push(msg@));
                assert(old_q.map_values(f) == q0 + done);
                assert(self.messages() =~= q0 + done.push(rest.take(padded as int)));
                done = done.push(rest.take(padded as int));
            }
            pos = pos + padded;
        }
        let tail = vstd::slice::slice_to_vec(
            vstd::slice::slice_subrange(self.pending.as_slice(), pos, self.pending.len()),
        );
        self.pending = tail;
        proof {
            assert(tail@ =~= all.skip(pos as int));
            if err is None && pos + 4 > all.len() {
                lemma_split_short(all.skip(pos as int));
            }
            lemma_split_finish(all, pos as int, done);
        }
        match err {
            Some(len) => Err(ReadError::MessageTooShort(len)),
            None => Ok(()),
        }
    }
}

} // verus!
