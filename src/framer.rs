//! Decoding a byte stream into messages that each carry a four-byte little-endian length
//! header before their body.
//!
//! The framer never touches a stream itself. Its caller asks how many bytes the framer
//! can take (`wanted`), reads at most that many from a non-blocking stream, and hands
//! the outcome of that one read to `read`.
use vstd::prelude::*;
use crate::bytes::{
    le_u32_bytes, le_u32_value, lemma_le_u32_round_trip, lemma_le_u32_value_bound, read_le_u32,
};

verus! {

/// The number of bytes in a message header.
pub const HEADER_LEN: usize = 4;

/// What one non-blocking read of the stream produced.
pub enum Received {
    /// The bytes that the read delivered; none at all means that the peer closed the stream.
    Bytes(Vec<u8>),
    /// The stream had no data ready.
    WouldBlock,
    /// The read failed for another reason; the session cannot go on.
    Failed,
}

/// The meaning of a `Received`.
pub enum Arrival {
    Bytes(Seq<u8>),
    WouldBlock,
    Failed,
}

impl View for Received {
    type V = Arrival;

    open spec fn view(&self) -> Arrival {
        match self {
            Received::Bytes(b) => Arrival::Bytes(b@),
            Received::WouldBlock => Arrival::WouldBlock,
            Received::Failed => Arrival::Failed,
        }
    }
}

/// Whether `got` delivers no more than `n` bytes.
pub open spec fn fits_in(got: Arrival, n: int) -> bool {
    got matches Arrival::Bytes(b) ==> b.len() <= n
}

/// What the framer made of one read.
pub enum ReadState {
    /// The peer hung up
    Disconnected,
    /// Message incomplete, but the connection is still live
    Incomplete,
    /// Message is complete
    Complete(Vec<u8>),
    /// A header arrived in pieces; the bytes that did arrive are lost
    Invalid,
}

/// The meaning of a `ReadState`.
pub enum Signal {
    Disconnected,
    Incomplete,
    Complete(Seq<u8>),
    Invalid,
}

impl View for ReadState {
    type V = Signal;

    open spec fn view(&self) -> Signal {
        match self {
            ReadState::Disconnected => Signal::Disconnected,
            ReadState::Incomplete => Signal::Incomplete,
            ReadState::Complete(b) => Signal::Complete(b@),
            ReadState::Invalid => Signal::Invalid,
        }
    }
}

/// The state of a framer: between messages, or partway through a body of `len` bytes of
/// which `got` have arrived.
pub struct FramerModel {
    pub in_body: bool,
    pub len: nat,
    pub got: Seq<u8>,
}

/// A framer waiting for the next header.
pub open spec fn idle_model() -> FramerModel {
    FramerModel { in_body: false, len: 0, got: seq![] }
}

/// How many bytes the next read may deliver.
pub open spec fn wanted_model(m: FramerModel) -> int {
    if m.in_body {
        m.len - m.got.len()
    } else {
        HEADER_LEN as int
    }
}

/// The framer's state after one read, and what it reports.
///
/// A read that delivers nothing means the peer hung up; a failed read ends the session
/// the same way. A read that would block changes nothing. Between messages a read must
/// deliver the whole header; a header of length zero completes an empty message at once.
/// Within a body, the bytes are appended until the body is whole.
pub open spec fn step(m: FramerModel, got: Arrival) -> (FramerModel, Signal) {
    match got {
        Arrival::WouldBlock => (m, Signal::Incomplete),
        Arrival::Failed => (m, Signal::Disconnected),
        Arrival::Bytes(b) => if b.len() == 0 {
            (m, Signal::Disconnected)
        } else if !m.in_body {
            if b.len() != HEADER_LEN {
                (m, Signal::Invalid)
            } else if le_u32_value(b) == 0 {
                (idle_model(), Signal::Complete(seq![]))
            } else {
                (FramerModel { in_body: true, len: le_u32_value(b), got: seq![] }, Signal::Incomplete)
            }
        } else if m.got.len() + b.len() == m.len {
            (idle_model(), Signal::Complete(m.got + b))
        } else {
            (FramerModel { in_body: true, len: m.len, got: m.got + b }, Signal::Incomplete)
        },
    }
}

/// Reassembles messages, each a little-endian length header and then a body, from the
/// outcomes of successive non-blocking reads of one stream.
pub struct AsyncBufferedReceiver {
    /// The part of the current body that has arrived
    buf: Vec<u8>,
    /// The length of the current body, from its header
    body_len: usize,
    /// Whether a header has arrived whose body is not yet complete
    in_body: bool,
}

impl View for AsyncBufferedReceiver {
    type V = FramerModel;

    closed spec fn view(&self) -> FramerModel {
        FramerModel { in_body: self.in_body, len: self.body_len as nat, got: self.buf@ }
    }
}

impl AsyncBufferedReceiver {
    /// The body in progress is shorter than its header says, and nothing is held between
    /// messages.
    pub closed spec fn wf(&self) -> bool {
        &&& self.body_len <= u32::MAX
        &&& self.in_body ==> self.buf@.len() < self.body_len
        &&& !self.in_body ==> self.buf@.len() == 0 && self.body_len == 0
    }

    pub fn new() -> (r: Self)
        ensures
            r.wf(),
            r@ == idle_model(),
    {
        Self { buf: Vec::new(), body_len: 0, in_body: false }
    }

    /// How many bytes the next read may deliver: the header's four between messages, else
    /// what is left of the body.
    pub fn wanted(&self) -> (r: usize)
        requires
            self.wf(),
        ensures
            r as int == wanted_model(self@),
            r > 0,
    {
        if self.in_body {
            self.body_len - self.buf.len()
        } else {
            HEADER_LEN
        }
    }

    /// Takes the outcome of one read of at most `wanted()` bytes, returning a complete message
    /// if that read finished one.
    pub fn read(&mut self, got: Received) -> (r: ReadState)
        requires
            old(self).wf(),
            fits_in(got@, wanted_model(old(self)@)),
        ensures
            final(self).wf(),
            (final(self)@, r@) == step(old(self)@, got@),
    {
        let mut b = match got {
            Received::WouldBlock => {
                return ReadState::Incomplete;
            },
            Received::Failed => {
                return ReadState::Disconnected;
            },
            Received::Bytes(b) => b,
        };
        if b.len() == 0 {
            return ReadState::Disconnected;
        }
        if !self.in_body {
            if b.len() != HEADER_LEN {
                return ReadState::Invalid;
            }
            let n = read_le_u32(b.as_slice());
            proof {
                lemma_le_u32_value_bound(b@);
            }
            if n == 0 {
                let empty: Vec<u8> = Vec::new();
                assert(empty@ =~= seq![]);
                assert(self.buf@ =~= seq![]);
                return ReadState::Complete(empty);
            }
            self.body_len = n as usize;
            self.in_body = true;
            assert(self.buf@ =~= seq![]);
            return ReadState::Incomplete;
        }
        let ghost before = self.buf@;
        let ghost delivered = b@;
        self.buf.append(&mut b);
        assert(self.buf@ == before + delivered);
        if self.buf.len() == self.body_len {
            let mut done: Vec<u8> = Vec::new();
            std::mem::swap(&mut done, &mut self.buf);
            self.body_len = 0;
            self.in_body = false;
            assert(self@ == idle_model());
            ReadState::Complete(done)
        } else {
            ReadState::Incomplete
        }
    }
}

/// The bytes of `chunks`, one after another.
pub open spec fn concat(chunks: Seq<Seq<u8>>) -> Seq<u8>
    decreases chunks.len(),
{
    if chunks.len() == 0 {
        seq![]
    } else {
        concat(chunks.drop_last()) + chunks.last()
    }
}

/// Hands each of `reads` to the framer in turn, as the bytes of one read; gives the final
/// state and what each read reported.
pub open spec fn feed(m: FramerModel, reads: Seq<Seq<u8>>) -> (FramerModel, Seq<Signal>)
    decreases reads.len(),
{
    if reads.len() == 0 {
        (m, seq![])
    } else {
        let (prev, signals) = feed(m, reads.drop_last());
        let (next, signal) = step(prev, Arrival::Bytes(reads.last()));
        (next, signals.push(signal))
    }
}

/// The header that announces `body`.
pub open spec fn header_of(body: Seq<u8>) -> Seq<u8> {
    le_u32_bytes(body.len() as u32)
}

/// The reads that deliver a message whole: its header, then its body in one piece.
pub open spec fn whole_reads(body: Seq<u8>) -> Seq<Seq<u8>> {
    if body.len() == 0 {
        seq![header_of(body)]
    } else {
        seq![header_of(body), body]
    }
}

proof fn lemma_concat_take_grows(chunks: Seq<Seq<u8>>, j: int, k: int)
    requires
        0 <= j <= k <= chunks.len(),
        forall|i: int| 0 <= i < chunks.len() ==> #[trigger] chunks[i].len() > 0,
    ensures
        concat(chunks.take(j)).len() + (k - j) <= concat(chunks.take(k)).len(),
    decreases k - j,
{
    if j < k {
        lemma_concat_take_grows(chunks, j, k - 1);
        assert(chunks.take(k).drop_last() =~= chunks.take(k - 1));
        assert(chunks.take(k).last() == chunks[k - 1]);
    }
}

proof fn lemma_feed_header(body: Seq<u8>)
    requires
        body.len() <= u32::MAX,
    ensures
        feed(idle_model(), seq![header_of(body)]) == (if body.len() == 0 {
            (idle_model(), seq![Signal::Complete(seq![])])
        } else {
            (FramerModel { in_body: true, len: body.len(), got: seq![] }, seq![Signal::Incomplete])
        }),
{
    let h = header_of(body);
    lemma_le_u32_round_trip(body.len() as u32);
    let reads = seq![h];
    assert(reads.drop_last() =~= Seq::<Seq<u8>>::empty());
    assert(reads.last() == h);
    assert(feed(idle_model(), Seq::<Seq<u8>>::empty()) == (idle_model(), Seq::<Signal>::empty()));
    assert(h.len() == 4);
    assert(Seq::<Signal>::empty().push(Signal::Incomplete) =~= seq![Signal::Incomplete]);
    assert(Seq::<Signal>::empty().push(Signal::Complete(seq![])) =~= seq![
        Signal::Complete(seq![]),
    ]);
}

proof fn lemma_feed_body_prefix(body: Seq<u8>, chunks: Seq<Seq<u8>>, k: int)
    requires
        0 < body.len() <= u32::MAX,
        concat(chunks) == body,
        forall|i: int| 0 <= i < chunks.len() ==> #[trigger] chunks[i].len() > 0,
        0 <= k < chunks.len(),
    ensures
        ({
            let (m, signals) = feed(idle_model(), seq![header_of(body)] + chunks.take(k));
            &&& m == (FramerModel { in_body: true, len: body.len(), got: concat(chunks.take(k)) })
            &&& signals.len() == k + 1
            &&& forall|i: int| 0 <= i < signals.len() ==> signals[i] == Signal::Incomplete
        }),
    decreases k,
{
    let h = header_of(body);
    if k == 0 {
        lemma_feed_header(body);
        assert((seq![h] + chunks.take(0)) =~= seq![h]);
        assert(chunks.take(0) =~= seq![]);
    } else {
        lemma_feed_body_prefix(body, chunks, k - 1);
        let reads = seq![h] + chunks.take(k);
        assert(reads.drop_last() =~= seq![h] + chunks.take(k - 1));
        assert(reads.last() == chunks[k - 1]);
        assert(chunks.take(k).drop_last() =~= chunks.take(k - 1));
        assert(chunks.take(k).last() == chunks[k - 1]);
        lemma_concat_take_grows(chunks, k, chunks.len() as int);
        assert(chunks.take(chunks.len() as int) =~= chunks);
        let (prev, signals) = feed(idle_model(), seq![h] + chunks.take(k - 1));
        assert(concat(chunks.take(k)) == concat(chunks.take(k - 1)) + chunks[k - 1]);
        assert(prev.got.len() + chunks[k - 1].len() < body.len());
        let (next, signal) = step(prev, Arrival::Bytes(chunks[k - 1]));
        assert(next == (FramerModel { in_body: true, len: body.len(), got: concat(chunks.take(k)) }));
        assert(signal == Signal::Incomplete);
        assert(feed(idle_model(), reads) == (next, signals.push(signal)));
    }
}

/// However a message's body is split over reads, the framer reports each read before the
/// last as incomplete, the last as the complete body, and ends waiting for the next header:
/// the same message as when the body arrives in one read.
///
/// The header itself must arrive in one read: a header split over reads is reported as
/// invalid.
pub proof fn lemma_split_body_same_message(body: Seq<u8>, chunks: Seq<Seq<u8>>)
    requires
        body.len() <= u32::MAX,
        concat(chunks) == body,
        forall|i: int| 0 <= i < chunks.len() ==> #[trigger] chunks[i].len() > 0,
    ensures
        ({
            let (m, signals) = feed(idle_model(), seq![header_of(body)] + chunks);
            &&& m == idle_model()
            &&& signals.len() == chunks.len() + 1
            &&& signals.last() == Signal::Complete(body)
            &&& forall|i: int| 0 <= i < signals.len() - 1 ==> signals[i] == Signal::Incomplete
        }),
        feed(idle_model(), seq![header_of(body)] + chunks).0 == feed(
            idle_model(),
            whole_reads(body),
        ).0,
        feed(idle_model(), seq![header_of(body)] + chunks).1.last() == feed(
            idle_model(),
            whole_reads(body),
        ).1.last(),
{
    let h = header_of(body);
    lemma_feed_header(body);
    lemma_concat_take_grows(chunks, 0, chunks.len() as int);
    assert(chunks.take(chunks.len() as int) =~= chunks);
    assert(chunks.take(0) =~= seq![]);
    assert(seq![h].drop_last() =~= seq![]);
    if chunks.len() == 0 {
        assert(body =~= seq![]);
        assert(seq![h] + chunks =~= seq![h]);
        assert(whole_reads(body) == seq![h]);
    } else {
        let n = chunks.len() as int;
        lemma_feed_body_prefix(body, chunks, n - 1);
        let reads = seq![h] + chunks;
        assert(reads.drop_last() =~= seq![h] + chunks.take(n - 1));
        assert(chunks.drop_last() =~= chunks.take(n - 1));
        assert(reads.last() == chunks[n - 1]);
        let one = seq![h, body];
        assert(one.drop_last() =~= seq![h]);
        assert(one.last() == body);
        lemma_feed_header(body);
        assert(seq![] + body =~= body);
        let (prev, signals) = feed(idle_model(), seq![h] + chunks.take(n - 1));
        let (last, all) = feed(idle_model(), reads);
        assert(all == signals.push(Signal::Complete(body)));
        let (last1, all1) = feed(idle_model(), one);
        assert(all1 =~= seq![Signal::Incomplete, Signal::Complete(body)]);
        assert(concat(chunks) == concat(chunks.take(n - 1)) + chunks[n - 1]);
        assert(last == idle_model());
    }
}

/// The reads that deliver one message: its header whole, then its body in the given pieces.
pub open spec fn message_reads(body: Seq<u8>, chunks: Seq<Seq<u8>>) -> Seq<Seq<u8>> {
    seq![header_of(body)] + chunks
}

/// The reads that deliver each message of `msgs` in turn; a message is its body and the
/// pieces its body arrives in.
pub open spec fn stream_reads(msgs: Seq<(Seq<u8>, Seq<Seq<u8>>)>) -> Seq<Seq<u8>>
    decreases msgs.len(),
{
    if msgs.len() == 0 {
        seq![]
    } else {
        stream_reads(msgs.drop_last()) + message_reads(msgs.last().0, msgs.last().1)
    }
}

/// The bodies that `signals` report complete, in order.
pub open spec fn completed(signals: Seq<Signal>) -> Seq<Seq<u8>>
    decreases signals.len(),
{
    if signals.len() == 0 {
        seq![]
    } else {
        match signals.last() {
            Signal::Complete(b) => completed(signals.drop_last()).push(b),
            _ => completed(signals.drop_last()),
        }
    }
}

/// Whether a message of `msgs` is well formed for delivery: its body fits a header, its
/// pieces are not empty and make up its body.
pub open spec fn well_split(msgs: Seq<(Seq<u8>, Seq<Seq<u8>>)>) -> bool {
    forall|i: int|
        0 <= i < msgs.len() ==> {
            &&& (#[trigger] msgs[i]).0.len() <= u32::MAX
            &&& concat(msgs[i].1) == msgs[i].0
            &&& forall|j: int| 0 <= j < msgs[i].1.len() ==> (#[trigger] msgs[i].1[j]).len() > 0
        }
}

proof fn lemma_feed_append(m: FramerModel, a: Seq<Seq<u8>>, b: Seq<Seq<u8>>)
    ensures
        feed(m, a + b) == (feed(feed(m, a).0, b).0, feed(m, a).1 + feed(feed(m, a).0, b).1),
    decreases b.len(),
{
    if b.len() == 0 {
        assert(a + b =~= a);
        assert(feed(m, a).1 + Seq::<Signal>::empty() =~= feed(m, a).1);
    } else {
        lemma_feed_append(m, a, b.drop_last());
        assert((a + b).drop_last() =~= a + b.drop_last());
        assert((a + b).last() == b.last());
        let mid = feed(m, a);
        let (p, sb) = feed(mid.0, b.drop_last());
        let (q, sig) = step(p, Arrival::Bytes(b.last()));
        assert(mid.1 + sb.push(sig) =~= (mid.1 + sb).push(sig));
    }
}

proof fn lemma_completed_append(a: Seq<Signal>, b: Seq<Signal>)
    ensures
        completed(a + b) == completed(a) + completed(b),
    decreases b.len(),
{
    if b.len() == 0 {
        assert(a + b =~= a);
        assert(completed(a) + completed(b) =~= completed(a));
    } else {
        lemma_completed_append(a, b.drop_last());
        assert((a + b).drop_last() =~= a + b.drop_last());
        assert((a + b).last() == b.last());
        match b.last() {
            Signal::Complete(x) => {
                assert(completed(a) + completed(b.drop_last()).push(x) =~= (completed(a)
                    + completed(b.drop_last())).push(x));
            },
            _ => {},
        }
    }
}

proof fn lemma_completed_one(signals: Seq<Signal>, body: Seq<u8>)
    requires
        signals.len() > 0,
        signals.last() == Signal::Complete(body),
        forall|i: int| 0 <= i < signals.len() - 1 ==> signals[i] == Signal::Incomplete,
    ensures
        completed(signals) == seq![body],
{
    let init = signals.drop_last();
    lemma_completed_none(init);
    assert(Seq::<Seq<u8>>::empty().push(body) =~= seq![body]);
}

proof fn lemma_completed_none(signals: Seq<Signal>)
    requires
        forall|i: int| 0 <= i < signals.len() ==> signals[i] == Signal::Incomplete,
    ensures
        completed(signals) == Seq::<Seq<u8>>::empty(),
    decreases signals.len(),
{
    if signals.len() > 0 {
        lemma_completed_none(signals.drop_last());
    }
}

/// However a stream of messages is split over reads, as long as each header arrives in one
/// read, the framer reports exactly the messages' bodies complete, in order, every other
/// read as incomplete, and ends waiting for the next header: the same bodies as when each
/// body arrives in one read. A read that would block in between changes nothing.
pub proof fn lemma_split_stream_same_messages(msgs: Seq<(Seq<u8>, Seq<Seq<u8>>)>)
    requires
        well_split(msgs),
    ensures
        ({
            let (m, signals) = feed(idle_model(), stream_reads(msgs));
            &&& m == idle_model()
            &&& completed(signals) == msgs.map_values(|msg: (Seq<u8>, Seq<Seq<u8>>)| msg.0)
            &&& forall|i: int|
                0 <= i < signals.len() ==> #[trigger] signals[i] is Complete || signals[i]
                    is Incomplete
        }),
        forall|f: FramerModel| #[trigger] step(f, Arrival::WouldBlock) == (f, Signal::Incomplete),
    decreases msgs.len(),
{
    let bodies = msgs.map_values(|msg: (Seq<u8>, Seq<Seq<u8>>)| msg.0);
    if msgs.len() == 0 {
        assert(bodies =~= Seq::<Seq<u8>>::empty());
    } else {
        let init = msgs.drop_last();
        let (body, chunks) = msgs.last();
        assert(well_split(init)) by {
            assert forall|i: int| 0 <= i < init.len() implies {
                &&& (#[trigger] init[i]).0.len() <= u32::MAX
                &&& concat(init[i].1) == init[i].0
                &&& forall|j: int| 0 <= j < init[i].1.len() ==> (#[trigger] init[i].1[j]).len() > 0
            } by {
                assert(init[i] == msgs[i]);
            }
        }
        lemma_split_stream_same_messages(init);
        assert(msgs[msgs.len() - 1] == msgs.last());
        lemma_split_body_same_message(body, chunks);
        let a = stream_reads(init);
        let b = message_reads(body, chunks);
        lemma_feed_append(idle_model(), a, b);
        let (ma, sa) = feed(idle_model(), a);
        let (mb, sb) = feed(idle_model(), b);
        lemma_completed_append(sa, sb);
        lemma_completed_one(sb, body);
        assert(bodies =~= init.map_values(|msg: (Seq<u8>, Seq<Seq<u8>>)| msg.0).push(body));
        let all = sa + sb;
        assert forall|i: int| 0 <= i < all.len() implies #[trigger] all[i] is Complete || all[i]
            is Incomplete by {
            if i < sa.len() {
                assert(all[i] == sa[i]);
            } else {
                assert(all[i] == sb[i - sa.len()]);
            }
        }
    }
}

} // verus!
