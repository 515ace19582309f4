//! The relay's live set of peers and the decisions of each tick of its loop.
//!
//! A tick runs in three steps. The caller reads once from every live peer, at most
//! `wanted(i)` bytes from peer `i`, and hands the outcomes to `receive`, which drops the
//! peers that hung up or sent what cannot be read, and stores the records that arrived.
//! When a record arrived, `receive` returns the aggregate message; the caller writes it to
//! every peer still live and reports each write to `settle`, which drops the peers that went
//! away. Peers are never told which record is their own: each sees its own reflected back.
use vstd::prelude::*;
use crate::framer::{
    fits_in, idle_model, step, wanted_model, Arrival, AsyncBufferedReceiver, FramerModel, ReadState, Received, Signal,
};
use crate::wire::{
    aggregate_bytes, decode_head, decoded_head, encode_aggregate, message_bytes, serialize_msg, Head,
};

verus! {

/// What the registry knows of one live peer.
pub struct PeerView {
    /// The number the registry gave the peer when it joined
    pub id: nat,
    pub framer: FramerModel,
    /// The last record the peer sent, or the origin if none yet
    pub state: Head,
}

/// The peer after one read, whether or not it stays: its framer advanced, and its record
/// replaced when a whole record arrived.
pub open spec fn advance(p: PeerView, got: Arrival) -> PeerView {
    let (f, signal) = step(p.framer, got);
    match signal {
        Signal::Complete(body) => match decoded_head(body) {
            Some(h) => PeerView { framer: f, state: h, ..p },
            None => PeerView { framer: f, ..p },
        },
        _ => PeerView { framer: f, ..p },
    }
}

/// Whether the peer stays after one read. It leaves when it hung up or its read failed, when
/// a header arrived
/// in pieces (its framing cannot be trusted after that), and when its message is not a
/// record.
pub open spec fn stays(p: PeerView, got: Arrival) -> bool {
    match step(p.framer, got).1 {
        Signal::Disconnected => false,
        Signal::Invalid => false,
        Signal::Incomplete => true,
        Signal::Complete(body) => decoded_head(body) is Some,
    }
}

/// Whether the read brought a new record from the peer.
pub open spec fn updated_by(p: PeerView, got: Arrival) -> bool {
    match step(p.framer, got).1 {
        Signal::Complete(body) => decoded_head(body) is Some,
        _ => false,
    }
}

/// The items of `s` at the positions where `keep` holds, in their order.
pub open spec fn pick<A>(s: Seq<A>, keep: Seq<bool>) -> Seq<A>
    decreases s.len(),
{
    if s.len() == 0 {
        seq![]
    } else if keep[s.len() - 1] {
        pick(s.drop_last(), keep).push(s.last())
    } else {
        pick(s.drop_last(), keep)
    }
}

/// Which peers stay after their reads.
pub open spec fn read_mask(peers: Seq<PeerView>, reads: Seq<Arrival>) -> Seq<bool> {
    Seq::new(peers.len(), |i: int| stays(peers[i], reads[i]))
}

/// Every peer after its read.
pub open spec fn advanced(peers: Seq<PeerView>, reads: Seq<Arrival>) -> Seq<PeerView> {
    Seq::new(peers.len(), |i: int| advance(peers[i], reads[i]))
}

/// The peers that stay after each has had its read, in their order.
pub open spec fn survivors(peers: Seq<PeerView>, reads: Seq<Arrival>) -> Seq<PeerView> {
    pick(advanced(peers, reads), read_mask(peers, reads))
}

/// Which peers stay after the writes of a broadcast: all but those that went away.
pub open spec fn write_mask(writes: Seq<WriteOutcome>) -> Seq<bool> {
    writes.map_values(|w: WriteOutcome| !(w is PeerGone))
}

/// What the reads handed to the registry hold.
pub open spec fn read_views(reads: Seq<Received>) -> Seq<Arrival> {
    reads.map_values(|r: Received| r@)
}

/// Whether any peer's read brought a new record.
pub open spec fn any_update(peers: Seq<PeerView>, reads: Seq<Arrival>) -> bool {
    exists|i: int| 0 <= i < peers.len() && #[trigger] updated_by(peers[i], reads[i])
}

/// The records of the peers, in their order.
pub open spec fn states(peers: Seq<PeerView>) -> Seq<Head> {
    peers.map_values(|p: PeerView| p.state)
}

/// The message that carries the aggregate of the peers' records.
pub open spec fn broadcast_bytes(peers: Seq<PeerView>) -> Seq<u8> {
    message_bytes(aggregate_bytes(states(peers)))
}

/// How one write of the aggregate to a peer went.
#[derive(Clone, Copy, Debug, PartialEq, Eq, Structural)]
pub enum WriteOutcome {
    /// The whole message was written
    Sent,
    /// The stream could take nothing now; this aggregate is lost to the peer
    WouldBlock,
    /// The connection was reset, aborted or its pipe broken
    PeerGone,
    /// Any other failure
    Fatal,
}

/// What the caller does after the reads of a tick.
pub enum TickAction {
    /// No record arrived: write nothing, pause briefly, and start the next tick
    Idle,
    /// Write this message to every live peer and report each outcome to `settle`
    Broadcast(Vec<u8>),
}

/// Failures that end the relay.
#[derive(Debug, PartialEq, Eq, Structural)]
pub enum RelayError {
    /// The aggregate is too long for a message header
    AggregateTooLarge,
    /// A write to the peer at this position failed for a reason other than the peer leaving
    WriteFailed(usize),
}

struct PeerSession<S> {
    stream: S,
    id: u64,
    framer: AsyncBufferedReceiver,
    last_state: Head,
}

impl<S> PeerSession<S> {
    spec fn view(&self) -> PeerView {
        PeerView { id: self.id as nat, framer: self.framer@, state: self.last_state }
    }
}

/// The peers that the relay currently serves, in the order they joined.
pub struct Registry<S> {
    peers: Vec<PeerSession<S>>,
    next_id: u64,
}

/// Whether one of `peers` has the id `id`.
pub open spec fn has_id(peers: Seq<PeerView>, id: nat) -> bool {
    exists|i: int| 0 <= i < peers.len() && #[trigger] peers[i].id == id
}

/// Whether the peer numbered `id` once joined and is no longer live.
pub open spec fn departed(live: Seq<PeerView>, next_id: nat, id: nat) -> bool {
    id < next_id && !has_id(live, id)
}

/// The ids of `peers` rise strictly along the sequence and stay below `next_id`.
pub open spec fn ids_ordered(peers: Seq<PeerView>, next_id: nat) -> bool {
    &&& forall|i: int, j: int| 0 <= i < j < peers.len() ==> #[trigger] peers[i].id < #[trigger] peers[j].id
    &&& forall|i: int| 0 <= i < peers.len() ==> #[trigger] peers[i].id < next_id
}

/// The position in `s` of item `j` of `pick(s, keep)`.
spec fn pick_source<A>(s: Seq<A>, keep: Seq<bool>, j: int) -> int
    decreases s.len(),
{
    if s.len() == 0 {
        0
    } else if keep[s.len() - 1] && j == pick(s.drop_last(), keep).len() {
        s.len() - 1
    } else {
        pick_source(s.drop_last(), keep, j)
    }
}

proof fn lemma_pick_source<A>(s: Seq<A>, keep: Seq<bool>)
    requires
        keep.len() >= s.len(),
    ensures
        pick(s, keep).len() <= s.len(),
        forall|j: int|
            #![trigger pick(s, keep)[j]]
            0 <= j < pick(s, keep).len() ==> {
                let i = pick_source(s, keep, j);
                &&& 0 <= i < s.len()
                &&& keep[i]
                &&& pick(s, keep)[j] == s[i]
            },
        forall|j: int, k: int|
            0 <= j < k < pick(s, keep).len() ==> pick_source(s, keep, j) < pick_source(s, keep, k),
    decreases s.len(),
{
    if s.len() == 0 {
        assert(pick(s, keep) =~= Seq::<A>::empty());
    } else {
        let init = s.drop_last();
        lemma_pick_source(init, keep);
        let rest = pick(init, keep);
        let last = s.len() - 1;
        if keep[last] {
            let all = rest.push(s.last());
            assert(pick(s, keep) == all);
            assert forall|j: int|
                #![trigger all[j]]
                0 <= j < all.len() implies {
                    let i = pick_source(s, keep, j);
                    &&& 0 <= i < s.len()
                    &&& keep[i]
                    &&& all[j] == s[i]
                } by {
                if j < rest.len() {
                    assert(rest[j] == init[pick_source(init, keep, j)]);
                    assert(all[j] == rest[j]);
                    assert(pick_source(s, keep, j) == pick_source(init, keep, j));
                } else {
                    assert(pick_source(s, keep, j) == last);
                }
            }
            assert(all.len() == rest.len() + 1);
            assert forall|j: int| 0 <= j < pick(s, keep).len() implies 0 <= #[trigger] pick_source(s, keep, j) < s.len() && keep[pick_source(s, keep, j)] by {
                assert(all[j] == pick(s, keep)[j]);
            }
            assert forall|j: int, k: int| 0 <= j < k < all.len() implies pick_source(s, keep, j)
                < pick_source(s, keep, k) by {
                assert(j < rest.len());
                assert(rest[j] == init[pick_source(init, keep, j)]);
                assert(pick_source(s, keep, j) == pick_source(init, keep, j));
                if k < rest.len() {
                    assert(pick_source(s, keep, k) == pick_source(init, keep, k));
                } else {
                    assert(pick_source(s, keep, k) == last);
                }
            }
        } else {
            assert(pick(s, keep) == rest);
            assert forall|j: int|
                #![trigger rest[j]]
                0 <= j < rest.len() implies {
                    let i = pick_source(s, keep, j);
                    &&& 0 <= i < s.len()
                    &&& keep[i]
                    &&& rest[j] == s[i]
                } by {
                assert(rest[j] == init[pick_source(init, keep, j)]);
                assert(pick_source(s, keep, j) == pick_source(init, keep, j));
            }
            assert forall|j: int| 0 <= j < pick(s, keep).len() implies 0 <= #[trigger] pick_source(s, keep, j) < s.len() && keep[pick_source(s, keep, j)] by {
                assert(rest[j] == pick(s, keep)[j]);
            }
            assert forall|j: int, k: int| 0 <= j < k < rest.len() implies pick_source(s, keep, j)
                < pick_source(s, keep, k) by {
                assert(pick_source(s, keep, j) == pick_source(init, keep, j));
                assert(pick_source(s, keep, k) == pick_source(init, keep, k));
            }
        }
    }
}

proof fn lemma_pick_ids(ps: Seq<PeerView>, keep: Seq<bool>, n: nat)
    requires
        ids_ordered(ps, n),
        keep.len() >= ps.len(),
    ensures
        ids_ordered(pick(ps, keep), n),
        forall|j: int| 0 <= j < pick(ps, keep).len() ==> has_id(ps, #[trigger] pick(ps, keep)[j].id),
        forall|i: int, j: int|
            0 <= i < ps.len() && !keep[i] && 0 <= j < pick(ps, keep).len() ==> #[trigger] pick(
                ps,
                keep,
            )[j].id != #[trigger] ps[i].id,
{
    lemma_pick_source(ps, keep);
    let p = pick(ps, keep);
    assert forall|j: int, k: int| 0 <= j < k < p.len() implies #[trigger] p[j].id < #[trigger] p[k].id by {
        assert(p[j] == ps[pick_source(ps, keep, j)]);
        assert(p[k] == ps[pick_source(ps, keep, k)]);
    }
    assert forall|j: int| 0 <= j < p.len() implies #[trigger] p[j].id < n by {
        assert(p[j] == ps[pick_source(ps, keep, j)]);
    }
    assert forall|j: int| 0 <= j < p.len() implies has_id(ps, #[trigger] p[j].id) by {
        assert(p[j] == ps[pick_source(ps, keep, j)]);
    }
    assert forall|i: int, j: int|
        0 <= i < ps.len() && !keep[i] && 0 <= j < p.len() implies #[trigger] p[j].id
        != #[trigger] ps[i].id by {
        let k = pick_source(ps, keep, j);
        assert(p[j] == ps[k]);
        assert(k != i);
        if k < i {
            assert(ps[k].id < ps[i].id);
        } else {
            assert(ps[i].id < ps[k].id);
        }
    }
}

proof fn lemma_advanced_ids(peers: Seq<PeerView>, reads: Seq<Arrival>, n: nat)
    requires
        ids_ordered(peers, n),
    ensures
        ids_ordered(advanced(peers, reads), n),
        forall|i: int| 0 <= i < peers.len() ==> #[trigger] advanced(peers, reads)[i].id == peers[i].id,
{
    let a = advanced(peers, reads);
    assert forall|i: int| 0 <= i < peers.len() implies #[trigger] a[i].id == peers[i].id by {}
    assert forall|i: int, j: int| 0 <= i < j < a.len() implies #[trigger] a[i].id < #[trigger] a[j].id by {
        assert(a[i].id == peers[i].id && a[j].id == peers[j].id);
    }
}

impl<S> Registry<S> {
    /// The live peers, in the order they joined.
    pub closed spec fn live(&self) -> Seq<PeerView> {
        self.peers@.map_values(|p: PeerSession<S>| p.view())
    }

    /// The streams of the live peers, in the same order.
    pub closed spec fn streams(&self) -> Seq<S> {
        self.peers@.map_values(|p: PeerSession<S>| p.stream)
    }

    /// The id that the next peer to join will get.
    pub closed spec fn next_id(&self) -> nat {
        self.next_id as nat
    }

    /// Each framer is well formed, and ids rise along the live set and stay below the next.
    pub closed spec fn wf(&self) -> bool {
        &&& forall|i: int| 0 <= i < self.peers@.len() ==> (#[trigger] self.peers@[i]).framer.wf()
        &&& ids_ordered(self.live(), self.next_id as nat)
    }

    pub fn new() -> (r: Self)
        ensures
            r.wf(),
            r.live() == Seq::<PeerView>::empty(),
            r.next_id() == 0,
    {
        let r = Registry { peers: Vec::new(), next_id: 0 };
        assert(r.live() =~= Seq::<PeerView>::empty());
        r
    }

    /// The number of live peers.
    pub fn len(&self) -> (r: usize)
        ensures
            r == self.live().len(),
            r == self.streams().len(),
    {
        self.peers.len()
    }

    /// The stream of the live peer at position `i`.
    pub fn stream(&self, i: usize) -> (r: &S)
        requires
            i < self.live().len(),
        ensures
            *r == self.streams()[i as int],
    {
        &self.peers[i].stream
    }

    /// How many bytes the next read from the peer at position `i` may deliver.
    pub fn wanted(&self, i: usize) -> (r: usize)
        requires
            self.wf(),
            i < self.live().len(),
        ensures
            r as int == wanted_model(self.live()[i as int].framer),
            r > 0,
    {
        self.peers[i].framer.wanted()
    }
}

impl<S> Registry<S> {
    /// Adds a peer that has just connected, with a fresh framer and a record at the origin,
    /// and returns its id; `None`, and the stream dropped, once every id has been given out.
    pub fn join(&mut self, stream: S) -> (r: Option<u64>)
        requires
            old(self).wf(),
        ensures
            final(self).wf(),
            old(self).next_id() < u64::MAX ==> {
                &&& r == Some(old(self).next_id() as u64)
                &&& final(self).live() == old(self).live().push(
                    PeerView { id: old(self).next_id(), framer: idle_model(), state: Head::origin() },
                )
                &&& final(self).streams() == old(self).streams().push(stream)
                &&& final(self).next_id() == old(self).next_id() + 1
            },
            old(self).next_id() == u64::MAX ==> {
                &&& r is None
                &&& final(self).live() == old(self).live()
                &&& final(self).streams() == old(self).streams()
                &&& final(self).next_id() == old(self).next_id()
            },
            forall|id: nat|
                departed(old(self).live(), old(self).next_id(), id) ==> #[trigger] departed(
                    final(self).live(),
                    final(self).next_id(),
                    id,
                ),
    {
        if self.next_id == u64::MAX {
            return None;
        }
        let id = self.next_id;
        let ghost before = self.live();
        self.peers.push(
            PeerSession { stream, id, framer: AsyncBufferedReceiver::new(), last_state: Head::default() },
        );
        self.next_id = id + 1;
        assert(self.live() =~= before.push(
            PeerView { id: id as nat, framer: idle_model(), state: Head::origin() },
        ));
        assert(self.streams() =~= old(self).streams().push(stream));
        assert forall|id2: nat| departed(before, id as nat, id2) implies #[trigger] departed(
            self.live(),
            self.next_id(),
            id2,
        ) by {
            assert forall|i: int| 0 <= i < self.live().len() implies #[trigger] self.live()[i].id != id2 by {
                if i < before.len() {
                    assert(self.live()[i] == before[i]);
                }
            }
        }
        Some(id)
    }

    /// The records of the live peers, in their order.
    pub fn aggregate(&self) -> (r: Vec<Head>)
        ensures
            r@ == states(self.live()),
    {
        let mut r: Vec<Head> = Vec::with_capacity(self.peers.len());
        let mut n: usize = 0;
        while n < self.peers.len()
            invariant
                n <= self.peers@.len(),
                r@ == states(self.live()).take(n as int),
            decreases self.peers@.len() - n,
        {
            r.push(self.peers[n].last_state);
            n += 1;
            assert(r@ =~= states(self.live()).take(n as int));
        }
        assert(states(self.live()).take(n as int) =~= states(self.live()));
        r
    }
}

impl<S> Registry<S> {
    /// Takes the outcome of this tick's read from every live peer, in the order of the live
    /// set, and decides what the tick does.
    ///
    /// Each peer's framer takes its read. A peer leaves when it hung up or its read failed, when
    /// a header
    /// arrived in pieces, or when its message is not a record; a peer whose message is a
    /// record gets that record. When no record arrived the tick is idle; else the result is
    /// the message that carries the aggregate of the records of the peers still live, to be
    /// written to each of them. That message fails only when it is too long for its header.
    pub fn receive(&mut self, reads: Vec<Received>) -> (r: Result<TickAction, RelayError>)
        requires
            old(self).wf(),
            reads@.len() == old(self).live().len(),
            forall|i: int|
                0 <= i < reads@.len() ==> fits_in(
                    (#[trigger] reads@[i])@,
                    wanted_model(old(self).live()[i].framer),
                ),
        ensures
            final(self).wf(),
            final(self).live() == survivors(old(self).live(), read_views(reads@)),
            final(self).streams() == pick(
                old(self).streams(),
                read_mask(old(self).live(), read_views(reads@)),
            ),
            final(self).next_id() == old(self).next_id(),
            r matches Ok(TickAction::Idle) <==> !any_update(old(self).live(), read_views(reads@)),
            r is Err <==> any_update(old(self).live(), read_views(reads@)) && aggregate_bytes(
                states(final(self).live()),
            ).len() > u32::MAX,
            r matches Err(e) ==> e == RelayError::AggregateTooLarge,
            r matches Ok(TickAction::Broadcast(m)) ==> m@ == broadcast_bytes(final(self).live()),
            forall|id: nat|
                departed(old(self).live(), old(self).next_id(), id) ==> #[trigger] departed(
                    final(self).live(),
                    final(self).next_id(),
                    id,
                ),
    {
        let ghost live0 = self.live();
        let ghost streams0 = self.streams();
        let ghost rv = read_views(reads@);
        let ghost mask = read_mask(live0, rv);
        let ghost adv = advanced(live0, rv);
        let mut pending: Vec<PeerSession<S>> = Vec::new();
        std::mem::swap(&mut pending, &mut self.peers);
        let mut reads = reads;
        let mut updated = false;
        let ghost mut k: int = 0;
        assert(self.live() =~= pick(adv.take(0), mask));
        assert(self.streams() =~= pick(streams0.take(0), mask));
        while pending.len() > 0
            invariant
                0 <= k <= live0.len(),
                live0.len() == streams0.len() == rv.len() == mask.len() == adv.len(),
                pending@.len() == live0.len() - k,
                reads@.len() == pending@.len(),
                forall|i: int|
                    0 <= i < pending@.len() ==> {
                        &&& (#[trigger] pending@[i]).view() == live0[k + i]
                        &&& pending@[i].stream == streams0[k + i]
                        &&& pending@[i].framer.wf()
                    },
                forall|i: int| 0 <= i < reads@.len() ==> (#[trigger] reads@[i])@ == rv[k + i],
                forall|i: int|
                    0 <= i < rv.len() ==> fits_in(#[trigger] rv[i], wanted_model(live0[i].framer)),
                mask == read_mask(live0, rv),
                adv == advanced(live0, rv),
                self.live() == pick(adv.take(k), mask),
                self.streams() == pick(streams0.take(k), mask),
                forall|i: int| 0 <= i < self.peers@.len() ==> (#[trigger] self.peers@[i]).framer.wf(),
                updated == exists|i: int| 0 <= i < k && #[trigger] updated_by(live0[i], rv[i]),
                self.next_id == old(self).next_id,
            decreases pending@.len(),
        {
            let ghost pending_before = pending@;
            let ghost reads_before = reads@;
            let mut p = pending.remove(0);
            let got = reads.remove(0);
            assert(p.view() == live0[k]);
            assert(p.stream == streams0[k]);
            assert(got@ == rv[k]);
            let ghost before = self.peers@;
            let ghost updated_before = updated;
            let st = p.framer.read(got);
            match st {
                ReadState::Incomplete => {
                    self.peers.push(p);
                },
                ReadState::Complete(body) => {
                    match decode_head(body.as_slice()) {
                        Some(h) => {
                            p.last_state = h;
                            self.peers.push(p);
                            updated = true;
                        },
                        None => {},
                    }
                },
                _ => {},
            }
            proof {
                k = k + 1;
                assert(adv.take(k).drop_last() =~= adv.take(k - 1));
                assert(streams0.take(k).drop_last() =~= streams0.take(k - 1));
                assert(adv[k - 1] == advance(live0[k - 1], rv[k - 1]));
                assert(mask[k - 1] == stays(live0[k - 1], rv[k - 1]));
                if mask[k - 1] {
                    assert(self.peers@ == before.push(p));
                    assert(self.live() =~= pick(adv.take(k), mask));
                    assert(self.streams() =~= pick(streams0.take(k), mask));
                } else {
                    assert(self.peers@ == before);
                    assert(self.live() =~= pick(adv.take(k), mask));
                    assert(self.streams() =~= pick(streams0.take(k), mask));
                }
                if updated_by(live0[k - 1], rv[k - 1]) {
                    assert(updated);
                } else {
                    assert(updated == updated_before);
                }
                assert forall|i: int| 0 <= i < pending@.len() implies {
                    &&& (#[trigger] pending@[i]).view() == live0[k + i]
                    &&& pending@[i].stream == streams0[k + i]
                    &&& pending@[i].framer.wf()
                } by {
                    assert(pending@[i] == pending_before[i + 1]);
                }
                assert forall|i: int| 0 <= i < reads@.len() implies (#[trigger] reads@[i])@ == rv[k
                    + i] by {
                    assert(reads@[i] == reads_before[i + 1]);
                }
            }
        }
        proof {
            assert(adv.take(k) =~= adv);
            assert(streams0.take(k) =~= streams0);
            lemma_advanced_ids(live0, rv, self.next_id as nat);
            lemma_pick_ids(adv, mask, self.next_id as nat);
            assert forall|id: nat| departed(live0, self.next_id as nat, id) implies #[trigger] departed(
                self.live(),
                self.next_id(),
                id,
            ) by {
                if has_id(self.live(), id) {
                    let j = choose|j: int| 0 <= j < self.live().len() && #[trigger] self.live()[j].id == id;
                    assert(has_id(adv, self.live()[j].id));
                    let i = choose|i: int| 0 <= i < adv.len() && #[trigger] adv[i].id == id;
                    assert(live0[i].id == id);
                }
            }
        }
        if !updated {
            return Ok(TickAction::Idle);
        }
        let hs = self.aggregate();
        let body = encode_aggregate(&hs);
        match serialize_msg(body.as_slice()) {
            Some(m) => Ok(TickAction::Broadcast(m)),
            None => Err(RelayError::AggregateTooLarge),
        }
    }
}

/// The position of the first fatal write, if any.
pub open spec fn first_fatal(writes: Seq<WriteOutcome>, i: int) -> bool {
    &&& 0 <= i < writes.len()
    &&& writes[i] is Fatal
    &&& forall|j: int| 0 <= j < i ==> !(#[trigger] writes[j] is Fatal)
}

impl<S> Registry<S> {
    /// Takes the outcome of writing the tick's aggregate to every live peer, in the order of
    /// the live set.
    ///
    /// When a write failed for a reason other than the peer leaving, the result names the
    /// first such peer and the live set is left as it was: the relay cannot go on. Else the
    /// peers whose connection was reset, aborted or broken leave, and the others stay,
    /// whether their write went through or the stream could take nothing.
    pub fn settle(&mut self, writes: Vec<WriteOutcome>) -> (r: Result<(), RelayError>)
        requires
            old(self).wf(),
            writes@.len() == old(self).live().len(),
        ensures
            final(self).wf(),
            final(self).next_id() == old(self).next_id(),
            r is Err <==> exists|i: int| 0 <= i < writes@.len() && #[trigger] writes@[i] is Fatal,
            r matches Err(e) ==> (e matches RelayError::WriteFailed(i) && first_fatal(
                writes@,
                i as int,
            )),
            r is Err ==> final(self).live() == old(self).live() && final(self).streams() == old(
                self,
            ).streams(),
            r is Ok ==> final(self).live() == pick(old(self).live(), write_mask(writes@)),
            r is Ok ==> final(self).streams() == pick(old(self).streams(), write_mask(writes@)),
            forall|id: nat|
                departed(old(self).live(), old(self).next_id(), id) ==> #[trigger] departed(
                    final(self).live(),
                    final(self).next_id(),
                    id,
                ),
    {
        let mut i: usize = 0;
        while i < writes.len()
            invariant
                i <= writes@.len(),
                self.wf(),
                forall|j: int| 0 <= j < i ==> !(#[trigger] writes@[j] is Fatal),
            decreases writes@.len() - i,
        {
            if writes[i] == WriteOutcome::Fatal {
                return Err(RelayError::WriteFailed(i));
            }
            i += 1;
        }
        let ghost live0 = self.live();
        let ghost streams0 = self.streams();
        let ghost mask = write_mask(writes@);
        let mut pending: Vec<PeerSession<S>> = Vec::new();
        std::mem::swap(&mut pending, &mut self.peers);
        let mut writes = writes;
        let ghost mut k: int = 0;
        assert(self.live() =~= pick(live0.take(0), mask));
        assert(self.streams() =~= pick(streams0.take(0), mask));
        while pending.len() > 0
            invariant
                0 <= k <= live0.len(),
                live0.len() == streams0.len() == mask.len(),
                pending@.len() == live0.len() - k,
                writes@.len() == pending@.len(),
                forall|i: int|
                    0 <= i < pending@.len() ==> {
                        &&& (#[trigger] pending@[i]).view() == live0[k + i]
                        &&& pending@[i].stream == streams0[k + i]
                        &&& pending@[i].framer.wf()
                    },
                forall|i: int| 0 <= i < writes@.len() ==> mask[k + i] == !(#[trigger] writes@[i] is PeerGone),
                self.live() == pick(live0.take(k), mask),
                self.streams() == pick(streams0.take(k), mask),
                forall|i: int| 0 <= i < self.peers@.len() ==> (#[trigger] self.peers@[i]).framer.wf(),
                self.next_id == old(self).next_id,
            decreases pending@.len(),
        {
            let ghost pending_before = pending@;
            let ghost writes_before = writes@;
            let p = pending.remove(0);
            let w = writes.remove(0);
            let ghost before = self.peers@;
            assert(mask[k] == !(w is PeerGone));
            if w != WriteOutcome::PeerGone {
                self.peers.push(p);
            }
            proof {
                k = k + 1;
                assert(live0.take(k).drop_last() =~= live0.take(k - 1));
                assert(streams0.take(k).drop_last() =~= streams0.take(k - 1));
                if mask[k - 1] {
                    assert(self.peers@ == before.push(p));
                } else {
                    assert(self.peers@ == before);
                }
                assert(self.live() =~= pick(live0.take(k), mask));
                assert(self.streams() =~= pick(streams0.take(k), mask));
                assert forall|i: int| 0 <= i < pending@.len() implies {
                    &&& (#[trigger] pending@[i]).view() == live0[k + i]
                    &&& pending@[i].stream == streams0[k + i]
                    &&& pending@[i].framer.wf()
                } by {
                    assert(pending@[i] == pending_before[i + 1]);
                }
                assert forall|i: int| 0 <= i < writes@.len() implies mask[k + i] == !(
                #[trigger] writes@[i] is PeerGone) by {
                    assert(writes@[i] == writes_before[i + 1]);
                }
            }
        }
        proof {
            assert(live0.take(k) =~= live0);
            assert(streams0.take(k) =~= streams0);
            lemma_pick_ids(live0, mask, self.next_id as nat);
            assert forall|id: nat| departed(live0, self.next_id as nat, id) implies #[trigger] departed(
                self.live(),
                self.next_id(),
                id,
            ) by {
                if has_id(self.live(), id) {
                    let j = choose|j: int| 0 <= j < self.live().len() && #[trigger] self.live()[j].id == id;
                    assert(has_id(live0, self.live()[j].id));
                }
            }
        }
        Ok(())
    }
}

/// A peer whose read in a tick shows that it hung up, or whose read failed, has departed once
/// the tick's reads are taken: it is not among the live peers whose records the tick's aggregate carries. The
/// reads of the other peers are handled as usual, and no error arises from the departure.
/// A departed peer stays departed: `join`, `receive` and `settle` each keep every departed
/// peer departed.
pub proof fn lemma_hung_up_peer_departs(
    peers: Seq<PeerView>,
    reads: Seq<Arrival>,
    next_id: nat,
    i: int,
)
    requires
        ids_ordered(peers, next_id),
        reads.len() == peers.len(),
        0 <= i < peers.len(),
        reads[i] == Arrival::Bytes(Seq::<u8>::empty()) || reads[i] is Failed,
    ensures
        departed(survivors(peers, reads), next_id, peers[i].id),
{
    let adv = advanced(peers, reads);
    let mask = read_mask(peers, reads);
    lemma_advanced_ids(peers, reads, next_id);
    lemma_pick_ids(adv, mask, next_id);
    assert(!mask[i]);
    let live = survivors(peers, reads);
    if has_id(live, peers[i].id) {
        let j = choose|j: int| 0 <= j < live.len() && #[trigger] live[j].id == peers[i].id;
        assert(live[j].id != adv[i].id);
    }
}

impl<S> Registry<S> {
    /// The ids of a well-formed registry rise along its live set and stay below the next id.
    pub proof fn lemma_wf_ids_ordered(&self)
        requires
            self.wf(),
        ensures
            ids_ordered(self.live(), self.next_id()),
    {
    }
}

/// A peer whose write of the tick's aggregate finds its connection gone has departed once
/// the writes are settled, when no write failed otherwise; every other peer stays, in its
/// order. The aggregate written in that tick was built before any write, from every peer
/// then live, the departing one included.
pub proof fn lemma_gone_peer_departs(peers: Seq<PeerView>, writes: Seq<WriteOutcome>, next_id: nat, i: int)
    requires
        ids_ordered(peers, next_id),
        writes.len() == peers.len(),
        0 <= i < peers.len(),
        writes[i] is PeerGone,
    ensures
        departed(pick(peers, write_mask(writes)), next_id, peers[i].id),
        forall|j: int|
            0 <= j < peers.len() && !(#[trigger] writes[j] is PeerGone) ==> has_id(
                pick(peers, write_mask(writes)),
                peers[j].id,
            ),
{
    let mask = write_mask(writes);
    lemma_pick_ids(peers, mask, next_id);
    lemma_pick_keeps(peers, mask);
    let live = pick(peers, mask);
    assert(!mask[i]);
    if has_id(live, peers[i].id) {
        let j = choose|j: int| 0 <= j < live.len() && #[trigger] live[j].id == peers[i].id;
        assert(live[j].id != peers[i].id);
    }
    assert forall|j: int|
        0 <= j < peers.len() && !(#[trigger] writes[j] is PeerGone) implies has_id(live, peers[j].id) by {
        assert(mask[j]);
        let k = choose|k: int| 0 <= k < live.len() && live[k] == peers[j];
        assert(live[k].id == peers[j].id);
    }
}

proof fn lemma_pick_keeps<A>(s: Seq<A>, keep: Seq<bool>)
    requires
        keep.len() >= s.len(),
    ensures
        forall|i: int|
            0 <= i < s.len() && #[trigger] keep[i] ==> exists|k: int|
                0 <= k < pick(s, keep).len() && pick(s, keep)[k] == s[i],
    decreases s.len(),
{
    if s.len() > 0 {
        let init = s.drop_last();
        lemma_pick_keeps(init, keep);
        let rest = pick(init, keep);
        let last = s.len() - 1;
        assert(pick(s, keep) == if keep[last] { rest.push(s.last()) } else { rest });
        assert forall|i: int|
            0 <= i < s.len() && #[trigger] keep[i] implies exists|k: int|
                0 <= k < pick(s, keep).len() && pick(s, keep)[k] == s[i] by {
            if i < last {
                assert(init[i] == s[i]);
                let k = choose|k: int| 0 <= k < rest.len() && rest[k] == init[i];
                assert(pick(s, keep)[k] == s[i]);
            } else {
                assert(pick(s, keep)[rest.len() as int] == s[i]);
            }
        }
    }
}

} // verus!
