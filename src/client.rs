//! A peer's side of the relay: what it sends of its own head, and how it keeps the latest
//! aggregate of every peer's head.
//!
//! The client never touches the connection itself. To send, the caller writes
//! `head_message` of its head. To poll, the caller reads repeatedly, at most `wanted()`
//! bytes each time, handing each outcome to `poll` for as long as `poll` says to read again,
//! and then calls `update_heads`. Reading stops only when the stream has nothing more ready,
//! so every message that has arrived is taken in and the records kept are the latest.
use vstd::prelude::*;
use crate::framer::{
    concat, feed, fits_in, header_of, lemma_split_body_same_message, step, wanted_model, Arrival,
    AsyncBufferedReceiver, FramerModel, ReadState, Received, Signal, idle_model,
};
use crate::registry::{broadcast_bytes, states, PeerView};
use crate::wire::{
    aggregate_bytes, aggregate_fits, aggregate_of, decode_aggregate, lemma_aggregate_len,
    lemma_aggregate_round_trip, Head,
};

verus! {

/// What the client knows.
pub struct ClientView {
    pub framer: FramerModel,
    /// The records of the last aggregate that could be read
    pub heads: Seq<Head>,
    /// The last message completed since the last update
    pub latest: Option<Seq<u8>>,
}

/// What the caller does after handing a read to `Client::poll`.
#[derive(Clone, Copy, Debug, PartialEq, Eq, Structural)]
pub enum PollState {
    /// The read delivered bytes and the stream is in order: read again
    ReadAgain,
    /// The stream had no data ready: everything that has arrived is taken in
    Drained,
    /// The relay hung up, or the read failed
    Disconnected,
    /// A header arrived in pieces: the stream can no longer be split into messages, and the
    /// connection should be given up
    Invalid,
}

/// What `Client::poll` reports for a read and what the framer made of it.
pub open spec fn poll_state(got: Arrival, signal: Signal) -> PollState {
    match got {
        Arrival::WouldBlock => PollState::Drained,
        _ => match signal {
            Signal::Disconnected => PollState::Disconnected,
            Signal::Invalid => PollState::Invalid,
            _ => PollState::ReadAgain,
        },
    }
}

/// Failures of a client.
#[derive(Debug, PartialEq, Eq, Structural)]
pub enum ClientError {
    /// The latest message is too short for the records it announces
    MalformedAggregate,
}

/// Receives the relay's aggregates and keeps the most recent one.
pub struct Client {
    msg_buf: AsyncBufferedReceiver,
    heads: Vec<Head>,
    latest: Option<Vec<u8>>,
}

impl View for Client {
    type V = ClientView;

    closed spec fn view(&self) -> ClientView {
        ClientView {
            framer: self.msg_buf@,
            heads: self.heads@,
            latest: match &self.latest {
                Some(m) => Some(m@),
                None => None,
            },
        }
    }
}

impl Client {
    pub closed spec fn wf(&self) -> bool {
        self.msg_buf.wf()
    }

    pub fn new() -> (r: Client)
        ensures
            r.wf(),
            r@ == (ClientView { framer: idle_model(), heads: seq![], latest: None }),
    {
        Client { msg_buf: AsyncBufferedReceiver::new(), heads: Vec::new(), latest: None }
    }

    /// How many bytes the next read may deliver.
    pub fn wanted(&self) -> (r: usize)
        requires
            self.wf(),
        ensures
            r as int == wanted_model(self@.framer),
            r > 0,
    {
        self.msg_buf.wanted()
    }

    /// Takes the outcome of one read of at most `wanted()` bytes, and says whether to read
    /// again. A read that completes a message makes it the latest, superseding any message
    /// completed before it.
    pub fn poll(&mut self, got: Received) -> (r: PollState)
        requires
            old(self).wf(),
            fits_in(got@, wanted_model(old(self)@.framer)),
        ensures
            final(self).wf(),
            final(self)@.framer == step(old(self)@.framer, got@).0,
            final(self)@.heads == old(self)@.heads,
            r == poll_state(got@, step(old(self)@.framer, got@).1),
            step(old(self)@.framer, got@).1 matches Signal::Complete(m) ==> final(self)@.latest
                == Some(m),
            !(step(old(self)@.framer, got@).1 is Complete) ==> final(self)@.latest == old(
                self,
            )@.latest,
    {
        let would_block = match &got {
            Received::WouldBlock => true,
            _ => false,
        };
        match self.msg_buf.read(got) {
            ReadState::Complete(m) => {
                self.latest = Some(m);
                PollState::ReadAgain
            },
            ReadState::Incomplete => if would_block {
                PollState::Drained
            } else {
                PollState::ReadAgain
            },
            ReadState::Disconnected => PollState::Disconnected,
            ReadState::Invalid => PollState::Invalid,
        }
    }

    /// Reads the records of the latest message completed since the last update, if any, and
    /// keeps them; with no such message the records stay those of the last aggregate read.
    /// Either way the latest message is used up.
    pub fn update_heads(&mut self) -> (r: Result<(), ClientError>)
        requires
            old(self).wf(),
        ensures
            final(self).wf(),
            final(self)@.framer == old(self)@.framer,
            final(self)@.latest is None,
            match old(self)@.latest {
                None => r is Ok && final(self)@.heads == old(self)@.heads,
                Some(m) => if aggregate_fits(m) {
                    r is Ok && final(self)@.heads == aggregate_of(m)
                } else {
                    r == Err::<(), ClientError>(ClientError::MalformedAggregate)
                        && final(self)@.heads == old(self)@.heads
                },
            },
    {
        let mut latest: Option<Vec<u8>> = None;
        std::mem::swap(&mut latest, &mut self.latest);
        match latest {
            None => Ok(()),
            Some(m) => match decode_aggregate(m.as_slice()) {
                Some(hs) => {
                    self.heads = hs;
                    Ok(())
                },
                None => Err(ClientError::MalformedAggregate),
            },
        }
    }

    /// The records of the last aggregate read.
    pub fn heads(&self) -> (r: &Vec<Head>)
        ensures
            r@ == self@.heads,
    {
        &self.heads
    }
}

/// A peer that reads the relay's broadcast, the header in one read and the body split over
/// any reads, completes the aggregate with the last read and finds in it the records of the
/// relay's live peers, in their order.
pub proof fn lemma_broadcast_reaches_peer(peers: Seq<PeerView>, chunks: Seq<Seq<u8>>)
    requires
        aggregate_bytes(states(peers)).len() <= u32::MAX,
        concat(chunks) == aggregate_bytes(states(peers)),
        forall|i: int| 0 <= i < chunks.len() ==> #[trigger] chunks[i].len() > 0,
    ensures
        ({
            let body = aggregate_bytes(states(peers));
            let (m, signals) = feed(
                idle_model(),
                seq![broadcast_bytes(peers).take(4)] + chunks,
            );
            &&& broadcast_bytes(peers) == broadcast_bytes(peers).take(4) + concat(chunks)
            &&& m == idle_model()
            &&& signals.last() == Signal::Complete(body)
            &&& aggregate_fits(body)
            &&& aggregate_of(body) == states(peers)
        }),
{
    let body = aggregate_bytes(states(peers));
    let msg = broadcast_bytes(peers);
    lemma_aggregate_len(states(peers));
    assert(msg == header_of(body) + body);
    assert(header_of(body).len() == 4);
    assert(msg.take(4) =~= header_of(body));
    lemma_split_body_same_message(body, chunks);
    lemma_aggregate_round_trip(states(peers));
}

} // verus!
