//! The binary layout of head records, of aggregates of them, and of framed messages.
//!
//! A record is seven `u32` words, each the bit pattern of one single-precision float; bincode
//! writes them as seven little-endian words. An aggregate is bincode's layout of a list of
//! records: the count as a little-endian `u64`, then the records.
use vstd::prelude::*;
use crate::bytes::{
    le_u32_bytes, le_u32_value, le_u64_bytes, le_u64_value, lemma_le_u64_round_trip,
    lemma_words_bytes_len, lemma_words_round_trip, words_bytes, words_of, write_le_u32,
};

verus! {

/// The number of words in a record.
pub const RECORD_WORDS: usize = 7;

/// The number of bytes in an encoded record.
pub const RECORD_LEN: usize = 28;

/// The number of bytes in the count that starts an encoded aggregate.
pub const COUNT_LEN: usize = 8;

/// The bit pattern of the float 1.0.
pub const ONE_BITS: u32 = 0x3f80_0000;

/// The position and orientation of a user's head, each coordinate held as the bit pattern
/// of a single-precision float.
///
/// The user's head points in the negative Z direction. The orientation is a unit
/// quaternion `w + i x + j y + k z`; keeping it of unit length is the producer's concern.
#[derive(Clone, Copy, Debug, PartialEq, Eq, Structural)]
pub struct Head {
    pub x: u32,
    pub y: u32,
    pub z: u32,
    pub i: u32,
    pub j: u32,
    pub k: u32,
    pub w: u32,
}

impl Head {
    /// The record's words in the order they are written.
    pub open spec fn words(self) -> Seq<u32> {
        seq![self.x, self.y, self.z, self.i, self.j, self.k, self.w]
    }

    /// The record whose words are the first seven of `ws`.
    pub open spec fn from_words(ws: Seq<u32>) -> Head {
        Head { x: ws[0], y: ws[1], z: ws[2], i: ws[3], j: ws[4], k: ws[5], w: ws[6] }
    }

    /// A head at the origin, facing straight ahead.
    pub open spec fn origin() -> Head {
        Head { x: 0, y: 0, z: 0, i: 0, j: 0, k: 0, w: ONE_BITS }
    }

    fn to_words(&self) -> (r: [u32; 7])
        ensures
            r@ == self.words(),
    {
        let r = [self.x, self.y, self.z, self.i, self.j, self.k, self.w];
        assert(r@ =~= self.words());
        r
    }

    fn from_word_array(ws: &[u32; 7]) -> (r: Head)
        ensures
            r == Head::from_words(ws@),
    {
        Head { x: ws[0], y: ws[1], z: ws[2], i: ws[3], j: ws[4], k: ws[5], w: ws[6] }
    }
}

impl Default for Head {
    fn default() -> (r: Head)
        ensures
            r == Head::origin(),
    {
        Head { x: 0, y: 0, z: 0, i: 0, j: 0, k: 0, w: ONE_BITS }
    }
}

/// The bytes of a record.
pub open spec fn head_bytes(h: Head) -> Seq<u8> {
    words_bytes(h.words())
}

/// The record that the first bytes of `b` hold.
pub open spec fn head_of(b: Seq<u8>) -> Head {
    Head::from_words(words_of(b, RECORD_WORDS as nat))
}

/// The words of a sequence of records, one record after another.
pub open spec fn heads_words(hs: Seq<Head>) -> Seq<u32> {
    hs.map_values(|h: Head| h.words()).flatten()
}

/// The bytes of an aggregate: the count of records as a little-endian `u64`, then the
/// records.
pub open spec fn aggregate_bytes(hs: Seq<Head>) -> Seq<u8> {
    le_u64_bytes(hs.len()) + words_bytes(heads_words(hs))
}

/// What decoding `b` as one record gives: the record its first bytes hold, or nothing when
/// it is too short.
pub open spec fn decoded_head(b: Seq<u8>) -> Option<Head> {
    if b.len() >= RECORD_LEN {
        Some(head_of(b))
    } else {
        None
    }
}

/// The number of records that an encoded aggregate announces.
pub open spec fn aggregate_count(b: Seq<u8>) -> nat {
    le_u64_value(b)
}

/// Whether `b` is long enough for its count and the records it announces.
pub open spec fn aggregate_fits(b: Seq<u8>) -> bool {
    b.len() >= COUNT_LEN && COUNT_LEN + RECORD_LEN * aggregate_count(b) <= b.len()
}

/// The records of the encoded aggregate `b`.
pub open spec fn aggregate_of(b: Seq<u8>) -> Seq<Head> {
    Seq::new(aggregate_count(b), |n: int| head_of(b.subrange(COUNT_LEN + RECORD_LEN * n, b.len() as int)))
}

/// The bytes of a framed message: the body's length as a little-endian `u32`, then the body.
pub open spec fn message_bytes(body: Seq<u8>) -> Seq<u8> {
    le_u32_bytes(body.len() as u32) + body
}

#[verifier::external_type_specification]
#[verifier::external_body]
pub struct ExBincodeErrorKind(bincode::ErrorKind);

/// Relies on bincode::serialize: with its default options a fixed-size array of `u32` is
/// written as its words in little-endian order, with no length, into a growable buffer,
/// which cannot fail.
#[verifier::external_body]
fn bincode_words(ws: &[u32; 7]) -> (r: Result<Vec<u8>, Box<bincode::ErrorKind>>)
    ensures
        r is Ok,
        r matches Ok(b) ==> b@ == words_bytes(ws@),
{
    bincode::serialize(ws)
}

/// Relies on bincode::deserialize: a fixed-size array of `u32` is read as little-endian
/// words from the start of the bytes, bytes after them are allowed, and too few bytes are
/// an error.
#[verifier::external_body]
fn bincode_words_of(b: &[u8]) -> (r: Result<[u32; 7], Box<bincode::ErrorKind>>)
    ensures
        r is Ok <==> b@.len() >= RECORD_LEN,
        r matches Ok(ws) ==> ws@ == words_of(b@, RECORD_WORDS as nat),
{
    bincode::deserialize(b)
}

/// Relies on bincode::serialize: with its default options a `Vec` is written as its length,
/// a little-endian `u64`, then its items; each fixed-size array of `u32` as its words in
/// little-endian order. Writing into a growable buffer cannot fail.
#[verifier::external_body]
fn bincode_word_rows(rows: &Vec<[u32; 7]>) -> (r: Result<Vec<u8>, Box<bincode::ErrorKind>>)
    ensures
        r is Ok,
        r matches Ok(b) ==> b@ == le_u64_bytes(rows@.len()) + words_bytes(
            rows@.map_values(|ws: [u32; 7]| ws@).flatten(),
        ),
{
    bincode::serialize(rows)
}

/// Relies on bincode::deserialize: a `Vec` is read as a little-endian `u64` count, then
/// that many items, each fixed-size array of `u32` as little-endian words; bytes after
/// them are allowed, and too few bytes are an error.
#[verifier::external_body]
fn bincode_word_rows_of(b: &[u8]) -> (r: Result<Vec<[u32; 7]>, Box<bincode::ErrorKind>>)
    ensures
        r is Ok <==> (b@.len() >= COUNT_LEN && COUNT_LEN + RECORD_LEN * le_u64_value(b@)
            <= b@.len()),
        r matches Ok(rows) ==> rows@.len() == le_u64_value(b@) && forall|n: int|
            0 <= n < rows@.len() ==> (#[trigger] rows@[n])@ == words_of(
                b@.subrange(COUNT_LEN + RECORD_LEN * n, b@.len() as int),
                RECORD_WORDS as nat,
            ),
{
    bincode::deserialize(b)
}

/// The bytes of a record.
pub fn encode_head(h: &Head) -> (r: Vec<u8>)
    ensures
        r@ == head_bytes(*h),
{
    bincode_words(&h.to_words()).unwrap()
}

/// The record that the first bytes of `b` hold, or `None` when `b` is shorter than a record.
pub fn decode_head(b: &[u8]) -> (r: Option<Head>)
    ensures
        r == decoded_head(b@),
{
    match bincode_words_of(b) {
        Ok(ws) => Some(Head::from_word_array(&ws)),
        Err(_) => None,
    }
}

/// The bytes of an aggregate of `hs`.
pub fn encode_aggregate(hs: &Vec<Head>) -> (r: Vec<u8>)
    ensures
        r@ == aggregate_bytes(hs@),
{
    let mut rows: Vec<[u32; 7]> = Vec::with_capacity(hs.len());
    let mut n: usize = 0;
    while n < hs.len()
        invariant
            n <= hs@.len(),
            forall|m: int| 0 <= m < n ==> (#[trigger] rows@[m])@ == hs@[m].words(),
            rows@.len() == n,
        decreases hs@.len() - n,
    {
        rows.push(hs[n].to_words());
        n += 1;
    }
    assert(rows@.map_values(|ws: [u32; 7]| ws@) =~= hs@.map_values(|h: Head| h.words()));
    bincode_word_rows(&rows).unwrap()
}

/// The records of the encoded aggregate `b`, or `None` when `b` is too short for the count
/// of records it announces.
pub fn decode_aggregate(b: &[u8]) -> (r: Option<Vec<Head>>)
    ensures
        r is Some <==> aggregate_fits(b@),
        r matches Some(hs) ==> hs@ == aggregate_of(b@),
{
    let rows = match bincode_word_rows_of(b) {
        Ok(rows) => rows,
        Err(_) => {
            return None;
        },
    };
    let mut hs: Vec<Head> = Vec::with_capacity(rows.len());
    let mut n: usize = 0;
    while n < rows.len()
        invariant
            n <= rows@.len(),
            rows@.len() == aggregate_count(b@),
            forall|m: int|
                0 <= m < rows@.len() ==> (#[trigger] rows@[m])@ == words_of(
                    b@.subrange(COUNT_LEN + RECORD_LEN * m, b@.len() as int),
                    RECORD_WORDS as nat,
                ),
            hs@ == aggregate_of(b@).take(n as int),
        decreases rows@.len() - n,
    {
        hs.push(Head::from_word_array(&rows[n]));
        n += 1;
        assert(hs@ =~= aggregate_of(b@).take(n as int));
    }
    assert(aggregate_of(b@).take(n as int) =~= aggregate_of(b@));
    Some(hs)
}

/// Frames `body` as a message: its length as a little-endian `u32`, then the body; `None`
/// when the body is too long for the header.
pub fn serialize_msg(body: &[u8]) -> (r: Option<Vec<u8>>)
    ensures
        r is Some <==> body@.len() <= u32::MAX,
        r matches Some(m) ==> m@ == message_bytes(body@),
{
    if body.len() > 0xffff_ffff {
        return None;
    }
    let mut m = write_le_u32(body.len() as u32);
    let mut i: usize = 0;
    while i < body.len()
        invariant
            i <= body@.len() <= u32::MAX,
            m@ == le_u32_bytes(body@.len() as u32) + body@.take(i as int),
        decreases body@.len() - i,
    {
        m.push(body[i]);
        i += 1;
        assert(m@ =~= le_u32_bytes(body@.len() as u32) + body@.take(i as int));
    }
    assert(body@.take(i as int) =~= body@);
    Some(m)
}

/// The message that carries one record: what a peer sends of its own head.
pub fn head_message(h: &Head) -> (r: Vec<u8>)
    ensures
        r@ == message_bytes(head_bytes(*h)),
{
    let body = encode_head(h);
    proof {
        lemma_words_bytes_len(h.words());
    }
    serialize_msg(body.as_slice()).unwrap()
}

/// Decoding the bytes of a record, followed by any other bytes, gives the record back.
pub proof fn lemma_head_round_trip(h: Head, rest: Seq<u8>)
    ensures
        decoded_head(head_bytes(h) + rest) == Some(h),
{
    lemma_words_bytes_len(h.words());
    lemma_words_round_trip(h.words(), rest);
    assert(Head::from_words(h.words()) == h);
}

/// A record after `n` trips through its encoding and back, or `None` once a trip failed.
pub open spec fn round_trips(h: Head, n: nat) -> Option<Head>
    decreases n,
{
    if n == 0 {
        Some(h)
    } else {
        match round_trips(h, (n - 1) as nat) {
            Some(g) => decoded_head(head_bytes(g)),
            None => None,
        }
    }
}

/// However many times a record is encoded and decoded again, the result is the record,
/// bit for bit.
pub proof fn lemma_round_trips(h: Head, n: nat)
    ensures
        round_trips(h, n) == Some(h),
    decreases n,
{
    if n > 0 {
        lemma_round_trips(h, (n - 1) as nat);
        lemma_head_round_trip(h, seq![]);
        assert(head_bytes(h) + seq![] =~= head_bytes(h));
    }
}

proof fn lemma_words_bytes_append(a: Seq<u32>, b: Seq<u32>)
    ensures
        words_bytes(a + b) == words_bytes(a) + words_bytes(b),
    decreases b.len(),
{
    if b.len() == 0 {
        assert(a + b =~= a);
        assert(words_bytes(a) + words_bytes(b) =~= words_bytes(a));
    } else {
        lemma_words_bytes_append(a, b.drop_last());
        assert((a + b).drop_last() =~= a + b.drop_last());
        assert((a + b).last() == b.last());
        assert(words_bytes(a + b) =~= words_bytes(a) + words_bytes(b));
    }
}

proof fn lemma_heads_bytes_push(hs: Seq<Head>)
    requires
        hs.len() > 0,
    ensures
        words_bytes(heads_words(hs)) == words_bytes(heads_words(hs.drop_last())) + head_bytes(
            hs.last(),
        ),
{
    let rows = hs.map_values(|h: Head| h.words());
    rows.lemma_flatten_and_flatten_alt_are_equivalent();
    rows.drop_last().lemma_flatten_and_flatten_alt_are_equivalent();
    assert(rows.drop_last() =~= hs.drop_last().map_values(|h: Head| h.words()));
    assert(heads_words(hs) == heads_words(hs.drop_last()) + hs.last().words());
    lemma_words_bytes_append(heads_words(hs.drop_last()), hs.last().words());
}

proof fn lemma_heads_bytes_at(hs: Seq<Head>, n: int)
    requires
        0 <= n <= hs.len(),
    ensures
        words_bytes(heads_words(hs)).len() == RECORD_LEN * hs.len(),
        n < hs.len() ==> exists|rest: Seq<u8>|
            words_bytes(heads_words(hs)).subrange(
                RECORD_LEN * n,
                RECORD_LEN * hs.len(),
            ) == #[trigger] (head_bytes(hs[n]) + rest),
    decreases hs.len(),
{
    if hs.len() == 0 {
        assert(heads_words(hs) =~= Seq::<u32>::empty()) by {
            assert(hs.map_values(|h: Head| h.words()) =~= Seq::<Seq<u32>>::empty());
        }
    } else {
        let init = hs.drop_last();
        lemma_heads_bytes_push(hs);
        lemma_words_bytes_len(hs.last().words());
        let w = words_bytes(heads_words(hs));
        let wi = words_bytes(heads_words(init));
        let last = head_bytes(hs.last());
        if n < init.len() {
            lemma_heads_bytes_at(init, n);
            let rest = choose|rest: Seq<u8>|
                wi.subrange(RECORD_LEN * n, RECORD_LEN * init.len()) == #[trigger] (head_bytes(
                    init[n],
                ) + rest);
            assert(hs[n] == init[n]);
            assert(w == wi + last);
            assert(last.len() == RECORD_LEN);
            assert(w.subrange(RECORD_LEN * n, RECORD_LEN * hs.len()) =~= wi.subrange(
                RECORD_LEN * n,
                RECORD_LEN * init.len(),
            ) + last);
            assert(w.subrange(RECORD_LEN * n, RECORD_LEN * hs.len()) =~= head_bytes(hs[n]) + (rest
                + last));
        } else {
            lemma_heads_bytes_at(init, init.len() as int);
            if n < hs.len() {
                assert(w.subrange(RECORD_LEN * n, RECORD_LEN * hs.len()) =~= head_bytes(hs[n])
                    + Seq::<u8>::empty());
            }
        }
    }
}

/// An aggregate takes the count's eight bytes and a record's bytes for each record.
pub proof fn lemma_aggregate_len(hs: Seq<Head>)
    ensures
        aggregate_bytes(hs).len() == COUNT_LEN + RECORD_LEN * hs.len(),
{
    lemma_heads_bytes_at(hs, 0);
}

/// The records that the relay encodes as an aggregate are, in their order, the records that
/// a peer decodes from it.
pub proof fn lemma_aggregate_round_trip(hs: Seq<Head>)
    requires
        hs.len() <= u64::MAX,
    ensures
        aggregate_fits(aggregate_bytes(hs)),
        aggregate_of(aggregate_bytes(hs)) == hs,
{
    let b = aggregate_bytes(hs);
    let c = le_u64_bytes(hs.len());
    let w = words_bytes(heads_words(hs));
    lemma_le_u64_round_trip(hs.len());
    lemma_heads_bytes_at(hs, 0);
    assert(c.len() == 8);
    assert(b.subrange(4, 8) =~= c.subrange(4, 8));
    assert(le_u32_value(b) == le_u32_value(c));
    assert(aggregate_count(b) == hs.len());
    assert forall|n: int| 0 <= n < hs.len() implies #[trigger] aggregate_of(b)[n] == hs[n] by {
        lemma_heads_bytes_at(hs, n);
        let rest = choose|rest: Seq<u8>|
            w.subrange(RECORD_LEN * n, RECORD_LEN * hs.len()) == #[trigger] (head_bytes(hs[n])
                + rest);
        assert(b.subrange(COUNT_LEN + RECORD_LEN * n, b.len() as int) =~= w.subrange(
            RECORD_LEN * n,
            RECORD_LEN * hs.len(),
        ));
        lemma_head_round_trip(hs[n], rest);
    }
    assert(aggregate_of(b) =~= hs);
}

} // verus!
