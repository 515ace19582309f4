use cubehead::framer::{AsyncBufferedReceiver, ReadState, Received};
use cubehead::wire::serialize_msg;

fn bytes(b: &[u8]) -> Received {
    Received::Bytes(b.to_vec())
}

/// Reads from `arrived` as a non-blocking stream would: at most `wanted()` bytes, or
/// "would block" when nothing is there.
fn read_from(framer: &mut AsyncBufferedReceiver, arrived: &mut Vec<u8>) -> ReadState {
    if arrived.is_empty() {
        return framer.read(Received::WouldBlock);
    }
    let n = framer.wanted().min(arrived.len());
    let chunk: Vec<u8> = arrived.drain(..n).collect();
    framer.read(Received::Bytes(chunk))
}

fn complete(st: ReadState) -> Vec<u8> {
    match st {
        ReadState::Complete(b) => b,
        _ => panic!("expected a complete message"),
    }
}

fn is_incomplete(st: &ReadState) -> bool {
    matches!(st, ReadState::Incomplete)
}

#[test]
fn new_framer_wants_a_header() {
    let f = AsyncBufferedReceiver::new();
    assert_eq!(f.wanted(), 4);
}

#[test]
fn header_then_short_body_then_rest() {
    let mut f = AsyncBufferedReceiver::new();
    let body: Vec<u8> = (1..=10).collect();
    let mut arrived = vec![10, 0, 0, 0];
    arrived.extend_from_slice(&body[..6]);
    // first call takes the header, the second the six body bytes that are there
    assert!(is_incomplete(&read_from(&mut f, &mut arrived)));
    assert_eq!(f.wanted(), 10);
    assert!(is_incomplete(&read_from(&mut f, &mut arrived)));
    assert_eq!(f.wanted(), 4);
    // nothing more has arrived yet
    assert!(is_incomplete(&read_from(&mut f, &mut arrived)));
    arrived.extend_from_slice(&body[6..]);
    assert_eq!(complete(read_from(&mut f, &mut arrived)), body);
    assert_eq!(f.wanted(), 4);
}

#[test]
fn body_one_byte_at_a_time_matches_whole_body() {
    let body: Vec<u8> = vec![9, 8, 7, 6, 5, 4, 3, 2, 1, 0, 255];
    let msg = serialize_msg(&body).unwrap();

    let mut whole = AsyncBufferedReceiver::new();
    assert!(is_incomplete(&whole.read(bytes(&msg[..4]))));
    let at_once = complete(whole.read(bytes(&msg[4..])));

    let mut split = AsyncBufferedReceiver::new();
    assert!(is_incomplete(&split.read(bytes(&msg[..4]))));
    let mut last = ReadState::Incomplete;
    for (n, b) in msg[4..].iter().enumerate() {
        last = split.read(bytes(&[*b]));
        if n + 1 < body.len() {
            assert!(is_incomplete(&last));
        }
    }
    assert_eq!(complete(last), at_once);
    assert_eq!(at_once, body);
}

#[test]
fn empty_read_means_disconnected() {
    let mut f = AsyncBufferedReceiver::new();
    assert!(matches!(f.read(bytes(&[])), ReadState::Disconnected));
    let mut g = AsyncBufferedReceiver::new();
    assert!(is_incomplete(&g.read(bytes(&[3, 0, 0, 0]))));
    assert!(matches!(g.read(bytes(&[])), ReadState::Disconnected));
}

#[test]
fn would_block_is_incomplete_and_changes_nothing() {
    let mut f = AsyncBufferedReceiver::new();
    assert!(is_incomplete(&f.read(Received::WouldBlock)));
    assert_eq!(f.wanted(), 4);
    assert!(is_incomplete(&f.read(bytes(&[2, 0, 0, 0]))));
    assert!(is_incomplete(&f.read(Received::WouldBlock)));
    assert_eq!(f.wanted(), 2);
    assert_eq!(complete(f.read(bytes(&[42, 43]))), vec![42, 43]);
}

#[test]
fn partial_header_is_invalid() {
    let mut f = AsyncBufferedReceiver::new();
    assert!(matches!(f.read(bytes(&[5, 0])), ReadState::Invalid));
    assert_eq!(f.wanted(), 4);
}

#[test]
fn zero_length_message_completes_at_once() {
    let mut f = AsyncBufferedReceiver::new();
    assert_eq!(complete(f.read(bytes(&[0, 0, 0, 0]))), Vec::<u8>::new());
    assert_eq!(f.wanted(), 4);
}

#[test]
fn header_is_little_endian() {
    let mut f = AsyncBufferedReceiver::new();
    assert!(is_incomplete(&f.read(bytes(&[0x04, 0x01, 0, 0]))));
    assert_eq!(f.wanted(), 260);
}

#[test]
fn two_messages_back_to_back() {
    let mut arrived = serialize_msg(&[1, 2, 3]).unwrap();
    arrived.extend(serialize_msg(&[4]).unwrap());
    let mut f = AsyncBufferedReceiver::new();
    assert!(is_incomplete(&read_from(&mut f, &mut arrived)));
    assert_eq!(complete(read_from(&mut f, &mut arrived)), vec![1, 2, 3]);
    assert!(is_incomplete(&read_from(&mut f, &mut arrived)));
    assert_eq!(complete(read_from(&mut f, &mut arrived)), vec![4]);
    assert!(arrived.is_empty());
}

#[test]
fn failed_read_ends_the_session() {
    let mut f = AsyncBufferedReceiver::new();
    assert!(is_incomplete(&f.read(bytes(&[3, 0, 0, 0]))));
    assert!(matches!(f.read(Received::Failed), ReadState::Disconnected));
}

#[test]
fn stream_of_messages_in_small_pieces() {
    let bodies: Vec<Vec<u8>> = vec![vec![1, 2, 3, 4, 5], vec![], vec![6], vec![7, 8, 9]];
    // each header in one read, each body a byte at a time, with reads that would block between
    let mut reads: Vec<Vec<u8>> = Vec::new();
    for b in &bodies {
        let msg = serialize_msg(b).unwrap();
        reads.push(msg[..4].to_vec());
        for byte in &msg[4..] {
            reads.push(vec![*byte]);
        }
    }
    let mut f = AsyncBufferedReceiver::new();
    let mut got = Vec::new();
    for r in reads {
        assert!(is_incomplete(&f.read(Received::WouldBlock)));
        match f.read(Received::Bytes(r)) {
            ReadState::Complete(b) => got.push(b),
            ReadState::Incomplete => {}
            _ => panic!("unexpected outcome"),
        }
    }
    assert_eq!(got, bodies);
    assert_eq!(f.wanted(), 4);
}
