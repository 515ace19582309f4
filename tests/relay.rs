use cubehead::framer::Received;
use cubehead::registry::{Registry, RelayError, TickAction, WriteOutcome};
use cubehead::wire::{decode_aggregate, encode_head, head_message, Head};

fn head(x: f32, y: f32, z: f32) -> Head {
    Head { x: x.to_bits(), y: y.to_bits(), z: z.to_bits(), ..Head::default() }
}

fn three_peers() -> Registry<&'static str> {
    let mut reg = Registry::new();
    assert_eq!(reg.join("A"), Some(0));
    assert_eq!(reg.join("B"), Some(1));
    assert_eq!(reg.join("C"), Some(2));
    reg
}

fn streams(reg: &Registry<&'static str>) -> Vec<&'static str> {
    (0..reg.len()).map(|i| *reg.stream(i)).collect()
}

fn idle_reads(n: usize) -> Vec<Received> {
    (0..n).map(|_| Received::WouldBlock).collect()
}

/// Hands peer `who` the header, then the body, of a message carrying `h`; the others have
/// nothing. Returns what the second tick decided.
fn send_record(reg: &mut Registry<&'static str>, who: usize, h: &Head) -> Result<TickAction, RelayError> {
    let msg = head_message(h);
    let mut reads = idle_reads(reg.len());
    assert_eq!(reg.wanted(who), 4);
    reads[who] = Received::Bytes(msg[..4].to_vec());
    assert!(matches!(reg.receive(reads), Ok(TickAction::Idle)));
    assert_eq!(reg.wanted(who), 28);
    let mut reads = idle_reads(reg.len());
    reads[who] = Received::Bytes(msg[4..].to_vec());
    reg.receive(reads)
}

fn broadcast(r: Result<TickAction, RelayError>) -> Vec<u8> {
    match r {
        Ok(TickAction::Broadcast(m)) => m,
        _ => panic!("expected a broadcast"),
    }
}

fn records_of(msg: &[u8]) -> Vec<Head> {
    let len = u32::from_le_bytes([msg[0], msg[1], msg[2], msg[3]]) as usize;
    assert_eq!(len, msg.len() - 4);
    decode_aggregate(&msg[4..]).unwrap()
}

#[test]
fn record_from_one_peer_reaches_every_peer() {
    let mut reg = three_peers();
    let a = Head::default();
    let msg = broadcast(send_record(&mut reg, 0, &a));
    let hs = records_of(&msg);
    // one record per live peer; the others have sent nothing and sit at the origin
    assert_eq!(hs.len(), 3);
    assert_eq!(hs[0], a);
    // the same message goes to A, B and C, so A sees its own record reflected
    assert_eq!(streams(&reg), vec!["A", "B", "C"]);
    assert_eq!(reg.settle(vec![WriteOutcome::Sent; 3]), Ok(()));
    assert_eq!(streams(&reg), vec!["A", "B", "C"]);
}

#[test]
fn aggregate_holds_exactly_one_record_of_the_sender() {
    let mut reg = three_peers();
    let a = head(1.0, 2.0, 3.0);
    let hs = records_of(&broadcast(send_record(&mut reg, 0, &a)));
    assert_eq!(hs, vec![a, Head::default(), Head::default()]);
    assert_eq!(hs.iter().filter(|h| **h == a).count(), 1);
    assert_eq!(reg.aggregate(), hs);
}

#[test]
fn tick_without_records_writes_nothing() {
    let mut reg = three_peers();
    assert!(matches!(reg.receive(idle_reads(3)), Ok(TickAction::Idle)));
    // a header alone is no record either
    let mut reads = idle_reads(3);
    reads[1] = Received::Bytes(vec![28, 0, 0, 0]);
    assert!(matches!(reg.receive(reads), Ok(TickAction::Idle)));
    assert_eq!(reg.len(), 3);
}

#[test]
fn empty_registry_is_idle() {
    let mut reg: Registry<&'static str> = Registry::new();
    assert!(matches!(reg.receive(vec![]), Ok(TickAction::Idle)));
    assert_eq!(reg.aggregate(), vec![]);
}

#[test]
fn peer_that_hangs_up_mid_tick_is_left_out() {
    let mut reg = three_peers();
    let c = head(5.0, 5.0, 5.0);
    let msg = head_message(&c);
    let mut reads = idle_reads(3);
    reads[2] = Received::Bytes(msg[..4].to_vec());
    assert!(matches!(reg.receive(reads), Ok(TickAction::Idle)));
    // B hangs up in the same tick as C's record completes
    let reads = vec![Received::WouldBlock, Received::Bytes(vec![]), Received::Bytes(msg[4..].to_vec())];
    let hs = records_of(&broadcast(reg.receive(reads)));
    assert_eq!(hs, vec![Head::default(), c]);
    assert_eq!(streams(&reg), vec!["A", "C"]);
    assert_eq!(reg.settle(vec![WriteOutcome::Sent; 2]), Ok(()));
    // and in the next aggregate too
    let a = head(1.0, 0.0, 0.0);
    let hs = records_of(&broadcast(send_record(&mut reg, 0, &a)));
    assert_eq!(hs, vec![a, c]);
}

#[test]
fn reset_peer_is_gone_next_tick() {
    let mut reg = three_peers();
    let a = head(1.0, 1.0, 1.0);
    let msg = broadcast(send_record(&mut reg, 0, &a));
    // every live peer is handed the same message; B's connection was reset
    assert_eq!(records_of(&msg).len(), 3);
    let writes = vec![WriteOutcome::Sent, WriteOutcome::PeerGone, WriteOutcome::WouldBlock];
    assert_eq!(reg.settle(writes), Ok(()));
    assert_eq!(streams(&reg), vec!["A", "C"]);
    let c = head(2.0, 2.0, 2.0);
    let hs = records_of(&broadcast(send_record(&mut reg, 1, &c)));
    assert_eq!(hs, vec![a, c]);
}

#[test]
fn other_write_failure_is_fatal_and_keeps_peers() {
    let mut reg = three_peers();
    let _ = broadcast(send_record(&mut reg, 2, &Head::default()));
    let writes = vec![WriteOutcome::PeerGone, WriteOutcome::Fatal, WriteOutcome::Fatal];
    assert_eq!(reg.settle(writes), Err(RelayError::WriteFailed(1)));
    assert_eq!(streams(&reg), vec!["A", "B", "C"]);
}

#[test]
fn split_header_drops_the_peer() {
    let mut reg = three_peers();
    let reads = vec![Received::WouldBlock, Received::Bytes(vec![28, 0]), Received::WouldBlock];
    assert!(matches!(reg.receive(reads), Ok(TickAction::Idle)));
    assert_eq!(streams(&reg), vec!["A", "C"]);
}

#[test]
fn message_that_is_not_a_record_drops_the_peer() {
    let mut reg = three_peers();
    let reads = vec![Received::Bytes(vec![3, 0, 0, 0]), Received::WouldBlock, Received::WouldBlock];
    assert!(matches!(reg.receive(reads), Ok(TickAction::Idle)));
    let reads = vec![Received::Bytes(vec![1, 2, 3]), Received::WouldBlock, Received::WouldBlock];
    assert!(matches!(reg.receive(reads), Ok(TickAction::Idle)));
    assert_eq!(streams(&reg), vec!["B", "C"]);
}

#[test]
fn latest_record_replaces_the_earlier_one() {
    let mut reg = three_peers();
    let first = head(1.0, 0.0, 0.0);
    let second = head(2.0, 0.0, 0.0);
    let _ = broadcast(send_record(&mut reg, 1, &first));
    let hs = records_of(&broadcast(send_record(&mut reg, 1, &second)));
    assert_eq!(hs, vec![Head::default(), second, Head::default()]);
}

#[test]
fn record_with_extra_bytes_is_accepted() {
    let mut reg = three_peers();
    let a = head(4.0, 0.0, 0.0);
    let mut body = encode_head(&a);
    body.push(0);
    let mut reads = idle_reads(3);
    reads[0] = Received::Bytes(vec![29, 0, 0, 0]);
    assert!(matches!(reg.receive(reads), Ok(TickAction::Idle)));
    let mut reads = idle_reads(3);
    reads[0] = Received::Bytes(body);
    assert_eq!(records_of(&broadcast(reg.receive(reads)))[0], a);
}

#[test]
fn ids_are_never_reused() {
    let mut reg = three_peers();
    let reads = vec![Received::Bytes(vec![]), Received::WouldBlock, Received::WouldBlock];
    assert!(matches!(reg.receive(reads), Ok(TickAction::Idle)));
    assert_eq!(reg.join("D"), Some(3));
    assert_eq!(streams(&reg), vec!["B", "C", "D"]);
}

#[test]
fn failed_read_drops_only_that_peer() {
    let mut reg = three_peers();
    let b = head(3.0, 0.0, 0.0);
    let msg = head_message(&b);
    let reads = vec![Received::Failed, Received::Bytes(msg[..4].to_vec()), Received::WouldBlock];
    assert!(matches!(reg.receive(reads), Ok(TickAction::Idle)));
    assert_eq!(streams(&reg), vec!["B", "C"]);
    let reads = vec![Received::Bytes(msg[4..].to_vec()), Received::WouldBlock];
    let hs = records_of(&broadcast(reg.receive(reads)));
    assert_eq!(hs, vec![b, Head::default()]);
}

#[test]
fn aggregate_of_the_reset_tick_still_holds_the_leaving_peer() {
    let mut reg = three_peers();
    let b = head(7.0, 0.0, 0.0);
    let msg = broadcast(send_record(&mut reg, 1, &b));
    assert_eq!(records_of(&msg), vec![Head::default(), b, Head::default()]);
    let writes = vec![WriteOutcome::Sent, WriteOutcome::PeerGone, WriteOutcome::Sent];
    assert_eq!(reg.settle(writes), Ok(()));
    assert_eq!(streams(&reg), vec!["A", "C"]);
    assert_eq!(reg.aggregate(), vec![Head::default(), Head::default()]);
}
