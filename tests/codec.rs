use cubehead::wire::{
    decode_aggregate, decode_head, encode_aggregate, encode_head, head_message, serialize_msg, Head,
};

fn head(x: f32, y: f32, z: f32, i: f32, j: f32, k: f32, w: f32) -> Head {
    Head {
        x: x.to_bits(),
        y: y.to_bits(),
        z: z.to_bits(),
        i: i.to_bits(),
        j: j.to_bits(),
        k: k.to_bits(),
        w: w.to_bits(),
    }
}

#[test]
fn default_head_is_origin_facing_ahead() {
    assert_eq!(Head::default(), head(0.0, 0.0, 0.0, 0.0, 0.0, 0.0, 1.0));
}

#[test]
fn head_encodes_as_seven_little_endian_words() {
    let h = Head { x: 0x0403_0201, y: 0, z: 0, i: 0, j: 0, k: 0, w: 0xdead_beef };
    let b = encode_head(&h);
    assert_eq!(b.len(), 28);
    assert_eq!(&b[..4], &[1, 2, 3, 4]);
    assert_eq!(&b[4..24], &[0u8; 20]);
    assert_eq!(&b[24..], &[0xef, 0xbe, 0xad, 0xde]);
}

#[test]
fn head_encoding_matches_float_bytes() {
    let h = head(1.5, -2.0, 0.25, 0.0, 0.0, 0.0, 1.0);
    let b = encode_head(&h);
    assert_eq!(&b[..4], &1.5f32.to_le_bytes());
    assert_eq!(&b[4..8], &(-2.0f32).to_le_bytes());
    assert_eq!(&b[24..], &1.0f32.to_le_bytes());
}

#[test]
fn head_round_trips_many_times() {
    let start = head(0.1, f32::NAN, -0.0, 0.5, -0.5, 0.5, -0.5);
    let mut h = start;
    for _ in 0..100 {
        h = decode_head(&encode_head(&h)).unwrap();
    }
    assert_eq!(h, start);
    assert_eq!(h.y, f32::NAN.to_bits());
    assert_eq!(h.z, (-0.0f32).to_bits());
}

#[test]
fn short_record_does_not_decode() {
    let b = encode_head(&Head::default());
    assert_eq!(decode_head(&b[..27]), None);
    assert_eq!(decode_head(&[]), None);
}

#[test]
fn record_with_trailing_bytes_decodes() {
    let h = head(3.0, 2.0, 1.0, 0.0, 0.0, 0.0, 1.0);
    let mut b = encode_head(&h);
    b.push(7);
    assert_eq!(decode_head(&b), Some(h));
}

#[test]
fn aggregate_layout_is_count_then_records() {
    let a = head(1.0, 0.0, 0.0, 0.0, 0.0, 0.0, 1.0);
    let b = Head::default();
    let bytes = encode_aggregate(&vec![a, b]);
    assert_eq!(bytes.len(), 8 + 2 * 28);
    assert_eq!(&bytes[..8], &[2, 0, 0, 0, 0, 0, 0, 0]);
    assert_eq!(&bytes[8..36], encode_head(&a).as_slice());
    assert_eq!(&bytes[36..], encode_head(&b).as_slice());
}

#[test]
fn empty_aggregate_is_a_zero_count() {
    assert_eq!(encode_aggregate(&vec![]), vec![0u8; 8]);
    assert_eq!(decode_aggregate(&[0u8; 8]), Some(vec![]));
}

#[test]
fn aggregate_round_trips() {
    let hs = vec![head(1.0, 2.0, 3.0, 0.0, 0.0, 0.0, 1.0), Head::default(), head(-1.0, -2.0, -3.0, 1.0, 0.0, 0.0, 0.0)];
    assert_eq!(decode_aggregate(&encode_aggregate(&hs)), Some(hs));
}

#[test]
fn truncated_aggregate_does_not_decode() {
    let bytes = encode_aggregate(&vec![Head::default(), Head::default()]);
    assert_eq!(decode_aggregate(&bytes[..bytes.len() - 1]), None);
    assert_eq!(decode_aggregate(&bytes[..7]), None);
}

#[test]
fn message_has_length_header() {
    assert_eq!(serialize_msg(&[9, 9, 9]), Some(vec![3, 0, 0, 0, 9, 9, 9]));
    assert_eq!(serialize_msg(&[]), Some(vec![0, 0, 0, 0]));
}

#[test]
fn head_message_frames_the_record() {
    let h = head(0.0, 1.0, 0.0, 0.0, 0.0, 0.0, 1.0);
    let m = head_message(&h);
    assert_eq!(&m[..4], &[28, 0, 0, 0]);
    assert_eq!(&m[4..], encode_head(&h).as_slice());
}
