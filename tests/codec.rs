use routeweaver::codec::{decode_packet, encode_packet, PacketEncoderDecoder};
use routeweaver::error::RouteWeaverError;
use routeweaver::proto::{
    LimitedVec, MessageCompressionMode, MessageSegment, Packet, PublicKey, MAX_MESSAGE_SEGMENT_SIZE,
};

fn data_packet(index: u8, data: Vec<u8>) -> Packet {
    Packet {
        source: PublicKey([1; 32]),
        destination: PublicKey([2; 32]),
        message: MessageSegment::Message { index, data: LimitedVec(data) },
    }
}

fn end_packet(mode: Option<MessageCompressionMode>, total: u8) -> Packet {
    Packet {
        source: PublicKey([3; 32]),
        destination: PublicKey([4; 32]),
        message: MessageSegment::EndMessage { compression_mode: mode, total_indexes: total, hash: [7; 32] },
    }
}

fn same_packet(a: &Packet, b: &Packet) -> bool {
    if a.source != b.source || a.destination != b.destination {
        return false;
    }
    match (&a.message, &b.message) {
        (
            MessageSegment::Message { index: i, data: d },
            MessageSegment::Message { index: j, data: e },
        ) => i == j && d.0 == e.0,
        (
            MessageSegment::EndMessage { compression_mode: m, total_indexes: t, hash: h },
            MessageSegment::EndMessage { compression_mode: n, total_indexes: u, hash: g },
        ) => m == n && t == u && h == g,
        _ => false,
    }
}

fn round_trip(p: &Packet) {
    let bytes = encode_packet(p).unwrap();
    let (q, n) = decode_packet(&bytes).unwrap().unwrap();
    assert_eq!(n, bytes.len());
    assert!(same_packet(p, &q));
}

#[test]
fn round_trip_empty_segment() {
    round_trip(&data_packet(0, Vec::new()));
}

#[test]
fn round_trip_full_segment() {
    let data: Vec<u8> = (0..MAX_MESSAGE_SEGMENT_SIZE).map(|i| (i % 251) as u8).collect();
    round_trip(&data_packet(254, data));
}

#[test]
fn round_trip_end_markers() {
    round_trip(&end_packet(None, 1));
    round_trip(&end_packet(Some(MessageCompressionMode::Lz4), 255));
    round_trip(&end_packet(Some(MessageCompressionMode::Zlib), 17));
}

#[test]
fn exact_bytes_of_small_segment() {
    let bytes = encode_packet(&data_packet(5, vec![9, 8])).unwrap();
    let mut want = vec![1u8; 32];
    want.extend(vec![2u8; 32]);
    want.extend(vec![0, 5, 2, 9, 8]);
    assert_eq!(bytes, want);
}

#[test]
fn long_length_uses_two_byte_form() {
    let bytes = encode_packet(&data_packet(0, vec![0; 300])).unwrap();
    assert_eq!(&bytes[64..68], &[0, 0, 251, 1][..]);
    assert_eq!(bytes[68], 44);
    assert_eq!(bytes.len(), 64 + 5 + 300);
}

#[test]
fn exact_bytes_of_end_marker() {
    let bytes = encode_packet(&end_packet(Some(MessageCompressionMode::Zlib), 3)).unwrap();
    assert_eq!(&bytes[64..68], &[1, 1, 1, 3][..]);
    assert_eq!(&bytes[68..], &[7u8; 32][..]);
}

#[test]
fn oversized_segment_is_refused() {
    let p = data_packet(0, vec![0; MAX_MESSAGE_SEGMENT_SIZE + 1]);
    assert_eq!(encode_packet(&p).unwrap_err(), RouteWeaverError::PacketEncoding);
}

#[test]
fn zero_count_end_marker_is_refused() {
    assert_eq!(encode_packet(&end_packet(None, 0)).unwrap_err(), RouteWeaverError::PacketEncoding);
}

#[test]
fn truncated_input_asks_for_more() {
    let bytes = encode_packet(&data_packet(1, vec![5; 40])).unwrap();
    for cut in [0, 10, 64, 65, 66, 67, bytes.len() - 1] {
        assert!(decode_packet(&bytes[..cut]).unwrap().is_none());
    }
}

#[test]
fn malformed_input_is_an_error() {
    let mut bytes = encode_packet(&end_packet(None, 2)).unwrap();
    bytes[64] = 2;
    assert_eq!(decode_packet(&bytes).unwrap_err(), RouteWeaverError::PacketDecoding);
    let mut zero_count = encode_packet(&end_packet(None, 2)).unwrap();
    zero_count[66] = 0;
    assert_eq!(decode_packet(&zero_count).unwrap_err(), RouteWeaverError::PacketDecoding);
    let mut bad_option = encode_packet(&end_packet(None, 2)).unwrap();
    bad_option[65] = 2;
    assert_eq!(decode_packet(&bad_option).unwrap_err(), RouteWeaverError::PacketDecoding);
}

#[test]
fn declared_length_over_limit_is_an_error() {
    let mut bytes = vec![0u8; 64];
    bytes.extend([0, 0, 252, 0, 1, 0, 0]);
    assert_eq!(decode_packet(&bytes).unwrap_err(), RouteWeaverError::PacketDecoding);
}

#[test]
fn non_shortest_length_is_read() {
    let mut bytes = vec![0u8; 64];
    bytes.extend([0, 3, 251, 0, 2, 10, 11]);
    let (p, n) = decode_packet(&bytes).unwrap().unwrap();
    assert_eq!(n, bytes.len());
    assert!(same_packet(
        &p,
        &Packet {
            source: PublicKey([0; 32]),
            destination: PublicKey([0; 32]),
            message: MessageSegment::Message { index: 3, data: LimitedVec(vec![10, 11]) },
        }
    ));
}

#[test]
fn framer_consumes_exactly_one_packet() {
    let mut codec = PacketEncoderDecoder;
    let mut buf = Vec::new();
    codec.encode(data_packet(0, vec![1, 2, 3]), &mut buf).unwrap();
    codec.encode(end_packet(None, 1), &mut buf).unwrap();
    let first_len = encode_packet(&data_packet(0, vec![1, 2, 3])).unwrap().len();
    let total = buf.len();
    let p = codec.decode(&mut buf).unwrap().unwrap();
    assert!(same_packet(&p, &data_packet(0, vec![1, 2, 3])));
    assert_eq!(buf.len(), total - first_len);
    let q = codec.decode(&mut buf).unwrap().unwrap();
    assert!(same_packet(&q, &end_packet(None, 1)));
    assert!(buf.is_empty());
    assert!(codec.decode(&mut buf).unwrap().is_none());
}

#[test]
fn framer_keeps_partial_input() {
    let mut codec = PacketEncoderDecoder;
    let full = encode_packet(&data_packet(0, vec![1, 2, 3])).unwrap();
    let mut buf = full[..50].to_vec();
    assert!(codec.decode(&mut buf).unwrap().is_none());
    assert_eq!(buf.len(), 50);
    buf.extend_from_slice(&full[50..]);
    assert!(codec.decode(&mut buf).unwrap().is_some());
}
