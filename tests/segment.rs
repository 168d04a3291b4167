use blake2::Digest;
use routeweaver::error::RouteWeaverError;
use routeweaver::proto::{MessageCompressionMode, MessageSegment, PublicKey, MAX_MESSAGE_SEGMENT_SIZE};
use routeweaver::segment::{
    compression_for_entropy, decompress_message, encode_message, segment_payload, MAX_SEGMENTS,
};

fn key(b: u8) -> PublicKey {
    PublicKey([b; 32])
}

fn chunks(payload_len: usize) -> Vec<(u8, usize)> {
    let payload = vec![3u8; payload_len];
    let packets = segment_payload(key(1), key(2), &payload, None, [0; 32]).unwrap();
    let mut out = Vec::new();
    for p in &packets[..packets.len() - 1] {
        match &p.message {
            MessageSegment::Message { index, data } => out.push((*index, data.0.len())),
            _ => panic!("end marker too early"),
        }
    }
    match &packets[packets.len() - 1].message {
        MessageSegment::EndMessage { total_indexes, .. } => assert_eq!(*total_indexes as usize, out.len()),
        _ => panic!("no end marker"),
    }
    out
}

#[test]
fn empty_payload_is_one_empty_segment() {
    assert_eq!(chunks(0), vec![(0, 0)]);
}

#[test]
fn payload_splits_at_segment_limit() {
    let l = MAX_MESSAGE_SEGMENT_SIZE;
    assert_eq!(chunks(l), vec![(0, l)]);
    assert_eq!(chunks(l + 1), vec![(0, l), (1, 1)]);
    assert_eq!(chunks(2 * l + 5), vec![(0, l), (1, l), (2, 5)]);
}

#[test]
fn largest_payload_takes_all_segments() {
    let got = chunks(MAX_SEGMENTS * MAX_MESSAGE_SEGMENT_SIZE);
    assert_eq!(got.len(), 255);
    assert_eq!(got[254], (254, MAX_MESSAGE_SEGMENT_SIZE));
}

#[test]
fn too_large_payload_is_refused() {
    let payload = vec![0u8; MAX_SEGMENTS * MAX_MESSAGE_SEGMENT_SIZE + 1];
    let r = segment_payload(key(1), key(2), &payload, None, [0; 32]);
    assert_eq!(r.unwrap_err(), RouteWeaverError::PacketEncoding);
}

#[test]
fn end_marker_carries_digest_of_sent_bytes() {
    let packets = encode_message(key(1), key(2), b"abc", None).unwrap();
    let want: [u8; 32] = blake2::Blake2s256::digest(b"abc").into();
    match &packets[1].message {
        MessageSegment::EndMessage { hash, compression_mode, .. } => {
            assert_eq!(*hash, want);
            assert_eq!(*compression_mode, None);
        }
        _ => panic!("no end marker"),
    }
}

fn sent_bytes(mode: Option<MessageCompressionMode>, message: &[u8]) -> Vec<u8> {
    let packets = encode_message(key(1), key(2), message, mode).unwrap();
    let mut out = Vec::new();
    for p in &packets {
        if let MessageSegment::Message { data, .. } = &p.message {
            out.extend_from_slice(&data.0);
        }
    }
    out
}

#[test]
fn lz4_compresses_and_decompresses() {
    let message = vec![0u8; 10_000];
    let sent = sent_bytes(Some(MessageCompressionMode::Lz4), &message);
    assert!(sent.len() < 1000);
    assert_eq!(sent, lz4_flex::compress_prepend_size(&message));
    assert_eq!(decompress_message(Some(MessageCompressionMode::Lz4), &sent).unwrap(), message);
}

#[test]
fn zlib_compresses_and_decompresses() {
    let message = vec![7u8; 10_000];
    let sent = sent_bytes(Some(MessageCompressionMode::Zlib), &message);
    assert!(sent.len() < 1000);
    assert_eq!(decompress_message(Some(MessageCompressionMode::Zlib), &sent).unwrap(), message);
}

#[test]
fn uncompressed_is_sent_as_is() {
    let message = b"plain text".to_vec();
    assert_eq!(sent_bytes(None, &message), message);
    assert_eq!(decompress_message(None, &message).unwrap(), message);
}

#[test]
fn invalid_compressed_bytes_do_not_decompress() {
    assert!(decompress_message(Some(MessageCompressionMode::Zlib), &[1, 2, 3]).is_none());
    assert!(decompress_message(Some(MessageCompressionMode::Lz4), &[1]).is_none());
}

#[test]
fn compression_policy_threshold() {
    assert_eq!(compression_for_entropy(0), Some(MessageCompressionMode::Lz4));
    assert_eq!(compression_for_entropy(500), Some(MessageCompressionMode::Lz4));
    assert_eq!(compression_for_entropy(501), None);
    assert_eq!(compression_for_entropy(8000), None);
}

fn entropy_millibits(data: &[u8]) -> u32 {
    (entropy::shannon_entropy(data) * 1000.0).ceil() as u32
}

#[test]
fn zero_bytes_are_compressed_and_random_bytes_are_not() {
    let zeros = vec![0u8; 4096];
    let mut random = Vec::new();
    let mut block: [u8; 32] = [42; 32];
    while random.len() < 4096 {
        block = blake2::Blake2s256::digest(block).into();
        random.extend_from_slice(&block);
    }
    assert_eq!(compression_for_entropy(entropy_millibits(&zeros)), Some(MessageCompressionMode::Lz4));
    assert_eq!(compression_for_entropy(entropy_millibits(&random)), None);
}

#[test]
fn oversized_decompression_is_refused() {
    let big = vec![0u8; 100_000];
    let lz4 = lz4_flex::compress_prepend_size(&big);
    assert!(decompress_message(Some(MessageCompressionMode::Lz4), &lz4).is_none());
    let zlib = miniz_oxide::deflate::compress_to_vec_zlib(&big, 10);
    assert!(decompress_message(Some(MessageCompressionMode::Zlib), &zlib).is_none());
    let fits = vec![0u8; routeweaver::segment::MAX_MESSAGE_SIZE];
    let lz4_fits = lz4_flex::compress_prepend_size(&fits);
    assert_eq!(decompress_message(Some(MessageCompressionMode::Lz4), &lz4_fits).unwrap(), fits);
}
