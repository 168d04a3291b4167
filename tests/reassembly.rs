use blake2::Digest;
use routeweaver::proto::{LimitedVec, MessageCompressionMode, MessageSegment, Packet, PublicKey};
use routeweaver::reassembly::{PreAssembledMessageTracker, ReassemblyOutcome};
use routeweaver::segment::{encode_message, segment_payload};

fn key(b: u8) -> PublicKey {
    PublicKey([b; 32])
}

fn digest(data: &[u8]) -> [u8; 32] {
    blake2::Blake2s256::digest(data).into()
}

fn segment(s: u8, d: u8, index: u8, data: &[u8]) -> Packet {
    Packet {
        source: key(s),
        destination: key(d),
        message: MessageSegment::Message { index, data: LimitedVec(data.to_vec()) },
    }
}

fn end(s: u8, d: u8, total: u8, hash: [u8; 32]) -> Packet {
    Packet {
        source: key(s),
        destination: key(d),
        message: MessageSegment::EndMessage { compression_mode: None, total_indexes: total, hash },
    }
}

fn delivered(o: ReassemblyOutcome) -> Vec<u8> {
    match o {
        ReassemblyOutcome::Delivered(m) => m.message,
        other => panic!("not delivered: {:?}", other),
    }
}

#[test]
fn segments_in_any_order_reassemble() {
    let mut t = PreAssembledMessageTracker::with_capacity(8);
    let whole = b"hello, mesh".to_vec();
    assert!(matches!(t.handle_packet(segment(1, 2, 2, b"mesh")), ReassemblyOutcome::Stored));
    assert!(matches!(t.handle_packet(segment(1, 2, 0, b"hello")), ReassemblyOutcome::Stored));
    assert!(matches!(t.handle_packet(segment(1, 2, 1, b", ")), ReassemblyOutcome::Stored));
    assert_eq!(t.len(), 1);
    let out = t.handle_packet(end(1, 2, 3, digest(&whole)));
    match out {
        ReassemblyOutcome::Delivered(m) => {
            assert_eq!(m.claimed_source, key(1));
            assert_eq!(m.claimed_destination, key(2));
            assert_eq!(m.compression_mode, None);
            assert_eq!(m.message, whole);
        }
        other => panic!("not delivered: {:?}", other),
    }
    assert_eq!(t.len(), 0);
}

#[test]
fn duplicate_segment_changes_nothing() {
    let whole = b"abcdef".to_vec();
    let mut once = PreAssembledMessageTracker::with_capacity(4);
    once.handle_packet(segment(1, 2, 0, b"abc"));
    once.handle_packet(segment(1, 2, 1, b"def"));
    let mut twice = PreAssembledMessageTracker::with_capacity(4);
    twice.handle_packet(segment(1, 2, 0, b"abc"));
    assert!(matches!(twice.handle_packet(segment(1, 2, 0, b"abc")), ReassemblyOutcome::Duplicate));
    twice.handle_packet(segment(1, 2, 1, b"def"));
    assert_eq!(once.len(), twice.len());
    let a = delivered(once.handle_packet(end(1, 2, 2, digest(&whole))));
    let b = delivered(twice.handle_packet(end(1, 2, 2, digest(&whole))));
    assert_eq!(a, b);
    assert_eq!(a, whole);
}

#[test]
fn flipped_bit_is_discarded() {
    let whole = b"abcdef".to_vec();
    let mut t = PreAssembledMessageTracker::with_capacity(4);
    t.handle_packet(segment(1, 2, 0, b"abc"));
    t.handle_packet(segment(1, 2, 1, &[b'd', b'e', b'f' ^ 1]));
    assert!(matches!(t.handle_packet(end(1, 2, 2, digest(&whole))), ReassemblyOutcome::HashMismatch));
    assert_eq!(t.len(), 0);
}

#[test]
fn short_count_is_discarded() {
    let whole = b"abc".to_vec();
    let mut t = PreAssembledMessageTracker::with_capacity(4);
    t.handle_packet(segment(1, 2, 0, b"abc"));
    assert!(matches!(t.handle_packet(end(1, 2, 2, digest(&whole))), ReassemblyOutcome::CountMismatch));
    assert_eq!(t.len(), 0);
    assert!(matches!(t.handle_packet(end(1, 2, 2, digest(&whole))), ReassemblyOutcome::Orphan));
}

#[test]
fn orphan_end_marker_is_dropped() {
    let mut t = PreAssembledMessageTracker::with_capacity(4);
    t.handle_packet(segment(5, 6, 0, b"x"));
    assert!(matches!(t.handle_packet(end(1, 2, 1, [0; 32])), ReassemblyOutcome::Orphan));
    assert_eq!(t.len(), 1);
}

#[test]
fn pairs_are_kept_apart() {
    let mut t = PreAssembledMessageTracker::with_capacity(4);
    t.handle_packet(segment(1, 2, 0, b"one"));
    t.handle_packet(segment(2, 1, 0, b"two"));
    assert_eq!(delivered(t.handle_packet(end(2, 1, 1, digest(b"two")))), b"two".to_vec());
    assert_eq!(delivered(t.handle_packet(end(1, 2, 1, digest(b"one")))), b"one".to_vec());
}

#[test]
fn capacity_evicts_least_recently_touched() {
    let mut t = PreAssembledMessageTracker::with_capacity(2);
    t.handle_packet(segment(1, 1, 0, b"a"));
    t.handle_packet(segment(2, 2, 0, b"b"));
    // touching the first pair makes the second the oldest
    t.handle_packet(segment(1, 1, 1, b"c"));
    t.handle_packet(segment(3, 3, 0, b"d"));
    assert_eq!(t.len(), 2);
    assert_eq!(t.capacity(), 2);
    assert!(matches!(t.handle_packet(end(2, 2, 1, digest(b"b"))), ReassemblyOutcome::Orphan));
    assert_eq!(delivered(t.handle_packet(end(1, 1, 2, digest(b"ac")))), b"ac".to_vec());
    assert_eq!(delivered(t.handle_packet(end(3, 3, 1, digest(b"d")))), b"d".to_vec());
}

#[test]
fn many_pairs_stay_within_capacity() {
    let mut t = PreAssembledMessageTracker::with_capacity(3);
    for k in 0..20u8 {
        t.handle_packet(segment(k, k, 0, &[k]));
        assert!(t.len() <= 3);
    }
    assert_eq!(t.len(), 3);
}

#[test]
fn pipeline_output_reassembles_in_reverse_order() {
    let payload: Vec<u8> = (0..200_000u32).map(|i| (i * 7 % 256) as u8).collect();
    let packets = encode_message(key(1), key(2), &payload, None).unwrap();
    assert_eq!(packets.len(), 5);
    let mut t = PreAssembledMessageTracker::with_capacity(2);
    let (end_marker, segments) = packets.split_last().unwrap();
    for p in segments.iter().rev() {
        assert!(matches!(t.handle_packet(p.clone()), ReassemblyOutcome::Stored));
    }
    assert_eq!(delivered(t.handle_packet(end_marker.clone())), payload);
}

#[test]
fn segment_payload_uses_given_digest() {
    let packets = segment_payload(key(1), key(2), b"xyz", Some(MessageCompressionMode::Zlib), [9; 32]).unwrap();
    assert_eq!(packets.len(), 2);
    match &packets[1].message {
        MessageSegment::EndMessage { compression_mode, total_indexes, hash } => {
            assert_eq!(*compression_mode, Some(MessageCompressionMode::Zlib));
            assert_eq!(*total_indexes, 1);
            assert_eq!(*hash, [9; 32]);
        }
        _ => panic!("no end marker"),
    }
}
