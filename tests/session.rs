use routeweaver::codec::PacketEncoderDecoder;
use routeweaver::peer::{create_initiator, create_keypair, create_responder};
use routeweaver::proto::PublicKey;
use routeweaver::reassembly::{PreAssembledMessageTracker, ReassemblyOutcome};
use routeweaver::segment::{decompress_message, encode_message};

#[test]
fn fresh_key_pairs_differ() {
    let (first_public, first_secret) = create_keypair().unwrap();
    let (second_public, second_secret) = create_keypair().unwrap();
    assert_ne!(first_public, second_public);
    assert_ne!(first_secret.0, second_secret.0);
}

#[test]
fn channels_start_handshaking() {
    let (_, s) = create_keypair().unwrap();
    let r = create_responder(&s).unwrap();
    assert!(!r.is_established());
    let i = create_initiator(&s).unwrap();
    assert!(!i.is_established());
    // a handshake that has not run cannot be established
    assert!(i.establish().is_err());
}

#[test]
fn request_peers_list_crosses_a_stream() {
    let ka = PublicKey([0xa1; 32]);
    let kb = PublicKey([0xb2; 32]);
    // the encoding of the request-peers-list message: its variant number
    let message = vec![2u8];
    let packets = encode_message(ka, kb, &message, None).unwrap();
    let mut codec = PacketEncoderDecoder;
    let mut stream = Vec::new();
    for p in packets {
        codec.encode(p, &mut stream).unwrap();
    }
    let mut tracker = PreAssembledMessageTracker::with_capacity(16);
    let mut inbox = Vec::new();
    let mut received = Vec::new();
    for chunk in stream.chunks(7) {
        inbox.extend_from_slice(chunk);
        while let Some(packet) = codec.decode(&mut inbox).unwrap() {
            if let ReassemblyOutcome::Delivered(m) = tracker.handle_packet(packet) {
                received.push(m);
            }
        }
    }
    assert_eq!(received.len(), 1);
    let m = &received[0];
    assert_eq!(m.claimed_source, ka);
    assert_eq!(m.claimed_destination, kb);
    assert_eq!(decompress_message(m.compression_mode, &m.message).unwrap(), vec![2u8]);
}

#[test]
fn full_handshake_establishes_both_sides() {
    let (_, a_secret) = create_keypair().unwrap();
    let (_, b_secret) = create_keypair().unwrap();
    let mut a = create_initiator(&a_secret).unwrap();
    let mut b = create_responder(&b_secret).unwrap();
    let m1 = a.write_message(&[]).unwrap();
    b.read_message(&m1).unwrap();
    let m2 = b.write_message(&[]).unwrap();
    a.read_message(&m2).unwrap();
    let m3 = a.write_message(&[]).unwrap();
    b.read_message(&m3).unwrap();
    let mut a = a.establish().unwrap();
    let mut b = b.establish().unwrap();
    assert!(a.is_established() && b.is_established());
    let sealed = a.write_message(b"over the channel").unwrap();
    assert_ne!(&sealed[..], &b"over the channel"[..]);
    assert_eq!(b.read_message(&sealed).unwrap(), b"over the channel".to_vec());
}

#[test]
fn tampered_handshake_fails() {
    let (_, a_secret) = create_keypair().unwrap();
    let (_, b_secret) = create_keypair().unwrap();
    let mut a = create_initiator(&a_secret).unwrap();
    let mut b = create_responder(&b_secret).unwrap();
    let m1 = a.write_message(&[]).unwrap();
    b.read_message(&m1).unwrap();
    let mut m2 = b.write_message(&[]).unwrap();
    let last = m2.len() - 1;
    m2[last] ^= 1;
    assert!(a.read_message(&m2).is_err());
}
