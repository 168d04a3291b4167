use routeweaver::error::RouteWeaverError;
use routeweaver::proto::{Address, IpAddress, Peer, PrivateKey, Protocol, PublicKey};

#[test]
fn public_key_text_round_trip() {
    let mut k = [0u8; 32];
    for (i, b) in k.iter_mut().enumerate() {
        *b = (i * 9) as u8;
    }
    let text = PublicKey(k).to_text();
    assert_eq!(text.len(), 64);
    assert!(text.starts_with("0009121b"));
    assert_eq!(PublicKey::from_text(&text).unwrap(), PublicKey(k));
}

#[test]
fn key_text_accepts_upper_case() {
    let text = "AB".repeat(32);
    assert_eq!(PublicKey::from_text(&text).unwrap(), PublicKey([0xab; 32]));
    assert_eq!(PrivateKey::from_text(&text).unwrap().0, [0xab; 32]);
}

#[test]
fn private_key_text_round_trip() {
    let k = PrivateKey([0x5c; 32]);
    assert_eq!(k.to_text(), "5c".repeat(32));
    assert_eq!(PrivateKey::from_text(&k.to_text()).unwrap().0, [0x5c; 32]);
}

#[test]
fn bad_key_text_is_refused() {
    assert_eq!(PublicKey::from_text("abc").unwrap_err(), RouteWeaverError::KeyParsingError);
    assert_eq!(PublicKey::from_text(&"ab".repeat(31)).unwrap_err(), RouteWeaverError::KeyParsingError);
    assert_eq!(PublicKey::from_text(&"zz".repeat(32)).unwrap_err(), RouteWeaverError::KeyParsingError);
    assert_eq!(PrivateKey::from_text("").err(), Some(RouteWeaverError::KeyParsingError));
}

fn v4(a: [u8; 4]) -> Address {
    Address::Ip(IpAddress::V4(a))
}

#[test]
fn peer_text_of_tcp_peer() {
    let p = Peer { protocol: Protocol::Tcp, address: v4([203, 0, 113, 7]) };
    assert_eq!(p.to_text(), "tcp@203.0.113.7");
    assert_eq!(Peer::from_text("tcp@203.0.113.7").unwrap(), p);
}

#[test]
fn peer_text_round_trip_every_protocol() {
    for protocol in [Protocol::Tcp, Protocol::Unix, Protocol::Http, Protocol::Bluetooth] {
        let p = Peer { protocol, address: v4([10, 0, 0, 255]) };
        assert_eq!(Peer::from_text(&p.to_text()).unwrap(), p);
    }
    assert_eq!(Protocol::Bluetooth.to_text(), "bluetooth");
}

#[test]
fn peer_text_round_trip_ipv6() {
    let mut a = [0u8; 16];
    a[0] = 0x20;
    a[1] = 0x01;
    a[2] = 0x0d;
    a[3] = 0xb8;
    a[15] = 1;
    let p = Peer { protocol: Protocol::Unix, address: Address::Ip(IpAddress::V6(a)) };
    assert_eq!(p.to_text(), "unix@2001:db8::1");
    assert_eq!(Peer::from_text(&p.to_text()).unwrap(), p);
    assert_eq!(Peer::from_text("unix@2001:DB8:0000:0:0:0:0:1").unwrap(), p);
}

#[test]
fn protocol_name_in_any_case() {
    let p = Peer::from_text("TCP@1.2.3.4").unwrap();
    assert_eq!(p.protocol, Protocol::Tcp);
    assert_eq!(p.address.to_text(), "1.2.3.4");
}

#[test]
fn bad_peer_text_is_refused() {
    for bad in ["tcp", "tcp@1.2.3.4@x", "ftp@1.2.3.4", "tcp@256.1.1.1", "tcp@01.2.3.4", "tcp@1.2.3", "tcp@", "@1.2.3.4", "tcp@1:2:3"] {
        assert_eq!(Peer::from_text(bad).unwrap_err(), RouteWeaverError::PeerAddress, "{}", bad);
    }
}

#[test]
fn private_key_wipe_zeroes_secret() {
    let mut k = PrivateKey([0x77; 32]);
    k.wipe();
    assert_eq!(k.0, [0u8; 32]);
}

#[test]
fn peer_and_keys_parse_through_from_str() {
    let p: Peer = "http@192.168.0.1".parse().unwrap();
    assert_eq!(p, Peer { protocol: Protocol::Http, address: v4([192, 168, 0, 1]) });
    let k: PublicKey = "00".repeat(32).parse().unwrap();
    assert_eq!(k, PublicKey([0; 32]));
    assert!("00".parse::<PrivateKey>().is_err());
}

fn v6(groups: [u16; 8]) -> Address {
    let mut a = [0u8; 16];
    for (i, g) in groups.iter().enumerate() {
        a[2 * i] = (g >> 8) as u8;
        a[2 * i + 1] = (g & 0xff) as u8;
    }
    Address::Ip(IpAddress::V6(a))
}

#[test]
fn compressed_ipv6_text_parses() {
    let p = Peer::from_text("TCP@::1").unwrap();
    assert_eq!(p, Peer { protocol: Protocol::Tcp, address: v6([0, 0, 0, 0, 0, 0, 0, 1]) });
    let cases: [(&str, [u16; 8]); 7] = [
        ("::", [0; 8]),
        ("fe80::1", [0xfe80, 0, 0, 0, 0, 0, 0, 1]),
        ("1::", [1, 0, 0, 0, 0, 0, 0, 0]),
        ("1:2::7:8", [1, 2, 0, 0, 0, 0, 7, 8]),
        ("1:2:3:4:5:6:7::", [1, 2, 3, 4, 5, 6, 7, 0]),
        ("::2:3:4:5:6:7:8", [0, 2, 3, 4, 5, 6, 7, 8]),
        ("2001:DB8:0:0:0:0:0:1", [0x2001, 0xdb8, 0, 0, 0, 0, 0, 1]),
    ];
    for (text, groups) in cases {
        let p = Peer::from_text(&format!("http@{}", text)).unwrap();
        assert_eq!(p.address, v6(groups), "{}", text);
    }
}

#[test]
fn embedded_ipv4_in_ipv6_text_parses() {
    let p = Peer::from_text("tcp@::ffff:1.2.3.4").unwrap();
    assert_eq!(p.address, v6([0, 0, 0, 0, 0, 0xffff, 0x0102, 0x0304]));
    let q = Peer::from_text("tcp@1:2:3:4:5:6:10.0.0.1").unwrap();
    assert_eq!(q.address, v6([1, 2, 3, 4, 5, 6, 0x0a00, 0x0001]));
    let r = Peer::from_text("tcp@::1.2.3.4").unwrap();
    assert_eq!(r.address, v6([0, 0, 0, 0, 0, 0, 0x0102, 0x0304]));
}

#[test]
fn malformed_ipv6_text_is_refused() {
    for bad in [
        "tcp@1::2::3",
        "tcp@1:2:3:4:5:6:7:8:9",
        "tcp@1:2:3:4:5:6:7:8::",
        "tcp@::1:2:3:4:5:6:7:8",
        "tcp@1.2.3.4::",
        "tcp@12345::",
        "tcp@:1::2",
        "tcp@1:::2",
        "tcp@1:2:3:4:5:6:7:1.2.3.4",
        "tcp@::1.2.3.4:5",
        "tcp@1:2:3:4:5:6:7",
    ] {
        assert_eq!(Peer::from_text(bad).unwrap_err(), RouteWeaverError::PeerAddress, "{}", bad);
    }
}

#[test]
fn ipv6_text_is_written_as_std_displays_it() {
    let cases: [([u16; 8], &str); 7] = [
        ([0, 0, 0, 0, 0, 0, 0, 1], "::1"),
        ([0; 8], "::"),
        ([1, 0, 0, 0, 0, 0, 0, 0], "1::"),
        ([1, 0, 2, 3, 4, 5, 6, 7], "1:0:2:3:4:5:6:7"),
        ([1, 0, 0, 2, 0, 0, 3, 4], "1::2:0:0:3:4"),
        ([1, 0, 0, 2, 0, 0, 0, 4], "1:0:0:2::4"),
        ([0xfe80, 0, 0, 0, 0x1ff, 0xfe23, 0x4567, 0x890a], "fe80::1ff:fe23:4567:890a"),
    ];
    for (groups, text) in cases {
        let p = Peer { protocol: Protocol::Tcp, address: v6(groups) };
        assert_eq!(p.address.to_text(), text);
        assert_eq!(Peer::from_text(&p.to_text()).unwrap(), p);
    }
    let mapped = Peer { protocol: Protocol::Tcp, address: v6([0, 0, 0, 0, 0, 0xffff, 0x0102, 0x0304]) };
    assert_eq!(mapped.to_text(), "tcp@::ffff:1.2.3.4");
    assert_eq!(Peer::from_text(&mapped.to_text()).unwrap(), mapped);
}
