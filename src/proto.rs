use crate::error::RouteWeaverError;
use vstd::prelude::*;

verus! {

/// The value of one hexadecimal digit, in either case.
pub open spec fn hex_value(c: char) -> int {
    if '0' <= c && c <= '9' {
        c as int - '0' as int
    } else if 'a' <= c && c <= 'f' {
        c as int - 'a' as int + 10
    } else {
        c as int - 'A' as int + 10
    }
}

pub open spec fn is_hex_char(c: char) -> bool {
    ('0' <= c && c <= '9') || ('a' <= c && c <= 'f') || ('A' <= c && c <= 'F')
}

/// The lowercase digit for a nibble.
pub open spec fn hex_digit(d: int) -> char {
    if d < 10 {
        ((d + '0' as int) as u8) as char
    } else {
        ((d - 10 + 'a' as int) as u8) as char
    }
}

/// Lowercase hexadecimal text of a byte string, two digits per byte.
pub open spec fn hex_text(b: Seq<u8>) -> Seq<char>
    decreases b.len(),
{
    if b.len() == 0 {
        Seq::empty()
    } else {
        let x = b.last();
        hex_text(b.drop_last()) + seq![hex_digit(x as int / 16), hex_digit(x as int % 16)]
    }
}

/// The bytes that hexadecimal text stands for, read two digits at a time.
pub open spec fn hex_bytes(t: Seq<char>) -> Seq<u8>
    decreases t.len(),
{
    if t.len() < 2 {
        Seq::empty()
    } else {
        let n = t.len() as int;
        hex_bytes(t.subrange(0, n - 2)).push(
            (hex_value(t[n - 2]) * 16 + hex_value(t[n - 1])) as u8,
        )
    }
}

/// Text that decodes: an even number of hexadecimal digits.
pub open spec fn is_hex_text(t: Seq<char>) -> bool {
    t.len() % 2 == 0 && forall|i: int| 0 <= i < t.len() ==> is_hex_char(#[trigger] t[i])
}

pub proof fn lemma_hex_text_len(b: Seq<u8>)
    ensures
        hex_text(b).len() == 2 * b.len(),
    decreases b.len(),
{
    if b.len() > 0 {
        lemma_hex_text_len(b.drop_last());
    }
}

pub proof fn lemma_hex_digit(d: int)
    requires
        0 <= d < 16,
    ensures
        is_hex_char(hex_digit(d)),
        hex_value(hex_digit(d)) == d,
{
}

/// Hexadecimal text reads back as the bytes it was written from.
pub proof fn lemma_hex_round_trip(b: Seq<u8>)
    ensures
        is_hex_text(hex_text(b)),
        hex_bytes(hex_text(b)) == b,
    decreases b.len(),
{
    lemma_hex_text_len(b);
    if b.len() > 0 {
        let x = b.last();
        let p = b.drop_last();
        lemma_hex_round_trip(p);
        lemma_hex_text_len(p);
        lemma_hex_digit(x as int / 16);
        lemma_hex_digit(x as int % 16);
        let t = hex_text(b);
        let n = t.len() as int;
        assert(t.subrange(0, n - 2) =~= hex_text(p));
        assert forall|i: int| 0 <= i < t.len() implies is_hex_char(#[trigger] t[i]) by {
            if i < n - 2 {
                assert(t[i] == hex_text(p)[i]);
            }
        }
        assert(b =~= p.push(x));
    }
}

/// Relies on data_encoding's HEXLOWER_PERMISSIVE.encode: two lowercase digits per
/// byte, high nibble first.
#[verifier::external_body]
fn hex_encode(b: &[u8]) -> (r: String)
    ensures
        r@ == hex_text(b@),
{
    data_encoding::HEXLOWER_PERMISSIVE.encode(b)
}

/// Relies on data_encoding's HEXLOWER_PERMISSIVE.decode: it accepts digits of
/// either case, rejects odd lengths and any other symbol.
#[verifier::external_body]
fn hex_decode(s: &str) -> (r: Result<Vec<u8>, data_encoding::DecodeError>)
    ensures
        r is Ok <==> is_hex_text(s@),
        r matches Ok(v) ==> v@ == hex_bytes(s@),
{
    data_encoding::HEXLOWER_PERMISSIVE.decode(s.as_bytes())
}

#[verifier::external_type_specification]
#[verifier::external_body]
pub struct ExDecodeError(data_encoding::DecodeError);

/// Reads a 32-byte key from its hexadecimal text.
fn key_bytes_from_text(s: &str) -> (r: Result<[u8; 32], RouteWeaverError>)
    ensures
        r is Ok <==> is_hex_text(s@) && s@.len() == 64,
        r matches Ok(k) ==> k@ == hex_bytes(s@),
        r matches Err(e) ==> e == RouteWeaverError::KeyParsingError,
{
    match hex_decode(s) {
        Ok(v) => {
            proof {
                lemma_hex_bytes_len(s@);
            }
            if v.len() != 32 {
                return Err(RouteWeaverError::KeyParsingError);
            }
            let mut k = [0u8; 32];
            let mut i: usize = 0;
            while i < 32
                invariant
                    i <= 32,
                    v@.len() == 32,
                    k@.len() == 32,
                    forall|j: int| 0 <= j < i ==> k@[j] == v@[j],
                decreases 32 - i,
            {
                k[i] = v[i];
                i = i + 1;
            }
            assert(k@ =~= v@);
            Ok(k)
        },
        Err(_) => Err(RouteWeaverError::KeyParsingError),
    }
}

pub proof fn lemma_hex_bytes_len(t: Seq<char>)
    ensures
        hex_bytes(t).len() == t.len() / 2,
    decreases t.len(),
{
    if t.len() >= 2 {
        lemma_hex_bytes_len(t.subrange(0, t.len() - 2));
    }
}

/// A node's public Curve25519 key.
#[derive(Debug, Clone, Copy, PartialEq, Eq, Hash, PartialOrd, Ord)]
pub struct PublicKey(pub [u8; 32]);

/// A node's private Curve25519 key. It has no `Debug`, so that it is never
/// printed, and it is wiped when dropped.
pub struct PrivateKey(pub [u8; 32]);

impl PublicKey {
    /// Lowercase hexadecimal text of the key.
    pub fn to_text(&self) -> (r: String)
        ensures
            r@ == hex_text(self.0@),
    {
        hex_encode(self.0.as_slice())
    }

    /// Reads a key from hexadecimal text of either case.
    pub fn from_text(s: &str) -> (r: Result<PublicKey, RouteWeaverError>)
        ensures
            r is Ok <==> is_hex_text(s@) && s@.len() == 64,
            r matches Ok(k) ==> k.0@ == hex_bytes(s@),
            r matches Err(e) ==> e == RouteWeaverError::KeyParsingError,
    {
        match key_bytes_from_text(s) {
            Ok(k) => Ok(PublicKey(k)),
            Err(e) => Err(e),
        }
    }

    /// Whether two keys hold the same bytes.
    pub fn same_as(&self, other: &PublicKey) -> (r: bool)
        ensures
            r == (self.0@ == other.0@),
    {
        let mut i: usize = 0;
        while i < 32
            invariant
                i <= 32,
                forall|j: int| 0 <= j < i ==> self.0@[j] == other.0@[j],
            decreases 32 - i,
        {
            if self.0[i] != other.0[i] {
                return false;
            }
            i = i + 1;
        }
        assert(self.0@ =~= other.0@);
        true
    }
}

/// Relies on zeroize's `Zeroize` for byte arrays: every byte is overwritten
/// with zero, in a way the compiler does not elide.
#[verifier::external_body]
fn wipe_key(k: &mut [u8; 32])
    ensures
        final(k)@ == Seq::new(32, |i: int| 0u8),
    opens_invariants none
    no_unwind
{
    zeroize::Zeroize::zeroize(k)
}

impl Drop for PrivateKey {
    /// The secret is wiped from memory when the key goes away.
    fn drop(&mut self)
        opens_invariants none
        no_unwind
    {
        self.wipe();
    }
}

impl PrivateKey {
    /// Overwrites the secret with zeros.
    pub fn wipe(&mut self)
        ensures
            final(self).0@ == Seq::new(32, |i: int| 0u8),
        opens_invariants none
        no_unwind
    {
        wipe_key(&mut self.0);
    }

    /// Lowercase hexadecimal text of the key.
    pub fn to_text(&self) -> (r: String)
        ensures
            r@ == hex_text(self.0@),
    {
        hex_encode(self.0.as_slice())
    }

    /// Reads a key from hexadecimal text of either case.
    pub fn from_text(s: &str) -> (r: Result<PrivateKey, RouteWeaverError>)
        ensures
            r is Ok <==> is_hex_text(s@) && s@.len() == 64,
            r matches Ok(k) ==> k.0@ == hex_bytes(s@),
            r matches Err(e) ==> e == RouteWeaverError::KeyParsingError,
    {
        match key_bytes_from_text(s) {
            Ok(k) => Ok(PrivateKey(k)),
            Err(e) => Err(e),
        }
    }
}

/// Reading back the text of a key gives the same key.
pub proof fn lemma_key_text_round_trip(k: [u8; 32])
    ensures
        is_hex_text(hex_text(k@)),
        hex_text(k@).len() == 64,
        hex_bytes(hex_text(k@)) == k@,
{
    lemma_hex_round_trip(k@);
    lemma_hex_text_len(k@);
}

} // verus!

verus! {

/// Largest number of payload bytes in one segment (63 KiB).
pub const MAX_MESSAGE_SEGMENT_SIZE: usize = 64512;

/// Largest encoded size of one packet: two keys, a full segment and framing.
pub const MAX_SERIALIZED_PACKET_SIZE: usize = 65700;

/// A vector whose length is meant to stay within `N`.
#[derive(Debug, Clone, Default)]
pub struct LimitedVec<T, const N: usize>(pub Vec<T>);

/// How a reassembled payload was compressed before it was split.
#[derive(Debug, Clone, Copy, PartialEq, Eq, Structural)]
pub enum MessageCompressionMode {
    Lz4,
    Zlib,
}

/// The payload part of a packet.
#[derive(Debug, Clone)]
pub enum MessageSegment {
    /// One chunk of a message, at its position.
    Message { index: u8, data: LimitedVec<u8, MAX_MESSAGE_SEGMENT_SIZE> },
    /// The end marker of a message, with what reassembly checks.
    EndMessage { compression_mode: Option<MessageCompressionMode>, total_indexes: u8, hash: [u8; 32] },
}

/// The one unit placed on the wire.
#[derive(Debug, Clone)]
pub struct Packet {
    pub source: PublicKey,
    pub destination: PublicKey,
    pub message: MessageSegment,
}

/// The mathematical value of a segment.
pub enum SegmentModel {
    Message { index: u8, data: Seq<u8> },
    EndMessage { compression_mode: Option<MessageCompressionMode>, total_indexes: u8, hash: Seq<u8> },
}

/// The mathematical value of a packet.
pub struct PacketModel {
    pub source: Seq<u8>,
    pub destination: Seq<u8>,
    pub message: SegmentModel,
}

impl View for MessageSegment {
    type V = SegmentModel;

    open spec fn view(&self) -> SegmentModel {
        match self {
            MessageSegment::Message { index, data } => SegmentModel::Message {
                index: *index,
                data: data.0@,
            },
            MessageSegment::EndMessage { compression_mode, total_indexes, hash } =>
                SegmentModel::EndMessage {
                compression_mode: *compression_mode,
                total_indexes: *total_indexes,
                hash: hash@,
            },
        }
    }
}

impl View for Packet {
    type V = PacketModel;

    open spec fn view(&self) -> PacketModel {
        PacketModel { source: self.source.0@, destination: self.destination.0@, message: self.message@ }
    }
}

/// A segment that the wire format can carry: a chunk within the size limit, or
/// an end marker that counts at least one chunk.
pub open spec fn segment_wf(m: SegmentModel) -> bool {
    match m {
        SegmentModel::Message { index, data } => data.len() <= MAX_MESSAGE_SEGMENT_SIZE,
        SegmentModel::EndMessage { compression_mode, total_indexes, hash } => total_indexes >= 1
            && hash.len() == 32,
    }
}

pub open spec fn packet_wf(p: PacketModel) -> bool {
    p.source.len() == 32 && p.destination.len() == 32 && segment_wf(p.message)
}

} // verus!

verus! {

/// The carrier a peer is reached over.
#[derive(Debug, Clone, Copy, PartialEq, Eq, Hash, Structural)]
pub enum Protocol {
    Tcp,
    Unix,
    Http,
    Bluetooth,
}

/// An IP address, as its bytes in network order.
#[derive(Debug, Clone, Copy, PartialEq, Eq, Hash)]
pub enum IpAddress {
    V4([u8; 4]),
    V6([u8; 16]),
}

/// Where a peer is reached.
#[derive(Debug, Clone, Copy, PartialEq, Eq, Hash)]
#[non_exhaustive]
pub enum Address {
    Ip(IpAddress),
}

/// A peer: a protocol and an address.
#[derive(Debug, Clone, Copy, PartialEq, Eq, Hash)]
pub struct Peer {
    pub protocol: Protocol,
    pub address: Address,
}

pub enum AddressModel {
    V4(Seq<u8>),
    V6(Seq<u8>),
}

pub struct PeerModel {
    pub protocol: Protocol,
    pub address: AddressModel,
}

impl View for Address {
    type V = AddressModel;

    open spec fn view(&self) -> AddressModel {
        match self {
            Address::Ip(IpAddress::V4(a)) => AddressModel::V4(a@),
            Address::Ip(IpAddress::V6(a)) => AddressModel::V6(a@),
        }
    }
}

impl View for Peer {
    type V = PeerModel;

    open spec fn view(&self) -> PeerModel {
        PeerModel { protocol: self.protocol, address: self.address@ }
    }
}

/// An address the text format can carry: four or sixteen bytes.
pub open spec fn address_wf(a: AddressModel) -> bool {
    match a {
        AddressModel::V4(b) => b.len() == 4,
        AddressModel::V6(b) => b.len() == 16,
    }
}

} // verus!

verus! {

impl core::str::FromStr for PublicKey {
    type Err = RouteWeaverError;

    fn from_str(s: &str) -> (r: Result<PublicKey, RouteWeaverError>)
        ensures
            r is Ok <==> is_hex_text(s@) && s@.len() == 64,
            r matches Ok(k) ==> k.0@ == hex_bytes(s@),
            r matches Err(e) ==> e == RouteWeaverError::KeyParsingError,
    {
        PublicKey::from_text(s)
    }
}

impl core::str::FromStr for PrivateKey {
    type Err = RouteWeaverError;

    fn from_str(s: &str) -> (r: Result<PrivateKey, RouteWeaverError>)
        ensures
            r is Ok <==> is_hex_text(s@) && s@.len() == 64,
            r matches Ok(k) ==> k.0@ == hex_bytes(s@),
            r matches Err(e) ==> e == RouteWeaverError::KeyParsingError,
    {
        PrivateKey::from_text(s)
    }
}

} // verus!
