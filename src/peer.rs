//! Per-connection secure channel: Noise XX over Curve25519, ChaCha20-Poly1305
//! and BLAKE2s, with a versioned prologue.
use crate::error::RouteWeaverError;
use crate::proto::{PrivateKey, PublicKey};
use vstd::prelude::*;

verus! {

/// The Noise handshake pattern and ciphersuite.
pub const NOISE_PATTERN: &'static str = "Noise_XX_25519_ChaChaPoly_BLAKE2s";

/// The prologue mixed into every handshake; it names the protocol's major
/// version, so that incompatible peers fail the handshake.
pub const NOISE_PROLOGUE: &'static str = "router-weaver edition 0";

#[verifier::external_type_specification]
#[verifier::external_body]
pub struct ExHandshakeState(snow::HandshakeState);

#[verifier::external_type_specification]
#[verifier::external_body]
pub struct ExTransportState(snow::TransportState);

#[verifier::external_type_specification]
#[verifier::external_body]
pub struct ExSnowError(snow::Error);

/// The state of a connection's secure channel: handshaking, then, once and
/// for good, established.
pub enum NoiseState {
    Handshake(Box<snow::HandshakeState>),
    Transport(Box<snow::TransportState>),
}

/// The Curve25519 public key that belongs to a private key.
pub uninterp spec fn x25519_public_of(private: Seq<u8>) -> Seq<u8>;

/// Relies on snow's `Builder::generate_keypair`, for a builder made from the
/// pattern and prologue: a fresh random key pair (public, private). For this
/// library's pattern the default resolver always has the random source and
/// Curve25519, so it succeeds with two 32-byte keys, the public one derived
/// from the private one.
#[verifier::external_body]
fn generate_noise_keypair(pattern: &str, prologue: &str) -> (r: Result<(Vec<u8>, Vec<u8>), snow::Error>)
    ensures
        pattern@ == NOISE_PATTERN@ ==> r is Ok,
        r matches Ok(k) ==> pattern@ == NOISE_PATTERN@ ==> k.0@.len() == 32 && k.1@.len() == 32
            && k.0@ == x25519_public_of(k.1@),
{
    let params: snow::params::NoiseParams = pattern.parse()?;
    let keypair = snow::Builder::new(params).prologue(prologue.as_bytes()).generate_keypair()?;
    Ok((keypair.public, keypair.private))
}

/// Relies on snow's `Builder::build_responder`, for a builder made from the
/// pattern, prologue and local private key. For this library's pattern with
/// a 32-byte key every prerequisite is there and every primitive resolves,
/// so it succeeds.
#[verifier::external_body]
fn build_noise_responder(pattern: &str, prologue: &str, key: &[u8]) -> (r: Result<snow::HandshakeState, snow::Error>)
    requires
        key@.len() == 32,
    ensures
        pattern@ == NOISE_PATTERN@ ==> r is Ok,
{
    let params: snow::params::NoiseParams = pattern.parse()?;
    snow::Builder::new(params).prologue(prologue.as_bytes()).local_private_key(key).build_responder()
}

/// Relies on snow's `Builder::build_initiator`, for a builder made from the
/// pattern, prologue and local private key. For this library's pattern with
/// a 32-byte key every prerequisite is there and every primitive resolves,
/// so it succeeds.
#[verifier::external_body]
fn build_noise_initiator(pattern: &str, prologue: &str, key: &[u8]) -> (r: Result<snow::HandshakeState, snow::Error>)
    requires
        key@.len() == 32,
    ensures
        pattern@ == NOISE_PATTERN@ ==> r is Ok,
{
    let params: snow::params::NoiseParams = pattern.parse()?;
    snow::Builder::new(params).prologue(prologue.as_bytes()).local_private_key(key).build_initiator()
}

/// Relies on snow's `HandshakeState::into_transport_mode`: the transport keys
/// of a finished handshake, or an error for one that has not finished.
#[verifier::external_body]
fn noise_into_transport(h: snow::HandshakeState) -> (r: Result<snow::TransportState, snow::Error>) {
    h.into_transport_mode()
}

/// The longest Noise message, handshake or transport.
pub const NOISE_MAX_MESSAGE_LEN: usize = 65535;

/// Relies on snow's `HandshakeState::write_message`: the next handshake
/// message, carrying the payload, written into a buffer of `capacity` bytes.
#[verifier::external_body]
fn noise_handshake_write(h: &mut Box<snow::HandshakeState>, payload: &[u8], capacity: usize) -> (r: Result<Vec<u8>, snow::Error>)
    ensures
        r matches Ok(v) ==> v@.len() <= capacity,
{
    let mut out = vec![0u8; capacity];
    let n = h.write_message(payload, &mut out)?;
    out.truncate(n);
    Ok(out)
}

/// Relies on snow's `HandshakeState::read_message`: the payload of the peer's
/// next handshake message, read into a buffer of `capacity` bytes.
#[verifier::external_body]
fn noise_handshake_read(h: &mut Box<snow::HandshakeState>, message: &[u8], capacity: usize) -> (r: Result<Vec<u8>, snow::Error>)
    ensures
        r matches Ok(v) ==> v@.len() <= capacity,
{
    let mut out = vec![0u8; capacity];
    let n = h.read_message(message, &mut out)?;
    out.truncate(n);
    Ok(out)
}

/// Relies on snow's `TransportState::write_message`: the payload encrypted
/// for the peer, written into a buffer of `capacity` bytes.
#[verifier::external_body]
fn noise_transport_write(t: &mut Box<snow::TransportState>, payload: &[u8], capacity: usize) -> (r: Result<Vec<u8>, snow::Error>)
    ensures
        r matches Ok(v) ==> v@.len() <= capacity,
{
    let mut out = vec![0u8; capacity];
    let n = t.write_message(payload, &mut out)?;
    out.truncate(n);
    Ok(out)
}

/// Relies on snow's `TransportState::read_message`: the decrypted payload of
/// the peer's message, read into a buffer of `capacity` bytes.
#[verifier::external_body]
fn noise_transport_read(t: &mut Box<snow::TransportState>, message: &[u8], capacity: usize) -> (r: Result<Vec<u8>, snow::Error>)
    ensures
        r matches Ok(v) ==> v@.len() <= capacity,
{
    let mut out = vec![0u8; capacity];
    let n = t.read_message(message, &mut out)?;
    out.truncate(n);
    Ok(out)
}

fn key_array(v: &Vec<u8>) -> (r: Option<[u8; 32]>)
    ensures
        r is Some <==> v@.len() == 32,
        r matches Some(k) ==> k@ == v@,
{
    if v.len() != 32 {
        return None;
    }
    let mut k = [0u8; 32];
    let mut i: usize = 0;
    while i < 32
        invariant
            i <= 32,
            v@.len() == 32,
            k@.len() == 32,
            forall|j: int| 0 <= j < i ==> k@[j] == v@[j],
        decreases 32 - i,
    {
        k[i] = v[i];
        i = i + 1;
    }
    assert(k@ =~= v@);
    Some(k)
}

/// A fresh random identity key pair for the channel's Diffie-Hellman
/// function: the public key belongs to the private one.
pub fn create_keypair() -> (r: Result<(PublicKey, PrivateKey), RouteWeaverError>)
    ensures
        r matches Ok((p, s)) && p.0@ == x25519_public_of(s.0@),
{
    match generate_noise_keypair(NOISE_PATTERN, NOISE_PROLOGUE) {
        Ok((public, private)) => match (key_array(&public), key_array(&private)) {
            (Some(p), Some(s)) => Ok((PublicKey(p), PrivateKey(s))),
            _ => Err(RouteWeaverError::Handshake),
        },
        Err(_) => Err(RouteWeaverError::Handshake),
    }
}

/// The channel state of a connection that was accepted: the responder's side
/// of the handshake.
pub fn create_responder(key: &PrivateKey) -> (r: Result<NoiseState, RouteWeaverError>)
    ensures
        r matches Ok(s) && s is Handshake,
{
    match build_noise_responder(NOISE_PATTERN, NOISE_PROLOGUE, key.0.as_slice()) {
        Ok(h) => Ok(NoiseState::Handshake(Box::new(h))),
        Err(_) => Err(RouteWeaverError::Handshake),
    }
}

/// The channel state of a connection that was dialed: the initiator's side
/// of the handshake.
pub fn create_initiator(key: &PrivateKey) -> (r: Result<NoiseState, RouteWeaverError>)
    ensures
        r matches Ok(s) && s is Handshake,
{
    match build_noise_initiator(NOISE_PATTERN, NOISE_PROLOGUE, key.0.as_slice()) {
        Ok(h) => Ok(NoiseState::Handshake(Box::new(h))),
        Err(_) => Err(RouteWeaverError::Handshake),
    }
}

impl NoiseState {
    /// Whether the handshake has completed.
    pub fn is_established(&self) -> (r: bool)
        ensures
            r == (self is Transport),
    {
        match self {
            NoiseState::Handshake(_) => false,
            NoiseState::Transport(_) => true,
        }
    }

    /// The next message to send: a handshake message while handshaking, the
    /// encrypted payload once established. The state stays in its phase; a
    /// failure is fatal to the connection.
    pub fn write_message(&mut self, payload: &[u8]) -> (r: Result<Vec<u8>, RouteWeaverError>)
        ensures
            (*final(self) is Transport) == (*old(self) is Transport),
            r matches Ok(v) ==> v@.len() <= NOISE_MAX_MESSAGE_LEN,
            r is Err ==> r matches Err(RouteWeaverError::Handshake),
    {
        let r = match self {
            NoiseState::Handshake(h) => noise_handshake_write(h, payload, NOISE_MAX_MESSAGE_LEN),
            NoiseState::Transport(t) => noise_transport_write(t, payload, NOISE_MAX_MESSAGE_LEN),
        };
        match r {
            Ok(v) => Ok(v),
            Err(_) => Err(RouteWeaverError::Handshake),
        }
    }

    /// The payload of a received message: read as a handshake message while
    /// handshaking, decrypted once established. The state stays in its
    /// phase; a failure (a wrong key, another prologue, a tampered message)
    /// is fatal to the connection.
    pub fn read_message(&mut self, message: &[u8]) -> (r: Result<Vec<u8>, RouteWeaverError>)
        ensures
            (*final(self) is Transport) == (*old(self) is Transport),
            r matches Ok(v) ==> v@.len() <= NOISE_MAX_MESSAGE_LEN,
            r is Err ==> r matches Err(RouteWeaverError::Handshake),
    {
        let r = match self {
            NoiseState::Handshake(h) => noise_handshake_read(h, message, NOISE_MAX_MESSAGE_LEN),
            NoiseState::Transport(t) => noise_transport_read(t, message, NOISE_MAX_MESSAGE_LEN),
        };
        match r {
            Ok(v) => Ok(v),
            Err(_) => Err(RouteWeaverError::Handshake),
        }
    }

    /// Moves a finished handshake to the established state; an established
    /// channel stays as it is. A handshake that cannot complete is fatal to
    /// the connection and reported as an error.
    pub fn establish(self) -> (r: Result<NoiseState, RouteWeaverError>)
        ensures
            r matches Ok(s) ==> s is Transport,
            self is Transport ==> r is Ok,
            r is Err ==> r matches Err(RouteWeaverError::Handshake),
    {
        match self {
            NoiseState::Handshake(h) => match noise_into_transport(*h) {
                Ok(t) => Ok(NoiseState::Transport(Box::new(t))),
                Err(_) => Err(RouteWeaverError::Handshake),
            },
            NoiseState::Transport(t) => Ok(NoiseState::Transport(t)),
        }
    }
}

} // verus!
