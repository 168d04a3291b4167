use vstd::prelude::*;

verus! {

/// Errors reported by the router's library.
#[derive(Debug, Clone, Copy, PartialEq, Eq, Structural)]
pub enum RouteWeaverError {
    IncorrectComputeModuleBehavior,
    PacketEncoding,
    PacketDecoding,
    TransportConnection,
    PeerAddress,
    KeyParsingError,
    Handshake,
}

} // verus!
