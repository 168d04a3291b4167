//! A peer-to-peer mesh packet router: the wire model and its binary codec,
//! the text of keys and peers, the segmentation pipeline, the reassembly
//! engine and the per-connection secure channel.
pub mod error;
pub mod proto;
pub mod address;
pub mod codec;
pub mod integrity;
pub mod reassembly;
pub mod segment;
pub mod peer;
pub mod delivery;
