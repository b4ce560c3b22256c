//! Real-time LAN session and media-streaming library.
//!
//! The crate covers the session protocol between one host and several
//! clients on a LAN: typed messages and their wire encoding, the host's
//! client registry with liveness eviction, the client's view of remote
//! players, fragmentation and reassembly of encoded media payloads,
//! jitter-buffered release of decoded units, and the small decision
//! procedures of the encode/decode pipelines. Socket, capture and codec
//! plumbing lives outside the library and hands it plain values.

pub mod protocol;
pub mod wire;
pub mod assembler;
pub mod jitter;
pub mod session;
pub mod client_state;
pub mod pcm;
pub mod media;
pub mod pixel;
pub mod codecs;
pub mod discovery;
