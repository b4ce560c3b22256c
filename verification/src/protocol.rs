//! Message and chunk types shared by every other component.
//!
//! Orientation and position coordinates travel as raw 32-bit patterns of
//! the sender's single-precision values; the library never interprets
//! them numerically, it only stores and forwards them.

use vstd::prelude::*;

verus! {

/// Unique identifier for a player in the session. 0 is reserved for the host.
pub type PlayerId = u64;

/// State of a single player, broadcast by the host.
///
/// `x_bits`, `y_bits`, `z_bits` carry the position coordinates and
/// `yaw_bits`, `pitch_bits` the orientation angles, each as the bit
/// pattern of a 32-bit float.
#[derive(Clone, Copy, Debug, PartialEq, Eq, Structural)]
pub struct PlayerState {
    pub id: PlayerId,
    pub x_bits: u32,
    pub y_bits: u32,
    pub z_bits: u32,
    pub yaw_bits: u32,
    pub pitch_bits: u32,
}

/// Messages sent from a client to the host.
#[derive(Clone, Copy, Debug, PartialEq, Eq, Structural)]
pub enum ClientMessage {
    /// Client requesting to join.
    Join,
    /// Client leaving gracefully.
    Leave,
    /// Client sending its current position and orientation.
    PlayerUpdate { x_bits: u32, y_bits: u32, z_bits: u32, yaw_bits: u32, pitch_bits: u32 },
}

/// One bounded-size slice of an encoded video frame.
#[derive(Clone, Debug)]
pub struct VideoChunk {
    /// Frame sequence number; wraps modulo 2^32.
    pub frame_id: u32,
    /// Chunk index within this frame.
    pub chunk_idx: u16,
    /// Total chunks for this frame.
    pub total_chunks: u16,
    /// Whether this chunk closes a keyframe.
    pub is_keyframe: bool,
    /// Encoded payload bytes.
    pub payload: Vec<u8>,
}

/// One packet of encoded audio. Audio packets are already small, so the
/// sequence number increases per packet rather than per logical frame.
#[derive(Clone, Debug)]
pub struct AudioChunk {
    pub sequence: u32,
    pub sample_rate: u32,
    pub channels: u8,
    pub payload: Vec<u8>,
}

/// Video codec information sent to clients when they join mid-stream.
#[derive(Clone, Debug)]
pub struct VideoCodecInfo {
    /// Codec name as raw bytes.
    pub codec: Vec<u8>,
    pub width: u32,
    pub height: u32,
    pub fps: u32,
    /// Codec extradata (for H.264: SPS/PPS).
    pub extradata: Vec<u8>,
}

/// Messages sent from the host to clients.
#[derive(Clone, Debug)]
pub enum ServerMessage {
    /// Welcome message with the assigned player id.
    Welcome { your_id: PlayerId },
    /// Update containing all player states.
    GameState { players: Vec<PlayerState> },
    /// A player has disconnected.
    PlayerLeft { id: PlayerId },
    /// Video frame chunk.
    VideoFrame(VideoChunk),
    /// Video codec information for client initialization.
    VideoCodec(VideoCodecInfo),
    /// Audio packet.
    AudioFrame(AudioChunk),
}

} // verus!
