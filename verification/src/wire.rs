//! Binary wire encoding of the session messages.
//!
//! Every datagram carries exactly one self-describing tagged message.
//! All multi-byte integers travel little-endian. The decoder accepts a
//! byte string exactly when it is the encoding of some message, and
//! returns that message; the spec-level parser functions pin both
//! directions down.

use vstd::prelude::*;
use vstd::bytes::*;
use vstd::slice::{slice_subrange, slice_to_vec};
use crate::protocol::{AudioChunk, ClientMessage, PlayerState, ServerMessage, VideoChunk,
    VideoCodecInfo};

verus! {

/// Number of bytes in one encoded `PlayerState`.
pub const PLAYER_STATE_BYTES: usize = 28;

pub open spec fn spec_player_state_bytes(p: PlayerState) -> Seq<u8> {
    spec_u64_to_le_bytes(p.id) + spec_u32_to_le_bytes(p.x_bits) + spec_u32_to_le_bytes(p.y_bits)
        + spec_u32_to_le_bytes(p.z_bits) + spec_u32_to_le_bytes(p.yaw_bits)
        + spec_u32_to_le_bytes(p.pitch_bits)
}

pub open spec fn spec_parse_player_state(d: Seq<u8>) -> PlayerState
    recommends
        d.len() == PLAYER_STATE_BYTES,
{
    PlayerState {
        id: spec_u64_from_le_bytes(d.subrange(0, 8)),
        x_bits: spec_u32_from_le_bytes(d.subrange(8, 12)),
        y_bits: spec_u32_from_le_bytes(d.subrange(12, 16)),
        z_bits: spec_u32_from_le_bytes(d.subrange(16, 20)),
        yaw_bits: spec_u32_from_le_bytes(d.subrange(20, 24)),
        pitch_bits: spec_u32_from_le_bytes(d.subrange(24, 28)),
    }
}

pub proof fn lemma_player_state_bytes_len(p: PlayerState)
    ensures
        spec_player_state_bytes(p).len() == PLAYER_STATE_BYTES,
{
    lemma_auto_spec_u64_to_from_le_bytes();
    lemma_auto_spec_u32_to_from_le_bytes();
}

/// Parsing an encoded player state gives back the player state.
pub proof fn lemma_player_state_round_trip(p: PlayerState)
    ensures
        spec_player_state_bytes(p).len() == PLAYER_STATE_BYTES,
        spec_parse_player_state(spec_player_state_bytes(p)) == p,
{
    lemma_auto_spec_u64_to_from_le_bytes();
    lemma_auto_spec_u32_to_from_le_bytes();
    let d = spec_player_state_bytes(p);
    assert(d.subrange(0, 8) =~= spec_u64_to_le_bytes(p.id));
    assert(d.subrange(8, 12) =~= spec_u32_to_le_bytes(p.x_bits));
    assert(d.subrange(12, 16) =~= spec_u32_to_le_bytes(p.y_bits));
    assert(d.subrange(16, 20) =~= spec_u32_to_le_bytes(p.z_bits));
    assert(d.subrange(20, 24) =~= spec_u32_to_le_bytes(p.yaw_bits));
    assert(d.subrange(24, 28) =~= spec_u32_to_le_bytes(p.pitch_bits));
}

fn push_u16_le(out: &mut Vec<u8>, v: u16)
    ensures
        final(out)@ == old(out)@ + spec_u16_to_le_bytes(v),
{
    let mut b = u16_to_le_bytes(v);
    out.append(&mut b);
}

fn push_u32_le(out: &mut Vec<u8>, v: u32)
    ensures
        final(out)@ == old(out)@ + spec_u32_to_le_bytes(v),
{
    let mut b = u32_to_le_bytes(v);
    out.append(&mut b);
}

fn push_u64_le(out: &mut Vec<u8>, v: u64)
    ensures
        final(out)@ == old(out)@ + spec_u64_to_le_bytes(v),
{
    let mut b = u64_to_le_bytes(v);
    out.append(&mut b);
}

fn push_player_state(out: &mut Vec<u8>, p: &PlayerState)
    ensures
        final(out)@ == old(out)@ + spec_player_state_bytes(*p),
{
    push_u64_le(out, p.id);
    push_u32_le(out, p.x_bits);
    push_u32_le(out, p.y_bits);
    push_u32_le(out, p.z_bits);
    push_u32_le(out, p.yaw_bits);
    push_u32_le(out, p.pitch_bits);
    assert(out@ =~= old(out)@ + spec_player_state_bytes(*p));
}

fn read_player_state(d: &[u8]) -> (p: PlayerState)
    requires
        d@.len() == PLAYER_STATE_BYTES,
    ensures
        p == spec_parse_player_state(d@),
{
    let id = u64_from_le_bytes(slice_subrange(d, 0, 8));
    let x_bits = u32_from_le_bytes(slice_subrange(d, 8, 12));
    let y_bits = u32_from_le_bytes(slice_subrange(d, 12, 16));
    let z_bits = u32_from_le_bytes(slice_subrange(d, 16, 20));
    let yaw_bits = u32_from_le_bytes(slice_subrange(d, 20, 24));
    let pitch_bits = u32_from_le_bytes(slice_subrange(d, 24, 28));
    PlayerState { id, x_bits, y_bits, z_bits, yaw_bits, pitch_bits }
}

// ---------------------------------------------------------------------
// Client messages
// ---------------------------------------------------------------------

pub open spec fn spec_client_message_bytes(m: ClientMessage) -> Seq<u8> {
    match m {
        ClientMessage::Join => seq![0u8],
        ClientMessage::Leave => seq![1u8],
        ClientMessage::PlayerUpdate { x_bits, y_bits, z_bits, yaw_bits, pitch_bits } => seq![2u8]
            + spec_u32_to_le_bytes(x_bits) + spec_u32_to_le_bytes(y_bits)
            + spec_u32_to_le_bytes(z_bits) + spec_u32_to_le_bytes(yaw_bits)
            + spec_u32_to_le_bytes(pitch_bits),
    }
}

pub open spec fn spec_parse_client_message(d: Seq<u8>) -> Option<ClientMessage> {
    if d.len() == 1 && d[0] == 0u8 {
        Some(ClientMessage::Join)
    } else if d.len() == 1 && d[0] == 1u8 {
        Some(ClientMessage::Leave)
    } else if d.len() == 21 && d[0] == 2u8 {
        Some(ClientMessage::PlayerUpdate {
            x_bits: spec_u32_from_le_bytes(d.subrange(1, 5)),
            y_bits: spec_u32_from_le_bytes(d.subrange(5, 9)),
            z_bits: spec_u32_from_le_bytes(d.subrange(9, 13)),
            yaw_bits: spec_u32_from_le_bytes(d.subrange(13, 17)),
            pitch_bits: spec_u32_from_le_bytes(d.subrange(17, 21)),
        })
    } else {
        None
    }
}

/// Parsing an encoded client message gives back the message: the
/// decoder accepts everything the encoder produces, unchanged.
pub proof fn lemma_client_message_round_trip(m: ClientMessage)
    ensures
        spec_parse_client_message(spec_client_message_bytes(m)) == Some(m),
{
    lemma_auto_spec_u32_to_from_le_bytes();
    let d = spec_client_message_bytes(m);
    match m {
        ClientMessage::Join => {}
        ClientMessage::Leave => {}
        ClientMessage::PlayerUpdate { x_bits, y_bits, z_bits, yaw_bits, pitch_bits } => {
            assert(d.subrange(1, 5) =~= spec_u32_to_le_bytes(x_bits));
            assert(d.subrange(5, 9) =~= spec_u32_to_le_bytes(y_bits));
            assert(d.subrange(9, 13) =~= spec_u32_to_le_bytes(z_bits));
            assert(d.subrange(13, 17) =~= spec_u32_to_le_bytes(yaw_bits));
            assert(d.subrange(17, 21) =~= spec_u32_to_le_bytes(pitch_bits));
        }
    }
}

pub fn encode_client_message(m: &ClientMessage) -> (r: Vec<u8>)
    ensures
        r@ == spec_client_message_bytes(*m),
{
    let mut out: Vec<u8> = Vec::new();
    match m {
        ClientMessage::Join => {
            out.push(0u8);
        }
        ClientMessage::Leave => {
            out.push(1u8);
        }
        ClientMessage::PlayerUpdate { x_bits, y_bits, z_bits, yaw_bits, pitch_bits } => {
            out.push(2u8);
            push_u32_le(&mut out, *x_bits);
            push_u32_le(&mut out, *y_bits);
            push_u32_le(&mut out, *z_bits);
            push_u32_le(&mut out, *yaw_bits);
            push_u32_le(&mut out, *pitch_bits);
        }
    }
    proof {
        assert(out@ =~= spec_client_message_bytes(*m));
    }
    out
}

pub fn decode_client_message(d: &[u8]) -> (r: Option<ClientMessage>)
    ensures
        r == spec_parse_client_message(d@),
{
    if d.len() == 1 {
        let tag = d[0];
        if tag == 0 {
            Some(ClientMessage::Join)
        } else if tag == 1 {
            Some(ClientMessage::Leave)
        } else {
            None
        }
    } else if d.len() == 21 && d[0] == 2 {
        let x_bits = u32_from_le_bytes(slice_subrange(d, 1, 5));
        let y_bits = u32_from_le_bytes(slice_subrange(d, 5, 9));
        let z_bits = u32_from_le_bytes(slice_subrange(d, 9, 13));
        let yaw_bits = u32_from_le_bytes(slice_subrange(d, 13, 17));
        let pitch_bits = u32_from_le_bytes(slice_subrange(d, 17, 21));
        Some(ClientMessage::PlayerUpdate { x_bits, y_bits, z_bits, yaw_bits, pitch_bits })
    } else {
        None
    }
}

// ---------------------------------------------------------------------
// Views of the server-message types
// ---------------------------------------------------------------------

/// Mathematical value of a `VideoChunk`.
pub struct ChunkView {
    pub frame_id: u32,
    pub chunk_idx: u16,
    pub total_chunks: u16,
    pub is_keyframe: bool,
    pub payload: Seq<u8>,
}

impl View for VideoChunk {
    type V = ChunkView;

    open spec fn view(&self) -> ChunkView {
        ChunkView {
            frame_id: self.frame_id,
            chunk_idx: self.chunk_idx,
            total_chunks: self.total_chunks,
            is_keyframe: self.is_keyframe,
            payload: self.payload@,
        }
    }
}

/// Mathematical value of an `AudioChunk`.
pub struct AudioView {
    pub sequence: u32,
    pub sample_rate: u32,
    pub channels: u8,
    pub payload: Seq<u8>,
}

impl View for AudioChunk {
    type V = AudioView;

    open spec fn view(&self) -> AudioView {
        AudioView {
            sequence: self.sequence,
            sample_rate: self.sample_rate,
            channels: self.channels,
            payload: self.payload@,
        }
    }
}

/// Mathematical value of a `VideoCodecInfo`.
pub struct CodecInfoView {
    pub codec: Seq<u8>,
    pub width: u32,
    pub height: u32,
    pub fps: u32,
    pub extradata: Seq<u8>,
}

impl View for VideoCodecInfo {
    type V = CodecInfoView;

    open spec fn view(&self) -> CodecInfoView {
        CodecInfoView {
            codec: self.codec@,
            width: self.width,
            height: self.height,
            fps: self.fps,
            extradata: self.extradata@,
        }
    }
}

/// Mathematical value of a `ServerMessage`.
pub enum ServerMessageView {
    Welcome { your_id: u64 },
    GameState { players: Seq<PlayerState> },
    PlayerLeft { id: u64 },
    VideoFrame(ChunkView),
    VideoCodec(CodecInfoView),
    AudioFrame(AudioView),
}

impl View for ServerMessage {
    type V = ServerMessageView;

    open spec fn view(&self) -> ServerMessageView {
        match self {
            ServerMessage::Welcome { your_id } => ServerMessageView::Welcome { your_id: *your_id },
            ServerMessage::GameState { players } => ServerMessageView::GameState {
                players: players@,
            },
            ServerMessage::PlayerLeft { id } => ServerMessageView::PlayerLeft { id: *id },
            ServerMessage::VideoFrame(c) => ServerMessageView::VideoFrame(c@),
            ServerMessage::VideoCodec(c) => ServerMessageView::VideoCodec(c@),
            ServerMessage::AudioFrame(c) => ServerMessageView::AudioFrame(c@),
        }
    }
}

// ---------------------------------------------------------------------
// Server messages: spec encoding and spec parsing
// ---------------------------------------------------------------------

pub open spec fn spec_players_bytes(ps: Seq<PlayerState>) -> Seq<u8>
    decreases ps.len(),
{
    if ps.len() == 0 {
        Seq::<u8>::empty()
    } else {
        spec_player_state_bytes(ps[0]) + spec_players_bytes(ps.skip(1))
    }
}

pub proof fn lemma_players_bytes_len(ps: Seq<PlayerState>)
    ensures
        spec_players_bytes(ps).len() == PLAYER_STATE_BYTES * ps.len(),
    decreases ps.len(),
{
    if ps.len() > 0 {
        lemma_player_state_bytes_len(ps[0]);
        lemma_players_bytes_len(ps.skip(1));
    }
}

pub proof fn lemma_players_bytes_push(ps: Seq<PlayerState>, p: PlayerState)
    ensures
        spec_players_bytes(ps.push(p)) == spec_players_bytes(ps) + spec_player_state_bytes(p),
    decreases ps.len(),
{
    let q = ps.push(p);
    if ps.len() == 0 {
        assert(q[0] == p);
        assert(q.skip(1) =~= Seq::<PlayerState>::empty());
        assert(spec_players_bytes(q) == spec_player_state_bytes(p)
            + spec_players_bytes(q.skip(1)));
        assert(spec_players_bytes(q) =~= spec_players_bytes(ps) + spec_player_state_bytes(p));
    } else {
        assert(q[0] == ps[0]);
        assert(q.skip(1) =~= ps.skip(1).push(p));
        lemma_players_bytes_push(ps.skip(1), p);
        assert(spec_players_bytes(q) == spec_player_state_bytes(ps[0]) + (spec_players_bytes(
            ps.skip(1),
        ) + spec_player_state_bytes(p)));
        assert(spec_players_bytes(q) =~= spec_players_bytes(ps) + spec_player_state_bytes(p));
    }
}

pub open spec fn spec_parse_players(d: Seq<u8>, n: nat) -> Option<Seq<PlayerState>>
    decreases n,
{
    if n == 0 {
        if d.len() == 0 {
            Some(Seq::<PlayerState>::empty())
        } else {
            None
        }
    } else if d.len() < PLAYER_STATE_BYTES {
        None
    } else {
        match spec_parse_players(d.skip(PLAYER_STATE_BYTES as int), (n - 1) as nat) {
            Some(rest) => Some(
                seq![spec_parse_player_state(d.subrange(0, PLAYER_STATE_BYTES as int))] + rest,
            ),
            None => None,
        }
    }
}

/// A player list parses successfully exactly when the bytes have the
/// exact length the count asks for.
pub proof fn lemma_parse_players_len(d: Seq<u8>, n: nat)
    ensures
        spec_parse_players(d, n) is Some <==> d.len() == PLAYER_STATE_BYTES * n,
        spec_parse_players(d, n) matches Some(ps) ==> ps.len() == n,
    decreases n,
{
    if n > 0 && d.len() >= PLAYER_STATE_BYTES {
        lemma_parse_players_len(d.skip(PLAYER_STATE_BYTES as int), (n - 1) as nat);
    }
}

/// The bytes that encode the server-message cases. Chunk payload and
/// codec byte-string lengths are sent as 32-bit counts.
pub open spec fn spec_server_message_bytes(m: ServerMessageView) -> Seq<u8> {
    match m {
        ServerMessageView::Welcome { your_id } => seq![0u8] + spec_u64_to_le_bytes(your_id),
        ServerMessageView::GameState { players } => seq![1u8]
            + spec_u32_to_le_bytes(players.len() as u32) + spec_players_bytes(players),
        ServerMessageView::PlayerLeft { id } => seq![2u8] + spec_u64_to_le_bytes(id),
        ServerMessageView::VideoFrame(c) => seq![3u8] + spec_u32_to_le_bytes(c.frame_id)
            + spec_u16_to_le_bytes(c.chunk_idx) + spec_u16_to_le_bytes(c.total_chunks)
            + seq![if c.is_keyframe { 1u8 } else { 0u8 }]
            + spec_u32_to_le_bytes(c.payload.len() as u32) + c.payload,
        ServerMessageView::VideoCodec(c) => seq![4u8] + spec_u32_to_le_bytes(c.codec.len() as u32)
            + c.codec + spec_u32_to_le_bytes(c.width) + spec_u32_to_le_bytes(c.height)
            + spec_u32_to_le_bytes(c.fps) + spec_u32_to_le_bytes(c.extradata.len() as u32)
            + c.extradata,
        ServerMessageView::AudioFrame(c) => seq![5u8] + spec_u32_to_le_bytes(c.sequence)
            + spec_u32_to_le_bytes(c.sample_rate) + seq![c.channels]
            + spec_u32_to_le_bytes(c.payload.len() as u32) + c.payload,
    }
}

/// What the encoder requires of a message: every length that travels
/// as a 32-bit count must fit in 32 bits.
pub open spec fn server_message_fits(m: ServerMessageView) -> bool {
    match m {
        ServerMessageView::Welcome { .. } => true,
        ServerMessageView::GameState { players } => players.len() <= u32::MAX,
        ServerMessageView::PlayerLeft { .. } => true,
        ServerMessageView::VideoFrame(c) => c.payload.len() <= u32::MAX,
        ServerMessageView::VideoCodec(c) => c.codec.len() <= u32::MAX && c.extradata.len()
            <= u32::MAX,
        ServerMessageView::AudioFrame(c) => c.payload.len() <= u32::MAX,
    }
}

pub open spec fn spec_parse_server_message(d: Seq<u8>) -> Option<ServerMessageView> {
    if d.len() >= 1 && d[0] == 0u8 && d.len() == 9 {
        Some(ServerMessageView::Welcome { your_id: spec_u64_from_le_bytes(d.subrange(1, 9)) })
    } else if d.len() >= 5 && d[0] == 1u8 {
        let n = spec_u32_from_le_bytes(d.subrange(1, 5));
        match spec_parse_players(d.skip(5), n as nat) {
            Some(ps) => Some(ServerMessageView::GameState { players: ps }),
            None => None,
        }
    } else if d.len() >= 1 && d[0] == 2u8 && d.len() == 9 {
        Some(ServerMessageView::PlayerLeft { id: spec_u64_from_le_bytes(d.subrange(1, 9)) })
    } else if d.len() >= 14 && d[0] == 3u8 && (d[9] == 0u8 || d[9] == 1u8) && d.len() == 14
        + spec_u32_from_le_bytes(d.subrange(10, 14)) {
        Some(ServerMessageView::VideoFrame(ChunkView {
            frame_id: spec_u32_from_le_bytes(d.subrange(1, 5)),
            chunk_idx: spec_u16_from_le_bytes(d.subrange(5, 7)),
            total_chunks: spec_u16_from_le_bytes(d.subrange(7, 9)),
            is_keyframe: d[9] == 1u8,
            payload: d.skip(14),
        }))
    } else if d.len() >= 5 && d[0] == 4u8 {
        let clen = spec_u32_from_le_bytes(d.subrange(1, 5)) as int;
        if d.len() >= 5 + clen + 16 {
            let elen = spec_u32_from_le_bytes(d.subrange(5 + clen + 12, 5 + clen + 16)) as int;
            if d.len() == 5 + clen + 16 + elen {
                Some(ServerMessageView::VideoCodec(CodecInfoView {
                    codec: d.subrange(5, 5 + clen),
                    width: spec_u32_from_le_bytes(d.subrange(5 + clen, 5 + clen + 4)),
                    height: spec_u32_from_le_bytes(d.subrange(5 + clen + 4, 5 + clen + 8)),
                    fps: spec_u32_from_le_bytes(d.subrange(5 + clen + 8, 5 + clen + 12)),
                    extradata: d.skip(5 + clen + 16),
                }))
            } else {
                None
            }
        } else {
            None
        }
    } else if d.len() >= 14 && d[0] == 5u8 && d.len() == 14 + spec_u32_from_le_bytes(
        d.subrange(10, 14),
    ) {
        Some(ServerMessageView::AudioFrame(AudioView {
            sequence: spec_u32_from_le_bytes(d.subrange(1, 5)),
            sample_rate: spec_u32_from_le_bytes(d.subrange(5, 9)),
            channels: d[9],
            payload: d.skip(14),
        }))
    } else {
        None
    }
}

// ---------------------------------------------------------------------
// Server messages: executable encoder
// ---------------------------------------------------------------------

fn append_bytes(out: &mut Vec<u8>, data: &Vec<u8>)
    ensures
        final(out)@ == old(out)@ + data@,
{
    let mut i: usize = 0;
    while i < data.len()
        invariant
            i <= data.len(),
            out@ == old(out)@ + data@.take(i as int),
        decreases data.len() - i,
    {
        out.push(data[i]);
        proof {
            assert(data@.take(i + 1) =~= data@.take(i as int).push(data@[i as int]));
            assert(old(out)@ + data@.take(i + 1) =~= (old(out)@ + data@.take(i as int)).push(
                data@[i as int],
            ));
        }
        i = i + 1;
    }
    proof {
        assert(data@.take(data@.len() as int) =~= data@);
    }
}

pub fn encode_server_message(m: &ServerMessage) -> (r: Vec<u8>)
    requires
        server_message_fits(m@),
    ensures
        r@ == spec_server_message_bytes(m@),
{
    let mut out: Vec<u8> = Vec::new();
    match m {
        ServerMessage::Welcome { your_id } => {
            out.push(0u8);
            push_u64_le(&mut out, *your_id);
        }
        ServerMessage::GameState { players } => {
            out.push(1u8);
            push_u32_le(&mut out, players.len() as u32);
            let ghost prefix = out@;
            let mut i: usize = 0;
            while i < players.len()
                invariant
                    i <= players.len(),
                    out@ == prefix + spec_players_bytes(players@.take(i as int)),
                decreases players.len() - i,
            {
                let p = players[i];
                push_player_state(&mut out, &p);
                proof {
                    lemma_players_bytes_push(players@.take(i as int), players@[i as int]);
                    assert(players@.take(i + 1) =~= players@.take(i as int).push(
                        players@[i as int],
                    ));
                    assert(prefix + spec_players_bytes(players@.take(i + 1)) =~= (prefix
                        + spec_players_bytes(players@.take(i as int)))
                        + spec_player_state_bytes(players@[i as int]));
                }
                i = i + 1;
            }
            proof {
                assert(players@.take(players@.len() as int) =~= players@);
            }
        }
        ServerMessage::PlayerLeft { id } => {
            out.push(2u8);
            push_u64_le(&mut out, *id);
        }
        ServerMessage::VideoFrame(c) => {
            out.push(3u8);
            push_u32_le(&mut out, c.frame_id);
            push_u16_le(&mut out, c.chunk_idx);
            push_u16_le(&mut out, c.total_chunks);
            if c.is_keyframe {
                out.push(1u8);
            } else {
                out.push(0u8);
            }
            push_u32_le(&mut out, c.payload.len() as u32);
            append_bytes(&mut out, &c.payload);
        }
        ServerMessage::VideoCodec(c) => {
            out.push(4u8);
            push_u32_le(&mut out, c.codec.len() as u32);
            append_bytes(&mut out, &c.codec);
            push_u32_le(&mut out, c.width);
            push_u32_le(&mut out, c.height);
            push_u32_le(&mut out, c.fps);
            push_u32_le(&mut out, c.extradata.len() as u32);
            append_bytes(&mut out, &c.extradata);
        }
        ServerMessage::AudioFrame(c) => {
            out.push(5u8);
            push_u32_le(&mut out, c.sequence);
            push_u32_le(&mut out, c.sample_rate);
            out.push(c.channels);
            push_u32_le(&mut out, c.payload.len() as u32);
            append_bytes(&mut out, &c.payload);
        }
    }
    proof {
        assert(out@ =~= spec_server_message_bytes(m@));
    }
    out
}

// ---------------------------------------------------------------------
// Server messages: executable decoder
// ---------------------------------------------------------------------

/// Every successfully parsed player list is indexed by 28-byte blocks.
pub proof fn lemma_parse_players_index(d: Seq<u8>, n: nat)
    requires
        d.len() == PLAYER_STATE_BYTES * n,
    ensures
        spec_parse_players(d, n) is Some,
        spec_parse_players(d, n).unwrap().len() == n,
        forall|k: int|
            0 <= k < n ==> spec_parse_players(d, n).unwrap()[k] == spec_parse_player_state(
                d.subrange(PLAYER_STATE_BYTES * k, PLAYER_STATE_BYTES * (k + 1)),
            ),
    decreases n,
{
    lemma_parse_players_len(d, n);
    if n > 0 {
        let tail = d.skip(PLAYER_STATE_BYTES as int);
        lemma_parse_players_index(tail, (n - 1) as nat);
        let ps = spec_parse_players(d, n).unwrap();
        let rest = spec_parse_players(tail, (n - 1) as nat).unwrap();
        assert forall|k: int| 0 <= k < n implies ps[k] == spec_parse_player_state(
            d.subrange(PLAYER_STATE_BYTES * k, PLAYER_STATE_BYTES * (k + 1)),
        ) by {
            if k == 0 {
                assert(ps[0] == spec_parse_player_state(d.subrange(0, PLAYER_STATE_BYTES as int)));
            } else {
                assert(ps[k] == rest[k - 1]);
                assert(rest[k - 1] == spec_parse_player_state(
                    tail.subrange(PLAYER_STATE_BYTES * (k - 1), PLAYER_STATE_BYTES * k),
                ));
                assert(tail.subrange(PLAYER_STATE_BYTES * (k - 1), PLAYER_STATE_BYTES * k)
                    =~= d.subrange(PLAYER_STATE_BYTES * k, PLAYER_STATE_BYTES * (k + 1)));
            }
        }
    }
}

fn read_players(d: &[u8], n: u32) -> (r: Vec<PlayerState>)
    requires
        d@.len() == PLAYER_STATE_BYTES * (n as nat),
    ensures
        spec_parse_players(d@, n as nat) == Some(r@),
{
    proof {
        lemma_parse_players_index(d@, n as nat);
    }
    let ghost ps = spec_parse_players(d@, n as nat).unwrap();
    let mut acc: Vec<PlayerState> = Vec::new();
    let mut i: usize = 0;
    let mut off: usize = 0;
    while i < n as usize
        invariant
            i <= n,
            off == PLAYER_STATE_BYTES * i,
            d@.len() == PLAYER_STATE_BYTES * (n as nat),
            ps == spec_parse_players(d@, n as nat).unwrap(),
            spec_parse_players(d@, n as nat) is Some,
            ps.len() == n,
            forall|k: int|
                0 <= k < n ==> ps[k] == spec_parse_player_state(
                    d@.subrange(PLAYER_STATE_BYTES * k, PLAYER_STATE_BYTES * (k + 1)),
                ),
            acc@ == ps.take(i as int),
        decreases n - i,
    {
        let dlen: usize = d.len();
        proof {
            assert(PLAYER_STATE_BYTES * (i + 1) <= PLAYER_STATE_BYTES * (n as int));
            assert(off + PLAYER_STATE_BYTES <= dlen);
        }
        let block = slice_subrange(d, off, off + PLAYER_STATE_BYTES);
        let p = read_player_state(block);
        acc.push(p);
        proof {
            assert(block@ == d@.subrange(PLAYER_STATE_BYTES * (i as int), PLAYER_STATE_BYTES * (
            i + 1)));
            assert(p == ps[i as int]);
            assert(ps.take(i + 1) =~= ps.take(i as int).push(ps[i as int]));
        }
        i = i + 1;
        off = off + PLAYER_STATE_BYTES;
    }
    proof {
        assert(ps.take(ps.len() as int) =~= ps);
    }
    acc
}

pub fn decode_server_message(d: &[u8]) -> (r: Option<ServerMessage>)
    ensures
        match r {
            Some(m) => spec_parse_server_message(d@) == Some(m@),
            None => spec_parse_server_message(d@) is None,
        },
{
    if d.len() < 1 {
        return None;
    }
    let tag = d[0];
    if tag == 0 {
        if d.len() == 9 {
            let your_id = u64_from_le_bytes(slice_subrange(d, 1, 9));
            Some(ServerMessage::Welcome { your_id })
        } else {
            None
        }
    } else if tag == 1 {
        if d.len() < 5 {
            return None;
        }
        let n = u32_from_le_bytes(slice_subrange(d, 1, 5));
        proof {
            assert(d@.subrange(1, 5) == d@.skip(0).subrange(1, 5));
        }
        let needed: u64 = 5 + PLAYER_STATE_BYTES as u64 * n as u64;
        if d.len() as u64 != needed {
            proof {
                lemma_parse_players_len(d@.skip(5), n as nat);
            }
            return None;
        }
        let body = slice_subrange(d, 5, d.len());
        proof {
            assert(body@ =~= d@.skip(5));
        }
        let players = read_players(body, n);
        Some(ServerMessage::GameState { players })
    } else if tag == 2 {
        if d.len() == 9 {
            let id = u64_from_le_bytes(slice_subrange(d, 1, 9));
            Some(ServerMessage::PlayerLeft { id })
        } else {
            None
        }
    } else if tag == 3 {
        if d.len() < 14 {
            return None;
        }
        let kf_byte = d[9];
        if kf_byte != 0 && kf_byte != 1 {
            return None;
        }
        let plen = u32_from_le_bytes(slice_subrange(d, 10, 14));
        if d.len() as u64 != 14 + plen as u64 {
            return None;
        }
        let frame_id = u32_from_le_bytes(slice_subrange(d, 1, 5));
        let chunk_idx = u16_from_le_bytes(slice_subrange(d, 5, 7));
        let total_chunks = u16_from_le_bytes(slice_subrange(d, 7, 9));
        let payload = slice_to_vec(slice_subrange(d, 14, d.len()));
        proof {
            assert(payload@ =~= d@.skip(14));
        }
        Some(ServerMessage::VideoFrame(VideoChunk {
            frame_id,
            chunk_idx,
            total_chunks,
            is_keyframe: kf_byte == 1,
            payload,
        }))
    } else if tag == 4 {
        if d.len() < 5 {
            return None;
        }
        let clen = u32_from_le_bytes(slice_subrange(d, 1, 5));
        if (d.len() as u64) < 5 + clen as u64 + 16 {
            return None;
        }
        let base: usize = 5 + clen as usize;
        let elen = u32_from_le_bytes(slice_subrange(d, base + 12, base + 16));
        if d.len() as u64 != 5 + clen as u64 + 16 + elen as u64 {
            return None;
        }
        let codec = slice_to_vec(slice_subrange(d, 5, base));
        let width = u32_from_le_bytes(slice_subrange(d, base, base + 4));
        let height = u32_from_le_bytes(slice_subrange(d, base + 4, base + 8));
        let fps = u32_from_le_bytes(slice_subrange(d, base + 8, base + 12));
        let extradata = slice_to_vec(slice_subrange(d, base + 16, d.len()));
        proof {
            assert(extradata@ =~= d@.skip(5 + clen as int + 16));
        }
        Some(ServerMessage::VideoCodec(VideoCodecInfo { codec, width, height, fps, extradata }))
    } else if tag == 5 {
        if d.len() < 14 {
            return None;
        }
        let plen = u32_from_le_bytes(slice_subrange(d, 10, 14));
        if d.len() as u64 != 14 + plen as u64 {
            return None;
        }
        let sequence = u32_from_le_bytes(slice_subrange(d, 1, 5));
        let sample_rate = u32_from_le_bytes(slice_subrange(d, 5, 9));
        let channels = d[9];
        let payload = slice_to_vec(slice_subrange(d, 14, d.len()));
        proof {
            assert(payload@ =~= d@.skip(14));
        }
        Some(ServerMessage::AudioFrame(AudioChunk { sequence, sample_rate, channels, payload }))
    } else {
        None
    }
}

// ---------------------------------------------------------------------
// Round trip: parsing an encoding gives back the message
// ---------------------------------------------------------------------

pub proof fn lemma_players_round_trip(ps: Seq<PlayerState>)
    ensures
        spec_parse_players(spec_players_bytes(ps), ps.len() as nat) == Some(ps),
    decreases ps.len(),
{
    if ps.len() > 0 {
        let d = spec_players_bytes(ps);
        lemma_player_state_bytes_len(ps[0]);
        lemma_players_bytes_len(ps.skip(1));
        assert(d.subrange(0, PLAYER_STATE_BYTES as int) =~= spec_player_state_bytes(ps[0]));
        assert(d.skip(PLAYER_STATE_BYTES as int) =~= spec_players_bytes(ps.skip(1)));
        lemma_players_round_trip(ps.skip(1));
        lemma_player_state_round_trip(ps[0]);
        assert(seq![ps[0]] + ps.skip(1) =~= ps);
    }
}

/// Parsing an encoded server message gives back the message: the
/// decoder accepts everything the encoder produces, unchanged.
pub proof fn lemma_server_message_round_trip(m: ServerMessageView)
    requires
        server_message_fits(m),
    ensures
        spec_parse_server_message(spec_server_message_bytes(m)) == Some(m),
{
    lemma_auto_spec_u16_to_from_le_bytes();
    lemma_auto_spec_u32_to_from_le_bytes();
    lemma_auto_spec_u64_to_from_le_bytes();
    let d = spec_server_message_bytes(m);
    match m {
        ServerMessageView::Welcome { your_id } => {
            assert(d.subrange(1, 9) =~= spec_u64_to_le_bytes(your_id));
        }
        ServerMessageView::GameState { players } => {
            lemma_players_bytes_len(players);
            assert(d.subrange(1, 5) =~= spec_u32_to_le_bytes(players.len() as u32));
            assert(d.skip(5) =~= spec_players_bytes(players));
            lemma_players_round_trip(players);
            assert(spec_u32_from_le_bytes(d.subrange(1, 5)) as nat == players.len());
        }
        ServerMessageView::PlayerLeft { id } => {
            assert(d.subrange(1, 9) =~= spec_u64_to_le_bytes(id));
        }
        ServerMessageView::VideoFrame(c) => {
            assert(d.subrange(1, 5) =~= spec_u32_to_le_bytes(c.frame_id));
            assert(d.subrange(5, 7) =~= spec_u16_to_le_bytes(c.chunk_idx));
            assert(d.subrange(7, 9) =~= spec_u16_to_le_bytes(c.total_chunks));
            assert(d[9] == if c.is_keyframe { 1u8 } else { 0u8 });
            assert(d.subrange(10, 14) =~= spec_u32_to_le_bytes(c.payload.len() as u32));
            assert(d.skip(14) =~= c.payload);
        }
        ServerMessageView::VideoCodec(c) => {
            let clen = c.codec.len() as int;
            assert(d.subrange(1, 5) =~= spec_u32_to_le_bytes(c.codec.len() as u32));
            assert(d.subrange(5, 5 + clen) =~= c.codec);
            assert(d.subrange(5 + clen, 5 + clen + 4) =~= spec_u32_to_le_bytes(c.width));
            assert(d.subrange(5 + clen + 4, 5 + clen + 8) =~= spec_u32_to_le_bytes(c.height));
            assert(d.subrange(5 + clen + 8, 5 + clen + 12) =~= spec_u32_to_le_bytes(c.fps));
            assert(d.subrange(5 + clen + 12, 5 + clen + 16) =~= spec_u32_to_le_bytes(
                c.extradata.len() as u32,
            ));
            assert(d.skip(5 + clen + 16) =~= c.extradata);
        }
        ServerMessageView::AudioFrame(c) => {
            assert(d.subrange(1, 5) =~= spec_u32_to_le_bytes(c.sequence));
            assert(d.subrange(5, 9) =~= spec_u32_to_le_bytes(c.sample_rate));
            assert(d[9] == c.channels);
            assert(d.subrange(10, 14) =~= spec_u32_to_le_bytes(c.payload.len() as u32));
            assert(d.skip(14) =~= c.payload);
        }
    }
}

} // verus!
