use lanshare::protocol::{AudioChunk, ClientMessage, PlayerState, ServerMessage, VideoChunk,
    VideoCodecInfo};
use lanshare::wire::{decode_client_message, decode_server_message, encode_client_message,
    encode_server_message};

#[test]
fn client_join_round_trip() {
    let b = encode_client_message(&ClientMessage::Join);
    assert_eq!(b, vec![0u8]);
    assert_eq!(decode_client_message(&b), Some(ClientMessage::Join));
}

#[test]
fn client_leave_round_trip() {
    let b = encode_client_message(&ClientMessage::Leave);
    assert_eq!(b, vec![1u8]);
    assert_eq!(decode_client_message(&b), Some(ClientMessage::Leave));
}

#[test]
fn client_update_round_trip() {
    let m = ClientMessage::PlayerUpdate {
        x_bits: 1.0f32.to_bits(),
        y_bits: 2.0f32.to_bits(),
        z_bits: 3.0f32.to_bits(),
        yaw_bits: 0.5f32.to_bits(),
        pitch_bits: 0.1f32.to_bits(),
    };
    let b = encode_client_message(&m);
    assert_eq!(b.len(), 21);
    assert_eq!(decode_client_message(&b), Some(m));
}

#[test]
fn client_decode_rejects_garbage() {
    assert_eq!(decode_client_message(&[]), None);
    assert_eq!(decode_client_message(&[9u8]), None);
    // A valid tag with trailing bytes is not an encoding.
    assert_eq!(decode_client_message(&[0u8, 0u8]), None);
    // A PlayerUpdate cut short is not an encoding.
    assert_eq!(decode_client_message(&[2u8, 1, 2, 3]), None);
}

#[test]
fn server_welcome_round_trip() {
    let b = encode_server_message(&ServerMessage::Welcome { your_id: 1 });
    assert_eq!(b.len(), 9);
    match decode_server_message(&b) {
        Some(ServerMessage::Welcome { your_id }) => assert_eq!(your_id, 1),
        other => panic!("wrong decode: {:?}", other),
    }
}

#[test]
fn server_game_state_round_trip() {
    let players = vec![
        PlayerState { id: 0, x_bits: 7, y_bits: 8, z_bits: 9, yaw_bits: 10, pitch_bits: 11 },
        PlayerState { id: 1, x_bits: 1, y_bits: 2, z_bits: 3, yaw_bits: 4, pitch_bits: 5 },
    ];
    let b = encode_server_message(&ServerMessage::GameState { players: players.clone() });
    assert_eq!(b.len(), 5 + 2 * 28);
    match decode_server_message(&b) {
        Some(ServerMessage::GameState { players: got }) => assert_eq!(got, players),
        other => panic!("wrong decode: {:?}", other),
    }
}

#[test]
fn server_player_left_round_trip() {
    let b = encode_server_message(&ServerMessage::PlayerLeft { id: 42 });
    match decode_server_message(&b) {
        Some(ServerMessage::PlayerLeft { id }) => assert_eq!(id, 42),
        other => panic!("wrong decode: {:?}", other),
    }
}

#[test]
fn server_video_frame_round_trip() {
    let chunk = VideoChunk {
        frame_id: 42,
        chunk_idx: 1,
        total_chunks: 3,
        is_keyframe: true,
        payload: vec![0xAA; 4000],
    };
    let b = encode_server_message(&ServerMessage::VideoFrame(chunk));
    assert_eq!(b.len(), 14 + 4000);
    match decode_server_message(&b) {
        Some(ServerMessage::VideoFrame(c)) => {
            assert_eq!(c.frame_id, 42);
            assert_eq!(c.chunk_idx, 1);
            assert_eq!(c.total_chunks, 3);
            assert!(c.is_keyframe);
            assert_eq!(c.payload, vec![0xAA; 4000]);
        }
        other => panic!("wrong decode: {:?}", other),
    }
}

#[test]
fn server_video_codec_round_trip() {
    let info = VideoCodecInfo {
        codec: b"h264".to_vec(),
        width: 1920,
        height: 1080,
        fps: 30,
        extradata: vec![1, 2, 3],
    };
    let b = encode_server_message(&ServerMessage::VideoCodec(info));
    match decode_server_message(&b) {
        Some(ServerMessage::VideoCodec(c)) => {
            assert_eq!(c.codec, b"h264".to_vec());
            assert_eq!(c.width, 1920);
            assert_eq!(c.height, 1080);
            assert_eq!(c.fps, 30);
            assert_eq!(c.extradata, vec![1, 2, 3]);
        }
        other => panic!("wrong decode: {:?}", other),
    }
}

#[test]
fn server_audio_frame_round_trip() {
    let chunk = AudioChunk { sequence: 7, sample_rate: 48000, channels: 2, payload: vec![5; 600] };
    let b = encode_server_message(&ServerMessage::AudioFrame(chunk));
    assert_eq!(b.len(), 14 + 600);
    match decode_server_message(&b) {
        Some(ServerMessage::AudioFrame(c)) => {
            assert_eq!(c.sequence, 7);
            assert_eq!(c.sample_rate, 48000);
            assert_eq!(c.channels, 2);
            assert_eq!(c.payload.len(), 600);
        }
        other => panic!("wrong decode: {:?}", other),
    }
}

#[test]
fn server_decode_rejects_malformed() {
    assert!(decode_server_message(&[]).is_none());
    assert!(decode_server_message(&[9u8, 0, 0]).is_none());
    // Welcome with a wrong length.
    assert!(decode_server_message(&[0u8, 1, 2]).is_none());
    // A video frame whose payload length field disagrees with the data.
    let chunk = VideoChunk {
        frame_id: 1,
        chunk_idx: 0,
        total_chunks: 1,
        is_keyframe: false,
        payload: vec![1, 2, 3],
    };
    let mut b = encode_server_message(&ServerMessage::VideoFrame(chunk));
    b.pop();
    assert!(decode_server_message(&b).is_none());
}
