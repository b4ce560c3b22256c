use lanshare::client_state::ClientView;
use lanshare::protocol::{PlayerState, ServerMessage};

fn player(id: u64) -> PlayerState {
    PlayerState { id, x_bits: 0, y_bits: 0, z_bits: 0, yaw_bits: 0, pitch_bits: 0 }
}

#[test]
fn welcome_connects() {
    let mut c = ClientView::new();
    assert!(!c.is_connected());
    c.apply_server_message(&ServerMessage::Welcome { your_id: 3 });
    assert!(c.is_connected());
    assert_eq!(c.local_id, Some(3));
}

#[test]
fn echo_suppression() {
    // The client's own id never appears in its stored remote players
    // after processing a GameState that includes it.
    let mut c = ClientView::new();
    c.apply_server_message(&ServerMessage::Welcome { your_id: 1 });
    c.apply_server_message(&ServerMessage::GameState {
        players: vec![player(0), player(1), player(2)],
    });
    let ids: Vec<u64> = c.remote_players.iter().map(|p| p.id).collect();
    assert_eq!(ids, vec![0, 2]);
}

#[test]
fn game_state_before_welcome_keeps_everyone() {
    let mut c = ClientView::new();
    c.apply_server_message(&ServerMessage::GameState { players: vec![player(0), player(1)] });
    assert_eq!(c.remote_players.len(), 2);
}

#[test]
fn player_left_removes_entry() {
    let mut c = ClientView::new();
    c.apply_server_message(&ServerMessage::Welcome { your_id: 1 });
    c.apply_server_message(&ServerMessage::GameState {
        players: vec![player(0), player(2), player(3)],
    });
    c.apply_server_message(&ServerMessage::PlayerLeft { id: 2 });
    let ids: Vec<u64> = c.remote_players.iter().map(|p| p.id).collect();
    assert_eq!(ids, vec![0, 3]);
}

#[test]
fn media_messages_leave_view_unchanged() {
    let mut c = ClientView::new();
    c.apply_server_message(&ServerMessage::Welcome { your_id: 1 });
    c.apply_server_message(&ServerMessage::GameState { players: vec![player(0)] });
    c.apply_server_message(&ServerMessage::AudioFrame(lanshare::protocol::AudioChunk {
        sequence: 0,
        sample_rate: 48000,
        channels: 2,
        payload: vec![],
    }));
    assert_eq!(c.local_id, Some(1));
    assert_eq!(c.remote_players.len(), 1);
}
