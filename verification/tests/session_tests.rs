use lanshare::protocol::{ClientMessage, PlayerState, ServerMessage};
use lanshare::session::{SessionState, CLIENT_TIMEOUT_MS};

fn host_state() -> PlayerState {
    PlayerState {
        id: 0,
        x_bits: 0.0f32.to_bits(),
        y_bits: 1.8f32.to_bits(),
        z_bits: 4.0f32.to_bits(),
        yaw_bits: std::f32::consts::PI.to_bits(),
        pitch_bits: 0.0f32.to_bits(),
    }
}

fn spawn_state() -> PlayerState {
    host_state()
}

#[test]
fn join_update_leave_scenario() {
    let mut s = SessionState::new(host_state());

    // Client at address 100 sends Join; the host answers Welcome{1}.
    let outs = s.handle_message(100, &ClientMessage::Join, 0, spawn_state());
    assert_eq!(outs.len(), 1);
    assert_eq!(outs[0].dest, 100);
    match &outs[0].msg {
        ServerMessage::Welcome { your_id } => assert_eq!(*your_id, 1),
        other => panic!("expected Welcome, got {:?}", other),
    }

    // The client reports position (1, 2, 3), yaw 0.5, pitch 0.1.
    let update = ClientMessage::PlayerUpdate {
        x_bits: 1.0f32.to_bits(),
        y_bits: 2.0f32.to_bits(),
        z_bits: 3.0f32.to_bits(),
        yaw_bits: 0.5f32.to_bits(),
        pitch_bits: 0.1f32.to_bits(),
    };
    let outs = s.handle_message(100, &update, 10, spawn_state());
    assert!(outs.is_empty());

    // The next GameState broadcast includes that state under id 1.
    let (msg, targets) = s.game_state_broadcast();
    assert_eq!(targets, vec![100]);
    match msg {
        ServerMessage::GameState { players } => {
            assert_eq!(players.len(), 2);
            let p = players.iter().find(|p| p.id == 1).expect("player 1 present");
            assert_eq!(f32::from_bits(p.x_bits), 1.0);
            assert_eq!(f32::from_bits(p.y_bits), 2.0);
            assert_eq!(f32::from_bits(p.z_bits), 3.0);
            assert_eq!(f32::from_bits(p.yaw_bits), 0.5);
            assert_eq!(f32::from_bits(p.pitch_bits), 0.1);
        }
        other => panic!("expected GameState, got {:?}", other),
    }

    // A second client joins, so the leave has an audience.
    let outs = s.handle_message(200, &ClientMessage::Join, 20, spawn_state());
    assert_eq!(outs.len(), 1);

    // Client 1 leaves: its entry goes away and the remaining client
    // is told PlayerLeft{1}.
    let outs = s.handle_message(100, &ClientMessage::Leave, 30, spawn_state());
    assert_eq!(outs.len(), 1);
    assert_eq!(outs[0].dest, 200);
    match &outs[0].msg {
        ServerMessage::PlayerLeft { id } => assert_eq!(*id, 1),
        other => panic!("expected PlayerLeft, got {:?}", other),
    }
    let (msg, _) = s.game_state_broadcast();
    match msg {
        ServerMessage::GameState { players } => {
            assert!(players.iter().all(|p| p.id != 1));
            assert_eq!(players.len(), 2);
        }
        other => panic!("expected GameState, got {:?}", other),
    }
}

#[test]
fn duplicate_join_is_refused() {
    let mut s = SessionState::new(host_state());
    let first = s.handle_message(100, &ClientMessage::Join, 0, spawn_state());
    assert_eq!(first.len(), 1);
    let second = s.handle_message(100, &ClientMessage::Join, 1, spawn_state());
    assert!(second.is_empty());
}

#[test]
fn update_from_unknown_sender_is_ignored() {
    let mut s = SessionState::new(host_state());
    let update = ClientMessage::PlayerUpdate {
        x_bits: 0,
        y_bits: 0,
        z_bits: 0,
        yaw_bits: 0,
        pitch_bits: 0,
    };
    let outs = s.handle_message(999, &update, 0, spawn_state());
    assert!(outs.is_empty());
    let (msg, _) = s.game_state_broadcast();
    match msg {
        ServerMessage::GameState { players } => assert_eq!(players.len(), 1),
        other => panic!("expected GameState, got {:?}", other),
    }
}

#[test]
fn timeout_eviction() {
    // A registered client that sends nothing for more than 5 s of
    // simulated clock is removed and triggers exactly one PlayerLeft
    // broadcast to each remaining client.
    let mut s = SessionState::new(host_state());
    s.handle_message(100, &ClientMessage::Join, 0, spawn_state());
    s.handle_message(200, &ClientMessage::Join, 0, spawn_state());

    // Client 200 stays alive; client 100 goes silent.
    let update = ClientMessage::PlayerUpdate {
        x_bits: 0,
        y_bits: 0,
        z_bits: 0,
        yaw_bits: 0,
        pitch_bits: 0,
    };
    s.handle_message(200, &update, 4000, spawn_state());

    // At 5000 ms nothing has exceeded the timeout yet.
    let (evicted, outs) = s.evict_timed_out(CLIENT_TIMEOUT_MS);
    assert!(evicted.is_empty());
    assert!(outs.is_empty());

    // Just past the timeout, client 100 (id 1) is evicted.
    let (evicted, outs) = s.evict_timed_out(CLIENT_TIMEOUT_MS + 1);
    assert_eq!(evicted, vec![1]);
    assert_eq!(outs.len(), 1);
    assert_eq!(outs[0].dest, 200);
    match &outs[0].msg {
        ServerMessage::PlayerLeft { id } => assert_eq!(*id, 1),
        other => panic!("expected PlayerLeft, got {:?}", other),
    }

    // A second sweep finds nothing: the eviction happened exactly once.
    let (evicted, outs) = s.evict_timed_out(CLIENT_TIMEOUT_MS + 2);
    assert!(evicted.is_empty());
    assert!(outs.is_empty());

    // The evicted player's state is gone; the survivor remains.
    let (msg, targets) = s.game_state_broadcast();
    assert_eq!(targets, vec![200]);
    match msg {
        ServerMessage::GameState { players } => {
            assert_eq!(players.len(), 2);
            assert!(players.iter().all(|p| p.id != 1));
        }
        other => panic!("expected GameState, got {:?}", other),
    }
}

#[test]
fn eviction_of_all_clients() {
    let mut s = SessionState::new(host_state());
    s.handle_message(100, &ClientMessage::Join, 0, spawn_state());
    s.handle_message(200, &ClientMessage::Join, 0, spawn_state());
    let (evicted, outs) = s.evict_timed_out(CLIENT_TIMEOUT_MS + 1);
    assert_eq!(evicted, vec![1, 2]);
    // Nobody is left to notify.
    assert!(outs.is_empty());
}

#[test]
fn ids_increase_monotonically() {
    let mut s = SessionState::new(host_state());
    s.handle_message(100, &ClientMessage::Join, 0, spawn_state());
    s.handle_message(200, &ClientMessage::Join, 0, spawn_state());
    s.handle_message(100, &ClientMessage::Leave, 1, spawn_state());
    // A rejoining client gets a fresh id, not the reused one.
    let outs = s.handle_message(100, &ClientMessage::Join, 2, spawn_state());
    match &outs[0].msg {
        ServerMessage::Welcome { your_id } => assert_eq!(*your_id, 3),
        other => panic!("expected Welcome, got {:?}", other),
    }
}

#[test]
fn set_player_state_updates_host() {
    let mut s = SessionState::new(host_state());
    assert!(s.set_player_state(0, 1, 2, 3, 4, 5));
    let (msg, _) = s.game_state_broadcast();
    match msg {
        ServerMessage::GameState { players } => {
            assert_eq!(players[0].x_bits, 1);
            assert_eq!(players[0].pitch_bits, 5);
        }
        other => panic!("expected GameState, got {:?}", other),
    }
    assert!(!s.set_player_state(9, 0, 0, 0, 0, 0));
}
