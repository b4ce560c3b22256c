use lanshare::discovery::{decode_announcement, encode_announcement, update_sessions,
    SessionAnnouncement, GAME_PORT};

#[test]
fn announcement_round_trip() {
    let a = SessionAnnouncement {
        name: b"Local Game".to_vec(),
        port: GAME_PORT,
        player_count: 1,
    };
    let b = encode_announcement(&a);
    let d = decode_announcement(&b).expect("decodes");
    assert_eq!(d.name, b"Local Game".to_vec());
    assert_eq!(d.port, GAME_PORT);
    assert_eq!(d.player_count, 1);
}

#[test]
fn announcement_rejects_malformed() {
    assert!(decode_announcement(&[]).is_none());
    assert!(decode_announcement(&[1, 0, 0, 0]).is_none());
    let a = SessionAnnouncement { name: b"x".to_vec(), port: 1, player_count: 2 };
    let mut b = encode_announcement(&a);
    b.push(0);
    assert!(decode_announcement(&b).is_none());
}

#[test]
fn listener_inserts_then_refreshes() {
    let mut sessions = Vec::new();
    let a1 = SessionAnnouncement { name: b"one".to_vec(), port: 5000, player_count: 1 };
    update_sessions(&mut sessions, 10, a1);
    assert_eq!(sessions.len(), 1);
    assert_eq!(sessions[0].ip, 10);
    assert_eq!(sessions[0].player_count, 1);

    // A beacon from a new address adds an entry.
    let a2 = SessionAnnouncement { name: b"two".to_vec(), port: 5000, player_count: 1 };
    update_sessions(&mut sessions, 20, a2);
    assert_eq!(sessions.len(), 2);

    // A repeated beacon refreshes in place, keyed by the sender.
    let a3 = SessionAnnouncement { name: b"one!".to_vec(), port: 5000, player_count: 3 };
    update_sessions(&mut sessions, 10, a3);
    assert_eq!(sessions.len(), 2);
    assert_eq!(sessions[0].name, b"one!".to_vec());
    assert_eq!(sessions[0].player_count, 3);
}
