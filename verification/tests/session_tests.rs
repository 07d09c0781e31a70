use chat_core::session::{parse_command, Command, Session, SessionAction};

#[test]
fn plain_text_is_text() {
    match parse_command(&"hello there".to_string()) {
        Command::Text { body } => assert_eq!(body, "hello there"),
        _ => panic!("expected text"),
    }
}

#[test]
fn empty_line_is_text() {
    match parse_command(&"".to_string()) {
        Command::Text { body } => assert_eq!(body, ""),
        _ => panic!("expected text"),
    }
}

#[test]
fn list_join_name_and_unknown() {
    assert!(matches!(parse_command(&"/list".to_string()), Command::List));
    match parse_command(&"/join lobby".to_string()) {
        Command::Join { room } => assert_eq!(room, "lobby"),
        _ => panic!("expected join"),
    }
    match parse_command(&"/name bob".to_string()) {
        Command::SetName { value } => assert_eq!(value, "bob"),
        _ => panic!("expected name"),
    }
    match parse_command(&"/join".to_string()) {
        Command::MissingArg { cmd } => assert_eq!(cmd, "/join"),
        _ => panic!("expected missing argument"),
    }
    match parse_command(&"/frobnicate now".to_string()) {
        Command::Unknown { cmd } => assert_eq!(cmd, "/frobnicate"),
        _ => panic!("expected unknown"),
    }
}

#[test]
fn session_lifecycle_and_framing() {
    let mut s = Session::new(5);
    assert_eq!(s.room, "main");
    s.on_registered(7);
    assert_eq!(s.id, 7);
    // a plain line is framed with the identity while no name is set
    match s.handle_frame(&"hi".to_string()) {
        SessionAction::Broadcast { room, body } => {
            assert_eq!(room, "main");
            assert_eq!(body, "7: hi");
        },
        _ => panic!("expected broadcast"),
    }
    // set a display name; later lines carry it
    assert!(matches!(s.handle_frame(&"/name bob".to_string()), SessionAction::Quiet));
    match s.handle_frame(&"hi".to_string()) {
        SessionAction::Broadcast { room: _, body } => assert_eq!(body, "bob: hi"),
        _ => panic!("expected broadcast"),
    }
    // joining switches the session's room
    match s.handle_frame(&"/join lobby".to_string()) {
        SessionAction::RequestJoin { room } => assert_eq!(room, "lobby"),
        _ => panic!("expected join request"),
    }
    assert_eq!(s.room, "lobby");
    match s.handle_frame(&"over here".to_string()) {
        SessionAction::Broadcast { room, body: _ } => assert_eq!(room, "lobby"),
        _ => panic!("expected broadcast"),
    }
}

#[test]
fn malformed_commands_draw_a_notice_and_the_session_stays_joined() {
    let mut s = Session::new(0);
    s.on_registered(1);
    match s.handle_frame(&"/join".to_string()) {
        SessionAction::Reply { body } => assert_eq!(body, "!!! room name is required"),
        _ => panic!("expected notice"),
    }
    match s.handle_frame(&"/name".to_string()) {
        SessionAction::Reply { body } => assert_eq!(body, "!!! name is required"),
        _ => panic!("expected notice"),
    }
    match s.handle_frame(&"/quit".to_string()) {
        SessionAction::Reply { body } => assert_eq!(body, "!!! unknown command"),
        _ => panic!("expected notice"),
    }
    // still able to talk afterwards
    assert!(matches!(s.handle_frame(&"ok".to_string()), SessionAction::Broadcast { .. }));
}

#[test]
fn ping_refreshes_liveness() {
    let mut s = Session::new(3);
    assert_eq!(s.last_seen, 3);
    s.on_ping(9);
    assert_eq!(s.last_seen, 9);
}

// The unregistration request is handed out exactly once, however many
// times the connection is torn down.
#[test]
fn close_unregisters_exactly_once() {
    let mut s = Session::new(0);
    s.on_registered(1);
    assert!(s.on_close());
    assert!(!s.on_close());
    assert!(!s.on_close());
}
