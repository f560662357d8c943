use netwayste::net::{Packet, RequestAction, ResponseCode};
use netwayste::server::{Event, PlayerID, ProcessError, ServerState};
use netwayste::transport::Endpoint;

fn connect_packet(name: &str) -> Packet {
    Packet::Request {
        sequence: 0,
        response_ack: None,
        cookie: None,
        action: RequestAction::Connect {
            name: name.to_string(),
            client_version: "0.1".to_string(),
        },
    }
}

fn request(cookie: &str, sequence: u64, action: RequestAction) -> Packet {
    Packet::Request {
        sequence,
        response_ack: None,
        cookie: Some(cookie.to_string()),
        action,
    }
}

fn connect(server: &mut ServerState, name: &str) -> String {
    let response = server
        .decode_packet(Endpoint(1), connect_packet(name))
        .expect("connect failed")
        .expect("connect produced no response");
    match response {
        Packet::Response {
            sequence,
            code: ResponseCode::LoggedIn { cookie },
            ..
        } => {
            assert_eq!(sequence, 0);
            cookie
        }
        other => panic!("expected LoggedIn, got {:?}", packet_kind(&other)),
    }
}

fn packet_kind(p: &Packet) -> &'static str {
    match p {
        Packet::Request { .. } => "Request",
        Packet::Response { .. } => "Response",
        Packet::Update { .. } => "Update",
        Packet::UpdateReply { .. } => "UpdateReply",
    }
}

#[test]
fn duplicate_connect_is_unauthorized_and_cookies_are_fresh() {
    let mut server = ServerState::new();
    let cookie_a = connect(&mut server, "alice");
    assert_eq!(cookie_a.len(), 24);
    let cookie_b = connect(&mut server, "bob");
    assert_ne!(cookie_a, cookie_b);
    let response = server
        .decode_packet(Endpoint(2), connect_packet("alice"))
        .unwrap()
        .unwrap();
    assert!(matches!(
        response,
        Packet::Response {
            sequence: 0,
            code: ResponseCode::Unauthorized,
            ..
        }
    ));
    // The rejected connect registered nobody.
    assert_eq!(server.players.len(), 2);
}

#[test]
fn chat_needs_slot_membership() {
    let mut server = ServerState::new();
    let cookie = connect(&mut server, "alice");
    let response = server
        .decode_packet(
            Endpoint(1),
            request(
                &cookie,
                1,
                RequestAction::ChatMessage {
                    message: "hello".to_string(),
                },
            ),
        )
        .unwrap()
        .unwrap();
    assert!(matches!(
        response,
        Packet::Response {
            code: ResponseCode::BadRequest,
            ..
        }
    ));
    // Create and join a slot, then the same chat succeeds and is queued.
    server
        .decode_packet(
            Endpoint(1),
            request(
                &cookie,
                2,
                RequestAction::NewGameSlot {
                    name: "lobby".to_string(),
                },
            ),
        )
        .unwrap()
        .unwrap();
    server
        .decode_packet(
            Endpoint(1),
            request(
                &cookie,
                3,
                RequestAction::JoinGameSlot {
                    name: "lobby".to_string(),
                },
            ),
        )
        .unwrap()
        .unwrap();
    let response = server
        .decode_packet(
            Endpoint(1),
            request(
                &cookie,
                4,
                RequestAction::ChatMessage {
                    message: "hello".to_string(),
                },
            ),
        )
        .unwrap()
        .unwrap();
    assert!(matches!(
        response,
        Packet::Response {
            code: ResponseCode::OK,
            ..
        }
    ));
    assert_eq!(server.game_slots[0].pending_messages.len(), 1);
    assert_eq!(server.game_slots[0].pending_messages[0].player_id, PlayerID(0));
    assert_eq!(server.game_slots[0].pending_messages[0].message, "hello");
}

#[test]
fn game_slot_name_cap_is_sixteen_characters() {
    let mut server = ServerState::new();
    let cookie = connect(&mut server, "alice");
    let long = "abcdefghijklmnopq"; // 17 characters
    let response = server
        .decode_packet(
            Endpoint(1),
            request(
                &cookie,
                1,
                RequestAction::NewGameSlot {
                    name: long.to_string(),
                },
            ),
        )
        .unwrap()
        .unwrap();
    assert!(matches!(
        response,
        Packet::Response {
            code: ResponseCode::BadRequest,
            ..
        }
    ));
    assert_eq!(server.game_slots.len(), 0);
    let ok = "abcdefghijklmnop"; // 16 characters
    let response = server
        .decode_packet(
            Endpoint(1),
            request(
                &cookie,
                2,
                RequestAction::NewGameSlot {
                    name: ok.to_string(),
                },
            ),
        )
        .unwrap()
        .unwrap();
    assert!(matches!(
        response,
        Packet::Response {
            code: ResponseCode::OK,
            ..
        }
    ));
    assert_eq!(server.game_slots.len(), 1);
    assert_eq!(server.game_slots[0].name, ok);
}

#[test]
fn response_sequences_count_up_without_gaps() {
    let mut server = ServerState::new();
    let cookie = connect(&mut server, "alice"); // response sequence 0
    for expected in 1u64..=4 {
        let response = server
            .decode_packet(Endpoint(1), request(&cookie, expected, RequestAction::ListPlayers))
            .unwrap()
            .unwrap();
        match response {
            Packet::Response { sequence, .. } => assert_eq!(sequence, expected),
            other => panic!("expected Response, got {:?}", packet_kind(&other)),
        }
    }
}

#[test]
fn auto_pairing_pairs_all_only_when_even() {
    let mut server = ServerState::new();
    for name in ["a", "b", "c"] {
        connect(&mut server, name);
    }
    server.handle_event(Event::TickEvent).unwrap();
    assert_eq!(server.game_slots.len(), 0);
    assert_eq!(server.ctr, 0);
    connect(&mut server, "d");
    server.handle_event(Event::TickEvent).unwrap();
    assert_eq!(server.game_slots.len(), 2);
    assert_eq!(server.ctr, 2);
    assert!(server.players.iter().all(|p| p.game_info.is_some()));
    // Stack order: the two most recently connected pair first.
    assert_eq!(server.game_slots[0].player_ids, vec![PlayerID(3), PlayerID(2)]);
    assert_eq!(server.game_slots[1].player_ids, vec![PlayerID(1), PlayerID(0)]);
    assert_eq!(server.tick, 2);
}

#[test]
fn list_players_and_slots_report_current_state() {
    let mut server = ServerState::new();
    let cookie = connect(&mut server, "alice");
    connect(&mut server, "bob");
    let response = server
        .decode_packet(Endpoint(1), request(&cookie, 1, RequestAction::ListPlayers))
        .unwrap()
        .unwrap();
    match response {
        Packet::Response {
            code: ResponseCode::PlayerList { names },
            ..
        } => assert_eq!(names, vec!["alice".to_string(), "bob".to_string()]),
        _ => panic!("expected PlayerList"),
    }
    server
        .decode_packet(
            Endpoint(1),
            request(
                &cookie,
                2,
                RequestAction::NewGameSlot {
                    name: "lobby".to_string(),
                },
            ),
        )
        .unwrap();
    let response = server
        .decode_packet(Endpoint(1), request(&cookie, 3, RequestAction::ListGameSlots))
        .unwrap()
        .unwrap();
    match response {
        Packet::Response {
            code: ResponseCode::GameSlotList { slots },
            ..
        } => {
            assert_eq!(slots.len(), 1);
            assert_eq!(slots[0].name, "lobby");
            assert_eq!(slots[0].player_count, 0);
            assert!(!slots[0].game_running);
        }
        _ => panic!("expected GameSlotList"),
    }
}

#[test]
fn error_channels_are_distinct() {
    let mut server = ServerState::new();
    let cookie = connect(&mut server, "alice");
    // Server-only packets are rejected outright.
    let r = server.decode_packet(
        Endpoint(1),
        Packet::Response {
            sequence: 0,
            request_ack: None,
            code: ResponseCode::OK,
        },
    );
    assert!(matches!(r, Err(ProcessError::ServerOnlyPacket)));
    let r = server.decode_packet(Endpoint(1), Packet::Update { sequence: 0 });
    assert!(matches!(r, Err(ProcessError::ServerOnlyPacket)));
    let r = server.decode_packet(Endpoint(1), Packet::UpdateReply { sequence: 0 });
    assert!(matches!(r, Err(ProcessError::NotImplemented)));
    // A non-Connect request without a cookie is malformed.
    let r = server.decode_packet(
        Endpoint(1),
        Packet::Request {
            sequence: 1,
            response_ack: None,
            cookie: None,
            action: RequestAction::ListPlayers,
        },
    );
    assert!(matches!(r, Err(ProcessError::MissingCookie)));
    // An unknown cookie fails authentication before dispatch.
    let r = server.decode_packet(
        Endpoint(1),
        request("not-a-cookie-on-record!!", 1, RequestAction::ListPlayers),
    );
    assert!(matches!(r, Err(ProcessError::PermissionDenied)));
    // Unimplemented actions raise an explicit condition.
    let r = server.decode_packet(Endpoint(1), request(&cookie, 1, RequestAction::Disconnect));
    assert!(matches!(r, Err(ProcessError::NotImplemented)));
    let r = server.decode_packet(Endpoint(1), request(&cookie, 1, RequestAction::KeepAlive));
    assert!(matches!(r, Err(ProcessError::NotImplemented)));
    let r = server.decode_packet(Endpoint(1), request(&cookie, 1, RequestAction::LeaveGameSlot));
    assert!(matches!(r, Err(ProcessError::NotImplemented)));
    // Connect or NoAction reaching the dispatcher is an invariant violation.
    let r = server.process_request_action(PlayerID(0), RequestAction::NoAction);
    assert!(matches!(r, Err(ProcessError::InvariantViolation)));
    let r = server.process_request_action(
        PlayerID(0),
        RequestAction::Connect {
            name: "x".to_string(),
            client_version: "0".to_string(),
        },
    );
    assert!(matches!(r, Err(ProcessError::InvariantViolation)));
}

#[test]
fn join_unknown_slot_is_bad_request() {
    let mut server = ServerState::new();
    let cookie = connect(&mut server, "alice");
    let response = server
        .decode_packet(
            Endpoint(1),
            request(
                &cookie,
                1,
                RequestAction::JoinGameSlot {
                    name: "nowhere".to_string(),
                },
            ),
        )
        .unwrap()
        .unwrap();
    assert!(matches!(
        response,
        Packet::Response {
            code: ResponseCode::BadRequest,
            ..
        }
    ));
}
