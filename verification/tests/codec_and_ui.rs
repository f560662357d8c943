use netwayste::codec::{decode_packet_bytes, encode_packet};
use netwayste::net::{GameSlotSummary, Packet, RequestAction, ResponseCode};
use netwayste::server::new_cookie;
use netwayste::uilayout::{Layering, Screen, ScreenLayer, UILayout, Widget};

fn round_trips(p: &Packet) -> Packet {
    let bytes = encode_packet(p);
    assert!(bytes.len() <= 1472, "test packets stay under the ceiling");
    decode_packet_bytes(&bytes).expect("encoded packet must decode")
}

#[test]
fn request_with_cookie_round_trips() {
    let p = Packet::Request {
        sequence: 42,
        response_ack: Some(7),
        cookie: Some("AAAAAAAAAAAAAAAAAAAAAA==".to_string()),
        action: RequestAction::ChatMessage {
            message: "hé, ça va? ✓".to_string(),
        },
    };
    match round_trips(&p) {
        Packet::Request {
            sequence,
            response_ack,
            cookie,
            action,
        } => {
            assert_eq!(sequence, 42);
            assert_eq!(response_ack, Some(7));
            assert_eq!(cookie.as_deref(), Some("AAAAAAAAAAAAAAAAAAAAAA=="));
            match action {
                RequestAction::ChatMessage { message } => assert_eq!(message, "hé, ça va? ✓"),
                _ => panic!("wrong action"),
            }
        }
        _ => panic!("wrong packet kind"),
    }
}

#[test]
fn connect_request_round_trips() {
    let p = Packet::Request {
        sequence: 0,
        response_ack: None,
        cookie: None,
        action: RequestAction::Connect {
            name: "alice".to_string(),
            client_version: "0.1.0".to_string(),
        },
    };
    match round_trips(&p) {
        Packet::Request {
            cookie: None,
            action: RequestAction::Connect {
                name,
                client_version,
            },
            ..
        } => {
            assert_eq!(name, "alice");
            assert_eq!(client_version, "0.1.0");
        }
        _ => panic!("wrong packet"),
    }
}

#[test]
fn response_codes_round_trip() {
    let p = Packet::Response {
        sequence: 3,
        request_ack: Some(9),
        code: ResponseCode::LoggedIn {
            cookie: "c00kie".to_string(),
        },
    };
    match round_trips(&p) {
        Packet::Response {
            sequence: 3,
            request_ack: Some(9),
            code: ResponseCode::LoggedIn { cookie },
        } => assert_eq!(cookie, "c00kie"),
        _ => panic!("wrong packet"),
    }
    let p = Packet::Response {
        sequence: 4,
        request_ack: None,
        code: ResponseCode::PlayerList {
            names: vec!["alice".to_string(), "bob".to_string()],
        },
    };
    match round_trips(&p) {
        Packet::Response {
            code: ResponseCode::PlayerList { names },
            ..
        } => assert_eq!(names, vec!["alice".to_string(), "bob".to_string()]),
        _ => panic!("wrong packet"),
    }
    let p = Packet::Response {
        sequence: 5,
        request_ack: None,
        code: ResponseCode::GameSlotList {
            slots: vec![GameSlotSummary {
                name: "lobby".to_string(),
                player_count: 2,
                game_running: true,
            }],
        },
    };
    match round_trips(&p) {
        Packet::Response {
            code: ResponseCode::GameSlotList { slots },
            ..
        } => {
            assert_eq!(slots.len(), 1);
            assert_eq!(slots[0].name, "lobby");
            assert_eq!(slots[0].player_count, 2);
            assert!(slots[0].game_running);
        }
        _ => panic!("wrong packet"),
    }
}

#[test]
fn update_packets_round_trip() {
    assert!(matches!(
        round_trips(&Packet::Update { sequence: 11 }),
        Packet::Update { sequence: 11 }
    ));
    assert!(matches!(
        round_trips(&Packet::UpdateReply { sequence: 12 }),
        Packet::UpdateReply { sequence: 12 }
    ));
}

#[test]
fn malformed_bytes_do_not_decode() {
    assert!(decode_packet_bytes(&[]).is_none());
    // Unknown tag.
    assert!(decode_packet_bytes(&[9u8, 0, 0, 0, 0, 0, 0, 0, 0]).is_none());
    // Truncated sequence number.
    assert!(decode_packet_bytes(&[2u8, 1, 2, 3]).is_none());
    // A valid packet with a trailing byte is rejected whole.
    let mut bytes = encode_packet(&Packet::Update { sequence: 1 });
    bytes.push(0);
    assert!(decode_packet_bytes(&bytes).is_none());
    // A string field whose length prefix overruns the input.
    let mut bad = vec![0u8]; // Request tag
    bad.extend_from_slice(&1u64.to_le_bytes()); // sequence
    bad.push(0); // no response_ack
    bad.push(1); // cookie present
    bad.extend_from_slice(&1000u64.to_le_bytes()); // cookie length far beyond input
    bad.extend_from_slice(b"short");
    assert!(decode_packet_bytes(&bad).is_none());
    // Invalid UTF-8 in a string field.
    let mut bad = vec![0u8];
    bad.extend_from_slice(&1u64.to_le_bytes());
    bad.push(0);
    bad.push(1);
    bad.extend_from_slice(&2u64.to_le_bytes());
    bad.extend_from_slice(&[0xff, 0xfe]);
    bad.push(4); // ListPlayers
    assert!(decode_packet_bytes(&bad).is_none());
}

#[test]
fn fresh_cookies_are_base64_text_of_sixteen_bytes() {
    let a = new_cookie();
    let b = new_cookie();
    // 16 bytes encode to exactly 24 base64 characters.
    assert_eq!(a.len(), 24);
    assert_eq!(b.len(), 24);
    assert_ne!(a, b);
    assert_eq!(base64::decode(&a).expect("cookie is base64").len(), 16);
}

#[test]
fn screen_layering_lookup() {
    let layout = UILayout {
        layers: vec![
            ScreenLayer {
                screen: Screen::Menu,
                layering: Layering {
                    widgets: vec![Widget::Button {
                        id: 1,
                        label: "Server List".to_string(),
                    }],
                },
            },
            ScreenLayer {
                screen: Screen::Run,
                layering: Layering {
                    widgets: vec![Widget::GameArea { id: 2 }],
                },
            },
        ],
    };
    let menu = layout.get_screen_layering(Screen::Menu).expect("menu stored");
    assert!(matches!(
        menu.widgets[0],
        Widget::Button { id: 1, .. }
    ));
    assert!(layout.get_screen_layering(Screen::Options).is_none());
}

#[test]
fn screen_layering_mut_reaches_the_stored_layering() {
    let mut layout = UILayout {
        layers: vec![ScreenLayer {
            screen: Screen::Run,
            layering: Layering {
                widgets: vec![],
            },
        }],
    };
    let layering = layout
        .get_screen_layering_mut(Screen::Run)
        .expect("run stored");
    layering.widgets.push(Widget::Chatbox {
        id: 5,
        history: vec!["hi".to_string()],
    });
    assert_eq!(layout.layers[0].layering.widgets.len(), 1);
    assert!(layout.get_screen_layering_mut(Screen::Intro).is_none());
}
