use netwayste::net::{Packet, RequestAction, ResponseCode};
use netwayste::transport::{
    Endpoint, EndpointDataError, PacketSettings, TransportCmd, TransportNotice, TransportRsp,
    TransportState,
};

fn small_packet(sequence: u64) -> Packet {
    Packet::Response {
        sequence,
        request_ack: None,
        code: ResponseCode::OK,
    }
}

fn oversized_packet() -> Packet {
    // A chat message far beyond the 1472-byte datagram ceiling.
    let big = "x".repeat(2000);
    Packet::Request {
        sequence: 1,
        response_ack: None,
        cookie: Some("c".to_string()),
        action: RequestAction::ChatMessage { message: big },
    }
}

fn settings(tid: usize) -> PacketSettings {
    PacketSettings {
        tid,
        retry_interval: 50,
    }
}

#[test]
fn new_endpoint_exists_iff_registered() {
    let mut ts = TransportState::new(8);
    let ep = Endpoint(7);
    assert!(matches!(ts.new_endpoint(ep, 100, 0), TransportRsp::Accepted));
    assert!(matches!(
        ts.new_endpoint(ep, 100, 0),
        TransportRsp::EndpointError {
            error: EndpointDataError::EndpointExists { .. }
        }
    ));
    assert!(matches!(ts.drop_endpoint(ep), TransportRsp::Accepted));
    assert!(matches!(
        ts.drop_endpoint(ep),
        TransportRsp::EndpointError {
            error: EndpointDataError::EndpointNotFound { .. }
        }
    ));
    // After the drop the endpoint can be registered again.
    assert!(matches!(ts.new_endpoint(ep, 100, 0), TransportRsp::Accepted));
}

#[test]
fn commands_drive_the_same_operations() {
    let mut ts = TransportState::new(8);
    let ep = Endpoint(4);
    let rsp = ts.process_cmd(
        TransportCmd::NewEndpoint {
            endpoint: ep,
            timeout: 100,
        },
        0,
    );
    assert!(matches!(rsp, TransportRsp::Accepted));
    let rsp = ts.process_cmd(
        TransportCmd::SendPackets {
            endpoint: ep,
            packet_infos: vec![settings(1)],
            packets: vec![small_packet(0)],
        },
        5,
    );
    assert!(matches!(rsp, TransportRsp::Accepted));
    assert_eq!(ts.endpoints[0].queue.len(), 1);
    let rsp = ts.process_cmd(
        TransportCmd::CancelTransmitQueue { endpoint: ep },
        6,
    );
    assert!(matches!(rsp, TransportRsp::Accepted));
    assert_eq!(ts.endpoints[0].queue.len(), 0);
    let rsp = ts.process_cmd(TransportCmd::DropPacket { endpoint: ep, tid: 1 }, 7);
    assert!(matches!(
        rsp,
        TransportRsp::EndpointError {
            error: EndpointDataError::TransmitIDNotFound { .. }
        }
    ));
    let rsp = ts.process_cmd(TransportCmd::DropEndpoint { endpoint: ep }, 8);
    assert!(matches!(rsp, TransportRsp::Accepted));
    assert_eq!(ts.endpoints.len(), 0);
}

#[test]
fn send_packets_length_mismatch_leaves_queue_unchanged() {
    let mut ts = TransportState::new(8);
    let ep = Endpoint(1);
    ts.new_endpoint(ep, 100, 0);
    let rsp = ts.send_packets(ep, vec![settings(1), settings(2)], vec![small_packet(0)], 5);
    assert!(matches!(rsp, TransportRsp::SendPacketsLengthMismatch));
    assert_eq!(ts.endpoints[0].queue.len(), 0);
}

#[test]
fn send_packets_exceeds_mtu_enqueues_nothing() {
    let mut ts = TransportState::new(8);
    let ep = Endpoint(1);
    ts.new_endpoint(ep, 100, 0);
    let rsp = ts.send_packets(
        ep,
        vec![settings(4), settings(9)],
        vec![small_packet(0), oversized_packet()],
        5,
    );
    assert!(matches!(rsp, TransportRsp::ExceedsMtu { tid: 9 }));
    assert_eq!(ts.endpoints[0].queue.len(), 0);
}

#[test]
fn send_packets_buffer_full_is_all_or_nothing() {
    let mut ts = TransportState::new(1);
    let ep = Endpoint(1);
    ts.new_endpoint(ep, 100, 0);
    let rsp = ts.send_packets(
        ep,
        vec![settings(1), settings(2)],
        vec![small_packet(0), small_packet(1)],
        5,
    );
    assert!(matches!(rsp, TransportRsp::BufferFull));
    assert_eq!(ts.endpoints[0].queue.len(), 0);
    let rsp = ts.send_packets(ep, vec![settings(1)], vec![small_packet(0)], 5);
    assert!(matches!(rsp, TransportRsp::Accepted));
    assert_eq!(ts.endpoints[0].queue.len(), 1);
}

#[test]
fn send_packets_unknown_endpoint_fails() {
    let mut ts = TransportState::new(8);
    let rsp = ts.send_packets(Endpoint(3), vec![settings(1)], vec![small_packet(0)], 5);
    assert!(matches!(
        rsp,
        TransportRsp::EndpointError {
            error: EndpointDataError::EndpointNotFound { .. }
        }
    ));
}

#[test]
fn drop_packet_removes_exactly_one_entry() {
    let mut ts = TransportState::new(8);
    let ep = Endpoint(1);
    ts.new_endpoint(ep, 100, 0);
    ts.send_packets(
        ep,
        vec![settings(1), settings(2)],
        vec![small_packet(0), small_packet(1)],
        5,
    );
    assert!(matches!(
        ts.drop_packet(ep, 5),
        TransportRsp::EndpointError {
            error: EndpointDataError::TransmitIDNotFound { tid: 5, .. }
        }
    ));
    assert_eq!(ts.endpoints[0].queue.len(), 2);
    assert!(matches!(ts.drop_packet(ep, 1), TransportRsp::Accepted));
    assert_eq!(ts.endpoints[0].queue.len(), 1);
    assert_eq!(ts.endpoints[0].queue[0].tid, 2);
}

#[test]
fn cancel_transmit_queue_keeps_endpoint() {
    let mut ts = TransportState::new(8);
    let ep = Endpoint(1);
    ts.new_endpoint(ep, 100, 0);
    ts.send_packets(ep, vec![settings(1)], vec![small_packet(0)], 5);
    assert!(matches!(ts.cancel_transmit_queue(ep), TransportRsp::Accepted));
    assert_eq!(ts.endpoints[0].queue.len(), 0);
    // The endpoint itself stays registered.
    assert!(matches!(
        ts.new_endpoint(ep, 100, 0),
        TransportRsp::EndpointError {
            error: EndpointDataError::EndpointExists { .. }
        }
    ));
}

#[test]
fn acknowledged_response_leaves_the_queue() {
    let mut ts = TransportState::new(8);
    let ep = Endpoint(1);
    ts.new_endpoint(ep, 100, 0);
    ts.send_packets(
        ep,
        vec![settings(1), settings(2)],
        vec![small_packet(7), small_packet(8)],
        5,
    );
    let inbound = Packet::Request {
        sequence: 3,
        response_ack: Some(7),
        cookie: Some("c".to_string()),
        action: RequestAction::KeepAlive,
    };
    let notice = ts.packet_delivery(ep, inbound, 20);
    assert!(matches!(
        notice,
        TransportNotice::PacketDelivery { endpoint: Endpoint(1), .. }
    ));
    assert_eq!(ts.endpoints[0].queue.len(), 1);
    assert_eq!(ts.endpoints[0].queue[0].tid, 2);
    assert_eq!(ts.endpoints[0].last_receive, 20);
}

#[test]
fn unregistered_sender_still_gets_packet_delivery() {
    let mut ts = TransportState::new(8);
    let inbound = Packet::Request {
        sequence: 0,
        response_ack: None,
        cookie: None,
        action: RequestAction::Connect {
            name: "a".to_string(),
            client_version: "1".to_string(),
        },
    };
    let notice = ts.packet_delivery(Endpoint(9), inbound, 0);
    assert!(matches!(
        notice,
        TransportNotice::PacketDelivery { endpoint: Endpoint(9), .. }
    ));
    assert_eq!(ts.endpoints.len(), 0);
}

#[test]
fn endpoint_timeout_fires_exactly_once_per_idle_period() {
    let mut ts = TransportState::new(8);
    let ep = Endpoint(1);
    ts.new_endpoint(ep, 100, 0);
    assert_eq!(ts.check_timeouts(50).len(), 0);
    let notices = ts.check_timeouts(150);
    assert_eq!(notices.len(), 1);
    assert!(matches!(
        notices[0],
        TransportNotice::EndpointTimeout { endpoint: Endpoint(1) }
    ));
    // Idle continues: the notice does not fire again.
    assert_eq!(ts.check_timeouts(300).len(), 0);
    // A received packet re-arms the timeout.
    ts.packet_delivery(
        ep,
        Packet::Update { sequence: 0 },
        300,
    );
    assert_eq!(ts.check_timeouts(350).len(), 0);
    assert_eq!(ts.check_timeouts(450).len(), 1);
}

#[test]
fn due_retransmits_returns_wire_bytes_and_restamps() {
    let mut ts = TransportState::new(8);
    let ep = Endpoint(1);
    ts.new_endpoint(ep, 100, 0);
    let pkt = small_packet(7);
    let expected = netwayste::codec::encode_packet(&pkt);
    ts.send_packets(ep, vec![settings(1)], vec![pkt], 10);
    // Not yet due at 40 (sent at 10, retry every 50).
    assert_eq!(ts.due_retransmits(40).len(), 0);
    let due = ts.due_retransmits(60);
    assert_eq!(due.len(), 1);
    assert_eq!(due[0].0, Endpoint(1));
    assert_eq!(due[0].1, expected);
    // Stamped as sent at 60: due again only from 110 on.
    assert_eq!(ts.due_retransmits(100).len(), 0);
    assert_eq!(ts.due_retransmits(110).len(), 1);
}
