use overlay_server::chat::CommunicationServer;
use overlay_server::content::ContentServer;
use overlay_server::endpoint::{Output, ServerCommand, ServerEvent};
use overlay_server::messages::{ClientMessage, ServerMessage, ServerType};
use overlay_server::packet::{Fragment, NackKind, NodeId, NodeKind, Packet, PacketType, RoutingHeader};

fn header(hops: &[NodeId], hop_index: usize) -> RoutingHeader {
    RoutingHeader { hop_index, hops: hops.to_vec() }
}

fn flood_response(trace: &[(NodeId, NodeKind)]) -> Packet {
    Packet {
        routing_header: header(&[], 0),
        session_id: 0,
        pack_type: PacketType::FloodResponse { flood_id: 1, path_trace: trace.to_vec() },
    }
}

/// The packets that carry `msg` from a client along `hops`, arriving at the
/// last hop.
fn client_packets(msg: &ClientMessage, session_id: u64, hops: &[NodeId]) -> Vec<Packet> {
    let bytes = msg.encode();
    let chunks: Vec<&[u8]> = if bytes.is_empty() { vec![&bytes[..]] } else { bytes.chunks(128).collect() };
    let total = chunks.len() as u64;
    chunks
        .iter()
        .enumerate()
        .map(|(i, c)| Packet {
            routing_header: header(hops, hops.len() - 1),
            session_id,
            pack_type: PacketType::MsgFragment(Fragment {
                fragment_index: i as u64,
                total_fragments: total,
                data: c.to_vec(),
            }),
        })
        .collect()
}

/// The forwarded fragments among `out`.
fn fragments(out: &[Output]) -> Vec<&Packet> {
    out.iter()
        .filter_map(|o| match o {
            Output::Forward(p) if matches!(p.pack_type, PacketType::MsgFragment(_)) => Some(p),
            _ => None,
        })
        .collect()
}

/// The bytes that the forwarded fragments among `out` carry, in order.
fn payload(out: &[Output]) -> Vec<u8> {
    let mut v = Vec::new();
    for p in fragments(out) {
        if let PacketType::MsgFragment(f) = &p.pack_type {
            v.extend_from_slice(&f.data);
        }
    }
    v
}

fn acks(out: &[Output]) -> Vec<&Packet> {
    out.iter()
        .filter_map(|o| match o {
            Output::Forward(p) if matches!(p.pack_type, PacketType::Ack { .. }) => Some(p),
            _ => None,
        })
        .collect()
}

/// Chat server 1 that knows clients 7 and 9 behind drone 3.
fn chat_server() -> CommunicationServer {
    let mut s = CommunicationServer::new(1);
    s.handle_packet(flood_response(&[(3, NodeKind::Drone), (7, NodeKind::Client)]));
    s.handle_packet(flood_response(&[(3, NodeKind::Drone), (9, NodeKind::Client)]));
    s
}

fn send(s: &mut CommunicationServer, msg: ClientMessage, from: NodeId, session: u64) -> Vec<Output> {
    let mut out = Vec::new();
    for p in client_packets(&msg, session, &[from, 3, 1]) {
        out.extend(s.handle_packet(p));
    }
    out
}

#[test]
fn chat_register_then_list() {
    let mut s = chat_server();
    let out = send(&mut s, ClientMessage::RegisterToChat, 7, 10);
    assert_eq!(payload(&out), ServerMessage::SuccessfulRegistration.encode());
    for p in fragments(&out) {
        assert_eq!(p.routing_header.hops, vec![1, 3, 7]);
        assert_eq!(p.routing_header.hop_index, 1);
    }
    // deliver first, ack last
    assert!(matches!(out.last(), Some(Output::Forward(p)) if matches!(p.pack_type, PacketType::Ack { fragment_index: 0 })));
    let out = send(&mut s, ClientMessage::GetClientList, 7, 11);
    assert_eq!(payload(&out), ServerMessage::ClientList(vec![7]).encode());
}

#[test]
fn chat_relay_between_registered_clients() {
    let mut s = chat_server();
    send(&mut s, ClientMessage::RegisterToChat, 7, 10);
    send(&mut s, ClientMessage::RegisterToChat, 9, 20);
    let out = send(
        &mut s,
        ClientMessage::SendMessage { recipient_id: 9, content: b"hi".to_vec() },
        7,
        11,
    );
    let expected = ServerMessage::MessageReceived { sender_id: 7, content: b"hi".to_vec() };
    assert_eq!(payload(&out), expected.encode());
    let frags = fragments(&out);
    assert!(!frags.is_empty());
    for p in &frags {
        assert_eq!(p.routing_header.hops, vec![1, 3, 9]);
    }
    // every outbound fragment stays cached until its ack
    let session = frags[0].session_id;
    for p in &frags {
        let idx = p.get_fragment_index();
        let ack = Packet {
            routing_header: header(&[9, 3, 1], 2),
            session_id: session,
            pack_type: PacketType::Ack { fragment_index: idx },
        };
        assert!(s.endpoint.packet_cache.take_packet((session, idx)).is_some());
        s.endpoint.packet_cache.insert_packet(p.duplicate());
        assert!(s.handle_packet(ack).is_empty());
        assert!(s.endpoint.packet_cache.take_packet((session, idx)).is_none());
    }
}

#[test]
fn chat_relay_to_unregistered_reports_unreachable_client() {
    let mut s = chat_server();
    send(&mut s, ClientMessage::RegisterToChat, 7, 10);
    let out = send(
        &mut s,
        ClientMessage::SendMessage { recipient_id: 9, content: b"hi".to_vec() },
        7,
        11,
    );
    assert_eq!(payload(&out), ServerMessage::UnreachableClient(7).encode());
    assert_eq!(fragments(&out)[0].routing_header.hops, vec![1, 3, 9]);
}

#[test]
fn chat_register_twice_and_logout_twice() {
    let mut s = chat_server();
    send(&mut s, ClientMessage::RegisterToChat, 7, 10);
    let out = send(&mut s, ClientMessage::RegisterToChat, 7, 11);
    assert!(fragments(&out).is_empty());
    assert_eq!(acks(&out).len(), 1);
    assert_eq!(s.registered_clients, vec![7]);
    let out = send(&mut s, ClientMessage::Logout, 7, 12);
    assert_eq!(payload(&out), ServerMessage::SuccessfullLogOut.encode());
    let out = send(&mut s, ClientMessage::Logout, 7, 13);
    assert!(fragments(&out).is_empty());
    assert!(s.registered_clients.is_empty());
}

#[test]
fn chat_server_type_and_wrong_requests() {
    let mut s = chat_server();
    let out = send(&mut s, ClientMessage::GetServerType, 7, 10);
    assert_eq!(payload(&out), ServerMessage::ServerType(ServerType::Chat).encode());
    let out = send(&mut s, ClientMessage::GetFile(b"file1".to_vec()), 7, 11);
    assert!(fragments(&out).is_empty());
    assert_eq!(acks(&out).len(), 1);
}

#[test]
fn nack_reroutes_after_penalty() {
    // server 1, drones 2 and 4 both reach drone 3, which reaches client 9
    let mut s = CommunicationServer::new(1);
    s.handle_packet(flood_response(&[(2, NodeKind::Drone), (3, NodeKind::Drone), (9, NodeKind::Client)]));
    s.handle_packet(flood_response(&[(4, NodeKind::Drone), (3, NodeKind::Drone), (9, NodeKind::Client)]));
    let first = s.endpoint.router.get_source_routing_header(9).unwrap();
    assert_eq!(first.hops, vec![1, 2, 3, 9]);
    let cached = Packet {
        routing_header: header(&[1, 2, 3, 9], 1),
        session_id: 42,
        pack_type: PacketType::MsgFragment(Fragment { fragment_index: 0, total_fragments: 1, data: vec![1, 2] }),
    };
    s.endpoint.packet_cache.insert_packet(cached);
    let nack = Packet {
        routing_header: header(&[2, 1], 1),
        session_id: 42,
        pack_type: PacketType::Nack { fragment_index: 0, nack_type: NackKind::Dropped },
    };
    let out = s.handle_packet(nack);
    assert_eq!(out.len(), 1);
    match &out[0] {
        Output::Forward(p) => {
            assert_eq!(p.routing_header.hops, vec![1, 4, 3, 9]);
            assert_eq!(p.routing_header.hop_index, 1);
            assert_eq!(p.session_id, 42);
        }
        other => panic!("unexpected output {:?}", other),
    }
    let edge = s.endpoint.router.edges.iter().find(|e| (e.a, e.b) == (1, 2) || (e.a, e.b) == (2, 1)).unwrap();
    assert_eq!(edge.drop_weight, 1);
    let (_, count) = s.endpoint.packet_cache.get_value((42, 0)).unwrap();
    assert_eq!(count, 2);
}

#[test]
fn reflood_after_more_than_a_hundred_nacks() {
    let mut s = CommunicationServer::new(1);
    s.handle_command(ServerCommand::AddSender(2));
    s.handle_command(ServerCommand::AddSender(4));
    s.handle_packet(flood_response(&[(2, NodeKind::Drone), (9, NodeKind::Client)]));
    s.endpoint.packet_cache.insert_packet(Packet {
        routing_header: header(&[1, 2, 9], 1),
        session_id: 5,
        pack_type: PacketType::MsgFragment(Fragment { fragment_index: 0, total_fragments: 1, data: vec![7] }),
    });
    for _ in 0..100 {
        s.endpoint.packet_cache.get_value((5, 0));
    }
    let out = s.handle_nack(0, NackKind::UnexpectedRecipient(2), 5, 2);
    // 101 nacks now: flood requests to both neighbours, then the resend
    assert_eq!(out.len(), 3);
    assert!(matches!(&out[0], Output::SendTo(2, p) if matches!(p.pack_type, PacketType::FloodRequest { initiator_id: 1, .. })));
    assert!(matches!(&out[1], Output::SendTo(4, p) if matches!(p.pack_type, PacketType::FloodRequest { initiator_id: 1, .. })));
    assert!(matches!(&out[2], Output::Forward(p) if p.routing_header.hops == vec![1, 2, 9]));
}

#[test]
fn hundredth_nack_does_not_flood() {
    let mut s = CommunicationServer::new(1);
    s.handle_command(ServerCommand::AddSender(2));
    s.handle_packet(flood_response(&[(2, NodeKind::Drone), (9, NodeKind::Client)]));
    s.endpoint.packet_cache.insert_packet(Packet {
        routing_header: header(&[1, 2, 9], 1),
        session_id: 5,
        pack_type: PacketType::MsgFragment(Fragment { fragment_index: 0, total_fragments: 1, data: vec![7] }),
    });
    for _ in 0..99 {
        s.endpoint.packet_cache.get_value((5, 0));
    }
    let out = s.handle_nack(0, NackKind::Dropped, 5, 2);
    assert_eq!(out.len(), 1);
    assert!(matches!(&out[0], Output::Forward(_)));
}

#[test]
fn nack_for_missing_entry_reports_cache_error() {
    let mut s = CommunicationServer::new(1);
    let out = s.handle_nack(3, NackKind::Dropped, 77, 2);
    assert_eq!(out.len(), 1);
    assert!(matches!(out[0], Output::Event(ServerEvent::ErrorPacketCache(77, 3))));
}

#[test]
fn destination_is_drone_is_only_reported() {
    let mut s = CommunicationServer::new(1);
    let out = s.handle_nack(0, NackKind::DestinationIsDrone, 1, 2);
    assert_eq!(out.len(), 1);
    assert!(matches!(out[0], Output::Event(ServerEvent::DestinationIsDrone(1))));
}

#[test]
fn unroutable_resend_is_reported_and_content_resends_stale() {
    let cached = || Packet {
        routing_header: header(&[2, 5, 9], 1),
        session_id: 8,
        pack_type: PacketType::MsgFragment(Fragment { fragment_index: 0, total_fragments: 1, data: vec![1] }),
    };
    let mut chat = CommunicationServer::new(2);
    chat.endpoint.packet_cache.insert_packet(cached());
    let out = chat.handle_nack(0, NackKind::ErrorInRouting(5), 8, 5);
    assert_eq!(out.len(), 1);
    assert!(matches!(out[0], Output::Event(ServerEvent::UnreachableNode(9))));

    let mut content = ContentServer::new(2, ServerType::Text);
    content.endpoint.packet_cache.insert_packet(cached());
    let out = content.handle_nack(0, NackKind::ErrorInRouting(5), 8, 5);
    assert_eq!(out.len(), 2);
    assert!(matches!(out[0], Output::Event(ServerEvent::UnreachableNode(9))));
    assert!(matches!(&out[1], Output::Forward(p) if p.routing_header.hops == vec![2, 5, 9]));
}

#[test]
fn crashed_drone_is_avoided() {
    let mut s = CommunicationServer::new(1);
    s.handle_packet(flood_response(&[(2, NodeKind::Drone), (9, NodeKind::Client)]));
    s.handle_packet(flood_response(&[(4, NodeKind::Drone), (5, NodeKind::Drone), (9, NodeKind::Client)]));
    assert_eq!(s.endpoint.router.get_source_routing_header(9).unwrap().hops, vec![1, 2, 9]);
    s.endpoint.router.drone_crashed(2);
    assert_eq!(s.endpoint.router.get_source_routing_header(9).unwrap().hops, vec![1, 4, 5, 9]);
    s.endpoint.router.drone_crashed(5);
    assert!(s.endpoint.router.get_source_routing_header(9).is_err());
}

#[test]
fn clients_and_servers_never_relay() {
    let mut s = CommunicationServer::new(1);
    s.handle_packet(flood_response(&[(7, NodeKind::Client), (9, NodeKind::Client)]));
    assert!(s.endpoint.router.get_source_routing_header(7).is_ok());
    assert!(s.endpoint.router.get_source_routing_header(9).is_err());
    assert!(s.endpoint.router.get_source_routing_header(1).is_err());
}

#[test]
fn misrouted_fragment_gets_one_unexpected_recipient_nack() {
    let mut s = chat_server();
    let mut p = client_packets(&ClientMessage::RegisterToChat, 30, &[7, 3, 6]).remove(0);
    p.routing_header.hop_index = 2;
    let out = s.handle_packet(p);
    assert_eq!(out.len(), 1);
    match &out[0] {
        Output::Forward(n) => {
            assert_eq!(n.routing_header.hops, vec![6, 3, 7]);
            assert_eq!(n.routing_header.hop_index, 1);
            assert!(matches!(n.pack_type, PacketType::Nack { fragment_index: 0, nack_type: NackKind::UnexpectedRecipient(1) }));
        }
        other => panic!("unexpected output {:?}", other),
    }
    assert!(s.registered_clients.is_empty());
}

#[test]
fn flood_request_is_answered() {
    let s = CommunicationServer::new(1);
    let mut s = s;
    let req = Packet {
        routing_header: header(&[], 0),
        session_id: 99,
        pack_type: PacketType::FloodRequest {
            flood_id: 5,
            initiator_id: 7,
            path_trace: vec![(7, NodeKind::Client), (3, NodeKind::Drone)],
        },
    };
    let out = s.handle_packet(req);
    assert_eq!(out.len(), 1);
    match &out[0] {
        Output::Forward(p) => {
            assert_eq!(p.routing_header.hops, vec![1, 3, 7]);
            assert_eq!(p.routing_header.hop_index, 1);
            assert_eq!(p.session_id, 99);
            match &p.pack_type {
                PacketType::FloodResponse { flood_id, path_trace } => {
                    assert_eq!(*flood_id, 5);
                    assert_eq!(path_trace, &vec![(7, NodeKind::Client), (3, NodeKind::Drone), (1, NodeKind::Server)]);
                }
                other => panic!("unexpected body {:?}", other),
            }
        }
        other => panic!("unexpected output {:?}", other),
    }
}

#[test]
fn flood_request_without_initiator_in_trace_appends_it() {
    let s = CommunicationServer::new(1);
    let p = s.endpoint.get_flood_response(6, 7, &vec![(3, NodeKind::Drone)], 0);
    assert_eq!(p.routing_header.hops, vec![1, 3, 7]);
}

#[test]
fn content_get_file_asks_for_the_text_then_replies() {
    let mut s = ContentServer::new(2, ServerType::Text);
    s.handle_packet(flood_response(&[(3, NodeKind::Drone), (5, NodeKind::Client)]));
    let mut out = Vec::new();
    for p in client_packets(&ClientMessage::GetFile(b"file1.html".to_vec()), 40, &[5, 3, 2]) {
        out.extend(s.handle_packet(p));
    }
    // ack first, then the read request
    assert!(matches!(&out[0], Output::Forward(p) if matches!(p.pack_type, PacketType::Ack { .. })));
    assert_eq!(out.len(), 2);
    match &out[1] {
        Output::ReadText { file_id, path, destination } => {
            assert_eq!(file_id, b"file1.html");
            assert_eq!(path, b"file1.html");
            assert_eq!(*destination, 5);
        }
        other => panic!("unexpected output {:?}", other),
    }
    let text = b"<html>hello</html>".to_vec();
    let out = s.file_loaded(b"file1.html".to_vec(), text.clone(), 5);
    let expected = ServerMessage::File { file_id: b"file1.html".to_vec(), size: text.len() as u64, content: text };
    assert_eq!(payload(&out), expected.encode());
    let frags = fragments(&out);
    assert!(frags.iter().all(|p| p.session_id == frags[0].session_id));
    assert!(frags.iter().all(|p| p.routing_header.hops == vec![2, 3, 5]));
}

#[test]
fn content_lookup_by_name_and_unknown_file() {
    let mut s = ContentServer::new(2, ServerType::Text);
    s.handle_packet(flood_response(&[(3, NodeKind::Drone), (5, NodeKind::Client)]));
    let out: Vec<Output> = client_packets(&ClientMessage::GetFile(b"file3".to_vec()), 41, &[5, 3, 2])
        .into_iter()
        .flat_map(|p| s.handle_packet(p))
        .collect();
    assert!(matches!(&out[1], Output::ReadText { path, .. } if path == b"file3.html"));
    let out: Vec<Output> = client_packets(&ClientMessage::GetFile(b"nothing".to_vec()), 42, &[5, 3, 2])
        .into_iter()
        .flat_map(|p| s.handle_packet(p))
        .collect();
    assert_eq!(out.len(), 1);
}

#[test]
fn content_files_list_and_type() {
    let mut s = ContentServer::new(2, ServerType::Media);
    s.handle_packet(flood_response(&[(3, NodeKind::Drone), (5, NodeKind::Client)]));
    let out: Vec<Output> = client_packets(&ClientMessage::GetFilesList, 43, &[5, 3, 2])
        .into_iter()
        .flat_map(|p| s.handle_packet(p))
        .collect();
    let names: Vec<Vec<u8>> = (1..=5).map(|i| format!("media{}", i).into_bytes()).collect();
    assert_eq!(payload(&out), ServerMessage::FilesList(names).encode());
    let out: Vec<Output> = client_packets(&ClientMessage::GetServerType, 44, &[5, 3, 2])
        .into_iter()
        .flat_map(|p| s.handle_packet(p))
        .collect();
    assert_eq!(payload(&out), ServerMessage::ServerType(ServerType::Media).encode());
    let out: Vec<Output> = client_packets(&ClientMessage::GetMedia(b"media2".to_vec()), 45, &[5, 3, 2])
        .into_iter()
        .flat_map(|p| s.handle_packet(p))
        .collect();
    assert!(matches!(&out[1], Output::ReadMedia { path, .. } if path == b"media2.jpg"));
}

#[test]
fn media_reply_is_base64_of_the_jpeg_bytes() {
    let mut s = ContentServer::new(2, ServerType::Media);
    s.handle_packet(flood_response(&[(3, NodeKind::Drone), (5, NodeKind::Client)]));
    let out = s.reply_media(b"m".to_vec(), &vec![0xff, 0xd8, 0xff], 5);
    assert_eq!(payload(&out), ServerMessage::Media(b"m".to_vec(), b"/9j/".to_vec()).encode());
}

#[test]
fn media_that_is_no_image_gives_nothing() {
    let mut s = ContentServer::new(2, ServerType::Media);
    s.handle_packet(flood_response(&[(3, NodeKind::Drone), (5, NodeKind::Client)]));
    assert!(s.media_loaded(b"m".to_vec(), &vec![1, 2, 3], 5).is_empty());
}

#[test]
fn media_from_a_png_is_reencoded_as_jpeg() {
    // a 1x1 grey PNG
    let png: Vec<u8> = vec![
        0x89, 0x50, 0x4e, 0x47, 0x0d, 0x0a, 0x1a, 0x0a, 0x00, 0x00, 0x00, 0x0d, 0x49, 0x48, 0x44,
        0x52, 0x00, 0x00, 0x00, 0x01, 0x00, 0x00, 0x00, 0x01, 0x08, 0x00, 0x00, 0x00, 0x00, 0x3a,
        0x7e, 0x9b, 0x55, 0x00, 0x00, 0x00, 0x0a, 0x49, 0x44, 0x41, 0x54, 0x78, 0x9c, 0x63, 0x60,
        0x00, 0x00, 0x00, 0x02, 0x00, 0x01, 0x48, 0xaf, 0xa4, 0x71, 0x00, 0x00, 0x00, 0x00, 0x49,
        0x45, 0x4e, 0x44, 0xae, 0x42, 0x60, 0x82,
    ];
    let mut s = ContentServer::new(2, ServerType::Media);
    s.handle_packet(flood_response(&[(3, NodeKind::Drone), (5, NodeKind::Client)]));
    let out = s.media_loaded(b"m".to_vec(), &png, 5);
    let bytes = payload(&out);
    assert!(!bytes.is_empty());
    // after the tag, the name with its length, the base64 of a JPEG starts "/9j/"
    assert_eq!(&bytes[0..2], &[1, 8]);
    assert_eq!(&bytes[11..15], b"/9j/");
}

#[test]
fn controller_commands_change_neighbours_and_reflood() {
    let mut s = CommunicationServer::new(1);
    let out = s.handle_command(ServerCommand::AddSender(2));
    assert_eq!(out.len(), 1);
    assert!(matches!(&out[0], Output::SendTo(2, _)));
    assert!(s.handle_command(ServerCommand::AddSender(2)).is_empty());
    assert!(s.handle_command(ServerCommand::RemoveSender(8)).is_empty());
    s.handle_command(ServerCommand::AddSender(4));
    s.handle_packet(flood_response(&[(2, NodeKind::Drone), (9, NodeKind::Client)]));
    let out = s.handle_command(ServerCommand::RemoveSender(2));
    assert_eq!(out.len(), 1);
    assert!(matches!(&out[0], Output::SendTo(4, _)));
    assert_eq!(s.endpoint.router.edges.len(), 0);
    assert!(s.handle_command(ServerCommand::LogNetwork).is_empty());
    let out = s.handle_command(ServerCommand::InitFlooding);
    assert_eq!(out.len(), 1);
    let out2 = s.flood_network();
    match (&out[0], &out2[0]) {
        (Output::SendTo(_, a), Output::SendTo(_, b)) => match (&a.pack_type, &b.pack_type) {
            (PacketType::FloodRequest { flood_id: x, .. }, PacketType::FloodRequest { flood_id: y, .. }) => {
                assert!(y > x)
            }
            _ => panic!("not flood requests"),
        },
        _ => panic!("not sends"),
    }
}
