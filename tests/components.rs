use overlay_server::cache::PacketCache;
use overlay_server::factory::MessageFactory;
use overlay_server::messages::{ClientMessage, MessageContent, ServerMessage};
use overlay_server::packet::{Fragment, NodeKind, Packet, PacketType, RoutingHeader};

fn fragment(index: u64, total: u64, data: &[u8]) -> Fragment {
    Fragment { fragment_index: index, total_fragments: total, data: data.to_vec() }
}

#[test]
fn cache_insert_take_and_count() {
    let mut c = PacketCache::new();
    let p = |s: u64, i: u64, d: u8| Packet {
        routing_header: RoutingHeader { hop_index: 1, hops: vec![1, 2] },
        session_id: s,
        pack_type: PacketType::MsgFragment(fragment(i, 3, &[d])),
    };
    c.insert_packet(p(1, 0, 10));
    c.insert_packet(p(1, 1, 11));
    assert_eq!(c.get_value((1, 0)).unwrap().1, 1);
    assert_eq!(c.get_value((1, 0)).unwrap().1, 2);
    // a second insert on a key replaces the packet and starts the count again
    c.insert_packet(p(1, 0, 12));
    let (q, n) = c.get_value((1, 0)).unwrap();
    assert_eq!(n, 1);
    assert!(matches!(&q.pack_type, PacketType::MsgFragment(f) if f.data == vec![12]));
    let taken = c.take_packet((1, 1)).unwrap();
    assert_eq!(taken.session_id, 1);
    assert_eq!(taken.get_fragment_index(), 1);
    assert!(c.take_packet((1, 1)).is_none());
    assert!(c.get_value((2, 0)).is_none());
}

#[test]
fn fragments_cover_the_message_in_order() {
    let mut f = MessageFactory::new(1, NodeKind::Server);
    let bytes: Vec<u8> = (0..300u32).map(|i| (i % 251) as u8).collect();
    let header = RoutingHeader { hop_index: 1, hops: vec![1, 3, 7] };
    let packets = f.fragment_bytes(&bytes, &header);
    assert_eq!(packets.len(), 3);
    let mut joined = Vec::new();
    for (i, p) in packets.iter().enumerate() {
        assert_eq!(p.session_id, 0);
        match &p.pack_type {
            PacketType::MsgFragment(fr) => {
                assert_eq!(fr.fragment_index, i as u64);
                assert_eq!(fr.total_fragments, 3);
                joined.extend_from_slice(&fr.data);
            }
            _ => panic!("not a fragment"),
        }
    }
    assert_eq!(joined, bytes);
    let again = f.fragment_bytes(&vec![], &header);
    assert_eq!(again.len(), 1);
    assert_eq!(again[0].session_id, 1);
    let exact = f.fragment_bytes(&vec![0; 256], &header);
    assert_eq!(exact.len(), 2);
}

#[test]
fn reassembly_out_of_order_with_duplicates() {
    let mut f = MessageFactory::new(1, NodeKind::Server);
    let bytes = ClientMessage::SendMessage { recipient_id: 9, content: vec![b'x'; 200] }.encode();
    let parts: Vec<&[u8]> = bytes.chunks(128).collect();
    assert_eq!(parts.len(), 2);
    assert!(f.receive_bytes(fragment(1, 2, parts[1]), 4, 7).is_none());
    assert!(f.receive_bytes(fragment(1, 2, parts[1]), 4, 7).is_none());
    // another origin with the same session is a different message
    assert!(f.receive_bytes(fragment(0, 2, parts[0]), 4, 8).is_none());
    let m = f.received_fragment(fragment(0, 2, parts[0]), 4, 7).unwrap();
    assert_eq!(m.session_id, 4);
    assert_eq!(m.source_id, 7);
    assert_eq!(m.destination_id, 1);
    match m.content {
        MessageContent::FromClient(ClientMessage::SendMessage { recipient_id, content }) => {
            assert_eq!(recipient_id, 9);
            assert_eq!(content, vec![b'x'; 200]);
        }
        other => panic!("unexpected {:?}", other),
    }
}

#[test]
fn malformed_fragments_are_discarded() {
    let mut f = MessageFactory::new(1, NodeKind::Server);
    assert!(f.receive_bytes(fragment(2, 2, &[1]), 1, 7).is_none());
    assert!(f.receive_bytes(fragment(0, 3, &[1]), 1, 7).is_none());
    // total disagrees with the first fragment
    assert!(f.receive_bytes(fragment(1, 2, &[2]), 1, 7).is_none());
    assert!(f.receive_bytes(fragment(1, 3, &[2]), 1, 7).is_none());
    assert_eq!(f.receive_bytes(fragment(2, 3, &[3]), 1, 7), Some(vec![1, 2, 3]));
    // a complete message that is no client request
    assert!(f.received_fragment(fragment(0, 1, &ServerMessage::SuccessfulRegistration.encode()), 2, 7).is_none());
}

#[test]
fn client_codec_round_trip() {
    let all = vec![
        ClientMessage::GetServerType,
        ClientMessage::RegisterToChat,
        ClientMessage::GetClientList,
        ClientMessage::Logout,
        ClientMessage::SendMessage { recipient_id: 3, content: b"hey".to_vec() },
        ClientMessage::SendMessage { recipient_id: 3, content: vec![] },
        ClientMessage::GetFilesList,
        ClientMessage::GetFile(b"a".to_vec()),
        ClientMessage::GetMedia(vec![]),
    ];
    for m in all {
        let b = m.encode();
        let d = ClientMessage::decode(&b).unwrap();
        assert_eq!(format!("{:?}", d), format!("{:?}", m));
    }
    assert_eq!(ClientMessage::GetFile(b"ab".to_vec()).encode(), vec![0, 6, b'a', b'b']);
    assert!(ClientMessage::decode(&vec![0, 0, 1]).is_none());
    assert!(ClientMessage::decode(&vec![1, 0]).is_none());
    assert!(ClientMessage::decode(&vec![0, 9]).is_none());
    assert!(ClientMessage::decode(&vec![0]).is_none());
}

#[test]
fn server_codec_layout() {
    assert_eq!(
        ServerMessage::File { file_id: b"f".to_vec(), size: 2, content: b"ok".to_vec() }.encode(),
        vec![1, 7, 0, 0, 0, 0, 0, 0, 0, 1, b'f', 0, 0, 0, 0, 0, 0, 0, 2, b'o', b'k']
    );
    assert_eq!(
        ServerMessage::FilesList(vec![b"a".to_vec(), b"bc".to_vec()]).encode(),
        vec![1, 6, 0, 0, 0, 0, 0, 0, 0, 1, b'a', 0, 0, 0, 0, 0, 0, 0, 2, b'b', b'c']
    );
    assert_eq!(ServerMessage::ClientList(vec![7, 9]).encode(), vec![1, 3, 7, 9]);
}
