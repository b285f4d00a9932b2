use vstd::prelude::*;
use crate::packet::NodeId;

verus! {

#[derive(Clone, Copy, Debug, PartialEq, Eq, Structural)]
pub enum ServerType {
    Chat,
    Text,
    Media,
}

/// A request from a client. Names and texts are UTF-8 bytes.
#[derive(Debug)]
pub enum ClientMessage {
    GetServerType,
    RegisterToChat,
    GetClientList,
    Logout,
    SendMessage { recipient_id: NodeId, content: Vec<u8> },
    GetFilesList,
    GetFile(Vec<u8>),
    GetMedia(Vec<u8>),
}

/// A reply or notification from a server. Names and texts are UTF-8 bytes.
#[derive(Debug)]
pub enum ServerMessage {
    ServerType(ServerType),
    SuccessfulRegistration,
    SuccessfullLogOut,
    ClientList(Vec<NodeId>),
    MessageReceived { sender_id: NodeId, content: Vec<u8> },
    UnreachableClient(NodeId),
    FilesList(Vec<Vec<u8>>),
    File { file_id: Vec<u8>, size: u64, content: Vec<u8> },
    Media(Vec<u8>, Vec<u8>),
}

#[derive(Debug)]
pub enum MessageContent {
    FromClient(ClientMessage),
    FromServer(ServerMessage),
}

/// An application message together with its session and end points.
#[derive(Debug)]
pub struct Message {
    pub session_id: u64,
    pub source_id: NodeId,
    pub destination_id: NodeId,
    pub content: MessageContent,
}

pub ghost enum ClientModel {
    GetServerType,
    RegisterToChat,
    GetClientList,
    Logout,
    SendMessage { recipient_id: NodeId, content: Seq<u8> },
    GetFilesList,
    GetFile(Seq<u8>),
    GetMedia(Seq<u8>),
}

pub ghost enum ServerModel {
    ServerType(ServerType),
    SuccessfulRegistration,
    SuccessfullLogOut,
    ClientList(Seq<NodeId>),
    MessageReceived { sender_id: NodeId, content: Seq<u8> },
    UnreachableClient(NodeId),
    FilesList(Seq<Seq<u8>>),
    File { file_id: Seq<u8>, size: u64, content: Seq<u8> },
    Media(Seq<u8>, Seq<u8>),
}

impl View for ClientMessage {
    type V = ClientModel;

    open spec fn view(&self) -> ClientModel {
        match self {
            ClientMessage::GetServerType => ClientModel::GetServerType,
            ClientMessage::RegisterToChat => ClientModel::RegisterToChat,
            ClientMessage::GetClientList => ClientModel::GetClientList,
            ClientMessage::Logout => ClientModel::Logout,
            ClientMessage::SendMessage { recipient_id, content } => ClientModel::SendMessage {
                recipient_id: *recipient_id,
                content: content@,
            },
            ClientMessage::GetFilesList => ClientModel::GetFilesList,
            ClientMessage::GetFile(n) => ClientModel::GetFile(n@),
            ClientMessage::GetMedia(n) => ClientModel::GetMedia(n@),
        }
    }
}

impl View for ServerMessage {
    type V = ServerModel;

    open spec fn view(&self) -> ServerModel {
        match self {
            ServerMessage::ServerType(t) => ServerModel::ServerType(*t),
            ServerMessage::SuccessfulRegistration => ServerModel::SuccessfulRegistration,
            ServerMessage::SuccessfullLogOut => ServerModel::SuccessfullLogOut,
            ServerMessage::ClientList(l) => ServerModel::ClientList(l@),
            ServerMessage::MessageReceived { sender_id, content } => ServerModel::MessageReceived {
                sender_id: *sender_id,
                content: content@,
            },
            ServerMessage::UnreachableClient(c) => ServerModel::UnreachableClient(*c),
            ServerMessage::FilesList(l) => ServerModel::FilesList(
                l@.map_values(|n: Vec<u8>| n@),
            ),
            ServerMessage::File { file_id, size, content } => ServerModel::File {
                file_id: file_id@,
                size: *size,
                content: content@,
            },
            ServerMessage::Media(n, d) => ServerModel::Media(n@, d@),
        }
    }
}

/// Envelope tag of a client message.
pub const FROM_CLIENT: u8 = 0;

/// Envelope tag of a server message.
pub const FROM_SERVER: u8 = 1;

pub open spec fn server_type_byte(t: ServerType) -> u8 {
    match t {
        ServerType::Chat => 0,
        ServerType::Text => 1,
        ServerType::Media => 2,
    }
}

/// The eight bytes of `n`, most significant first.
pub open spec fn be64(n: u64) -> Seq<u8> {
    seq![
        (n >> 56u64) as u8,
        (n >> 48u64) as u8,
        (n >> 40u64) as u8,
        (n >> 32u64) as u8,
        (n >> 24u64) as u8,
        (n >> 16u64) as u8,
        (n >> 8u64) as u8,
        n as u8,
    ]
}

/// `b` preceded by its length.
pub open spec fn sized(b: Seq<u8>) -> Seq<u8> {
    be64(b.len() as u64) + b
}

/// The names of a file list, each preceded by its length.
pub open spec fn sized_all(l: Seq<Seq<u8>>) -> Seq<u8>
    decreases l.len(),
{
    if l.len() == 0 {
        Seq::empty()
    } else {
        sized_all(l.drop_last()) + sized(l.last())
    }
}

/// Wire form of a client message, envelope tag included.
pub open spec fn encode_client(m: ClientModel) -> Seq<u8> {
    seq![FROM_CLIENT] + match m {
        ClientModel::GetServerType => seq![0u8],
        ClientModel::RegisterToChat => seq![1u8],
        ClientModel::GetClientList => seq![2u8],
        ClientModel::Logout => seq![3u8],
        ClientModel::SendMessage { recipient_id, content } => seq![4u8, recipient_id] + content,
        ClientModel::GetFilesList => seq![5u8],
        ClientModel::GetFile(n) => seq![6u8] + n,
        ClientModel::GetMedia(n) => seq![7u8] + n,
    }
}

/// Wire form of a server message, envelope tag included.
pub open spec fn encode_server(m: ServerModel) -> Seq<u8> {
    seq![FROM_SERVER] + match m {
        ServerModel::ServerType(t) => seq![0u8, server_type_byte(t)],
        ServerModel::SuccessfulRegistration => seq![1u8],
        ServerModel::SuccessfullLogOut => seq![2u8],
        ServerModel::ClientList(l) => seq![3u8] + l,
        ServerModel::MessageReceived { sender_id, content } => seq![4u8, sender_id] + content,
        ServerModel::UnreachableClient(c) => seq![5u8, c],
        ServerModel::FilesList(l) => seq![6u8] + sized_all(l),
        ServerModel::File { file_id, size, content } => seq![7u8] + sized(file_id) + be64(size)
            + content,
        ServerModel::Media(n, d) => seq![8u8] + sized(n) + d,
    }
}

/// The client message whose wire form is `b`, if `b` is one.
pub open spec fn decode_client(b: Seq<u8>) -> Option<ClientModel> {
    if b.len() < 2 || b[0] != FROM_CLIENT {
        None
    } else {
        let rest = b.subrange(2, b.len() as int);
        let tag = b[1];
        if tag == 0 && b.len() == 2 {
            Some(ClientModel::GetServerType)
        } else if tag == 1 && b.len() == 2 {
            Some(ClientModel::RegisterToChat)
        } else if tag == 2 && b.len() == 2 {
            Some(ClientModel::GetClientList)
        } else if tag == 3 && b.len() == 2 {
            Some(ClientModel::Logout)
        } else if tag == 4 && b.len() >= 3 {
            Some(
                ClientModel::SendMessage {
                    recipient_id: b[2],
                    content: b.subrange(3, b.len() as int),
                },
            )
        } else if tag == 5 && b.len() == 2 {
            Some(ClientModel::GetFilesList)
        } else if tag == 6 {
            Some(ClientModel::GetFile(rest))
        } else if tag == 7 {
            Some(ClientModel::GetMedia(rest))
        } else {
            None
        }
    }
}

/// Decoding the wire form of a client message gives that message back.
pub proof fn lemma_client_round_trip(m: ClientModel)
    ensures
        decode_client(encode_client(m)) == Some(m),
{
    let b = encode_client(m);
    match m {
        ClientModel::SendMessage { recipient_id, content } => {
            assert(b.subrange(3, b.len() as int) =~= content);
        },
        ClientModel::GetFile(n) => {
            assert(b.subrange(2, b.len() as int) =~= n);
        },
        ClientModel::GetMedia(n) => {
            assert(b.subrange(2, b.len() as int) =~= n);
        },
        _ => {},
    }
}

/// Appends all of `src` to `dst`.
pub fn append_bytes(dst: &mut Vec<u8>, src: &Vec<u8>)
    ensures
        final(dst)@ == old(dst)@ + src@,
{
    let mut i: usize = 0;
    while i < src.len()
        invariant
            i <= src@.len(),
            dst@ == old(dst)@ + src@.subrange(0, i as int),
        decreases src@.len() - i,
    {
        dst.push(src[i]);
        i += 1;
        assert(dst@ =~= old(dst)@ + src@.subrange(0, i as int));
    }
    assert(src@.subrange(0, i as int) =~= src@);
}

/// Appends the eight bytes of `n`, most significant first.
pub fn append_be64(dst: &mut Vec<u8>, n: u64)
    ensures
        final(dst)@ == old(dst)@ + be64(n),
{
    dst.push((n >> 56u64) as u8);
    dst.push((n >> 48u64) as u8);
    dst.push((n >> 40u64) as u8);
    dst.push((n >> 32u64) as u8);
    dst.push((n >> 24u64) as u8);
    dst.push((n >> 16u64) as u8);
    dst.push((n >> 8u64) as u8);
    dst.push(n as u8);
    assert(dst@ =~= old(dst)@ + be64(n));
}

/// Appends `b` preceded by its length.
pub fn append_sized(dst: &mut Vec<u8>, b: &Vec<u8>)
    ensures
        final(dst)@ == old(dst)@ + sized(b@),
{
    append_be64(dst, b.len() as u64);
    append_bytes(dst, b);
    assert(dst@ =~= old(dst)@ + sized(b@));
}

impl ClientMessage {
    /// The wire form of this message.
    pub fn encode(&self) -> (r: Vec<u8>)
        ensures
            r@ == encode_client(self@),
    {
        let mut r: Vec<u8> = Vec::new();
        r.push(FROM_CLIENT);
        match self {
            ClientMessage::GetServerType => r.push(0),
            ClientMessage::RegisterToChat => r.push(1),
            ClientMessage::GetClientList => r.push(2),
            ClientMessage::Logout => r.push(3),
            ClientMessage::SendMessage { recipient_id, content } => {
                r.push(4);
                r.push(*recipient_id);
                append_bytes(&mut r, content);
            },
            ClientMessage::GetFilesList => r.push(5),
            ClientMessage::GetFile(n) => {
                r.push(6);
                append_bytes(&mut r, n);
            },
            ClientMessage::GetMedia(n) => {
                r.push(7);
                append_bytes(&mut r, n);
            },
        }
        assert(r@ =~= encode_client(self@));
        r
    }

    /// The client message whose wire form is `b`; `None` for anything that is
    /// not the wire form of a client message.
    pub fn decode(b: &Vec<u8>) -> (r: Option<ClientMessage>)
        ensures
            match r {
                Some(m) => decode_client(b@) == Some(m@),
                None => decode_client(b@).is_none(),
            },
    {
        if b.len() < 2 || b[0] != FROM_CLIENT {
            return None;
        }
        let tag = b[1];
        let n = b.len();
        let rest = tail_bytes(b, 2);
        if tag == 0 && n == 2 {
            Some(ClientMessage::GetServerType)
        } else if tag == 1 && n == 2 {
            Some(ClientMessage::RegisterToChat)
        } else if tag == 2 && n == 2 {
            Some(ClientMessage::GetClientList)
        } else if tag == 3 && n == 2 {
            Some(ClientMessage::Logout)
        } else if tag == 4 && n >= 3 {
            Some(ClientMessage::SendMessage { recipient_id: b[2], content: tail_bytes(b, 3) })
        } else if tag == 5 && n == 2 {
            Some(ClientMessage::GetFilesList)
        } else if tag == 6 {
            Some(ClientMessage::GetFile(rest))
        } else if tag == 7 {
            Some(ClientMessage::GetMedia(rest))
        } else {
            None
        }
    }
}

/// The bytes of `b` from position `from` on.
pub fn tail_bytes(b: &Vec<u8>, from: usize) -> (r: Vec<u8>)
    requires
        from <= b@.len(),
    ensures
        r@ == b@.subrange(from as int, b@.len() as int),
{
    let mut r: Vec<u8> = Vec::new();
    let mut i: usize = from;
    while i < b.len()
        invariant
            from <= i <= b@.len(),
            r@ == b@.subrange(from as int, i as int),
        decreases b@.len() - i,
    {
        r.push(b[i]);
        i += 1;
        assert(r@ =~= b@.subrange(from as int, i as int));
    }
    r
}

impl ServerMessage {
    /// The wire form of this message.
    pub fn encode(&self) -> (r: Vec<u8>)
        ensures
            r@ == encode_server(self@),
    {
        let mut r: Vec<u8> = Vec::new();
        r.push(FROM_SERVER);
        match self {
            ServerMessage::ServerType(t) => {
                r.push(0);
                r.push(
                    match t {
                        ServerType::Chat => 0,
                        ServerType::Text => 1,
                        ServerType::Media => 2,
                    },
                );
            },
            ServerMessage::SuccessfulRegistration => r.push(1),
            ServerMessage::SuccessfullLogOut => r.push(2),
            ServerMessage::ClientList(l) => {
                r.push(3);
                append_bytes(&mut r, l);
            },
            ServerMessage::MessageReceived { sender_id, content } => {
                r.push(4);
                r.push(*sender_id);
                append_bytes(&mut r, content);
            },
            ServerMessage::UnreachableClient(c) => {
                r.push(5);
                r.push(*c);
            },
            ServerMessage::FilesList(l) => {
                r.push(6);
                let ghost start = r@;
                let ghost names = l@.map_values(|n: Vec<u8>| n@);
                let mut i: usize = 0;
                while i < l.len()
                    invariant
                        i <= l@.len(),
                        names == l@.map_values(|n: Vec<u8>| n@),
                        r@ == start + sized_all(names.subrange(0, i as int)),
                    decreases l@.len() - i,
                {
                    append_sized(&mut r, &l[i]);
                    proof {
                        let s = names.subrange(0, i + 1);
                        assert(s.drop_last() =~= names.subrange(0, i as int));
                        assert(r@ =~= start + sized_all(s));
                    }
                    i += 1;
                }
                assert(names.subrange(0, i as int) =~= names);
            },
            ServerMessage::File { file_id, size, content } => {
                r.push(7);
                append_sized(&mut r, file_id);
                append_be64(&mut r, *size);
                append_bytes(&mut r, content);
            },
            ServerMessage::Media(n, d) => {
                r.push(8);
                append_sized(&mut r, n);
                append_bytes(&mut r, d);
            },
        }
        assert(r@ =~= encode_server(self@));
        r
    }
}

} // verus!
