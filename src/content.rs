use vstd::prelude::*;
use crate::endpoint::{
    answer_model, commanded, handled_other, nacked, outs, sent, Endpoint, Output, OutputModel,
    ServerCommand,
};
use crate::factory::{pending_after, reassembled, PendingKey};
use crate::media::{base64_of, encode_base64, jpeg_of, reencode_jpeg};
use crate::messages::{
    decode_client, ClientMessage, ClientModel, Message, MessageContent, ServerMessage, ServerModel,
    ServerType,
};
use crate::packet::{
    copy_bytes, BodyModel, NackKind, NodeId, Packet, PacketModel, PacketType,
};

verus! {

/// A file catalog as pairs of name and storage path.
pub open spec fn catalog_model(v: Seq<(Vec<u8>, Vec<u8>)>) -> Seq<(Seq<u8>, Seq<u8>)> {
    v.map_values(|e: (Vec<u8>, Vec<u8>)| (e.0@, e.1@))
}

/// The names of a catalog, in order.
pub open spec fn catalog_names(c: Seq<(Seq<u8>, Seq<u8>)>) -> Seq<Seq<u8>> {
    c.map_values(|e: (Seq<u8>, Seq<u8>)| e.0)
}

/// The storage path of the first entry named `name`.
pub open spec fn lookup(c: Seq<(Seq<u8>, Seq<u8>)>, name: Seq<u8>) -> Option<Seq<u8>>
    decreases c.len(),
{
    if c.len() == 0 {
        None
    } else if c[0].0 == name {
        Some(c[0].1)
    } else {
        lookup(c.drop_first(), name)
    }
}

/// Some entry of the catalog is stored at `path`.
pub open spec fn has_path(c: Seq<(Seq<u8>, Seq<u8>)>, path: Seq<u8>) -> bool {
    exists|i: int| 0 <= i < c.len() && #[trigger] c[i].1 == path
}

/// Name `stem` followed by the digit of `i`, and that name followed by `ext`.
pub open spec fn numbered_entry(stem: Seq<u8>, i: u8, ext: Seq<u8>) -> (Seq<u8>, Seq<u8>) {
    let name = stem.push((48 + i) as u8);
    (name, name + ext)
}

/// The catalog a content server of type `t` starts with: `file1` to `file5`
/// stored as `.html` for text, `media1` to `media5` stored as `.jpg` for
/// media, nothing otherwise.
pub open spec fn initial_catalog(t: ServerType) -> Seq<(Seq<u8>, Seq<u8>)> {
    match t {
        ServerType::Text => Seq::new(
            5,
            |i: int|
                numbered_entry(
                    seq![102u8, 105, 108, 101],
                    (i + 1) as u8,
                    seq![46u8, 104, 116, 109, 108],
                ),
        ),
        ServerType::Media => Seq::new(
            5,
            |i: int|
                numbered_entry(
                    seq![109u8, 101, 100, 105, 97],
                    (i + 1) as u8,
                    seq![46u8, 106, 112, 103],
                ),
        ),
        ServerType::Chat => Seq::empty(),
    }
}

/// What the content server does with request `m` from `source`: the
/// reply it sends, or the file it asks to read, or nothing.
pub ghost enum ContentAction {
    Reply(ServerModel),
    Read(OutputModel),
    Nothing,
}

/// The action of a content server of type `t` with catalog `c` on request `m`
/// from `source`. A file is looked up by name, or else taken by its storage
/// path; an unknown file is ignored. A media item is looked up by name, or
/// else its name is taken as its path.
pub open spec fn content_action(
    t: ServerType,
    c: Seq<(Seq<u8>, Seq<u8>)>,
    m: ClientModel,
    source: NodeId,
) -> ContentAction {
    match m {
        ClientModel::GetServerType => ContentAction::Reply(ServerModel::ServerType(t)),
        ClientModel::GetFilesList => ContentAction::Reply(ServerModel::FilesList(catalog_names(c))),
        ClientModel::GetFile(name) => match lookup(c, name) {
            Some(path) => ContentAction::Read(
                OutputModel::ReadText { file_id: name, path, destination: source },
            ),
            None => if has_path(c, name) {
                ContentAction::Read(
                    OutputModel::ReadText { file_id: name, path: name, destination: source },
                )
            } else {
                ContentAction::Nothing
            },
        },
        ClientModel::GetMedia(name) => ContentAction::Read(
            OutputModel::ReadMedia {
                name,
                path: match lookup(c, name) {
                    Some(p) => p,
                    None => name,
                },
                destination: source,
            },
        ),
        _ => ContentAction::Nothing,
    }
}

/// `post` and the outputs `o1` are what the content server does with request
/// `m` from `source` in state `pre`, after outputs `o0` (see `content_action`).
pub open spec fn content_handled(
    pre: ContentServer,
    post: ContentServer,
    o0: Seq<OutputModel>,
    o1: Seq<OutputModel>,
    m: ClientModel,
    source: NodeId,
) -> bool {
    &&& post.server_type == pre.server_type
    &&& post.file_list == pre.file_list
    &&& match content_action(pre.server_type, pre.catalog(), m, source) {
        ContentAction::Reply(reply) => sent(pre.endpoint, post.endpoint, o0, o1, reply, source),
        ContentAction::Read(o) => post.endpoint == pre.endpoint && o1 == o0.push(o),
        ContentAction::Nothing => post.endpoint == pre.endpoint && o1 == o0,
    }
}

/// What the content server does with fragment packet `p` in state `pre`,
/// giving `post` and outputs `o`. A fragment for another node is answered
/// with one `UnexpectedRecipient` NACK back along its path and changes
/// nothing. Otherwise an ack back along the path comes first, then the
/// fragment joins its message, and a completed client request is served
/// (see `content_handled`).
pub open spec fn content_fragment_handled(
    pre: ContentServer,
    post: ContentServer,
    p: PacketModel,
    o: Seq<OutputModel>,
) -> bool {
    match p.body {
        BodyModel::MsgFragment { index, total, data } => if !(p.hop_index < p.hops.len()
            && p.hops[p.hop_index] == pre.endpoint.id) {
            &&& post == pre
            &&& o == seq![
                OutputModel::Forward(
                    answer_model(
                        p.session_id,
                        p.hops,
                        BodyModel::Nack {
                            index,
                            kind: NackKind::UnexpectedRecipient(pre.endpoint.id),
                        },
                    ),
                ),
            ]
        } else {
            let key = (p.session_id, p.hops[0]);
            let bytes = reassembled(pre.endpoint.message_factory@, key, index, total, data);
            &&& o.len() >= 1
            &&& o[0] == OutputModel::Forward(
                answer_model(p.session_id, p.hops, BodyModel::Ack { index }),
            )
            &&& exists|mid: ContentServer| #[trigger]
                content_received(pre, mid, key, index, total, data) && match bytes {
                    Some(b) => match decode_client(b) {
                        Some(c) => content_handled(mid, post, seq![], o.drop_first(), c, p.hops[0]),
                        None => post == mid && o.drop_first() == Seq::<OutputModel>::empty(),
                    },
                    None => post == mid && o.drop_first() == Seq::<OutputModel>::empty(),
                }
        },
        _ => false,
    }
}

/// `mid` is `pre` once the fragment has joined its message.
pub open spec fn content_received(
    pre: ContentServer,
    mid: ContentServer,
    key: PendingKey,
    index: u64,
    total: u64,
    data: Seq<u8>,
) -> bool {
    &&& mid.wf()
    &&& mid.server_type == pre.server_type
    &&& mid.file_list == pre.file_list
    &&& mid.endpoint.id == pre.endpoint.id
    &&& mid.endpoint.router == pre.endpoint.router
    &&& mid.endpoint.packet_cache == pre.endpoint.packet_cache
    &&& mid.endpoint.message_factory.id == pre.endpoint.message_factory.id
    &&& mid.endpoint.message_factory.kind == pre.endpoint.message_factory.kind
    &&& mid.endpoint.message_factory.session_counter == pre.endpoint.message_factory.session_counter
    &&& mid.endpoint.message_factory@ == pending_after(pre.endpoint.message_factory@, key, index, total, data)
}

proof fn lemma_lookup_skip(c: Seq<(Seq<u8>, Seq<u8>)>, name: Seq<u8>, i: int)
    requires
        0 <= i <= c.len(),
        forall|j: int| 0 <= j < i ==> (#[trigger] c[j]).0 != name,
    ensures
        lookup(c, name) == lookup(c.subrange(i, c.len() as int), name),
    decreases i,
{
    if i > 0 {
        let d = c.drop_first();
        assert forall|j: int| 0 <= j < i - 1 implies (#[trigger] d[j]).0 != name by {
            assert(d[j] == c[j + 1]);
        }
        lemma_lookup_skip(d, name, i - 1);
        assert(d.subrange(i - 1, d.len() as int) =~= c.subrange(i, c.len() as int));
    } else {
        assert(c.subrange(0, c.len() as int) =~= c);
    }
}

/// Whether `a` and `b` hold the same bytes.
pub fn bytes_eq(a: &Vec<u8>, b: &Vec<u8>) -> (r: bool)
    ensures
        r == (a@ == b@),
{
    if a.len() != b.len() {
        return false;
    }
    let mut i: usize = 0;
    while i < a.len()
        invariant
            a@.len() == b@.len(),
            i <= a@.len(),
            forall|k: int| 0 <= k < i ==> a@[k] == b@[k],
        decreases a@.len() - i,
    {
        if a[i] != b[i] {
            return false;
        }
        i += 1;
    }
    assert(a@ =~= b@);
    true
}

/// `stem` followed by the digit of `i`.
fn numbered(stem: &Vec<u8>, i: u8) -> (r: Vec<u8>)
    requires
        i < 10,
    ensures
        r@ == stem@.push((48 + i) as u8),
{
    let mut r = copy_bytes(stem);
    r.push(48 + i);
    r
}

/// The content server: serves the files and media of its catalog.
pub struct ContentServer {
    pub endpoint: Endpoint,
    pub server_type: ServerType,
    pub file_list: Vec<(Vec<u8>, Vec<u8>)>,
}

impl ContentServer {
    pub open spec fn wf(&self) -> bool {
        self.endpoint.wf()
    }

    pub open spec fn catalog(&self) -> Seq<(Seq<u8>, Seq<u8>)> {
        catalog_model(self.file_list@)
    }

    pub fn new(id: NodeId, server_type: ServerType) -> (r: ContentServer)
        ensures
            r.wf(),
            r.endpoint.id == id,
            r.server_type == server_type,
            r.catalog() == initial_catalog(server_type),
            r.endpoint.packet_cache@.len() == 0,
            r.endpoint.router.neighbours@.len() == 0,
    {
        let mut stem: Vec<u8> = Vec::new();
        let mut ext: Vec<u8> = Vec::new();
        match server_type {
            ServerType::Text => {
                stem.push(102);
                stem.push(105);
                stem.push(108);
                stem.push(101);
                ext.push(46);
                ext.push(104);
                ext.push(116);
                ext.push(109);
                ext.push(108);
            },
            ServerType::Media => {
                stem.push(109);
                stem.push(101);
                stem.push(100);
                stem.push(105);
                stem.push(97);
                ext.push(46);
                ext.push(106);
                ext.push(112);
                ext.push(103);
            },
            ServerType::Chat => {},
        }
        let count: u8 = match server_type {
            ServerType::Chat => 0,
            _ => 5,
        };
        let ghost target = initial_catalog(server_type);
        proof {
            if server_type == ServerType::Text {
                assert(stem@ =~= seq![102u8, 105, 108, 101]);
                assert(ext@ =~= seq![46u8, 104, 116, 109, 108]);
            } else if server_type == ServerType::Media {
                assert(stem@ =~= seq![109u8, 101, 100, 105, 97]);
                assert(ext@ =~= seq![46u8, 106, 112, 103]);
            }
        }
        let mut files: Vec<(Vec<u8>, Vec<u8>)> = Vec::new();
        let mut i: u8 = 0;
        while i < count
            invariant
                i <= count,
                count == target.len(),
                count == 0 || count == 5,
                target == initial_catalog(server_type),
                server_type != ServerType::Chat ==> forall|k: int| 0 <= k < 5 ==> #[trigger] target[k]
                    == numbered_entry(stem@, (k + 1) as u8, ext@),
                catalog_model(files@) == target.subrange(0, i as int),
            decreases count - i,
        {
            let name = numbered(&stem, i + 1);
            let mut path = copy_bytes(&name);
            crate::messages::append_bytes(&mut path, &ext);
            let ghost entry = (name@, path@);
            let ghost old_files = files@;
            files.push((name, path));
            proof {
                assert(server_type != ServerType::Chat);
                assert(entry == numbered_entry(stem@, (i + 1) as u8, ext@));
                assert(target[i as int] == entry);
                assert(catalog_model(files@) =~= catalog_model(old_files).push(entry));
                assert(catalog_model(files@) =~= target.subrange(0, i + 1));
            }
            i += 1;
        }
        assert(target.subrange(0, count as int) =~= target);
        let r = ContentServer { endpoint: Endpoint::new(id), server_type, file_list: files };
        assert(r.endpoint.packet_cache@.dom() =~= Set::empty());
        r
    }

    /// The storage path of the first catalog entry named `name`.
    pub fn lookup_path(&self, name: &Vec<u8>) -> (r: Option<Vec<u8>>)
        ensures
            match r {
                Some(p) => lookup(self.catalog(), name@) == Some(p@),
                None => lookup(self.catalog(), name@).is_none(),
            },
    {
        let ghost c = self.catalog();
        let mut i: usize = 0;
        while i < self.file_list.len()
            invariant
                c == catalog_model(self.file_list@),
                i <= self.file_list@.len(),
                forall|j: int| 0 <= j < i ==> (#[trigger] c[j]).0 != name@,
            decreases self.file_list@.len() - i,
        {
            if bytes_eq(&self.file_list[i].0, name) {
                proof {
                    lemma_lookup_skip(c, name@, i as int);
                }
                return Some(copy_bytes(&self.file_list[i].1));
            }
            i += 1;
        }
        proof {
            lemma_lookup_skip(c, name@, i as int);
        }
        None
    }

    /// Whether some catalog entry is stored at `path`.
    pub fn is_stored_path(&self, path: &Vec<u8>) -> (r: bool)
        ensures
            r == has_path(self.catalog(), path@),
    {
        let ghost c = self.catalog();
        let mut i: usize = 0;
        while i < self.file_list.len()
            invariant
                c == catalog_model(self.file_list@),
                i <= self.file_list@.len(),
                forall|j: int| 0 <= j < i ==> (#[trigger] c[j]).1 != path@,
            decreases self.file_list@.len() - i,
        {
            if bytes_eq(&self.file_list[i].1, path) {
                assert(c[i as int].1 == path@);
                return true;
            }
            i += 1;
        }
        false
    }

    /// The names of the catalog, in order.
    pub fn file_names(&self) -> (r: Vec<Vec<u8>>)
        ensures
            r@.map_values(|n: Vec<u8>| n@) == catalog_names(self.catalog()),
    {
        let ghost c = self.catalog();
        let mut r: Vec<Vec<u8>> = Vec::new();
        let mut i: usize = 0;
        while i < self.file_list.len()
            invariant
                c == catalog_model(self.file_list@),
                i <= self.file_list@.len(),
                r@.map_values(|n: Vec<u8>| n@) == catalog_names(c).subrange(0, i as int),
            decreases self.file_list@.len() - i,
        {
            let ghost old_r = r@;
            let n = copy_bytes(&self.file_list[i].0);
            assert(n@ == c[i as int].0);
            r.push(n);
            proof {
                assert(r@.map_values(|n: Vec<u8>| n@) =~= old_r.map_values(|n: Vec<u8>| n@).push(n@));
                assert(r@.map_values(|n: Vec<u8>| n@) =~= catalog_names(c).subrange(0, i + 1));
            }
            i += 1;
        }
        assert(catalog_names(c).subrange(0, i as int) =~= catalog_names(c));
        r
    }

    /// Serves one request of a client (see `content_action`); a message that
    /// is not from a client is ignored.
    pub fn handle_message(&mut self, message: Message, out: &mut Vec<Output>)
        requires
            old(self).wf(),
        ensures
            final(self).wf(),
            final(self).server_type == old(self).server_type,
            final(self).file_list == old(self).file_list,
            match message.content {
                MessageContent::FromClient(c) => content_handled(
                    *old(self),
                    *final(self),
                    outs(old(out)@),
                    outs(final(out)@),
                    c@,
                    message.source_id,
                ),
                MessageContent::FromServer(_) => final(self).endpoint == old(self).endpoint && outs(
                    final(out)@,
                ) == outs(old(out)@),
            },
    {
        let source = message.source_id;
        let content = match message.content {
            MessageContent::FromClient(c) => c,
            MessageContent::FromServer(_) => {
                return ;
            },
        };
        let ghost before = out@;
        match content {
            ClientMessage::GetServerType => {
                let t = self.server_type;
                self.endpoint.send_message_to_client(&ServerMessage::ServerType(t), source, out);
            },
            ClientMessage::GetFilesList => {
                let names = self.file_names();
                self.endpoint.send_message_to_client(&ServerMessage::FilesList(names), source, out);
            },
            ClientMessage::GetFile(name) => {
                match self.lookup_path(&name) {
                    Some(path) => {
                        let o = Output::ReadText { file_id: name, path, destination: source };
                        out.push(o);
                        assert(outs(out@) =~= outs(before).push(o@));
                    },
                    None => {
                        if self.is_stored_path(&name) {
                            let path = copy_bytes(&name);
                            let o = Output::ReadText { file_id: name, path, destination: source };
                            out.push(o);
                            assert(outs(out@) =~= outs(before).push(o@));
                        }
                    },
                }
            },
            ClientMessage::GetMedia(name) => {
                let path = match self.lookup_path(&name) {
                    Some(p) => p,
                    None => copy_bytes(&name),
                };
                let o = Output::ReadMedia { name, path, destination: source };
                out.push(o);
                assert(outs(out@) =~= outs(before).push(o@));
            },
            _ => {},
        }
    }

    /// Replies to a file request with the text that was read: the size is
    /// the number of bytes.
    pub fn file_loaded(&mut self, file_id: Vec<u8>, content: Vec<u8>, destination: NodeId) -> (r:
        Vec<Output>)
        requires
            old(self).wf(),
        ensures
            final(self).wf(),
            final(self).server_type == old(self).server_type,
            final(self).file_list == old(self).file_list,
            sent(
                old(self).endpoint,
                final(self).endpoint,
                seq![],
                outs(r@),
                ServerModel::File {
                    file_id: file_id@,
                    size: content@.len() as u64,
                    content: content@,
                },
                destination,
            ),
    {
        let mut out: Vec<Output> = Vec::new();
        assert(outs(out@) =~= seq![]);
        let size = content.len() as u64;
        self.endpoint.send_message_to_client(
            &ServerMessage::File { file_id, size, content },
            destination,
            &mut out,
        );
        out
    }

    /// Replies to a media request with the base64 text of the JPEG bytes
    /// `jpeg`; bytes too many to encode give nothing.
    pub fn reply_media(&mut self, name: Vec<u8>, jpeg: &Vec<u8>, destination: NodeId) -> (r: Vec<
        Output,
    >)
        requires
            old(self).wf(),
        ensures
            final(self).wf(),
            final(self).server_type == old(self).server_type,
            final(self).file_list == old(self).file_list,
            jpeg@.len() < usize::MAX / 4 ==> sent(
                old(self).endpoint,
                final(self).endpoint,
                seq![],
                outs(r@),
                ServerModel::Media(name@, base64_of(jpeg@)),
                destination,
            ),
            jpeg@.len() >= usize::MAX / 4 ==> final(self).endpoint == old(self).endpoint
                && r@.len() == 0,
    {
        let mut out: Vec<Output> = Vec::new();
        assert(outs(out@) =~= seq![]);
        if jpeg.len() < usize::MAX / 4 {
            let text = encode_base64(jpeg);
            self.endpoint.send_message_to_client(&ServerMessage::Media(name, text), destination, &mut out);
        }
        out
    }

    /// Replies to a media request with the image file bytes `raw` that were
    /// read, re-encoded as JPEG (see `reply_media`); bytes that are no image
    /// give nothing.
    pub fn media_loaded(&mut self, name: Vec<u8>, raw: &Vec<u8>, destination: NodeId) -> (r: Vec<
        Output,
    >)
        requires
            old(self).wf(),
        ensures
            final(self).wf(),
            final(self).server_type == old(self).server_type,
            final(self).file_list == old(self).file_list,
            match jpeg_of(raw@) {
                Some(j) => j.len() < usize::MAX / 4 ==> sent(
                    old(self).endpoint,
                    final(self).endpoint,
                    seq![],
                    outs(r@),
                    ServerModel::Media(name@, base64_of(j)),
                    destination,
                ),
                None => final(self).endpoint == old(self).endpoint && r@.len() == 0,
            },
    {
        match reencode_jpeg(raw) {
            Some(jpeg) => self.reply_media(name, &jpeg, destination),
            None => Vec::new(),
        }
    }

    /// Handles one inbound packet and returns what to do (see
    /// `content_fragment_handled` and `handled_other`).
    pub fn handle_packet(&mut self, packet: Packet) -> (r: Vec<Output>)
        requires
            old(self).wf(),
        ensures
            final(self).wf(),
            match packet@.body {
                BodyModel::MsgFragment { .. } => content_fragment_handled(
                    *old(self),
                    *final(self),
                    packet@,
                    outs(r@),
                ),
                _ => final(self).server_type == old(self).server_type
                    && final(self).file_list == old(self).file_list
                    && handled_other(old(self).endpoint, final(self).endpoint, packet@, seq![], outs(r@), true),
            },
    {
        let mut out: Vec<Output> = Vec::new();
        assert(outs(out@) =~= seq![]);
        let ghost pm = packet@;
        let Packet { routing_header, session_id, pack_type } = packet;
        match pack_type {
            PacketType::MsgFragment(fragment) => {
                let index = fragment.fragment_index;
                if !self.endpoint.check_packet(&routing_header) {
                    let nack = self.endpoint.unexpected_recipient_nack(&routing_header, session_id, index);
                    out.push(Output::Forward(nack));
                    assert(outs(out@) =~= seq![OutputModel::Forward(nack@)]);
                } else {
                    let ack = self.endpoint.ack_for(&routing_header, session_id, index);
                    let ghost ack_model = ack@;
                    out.push(Output::Forward(ack));
                    assert(outs(out@) =~= seq![OutputModel::Forward(ack_model)]);
                    let origin = routing_header.hops[0];
                    let ghost total = fragment.total_fragments;
                    let ghost data = fragment.data@;
                    let delivered = self.endpoint.message_factory.received_fragment(fragment, session_id, origin);
                    let ghost mid = *self;
                    assert(content_received(*old(self), mid, (session_id, origin), index, total, data));
                    let mut rest: Vec<Output> = Vec::new();
                    assert(outs(rest@) =~= seq![]);
                    match delivered {
                        Some(message) => {
                            self.handle_message(message, &mut rest);
                        },
                        None => {},
                    }
                    let ghost rest_model = outs(rest@);
                    out.append(&mut rest);
                    assert(outs(out@) =~= seq![OutputModel::Forward(ack_model)] + rest_model);
                    assert(outs(out@).drop_first() =~= rest_model);
                }
            },
            other => {
                let p = Packet { routing_header, session_id, pack_type: other };
                assert(p@ == pm);
                self.endpoint.handle_other_packet(p, true, &mut out);
            },
        }
        out
    }

    /// Handles a NACK (see `nacked`); without a route the content server
    /// sends the fragment once more along its old header.
    pub fn handle_nack(&mut self, fragment_index: u64, nack_type: NackKind, session_id: u64, source_id: NodeId) -> (r: Vec<Output>)
        requires
            old(self).wf(),
        ensures
            final(self).wf(),
            final(self).server_type == old(self).server_type,
            final(self).file_list == old(self).file_list,
            nacked(old(self).endpoint, final(self).endpoint, seq![], outs(r@), (session_id, fragment_index), nack_type, source_id, true),
    {
        let mut out: Vec<Output> = Vec::new();
        assert(outs(out@) =~= seq![]);
        self.endpoint.handle_nack(fragment_index, nack_type, session_id, source_id, true, &mut out);
        out
    }

    /// Carries out a controller command (see `commanded`).
    pub fn handle_command(&mut self, command: ServerCommand) -> (r: Vec<Output>)
        requires
            old(self).wf(),
        ensures
            final(self).wf(),
            final(self).server_type == old(self).server_type,
            final(self).file_list == old(self).file_list,
            commanded(old(self).endpoint, final(self).endpoint, command, seq![], outs(r@)),
    {
        let mut out: Vec<Output> = Vec::new();
        assert(outs(out@) =~= seq![]);
        self.endpoint.handle_command(command, &mut out);
        out
    }

    /// The flood that starts the server: one request to each neighbour.
    pub fn flood_network(&mut self) -> (r: Vec<Output>)
        requires
            old(self).wf(),
        ensures
            final(self).wf(),
            final(self).server_type == old(self).server_type,
            final(self).file_list == old(self).file_list,
            final(self).endpoint.router.flood_counter == old(self).endpoint.router.flood_counter.wrapping_add(1),
            outs(r@) == crate::endpoint::flood_outputs(
                old(self).endpoint.router.neighbours@,
                final(self).endpoint.router.flood_counter,
                old(self).endpoint.id,
            ),
    {
        let mut out: Vec<Output> = Vec::new();
        assert(outs(out@) =~= seq![]);
        self.endpoint.flood_network(&mut out);
        assert(outs(out@) =~= crate::endpoint::flood_outputs(
                old(self).endpoint.router.neighbours@,
                self.endpoint.router.flood_counter,
                old(self).endpoint.id,
            ));
        out
    }
}

} // verus!
