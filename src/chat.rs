use vstd::prelude::*;
use crate::endpoint::{
    answer_model, commanded, handled_other, nacked, outs, sent, Endpoint, Output, OutputModel,
    ServerCommand,
};
use crate::factory::{pending_after, reassembled};
use crate::messages::{
    decode_client, ClientMessage, ClientModel, Message, MessageContent, ServerMessage, ServerModel,
    ServerType,
};
use crate::packet::{
    copy_bytes, other_than, BodyModel, NackKind, NodeId, Packet, PacketModel, PacketType,
};

verus! {

/// The registered clients after client `source` sent `m`.
pub open spec fn registered_after(clients: Seq<NodeId>, m: ClientModel, source: NodeId) -> Seq<
    NodeId,
> {
    match m {
        ClientModel::RegisterToChat => if clients.contains(source) {
            clients
        } else {
            clients.push(source)
        },
        ClientModel::Logout => clients.filter(other_than(source)),
        _ => clients,
    }
}

/// The reply of the chat server to `m` from `source`, with its addressee;
/// `None` where it sends nothing.
pub open spec fn chat_reply(clients: Seq<NodeId>, m: ClientModel, source: NodeId) -> Option<
    (ServerModel, NodeId),
> {
    match m {
        ClientModel::GetServerType => Some((ServerModel::ServerType(ServerType::Chat), source)),
        ClientModel::RegisterToChat => if clients.contains(source) {
            None
        } else {
            Some((ServerModel::SuccessfulRegistration, source))
        },
        ClientModel::Logout => if clients.contains(source) {
            Some((ServerModel::SuccessfullLogOut, source))
        } else {
            None
        },
        ClientModel::GetClientList => Some((ServerModel::ClientList(clients), source)),
        ClientModel::SendMessage { recipient_id, content } => if clients.contains(recipient_id)
            && clients.contains(source) {
            Some((ServerModel::MessageReceived { sender_id: source, content }, recipient_id))
        } else {
            Some((ServerModel::UnreachableClient(source), recipient_id))
        },
        _ => None,
    }
}

/// `post` and the outputs `o1` are what the chat server does with request
/// `m` from `source` in state `pre`, after outputs `o0`.
pub open spec fn chat_handled(
    pre: CommunicationServer,
    post: CommunicationServer,
    o0: Seq<OutputModel>,
    o1: Seq<OutputModel>,
    m: ClientModel,
    source: NodeId,
) -> bool {
    &&& post.server_type == pre.server_type
    &&& post.registered_clients@ == registered_after(pre.registered_clients@, m, source)
    &&& match chat_reply(pre.registered_clients@, m, source) {
        None => post.endpoint == pre.endpoint && o1 == o0,
        Some((reply, to)) => sent(pre.endpoint, post.endpoint, o0, o1, reply, to),
    }
}

/// What the chat server does with fragment packet `p` in state `pre`,
/// giving `post` and outputs `o`. A fragment for another node is answered
/// with one `UnexpectedRecipient` NACK back along its path and changes
/// nothing. Otherwise the fragment joins its message; a completed client
/// request is served first (see `chat_handled`), and an ack back along the
/// path comes last.
pub open spec fn chat_fragment_handled(
    pre: CommunicationServer,
    post: CommunicationServer,
    p: PacketModel,
    o: Seq<OutputModel>,
) -> bool {
    match p.body {
        BodyModel::MsgFragment { index, total, data } => if !(p.hop_index < p.hops.len()
            && p.hops[p.hop_index] == pre.endpoint.id) {
            &&& post == pre
            &&& o == seq![
                OutputModel::Forward(
                    answer_model(
                        p.session_id,
                        p.hops,
                        BodyModel::Nack {
                            index,
                            kind: NackKind::UnexpectedRecipient(pre.endpoint.id),
                        },
                    ),
                ),
            ]
        } else {
            let key = (p.session_id, p.hops[0]);
            let bytes = reassembled(pre.endpoint.message_factory@, key, index, total, data);
            &&& o.len() >= 1
            &&& o.last() == OutputModel::Forward(
                answer_model(p.session_id, p.hops, BodyModel::Ack { index }),
            )
            &&& exists|mid: CommunicationServer| #[trigger]
                received(pre, mid, key, index, total, data) && match bytes {
                    Some(b) => match decode_client(b) {
                        Some(c) => chat_handled(mid, post, seq![], o.drop_last(), c, p.hops[0]),
                        None => post == mid && o.drop_last() == Seq::<OutputModel>::empty(),
                    },
                    None => post == mid && o.drop_last() == Seq::<OutputModel>::empty(),
                }
        },
        _ => false,
    }
}

/// `mid` is `pre` once the fragment has joined its message.
pub open spec fn received(
    pre: CommunicationServer,
    mid: CommunicationServer,
    key: crate::factory::PendingKey,
    index: u64,
    total: u64,
    data: Seq<u8>,
) -> bool {
    &&& mid.wf()
    &&& mid.server_type == pre.server_type
    &&& mid.registered_clients == pre.registered_clients
    &&& mid.endpoint.id == pre.endpoint.id
    &&& mid.endpoint.router == pre.endpoint.router
    &&& mid.endpoint.packet_cache == pre.endpoint.packet_cache
    &&& mid.endpoint.message_factory.id == pre.endpoint.message_factory.id
    &&& mid.endpoint.message_factory.kind == pre.endpoint.message_factory.kind
    &&& mid.endpoint.message_factory.session_counter == pre.endpoint.message_factory.session_counter
    &&& mid.endpoint.message_factory@ == pending_after(pre.endpoint.message_factory@, key, index, total, data)
}

/// Registering twice leaves exactly one entry for the client, and logging
/// out twice removes no more than logging out once.
pub proof fn lemma_register_logout_idempotent(clients: Seq<NodeId>, source: NodeId)
    ensures
        ({
            let once = registered_after(clients, ClientModel::RegisterToChat, source);
            let twice = registered_after(once, ClientModel::RegisterToChat, source);
            twice == once && twice.contains(source)
        }),
        ({
            let once = registered_after(clients, ClientModel::Logout, source);
            let twice = registered_after(once, ClientModel::Logout, source);
            twice == once && !twice.contains(source)
        }),
        clients.no_duplicates() ==> registered_after(
            clients,
            ClientModel::RegisterToChat,
            source,
        ).no_duplicates(),
        clients.no_duplicates() ==> registered_after(clients, ClientModel::Logout, source).len()
            + 1 >= clients.len(),
{
    let once = registered_after(clients, ClientModel::RegisterToChat, source);
    if !clients.contains(source) {
        assert(once[once.len() - 1] == source);
    }
    let out1 = clients.filter(other_than(source));
    lemma_filter_without(clients, source);
    lemma_filter_without(out1, source);
    assert(out1.filter(other_than(source)) =~= out1) by {
        lemma_filter_keeps_all(out1, source);
    }
    if clients.no_duplicates() && !clients.contains(source) {
        assert forall|i: int, j: int| 0 <= i < j < once.len() implies once[i] != once[j] by {
            if j == once.len() - 1 {
                assert(clients.contains(once[i]));
            }
        }
    }
    if clients.no_duplicates() {
        lemma_filter_len_unique(clients, source);
    }
}

proof fn lemma_filter_without(s: Seq<NodeId>, v: NodeId)
    ensures
        !s.filter(other_than(v)).contains(v),
{
    broadcast use vstd::seq_lib::group_filter_ensures;
    if s.filter(other_than(v)).contains(v) {
        let t = s.filter(other_than(v));
        let i = choose|i: int| 0 <= i < t.len() && t[i] == v;
        assert(other_than(v)(t[i]));
    }
}

proof fn lemma_filter_keeps_all(s: Seq<NodeId>, v: NodeId)
    requires
        !s.contains(v),
    ensures
        s.filter(other_than(v)) == s,
    decreases s.len(),
{
    reveal(Seq::filter);
    if s.len() > 0 {
        assert(!s.drop_last().contains(v)) by {
            if s.drop_last().contains(v) {
                let i = choose|i: int| 0 <= i < s.drop_last().len() && s.drop_last()[i] == v;
                assert(s[i] == v);
            }
        }
        lemma_filter_keeps_all(s.drop_last(), v);
        assert(s[s.len() - 1] != v);
        assert(s.drop_last().push(s.last()) =~= s);
    }
}

proof fn lemma_filter_len_unique(s: Seq<NodeId>, v: NodeId)
    requires
        s.no_duplicates(),
    ensures
        s.filter(other_than(v)).len() + 1 >= s.len(),
    decreases s.len(),
{
    reveal(Seq::filter);
    if s.len() > 0 {
        let t = s.drop_last();
        assert(t.no_duplicates()) by {
            assert forall|i: int, j: int| 0 <= i < t.len() && 0 <= j < t.len() && i != j implies t[i] != t[j] by {
                assert(s[i] != s[j]);
            }
        }
        if s.last() == v {
            assert(!t.contains(v)) by {
                if t.contains(v) {
                    let i = choose|i: int| 0 <= i < t.len() && t[i] == v;
                    assert(s[i] == s[s.len() - 1]);
                }
            }
            lemma_filter_keeps_all(t, v);
        } else {
            lemma_filter_len_unique(t, v);
        }
    }
}

/// The chat server: relays messages among registered clients.
pub struct CommunicationServer {
    pub endpoint: Endpoint,
    pub server_type: ServerType,
    pub registered_clients: Vec<NodeId>,
}

impl CommunicationServer {
    pub open spec fn wf(&self) -> bool {
        &&& self.endpoint.wf()
        &&& self.server_type == ServerType::Chat
    }

    pub fn new(id: NodeId) -> (r: CommunicationServer)
        ensures
            r.wf(),
            r.endpoint.id == id,
            r.registered_clients@.len() == 0,
            r.endpoint.packet_cache@.len() == 0,
            r.endpoint.router.neighbours@.len() == 0,
    {
        let r = CommunicationServer {
            endpoint: Endpoint::new(id),
            server_type: ServerType::Chat,
            registered_clients: Vec::new(),
        };
        assert(r.endpoint.packet_cache@.dom() =~= Set::empty());
        r
    }

    /// Whether client `c` is registered.
    pub fn is_registered(&self, c: NodeId) -> (r: bool)
        ensures
            r == self.registered_clients@.contains(c),
    {
        let mut i: usize = 0;
        while i < self.registered_clients.len()
            invariant
                i <= self.registered_clients@.len(),
                forall|k: int| 0 <= k < i ==> #[trigger] self.registered_clients@[k] != c,
            decreases self.registered_clients@.len() - i,
        {
            if self.registered_clients[i] == c {
                assert(self.registered_clients@[i as int] == c);
                return true;
            }
            i += 1;
        }
        false
    }

    fn remove_client(&mut self, c: NodeId)
        ensures
            final(self).registered_clients@ == old(self).registered_clients@.filter(other_than(c)),
            final(self).endpoint == old(self).endpoint,
            final(self).server_type == old(self).server_type,
    {
        let mut kept: Vec<NodeId> = Vec::new();
        let mut i: usize = 0;
        while i < self.registered_clients.len()
            invariant
                i <= self.registered_clients@.len(),
                kept@ == self.registered_clients@.subrange(0, i as int).filter(other_than(c)),
            decreases self.registered_clients@.len() - i,
        {
            let x = self.registered_clients[i];
            proof {
                reveal(Seq::filter);
                assert(self.registered_clients@.subrange(0, i + 1).drop_last()
                    =~= self.registered_clients@.subrange(0, i as int));
            }
            if x != c {
                kept.push(x);
            }
            i += 1;
        }
        assert(self.registered_clients@.subrange(0, i as int) =~= self.registered_clients@);
        self.registered_clients = kept;
    }

    /// Serves one request of a client (see `chat_handled`); a message that is
    /// not from a client is ignored.
    pub fn handle_message(&mut self, message: Message, out: &mut Vec<Output>)
        requires
            old(self).wf(),
        ensures
            final(self).wf(),
            match message.content {
                MessageContent::FromClient(c) => chat_handled(
                    *old(self),
                    *final(self),
                    outs(old(out)@),
                    outs(final(out)@),
                    c@,
                    message.source_id,
                ),
                MessageContent::FromServer(_) => *final(self) == *old(self) && outs(final(out)@)
                    == outs(old(out)@),
            },
    {
        let source = message.source_id;
        let content = match message.content {
            MessageContent::FromClient(c) => c,
            MessageContent::FromServer(_) => {
                return ;
            },
        };
        let ghost m = content@;
        match content {
            ClientMessage::GetServerType => {
                self.endpoint.send_message_to_client(
                    &ServerMessage::ServerType(ServerType::Chat),
                    source,
                    out,
                );
            },
            ClientMessage::RegisterToChat => {
                if !self.is_registered(source) {
                    self.registered_clients.push(source);
                    self.endpoint.send_message_to_client(
                        &ServerMessage::SuccessfulRegistration,
                        source,
                        out,
                    );
                }
            },
            ClientMessage::Logout => {
                if self.is_registered(source) {
                    self.remove_client(source);
                    self.endpoint.send_message_to_client(
                        &ServerMessage::SuccessfullLogOut,
                        source,
                        out,
                    );
                } else {
                    proof {
                        lemma_filter_keeps_all(self.registered_clients@, source);
                    }
                }
            },
            ClientMessage::GetClientList => {
                let list = copy_bytes(&self.registered_clients);
                self.endpoint.send_message_to_client(&ServerMessage::ClientList(list), source, out);
            },
            ClientMessage::SendMessage { recipient_id, content } => {
                if self.is_registered(recipient_id) && self.is_registered(source) {
                    self.endpoint.send_message_to_client(
                        &ServerMessage::MessageReceived { sender_id: source, content },
                        recipient_id,
                        out,
                    );
                } else {
                    self.endpoint.send_message_to_client(
                        &ServerMessage::UnreachableClient(source),
                        recipient_id,
                        out,
                    );
                }
            },
            ClientMessage::GetFilesList | ClientMessage::GetFile(_) | ClientMessage::GetMedia(_) => {},
        }
    }

    /// Handles one inbound packet and returns what to send (see
    /// `chat_fragment_handled` and `handled_other`).
    pub fn handle_packet(&mut self, packet: Packet) -> (r: Vec<Output>)
        requires
            old(self).wf(),
        ensures
            final(self).wf(),
            match packet@.body {
                BodyModel::MsgFragment { .. } => chat_fragment_handled(
                    *old(self),
                    *final(self),
                    packet@,
                    outs(r@),
                ),
                _ => final(self).server_type == old(self).server_type
                    && final(self).registered_clients == old(self).registered_clients
                    && handled_other(old(self).endpoint, final(self).endpoint, packet@, seq![], outs(r@), false),
            },
    {
        let mut out: Vec<Output> = Vec::new();
        assert(outs(out@) =~= seq![]);
        let ghost pm = packet@;
        let Packet { routing_header, session_id, pack_type } = packet;
        match pack_type {
            PacketType::MsgFragment(fragment) => {
                let index = fragment.fragment_index;
                if !self.endpoint.check_packet(&routing_header) {
                    let nack = self.endpoint.unexpected_recipient_nack(&routing_header, session_id, index);
                    out.push(Output::Forward(nack));
                    assert(outs(out@) =~= seq![OutputModel::Forward(nack@)]);
                } else {
                    let origin = routing_header.hops[0];
                    let ghost total = fragment.total_fragments;
                    let ghost data = fragment.data@;
                    let delivered = self.endpoint.message_factory.received_fragment(fragment, session_id, origin);
                    let ghost mid = *self;
                    assert(received(*old(self), mid, (session_id, origin), index, total, data));
                    match delivered {
                        Some(message) => {
                            self.handle_message(message, &mut out);
                        },
                        None => {},
                    }
                    let ghost before = out@;
                    let ack = self.endpoint.ack_for(&routing_header, session_id, index);
                    out.push(Output::Forward(ack));
                    assert(outs(out@) =~= outs(before).push(OutputModel::Forward(ack@)));
                    assert(outs(out@).drop_last() =~= outs(before));
                }
            },
            other => {
                let p = Packet { routing_header, session_id, pack_type: other };
                assert(p@ == pm);
                self.endpoint.handle_other_packet(p, false, &mut out);
            },
        }
        out
    }

    /// Handles a NACK (see `nacked`); the chat server does not resend along a
    /// stale header.
    pub fn handle_nack(&mut self, fragment_index: u64, nack_type: NackKind, session_id: u64, source_id: NodeId) -> (r: Vec<Output>)
        requires
            old(self).wf(),
        ensures
            final(self).wf(),
            final(self).server_type == old(self).server_type,
            final(self).registered_clients == old(self).registered_clients,
            nacked(old(self).endpoint, final(self).endpoint, seq![], outs(r@), (session_id, fragment_index), nack_type, source_id, false),
    {
        let mut out: Vec<Output> = Vec::new();
        assert(outs(out@) =~= seq![]);
        self.endpoint.handle_nack(fragment_index, nack_type, session_id, source_id, false, &mut out);
        out
    }

    /// Carries out a controller command (see `Endpoint::handle_command`).
    pub fn handle_command(&mut self, command: ServerCommand) -> (r: Vec<Output>)
        requires
            old(self).wf(),
        ensures
            final(self).wf(),
            final(self).server_type == old(self).server_type,
            final(self).registered_clients == old(self).registered_clients,
            commanded(old(self).endpoint, final(self).endpoint, command, seq![], outs(r@)),
    {
        let mut out: Vec<Output> = Vec::new();
        assert(outs(out@) =~= seq![]);
        self.endpoint.handle_command(command, &mut out);
        out
    }

    /// The flood that starts the server: one request to each neighbour.
    pub fn flood_network(&mut self) -> (r: Vec<Output>)
        requires
            old(self).wf(),
        ensures
            final(self).wf(),
            final(self).registered_clients == old(self).registered_clients,
            final(self).endpoint.router.flood_counter == old(self).endpoint.router.flood_counter.wrapping_add(1),
            outs(r@) == crate::endpoint::flood_outputs(
                old(self).endpoint.router.neighbours@,
                final(self).endpoint.router.flood_counter,
                old(self).endpoint.id,
            ),
    {
        let mut out: Vec<Output> = Vec::new();
        assert(outs(out@) =~= seq![]);
        self.endpoint.flood_network(&mut out);
        assert(outs(out@) =~= crate::endpoint::flood_outputs(
                old(self).endpoint.router.neighbours@,
                self.endpoint.router.flood_counter,
                old(self).endpoint.id,
            ));
        out
    }
}

} // verus!
