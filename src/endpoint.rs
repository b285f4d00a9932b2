use vstd::prelude::*;
use crate::cache::{bumped, key_of, CacheKey, PacketCache};
use crate::factory::{chunk, fragment_count, fragment_model, MessageFactory};
use crate::messages::{encode_server, ServerMessage};
use crate::packet::{
    copy_trace, other_than, reversed, trace_ids, BodyModel, NackKind, NodeId, NodeKind, Packet, PacketModel,
    PacketType, RoutingHeader,
};
use crate::router::{flood_request_model, Router};

verus! {

/// What the endpoint reports to its controller.
#[derive(Clone, Copy, Debug, PartialEq, Eq, Structural)]
pub enum ServerEvent {
    DestinationIsDrone(NodeId),
    UnreachableNode(NodeId),
    ErrorPacketCache(u64, u64),
}

/// A command from the controller. The channel that comes with `AddSender`
/// stays with the caller.
#[derive(Clone, Copy, Debug, PartialEq, Eq, Structural)]
pub enum ServerCommand {
    InitFlooding,
    LogNetwork,
    AddSender(NodeId),
    RemoveSender(NodeId),
}

/// An action that the endpoint asks its surroundings to perform.
#[derive(Debug)]
pub enum Output {
    /// Send the packet to the node under the cursor of its routing header.
    Forward(Packet),
    /// Send the packet to the given direct neighbour.
    SendTo(NodeId, Packet),
    /// Report an event to the controller.
    Event(ServerEvent),
    /// Read text file `path` and hand it back as `file_id` for `destination`.
    ReadText { file_id: Vec<u8>, path: Vec<u8>, destination: NodeId },
    /// Read image file `path` and hand it back as `name` for `destination`.
    ReadMedia { name: Vec<u8>, path: Vec<u8>, destination: NodeId },
}

pub ghost enum OutputModel {
    Forward(PacketModel),
    SendTo(NodeId, PacketModel),
    Event(ServerEvent),
    ReadText { file_id: Seq<u8>, path: Seq<u8>, destination: NodeId },
    ReadMedia { name: Seq<u8>, path: Seq<u8>, destination: NodeId },
}

impl View for Output {
    type V = OutputModel;

    open spec fn view(&self) -> OutputModel {
        match self {
            Output::Forward(p) => OutputModel::Forward(p@),
            Output::SendTo(n, p) => OutputModel::SendTo(*n, p@),
            Output::Event(e) => OutputModel::Event(*e),
            Output::ReadText { file_id, path, destination } => OutputModel::ReadText {
                file_id: file_id@,
                path: path@,
                destination: *destination,
            },
            Output::ReadMedia { name, path, destination } => OutputModel::ReadMedia {
                name: name@,
                path: path@,
                destination: *destination,
            },
        }
    }
}

/// The models of a sequence of outputs.
pub open spec fn outs(v: Seq<Output>) -> Seq<OutputModel> {
    v.map_values(|o: Output| o@)
}

/// One flood request to each neighbour, in order.
pub open spec fn flood_outputs(neighbours: Seq<NodeId>, flood_id: u64, id: NodeId) -> Seq<
    OutputModel,
> {
    Seq::new(
        neighbours.len(),
        |i: int| OutputModel::SendTo(neighbours[i], flood_request_model(flood_id, id)),
    )
}

/// The fragments that carry `encoded` in session `session` along `hops`.
pub open spec fn message_fragments(session: u64, hops: Seq<NodeId>, encoded: Seq<u8>) -> Seq<
    PacketModel,
> {
    Seq::new(
        fragment_count(encoded.len()),
        |i: int|
            fragment_model(
                session,
                hops,
                1,
                i as u64,
                fragment_count(encoded.len()) as u64,
                chunk(encoded, i),
            ),
    )
}

/// Each packet forwarded, in order.
pub open spec fn forwards(s: Seq<PacketModel>) -> Seq<OutputModel> {
    Seq::new(s.len(), |i: int| OutputModel::Forward(s[i]))
}

/// `m` after caching every packet of `s` in order, each with no NACK yet.
pub open spec fn insert_all(m: Map<CacheKey, (PacketModel, u64)>, s: Seq<PacketModel>) -> Map<
    CacheKey,
    (PacketModel, u64),
>
    decreases s.len(),
{
    if s.len() == 0 {
        m
    } else {
        insert_all(m, s.drop_last()).insert(key_of(s.last()), (s.last(), 0u64))
    }
}

/// Every cached packet was sent by `id`: its header starts there, cursor on
/// the first hop.
pub open spec fn cached_from(m: Map<CacheKey, (PacketModel, u64)>, id: NodeId) -> bool {
    forall|k: CacheKey|
        #[trigger] m.contains_key(k) ==> m[k].0.hop_index == 1 && m[k].0.hops.len() >= 2
            && m[k].0.hops[0] == id
}

/// The header of a reply to a packet that travelled along `hops`.
pub open spec fn reply_hops(hops: Seq<NodeId>) -> Seq<NodeId> {
    reversed(hops)
}

/// The hops of the answer to a flood request: the trace with this node
/// appended, reversed, ending at the initiator.
pub open spec fn flood_response_hops(
    trace: Seq<(NodeId, NodeKind)>,
    id: NodeId,
    initiator: NodeId,
) -> Seq<NodeId> {
    let h = reversed(trace_ids(trace.push((id, NodeKind::Server))));
    if h.last() == initiator {
        h
    } else {
        h.push(initiator)
    }
}

/// The flood response that node `id` sends back for a request.
pub open spec fn flood_response_model(
    session_id: u64,
    flood_id: u64,
    initiator: NodeId,
    trace: Seq<(NodeId, NodeKind)>,
    id: NodeId,
) -> PacketModel {
    PacketModel {
        session_id,
        hops: flood_response_hops(trace, id, initiator),
        hop_index: 1,
        body: BodyModel::FloodResponse {
            flood_id,
            trace: trace.push((id, NodeKind::Server)),
        },
    }
}

/// The ack or nack that answers a packet of session `session_id` that came
/// along `hops`.
pub open spec fn answer_model(session_id: u64, hops: Seq<NodeId>, body: BodyModel) -> PacketModel {
    PacketModel { session_id, hops: reply_hops(hops), hop_index: 1, body }
}

/// Caching the fragments of one message keeps each of them, with no NACK
/// counted, whatever the cache held before.
pub proof fn lemma_fragments_cached(
    m: Map<CacheKey, (PacketModel, u64)>,
    session: u64,
    hops: Seq<NodeId>,
    encoded: Seq<u8>,
)
    requires
        fragment_count(encoded.len()) <= u64::MAX,
    ensures
        ({
            let s = message_fragments(session, hops, encoded);
            forall|i: int|
                0 <= i < s.len() ==> #[trigger] insert_all(m, s).contains_key(key_of(s[i]))
                    && insert_all(m, s)[key_of(s[i])] == (s[i], 0u64)
        }),
{
    let s = message_fragments(session, hops, encoded);
    assert forall|a: int, b: int| 0 <= a < b < s.len() implies key_of(#[trigger] s[a]) != key_of(
        #[trigger] s[b],
    ) by {
        assert(key_of(s[a]).1 == a as u64);
        assert(key_of(s[b]).1 == b as u64);
    }
    assert forall|i: int| 0 <= i < s.len() implies #[trigger] insert_all(m, s).contains_key(
        key_of(s[i]),
    ) && insert_all(m, s)[key_of(s[i])] == (s[i], 0u64) by {
        lemma_insert_all_keeps(m, s, i);
    }
}

proof fn lemma_insert_all_keeps(m: Map<CacheKey, (PacketModel, u64)>, s: Seq<PacketModel>, i: int)
    requires
        0 <= i < s.len(),
        forall|a: int, b: int|
            0 <= a < b < s.len() ==> key_of(#[trigger] s[a]) != key_of(#[trigger] s[b]),
    ensures
        insert_all(m, s).contains_key(key_of(s[i])),
        insert_all(m, s)[key_of(s[i])] == (s[i], 0u64),
    decreases s.len(),
{
    if i < s.len() - 1 {
        let t = s.drop_last();
        assert forall|a: int, b: int| 0 <= a < b < t.len() implies key_of(#[trigger] t[a])
            != key_of(#[trigger] t[b]) by {
            assert(t[a] == s[a] && t[b] == s[b]);
        }
        lemma_insert_all_keeps(m, t, i);
        assert(key_of(s[i]) != key_of(s[s.len() - 1]));
    }
}

/// `post` and the outputs `o1` are what resending fragment `key` from
/// state `pre` gives, after outputs `o0`. Without a cache entry the miss is
/// reported. Otherwise the entry stays, its NACK count goes up by one, a count
/// above one hundred first floods all neighbours, and then the packet goes out
/// again over a fresh least-cost route to its destination; without a route the
/// destination is reported unreachable, and with `stale` the packet is sent
/// once more along its old header.
pub open spec fn resent(
    pre: Endpoint,
    post: Endpoint,
    o0: Seq<OutputModel>,
    o1: Seq<OutputModel>,
    key: CacheKey,
    stale: bool,
) -> bool {
    let c = pre.packet_cache@;
    &&& post.id == pre.id
    &&& post.message_factory == pre.message_factory
    &&& post.router.id == pre.router.id
    &&& post.router.kind == pre.router.kind
    &&& post.router.nodes@ == pre.router.nodes@
    &&& post.router.edges@ == pre.router.edges@
    &&& post.router.neighbours@ == pre.router.neighbours@
    &&& if !c.contains_key(key) {
        &&& post.packet_cache@ == c
        &&& post.router.flood_counter == pre.router.flood_counter
        &&& o1 == o0.push(OutputModel::Event(ServerEvent::ErrorPacketCache(key.0, key.1)))
    } else {
        let p = c[key].0;
        let n = bumped(c[key].1);
        let fid = pre.router.flood_counter.wrapping_add(1);
        let o_mid = if n > 100 {
            o0 + flood_outputs(pre.router.neighbours@, fid, pre.id)
        } else {
            o0
        };
        let dest = p.hops.last();
        &&& post.packet_cache@ == c.insert(key, (p, n))
        &&& post.router.flood_counter == (if n > 100 {
            fid
        } else {
            pre.router.flood_counter
        })
        &&& if pre.routable(dest) {
            exists|h: Seq<NodeId>|
                #[trigger] pre.router.is_best_route(dest, h) && o1 == o_mid.push(
                    OutputModel::Forward(PacketModel { hops: h, hop_index: 1, ..p }),
                )
        } else {
            o1 == o_mid.push(OutputModel::Event(ServerEvent::UnreachableNode(dest))) + (if stale {
                seq![OutputModel::Forward(p)]
            } else {
                Seq::empty()
            })
        }
    }
}

/// `mid` is `pre` with the topology change that a NACK of `kind` from
/// `source` calls for: a crashed node marked, or the edges of the node to
/// blame penalised.
pub open spec fn touched(pre: Endpoint, mid: Endpoint, kind: NackKind, source: NodeId) -> bool {
    &&& mid.id == pre.id
    &&& mid.message_factory == pre.message_factory
    &&& mid.packet_cache == pre.packet_cache
    &&& mid.router.id == pre.router.id
    &&& mid.router.kind == pre.router.kind
    &&& mid.router.neighbours@ == pre.router.neighbours@
    &&& mid.router.flood_counter == pre.router.flood_counter
    &&& match kind {
        NackKind::ErrorInRouting(c) => crate::router::crash_marked(
            pre.router.nodes@,
            mid.router.nodes@,
            c,
        ) && mid.router.edges@ == pre.router.edges@,
        NackKind::UnexpectedRecipient(x) => crate::router::penalised(
            pre.router.edges@,
            mid.router.edges@,
            x,
        ) && mid.router.nodes@ == pre.router.nodes@,
        NackKind::Dropped => crate::router::penalised(
            pre.router.edges@,
            mid.router.edges@,
            source,
        ) && mid.router.nodes@ == pre.router.nodes@,
        NackKind::DestinationIsDrone => false,
    }
}

/// What handling a NACK does: a NACK saying that the destination is a drone
/// is reported and changes nothing; any other changes the topology as
/// `touched` says and then resends as `resent` says.
pub open spec fn nacked(
    pre: Endpoint,
    post: Endpoint,
    o0: Seq<OutputModel>,
    o1: Seq<OutputModel>,
    key: CacheKey,
    kind: NackKind,
    source: NodeId,
    stale: bool,
) -> bool {
    if kind == NackKind::DestinationIsDrone {
        post == pre && o1 == o0.push(OutputModel::Event(ServerEvent::DestinationIsDrone(pre.id)))
    } else {
        exists|mid: Endpoint| #[trigger]
            touched(pre, mid, kind, source) && resent(mid, post, o0, o1, key, stale)
    }
}

/// `post` and the outputs `o1` are what sending `msg` to `destination` from
/// state `pre` gives, after outputs `o0`: over a least-cost route to the
/// destination, the fragments of one fresh session are cached and forwarded
/// in order; without a route nothing changes.
pub open spec fn sent(
    pre: Endpoint,
    post: Endpoint,
    o0: Seq<OutputModel>,
    o1: Seq<OutputModel>,
    msg: crate::messages::ServerModel,
    destination: NodeId,
) -> bool {
    &&& post.id == pre.id
    &&& post.router == pre.router
    &&& post.message_factory@ == pre.message_factory@
    &&& post.message_factory.id == pre.message_factory.id
    &&& post.message_factory.kind == pre.message_factory.kind
    &&& if !pre.routable(destination) {
        &&& post.message_factory.session_counter == pre.message_factory.session_counter
        &&& post.packet_cache@ == pre.packet_cache@
        &&& o1 == o0
    } else {
        &&& post.message_factory.session_counter == pre.message_factory.session_counter.wrapping_add(1)
        &&& exists|h: Seq<NodeId>|
            #[trigger] pre.router.is_best_route(destination, h) && {
                let s = message_fragments(pre.message_factory.session_counter, h, encode_server(msg));
                &&& o1 == o0 + forwards(s)
                &&& post.packet_cache@ == insert_all(pre.packet_cache@, s)
            }
    }
}

/// `post` and the outputs `o1` are what a packet `p` other than a fragment
/// does to state `pre`, after outputs `o0`: an ack drops the cached fragment
/// of its session and index; a NACK is handled as `nacked` says, blaming the
/// first hop of its header (one with no hops is ignored); a flood request is
/// answered with a flood response; a flood response updates the topology.
pub open spec fn handled_other(
    pre: Endpoint,
    post: Endpoint,
    p: PacketModel,
    o0: Seq<OutputModel>,
    o1: Seq<OutputModel>,
    stale: bool,
) -> bool {
    match p.body {
        BodyModel::Ack { index } => {
            &&& post.id == pre.id
            &&& post.router == pre.router
            &&& post.message_factory == pre.message_factory
            &&& post.packet_cache@ == pre.packet_cache@.remove((p.session_id, index))
            &&& o1 == o0
        },
        BodyModel::Nack { index, kind } => if p.hops.len() > 0 {
            nacked(pre, post, o0, o1, (p.session_id, index), kind, p.hops[0], stale)
        } else {
            post == pre && o1 == o0
        },
        BodyModel::FloodRequest { flood_id, initiator, trace } => {
            &&& post == pre
            &&& o1 == o0.push(
                OutputModel::Forward(flood_response_model(p.session_id, flood_id, initiator, trace, pre.id)),
            )
        },
        BodyModel::FloodResponse { flood_id, trace } => {
            &&& post.id == pre.id
            &&& post.message_factory == pre.message_factory
            &&& post.packet_cache == pre.packet_cache
            &&& crate::router::absorbed(pre.router, post.router, trace)
            &&& o1 == o0
        },
        BodyModel::MsgFragment { .. } => false,
    }
}

/// What a controller command does to state `pre`, giving `post` and outputs
/// `o1` after `o0`. Adding a known neighbour or removing an unknown one
/// changes nothing, as does `LogNetwork`; otherwise the neighbour set changes,
/// the topology is forgotten and all neighbours get a fresh flood request.
pub open spec fn commanded(
    pre: Endpoint,
    post: Endpoint,
    command: ServerCommand,
    o0: Seq<OutputModel>,
    o1: Seq<OutputModel>,
) -> bool {
    let nb = pre.router.neighbours@;
    let reflood = match command {
        ServerCommand::InitFlooding => Some(nb),
        ServerCommand::LogNetwork => None,
        ServerCommand::AddSender(n) => if nb.contains(n) {
            None
        } else {
            Some(nb.push(n))
        },
        ServerCommand::RemoveSender(n) => if nb.contains(n) {
            Some(nb.filter(other_than(n)))
        } else {
            None
        },
    };
    &&& post.id == pre.id
    &&& post.message_factory == pre.message_factory
    &&& post.packet_cache == pre.packet_cache
    &&& match reflood {
        None => post.router == pre.router && o1 == o0,
        Some(new_nb) => {
            &&& post.router.id == pre.router.id
            &&& post.router.kind == pre.router.kind
            &&& post.router.neighbours@ == new_nb
            &&& post.router.nodes@ == seq![crate::router::NodeEntry { id: pre.id, kind: pre.router.kind, crashed: false }]
            &&& post.router.edges@.len() == 0
            &&& post.router.flood_counter == pre.router.flood_counter.wrapping_add(1)
            &&& o1 == o0 + flood_outputs(new_nb, post.router.flood_counter, pre.id)
        },
    }
}

/// The state that both server variants share: topology, reassembly and the
/// retransmission cache.
pub struct Endpoint {
    pub id: NodeId,
    pub router: Router,
    pub message_factory: MessageFactory,
    pub packet_cache: PacketCache,
}

impl Endpoint {
    pub open spec fn wf(&self) -> bool {
        &&& self.router.wf()
        &&& self.message_factory.wf()
        &&& self.packet_cache.wf()
        &&& self.router.id == self.id
        &&& self.message_factory.id == self.id
        &&& cached_from(self.packet_cache@, self.id)
    }

    pub fn new(id: NodeId) -> (r: Endpoint)
        ensures
            r.wf(),
            r.id == id,
            r.router.nodes@ == seq![crate::router::NodeEntry { id, kind: NodeKind::Server, crashed: false }],
            r.router.edges@.len() == 0,
            r.router.neighbours@.len() == 0,
            r.router.flood_counter == 0,
            r.message_factory@ == Map::<crate::factory::PendingKey, (u64, Map<u64, Seq<u8>>)>::empty(),
            r.message_factory.session_counter == 0,
            r.packet_cache@ == Map::<CacheKey, (PacketModel, u64)>::empty(),
    {
        Endpoint {
            id,
            router: Router::new(id, NodeKind::Server),
            message_factory: MessageFactory::new(id, NodeKind::Server),
            packet_cache: PacketCache::new(),
        }
    }

    /// Whether this endpoint is the node under the cursor of `header`.
    pub fn check_packet(&self, header: &RoutingHeader) -> (r: bool)
        ensures
            r == (header.hop_index < header.hops@.len() && header.hops@[header.hop_index as int]
                == self.id),
    {
        let h = header.hop_index;
        h < header.hops.len() && header.hops[h] == self.id
    }

    /// Sends one flood request, with one fresh flood id, to every neighbour.
    pub fn flood_network(&mut self, out: &mut Vec<Output>)
        requires
            old(self).wf(),
        ensures
            final(self).wf(),
            final(self).id == old(self).id,
            final(self).message_factory == old(self).message_factory,
            final(self).packet_cache == old(self).packet_cache,
            final(self).router.nodes@ == old(self).router.nodes@,
            final(self).router.edges@ == old(self).router.edges@,
            final(self).router.neighbours@ == old(self).router.neighbours@,
            final(self).router.kind == old(self).router.kind,
            final(self).router.flood_counter == old(self).router.flood_counter.wrapping_add(1),
            outs(final(out)@) == outs(old(out)@) + flood_outputs(
                old(self).router.neighbours@,
                final(self).router.flood_counter,
                old(self).id,
            ),
    {
        let n = self.router.neighbours.len();
        let mut requests = self.router.get_flood_requests(n);
        let ghost fid = self.router.flood_counter;
        let ghost start = outs(out@);
        let mut i: usize = 0;
        while i < n
            invariant
                self.wf(),
                self.router.neighbours@ == old(self).router.neighbours@,
                n == self.router.neighbours@.len(),
                i <= n,
                requests@.len() == n - i,
                forall|k: int|
                    0 <= k < requests@.len() ==> (#[trigger] requests@[k])@ == flood_request_model(
                        fid,
                        self.id,
                    ),
                outs(out@) == start + flood_outputs(self.router.neighbours@, fid, self.id).subrange(
                    0,
                    i as int,
                ),
            decreases n - i,
        {
            let ghost before = out@;
            let p = requests.remove(0);
            assert(p@ == flood_request_model(fid, self.id));
            let to = self.router.neighbours[i];
            out.push(Output::SendTo(to, p));
            proof {
                assert(out@ == before.push(Output::SendTo(to, p)));
                assert(outs(out@) =~= outs(before).push(OutputModel::SendTo(to, p@)));
                assert(outs(out@) =~= start + flood_outputs(
                    self.router.neighbours@,
                    fid,
                    self.id,
                ).subrange(0, i + 1));
            }
            i += 1;
        }
        assert(flood_outputs(self.router.neighbours@, fid, self.id).subrange(0, n as int)
            =~= flood_outputs(self.router.neighbours@, fid, self.id));
    }

    /// Forgets the topology and floods again.
    pub fn reinit_network(&mut self, out: &mut Vec<Output>)
        requires
            old(self).wf(),
        ensures
            final(self).wf(),
            final(self).id == old(self).id,
            final(self).message_factory == old(self).message_factory,
            final(self).packet_cache == old(self).packet_cache,
            final(self).router.nodes@ == seq![crate::router::NodeEntry { id: old(self).id, kind: old(self).router.kind, crashed: false }],
            final(self).router.edges@.len() == 0,
            final(self).router.neighbours@ == old(self).router.neighbours@,
            final(self).router.kind == old(self).router.kind,
            final(self).router.flood_counter == old(self).router.flood_counter.wrapping_add(1),
            outs(final(out)@) == outs(old(out)@) + flood_outputs(
                old(self).router.neighbours@,
                final(self).router.flood_counter,
                old(self).id,
            ),
    {
        self.router.clear_routing_table();
        self.flood_network(out);
    }

    /// The reply to a flood request: the trace with this server appended,
    /// routed back along the reversed trace to the initiator.
    pub fn get_flood_response(
        &self,
        flood_id: u64,
        initiator_id: NodeId,
        path_trace: &Vec<(NodeId, NodeKind)>,
        session_id: u64,
    ) -> (r: Packet)
        ensures
            r@ == flood_response_model(session_id, flood_id, initiator_id, path_trace@, self.id),
            r@.hop_index == 1,
            r@.hops.len() >= 1,
            r@.hops[0] == self.id,
            r@.hops.last() == initiator_id,
    {
        let mut trace = copy_trace(path_trace);
        trace.push((self.id, NodeKind::Server));
        let ghost ids = trace_ids(trace@);
        let mut hops: Vec<NodeId> = Vec::new();
        let mut i: usize = trace.len();
        while i > 0
            invariant
                i <= trace@.len(),
                ids == trace_ids(trace@),
                hops@ == reversed(ids.subrange(i as int, trace@.len() as int)),
            decreases i,
        {
            i -= 1;
            hops.push(trace[i].0);
            assert(hops@ =~= reversed(ids.subrange(i as int, trace@.len() as int)));
        }
        assert(ids.subrange(0, trace@.len() as int) =~= ids);
        assert(hops@.len() >= 1);
        if hops[hops.len() - 1] != initiator_id {
            hops.push(initiator_id);
        }
        assert(hops@ == flood_response_hops(path_trace@, self.id, initiator_id));
        Packet {
            routing_header: RoutingHeader::with_first_hop(hops),
            session_id,
            pack_type: PacketType::FloodResponse { flood_id, path_trace: trace },
        }
    }

    /// An ack for fragment `fragment_index` of session `session_id`, back
    /// along the path of `header`.
    pub fn ack_for(&self, header: &RoutingHeader, session_id: u64, fragment_index: u64) -> (r: Packet)
        ensures
            r@ == answer_model(session_id, header.hops@, BodyModel::Ack { index: fragment_index }),
    {
        Packet {
            routing_header: header.get_reversed(),
            session_id,
            pack_type: PacketType::Ack { fragment_index },
        }
    }

    /// A nack saying that this endpoint was not the node under the cursor of
    /// `header`, back along its path.
    pub fn unexpected_recipient_nack(
        &self,
        header: &RoutingHeader,
        session_id: u64,
        fragment_index: u64,
    ) -> (r: Packet)
        ensures
            r@ == answer_model(
                session_id,
                header.hops@,
                BodyModel::Nack { index: fragment_index, kind: NackKind::UnexpectedRecipient(self.id) },
            ),
    {
        Packet {
            routing_header: header.get_reversed(),
            session_id,
            pack_type: PacketType::Nack {
                fragment_index,
                nack_type: NackKind::UnexpectedRecipient(self.id),
            },
        }
    }

    /// Some route leads from this endpoint to `destination`.
    pub open spec fn routable(&self, destination: NodeId) -> bool {
        exists|p: Seq<NodeId>| self.router.is_route(destination, p)
    }

    /// Sends `msg` to `destination`: over a least-cost route to it, the message is cut
    /// into fragments of one fresh session, each cached before it is sent.
    /// Without a route nothing happens.
    pub fn send_message_to_client(
        &mut self,
        msg: &ServerMessage,
        destination: NodeId,
        out: &mut Vec<Output>,
    )
        requires
            old(self).wf(),
        ensures
            final(self).wf(),
            sent(*old(self), *final(self), outs(old(out)@), outs(final(out)@), msg@, destination),
    {
        match self.router.get_source_routing_header(destination) {
            Err(_) => {},
            Ok(header) => {
                let ghost session = self.message_factory.session_counter;
                let ghost s = message_fragments(session, header.hops@, encode_server(msg@));
                let mut frags = self.message_factory.get_message_from_message_content(msg, &header);
                assert(frags@.len() == s.len());
                let ghost start = outs(out@);
                let ghost cache0 = self.packet_cache@;
                let n = frags.len();
                let mut i: usize = 0;
                while i < n
                    invariant
                        self.wf(),
                        self.id == old(self).id,
                        self.router == old(self).router,
                        self.message_factory@ == old(self).message_factory@,
                        self.message_factory.id == old(self).message_factory.id,
                        self.message_factory.kind == old(self).message_factory.kind,
                        self.message_factory.session_counter == old(self).message_factory.session_counter.wrapping_add(1),
                        n == s.len(),
                        s == message_fragments(session, header.hops@, encode_server(msg@)),
                        i <= n,
                        header.hops@[0] == self.id,
                        header.hops@.len() >= 2,
                        frags@.len() == n - i,
                        forall|k: int| 0 <= k < frags@.len() ==> (#[trigger] frags@[k])@ == s[k + i],
                        outs(out@) == start + forwards(s.subrange(0, i as int)),
                        self.packet_cache@ == insert_all(cache0, s.subrange(0, i as int)),
                    decreases n - i,
                {
                    let ghost before = out@;
                    let ghost prev = self.packet_cache@;
                    let p = frags.remove(0);
                    assert(p@ == s[i as int]);
                    assert(s[i as int].hops == header.hops@);
                    assert(s[i as int].hop_index == 1);
                    self.packet_cache.insert_packet(p.duplicate());
                    out.push(Output::Forward(p));
                    proof {
                        assert(out@ == before.push(Output::Forward(p)));
                        assert(outs(out@) =~= outs(before).push(OutputModel::Forward(p@)));
                        assert(outs(out@) =~= start + forwards(s.subrange(0, i + 1)));
                        assert(s.subrange(0, i + 1).drop_last() =~= s.subrange(0, i as int));
                        assert forall|k: CacheKey| #[trigger] self.packet_cache@.contains_key(k) implies
                            self.packet_cache@[k].0.hop_index == 1 && self.packet_cache@[k].0.hops.len() >= 2
                                && self.packet_cache@[k].0.hops[0] == self.id by {
                            if k != key_of(p@) {
                                assert(prev.contains_key(k));
                            }
                        }
                    }
                    i += 1;
                }
                assert(s.subrange(0, n as int) =~= s);
            },
        }
    }

    /// Resends cached fragment `key` after a NACK (see `resent`).
    pub fn resend_for_nack(&mut self, key: CacheKey, stale_resend: bool, out: &mut Vec<Output>)
        requires
            old(self).wf(),
        ensures
            final(self).wf(),
            resent(*old(self), *final(self), outs(old(out)@), outs(final(out)@), key, stale_resend),
    {
        let ghost pre = *self;
        match self.packet_cache.get_value(key) {
            None => {
                let ghost before = out@;
                out.push(Output::Event(ServerEvent::ErrorPacketCache(key.0, key.1)));
                assert(outs(out@) =~= outs(before).push(
                    OutputModel::Event(ServerEvent::ErrorPacketCache(key.0, key.1)),
                ));
            },
            Some((packet, count)) => {
                proof {
                    assert forall|k: CacheKey| #[trigger] self.packet_cache@.contains_key(k) implies
                        self.packet_cache@[k].0.hop_index == 1 && self.packet_cache@[k].0.hops.len() >= 2
                            && self.packet_cache@[k].0.hops[0] == self.id by {
                        assert(pre.packet_cache@.contains_key(k));
                    }
                }
                if count > 100 {
                    self.flood_network(out);
                }
                let ghost mid = outs(out@);
                assert(packet@.hops.len() >= 2);
                match packet.routing_header.destination() {
                    None => {},
                    Some(destination) => {
                        match self.router.get_source_routing_header(destination) {
                            Ok(header) => {
                                let ghost h = header.hops@;
                                let resend = Packet {
                                    routing_header: header,
                                    session_id: packet.session_id,
                                    pack_type: packet.pack_type,
                                };
                                let ghost before = out@;
                                out.push(Output::Forward(resend));
                                assert(outs(out@) =~= outs(before).push(OutputModel::Forward(resend@)));
                                assert(self.router.is_best_route(destination, h));
                                assert forall|q: Seq<NodeId>| #[trigger] pre.router.is_route(destination, q)
                                    implies crate::router::capped(crate::router::route_cost(pre.router.edges@, h))
                                    <= crate::router::capped(crate::router::route_cost(pre.router.edges@, q)) by {
                                    assert(self.router.is_route(destination, q));
                                }
                                assert(pre.router.is_best_route(destination, h));
                            },
                            Err(_) => {
                                let ghost before = out@;
                                out.push(Output::Event(ServerEvent::UnreachableNode(destination)));
                                assert(outs(out@) =~= outs(before).push(
                                    OutputModel::Event(ServerEvent::UnreachableNode(destination)),
                                ));
                                if stale_resend {
                                    let ghost before2 = out@;
                                    out.push(Output::Forward(packet));
                                    assert(outs(out@) =~= outs(before2).push(OutputModel::Forward(pre.packet_cache@[key].0)));
                                }
                                assert forall|q: Seq<NodeId>| !pre.router.is_route(destination, q) by {
                                    assert(!self.router.is_route(destination, q));
                                }
                                assert(!pre.routable(destination));
                                assert(outs(out@) =~= mid.push(OutputModel::Event(ServerEvent::UnreachableNode(destination)))
                                    + (if stale_resend { seq![OutputModel::Forward(pre.packet_cache@[key].0)] } else { Seq::empty() }));
                            },
                        }
                    },
                }
            },
        }
    }

    /// Handles a NACK for fragment `fragment_index` of session `session_id`
    /// that node `source_id` sent: a crash is recorded, a drop or a wrong
    /// recipient is penalised, and the fragment is resent; a NACK saying that
    /// the destination is a drone is only reported.
    pub fn handle_nack(
        &mut self,
        fragment_index: u64,
        nack_type: NackKind,
        session_id: u64,
        source_id: NodeId,
        stale_resend: bool,
        out: &mut Vec<Output>,
    )
        requires
            old(self).wf(),
        ensures
            final(self).wf(),
            nacked(
                *old(self),
                *final(self),
                outs(old(out)@),
                outs(final(out)@),
                (session_id, fragment_index),
                nack_type,
                source_id,
                stale_resend,
            ),
    {
        let key = (session_id, fragment_index);
        match nack_type {
            NackKind::ErrorInRouting(crashed) => {
                self.router.drone_crashed(crashed);
                let ghost mid = *self;
                self.resend_for_nack(key, stale_resend, out);
                assert(touched(*old(self), mid, nack_type, source_id));
            },
            NackKind::DestinationIsDrone => {
                let ghost before = out@;
                out.push(Output::Event(ServerEvent::DestinationIsDrone(self.id)));
                assert(outs(out@) =~= outs(before).push(
                    OutputModel::Event(ServerEvent::DestinationIsDrone(self.id)),
                ));
            },
            NackKind::UnexpectedRecipient(id) => {
                self.router.dropped_fragment(id);
                let ghost mid = *self;
                self.resend_for_nack(key, stale_resend, out);
                assert(touched(*old(self), mid, nack_type, source_id));
            },
            NackKind::Dropped => {
                self.router.dropped_fragment(source_id);
                let ghost mid = *self;
                self.resend_for_nack(key, stale_resend, out);
                assert(touched(*old(self), mid, nack_type, source_id));
            },
        }
    }

    /// Carries out a controller command. Adding a known neighbour or removing
    /// an unknown one changes nothing; otherwise the neighbour set changes and
    /// the network is flooded anew, as it is on `InitFlooding`. `LogNetwork`
    /// changes nothing here: the topology is read from the router.
    pub fn handle_command(&mut self, command: ServerCommand, out: &mut Vec<Output>)
        requires
            old(self).wf(),
        ensures
            final(self).wf(),
            final(self).id == old(self).id,
            commanded(*old(self), *final(self), command, outs(old(out)@), outs(final(out)@)),
    {
        match command {
            ServerCommand::InitFlooding => self.reinit_network(out),
            ServerCommand::LogNetwork => {},
            ServerCommand::AddSender(n) => {
                if !self.is_neighbour(n) {
                    self.router.add_neighbour(n);
                    self.reinit_network(out);
                }
            },
            ServerCommand::RemoveSender(n) => {
                if self.is_neighbour(n) {
                    self.router.remove_neighbour(n);
                    self.reinit_network(out);
                }
            },
        }
    }

    /// Whether `n` is a direct neighbour.
    pub fn is_neighbour(&self, n: NodeId) -> (r: bool)
        ensures
            r == self.router.neighbours@.contains(n),
    {
        let mut i: usize = 0;
        while i < self.router.neighbours.len()
            invariant
                i <= self.router.neighbours@.len(),
                forall|k: int| 0 <= k < i ==> #[trigger] self.router.neighbours@[k] != n,
            decreases self.router.neighbours@.len() - i,
        {
            if self.router.neighbours[i] == n {
                assert(self.router.neighbours@[i as int] == n);
                return true;
            }
            i += 1;
        }
        false
    }

    /// Handles a packet that is not a message fragment (see `handled_other`).
    pub fn handle_other_packet(&mut self, packet: Packet, stale_resend: bool, out: &mut Vec<Output>)
        requires
            old(self).wf(),
            !(packet@.body is MsgFragment),
        ensures
            final(self).wf(),
            handled_other(*old(self), *final(self), packet@, outs(old(out)@), outs(final(out)@), stale_resend),
    {
        let session_id = packet.session_id;
        match packet.pack_type {
            PacketType::MsgFragment(_) => {},
            PacketType::Ack { fragment_index } => {
                let ghost pre = *self;
                let _ = self.packet_cache.take_packet((session_id, fragment_index));
                proof {
                    assert forall|k: CacheKey| #[trigger] self.packet_cache@.contains_key(k) implies
                        self.packet_cache@[k].0.hop_index == 1 && self.packet_cache@[k].0.hops.len() >= 2
                            && self.packet_cache@[k].0.hops[0] == self.id by {
                        assert(pre.packet_cache@.contains_key(k));
                    }
                }
            },
            PacketType::Nack { fragment_index, nack_type } => {
                if packet.routing_header.hops.len() > 0 {
                    let source = packet.routing_header.hops[0];
                    self.handle_nack(fragment_index, nack_type, session_id, source, stale_resend, out);
                }
            },
            PacketType::FloodRequest { flood_id, initiator_id, path_trace } => {
                let response = self.get_flood_response(flood_id, initiator_id, &path_trace, session_id);
                let ghost before = out@;
                out.push(Output::Forward(response));
                assert(outs(out@) =~= outs(before).push(OutputModel::Forward(response@)));
            },
            PacketType::FloodResponse { flood_id, path_trace } => {
                self.router.handle_flood_response(&path_trace);
            },
        }
    }
}

/// `p` leaves node `id`: its header starts there, cursor on the first hop.
pub open spec fn leaves_from(p: PacketModel, id: NodeId) -> bool {
    p.hop_index == 1 && p.hops.len() >= 2 && p.hops[0] == id
}

/// Every fragment that sending a message emits stays in the cache, as sent,
/// after the send.
pub proof fn lemma_sent_fragments_cached(
    pre: Endpoint,
    post: Endpoint,
    o0: Seq<OutputModel>,
    o1: Seq<OutputModel>,
    msg: crate::messages::ServerModel,
    destination: NodeId,
)
    requires
        sent(pre, post, o0, o1, msg, destination),
        fragment_count(encode_server(msg).len()) <= u64::MAX,
    ensures
        forall|i: int|
            o0.len() <= i < o1.len() ==> match #[trigger] o1[i] {
                OutputModel::Forward(p) => post.packet_cache@.contains_key(key_of(p))
                    && post.packet_cache@[key_of(p)].0 == p,
                _ => false,
            },
{
    if pre.routable(destination) {
        let h = choose|h: Seq<NodeId>|
            #[trigger] pre.router.is_best_route(destination, h) && {
                let s = message_fragments(
                    pre.message_factory.session_counter,
                    h,
                    encode_server(msg),
                );
                &&& o1 == o0 + forwards(s)
                &&& post.packet_cache@ == insert_all(pre.packet_cache@, s)
            };
        let s = message_fragments(pre.message_factory.session_counter, h, encode_server(msg));
        lemma_fragments_cached(pre.packet_cache@, pre.message_factory.session_counter, h, encode_server(msg));
        assert forall|i: int| o0.len() <= i < o1.len() implies match #[trigger] o1[i] {
            OutputModel::Forward(p) => post.packet_cache@.contains_key(key_of(p))
                && post.packet_cache@[key_of(p)].0 == p,
            _ => false,
        } by {
            assert(o1[i] == OutputModel::Forward(s[i - o0.len()]));
        }
    }
}

/// Every packet that sending a message emits leaves from this endpoint.
pub proof fn lemma_sent_headers(
    pre: Endpoint,
    post: Endpoint,
    o0: Seq<OutputModel>,
    o1: Seq<OutputModel>,
    msg: crate::messages::ServerModel,
    destination: NodeId,
)
    requires
        pre.wf(),
        sent(pre, post, o0, o1, msg, destination),
    ensures
        forall|i: int|
            o0.len() <= i < o1.len() ==> match #[trigger] o1[i] {
                OutputModel::Forward(p) => leaves_from(p, pre.id),
                _ => false,
            },
{
    if pre.routable(destination) {
        let h = choose|h: Seq<NodeId>|
            #[trigger] pre.router.is_best_route(destination, h) && {
                let s = message_fragments(
                    pre.message_factory.session_counter,
                    h,
                    encode_server(msg),
                );
                &&& o1 == o0 + forwards(s)
                &&& post.packet_cache@ == insert_all(pre.packet_cache@, s)
            };
        let s = message_fragments(pre.message_factory.session_counter, h, encode_server(msg));
        assert forall|i: int| o0.len() <= i < o1.len() implies match #[trigger] o1[i] {
            OutputModel::Forward(p) => leaves_from(p, pre.id),
            _ => false,
        } by {
            assert(o1[i] == OutputModel::Forward(s[i - o0.len()]));
        }
    }
}

/// Every packet that a resend forwards leaves from this endpoint: over a
/// fresh route, or along the header it was cached with.
pub proof fn lemma_resent_headers(
    pre: Endpoint,
    post: Endpoint,
    o0: Seq<OutputModel>,
    o1: Seq<OutputModel>,
    key: CacheKey,
    stale: bool,
)
    requires
        pre.wf(),
        resent(pre, post, o0, o1, key, stale),
    ensures
        forall|i: int|
            o0.len() <= i < o1.len() ==> match #[trigger] o1[i] {
                OutputModel::Forward(p) => leaves_from(p, pre.id),
                _ => true,
            },
{
    let c = pre.packet_cache@;
    if c.contains_key(key) {
        let p = c[key].0;
        let n = bumped(c[key].1);
        let fid = pre.router.flood_counter.wrapping_add(1);
        let o_mid = if n > 100 {
            o0 + flood_outputs(pre.router.neighbours@, fid, pre.id)
        } else {
            o0
        };
        let dest = p.hops.last();
        assert forall|i: int| o0.len() <= i < o_mid.len() implies !(#[trigger] o1[i] is Forward) by {
            if n > 100 {
                assert(o1[i] == o_mid[i]);
            }
        }
        if pre.routable(dest) {
            let h = choose|h: Seq<NodeId>|
                #[trigger] pre.router.is_best_route(dest, h) && o1 == o_mid.push(
                    OutputModel::Forward(PacketModel { hops: h, hop_index: 1, ..p }),
                );
            assert(o1[o1.len() - 1] == OutputModel::Forward(PacketModel { hops: h, hop_index: 1, ..p }));
        } else {
            assert(c.contains_key(key));
        }
    }
}

/// The answer to a flood request leaves from this endpoint and ends at the
/// initiator; its trace is the request's with this server appended.
pub proof fn lemma_flood_response_header(
    session_id: u64,
    flood_id: u64,
    initiator: NodeId,
    trace: Seq<(NodeId, NodeKind)>,
    id: NodeId,
)
    ensures
        ({
            let r = flood_response_model(session_id, flood_id, initiator, trace, id);
            &&& r.hop_index == 1
            &&& r.hops.len() >= 1
            &&& r.hops[0] == id
            &&& r.hops.last() == initiator
            &&& r.body == BodyModel::FloodResponse { flood_id, trace: trace.push((id, NodeKind::Server)) }
        }),
{
    let t = trace.push((id, NodeKind::Server));
    assert(trace_ids(t)[t.len() - 1] == id);
}

/// A NACK that takes the count of a cached fragment above one hundred makes
/// the endpoint flood all its neighbours with one fresh flood id in the same
/// step, before anything else it emits.
pub proof fn lemma_reflood_on_many_nacks(
    pre: Endpoint,
    post: Endpoint,
    o0: Seq<OutputModel>,
    o1: Seq<OutputModel>,
    key: CacheKey,
    stale: bool,
)
    requires
        resent(pre, post, o0, o1, key, stale),
        pre.packet_cache@.contains_key(key),
        bumped(pre.packet_cache@[key].1) > 100,
    ensures
        o1.len() >= o0.len() + pre.router.neighbours@.len(),
        o1.subrange(o0.len() as int, (o0.len() + pre.router.neighbours@.len()) as int) == flood_outputs(
            pre.router.neighbours@,
            post.router.flood_counter,
            pre.id,
        ),
        post.router.flood_counter == pre.router.flood_counter.wrapping_add(1),
{
    let c = pre.packet_cache@;
    let p = c[key].0;
    let fid = pre.router.flood_counter.wrapping_add(1);
    let f = flood_outputs(pre.router.neighbours@, fid, pre.id);
    let o_mid = o0 + f;
    let dest = p.hops.last();
    if pre.routable(dest) {
        let h = choose|h: Seq<NodeId>|
            #[trigger] pre.router.is_best_route(dest, h) && o1 == o_mid.push(
                OutputModel::Forward(PacketModel { hops: h, hop_index: 1, ..p }),
            );
    }
    assert(o1.subrange(o0.len() as int, (o0.len() + f.len()) as int) =~= f);
}

} // verus!
