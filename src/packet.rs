use vstd::prelude::*;

verus! {

/// Identifier of an overlay node.
pub type NodeId = u8;

/// Largest number of payload bytes one fragment carries.
pub const FRAGMENT_SIZE: usize = 128;

#[derive(Clone, Copy, Debug, PartialEq, Eq, Structural)]
pub enum NodeKind {
    Client,
    Drone,
    Server,
}

#[derive(Clone, Copy, Debug, PartialEq, Eq, Structural)]
pub enum NackKind {
    ErrorInRouting(NodeId),
    DestinationIsDrone,
    Dropped,
    UnexpectedRecipient(NodeId),
}

/// A source-routing header: the full path and the cursor of the node that
/// currently processes the packet.
#[derive(Debug)]
pub struct RoutingHeader {
    pub hop_index: usize,
    pub hops: Vec<NodeId>,
}

#[derive(Debug)]
pub struct Fragment {
    pub fragment_index: u64,
    pub total_fragments: u64,
    pub data: Vec<u8>,
}

#[derive(Debug)]
pub enum PacketType {
    MsgFragment(Fragment),
    Ack { fragment_index: u64 },
    Nack { fragment_index: u64, nack_type: NackKind },
    FloodRequest { flood_id: u64, initiator_id: NodeId, path_trace: Vec<(NodeId, NodeKind)> },
    FloodResponse { flood_id: u64, path_trace: Vec<(NodeId, NodeKind)> },
}

#[derive(Debug)]
pub struct Packet {
    pub routing_header: RoutingHeader,
    pub session_id: u64,
    pub pack_type: PacketType,
}

/// Mathematical value of a packet body.
pub ghost enum BodyModel {
    MsgFragment { index: u64, total: u64, data: Seq<u8> },
    Ack { index: u64 },
    Nack { index: u64, kind: NackKind },
    FloodRequest { flood_id: u64, initiator: NodeId, trace: Seq<(NodeId, NodeKind)> },
    FloodResponse { flood_id: u64, trace: Seq<(NodeId, NodeKind)> },
}

/// Mathematical value of a packet.
pub ghost struct PacketModel {
    pub session_id: u64,
    pub hops: Seq<NodeId>,
    pub hop_index: int,
    pub body: BodyModel,
}

impl View for PacketType {
    type V = BodyModel;

    open spec fn view(&self) -> BodyModel {
        match self {
            PacketType::MsgFragment(f) => BodyModel::MsgFragment {
                index: f.fragment_index,
                total: f.total_fragments,
                data: f.data@,
            },
            PacketType::Ack { fragment_index } => BodyModel::Ack { index: *fragment_index },
            PacketType::Nack { fragment_index, nack_type } => BodyModel::Nack {
                index: *fragment_index,
                kind: *nack_type,
            },
            PacketType::FloodRequest { flood_id, initiator_id, path_trace } =>
                BodyModel::FloodRequest {
                flood_id: *flood_id,
                initiator: *initiator_id,
                trace: path_trace@,
            },
            PacketType::FloodResponse { flood_id, path_trace } => BodyModel::FloodResponse {
                flood_id: *flood_id,
                trace: path_trace@,
            },
        }
    }
}

impl View for Packet {
    type V = PacketModel;

    open spec fn view(&self) -> PacketModel {
        PacketModel {
            session_id: self.session_id,
            hops: self.routing_header.hops@,
            hop_index: self.routing_header.hop_index as int,
            body: self.pack_type@,
        }
    }
}

/// The sequence `s` in reverse order.
pub open spec fn reversed<T>(s: Seq<T>) -> Seq<T> {
    Seq::new(s.len(), |i: int| s[s.len() - 1 - i])
}

/// Holds of every node id but `v`.
pub open spec fn other_than(v: NodeId) -> spec_fn(NodeId) -> bool {
    |x: NodeId| x != v
}

/// The node ids along a path trace, in order.
pub open spec fn trace_ids(t: Seq<(NodeId, NodeKind)>) -> Seq<NodeId> {
    t.map_values(|e: (NodeId, NodeKind)| e.0)
}

impl BodyModel {
    /// The fragment index that a fragment, ack or nack speaks of.
    pub open spec fn index(self) -> Option<u64> {
        match self {
            BodyModel::MsgFragment { index, .. } => Some(index),
            BodyModel::Ack { index } => Some(index),
            BodyModel::Nack { index, .. } => Some(index),
            _ => None,
        }
    }
}

pub fn copy_bytes(v: &Vec<u8>) -> (r: Vec<u8>)
    ensures
        r@ == v@,
{
    let mut r: Vec<u8> = Vec::with_capacity(v.len());
    let mut i: usize = 0;
    while i < v.len()
        invariant
            i <= v.len(),
            r@ == v@.subrange(0, i as int),
        decreases v.len() - i,
    {
        r.push(v[i]);
        i += 1;
    }
    assert(r@ =~= v@);
    r
}

pub fn copy_trace(v: &Vec<(NodeId, NodeKind)>) -> (r: Vec<(NodeId, NodeKind)>)
    ensures
        r@ == v@,
{
    let mut r: Vec<(NodeId, NodeKind)> = Vec::with_capacity(v.len());
    let mut i: usize = 0;
    while i < v.len()
        invariant
            i <= v.len(),
            r@ == v@.subrange(0, i as int),
        decreases v.len() - i,
    {
        let (id, kind) = v[i];
        r.push((id, kind));
        i += 1;
    }
    assert(r@ =~= v@);
    r
}

/// A copy of `hops` in reverse order.
pub fn reverse_hops(hops: &Vec<NodeId>) -> (r: Vec<NodeId>)
    ensures
        r@ == reversed(hops@),
{
    let mut r: Vec<NodeId> = Vec::with_capacity(hops.len());
    let mut i: usize = hops.len();
    while i > 0
        invariant
            i <= hops.len(),
            r@ == reversed(hops@.subrange(i as int, hops.len() as int)),
        decreases i,
    {
        i -= 1;
        r.push(hops[i]);
        assert(r@ =~= reversed(hops@.subrange(i as int, hops.len() as int)));
    }
    assert(hops@.subrange(0, hops.len() as int) =~= hops@);
    r
}

impl RoutingHeader {
    /// A header over `hops` whose cursor stands on the first hop after the origin.
    pub fn with_first_hop(hops: Vec<NodeId>) -> (r: RoutingHeader)
        ensures
            r.hops@ == hops@,
            r.hop_index == 1,
    {
        RoutingHeader { hop_index: 1, hops }
    }

    /// The header of a reply: the hops reversed, cursor on the first hop.
    pub fn get_reversed(&self) -> (r: RoutingHeader)
        ensures
            r.hops@ == reversed(self.hops@),
            r.hop_index == 1,
    {
        RoutingHeader::with_first_hop(reverse_hops(&self.hops))
    }

    /// The last hop of the path, if the path is not empty.
    pub fn destination(&self) -> (r: Option<NodeId>)
        ensures
            r == (if self.hops@.len() == 0 { None } else { Some(self.hops@.last()) }),
    {
        if self.hops.len() == 0 {
            None
        } else {
            Some(self.hops[self.hops.len() - 1])
        }
    }

    /// The node that processes the packet next, if the cursor is on the path.
    pub fn current_hop(&self) -> (r: Option<NodeId>)
        ensures
            r == (if self.hop_index < self.hops@.len() {
                Some(self.hops@[self.hop_index as int])
            } else {
                None
            }),
    {
        if self.hop_index < self.hops.len() {
            Some(self.hops[self.hop_index])
        } else {
            None
        }
    }

    pub fn duplicate(&self) -> (r: RoutingHeader)
        ensures
            r.hops@ == self.hops@,
            r.hop_index == self.hop_index,
    {
        RoutingHeader { hop_index: self.hop_index, hops: copy_bytes(&self.hops) }
    }
}

impl PacketType {
    pub fn duplicate(&self) -> (r: PacketType)
        ensures
            r@ == self@,
    {
        match self {
            PacketType::MsgFragment(f) => PacketType::MsgFragment(
                Fragment {
                    fragment_index: f.fragment_index,
                    total_fragments: f.total_fragments,
                    data: copy_bytes(&f.data),
                },
            ),
            PacketType::Ack { fragment_index } => PacketType::Ack {
                fragment_index: *fragment_index,
            },
            PacketType::Nack { fragment_index, nack_type } => PacketType::Nack {
                fragment_index: *fragment_index,
                nack_type: *nack_type,
            },
            PacketType::FloodRequest { flood_id, initiator_id, path_trace } =>
                PacketType::FloodRequest {
                flood_id: *flood_id,
                initiator_id: *initiator_id,
                path_trace: copy_trace(path_trace),
            },
            PacketType::FloodResponse { flood_id, path_trace } => PacketType::FloodResponse {
                flood_id: *flood_id,
                path_trace: copy_trace(path_trace),
            },
        }
    }
}

impl Packet {
    /// A packet with the same value as this one.
    pub fn duplicate(&self) -> (r: Packet)
        ensures
            r@ == self@,
    {
        Packet {
            routing_header: self.routing_header.duplicate(),
            session_id: self.session_id,
            pack_type: self.pack_type.duplicate(),
        }
    }

    /// The fragment index carried by a fragment, ack or nack; zero otherwise.
    pub fn get_fragment_index(&self) -> (r: u64)
        ensures
            r == (match self@.body.index() {
                Some(i) => i,
                None => 0u64,
            }),
    {
        match &self.pack_type {
            PacketType::MsgFragment(f) => f.fragment_index,
            PacketType::Ack { fragment_index } => *fragment_index,
            PacketType::Nack { fragment_index, .. } => *fragment_index,
            _ => 0,
        }
    }
}

} // verus!
