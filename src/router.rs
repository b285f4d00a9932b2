use vstd::prelude::*;
use crate::packet::{
    copy_bytes, other_than, BodyModel, NodeId, NodeKind, Packet, PacketModel, PacketType, RoutingHeader,
};

verus! {

/// A node of the topology as this endpoint knows it.
#[derive(Clone, Copy, Debug, PartialEq, Eq, Structural)]
pub struct NodeEntry {
    pub id: NodeId,
    pub kind: NodeKind,
    pub crashed: bool,
}

/// A discovered link between two nodes, with the penalty that NACKs along it
/// have accumulated.
#[derive(Clone, Copy, Debug, PartialEq, Eq, Structural)]
pub struct Edge {
    pub a: NodeId,
    pub b: NodeId,
    pub drop_weight: u64,
}

#[derive(Clone, Copy, Debug, PartialEq, Eq, Structural)]
pub enum RoutingError {
    Unreachable,
}

/// Topology view of one endpoint, and the source routes computed over it.
pub struct Router {
    pub id: NodeId,
    pub kind: NodeKind,
    pub nodes: Vec<NodeEntry>,
    pub edges: Vec<Edge>,
    pub neighbours: Vec<NodeId>,
    pub flood_counter: u64,
}

/// Some entry of `nodes` has id `id`.
pub open spec fn has_node(nodes: Seq<NodeEntry>, id: NodeId) -> bool {
    exists|j: int| 0 <= j < nodes.len() && #[trigger] nodes[j].id == id
}

/// Node `id` is known and not crashed.
pub open spec fn live(nodes: Seq<NodeEntry>, id: NodeId) -> bool {
    exists|j: int| 0 <= j < nodes.len() && #[trigger] nodes[j].id == id && !nodes[j].crashed
}

/// Node `id` is a known drone that has not crashed.
pub open spec fn live_drone(nodes: Seq<NodeEntry>, id: NodeId) -> bool {
    exists|j: int|
        0 <= j < nodes.len() && #[trigger] nodes[j].id == id && !nodes[j].crashed
            && nodes[j].kind == NodeKind::Drone
}

/// Some edge joins `a` and `b`, in either direction.
pub open spec fn linked(edges: Seq<Edge>, a: NodeId, b: NodeId) -> bool {
    exists|i: int|
        0 <= i < edges.len() && ((#[trigger] edges[i].a == a && edges[i].b == b) || (edges[i].a
            == b && edges[i].b == a))
}

/// `p` starts at `src` and follows edges; every later node is live and is not
/// `src`; every node strictly inside is a live drone.
pub open spec fn route_prefix(
    nodes: Seq<NodeEntry>,
    edges: Seq<Edge>,
    src: NodeId,
    p: Seq<NodeId>,
) -> bool {
    &&& p.len() >= 1
    &&& p[0] == src
    &&& forall|k: int| 0 <= k < p.len() - 1 ==> linked(edges, #[trigger] p[k], p[k + 1])
    &&& forall|k: int| 1 <= k < p.len() ==> #[trigger] p[k] != src && live(nodes, p[k])
    &&& forall|k: int| 1 <= k < p.len() - 1 ==> live_drone(nodes, #[trigger] p[k])
}

/// `p` is a source route from `src` to `dst` over the topology.
pub open spec fn valid_route(
    nodes: Seq<NodeEntry>,
    edges: Seq<Edge>,
    src: NodeId,
    dst: NodeId,
    p: Seq<NodeId>,
) -> bool {
    &&& route_prefix(nodes, edges, src, p)
    &&& p.len() >= 2
    &&& p.last() == dst
}

/// `e` touches node `n`.
pub open spec fn incident(e: Edge, n: NodeId) -> bool {
    e.a == n || e.b == n
}

/// `new` is `old` with every node `id` marked crashed.
pub open spec fn crash_marked(old: Seq<NodeEntry>, new: Seq<NodeEntry>, id: NodeId) -> bool {
    &&& new.len() == old.len()
    &&& forall|j: int|
        0 <= j < old.len() ==> #[trigger] new[j] == (if old[j].id == id {
            NodeEntry { crashed: true, ..old[j] }
        } else {
            old[j]
        })
}

/// `new` is `old` with one more unit of drop weight on every edge that
/// touches `src`.
pub open spec fn penalised(old: Seq<Edge>, new: Seq<Edge>, src: NodeId) -> bool {
    &&& new.len() == old.len()
    &&& forall|i: int|
        0 <= i < old.len() ==> #[trigger] new[i] == (if incident(old[i], src) {
            Edge { drop_weight: old[i].drop_weight.saturating_add(1), ..old[i] }
        } else {
            old[i]
        })
}

impl Router {
    pub open spec fn wf(&self) -> bool {
        &&& self.nodes@.len() >= 1
        &&& self.nodes@[0].id == self.id
        &&& forall|i: int, j: int|
            0 <= i < j < self.nodes@.len() ==> #[trigger] self.nodes@[i].id
                != #[trigger] self.nodes@[j].id
    }

    /// `p` is a route from this endpoint to `dst` over its current topology.
    pub open spec fn is_route(&self, dst: NodeId, p: Seq<NodeId>) -> bool {
        valid_route(self.nodes@, self.edges@, self.id, dst, p)
    }

    /// `p` is a route to `dst` that no other route undercuts in cost.
    pub open spec fn is_best_route(&self, dst: NodeId, p: Seq<NodeId>) -> bool {
        &&& self.is_route(dst, p)
        &&& forall|q: Seq<NodeId>|
            #[trigger] self.is_route(dst, q) ==> capped(route_cost(self.edges@, p)) <= capped(
                route_cost(self.edges@, q),
            )
    }

    pub fn new(id: NodeId, kind: NodeKind) -> (r: Router)
        ensures
            r.wf(),
            r.id == id,
            r.kind == kind,
            r.nodes@ == seq![NodeEntry { id, kind, crashed: false }],
            r.edges@.len() == 0,
            r.neighbours@.len() == 0,
            r.flood_counter == 0,
    {
        let mut nodes: Vec<NodeEntry> = Vec::new();
        nodes.push(NodeEntry { id, kind, crashed: false });
        let r = Router { id, kind, nodes, edges: Vec::new(), neighbours: Vec::new(), flood_counter: 0 };
        assert(r.nodes@ =~= seq![NodeEntry { id, kind, crashed: false }]);
        r
    }

    /// Position of node `id` in the node list.
    pub fn find_node(&self, id: NodeId) -> (r: Option<usize>)
        ensures
            match r {
                Some(j) => j < self.nodes@.len() && self.nodes@[j as int].id == id,
                None => !has_node(self.nodes@, id),
            },
    {
        let mut j: usize = 0;
        while j < self.nodes.len()
            invariant
                j <= self.nodes@.len(),
                forall|i: int| 0 <= i < j ==> #[trigger] self.nodes@[i].id != id,
            decreases self.nodes@.len() - j,
        {
            if self.nodes[j].id == id {
                return Some(j);
            }
            j += 1;
        }
        None
    }

    /// Forgets the discovered topology; only this endpoint itself stays known.
    pub fn clear_routing_table(&mut self)
        requires
            old(self).wf(),
        ensures
            final(self).wf(),
            final(self).id == old(self).id,
            final(self).kind == old(self).kind,
            final(self).nodes@ == seq![NodeEntry { id: old(self).id, kind: old(self).kind, crashed: false }],
            final(self).edges@.len() == 0,
            final(self).neighbours@ == old(self).neighbours@,
            final(self).flood_counter == old(self).flood_counter,
    {
        let mut nodes: Vec<NodeEntry> = Vec::new();
        nodes.push(NodeEntry { id: self.id, kind: self.kind, crashed: false });
        self.nodes = nodes;
        self.edges = Vec::new();
        assert(self.nodes@ =~= seq![NodeEntry { id: self.id, kind: self.kind, crashed: false }]);
    }

    /// Marks node `id` as crashed; later routes avoid it.
    pub fn drone_crashed(&mut self, id: NodeId)
        requires
            old(self).wf(),
        ensures
            final(self).wf(),
            final(self).id == old(self).id,
            final(self).kind == old(self).kind,
            final(self).edges@ == old(self).edges@,
            final(self).neighbours@ == old(self).neighbours@,
            final(self).flood_counter == old(self).flood_counter,
            crash_marked(old(self).nodes@, final(self).nodes@, id),
    {
        match self.find_node(id) {
            Some(j) => {
                let e = self.nodes[j];
                self.nodes.set(j, NodeEntry { crashed: true, ..e });
                assert forall|i: int| 0 <= i < old(self).nodes@.len() && i != j implies old(self).nodes@[i].id != id by {
                    if i < j {
                        assert(old(self).nodes@[i].id != old(self).nodes@[j as int].id);
                    } else {
                        assert(old(self).nodes@[j as int].id != old(self).nodes@[i].id);
                    }
                }
            },
            None => {},
        }
    }

    /// Adds one to the drop weight of every edge that touches `nack_src`, so
    /// that the next route leans away from it.
    pub fn dropped_fragment(&mut self, nack_src: NodeId)
        requires
            old(self).wf(),
        ensures
            final(self).wf(),
            final(self).id == old(self).id,
            final(self).kind == old(self).kind,
            final(self).nodes@ == old(self).nodes@,
            final(self).neighbours@ == old(self).neighbours@,
            final(self).flood_counter == old(self).flood_counter,
            penalised(old(self).edges@, final(self).edges@, nack_src),
    {
        let mut i: usize = 0;
        while i < self.edges.len()
            invariant
                0 <= i <= self.edges@.len(),
                self.edges@.len() == old(self).edges@.len(),
                self.id == old(self).id,
                self.kind == old(self).kind,
                self.nodes@ == old(self).nodes@,
                self.neighbours@ == old(self).neighbours@,
                self.flood_counter == old(self).flood_counter,
                forall|k: int|
                    0 <= k < self.edges@.len() ==> #[trigger] self.edges@[k] == (
                    if k < i && incident(old(self).edges@[k], nack_src) {
                        Edge {
                            drop_weight: old(self).edges@[k].drop_weight.saturating_add(1),
                            ..old(self).edges@[k]
                        }
                    } else {
                        old(self).edges@[k]
                    }),
            decreases self.edges@.len() - i,
        {
            let e = self.edges[i];
            if e.a == nack_src || e.b == nack_src {
                self.edges.set(i, Edge { drop_weight: e.drop_weight.saturating_add(1), ..e });
            }
            i += 1;
        }
    }

    /// Adds `id` to the set of direct neighbours.
    pub fn add_neighbour(&mut self, id: NodeId)
        requires
            old(self).wf(),
        ensures
            final(self).wf(),
            final(self).id == old(self).id,
            final(self).kind == old(self).kind,
            final(self).nodes@ == old(self).nodes@,
            final(self).edges@ == old(self).edges@,
            final(self).flood_counter == old(self).flood_counter,
            final(self).neighbours@.to_set() == old(self).neighbours@.to_set().insert(id),
            old(self).neighbours@.contains(id) ==> final(self).neighbours@ == old(self).neighbours@,
            !old(self).neighbours@.contains(id) ==> final(self).neighbours@ == old(self).neighbours@.push(id),
    {
        let mut i: usize = 0;
        let mut found = false;
        while i < self.neighbours.len() && !found
            invariant
                i <= self.neighbours@.len(),
                found ==> old(self).neighbours@.contains(id),
                !found ==> forall|k: int| 0 <= k < i ==> #[trigger] old(self).neighbours@[k] != id,
                *self == *old(self),
            decreases self.neighbours@.len() - i,
        {
            if self.neighbours[i] == id {
                found = true;
            }
            i += 1;
        }
        if found {
            assert(old(self).neighbours@.to_set().insert(id) =~= old(self).neighbours@.to_set());
            return;
        }
        self.neighbours.push(id);
        proof {
            assert(final(self).neighbours@.to_set() =~= old(self).neighbours@.to_set().insert(id)) by {
                assert forall|x: NodeId| final(self).neighbours@.to_set().contains(x) <==> old(self).neighbours@.to_set().insert(id).contains(x) by {
                    if final(self).neighbours@.contains(x) && x != id {
                        let k = choose|k: int| 0 <= k < final(self).neighbours@.len() && final(self).neighbours@[k] == x;
                        assert(old(self).neighbours@[k] == x);
                    }
                    if old(self).neighbours@.contains(x) {
                        let k = choose|k: int| 0 <= k < old(self).neighbours@.len() && old(self).neighbours@[k] == x;
                        assert(final(self).neighbours@[k] == x);
                    }
                    if x == id {
                        assert(final(self).neighbours@[final(self).neighbours@.len() - 1] == x);
                    }
                }
            }
        }
    }

    /// Removes every occurrence of `id` from the set of direct neighbours.
    pub fn remove_neighbour(&mut self, id: NodeId)
        requires
            old(self).wf(),
        ensures
            final(self).wf(),
            final(self).id == old(self).id,
            final(self).kind == old(self).kind,
            final(self).nodes@ == old(self).nodes@,
            final(self).edges@ == old(self).edges@,
            final(self).flood_counter == old(self).flood_counter,
            final(self).neighbours@ == old(self).neighbours@.filter(other_than(id)),
    {
        let mut kept: Vec<NodeId> = Vec::new();
        let mut i: usize = 0;
        while i < self.neighbours.len()
            invariant
                i <= self.neighbours@.len(),
                kept@ == self.neighbours@.subrange(0, i as int).filter(other_than(id)),
            decreases self.neighbours@.len() - i,
        {
            let x = self.neighbours[i];
            proof {
                reveal(Seq::filter);
                assert(self.neighbours@.subrange(0, i + 1).drop_last() =~= self.neighbours@.subrange(0, i as int));
            }
            if x != id {
                kept.push(x);
            }
            i += 1;
        }
        assert(self.neighbours@.subrange(0, i as int) =~= self.neighbours@);
        self.neighbours = kept;
    }
}


/// The flood request that starts flood `flood_id` from node `initiator`.
pub open spec fn flood_request_model(flood_id: u64, initiator: NodeId) -> PacketModel {
    PacketModel {
        session_id: flood_id,
        hops: Seq::empty(),
        hop_index: 0,
        body: BodyModel::FloodRequest { flood_id, initiator, trace: Seq::empty() },
    }
}

/// Entry `i` of trace `t` is the last that names its node.
pub open spec fn last_mention(t: Seq<(NodeId, NodeKind)>, i: int) -> bool {
    forall|j: int| i < j < t.len() ==> #[trigger] t[j].0 != t[i].0
}

/// Some entry of `nodes` is node `id` of kind `kind`.
pub open spec fn has_kind(nodes: Seq<NodeEntry>, id: NodeId, kind: NodeKind) -> bool {
    exists|j: int| 0 <= j < nodes.len() && #[trigger] nodes[j].id == id && nodes[j].kind == kind
}

/// `post` is `pre` after taking in a flood response with trace `t`: edges and
/// nodes are only added (new edges without drop weight, known nodes keep
/// their crash mark); every node of the trace is known; an edge joins each
/// consecutive pair, and this node to the first one where the trace does not
/// start here.
pub open spec fn absorbed(pre: Router, post: Router, t: Seq<(NodeId, NodeKind)>) -> bool {
    &&& post.id == pre.id
    &&& post.kind == pre.kind
    &&& post.neighbours@ == pre.neighbours@
    &&& post.flood_counter == pre.flood_counter
    &&& post.edges@.len() >= pre.edges@.len()
    &&& forall|i: int| 0 <= i < pre.edges@.len() ==> #[trigger] post.edges@[i] == pre.edges@[i]
    &&& forall|i: int|
        pre.edges@.len() <= i < post.edges@.len() ==> #[trigger] post.edges@[i].drop_weight == 0
    &&& post.nodes@.len() >= pre.nodes@.len()
    &&& forall|j: int|
        0 <= j < pre.nodes@.len() ==> (#[trigger] post.nodes@[j]).id == pre.nodes@[j].id
            && post.nodes@[j].crashed == pre.nodes@[j].crashed
    &&& forall|i: int| 0 <= i < t.len() ==> has_node(post.nodes@, #[trigger] t[i].0)
    &&& forall|i: int|
        0 <= i < t.len() && last_mention(t, i) ==> has_kind(post.nodes@, #[trigger] t[i].0, t[i].1)
    &&& forall|i: int| 0 <= i < t.len() - 1 ==> linked(post.edges@, #[trigger] t[i].0, t[i + 1].0)
    &&& t.len() > 0 && t[0].0 != pre.id ==> linked(post.edges@, pre.id, t[0].0)
}

/// Edge `e` joins `a` and `b`, in either direction.
pub open spec fn links(e: Edge, a: NodeId, b: NodeId) -> bool {
    (e.a == a && e.b == b) || (e.a == b && e.b == a)
}

/// The cost of one hop from `a` to `b`: one plus the least drop weight among
/// the edges that join them.
pub open spec fn link_weight(edges: Seq<Edge>, a: NodeId, b: NodeId) -> int
    decreases edges.len(),
{
    if edges.len() == 0 {
        0
    } else {
        let rest = edges.drop_last();
        let w = 1 + edges.last().drop_weight;
        if links(edges.last(), a, b) && (!linked(rest, a, b) || w < link_weight(rest, a, b)) {
            w
        } else {
            link_weight(rest, a, b)
        }
    }
}

/// The cost of path `p`: the sum of the costs of its hops.
pub open spec fn route_cost(edges: Seq<Edge>, p: Seq<NodeId>) -> int
    decreases p.len(),
{
    if p.len() <= 1 {
        0
    } else {
        route_cost(edges, p.drop_last()) + link_weight(edges, p[p.len() - 2], p.last())
    }
}

/// `x`, or the largest `u64` where `x` is larger.
pub open spec fn capped(x: int) -> int {
    if x > u64::MAX {
        u64::MAX as int
    } else {
        x
    }
}

proof fn lemma_link_weight(edges: Seq<Edge>, a: NodeId, b: NodeId)
    ensures
        link_weight(edges, a, b) >= 0,
        forall|i: int|
            0 <= i < edges.len() && links(#[trigger] edges[i], a, b) ==> link_weight(edges, a, b)
                <= 1 + edges[i].drop_weight,
        linked(edges, a, b) ==> exists|i: int|
            0 <= i < edges.len() && links(#[trigger] edges[i], a, b) && link_weight(edges, a, b)
                == 1 + edges[i].drop_weight,
    decreases edges.len(),
{
    if edges.len() > 0 {
        let rest = edges.drop_last();
        lemma_link_weight(rest, a, b);
        assert forall|i: int|
            0 <= i < edges.len() && links(#[trigger] edges[i], a, b) implies link_weight(edges, a, b)
                <= 1 + edges[i].drop_weight by {
            if i < edges.len() - 1 {
                assert(rest[i] == edges[i]);
                assert(linked(rest, a, b)) by {
                    assert(links(rest[i], a, b));
                }
            }
        }
        if linked(edges, a, b) {
            let last = edges.len() - 1;
            if links(edges.last(), a, b) && (!linked(rest, a, b) || 1 + edges.last().drop_weight
                < link_weight(rest, a, b)) {
                assert(links(edges[last], a, b));
            } else if linked(rest, a, b) {
                let i = choose|i: int|
                    0 <= i < rest.len() && links(#[trigger] rest[i], a, b) && link_weight(rest, a, b)
                        == 1 + rest[i].drop_weight;
                assert(edges[i] == rest[i]);
            } else {
                let i = choose|i: int|
                    0 <= i < edges.len() && ((#[trigger] edges[i].a == a && edges[i].b == b) || (
                    edges[i].a == b && edges[i].b == a));
                if i < last {
                    assert(rest[i] == edges[i]);
                    assert(links(rest[i], a, b));
                }
                assert(links(edges.last(), a, b));
            }
        }
    }
}

proof fn lemma_prefix_route(
    nodes: Seq<NodeEntry>,
    edges: Seq<Edge>,
    src: NodeId,
    q: Seq<NodeId>,
    m: int,
)
    requires
        route_prefix(nodes, edges, src, q),
        1 <= m <= q.len(),
    ensures
        route_prefix(nodes, edges, src, q.subrange(0, m)),
{
    let p = q.subrange(0, m);
    assert forall|k: int| 0 <= k < p.len() - 1 implies linked(edges, #[trigger] p[k], p[k + 1]) by {
        assert(p[k] == q[k] && p[k + 1] == q[k + 1]);
    }
    assert forall|k: int| 1 <= k < p.len() implies #[trigger] p[k] != src && live(nodes, p[k]) by {
        assert(p[k] == q[k]);
    }
    assert forall|k: int| 1 <= k < p.len() - 1 implies live_drone(nodes, #[trigger] p[k]) by {
        assert(p[k] == q[k]);
    }
}

proof fn lemma_route_cost_prefix(edges: Seq<Edge>, p: Seq<NodeId>, m: int)
    requires
        1 <= m <= p.len(),
    ensures
        route_cost(edges, p.subrange(0, m)) <= route_cost(edges, p),
    decreases p.len(),
{
    if m == p.len() {
        assert(p.subrange(0, m) =~= p);
    } else {
        let d = p.drop_last();
        assert(d.subrange(0, m) =~= p.subrange(0, m));
        lemma_route_cost_prefix(edges, d, m);
        lemma_link_weight(edges, p[p.len() - 2], p.last());
    }
}

/// Number of `false` entries in `s`.
pub open spec fn count_open(s: Seq<bool>) -> nat
    decreases s.len(),
{
    if s.len() == 0 {
        0
    } else {
        count_open(s.drop_last()) + if s.last() {
            0nat
        } else {
            1nat
        }
    }
}

proof fn lemma_count_open_set(s: Seq<bool>, j: int)
    requires
        0 <= j < s.len(),
        !s[j],
    ensures
        count_open(s.update(j, true)) + 1 == count_open(s),
    decreases s.len(),
{
    let t = s.update(j, true);
    if j == s.len() - 1 {
        assert(t.drop_last() =~= s.drop_last());
    } else {
        assert(t.drop_last() =~= s.drop_last().update(j, true));
        lemma_count_open_set(s.drop_last(), j);
    }
}

impl Router {
    /// Node `u` may forward traffic: it is this endpoint or a live drone.
    pub open spec fn may_relay(&self, u: int) -> bool {
        u == 0 || (self.nodes@[u].kind == NodeKind::Drone && !self.nodes@[u].crashed)
    }

    /// Every non-empty candidate path is a route prefix ending at its node.
    pub open spec fn paths_ok(&self, paths: Seq<Vec<NodeId>>) -> bool {
        &&& paths.len() == self.nodes@.len()
        &&& forall|j: int|
            0 <= j < paths.len() && #[trigger] paths[j]@.len() > 0 ==> route_prefix(
                self.nodes@,
                self.edges@,
                self.id,
                paths[j]@,
            ) && paths[j]@.last() == self.nodes@[j].id
    }

    /// Every live neighbour (other than this endpoint) of node `u` has a path.
    pub open spec fn closed_at(&self, paths: Seq<Vec<NodeId>>, u: int) -> bool {
        forall|v: int|
            0 <= v < self.nodes@.len() && self.nodes@[v].id != self.id && !self.nodes@[v].crashed
                && linked(self.edges@, self.nodes@[u].id, #[trigger] self.nodes@[v].id)
                ==> paths[v]@.len() > 0
    }

    /// No route prefix to node `u` costs less than the candidate cost of `u`.
    pub open spec fn settled_optimal(&self, dist: Seq<u64>, u: int) -> bool {
        forall|q: Seq<NodeId>|
            #[trigger] route_prefix(self.nodes@, self.edges@, self.id, q) && q.last()
                == self.nodes@[u].id ==> dist[u] <= capped(route_cost(self.edges@, q))
    }

    /// Every unsettled live neighbour of relay `x` costs at most the cost of
    /// `x` plus the hop.
    pub open spec fn relaxed_at(&self, dist: Seq<u64>, settled: Seq<bool>, x: int) -> bool {
        forall|v: int|
            0 <= v < self.nodes@.len() && !settled[v] && self.nodes@[v].id != self.id
                && !self.nodes@[v].crashed && linked(
                self.edges@,
                self.nodes@[x].id,
                #[trigger] self.nodes@[v].id,
            ) ==> dist[v] <= capped(
                dist[x] + link_weight(self.edges@, self.nodes@[x].id, self.nodes@[v].id),
            )
    }

    /// Each candidate path costs no more than the candidate cost recorded.
    pub open spec fn costs_ok(&self, dist: Seq<u64>, paths: Seq<Vec<NodeId>>) -> bool {
        forall|j: int|
            0 <= j < paths.len() && #[trigger] paths[j]@.len() > 0 ==> capped(
                route_cost(self.edges@, paths[j]@),
            ) <= dist[j]
    }

    /// Splitting a route prefix `q` to the node about to be settled at its
    /// first unsettled node: the first `m` nodes of `q` either end at a
    /// settled node no cheaper than that prefix, or cost at least the
    /// candidate cost of `u`.
    proof fn lemma_settle(
        &self,
        dist: Seq<u64>,
        paths: Seq<Vec<NodeId>>,
        settled: Seq<bool>,
        u: int,
        q: Seq<NodeId>,
        m: int,
    )
        requires
            self.wf(),
            dist.len() == self.nodes@.len(),
            settled.len() == self.nodes@.len(),
            self.paths_ok(paths),
            paths[0]@.len() > 0,
            0 <= u < self.nodes@.len(),
            !settled[u],
            paths[u]@.len() > 0,
            forall|k: int|
                0 <= k < self.nodes@.len() && #[trigger] paths[k]@.len() > 0 && !settled[k]
                    ==> dist[u] <= dist[k],
            !settled[0] ==> dist[0] == 0,
            forall|k: int| 0 <= k < self.nodes@.len() && #[trigger] settled[k] ==> paths[k]@.len() > 0,
            forall|w: int|
                0 <= w < self.nodes@.len() && #[trigger] settled[w] && self.may_relay(w)
                    ==> self.closed_at(paths, w),
            forall|w: int|
                0 <= w < self.nodes@.len() && #[trigger] settled[w] ==> self.settled_optimal(dist, w),
            forall|w: int|
                0 <= w < self.nodes@.len() && #[trigger] settled[w] && self.may_relay(w)
                    ==> self.relaxed_at(dist, settled, w),
            route_prefix(self.nodes@, self.edges@, self.id, q),
            q.last() == self.nodes@[u].id,
            1 <= m <= q.len(),
        ensures
            dist[u] <= capped(route_cost(self.edges@, q.subrange(0, m))) || exists|x: int|
                0 <= x < self.nodes@.len() && #[trigger] self.nodes@[x].id == q[m - 1] && settled[x]
                    && dist[x] <= capped(route_cost(self.edges@, q.subrange(0, m))),
        decreases m,
    {
        let qm = q.subrange(0, m);
        lemma_prefix_route(self.nodes@, self.edges@, self.id, q, m);
        if m == 1 {
            assert(self.nodes@[0].id == q[0]);
            if settled[0] {
                assert(self.settled_optimal(dist, 0));
                assert(route_prefix(self.nodes@, self.edges@, self.id, qm));
            }
        } else {
            self.lemma_settle(dist, paths, settled, u, q, m - 1);
            let qp = q.subrange(0, m - 1);
            assert(qm.drop_last() =~= qp);
            assert(qm[qm.len() - 2] == q[m - 2]);
            lemma_link_weight(self.edges@, q[m - 2], q[m - 1]);
            assert(live(self.nodes@, q[m - 1]));
            let v = choose|v: int|
                0 <= v < self.nodes@.len() && #[trigger] self.nodes@[v].id == q[m - 1]
                    && !self.nodes@[v].crashed;
            if settled[v] {
                assert(self.settled_optimal(dist, v));
                assert(route_prefix(self.nodes@, self.edges@, self.id, qm));
            } else if dist[u] <= capped(route_cost(self.edges@, qp)) {
            } else {
                let x = choose|x: int|
                    0 <= x < self.nodes@.len() && #[trigger] self.nodes@[x].id == q[m - 2]
                        && settled[x] && dist[x] <= capped(route_cost(self.edges@, qp));
                if m - 2 == 0 {
                    if x != 0 {
                        assert(self.nodes@[0].id != self.nodes@[x].id);
                    }
                } else {
                    assert(live_drone(self.nodes@, q[m - 2]));
                    let w = choose|w: int|
                        0 <= w < self.nodes@.len() && #[trigger] self.nodes@[w].id == q[m - 2]
                            && !self.nodes@[w].crashed && self.nodes@[w].kind == NodeKind::Drone;
                    if w < x {
                        assert(self.nodes@[w].id != self.nodes@[x].id);
                    } else if x < w {
                        assert(self.nodes@[x].id != self.nodes@[w].id);
                    }
                }
                assert(self.may_relay(x));
                assert(self.relaxed_at(dist, settled, x));
                assert(linked(self.edges@, q[m - 2], q[m - 1]));
                assert(self.closed_at(paths, x));
                assert(paths[v]@.len() > 0);
                assert(dist[v] <= capped(dist[x] + link_weight(self.edges@, q[m - 2], q[m - 1])));
            }
        }
    }

    proof fn lemma_reach(
        &self,
        paths: Seq<Vec<NodeId>>,
        settled: Seq<bool>,
        p: Seq<NodeId>,
        k: int,
    )
        requires
            self.wf(),
            paths.len() == self.nodes@.len(),
            settled.len() == self.nodes@.len(),
            paths[0]@.len() > 0,
            forall|j: int| 0 <= j < paths.len() && #[trigger] paths[j]@.len() > 0 ==> settled[j],
            forall|u: int|
                0 <= u < settled.len() && #[trigger] settled[u] && self.may_relay(u)
                    ==> self.closed_at(paths, u),
            route_prefix(self.nodes@, self.edges@, self.id, p),
            0 <= k < p.len(),
        ensures
            exists|j: int|
                0 <= j < self.nodes@.len() && #[trigger] self.nodes@[j].id == p[k] && paths[j]@.len()
                    > 0,
        decreases k,
    {
        if k == 0 {
            assert(self.nodes@[0].id == p[0]);
        } else {
            self.lemma_reach(paths, settled, p, k - 1);
            let u = choose|j: int|
                0 <= j < self.nodes@.len() && #[trigger] self.nodes@[j].id == p[k - 1]
                    && paths[j]@.len() > 0;
            assert(settled[u]);
            if k - 1 == 0 {
                if u != 0 {
                    assert(self.nodes@[0].id != self.nodes@[u].id);
                }
            } else {
                assert(live_drone(self.nodes@, p[k - 1]));
                let w = choose|w: int|
                    0 <= w < self.nodes@.len() && #[trigger] self.nodes@[w].id == p[k - 1]
                        && !self.nodes@[w].crashed && self.nodes@[w].kind == NodeKind::Drone;
                if w < u {
                    assert(self.nodes@[w].id != self.nodes@[u].id);
                } else if u < w {
                    assert(self.nodes@[u].id != self.nodes@[w].id);
                }
            }
            assert(self.may_relay(u));
            assert(self.closed_at(paths, u));
            assert(live(self.nodes@, p[k]));
            let v = choose|v: int|
                0 <= v < self.nodes@.len() && #[trigger] self.nodes@[v].id == p[k]
                    && !self.nodes@[v].crashed;
            assert(linked(self.edges@, p[k - 1], p[k]));
            assert(paths[v]@.len() > 0);
        }
    }

    proof fn lemma_extend(&self, pu: Seq<NodeId>, u: int, v: int, i: int)
        requires
            self.wf(),
            0 <= u < self.nodes@.len(),
            0 <= v < self.nodes@.len(),
            0 <= i < self.edges@.len(),
            self.may_relay(u),
            route_prefix(self.nodes@, self.edges@, self.id, pu),
            pu.last() == self.nodes@[u].id,
            self.nodes@[v].id != self.id,
            !self.nodes@[v].crashed,
            links(self.edges@[i], self.nodes@[u].id, self.nodes@[v].id),
        ensures
            route_prefix(self.nodes@, self.edges@, self.id, pu.push(self.nodes@[v].id)),
            route_cost(self.edges@, pu.push(self.nodes@[v].id)) <= route_cost(self.edges@, pu) + 1
                + self.edges@[i].drop_weight,
    {
        let uid = self.nodes@[u].id;
        let oid = self.nodes@[v].id;
        let q = pu.push(oid);
        if u != 0 {
            assert(self.nodes@[0].id != self.nodes@[u].id);
            assert(pu.len() >= 2);
            assert(live_drone(self.nodes@, uid));
        } else {
            assert(pu.len() == 1);
        }
        assert(live(self.nodes@, oid));
        assert(linked(self.edges@, uid, oid));
        assert forall|k: int| 0 <= k < q.len() - 1 implies linked(
            self.edges@,
            #[trigger] q[k],
            q[k + 1],
        ) by {
            if k < pu.len() - 1 {
                assert(q[k] == pu[k] && q[k + 1] == pu[k + 1]);
            }
        }
        assert forall|k: int| 1 <= k < q.len() implies #[trigger] q[k] != self.id && live(
            self.nodes@,
            q[k],
        ) by {
            if k < pu.len() {
                assert(q[k] == pu[k]);
            }
        }
        assert forall|k: int| 1 <= k < q.len() - 1 implies live_drone(self.nodes@, #[trigger] q[k]) by {
            if k < pu.len() - 1 {
                assert(q[k] == pu[k]);
            }
        }
        assert(q.drop_last() =~= pu);
        assert(q[q.len() - 2] == uid);
        lemma_link_weight(self.edges@, uid, oid);
    }

    /// Offers every live neighbour of relay `u` the path through `u`, where it
    /// has none yet or where the path through `u` costs less.
    fn relax_from(
        &self,
        u: usize,
        dist: &mut Vec<u64>,
        paths: &mut Vec<Vec<NodeId>>,
        settled: &Vec<bool>,
    )
        requires
            self.wf(),
            u < self.nodes@.len(),
            self.may_relay(u as int),
            old(dist)@.len() == self.nodes@.len(),
            settled@.len() == self.nodes@.len(),
            self.paths_ok(old(paths)@),
            old(paths)@[u as int]@.len() > 0,
            old(paths)@[0]@ == seq![self.id],
            forall|j: int| 0 <= j < settled@.len() && #[trigger] settled@[j] ==> old(paths)@[j]@.len() > 0,
            settled@[u as int],
            self.costs_ok(old(dist)@, old(paths)@),
        ensures
            final(dist)@.len() == self.nodes@.len(),
            self.costs_ok(final(dist)@, final(paths)@),
            final(dist)@[0] == old(dist)@[0],
            forall|j: int|
                0 <= j < self.nodes@.len() && #[trigger] settled@[j] ==> final(dist)@[j] == old(
                    dist,
                )@[j],
            forall|j: int|
                0 <= j < self.nodes@.len() && old(paths)@[j]@.len() > 0 ==> #[trigger] final(dist)@[j]
                    <= old(dist)@[j],
            self.relaxed_at(final(dist)@, settled@, u as int),
            self.paths_ok(final(paths)@),
            final(paths)@[0]@ == seq![self.id],
            forall|j: int|
                0 <= j < self.nodes@.len() && #[trigger] old(paths)@[j]@.len() > 0
                    ==> final(paths)@[j]@.len() > 0,
            self.closed_at(final(paths)@, u as int),
    {
        let uid = self.nodes[u].id;
        let n = self.nodes.len();
        let mut i: usize = 0;
        while i < self.edges.len()
            invariant
                self.wf(),
                u < n == self.nodes@.len(),
                uid == self.nodes@[u as int].id,
                self.may_relay(u as int),
                i <= self.edges@.len(),
                dist@.len() == n,
                self.paths_ok(paths@),
                paths@[u as int]@.len() > 0,
                paths@[0]@ == seq![self.id],
                settled@.len() == n,
                forall|j: int| 0 <= j < n && #[trigger] settled@[j] ==> paths@[j]@.len() > 0,
                forall|j: int|
                    0 <= j < n && #[trigger] old(paths)@[j]@.len() > 0 ==> paths@[j]@.len() > 0,
                settled@[u as int],
                self.costs_ok(dist@, paths@),
                dist@[0] == old(dist)@[0],
                forall|j: int| 0 <= j < n && #[trigger] settled@[j] ==> dist@[j] == old(dist)@[j],
                forall|j: int|
                    0 <= j < n && old(paths)@[j]@.len() > 0 ==> #[trigger] dist@[j] <= old(dist)@[j],
                forall|v: int, e: int|
                    0 <= v < n && 0 <= e < i && !settled@[v] && self.nodes@[v].id != self.id
                        && !self.nodes@[v].crashed && links(
                        #[trigger] self.edges@[e],
                        uid,
                        #[trigger] self.nodes@[v].id,
                    ) ==> dist@[v] <= capped(dist@[u as int] + 1 + self.edges@[e].drop_weight),
                forall|v: int, e: int|
                    0 <= v < n && 0 <= e < i && self.nodes@[v].id != self.id
                        && !self.nodes@[v].crashed && ((#[trigger] self.edges@[e].a == uid
                        && self.edges@[e].b == #[trigger] self.nodes@[v].id) || (self.edges@[e].b
                        == uid && self.edges@[e].a == self.nodes@[v].id)) ==> paths@[v]@.len() > 0,
            decreases self.edges@.len() - i,
        {
            let e = self.edges[i];
            let other: Option<NodeId> = if e.a == uid {
                Some(e.b)
            } else if e.b == uid {
                Some(e.a)
            } else {
                None
            };
            if let Some(oid) = other {
                if let Some(v) = self.find_node(oid) {
                    if oid != self.id && !self.nodes[v].crashed && !settled[v] {
                        let cand = dist[u].saturating_add(1).saturating_add(e.drop_weight);
                        assert(cand as int == capped(dist@[u as int] + 1 + e.drop_weight));
                        if paths[v].len() == 0 || cand < dist[v] {
                            let mut np = copy_bytes(&paths[u]);
                            let ghost pu = paths@[u as int]@;
                            np.push(oid);
                            proof {
                                assert(np@ == pu.push(oid));
                                assert(self.nodes@[u as int].id == uid);
                                assert(self.nodes@[v as int].id == oid);
                                assert(self.edges@[i as int] == e);
                                self.lemma_extend(pu, u as int, v as int, i as int);
                                assert(capped(route_cost(self.edges@, pu)) <= dist@[u as int]);
                            }
                            paths.set(v, np);
                            dist.set(v, cand);
                        }
                    }
                    assert(oid != self.id && !self.nodes@[v as int].crashed ==> paths@[v as int]@.len() > 0);
                    proof {
                        assert forall|w: int|
                            0 <= w < n && self.nodes@[w].id == oid && w != v implies false by {
                            if w < v {
                                assert(self.nodes@[w].id != self.nodes@[v as int].id);
                            } else {
                                assert(self.nodes@[v as int].id != self.nodes@[w].id);
                            }
                        }
                    }
                }
            }
            i += 1;
        }
        proof {
            assert forall|v: int|
                0 <= v < n && !settled@[v] && self.nodes@[v].id != self.id && !self.nodes@[v].crashed
                    && linked(self.edges@, uid, #[trigger] self.nodes@[v].id) implies dist@[v]
                <= capped(dist@[u as int] + link_weight(self.edges@, uid, self.nodes@[v].id)) by {
                lemma_link_weight(self.edges@, uid, self.nodes@[v].id);
                let e0 = choose|e0: int|
                    0 <= e0 < self.edges@.len() && links(#[trigger] self.edges@[e0], uid, self.nodes@[v].id)
                        && link_weight(self.edges@, uid, self.nodes@[v].id) == 1 + self.edges@[e0].drop_weight;
                assert(links(self.edges@[e0], uid, self.nodes@[v].id));
            }
        }
    }

    /// The unsettled node with a candidate path of least cost; ties go to the
    /// lower node id.
    fn pick_next(&self, dist: &Vec<u64>, paths: &Vec<Vec<NodeId>>, settled: &Vec<bool>) -> (r:
        Option<usize>)
        requires
            dist@.len() == self.nodes@.len(),
            paths@.len() == self.nodes@.len(),
            settled@.len() == self.nodes@.len(),
        ensures
            match r {
                Some(j) => j < self.nodes@.len() && paths@[j as int]@.len() > 0 && !settled@[j as int]
                    && forall|k: int|
                    0 <= k < self.nodes@.len() && #[trigger] paths@[k]@.len() > 0 && !settled@[k]
                        ==> dist@[j as int] <= dist@[k],
                None => forall|j: int|
                    0 <= j < self.nodes@.len() && #[trigger] paths@[j]@.len() > 0 ==> settled@[j],
            },
    {
        let mut best: Option<usize> = None;
        let mut j: usize = 0;
        while j < self.nodes.len()
            invariant
                j <= self.nodes@.len(),
                dist@.len() == self.nodes@.len(),
                paths@.len() == self.nodes@.len(),
                settled@.len() == self.nodes@.len(),
                match best {
                    Some(b) => b < self.nodes@.len() && paths@[b as int]@.len() > 0
                        && !settled@[b as int] && forall|k: int|
                        0 <= k < j && #[trigger] paths@[k]@.len() > 0 && !settled@[k]
                            ==> dist@[b as int] <= dist@[k],
                    None => forall|k: int|
                        0 <= k < j && #[trigger] paths@[k]@.len() > 0 ==> settled@[k],
                },
            decreases self.nodes@.len() - j,
        {
            if paths[j].len() > 0 && !settled[j] {
                best = match best {
                    None => Some(j),
                    Some(b) => {
                        if dist[j] < dist[b] || (dist[j] == dist[b] && self.nodes[j].id
                            < self.nodes[b].id) {
                            Some(j)
                        } else {
                            Some(b)
                        }
                    },
                };
            }
            j += 1;
        }
        best
    }

    /// A source-routing header from this endpoint to `destination`, cursor on
    /// the first hop, over a route of least cost: only live drones relay, no
    /// crashed node is used, and a hop costs one plus the least drop weight
    /// of the edges that join its ends (costs compared up to `u64::MAX`).
    /// `Unreachable` exactly when no such route exists. Among nodes of equal
    /// cost the search settles the lower node id first.
    #[verifier::rlimit(100)]
    pub fn get_source_routing_header(&self, destination: NodeId) -> (r: Result<
        RoutingHeader,
        RoutingError,
    >)
        requires
            self.wf(),
        ensures
            match r {
                Ok(h) => h.hop_index == 1 && self.is_best_route(destination, h.hops@),
                Err(_) => forall|p: Seq<NodeId>| !self.is_route(destination, p),
            },
    {
        let n = self.nodes.len();
        let mut dist: Vec<u64> = Vec::new();
        let mut paths: Vec<Vec<NodeId>> = Vec::new();
        let mut settled: Vec<bool> = Vec::new();
        let mut j: usize = 0;
        while j < n
            invariant
                n == self.nodes@.len(),
                j <= n,
                dist@.len() == j,
                paths@.len() == j,
                settled@.len() == j,
                forall|k: int| 0 <= k < j ==> #[trigger] paths@[k]@.len() == 0,
                forall|k: int| 0 <= k < j ==> !#[trigger] settled@[k],
                forall|k: int| 0 <= k < j ==> #[trigger] dist@[k] == 0,
            decreases n - j,
        {
            dist.push(0);
            paths.push(Vec::new());
            settled.push(false);
            j += 1;
        }
        let mut start: Vec<NodeId> = Vec::new();
        start.push(self.id);
        paths.set(0, start);
        assert(paths@[0]@ =~= seq![self.id]);
        assert(route_prefix(self.nodes@, self.edges@, self.id, seq![self.id]));
        assert(route_cost(self.edges@, seq![self.id]) == 0);
        assert(dist@[0] == 0);
        loop
            invariant
                self.wf(),
                n == self.nodes@.len(),
                dist@.len() == n,
                settled@.len() == n,
                self.paths_ok(paths@),
                paths@[0]@ == seq![self.id],
                forall|k: int| 0 <= k < n && #[trigger] settled@[k] ==> paths@[k]@.len() > 0,
                forall|u: int|
                    0 <= u < n && #[trigger] settled@[u] && self.may_relay(u) ==> self.closed_at(
                        paths@,
                        u,
                    ),
                self.costs_ok(dist@, paths@),
                !settled@[0] ==> dist@[0] == 0,
                forall|u: int| 0 <= u < n && #[trigger] settled@[u] ==> self.settled_optimal(dist@, u),
                forall|u: int|
                    0 <= u < n && #[trigger] settled@[u] && self.may_relay(u) ==> self.relaxed_at(
                        dist@,
                        settled@,
                        u,
                    ),
            ensures
                forall|k: int| 0 <= k < n && #[trigger] paths@[k]@.len() > 0 ==> settled@[k],
            decreases count_open(settled@),
        {
            match self.pick_next(&dist, &paths, &settled) {
                None => {
                    break ;
                },
                Some(u) => {
                    proof {
                        lemma_count_open_set(settled@, u as int);
                        assert forall|q: Seq<NodeId>|
                            #[trigger] route_prefix(self.nodes@, self.edges@, self.id, q) && q.last()
                                == self.nodes@[u as int].id implies dist@[u as int] <= capped(
                            route_cost(self.edges@, q),
                        ) by {
                            self.lemma_settle(dist@, paths@, settled@, u as int, q, q.len() as int);
                            assert(q.subrange(0, q.len() as int) =~= q);
                            if !(dist@[u as int] <= capped(route_cost(self.edges@, q))) {
                                let x = choose|x: int|
                                    0 <= x < self.nodes@.len() && #[trigger] self.nodes@[x].id == q[q.len() - 1]
                                        && settled@[x] && dist@[x] <= capped(route_cost(self.edges@, q.subrange(0, q.len() as int)));
                                if x < u {
                                    assert(self.nodes@[x].id != self.nodes@[u as int].id);
                                } else if u < x {
                                    assert(self.nodes@[u as int].id != self.nodes@[x].id);
                                }
                            }
                        }
                    }
                    let ghost before = paths@;
                    let ghost dist_before = dist@;
                    let ghost settled_before = settled@;
                    settled.set(u, true);
                    if u == 0 || (self.nodes[u].kind == NodeKind::Drone && !self.nodes[u].crashed) {
                        self.relax_from(u, &mut dist, &mut paths, &settled);
                    }
                    proof {
                        assert forall|w: int|
                            0 <= w < n && #[trigger] settled@[w] && self.may_relay(w)
                                implies self.closed_at(paths@, w) by {
                            if w != u {
                                assert(self.closed_at(before, w));
                            }
                        }
                        assert forall|w: int| 0 <= w < n && #[trigger] settled@[w] implies self.settled_optimal(dist@, w) by {
                            assert(dist@[w] == dist_before[w]);
                            if w != u {
                                assert(settled_before[w]);
                                assert(self.settled_optimal(dist_before, w));
                            }
                        }
                        assert forall|w: int|
                            0 <= w < n && #[trigger] settled@[w] && self.may_relay(w)
                                implies self.relaxed_at(dist@, settled@, w) by {
                            if w != u {
                                assert(settled_before[w]);
                                assert(self.relaxed_at(dist_before, settled_before, w));
                                assert forall|v: int|
                                    0 <= v < n && !settled@[v] && self.nodes@[v].id != self.id
                                        && !self.nodes@[v].crashed && linked(
                                        self.edges@,
                                        self.nodes@[w].id,
                                        #[trigger] self.nodes@[v].id,
                                    ) implies dist@[v] <= capped(
                                    dist@[w] + link_weight(self.edges@, self.nodes@[w].id, self.nodes@[v].id),
                                ) by {
                                    assert(!settled_before[v]);
                                    assert(before[v]@.len() > 0);
                                }
                            }
                        }
                    }
                },
            }
        }
        if destination == self.id {
            proof {
                assert forall|p: Seq<NodeId>| !self.is_route(destination, p) by {
                    if self.is_route(destination, p) {
                        assert(p[p.len() - 1] != self.id);
                    }
                }
            }
            return Err(RoutingError::Unreachable);
        }
        match self.find_node(destination) {
            None => {
                proof {
                    assert forall|p: Seq<NodeId>| !self.is_route(destination, p) by {
                        if self.is_route(destination, p) {
                            assert(live(self.nodes@, p[p.len() - 1]));
                        }
                    }
                }
                Err(RoutingError::Unreachable)
            },
            Some(d) => {
                if paths[d].len() == 0 {
                    proof {
                        assert forall|p: Seq<NodeId>| !self.is_route(destination, p) by {
                            if self.is_route(destination, p) {
                                self.lemma_reach(paths@, settled@, p, p.len() - 1);
                                let w = choose|w: int|
                                    0 <= w < self.nodes@.len() && #[trigger] self.nodes@[w].id
                                        == p[p.len() - 1] && paths@[w]@.len() > 0;
                                if w < d {
                                    assert(self.nodes@[w].id != self.nodes@[d as int].id);
                                } else if d < w {
                                    assert(self.nodes@[d as int].id != self.nodes@[w].id);
                                }
                            }
                        }
                    }
                    Err(RoutingError::Unreachable)
                } else {
                    let hops = copy_bytes(&paths[d]);
                    assert(hops@[0] == self.id);
                    proof {
                        assert(settled@[d as int]);
                        assert(self.settled_optimal(dist@, d as int));
                        assert forall|q: Seq<NodeId>| self.is_route(destination, q) implies capped(
                            route_cost(self.edges@, hops@),
                        ) <= capped(route_cost(self.edges@, q)) by {
                            assert(route_prefix(self.nodes@, self.edges@, self.id, q));
                        }
                    }
                    Ok(RoutingHeader::with_first_hop(hops))
                }
            },
        }
    }

    /// Records node `id` with kind `kind`; a node already known keeps its
    /// place and its crash mark.
    pub fn add_node(&mut self, id: NodeId, kind: NodeKind)
        requires
            old(self).wf(),
        ensures
            final(self).wf(),
            final(self).id == old(self).id,
            final(self).kind == old(self).kind,
            final(self).edges@ == old(self).edges@,
            final(self).neighbours@ == old(self).neighbours@,
            final(self).flood_counter == old(self).flood_counter,
            final(self).nodes@.len() >= old(self).nodes@.len(),
            forall|j: int|
                0 <= j < old(self).nodes@.len() ==> (#[trigger] final(self).nodes@[j]).id == old(self).nodes@[j].id && final(self).nodes@[j].crashed == old(self).nodes@[j].crashed
                    && (final(self).nodes@[j].id != id ==> final(self).nodes@[j]
                    == old(self).nodes@[j]),
            forall|j: int|
                old(self).nodes@.len() <= j < final(self).nodes@.len() ==> (#[trigger] final(self).nodes@[j]) == (NodeEntry { id, kind, crashed: false }),
            (exists|j: int|
                0 <= j < final(self).nodes@.len() && #[trigger] final(self).nodes@[j].id == id
                    && final(self).nodes@[j].kind == kind),
    {
        match self.find_node(id) {
            Some(j) => {
                let e = self.nodes[j];
                self.nodes.set(j, NodeEntry { kind, ..e });
                assert(self.nodes@[j as int].id == id);
            },
            None => {
                self.nodes.push(NodeEntry { id, kind, crashed: false });
                assert(self.nodes@[self.nodes@.len() - 1].id == id);
            },
        }
    }

    /// Records an edge between `a` and `b` with no drop weight, unless the two
    /// are linked already.
    pub fn add_edge(&mut self, a: NodeId, b: NodeId)
        requires
            old(self).wf(),
        ensures
            final(self).wf(),
            final(self).id == old(self).id,
            final(self).kind == old(self).kind,
            final(self).nodes@ == old(self).nodes@,
            final(self).neighbours@ == old(self).neighbours@,
            final(self).flood_counter == old(self).flood_counter,
            final(self).edges@.len() >= old(self).edges@.len(),
            forall|i: int|
                0 <= i < old(self).edges@.len() ==> #[trigger] final(self).edges@[i]
                    == old(self).edges@[i],
            forall|i: int|
                old(self).edges@.len() <= i < final(self).edges@.len() ==> #[trigger] final(self).edges@[i].drop_weight == 0,
            linked(final(self).edges@, a, b),
    {
        let mut i: usize = 0;
        let mut found = false;
        while i < self.edges.len() && !found
            invariant
                i <= self.edges@.len(),
                *self == *old(self),
                found ==> linked(self.edges@, a, b),
                !found ==> forall|k: int|
                    0 <= k < i ==> !((#[trigger] self.edges@[k].a == a && self.edges@[k].b == b)
                        || (self.edges@[k].a == b && self.edges@[k].b == a)),
            decreases self.edges@.len() - i,
        {
            let e = self.edges[i];
            if (e.a == a && e.b == b) || (e.a == b && e.b == a) {
                assert(self.edges@[i as int] == e);
                found = true;
            }
            i += 1;
        }
        if found {
            return;
        }
        self.edges.push(Edge { a, b, drop_weight: 0 });
        assert(self.edges@[self.edges@.len() - 1].a == a);
    }

    /// Absorbs the path trace of a flood response: every node of the trace is
    /// recorded with its kind (the last one the trace gives it), and an edge joins each consecutive pair. A
    /// trace that does not start at this endpoint (the answer to its own
    /// flood) is read as if it did.
    pub fn handle_flood_response(&mut self, path_trace: &Vec<(NodeId, NodeKind)>)
        requires
            old(self).wf(),
        ensures
            final(self).wf(),
            absorbed(*old(self), *final(self), path_trace@),
    {
        let t = path_trace;
        let mut prev: Option<NodeId> = if t.len() > 0 && t[0].0 != self.id {
            Some(self.id)
        } else {
            None
        };
        let mut i: usize = 0;
        while i < t.len()
            invariant
                self.wf(),
                i <= t@.len(),
                self.id == old(self).id,
                self.kind == old(self).kind,
                self.neighbours@ == old(self).neighbours@,
                self.flood_counter == old(self).flood_counter,
                self.edges@.len() >= old(self).edges@.len(),
                forall|k: int|
                    0 <= k < old(self).edges@.len() ==> #[trigger] self.edges@[k]
                        == old(self).edges@[k],
                forall|k: int|
                    old(self).edges@.len() <= k < self.edges@.len() ==> #[trigger] self.edges@[k].drop_weight
                        == 0,
                self.nodes@.len() >= old(self).nodes@.len(),
                forall|j: int|
                    0 <= j < old(self).nodes@.len() ==> (#[trigger] self.nodes@[j]).id == old(self).nodes@[j].id && self.nodes@[j].crashed == old(self).nodes@[j].crashed,
                forall|k: int| 0 <= k < i ==> has_node(self.nodes@, #[trigger] t@[k].0),
                forall|k: int|
                    0 <= k < i && (forall|j: int| k < j < i ==> #[trigger] t@[j].0 != t@[k].0)
                        ==> has_kind(self.nodes@, #[trigger] t@[k].0, t@[k].1),
                forall|k: int| 0 <= k < i - 1 ==> linked(self.edges@, #[trigger] t@[k].0, t@[k + 1].0),
                i == 0 ==> prev == (if t@.len() > 0 && t@[0].0 != old(self).id {
                    Some(old(self).id)
                } else {
                    None::<NodeId>
                }),
                i > 0 ==> prev == Some(t@[i - 1].0),
                i > 0 && t@[0].0 != old(self).id ==> linked(self.edges@, old(self).id, t@[0].0),
            decreases t@.len() - i,
        {
            let (id, kind) = t[i];
            let ghost nodes_before = self.nodes@;
            let ghost edges_before = self.edges@;
            self.add_node(id, kind);
            proof {
                assert forall|k: int| 0 <= k < i implies has_node(self.nodes@, #[trigger] t@[k].0) by {
                    let j = choose|j: int| 0 <= j < nodes_before.len() && #[trigger] nodes_before[j].id == t@[k].0;
                    assert(self.nodes@[j].id == t@[k].0);
                }
                assert forall|k: int|
                    0 <= k < i + 1 && (forall|j: int| k < j < i + 1 ==> #[trigger] t@[j].0 != t@[k].0)
                        implies has_kind(self.nodes@, #[trigger] t@[k].0, t@[k].1) by {
                    if k < i {
                        assert(t@[i as int].0 != t@[k].0);
                        assert(forall|j: int| k < j < i ==> #[trigger] t@[j].0 != t@[k].0);
                        let j = choose|j: int| 0 <= j < nodes_before.len() && #[trigger] nodes_before[j].id == t@[k].0 && nodes_before[j].kind == t@[k].1;
                        assert(self.nodes@[j] == nodes_before[j]);
                    }
                }
            }
            match prev {
                Some(p) => {
                    self.add_edge(p, id);
                },
                None => {},
            }
            proof {
                assert forall|k: int| 0 <= k < i + 1 - 1 implies linked(self.edges@, #[trigger] t@[k].0, t@[k + 1].0) by {
                    if k < i - 1 {
                        let e = choose|e: int| 0 <= e < edges_before.len() && ((#[trigger] edges_before[e].a == t@[k].0 && edges_before[e].b == t@[k + 1].0) || (edges_before[e].a == t@[k + 1].0 && edges_before[e].b == t@[k].0));
                        assert(self.edges@[e] == edges_before[e]);
                    }
                }
                if i > 0 && t@[0].0 != old(self).id {
                    let e = choose|e: int| 0 <= e < edges_before.len() && ((#[trigger] edges_before[e].a == old(self).id && edges_before[e].b == t@[0].0) || (edges_before[e].a == t@[0].0 && edges_before[e].b == old(self).id));
                    assert(self.edges@[e] == edges_before[e]);
                }
            }
            prev = Some(id);
            i += 1;
        }
    }

    /// `count` flood requests that share one fresh flood id, each started by
    /// this endpoint with an empty path trace and an empty routing header.
    pub fn get_flood_requests(&mut self, count: usize) -> (r: Vec<Packet>)
        requires
            old(self).wf(),
        ensures
            final(self).wf(),
            final(self).id == old(self).id,
            final(self).kind == old(self).kind,
            final(self).nodes@ == old(self).nodes@,
            final(self).edges@ == old(self).edges@,
            final(self).neighbours@ == old(self).neighbours@,
            final(self).flood_counter == old(self).flood_counter.wrapping_add(1),
            r@.len() == count,
            forall|i: int|
                0 <= i < count ==> (#[trigger] r@[i])@ == flood_request_model(
                    final(self).flood_counter,
                    old(self).id,
                ),
    {
        self.flood_counter = self.flood_counter.wrapping_add(1);
        let mut r: Vec<Packet> = Vec::new();
        let mut i: usize = 0;
        while i < count
            invariant
                i <= count,
                r@.len() == i,
                forall|k: int|
                    0 <= k < i ==> (#[trigger] r@[k])@ == flood_request_model(
                        self.flood_counter,
                        self.id,
                    ),
            decreases count - i,
        {
            let p = Packet {
                routing_header: RoutingHeader { hop_index: 0, hops: Vec::new() },
                session_id: self.flood_counter,
                pack_type: PacketType::FloodRequest {
                    flood_id: self.flood_counter,
                    initiator_id: self.id,
                    path_trace: Vec::new(),
                },
            };
            assert(p@ =~= flood_request_model(self.flood_counter, self.id));
            r.push(p);
            i += 1;
        }
        r
    }
}

} // verus!
