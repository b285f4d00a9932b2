use vstd::prelude::*;
use crate::messages::{ClientMessage, Message, MessageContent, decode_client};
use crate::packet::{
    BodyModel, Fragment, NodeId, NodeKind, Packet, PacketModel, PacketType,
    RoutingHeader, FRAGMENT_SIZE,
};

verus! {

/// Number of fragments that carry `n` bytes: at least one.
pub open spec fn fragment_count(n: nat) -> nat {
    if n == 0 {
        1
    } else {
        ((n + 127) / 128) as nat
    }
}

/// The bytes of `b` that fragment `i` carries.
pub open spec fn chunk(b: Seq<u8>, i: int) -> Seq<u8> {
    let end = if (i + 1) * 128 < b.len() {
        (i + 1) * 128
    } else {
        b.len() as int
    };
    b.subrange(i * 128, end)
}

/// Fragment `i` of `total`, carrying `data`, of session `session` along `hops`.
pub open spec fn fragment_model(
    session: u64,
    hops: Seq<NodeId>,
    hop_index: int,
    i: u64,
    total: u64,
    data: Seq<u8>,
) -> PacketModel {
    PacketModel {
        session_id: session,
        hops,
        hop_index,
        body: BodyModel::MsgFragment { index: i, total, data },
    }
}

/// What the parts received so far hold: a later part with the same index
/// replaces an earlier one.
pub open spec fn parts_map(s: Seq<(u64, Vec<u8>)>) -> Map<u64, Seq<u8>>
    decreases s.len(),
{
    if s.len() == 0 {
        Map::empty()
    } else {
        parts_map(s.drop_last()).insert(s.last().0, s.last().1@)
    }
}

/// The parts `0 .. n` of `parts`, concatenated in index order.
pub open spec fn assembled(parts: Map<u64, Seq<u8>>, n: nat) -> Seq<u8>
    decreases n,
{
    if n == 0 {
        Seq::empty()
    } else {
        assembled(parts, (n - 1) as nat) + parts[(n - 1) as u64]
    }
}

/// Every part `0 .. total` is present.
pub open spec fn complete(parts: Map<u64, Seq<u8>>, total: u64) -> bool {
    forall|i: u64| i < total ==> #[trigger] parts.contains_key(i)
}

/// Key of a message under reassembly: its session and its origin.
pub type PendingKey = (u64, NodeId);

pub struct PendingMessage {
    pub session_id: u64,
    pub origin: NodeId,
    pub total: u64,
    pub parts: Vec<(u64, Vec<u8>)>,
}

/// Splits outbound messages into fragments and reassembles inbound ones.
pub struct MessageFactory {
    pub id: NodeId,
    pub kind: NodeKind,
    pub session_counter: u64,
    pub pending: Vec<PendingMessage>,
    pub model: Ghost<Map<PendingKey, (u64, Map<u64, Seq<u8>>)>>,
}

proof fn lemma_parts_last(s: Seq<(u64, Vec<u8>)>, k: int)
    requires
        0 <= k < s.len(),
        forall|j: int| k < j < s.len() ==> #[trigger] s[j].0 != s[k].0,
    ensures
        parts_map(s).contains_key(s[k].0),
        parts_map(s)[s[k].0] == s[k].1@,
    decreases s.len(),
{
    if k < s.len() - 1 {
        lemma_parts_last(s.drop_last(), k);
    }
}

proof fn lemma_parts_absent(s: Seq<(u64, Vec<u8>)>, i: u64)
    requires
        forall|j: int| 0 <= j < s.len() ==> #[trigger] s[j].0 != i,
    ensures
        !parts_map(s).contains_key(i),
    decreases s.len(),
{
    if s.len() > 0 {
        lemma_parts_absent(s.drop_last(), i);
    }
}

/// The parts of message `key` once fragment `index` with `data` is added.
pub open spec fn merged_parts(
    m: Map<PendingKey, (u64, Map<u64, Seq<u8>>)>,
    key: PendingKey,
    index: u64,
    data: Seq<u8>,
) -> Map<u64, Seq<u8>> {
    (if m.contains_key(key) {
        m[key].1
    } else {
        Map::empty()
    }).insert(index, data)
}

/// A fragment `index` of `total` fits message `key`.
pub open spec fn accepts(
    m: Map<PendingKey, (u64, Map<u64, Seq<u8>>)>,
    key: PendingKey,
    index: u64,
    total: u64,
) -> bool {
    index < total && (!m.contains_key(key) || m[key].0 == total)
}

/// The bytes of message `key` if this fragment completes it.
pub open spec fn reassembled(
    m: Map<PendingKey, (u64, Map<u64, Seq<u8>>)>,
    key: PendingKey,
    index: u64,
    total: u64,
    data: Seq<u8>,
) -> Option<Seq<u8>> {
    if accepts(m, key, index, total) && complete(merged_parts(m, key, index, data), total) {
        Some(assembled(merged_parts(m, key, index, data), total as nat))
    } else {
        None
    }
}

/// The messages under reassembly after this fragment.
pub open spec fn pending_after(
    m: Map<PendingKey, (u64, Map<u64, Seq<u8>>)>,
    key: PendingKey,
    index: u64,
    total: u64,
    data: Seq<u8>,
) -> Map<PendingKey, (u64, Map<u64, Seq<u8>>)> {
    if !accepts(m, key, index, total) {
        m
    } else if complete(merged_parts(m, key, index, data), total) {
        m.remove(key)
    } else {
        m.insert(key, (total, merged_parts(m, key, index, data)))
    }
}

/// The parts `0 .. total` concatenated, if all of them are there.
pub fn assemble(parts: &Vec<(u64, Vec<u8>)>, total: u64) -> (r: Option<Vec<u8>>)
    ensures
        r.is_some() == complete(parts_map(parts@), total),
        r.is_some() ==> r.unwrap()@ == assembled(parts_map(parts@), total as nat),
{
    let ghost pm = parts_map(parts@);
    let mut out: Vec<u8> = Vec::new();
    let mut i: u64 = 0;
    while i < total
        invariant
            i <= total,
            pm == parts_map(parts@),
            forall|j: u64| j < i ==> #[trigger] pm.contains_key(j),
            out@ == assembled(pm, i as nat),
        decreases total - i,
    {
        let mut k: usize = parts.len();
        let mut found: Option<usize> = None;
        while k > 0 && found.is_none()
            invariant
                k <= parts@.len(),
                found.is_none() ==> forall|j: int| k <= j < parts@.len() ==> #[trigger] parts@[j].0 != i,
                found.is_some() ==> found.unwrap() < parts@.len() && parts@[found.unwrap() as int].0 == i
                    && forall|j: int| found.unwrap() < j < parts@.len() ==> #[trigger] parts@[j].0 != i,
            decreases k,
        {
            k -= 1;
            if parts[k].0 == i {
                found = Some(k);
            }
        }
        match found {
            None => {
                proof {
                    lemma_parts_absent(parts@, i);
                }
                return None;
            },
            Some(f) => {
                proof {
                    lemma_parts_last(parts@, f as int);
                }
                crate::messages::append_bytes(&mut out, &parts[f].1);
            },
        }
        i += 1;
    }
    Some(out)
}

impl View for MessageFactory {
    type V = Map<PendingKey, (u64, Map<u64, Seq<u8>>)>;

    closed spec fn view(&self) -> Map<PendingKey, (u64, Map<u64, Seq<u8>>)> {
        self.model@
    }
}

impl MessageFactory {
    pub closed spec fn wf(&self) -> bool {
        let e = self.pending@;
        &&& forall|i: int, j: int|
            0 <= i < j < e.len() ==> (#[trigger] e[i].session_id, e[i].origin) != (
            #[trigger] e[j].session_id,
            e[j].origin,
        )
        &&& forall|i: int|
            0 <= i < e.len() ==> {
                let k = (#[trigger] e[i].session_id, e[i].origin);
                &&& self.model@.contains_key(k)
                &&& self.model@[k] == (e[i].total, parts_map(e[i].parts@))
            }
        &&& forall|k: PendingKey| #[trigger]
            self.model@.contains_key(k) ==> exists|i: int|
                0 <= i < e.len() && (#[trigger] e[i].session_id, e[i].origin) == k
    }

    pub fn new(id: NodeId, kind: NodeKind) -> (r: MessageFactory)
        ensures
            r.wf(),
            r@ == Map::<PendingKey, (u64, Map<u64, Seq<u8>>)>::empty(),
            r.id == id,
            r.kind == kind,
            r.session_counter == 0,
    {
        MessageFactory { id, kind, session_counter: 0, pending: Vec::new(), model: Ghost(Map::empty()) }
    }

    /// Splits `bytes` into fragments of at most `FRAGMENT_SIZE` bytes (one
    /// empty fragment for no bytes), in index order, all stamped with one fresh
    /// session id and with `header`.
    pub fn fragment_bytes(&mut self, bytes: &Vec<u8>, header: &RoutingHeader) -> (r: Vec<Packet>)
        requires
            old(self).wf(),
        ensures
            final(self).wf(),
            final(self)@ == old(self)@,
            final(self).id == old(self).id,
            final(self).kind == old(self).kind,
            final(self).session_counter == old(self).session_counter.wrapping_add(1),
            r@.len() == fragment_count(bytes@.len()),
            forall|i: int|
                0 <= i < r@.len() ==> (#[trigger] r@[i])@ == fragment_model(
                    old(self).session_counter,
                    header.hops@,
                    header.hop_index as int,
                    i as u64,
                    r@.len() as u64,
                    chunk(bytes@, i),
                ),
    {
        let session = self.session_counter;
        let n = bytes.len();
        let total: usize = if n == 0 {
            1
        } else {
            n / FRAGMENT_SIZE + if n % FRAGMENT_SIZE == 0 {
                0
            } else {
                1
            }
        };
        assert(total == fragment_count(n as nat)) by (nonlinear_arith)
            requires
                total == (if n == 0 {
                    1
                } else {
                    n / 128 + if n % 128 == 0 {
                        0usize
                    } else {
                        1usize
                    }
                }),
        ;
        let mut r: Vec<Packet> = Vec::new();
        let mut i: usize = 0;
        while i < total
            invariant
                *self == *old(self),
                total == fragment_count(n as nat),
                n == bytes@.len(),
                i <= total,
                r@.len() == i,
                forall|k: int|
                    0 <= k < i ==> (#[trigger] r@[k])@ == fragment_model(
                        session,
                        header.hops@,
                        header.hop_index as int,
                        k as u64,
                        total as u64,
                        chunk(bytes@, k),
                    ),
            decreases total - i,
        {
            assert(i * 128 <= n) by (nonlinear_arith)
                requires
                    i < total,
                    total == fragment_count(n as nat),
            ;
            let start = i * FRAGMENT_SIZE;
            let end = if n - start > FRAGMENT_SIZE {
                start + FRAGMENT_SIZE
            } else {
                n
            };
            let mut data: Vec<u8> = Vec::new();
            let mut j: usize = start;
            while j < end
                invariant
                    start <= j <= end <= n == bytes@.len(),
                    data@ == bytes@.subrange(start as int, j as int),
                decreases end - j,
            {
                data.push(bytes[j]);
                j += 1;
                assert(data@ =~= bytes@.subrange(start as int, j as int));
            }
            assert(data@ == chunk(bytes@, i as int));
            let p = Packet {
                routing_header: header.duplicate(),
                session_id: session,
                pack_type: PacketType::MsgFragment(
                    Fragment { fragment_index: i as u64, total_fragments: total as u64, data },
                ),
            };
            r.push(p);
            i += 1;
        }
        assert(self.wf());
        self.session_counter = self.session_counter.wrapping_add(1);
        assert(self.pending@ == old(self).pending@);
        assert(self.model@ == old(self).model@);
        r
    }

    /// Fragments of the wire form of a server message, as `fragment_bytes`
    /// cuts them.
    pub fn get_message_from_message_content(
        &mut self,
        content: &crate::messages::ServerMessage,
        header: &RoutingHeader,
    ) -> (r: Vec<Packet>)
        requires
            old(self).wf(),
        ensures
            final(self).wf(),
            final(self)@ == old(self)@,
            final(self).id == old(self).id,
            final(self).kind == old(self).kind,
            final(self).session_counter == old(self).session_counter.wrapping_add(1),
            r@.len() == fragment_count(crate::messages::encode_server(content@).len()),
            forall|i: int|
                0 <= i < r@.len() ==> (#[trigger] r@[i])@ == fragment_model(
                    old(self).session_counter,
                    header.hops@,
                    header.hop_index as int,
                    i as u64,
                    r@.len() as u64,
                    chunk(crate::messages::encode_server(content@), i),
                ),
    {
        let bytes = content.encode();
        self.fragment_bytes(&bytes, header)
    }

    /// Position of the message under reassembly with key `key`.
    fn find_pending(&self, key: PendingKey) -> (r: Option<usize>)
        requires
            self.wf(),
        ensures
            match r {
                Some(i) => i < self.pending@.len() && (
                self.pending@[i as int].session_id,
                self.pending@[i as int].origin,
            ) == key,
                None => !self@.contains_key(key),
            },
    {
        let mut i: usize = 0;
        while i < self.pending.len()
            invariant
                i <= self.pending@.len(),
                forall|j: int|
                    0 <= j < i ==> (#[trigger] self.pending@[j].session_id,
                    self.pending@[j].origin) != key,
            decreases self.pending@.len() - i,
        {
            if self.pending[i].session_id == key.0 && self.pending[i].origin == key.1 {
                return Some(i);
            }
            i += 1;
        }
        None
    }

    fn remove_pending(&mut self, key: PendingKey) -> (r: Option<PendingMessage>)
        requires
            old(self).wf(),
        ensures
            final(self).wf(),
            final(self)@ == old(self)@.remove(key),
            final(self).id == old(self).id,
            final(self).kind == old(self).kind,
            final(self).session_counter == old(self).session_counter,
            r.is_some() == old(self)@.contains_key(key),
            r.is_some() ==> (r.unwrap().session_id, r.unwrap().origin) == key
                && old(self)@[key] == (r.unwrap().total, parts_map(r.unwrap().parts@)),
    {
        match self.find_pending(key) {
            Some(i) => {
                let ghost old_e = self.pending@;
                let entry = self.pending.remove(i);
                self.model = Ghost(self.model@.remove(key));
                proof {
                    let e = self.pending@;
                    assert forall|j: int| 0 <= j < e.len() implies (#[trigger] e[j].session_id,
                    e[j].origin) != key by {
                        if j < i {
                            assert(old_e[j] == e[j]);
                        } else {
                            assert(old_e[j + 1] == e[j]);
                        }
                    }
                    assert forall|k: PendingKey| #[trigger] self.model@.contains_key(k) implies exists|
                        j: int,
                    | 0 <= j < e.len() && (#[trigger] e[j].session_id, e[j].origin) == k by {
                        let j = choose|j: int|
                            0 <= j < old_e.len() && (#[trigger] old_e[j].session_id, old_e[j].origin)
                                == k;
                        if j < i {
                            assert((e[j].session_id, e[j].origin) == k);
                        } else {
                            assert((e[j - 1].session_id, e[j - 1].origin) == k);
                        }
                    }
                }
                Some(entry)
            },
            None => {
                assert(self.model@.remove(key) =~= self.model@);
                None
            },
        }
    }

    fn push_pending(&mut self, entry: PendingMessage)
        requires
            old(self).wf(),
            !old(self)@.contains_key((entry.session_id, entry.origin)),
        ensures
            final(self).wf(),
            final(self)@ == old(self)@.insert(
                (entry.session_id, entry.origin),
                (entry.total, parts_map(entry.parts@)),
            ),
            final(self).id == old(self).id,
            final(self).kind == old(self).kind,
            final(self).session_counter == old(self).session_counter,
    {
        let key = (entry.session_id, entry.origin);
        let ghost val = (entry.total, parts_map(entry.parts@));
        let ghost old_e = self.pending@;
        self.pending.push(entry);
        self.model = Ghost(self.model@.insert(key, val));
        proof {
            let e = self.pending@;
            assert forall|i: int, j: int|
                0 <= i < j < e.len() implies (#[trigger] e[i].session_id, e[i].origin) != (
            #[trigger] e[j].session_id,
            e[j].origin,
        ) by {
                if j == e.len() - 1 {
                    assert(old(self)@.contains_key((e[i].session_id, e[i].origin)));
                }
            }
            assert forall|k: PendingKey| #[trigger] self.model@.contains_key(k) implies exists|
                j: int,
            | 0 <= j < e.len() && (#[trigger] e[j].session_id, e[j].origin) == k by {
                if k == key {
                    assert((e[e.len() - 1].session_id, e[e.len() - 1].origin) == k);
                } else {
                    let j = choose|j: int|
                        0 <= j < old_e.len() && (#[trigger] old_e[j].session_id, old_e[j].origin)
                            == k;
                    assert((e[j].session_id, e[j].origin) == k);
                }
            }
        }
    }

    /// Adds one fragment of the message `(session_id, origin)` and returns the
    /// message's bytes once every fragment is there. A fragment whose index is
    /// not below its total, or whose total disagrees with the earlier
    /// fragments, is discarded. A repeated index replaces the earlier data.
    pub fn receive_bytes(&mut self, fragment: Fragment, session_id: u64, origin: NodeId) -> (r:
        Option<Vec<u8>>)
        requires
            old(self).wf(),
        ensures
            final(self).wf(),
            final(self).id == old(self).id,
            final(self).kind == old(self).kind,
            final(self).session_counter == old(self).session_counter,
            final(self)@ == pending_after(
                old(self)@,
                (session_id, origin),
                fragment.fragment_index,
                fragment.total_fragments,
                fragment.data@,
            ),
            match r {
                Some(b) => reassembled(
                    old(self)@,
                    (session_id, origin),
                    fragment.fragment_index,
                    fragment.total_fragments,
                    fragment.data@,
                ) == Some(b@),
                None => reassembled(
                    old(self)@,
                    (session_id, origin),
                    fragment.fragment_index,
                    fragment.total_fragments,
                    fragment.data@,
                ).is_none(),
            },
    {
        let key = (session_id, origin);
        let index = fragment.fragment_index;
        let total = fragment.total_fragments;
        if index >= total {
            return None;
        }
        let ghost data = fragment.data@;
        let mut entry = match self.remove_pending(key) {
            Some(e) => {
                if e.total != total {
                    proof {
                        assert(self@.insert(key, old(self)@[key]) =~= old(self)@);
                    }
                    self.push_pending(e);
                    return None;
                }
                e
            },
            None => PendingMessage { session_id, origin, total, parts: Vec::new() },
        };
        assert(parts_map(entry.parts@) == if old(self)@.contains_key(key) {
            old(self)@[key].1
        } else {
            Map::<u64, Seq<u8>>::empty()
        });
        let ghost before = entry.parts@;
        entry.parts.push((index, fragment.data));
        assert(entry.parts@.drop_last() =~= before);
        assert(parts_map(entry.parts@) == merged_parts(old(self)@, key, index, data));
        match assemble(&entry.parts, total) {
            Some(b) => {
                assert(self@ == old(self)@.remove(key));
                Some(b)
            },
            None => {
                self.push_pending(entry);
                None
            },
        }
    }

    /// Adds one fragment (see `receive_bytes`) and, once the message is
    /// complete, decodes it; bytes that are not the wire form of a client
    /// message give nothing.
    pub fn received_fragment(&mut self, fragment: Fragment, session_id: u64, origin: NodeId) -> (r:
        Option<Message>)
        requires
            old(self).wf(),
        ensures
            final(self).wf(),
            final(self).id == old(self).id,
            final(self).kind == old(self).kind,
            final(self).session_counter == old(self).session_counter,
            final(self)@ == pending_after(
                old(self)@,
                (session_id, origin),
                fragment.fragment_index,
                fragment.total_fragments,
                fragment.data@,
            ),
            ({
                let bytes = reassembled(
                    old(self)@,
                    (session_id, origin),
                    fragment.fragment_index,
                    fragment.total_fragments,
                    fragment.data@,
                );
                match r {
                    Some(m) => bytes.is_some() && m.session_id == session_id && m.source_id
                        == origin && m.destination_id == old(self).id && (match m.content {
                        MessageContent::FromClient(c) => decode_client(bytes.unwrap()) == Some(c@),
                        MessageContent::FromServer(_) => false,
                    }),
                    None => bytes.is_none() || decode_client(bytes.unwrap()).is_none(),
                }
            }),
    {
        match self.receive_bytes(fragment, session_id, origin) {
            Some(b) => match ClientMessage::decode(&b) {
                Some(c) => Some(
                    Message {
                        session_id,
                        source_id: origin,
                        destination_id: self.id,
                        content: MessageContent::FromClient(c),
                    },
                ),
                None => None,
            },
            None => None,
        }
    }
}

} // verus!
