use vstd::prelude::*;
use crate::packet::{Packet, PacketModel};

verus! {

/// Key of a cached fragment: its session and fragment index.
pub type CacheKey = (u64, u64);

/// The key under which a packet is cached.
pub open spec fn key_of(p: PacketModel) -> CacheKey {
    (p.session_id, match p.body.index() {
        Some(i) => i,
        None => 0u64,
    })
}

/// The NACK count after one more NACK.
pub open spec fn bumped(c: u64) -> u64 {
    if c < u64::MAX {
        (c + 1) as u64
    } else {
        c
    }
}

pub struct CacheEntry {
    pub session_id: u64,
    pub fragment_index: u64,
    pub packet: Packet,
    pub nack_count: u64,
}

/// Outbound fragments awaiting their ack, each with the number of NACKs seen.
pub struct PacketCache {
    entries: Vec<CacheEntry>,
    model: Ghost<Map<CacheKey, (PacketModel, u64)>>,
}

impl View for PacketCache {
    type V = Map<CacheKey, (PacketModel, u64)>;

    closed spec fn view(&self) -> Map<CacheKey, (PacketModel, u64)> {
        self.model@
    }
}

impl PacketCache {
    /// Every stored packet is filed under its own key.
    pub open spec fn keyed(m: Map<CacheKey, (PacketModel, u64)>) -> bool {
        forall|k: CacheKey| #[trigger] m.contains_key(k) ==> key_of(m[k].0) == k
    }

    pub closed spec fn wf(&self) -> bool {
        let e = self.entries@;
        &&& forall|i: int, j: int|
            0 <= i < j < e.len() ==> (#[trigger] e[i].session_id, e[i].fragment_index) != (
            #[trigger] e[j].session_id,
            e[j].fragment_index,
        )
        &&& forall|i: int|
            0 <= i < e.len() ==> {
                let k = (#[trigger] e[i].session_id, e[i].fragment_index);
                &&& self.model@.contains_key(k)
                &&& self.model@[k] == (e[i].packet@, e[i].nack_count)
                &&& key_of(e[i].packet@) == k
            }
        &&& forall|k: CacheKey| #[trigger]
            self.model@.contains_key(k) ==> exists|i: int|
                0 <= i < e.len() && (#[trigger] e[i].session_id, e[i].fragment_index) == k
    }

    pub proof fn lemma_keyed(&self)
        requires
            self.wf(),
        ensures
            Self::keyed(self@),
    {
        assert forall|k: CacheKey| #[trigger] self@.contains_key(k) implies key_of(self@[k].0)
            == k by {
            let i = choose|i: int|
                0 <= i < self.entries@.len() && (
                #[trigger] self.entries@[i].session_id,
                self.entries@[i].fragment_index,
            ) == k;
        }
    }

    pub fn new() -> (r: PacketCache)
        ensures
            r.wf(),
            r@ == Map::<CacheKey, (PacketModel, u64)>::empty(),
    {
        PacketCache { entries: Vec::new(), model: Ghost(Map::empty()) }
    }

    /// Position of the entry under `key`, if any.
    fn find(&self, key: CacheKey) -> (r: Option<usize>)
        requires
            self.wf(),
        ensures
            match r {
                Some(i) => i < self.entries@.len() && (
                self.entries@[i as int].session_id,
                self.entries@[i as int].fragment_index,
            ) == key,
                None => !self@.contains_key(key),
            },
    {
        let mut i: usize = 0;
        while i < self.entries.len()
            invariant
                i <= self.entries@.len(),
                forall|j: int|
                    0 <= j < i ==> (#[trigger] self.entries@[j].session_id,
                    self.entries@[j].fragment_index) != key,
            decreases self.entries@.len() - i,
        {
            if self.entries[i].session_id == key.0 && self.entries[i].fragment_index == key.1 {
                return Some(i);
            }
            i += 1;
        }
        None
    }

    /// Stores `packet` under its key; an earlier entry there is replaced and
    /// its NACK count starts again from zero.
    pub fn insert_packet(&mut self, packet: Packet)
        requires
            old(self).wf(),
        ensures
            final(self).wf(),
            final(self)@ == old(self)@.insert(key_of(packet@), (packet@, 0u64)),
    {
        let key = (packet.session_id, packet.get_fragment_index());
        let ghost pm = packet@;
        let entry = CacheEntry {
            session_id: key.0,
            fragment_index: key.1,
            packet,
            nack_count: 0,
        };
        let idx: usize = match self.find(key) {
            Some(i) => {
                self.entries.set(i, entry);
                i
            },
            None => {
                self.entries.push(entry);
                self.entries.len() - 1
            },
        };
        self.model = Ghost(self.model@.insert(key, (pm, 0u64)));
        proof {
            let e = self.entries@;
            assert((e[idx as int].session_id, e[idx as int].fragment_index) == key);
            assert forall|k: CacheKey| #[trigger] self.model@.contains_key(k) implies exists|
                i: int,
            | 0 <= i < e.len() && (#[trigger] e[i].session_id, e[i].fragment_index) == k by {
                if k != key {
                    let j = choose|j: int|
                        0 <= j < old(self).entries@.len() && (
                        #[trigger] old(self).entries@[j].session_id,
                        old(self).entries@[j].fragment_index,
                    ) == k;
                    assert((e[j].session_id, e[j].fragment_index) == k);
                } else {
                    assert((e[idx as int].session_id, e[idx as int].fragment_index) == k);
                }
            }
        }
    }

    /// Removes and returns the packet under `key` (an ack arrived for it).
    pub fn take_packet(&mut self, key: CacheKey) -> (r: Option<Packet>)
        requires
            old(self).wf(),
        ensures
            final(self).wf(),
            final(self)@ == old(self)@.remove(key),
            r.is_some() == old(self)@.contains_key(key),
            r.is_some() ==> r.unwrap()@ == old(self)@[key].0 && key_of(r.unwrap()@) == key,
    {
        match self.find(key) {
            Some(i) => {
                let ghost old_e = self.entries@;
                let entry = self.entries.remove(i);
                self.model = Ghost(self.model@.remove(key));
                proof {
                    let e = self.entries@;
                    assert forall|j: int| 0 <= j < e.len() implies (#[trigger] e[j].session_id,
                    e[j].fragment_index) != key by {
                        if j < i {
                            assert(old_e[j] == e[j]);
                        } else {
                            assert(old_e[j + 1] == e[j]);
                        }
                    }
                    assert forall|k: CacheKey| #[trigger] self.model@.contains_key(k) implies exists|
                        j: int,
                    | 0 <= j < e.len() && (#[trigger] e[j].session_id, e[j].fragment_index) == k by {
                        let j = choose|j: int|
                            0 <= j < old_e.len() && (
                            #[trigger] old_e[j].session_id,
                            old_e[j].fragment_index,
                        ) == k;
                        if j < i {
                            assert((e[j].session_id, e[j].fragment_index) == k);
                        } else {
                            assert((e[j - 1].session_id, e[j - 1].fragment_index) == k);
                        }
                    }
                }
                Some(entry.packet)
            },
            None => {
                proof {
                    assert(self.model@.remove(key) =~= self.model@);
                }
                None
            },
        }
    }

    /// Counts one more NACK for the packet under `key`, and returns a copy of
    /// that packet with the count after the increment.
    pub fn get_value(&mut self, key: CacheKey) -> (r: Option<(Packet, u64)>)
        requires
            old(self).wf(),
        ensures
            final(self).wf(),
            r.is_some() == old(self)@.contains_key(key),
            r.is_none() ==> final(self)@ == old(self)@,
            r.is_some() ==> {
                let (p, c) = r.unwrap();
                &&& p@ == old(self)@[key].0
                &&& c == bumped(old(self)@[key].1)
                &&& final(self)@ == old(self)@.insert(key, (p@, c))
                &&& key_of(p@) == key
            },
    {
        match self.find(key) {
            Some(i) => {
                let count = if self.entries[i].nack_count < u64::MAX {
                    self.entries[i].nack_count + 1
                } else {
                    self.entries[i].nack_count
                };
                let copy = self.entries[i].packet.duplicate();
                let ghost old_e = self.entries@;
                let entry = CacheEntry {
                    session_id: key.0,
                    fragment_index: key.1,
                    packet: copy.duplicate(),
                    nack_count: count,
                };
                self.entries.set(i, entry);
                self.model = Ghost(self.model@.insert(key, (copy@, count)));
                proof {
                    let e = self.entries@;
                    assert forall|k: CacheKey| #[trigger] self.model@.contains_key(k) implies exists|
                        j: int,
                    | 0 <= j < e.len() && (#[trigger] e[j].session_id, e[j].fragment_index) == k by {
                        let j = choose|j: int|
                            0 <= j < old_e.len() && (
                            #[trigger] old_e[j].session_id,
                            old_e[j].fragment_index,
                        ) == k;
                        assert((e[j].session_id, e[j].fragment_index) == k);
                    }
                }
                Some((copy, count))
            },
            None => None,
        }
    }
}

} // verus!
