use vstd::prelude::*;

use crate::protocol::{ConnectionId, PeerAddr, ValidUntil};

verus! {

/// One issued connection token: the id, the address it was issued to, and its deadline.
#[derive(Clone, Copy, Debug)]
pub struct ConnectionEntry {
    pub connection_id: ConnectionId,
    pub addr: PeerAddr,
    pub valid_until: ValidUntil,
}

impl ConnectionEntry {
    pub open spec fn key(self) -> (ConnectionId, PeerAddr) {
        (self.connection_id, self.addr)
    }
}

/// The connection tokens issued by one socket worker, keyed by `(connection id, address)`.
pub struct ConnectionMap {
    entries: Vec<ConnectionEntry>,
}

impl ConnectionMap {
    /// No key occurs twice.
    pub closed spec fn wf(&self) -> bool {
        forall|i: int, j: int|
            0 <= i < j < self.entries@.len() ==> #[trigger] self.entries@[i].key()
                != #[trigger] self.entries@[j].key()
    }

    pub closed spec fn has_key(&self, k: (ConnectionId, PeerAddr)) -> bool {
        exists|i: int| 0 <= i < self.entries@.len() && #[trigger] self.entries@[i].key() == k
    }

    /// The table as a map from key to deadline.
    pub closed spec fn view(&self) -> Map<(ConnectionId, PeerAddr), u64> {
        Map::new(
            |k: (ConnectionId, PeerAddr)| self.has_key(k),
            |k: (ConnectionId, PeerAddr)|
                self.entries@[choose|i: int|
                    0 <= i < self.entries@.len() && #[trigger] self.entries@[i].key() == k].valid_until.0,
        )
    }

    proof fn lemma_value_at(&self, i: int)
        requires
            self.wf(),
            0 <= i < self.entries@.len(),
        ensures
            self@.contains_key(self.entries@[i].key()),
            self@[self.entries@[i].key()] == self.entries@[i].valid_until.0,
    {
        let k = self.entries@[i].key();
        assert(self.has_key(k));
        let j = choose|j: int| 0 <= j < self.entries@.len() && #[trigger] self.entries@[j].key() == k;
        if i < j {
            assert(self.entries@[i].key() != self.entries@[j].key());
        } else if j < i {
            assert(self.entries@[j].key() != self.entries@[i].key());
        }
    }

    /// The entries of `m` whose deadline lies after `now`.
    pub open spec fn live_after(m: Map<(ConnectionId, PeerAddr), u64>, now: u64) -> Map<(ConnectionId, PeerAddr), u64> {
        Map::new(|k: (ConnectionId, PeerAddr)| m.contains_key(k) && m[k] > now, |k: (ConnectionId, PeerAddr)| m[k])
    }

    /// Whether a token was issued for this id to this address and not yet removed.
    pub fn contains(&self, connection_id: ConnectionId, socket_addr: PeerAddr) -> (r: bool)
        requires
            self.wf(),
        ensures
            r == self@.contains_key((connection_id, socket_addr)),
    {
        let mut i: usize = 0;
        while i < self.entries.len()
            invariant
                i <= self.entries@.len(),
                forall|j: int| 0 <= j < i ==> #[trigger] self.entries@[j].key() != (connection_id, socket_addr),
            decreases self.entries@.len() - i,
        {
            let e = &self.entries[i];
            if e.connection_id == connection_id && e.addr == socket_addr {
                proof {
                    assert(self.entries@[i as int].key() == (connection_id, socket_addr));
                    assert(self.has_key((connection_id, socket_addr)));
                }
                return true;
            }
            i = i + 1;
        }
        false
    }

    /// Records a token; an entry under the same key is replaced, so the newest deadline wins.
    pub fn insert(&mut self, connection_id: ConnectionId, socket_addr: PeerAddr, valid_until: ValidUntil)
        requires
            old(self).wf(),
        ensures
            final(self).wf(),
            final(self)@ == old(self)@.insert((connection_id, socket_addr), valid_until.0),
    {
        let entry = ConnectionEntry { connection_id: connection_id, addr: socket_addr, valid_until: valid_until };
        let mut i: usize = 0;
        while i < self.entries.len()
            invariant
                self.wf(),
                *self == *old(self),
                entry.key() == (connection_id, socket_addr),
                entry.valid_until == valid_until,
                i <= self.entries@.len(),
                forall|j: int| 0 <= j < i ==> #[trigger] self.entries@[j].key() != (connection_id, socket_addr),
            decreases self.entries@.len() - i,
        {
            let cur = &self.entries[i];
            assert(*cur == self.entries@[i as int]);
            let same_id = cur.connection_id == connection_id;
            let same_addr = cur.addr == socket_addr;
            if same_id && same_addr {
                let ghost pre = *self;
                self.entries.set(i, entry);
                proof {
                    assert(pre.entries@[i as int].key() == (connection_id, socket_addr));
                    assert(self.entries@[i as int] == entry);
                    assert forall|a: int, b: int| 0 <= a < b < self.entries@.len() implies
                        #[trigger] self.entries@[a].key() != #[trigger] self.entries@[b].key() by {
                        assert(entry.key() == (connection_id, socket_addr));
                        assert(self.entries@ == pre.entries@.update(i as int, entry));
                        assert(self.entries@[a].key() == pre.entries@[a].key());
                        assert(self.entries@[b].key() == pre.entries@[b].key());
                        assert(pre.entries@[a].key() != pre.entries@[b].key());
                    }
                    assert forall|q| #[trigger] self@.contains_key(q) <==> pre@.insert((connection_id, socket_addr), valid_until.0).contains_key(q) by {
                        if self.has_key(q) {
                            let j = choose|j: int| 0 <= j < self.entries@.len() && #[trigger] self.entries@[j].key() == q;
                            if j != i {
                                assert(pre.entries@[j].key() == q);
                                assert(pre.has_key(q));
                            }
                        }
                        if pre.has_key(q) && q != (connection_id, socket_addr) {
                            let j = choose|j: int| 0 <= j < pre.entries@.len() && #[trigger] pre.entries@[j].key() == q;
                            assert(self.entries@[j].key() == q);
                            assert(self.has_key(q));
                        }
                        if q == (connection_id, socket_addr) {
                            assert(self.entries@[i as int].key() == q);
                            assert(self.has_key(q));
                        }
                    }
                    assert forall|q| #[trigger] self@.contains_key(q) implies self@[q] == pre@.insert((connection_id, socket_addr), valid_until.0)[q] by {
                        let j = choose|j: int| 0 <= j < self.entries@.len() && #[trigger] self.entries@[j].key() == q;
                        self.lemma_value_at(j);
                        if j != i {
                            assert(pre.entries@[j] == self.entries@[j]);
                            pre.lemma_value_at(j);
                        }
                    }
                    assert(self@ =~= pre@.insert((connection_id, socket_addr), valid_until.0));
                }
                return;
            }
            i = i + 1;
        }
        let ghost pre = *self;
        self.entries.push(entry);
        proof {
            assert forall|a: int, b: int| 0 <= a < b < self.entries@.len() implies
                #[trigger] self.entries@[a].key() != #[trigger] self.entries@[b].key() by {
                if b < pre.entries@.len() {
                    assert(pre.entries@[a].key() != pre.entries@[b].key());
                } else {
                    assert(pre.entries@[a].key() != (connection_id, socket_addr));
                }
            }
            let last = pre.entries@.len() as int;
            assert forall|q| #[trigger] self@.contains_key(q) <==> pre@.insert((connection_id, socket_addr), valid_until.0).contains_key(q) by {
                if self.has_key(q) {
                    let j = choose|j: int| 0 <= j < self.entries@.len() && #[trigger] self.entries@[j].key() == q;
                    if j != last {
                        assert(pre.entries@[j].key() == q);
                        assert(pre.has_key(q));
                    }
                }
                if pre.has_key(q) {
                    let j = choose|j: int| 0 <= j < pre.entries@.len() && #[trigger] pre.entries@[j].key() == q;
                    assert(self.entries@[j].key() == q);
                    assert(self.has_key(q));
                }
                if q == (connection_id, socket_addr) {
                    assert(self.entries@[last].key() == q);
                    assert(self.has_key(q));
                }
            }
            assert forall|q| #[trigger] self@.contains_key(q) implies self@[q] == pre@.insert((connection_id, socket_addr), valid_until.0)[q] by {
                let j = choose|j: int| 0 <= j < self.entries@.len() && #[trigger] self.entries@[j].key() == q;
                self.lemma_value_at(j);
                if j != last {
                    assert(pre.entries@[j] == self.entries@[j]);
                    pre.lemma_value_at(j);
                }
            }
            assert(self@ =~= pre@.insert((connection_id, socket_addr), valid_until.0));
        }
    }

    /// Removes every entry whose deadline is not after `now`.
    pub fn clean(&mut self, now: u64)
        requires
            old(self).wf(),
        ensures
            final(self).wf(),
            final(self)@ == Self::live_after(old(self)@, now),
    {
        let ghost pre = *self;
        let mut kept: Vec<ConnectionEntry> = Vec::new();
        let ghost mut idxs: Seq<int> = Seq::empty();
        let mut i: usize = 0;
        while i < self.entries.len()
            invariant
                *self == pre,
                pre.wf(),
                i <= pre.entries@.len(),
                idxs.len() == kept@.len(),
                forall|j: int| 0 <= j < idxs.len() ==> 0 <= #[trigger] idxs[j] < i,
                forall|j: int| 0 <= j < idxs.len() ==> kept@[j] == pre.entries@[#[trigger] idxs[j]],
                forall|j: int| 0 <= j < idxs.len() ==> pre.entries@[#[trigger] idxs[j]].valid_until.0 > now,
                forall|a: int, b: int| 0 <= a < b < idxs.len() ==> #[trigger] idxs[a] < #[trigger] idxs[b],
                forall|m: int| 0 <= m < i && #[trigger] pre.entries@[m].valid_until.0 > now ==>
                    exists|j: int| 0 <= j < idxs.len() && idxs[j] == m,
            decreases pre.entries@.len() - i,
        {
            let e = self.entries[i];
            if e.valid_until.0 > now {
                kept.push(e);
                proof {
                    let ghost prev = idxs;
                    idxs = idxs.push(i as int);
                    assert(idxs[idxs.len() - 1] == i as int);
                    assert forall|m: int| 0 <= m <= i && #[trigger] pre.entries@[m].valid_until.0 > now implies
                        exists|j: int| 0 <= j < idxs.len() && idxs[j] == m by {
                        if m < i {
                            let j = choose|j: int| 0 <= j < prev.len() && prev[j] == m;
                            assert(idxs[j] == m);
                        } else {
                            assert(idxs[idxs.len() - 1] == m);
                        }
                    }
                }
            }
            i = i + 1;
        }
        self.entries = kept;
        proof {
            assert forall|a: int, b: int| 0 <= a < b < self.entries@.len() implies
                #[trigger] self.entries@[a].key() != #[trigger] self.entries@[b].key() by {
                assert(idxs[a] < idxs[b]);
                assert(pre.entries@[idxs[a]].key() != pre.entries@[idxs[b]].key());
            }
            let target = Self::live_after(pre@, now);
            assert forall|q| #[trigger] self@.contains_key(q) <==> target.contains_key(q) by {
                if self.has_key(q) {
                    let j = choose|j: int| 0 <= j < self.entries@.len() && #[trigger] self.entries@[j].key() == q;
                    pre.lemma_value_at(idxs[j]);
                }
                if target.contains_key(q) {
                    let m = choose|m: int| 0 <= m < pre.entries@.len() && #[trigger] pre.entries@[m].key() == q;
                    pre.lemma_value_at(m);
                    let j = choose|j: int| 0 <= j < idxs.len() && idxs[j] == m;
                    assert(self.entries@[j].key() == q);
                    assert(self.has_key(q));
                }
            }
            assert forall|q| #[trigger] self@.contains_key(q) implies self@[q] == target[q] by {
                let j = choose|j: int| 0 <= j < self.entries@.len() && #[trigger] self.entries@[j].key() == q;
                self.lemma_value_at(j);
                pre.lemma_value_at(idxs[j]);
            }
            assert(self@ =~= target);
        }
    }

    /// An empty table.
    pub fn new() -> (r: ConnectionMap)
        ensures
            r.wf(),
            r@ == Map::<(ConnectionId, PeerAddr), u64>::empty(),
    {
        let r = ConnectionMap { entries: Vec::new() };
        assert(r@ =~= Map::<(ConnectionId, PeerAddr), u64>::empty());
        r
    }

    /// Number of entries held.
    pub fn len(&self) -> (r: usize)
        requires
            self.wf(),
        ensures
            r == self@.len(),
    {
        proof {
            self.lemma_dom_len();
        }
        self.entries.len()
    }

    proof fn lemma_dom_len(&self)
        requires
            self.wf(),
        ensures
            self@.dom().finite(),
            self@.len() == self.entries@.len(),
        decreases self.entries@.len(),
    {
        let keys = self.entries@.map_values(|e: ConnectionEntry| e.key());
        assert forall|i: int, j: int| 0 <= i < keys.len() && 0 <= j < keys.len() && i != j
            implies keys[i] != keys[j] by {
            if i < j {
                assert(self.entries@[i].key() != self.entries@[j].key());
            } else {
                assert(self.entries@[j].key() != self.entries@[i].key());
            }
        }
        assert(keys.no_duplicates());
        keys.unique_seq_to_set();
        assert forall|k| #[trigger] self@.dom().contains(k) <==> keys.to_set().contains(k) by {
            if self@.dom().contains(k) {
                let i = choose|i: int| 0 <= i < self.entries@.len() && #[trigger] self.entries@[i].key() == k;
                assert(keys[i] == k);
            }
            if keys.to_set().contains(k) {
                let i = choose|i: int| 0 <= i < keys.len() && keys[i] == k;
                assert(self.entries@[i].key() == k);
            }
        }
        assert(self@.dom() =~= keys.to_set());
    }
}

impl Default for ConnectionMap {
    fn default() -> (r: ConnectionMap)
        ensures
            r.wf(),
            r@ == Map::<(ConnectionId, PeerAddr), u64>::empty(),
    {
        ConnectionMap::new()
    }
}

} // verus!
