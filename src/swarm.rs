use vstd::prelude::*;

use rand::rngs::StdRng;

use crate::network::{random_u64, same_info_hash};
use crate::protocol::{
    AnnounceEvent, AnnounceRequest, AnnounceResponse, IndexedStats, InfoHash, PeerAddr, PeerId,
    PendingScrapeRequest, PendingScrapeResponse, TorrentScrapeStatistics, ValidUntil,
};

verus! {

/// A peer of a swarm as its request worker keeps it.
#[derive(Clone, Copy, Debug)]
pub struct PeerEntry {
    pub peer_id: PeerId,
    pub addr: PeerAddr,
    pub is_seeder: bool,
    pub valid_until: ValidUntil,
}

/// The peers of one info-hash and how many downloads completed in it.
#[derive(Clone, Debug)]
pub struct Swarm {
    pub info_hash: InfoHash,
    pub peers: Vec<PeerEntry>,
    pub num_completed: i32,
}

/// Number of seeders among `peers`.
pub open spec fn seeders_in(peers: Seq<PeerEntry>) -> nat {
    peers.filter(|p: PeerEntry| p.is_seeder).len()
}

/// Number of leechers among `peers`.
pub open spec fn leechers_in(peers: Seq<PeerEntry>) -> nat {
    peers.filter(|p: PeerEntry| !p.is_seeder).len()
}

/// A count as the wire carries it, capped at the largest `i32`.
pub open spec fn capped(n: nat) -> i32 {
    if n > i32::MAX as nat { i32::MAX } else { n as i32 }
}

/// The scrape figures of a swarm.
pub open spec fn swarm_stats(s: Swarm) -> TorrentScrapeStatistics {
    TorrentScrapeStatistics {
        seeders: capped(seeders_in(s.peers@)),
        completed: s.num_completed,
        leechers: capped(leechers_in(s.peers@)),
    }
}

/// The figures of an info-hash no swarm holds.
pub open spec fn zero_stats() -> TorrentScrapeStatistics {
    TorrentScrapeStatistics { seeders: 0, completed: 0, leechers: 0 }
}

/// Whether some swarm of `swarms` is for the info-hash `h`.
pub open spec fn holds_swarm(swarms: Seq<Swarm>, h: InfoHash) -> bool {
    exists|i: int| 0 <= i < swarms.len() && (#[trigger] swarms[i]).info_hash.0@ == h.0@
}

/// The scrape figures of `h` in `swarms`; zero where no swarm holds it.
pub open spec fn stats_of(swarms: Seq<Swarm>, h: InfoHash) -> TorrentScrapeStatistics {
    if holds_swarm(swarms, h) {
        swarm_stats(swarms[choose|i: int| 0 <= i < swarms.len() && (#[trigger] swarms[i]).info_hash.0@ == h.0@])
    } else {
        zero_stats()
    }
}

/// Whether an address is IPv4.
pub open spec fn is_v4(a: PeerAddr) -> bool {
    a is V4
}

/// Whether a peer entry is the one for `peer_id` in the family of `addr`: a swarm keeps one
/// entry per peer id and address family.
pub open spec fn same_peer(p: PeerEntry, peer_id: PeerId, addr: PeerAddr) -> bool {
    p.peer_id.0@ == peer_id.0@ && is_v4(p.addr) == is_v4(addr)
}

/// No peer has two entries.
pub open spec fn peers_unique(peers: Seq<PeerEntry>) -> bool {
    forall|i: int, j: int|
        0 <= i < j < peers.len() ==> !same_peer(#[trigger] peers[i], (#[trigger] peers[j]).peer_id, peers[j].addr)
}

/// Whether `peers` has an entry for `peer_id` in the family of `addr`.
pub open spec fn has_peer(peers: Seq<PeerEntry>, peer_id: PeerId, addr: PeerAddr) -> bool {
    exists|k: int| 0 <= k < peers.len() && same_peer(#[trigger] peers[k], peer_id, addr)
}

/// The position of the entry for `peer_id` in the family of `addr`.
pub open spec fn peer_index(peers: Seq<PeerEntry>, peer_id: PeerId, addr: PeerAddr) -> int {
    choose|k: int| 0 <= k < peers.len() && same_peer(#[trigger] peers[k], peer_id, addr)
}

/// The peer list after an announce: a stopping peer's entry is removed; otherwise the
/// peer's entry is replaced by `entry`, or added at the end.
pub open spec fn peers_after(peers: Seq<PeerEntry>, entry: PeerEntry, stopped: bool) -> Seq<PeerEntry> {
    if has_peer(peers, entry.peer_id, entry.addr) {
        let k = peer_index(peers, entry.peer_id, entry.addr);
        if stopped { peers.remove(k) } else { peers.update(k, entry) }
    } else {
        if stopped { peers } else { peers.push(entry) }
    }
}

/// The addresses an announce reply may list for a requester: other peers of its family.
pub open spec fn candidates(peers: Seq<PeerEntry>, peer_id: PeerId, addr: PeerAddr) -> Seq<PeerAddr> {
    peers.filter(|p: PeerEntry| !same_peer(p, peer_id, addr) && is_v4(p.addr) == is_v4(addr)).map_values(
        |p: PeerEntry| p.addr,
    )
}

/// At most the first `n` items of `s`.
pub open spec fn at_most(s: Seq<PeerAddr>, n: nat) -> Seq<PeerAddr> {
    if s.len() <= n { s } else { s.take(n as int) }
}

/// How many peers an announce reply lists: what the request wants, capped by `max_peers`;
/// a request that wants none or a negative number gets `max_peers`.
pub open spec fn peers_to_send(peers_wanted: i32, max_peers: usize) -> nat {
    if peers_wanted <= 0 || peers_wanted as int > max_peers as int { max_peers as nat } else { peers_wanted as nat }
}

/// The address a peer is reached at: the datagram's source with the announced port.
pub open spec fn with_port(addr: PeerAddr, port: u16) -> PeerAddr {
    match addr {
        PeerAddr::V4 { ipv4, .. } => PeerAddr::V4 { ipv4, port },
        PeerAddr::V6 { ipv6, .. } => PeerAddr::V6 { ipv6, port },
    }
}

/// `peers` turned so that it starts at position `offset`.
pub open spec fn rotated(peers: Seq<PeerEntry>, offset: int) -> Seq<PeerEntry> {
    peers.skip(offset) + peers.take(offset)
}

/// A copy of `peers` turned so that it starts at position `offset`.
pub fn rotate_peers(peers: &Vec<PeerEntry>, offset: usize) -> (r: Vec<PeerEntry>)
    requires
        offset <= peers@.len(),
    ensures
        r@ == rotated(peers@, offset as int),
{
    let mut out: Vec<PeerEntry> = Vec::new();
    let mut i: usize = offset;
    while i < peers.len()
        invariant
            offset <= i <= peers@.len(),
            out@ == peers@.subrange(offset as int, i as int),
        decreases peers@.len() - i,
    {
        out.push(peers[i]);
        assert(out@ =~= peers@.subrange(offset as int, i as int + 1));
        i = i + 1;
    }
    let mut k: usize = 0;
    while k < offset
        invariant
            k <= offset <= peers@.len(),
            out@ == peers@.skip(offset as int) + peers@.take(k as int),
        decreases offset - k,
    {
        out.push(peers[k]);
        assert(out@ =~= peers@.skip(offset as int) + peers@.take(k as int + 1));
        k = k + 1;
    }
    out
}

/// Picks the peers an announce reply lists: the first `n` other peers of the requester's
/// family, in table order.
pub fn select_peers(peers: &Vec<PeerEntry>, peer_id: &PeerId, addr: PeerAddr, n: usize) -> (r: Vec<PeerAddr>)
    ensures
        r@ == at_most(candidates(peers@, *peer_id, addr), n as nat),
{
    let mut out: Vec<PeerAddr> = Vec::new();
    let mut i: usize = 0;
    while i < peers.len() && out.len() < n
        invariant
            i <= peers@.len(),
            out@ == at_most(candidates(peers@.take(i as int), *peer_id, addr), n as nat),
        decreases peers@.len() - i,
    {
        let p = peers[i];
        let ghost pred = |q: PeerEntry| !same_peer(q, *peer_id, addr) && is_v4(q.addr) == is_v4(addr);
        let ghost pre = peers@.take(i as int);
        proof {
            assert(peers@.take(i as int + 1) =~= pre.push(p));
            pre.lemma_filter_push(p, pred);
            assert(pre.push(p).filter(pred).map_values(|q: PeerEntry| q.addr) =~= if pred(p) {
                pre.filter(pred).map_values(|q: PeerEntry| q.addr).push(p.addr)
            } else {
                pre.filter(pred).map_values(|q: PeerEntry| q.addr)
            });
        }
        let same_id = same_peer_id(&p.peer_id, peer_id);
        let same_family = addr_is_v4(p.addr) == addr_is_v4(addr);
        if !(same_id && same_family) && same_family {
            out.push(p.addr);
            proof {
                let c = candidates(pre, *peer_id, addr);
                assert(out@ =~= at_most(c.push(p.addr), n as nat));
            }
        } else {
            assert(out@ =~= at_most(candidates(peers@.take(i as int + 1), *peer_id, addr), n as nat));
        }
        i = i + 1;
    }
    proof {
        if i == peers@.len() {
            assert(peers@.take(i as int) =~= peers@);
        } else {
            lemma_at_most_full(peers@, i as int, *peer_id, addr, n as nat);
        }
    }
    out
}

proof fn lemma_at_most_full(peers: Seq<PeerEntry>, i: int, peer_id: PeerId, addr: PeerAddr, n: nat)
    requires
        0 <= i <= peers.len(),
        candidates(peers.take(i), peer_id, addr).len() >= n,
    ensures
        at_most(candidates(peers.take(i), peer_id, addr), n) == at_most(candidates(peers, peer_id, addr), n),
    decreases peers.len() - i,
{
    if i < peers.len() {
        let pred = |q: PeerEntry| !same_peer(q, peer_id, addr) && is_v4(q.addr) == is_v4(addr);
        let pre = peers.take(i);
        assert(peers.take(i + 1) =~= pre.push(peers[i]));
        pre.lemma_filter_push(peers[i], pred);
        let c = candidates(pre, peer_id, addr);
        let c2 = candidates(peers.take(i + 1), peer_id, addr);
        assert(c2 =~= if pred(peers[i]) { c.push(peers[i].addr) } else { c });
        assert(at_most(c2, n) =~= at_most(c, n));
        lemma_at_most_full(peers, i + 1, peer_id, addr, n);
    } else {
        assert(peers.take(i) =~= peers);
    }
}

/// Applies an announce to a swarm's peer list, as `peers_after` describes.
pub fn update_peers(peers: &mut Vec<PeerEntry>, entry: PeerEntry, stopped: bool)
    requires
        peers_unique(old(peers)@),
    ensures
        peers_unique(final(peers)@),
        final(peers)@ == peers_after(old(peers)@, entry, stopped),
{
    let ghost pre = peers@;
    let mut k: usize = 0;
    while k < peers.len()
        invariant
            peers@ == pre,
            pre == old(peers)@,
            peers_unique(pre),
            k <= pre.len(),
            forall|m: int| 0 <= m < k ==> !same_peer(#[trigger] pre[m], entry.peer_id, entry.addr),
        decreases pre.len() - k,
    {
        let p = peers[k];
        if same_peer_id(&p.peer_id, &entry.peer_id) && addr_is_v4(p.addr) == addr_is_v4(entry.addr) {
            proof {
                assert(same_peer(pre[k as int], entry.peer_id, entry.addr));
                assert(has_peer(pre, entry.peer_id, entry.addr));
                let c = peer_index(pre, entry.peer_id, entry.addr);
                if c < k {
                } else if c > k {
                    assert(!same_peer(pre[k as int], pre[c].peer_id, pre[c].addr));
                }
                assert(c == k);
            }
            if stopped {
                peers.remove(k);
                proof {
                    assert forall|a: int, b: int| 0 <= a < b < peers@.len() implies
                        !same_peer(#[trigger] peers@[a], (#[trigger] peers@[b]).peer_id, peers@[b].addr) by {
                        let a2 = if a < k { a } else { a + 1 };
                        let b2 = if b < k { b } else { b + 1 };
                        assert(peers@[a] == pre[a2]);
                        assert(peers@[b] == pre[b2]);
                    }
                }
            } else {
                peers.set(k, entry);
                proof {
                    assert forall|a: int, b: int| 0 <= a < b < peers@.len() implies
                        !same_peer(#[trigger] peers@[a], (#[trigger] peers@[b]).peer_id, peers@[b].addr) by {
                        assert(!same_peer(pre[a], pre[b].peer_id, pre[b].addr));
                    }
                }
            }
            return;
        }
        k = k + 1;
    }
    if !stopped {
        peers.push(entry);
        proof {
            assert forall|a: int, b: int| 0 <= a < b < peers@.len() implies
                !same_peer(#[trigger] peers@[a], (#[trigger] peers@[b]).peer_id, peers@[b].addr) by {
                if b < pre.len() {
                    assert(!same_peer(pre[a], pre[b].peer_id, pre[b].addr));
                } else {
                    assert(peers@[a] == pre[a]);
                }
            }
        }
    }
}

/// Whether an address is IPv4.
pub fn addr_is_v4(a: PeerAddr) -> (r: bool)
    ensures
        r == is_v4(a),
{
    match a {
        PeerAddr::V4 { .. } => true,
        PeerAddr::V6 { .. } => false,
    }
}

/// Whether two peer ids hold the same bytes.
pub fn same_peer_id(a: &PeerId, b: &PeerId) -> (r: bool)
    ensures
        r == (a.0@ == b.0@),
{
    let mut k: usize = 0;
    while k < 20
        invariant
            k <= 20,
            forall|m: int| 0 <= m < k ==> a.0@[m] == b.0@[m],
        decreases 20 - k,
    {
        if a.0[k] != b.0[k] {
            return false;
        }
        k = k + 1;
    }
    assert(a.0@ =~= b.0@);
    true
}

/// Counts seeders and leechers of a peer list.
pub fn count_peers(peers: &Vec<PeerEntry>) -> (r: (i32, i32))
    ensures
        r.0 == capped(seeders_in(peers@)),
        r.1 == capped(leechers_in(peers@)),
{
    let mut seeders: usize = 0;
    let mut leechers: usize = 0;
    let mut i: usize = 0;
    while i < peers.len()
        invariant
            i <= peers@.len(),
            seeders == seeders_in(peers@.take(i as int)),
            leechers == leechers_in(peers@.take(i as int)),
            seeders + leechers == i,
        decreases peers@.len() - i,
    {
        let ghost pre = peers@.take(i as int);
        proof {
            assert(peers@.take(i as int + 1) =~= pre.push(peers@[i as int]));
            pre.lemma_filter_push(peers@[i as int], |p: PeerEntry| p.is_seeder);
            pre.lemma_filter_push(peers@[i as int], |p: PeerEntry| !p.is_seeder);
        }
        if peers[i].is_seeder {
            seeders = seeders + 1;
        } else {
            leechers = leechers + 1;
        }
        i = i + 1;
    }
    proof {
        assert(peers@.take(peers@.len() as int) =~= peers@);
    }
    let s = if seeders > i32::MAX as usize { i32::MAX } else { seeders as i32 };
    let l = if leechers > i32::MAX as usize { i32::MAX } else { leechers as i32 };
    (s, l)
}

/// The swarms of one request worker's shard, at most one per info-hash.
pub struct SwarmStore {
    swarms: Vec<Swarm>,
}

impl SwarmStore {
    /// No info-hash has two swarms, and no peer two entries in a swarm.
    pub closed spec fn wf(&self) -> bool {
        &&& forall|i: int, j: int|
            0 <= i < j < self.swarms@.len() ==> (#[trigger] self.swarms@[i]).info_hash.0@
                != (#[trigger] self.swarms@[j]).info_hash.0@
        &&& forall|i: int| 0 <= i < self.swarms@.len() ==> peers_unique((#[trigger] self.swarms@[i]).peers@)
    }

    /// The swarms held.
    pub closed spec fn view(&self) -> Seq<Swarm> {
        self.swarms@
    }

    /// A store with no swarms.
    pub fn new() -> (r: SwarmStore)
        ensures
            r.wf(),
            r@ == Seq::<Swarm>::empty(),
    {
        SwarmStore { swarms: Vec::new() }
    }

    fn find(&self, info_hash: &InfoHash) -> (r: Option<usize>)
        requires
            self.wf(),
        ensures
            r matches Some(j) ==> j < self@.len() && self@[j as int].info_hash.0@ == info_hash.0@
                && stats_of(self@, *info_hash) == swarm_stats(self@[j as int]),
            r is None ==> !holds_swarm(self@, *info_hash),
    {
        let mut i: usize = 0;
        while i < self.swarms.len()
            invariant
                self.wf(),
                i <= self.swarms@.len(),
                forall|j: int| 0 <= j < i ==> (#[trigger] self.swarms@[j]).info_hash.0@ != info_hash.0@,
            decreases self.swarms@.len() - i,
        {
            if same_info_hash(&self.swarms[i].info_hash, info_hash) {
                proof {
                    assert(holds_swarm(self@, *info_hash));
                    let c = choose|c: int| 0 <= c < self@.len() && (#[trigger] self@[c]).info_hash.0@ == info_hash.0@;
                    if c < i {
                    } else if c > i {
                        assert(self.swarms@[i as int].info_hash.0@ != self.swarms@[c].info_hash.0@);
                    }
                }
                return Some(i);
            }
            i = i + 1;
        }
        None
    }

    /// The scrape figures of one info-hash; zero when no swarm holds it.
    pub fn stats(&self, info_hash: &InfoHash) -> (r: TorrentScrapeStatistics)
        requires
            self.wf(),
        ensures
            r == stats_of(self@, *info_hash),
    {
        match self.find(info_hash) {
            Some(j) => {
                let (seeders, leechers) = count_peers(&self.swarms[j].peers);
                TorrentScrapeStatistics { seeders, completed: self.swarms[j].num_completed, leechers }
            },
            None => TorrentScrapeStatistics { seeders: 0, completed: 0, leechers: 0 },
        }
    }

    /// This shard's part of a scrape: the figures of each requested info-hash, under its
    /// position in the client's request.
    pub fn handle_scrape(&self, request: &PendingScrapeRequest) -> (r: PendingScrapeResponse)
        requires
            self.wf(),
        ensures
            r.transaction_id == request.transaction_id,
            r.torrent_stats@.len() == request.info_hashes@.len(),
            forall|i: int| 0 <= i < r.torrent_stats@.len() ==> {
                &&& (#[trigger] r.torrent_stats@[i]).index == request.info_hashes@[i].index
                &&& r.torrent_stats@[i].stats == stats_of(self@, request.info_hashes@[i].info_hash)
            },
    {
        let mut out: Vec<IndexedStats> = Vec::new();
        let mut i: usize = 0;
        while i < request.info_hashes.len()
            invariant
                self.wf(),
                i <= request.info_hashes@.len(),
                out@.len() == i,
                forall|k: int| 0 <= k < i ==> {
                    &&& (#[trigger] out@[k]).index == request.info_hashes@[k].index
                    &&& out@[k].stats == stats_of(self@, request.info_hashes@[k].info_hash)
                },
            decreases request.info_hashes@.len() - i,
        {
            let item = request.info_hashes[i];
            let stats = self.stats(&item.info_hash);
            out.push(IndexedStats { index: item.index, stats });
            i = i + 1;
        }
        PendingScrapeResponse { transaction_id: request.transaction_id, torrent_stats: out }
    }

    /// Applies an announce from `src` and answers it. The requester's entry (one per peer
    /// id and address family, reached at `src` with the announced port, a seeder when it
    /// has nothing left to download) is replaced or added, or removed when it stops; a
    /// swarm is created for an info-hash on its first announce that does not stop. The
    /// reply counts the swarm's seeders and leechers after the change and lists other peers
    /// of the requester's family, as many as `peers_to_send` allows: a run of them from a
    /// randomly chosen starting point in the swarm's peer list.
    pub fn handle_announce(
        &mut self,
        rng: &mut StdRng,
        request: &AnnounceRequest,
        src: PeerAddr,
        valid_until: ValidUntil,
        max_peers: usize,
        announce_interval: i32,
    ) -> (r: AnnounceResponse)
        requires
            old(self).wf(),
        ensures
            final(self).wf(),
            r.transaction_id == request.transaction_id,
            r.announce_interval == announce_interval,
            ({
                let entry = PeerEntry {
                    peer_id: request.peer_id,
                    addr: with_port(src, request.port),
                    is_seeder: request.bytes_left == 0,
                    valid_until,
                };
                let stopped = request.event == AnnounceEvent::Stopped;
                let completed = request.event == AnnounceEvent::Completed;
                let n = peers_to_send(request.peers_wanted, max_peers);
                if holds_swarm(old(self)@, request.info_hash) {
                    let j = choose|i: int| 0 <= i < old(self)@.len()
                        && (#[trigger] old(self)@[i]).info_hash.0@ == request.info_hash.0@;
                    let before = old(self)@[j];
                    let peers = peers_after(before.peers@, entry, stopped);
                    &&& final(self)@.len() == old(self)@.len()
                    &&& forall|i: int| 0 <= i < old(self)@.len() && i != j ==> #[trigger] final(self)@[i] == old(self)@[i]
                    &&& final(self)@[j].info_hash == before.info_hash
                    &&& final(self)@[j].peers@ == peers
                    &&& final(self)@[j].num_completed == if completed && before.num_completed < i32::MAX {
                        before.num_completed + 1
                    } else {
                        before.num_completed as int
                    }
                    &&& r.seeders == capped(seeders_in(peers))
                    &&& r.leechers == capped(leechers_in(peers))
                    &&& exists|o: int| 0 <= o <= peers.len()
                        && r.peers@ == at_most(candidates(rotated(peers, o), request.peer_id, entry.addr), n)
                } else if stopped {
                    &&& final(self)@ == old(self)@
                    &&& r.seeders == 0
                    &&& r.leechers == 0
                    &&& r.peers@.len() == 0
                } else {
                    let peers = seq![entry];
                    let last = old(self)@.len() as int;
                    &&& final(self)@.len() == old(self)@.len() + 1
                    &&& forall|i: int| 0 <= i < last ==> #[trigger] final(self)@[i] == old(self)@[i]
                    &&& final(self)@[last].info_hash == request.info_hash
                    &&& final(self)@[last].peers@ == peers
                    &&& final(self)@[last].num_completed == if completed { 1int } else { 0int }
                    &&& r.seeders == capped(seeders_in(peers))
                    &&& r.leechers == capped(leechers_in(peers))
                    &&& exists|o: int| 0 <= o <= peers.len()
                        && r.peers@ == at_most(candidates(rotated(peers, o), request.peer_id, entry.addr), n)
                }
            }),
    {
        let entry = PeerEntry {
            peer_id: request.peer_id,
            addr: with_port_of(src, request.port),
            is_seeder: request.bytes_left == 0,
            valid_until,
        };
        let stopped = request.event == AnnounceEvent::Stopped;
        let ghost pre = self.swarms@;
        let j = match self.find(&request.info_hash) {
            Some(j) => {
                proof {
                    assert(holds_swarm(pre, request.info_hash));
                    let c = choose|i: int| 0 <= i < pre.len() && (#[trigger] pre[i]).info_hash.0@ == request.info_hash.0@;
                    if c != j {
                        if c < j {
                            assert(pre[c].info_hash.0@ != pre[j as int].info_hash.0@);
                        } else {
                            assert(pre[j as int].info_hash.0@ != pre[c].info_hash.0@);
                        }
                    }
                }
                j
            },
            None => {
                if stopped {
                    return AnnounceResponse {
                        transaction_id: request.transaction_id,
                        announce_interval,
                        leechers: 0,
                        seeders: 0,
                        peers: Vec::new(),
                    };
                }
                self.swarms.push(Swarm { info_hash: request.info_hash, peers: Vec::new(), num_completed: 0 });
                proof {
                    assert forall|a: int, b: int| 0 <= a < b < self.swarms@.len() implies
                        (#[trigger] self.swarms@[a]).info_hash.0@ != (#[trigger] self.swarms@[b]).info_hash.0@ by {
                        if b == pre.len() {
                            assert(self.swarms@[a] == pre[a]);
                        } else {
                            assert(pre[a].info_hash.0@ != pre[b].info_hash.0@);
                        }
                    }
                    assert forall|a: int| 0 <= a < self.swarms@.len() implies
                        peers_unique((#[trigger] self.swarms@[a]).peers@) by {
                        if a < pre.len() {
                            assert(self.swarms@[a] == pre[a]);
                        }
                    }
                }
                self.swarms.len() - 1
            },
        };
        let ghost mid = self.swarms@;
        let mut swarm = self.swarms.remove(j);
        proof {
            assert(swarm == mid[j as int]);
            assert(peers_unique(swarm.peers@));
        }
        let ghost before = swarm;
        update_peers(&mut swarm.peers, entry, stopped);
        if request.event == AnnounceEvent::Completed && swarm.num_completed < i32::MAX {
            swarm.num_completed = swarm.num_completed + 1;
        }
        let (seeders, leechers) = count_peers(&swarm.peers);
        let n: usize = if request.peers_wanted <= 0 || request.peers_wanted as usize > max_peers {
            max_peers
        } else {
            request.peers_wanted as usize
        };
        let offset: usize = if swarm.peers.len() == 0 {
            0
        } else {
            (random_u64(rng) % (swarm.peers.len() as u64)) as usize
        };
        let turned = rotate_peers(&swarm.peers, offset);
        let peers = select_peers(&turned, &request.peer_id, entry.addr, n);
        self.swarms.insert(j, swarm);
        proof {
            assert(self.swarms@ =~= mid.update(j as int, swarm));
            assert forall|a: int, b: int| 0 <= a < b < self.swarms@.len() implies
                (#[trigger] self.swarms@[a]).info_hash.0@ != (#[trigger] self.swarms@[b]).info_hash.0@ by {
                assert(mid[a].info_hash.0@ != mid[b].info_hash.0@);
            }
            assert forall|a: int| 0 <= a < self.swarms@.len() implies
                peers_unique((#[trigger] self.swarms@[a]).peers@) by {
                if a != j {
                    assert(self.swarms@[a] == mid[a]);
                }
            }
            if !holds_swarm(pre, request.info_hash) {
                assert(peers_after(Seq::<PeerEntry>::empty(), entry, false) =~= seq![entry]);
            }
        }
        AnnounceResponse { transaction_id: request.transaction_id, announce_interval, leechers, seeders, peers }
    }
}

/// The address `addr` with its port replaced by `port`.
pub fn with_port_of(addr: PeerAddr, port: u16) -> (r: PeerAddr)
    ensures
        r == with_port(addr, port),
{
    match addr {
        PeerAddr::V4 { ipv4, .. } => PeerAddr::V4 { ipv4, port },
        PeerAddr::V6 { ipv6, .. } => PeerAddr::V6 { ipv6, port },
    }
}

/// The peers whose deadline lies after `now`.
pub open spec fn live_peers(peers: Seq<PeerEntry>, now: u64) -> Seq<PeerEntry> {
    peers.filter(|p: PeerEntry| p.valid_until.0 > now)
}

/// `s_new` is `s_old` with its expired peers removed.
pub open spec fn pruned_from(s_new: Swarm, s_old: Swarm, now: u64) -> bool {
    &&& s_new.info_hash == s_old.info_hash
    &&& s_new.peers@ == live_peers(s_old.peers@, now)
    &&& s_new.num_completed == s_old.num_completed
}

/// `s` is one of the swarms of `old` with its expired peers removed, and has peers left.
pub open spec fn pruned_from_one_of(s: Swarm, old: Seq<Swarm>, now: u64) -> bool {
    exists|j: int| 0 <= j < old.len() && pruned_from(s, #[trigger] old[j], now) && live_peers(old[j].peers@, now).len() > 0
}

/// Some swarm of `new` is `s` with its expired peers removed.
pub open spec fn kept_as_one_of(s: Swarm, new: Seq<Swarm>, now: u64) -> bool {
    exists|i: int| 0 <= i < new.len() && pruned_from(#[trigger] new[i], s, now)
}

/// The peers of a list whose deadline lies after `now`, in their order.
pub fn prune_peers(peers: &Vec<PeerEntry>, now: u64) -> (r: Vec<PeerEntry>)
    requires
        peers_unique(peers@),
    ensures
        r@ == live_peers(peers@, now),
        peers_unique(r@),
{
    let mut out: Vec<PeerEntry> = Vec::new();
    let ghost mut idx: Seq<int> = Seq::empty();
    let mut i: usize = 0;
    while i < peers.len()
        invariant
            i <= peers@.len(),
            peers_unique(peers@),
            out@ == live_peers(peers@.take(i as int), now),
            idx.len() == out@.len(),
            forall|k: int| 0 <= k < idx.len() ==> 0 <= #[trigger] idx[k] < i && out@[k] == peers@[idx[k]],
            forall|a: int, b: int| 0 <= a < b < idx.len() ==> #[trigger] idx[a] < #[trigger] idx[b],
        decreases peers@.len() - i,
    {
        let p = peers[i];
        let ghost pre = peers@.take(i as int);
        proof {
            assert(peers@.take(i as int + 1) =~= pre.push(p));
            pre.lemma_filter_push(p, |q: PeerEntry| q.valid_until.0 > now);
        }
        if p.valid_until.0 > now {
            out.push(p);
            proof {
                idx = idx.push(i as int);
            }
        }
        i = i + 1;
    }
    proof {
        assert(peers@.take(peers@.len() as int) =~= peers@);
        assert forall|a: int, b: int| 0 <= a < b < out@.len() implies
            !same_peer(#[trigger] out@[a], (#[trigger] out@[b]).peer_id, out@[b].addr) by {
            assert(idx[a] < idx[b]);
            assert(!same_peer(peers@[idx[a]], peers@[idx[b]].peer_id, peers@[idx[b]].addr));
        }
    }
    out
}

impl SwarmStore {
    /// Removes peers whose deadline is not after `now`, then swarms left without peers.
    #[verifier::rlimit(60)]
    pub fn clean(&mut self, now: u64)
        requires
            old(self).wf(),
        ensures
            final(self).wf(),
            forall|i: int| 0 <= i < final(self)@.len() ==> pruned_from_one_of(#[trigger] final(self)@[i], old(self)@, now),
            forall|j: int| 0 <= j < old(self)@.len() && live_peers((#[trigger] old(self)@[j]).peers@, now).len() > 0
                ==> kept_as_one_of(old(self)@[j], final(self)@, now),
    {
        let ghost pre = self.swarms@;
        let mut rest: Vec<Swarm> = Vec::new();
        std::mem::swap(&mut rest, &mut self.swarms);
        let mut kept: Vec<Swarm> = Vec::new();
        let ghost mut idx: Seq<int> = Seq::empty();
        while rest.len() > 0
            invariant
                rest@ == pre.take(rest@.len() as int),
                rest@.len() <= pre.len(),
                forall|a: int, b: int| 0 <= a < b < pre.len() ==> (#[trigger] pre[a]).info_hash.0@ != (#[trigger] pre[b]).info_hash.0@,
                forall|a: int| 0 <= a < pre.len() ==> peers_unique((#[trigger] pre[a]).peers@),
                idx.len() == kept@.len(),
                forall|k: int| 0 <= k < idx.len() ==> rest@.len() <= #[trigger] idx[k] < pre.len()
                    && pruned_from(kept@[k], pre[idx[k]], now) && live_peers(pre[idx[k]].peers@, now).len() > 0,
                forall|a: int, b: int| 0 <= a < b < idx.len() ==> #[trigger] idx[a] > #[trigger] idx[b],
                forall|a: int| 0 <= a < kept@.len() ==> peers_unique((#[trigger] kept@[a]).peers@),
                forall|j: int| rest@.len() <= j < pre.len() && live_peers((#[trigger] pre[j]).peers@, now).len() > 0
                    ==> exists|k: int| 0 <= k < idx.len() && idx[k] == j,
            decreases rest@.len(),
        {
            let ghost n = rest@.len() - 1;
            let swarm = rest.pop().unwrap();
            proof {
                assert(swarm == pre[n]);
                assert(rest@ =~= pre.take(n));
            }
            let peers = prune_peers(&swarm.peers, now);
            if peers.len() > 0 {
                let ghost prev = idx;
                kept.push(Swarm { info_hash: swarm.info_hash, peers, num_completed: swarm.num_completed });
                proof {
                    idx = idx.push(n);
                    assert forall|j: int| rest@.len() <= j < pre.len() && live_peers((#[trigger] pre[j]).peers@, now).len() > 0
                        implies exists|k: int| 0 <= k < idx.len() && idx[k] == j by {
                        if j == n {
                            assert(idx[idx.len() - 1] == j);
                        } else {
                            let k = choose|k: int| 0 <= k < prev.len() && prev[k] == j;
                            assert(idx[k] == j);
                        }
                    }
                }
            }
        }
        self.swarms = kept;
        proof {
            assert forall|a: int, b: int| 0 <= a < b < self.swarms@.len() implies
                (#[trigger] self.swarms@[a]).info_hash.0@ != (#[trigger] self.swarms@[b]).info_hash.0@ by {
                assert(idx[a] > idx[b]);
                assert(pre[idx[b]].info_hash.0@ != pre[idx[a]].info_hash.0@);
            }
            assert(pre == old(self)@);
            assert(self@ == self.swarms@);
            assert forall|i: int| 0 <= i < self@.len() implies pruned_from_one_of(#[trigger] self@[i], old(self)@, now) by {
                let j = idx[i];
                assert(pruned_from(self@[i], old(self)@[j], now));
            }
            assert forall|j: int| 0 <= j < old(self)@.len() && live_peers((#[trigger] old(self)@[j]).peers@, now).len() > 0
                implies kept_as_one_of(old(self)@[j], self@, now) by {
                let k = choose|k: int| 0 <= k < idx.len() && idx[k] == j;
                assert(pruned_from(self@[k], old(self)@[j], now));
            }
        }
    }
}

} // verus!
