use vstd::prelude::*;

use rand::Rng;
use rand::rngs::StdRng;

use crate::address::{normalize_source, normalized};
use crate::connections::ConnectionMap;
use crate::statistics::Counters;
use crate::pending_scrape::PendingScrapeResponseMap;
use crate::pending_scrape::{PendingState, is_scrape_reply, merged_stats};
use crate::protocol::{
    AnnounceRequest, ConnectRequest, ConnectResponse, ConnectedRequest, ConnectedResponse, ConnectionId, ErrorResponse,
    IndexedInfoHash, InfoHash, PeerAddr, PendingScrapeRequest, Request, RequestParseError,
    Response, TorrentScrapeStatistics, TransactionId, ValidUntil, ordered_stats,
};

verus! {

/// rand's `StdRng`, held opaquely; connection ids are drawn from it.
#[verifier::external_type_specification]
#[verifier::external_body]
pub struct ExStdRng(StdRng);

/// Relies on rand's `Rng::gen` for `u64` on `StdRng`: any value may come back.
#[verifier::external_body]
pub(crate) fn random_u64(rng: &mut StdRng) -> (r: u64) {
    rng.gen()
}

/// Index of a request worker.
#[derive(Clone, Copy, PartialEq, Eq, Structural, Debug)]
pub struct RequestWorkerIndex(pub usize);

/// The request worker that owns an info-hash: its first byte modulo the number of workers.
pub open spec fn shard(info_hash: InfoHash, num_workers: usize) -> usize
    recommends
        num_workers > 0,
{
    (info_hash.0@[0] as usize) % num_workers
}

impl RequestWorkerIndex {
    /// The request worker that owns `info_hash`.
    pub fn from_info_hash(num_workers: usize, info_hash: InfoHash) -> (r: RequestWorkerIndex)
        requires
            num_workers > 0,
        ensures
            r.0 == shard(info_hash, num_workers),
            r.0 < num_workers,
    {
        RequestWorkerIndex((info_hash.0[0] as usize) % num_workers)
    }
}

/// Routing depends on the info-hash's bytes alone: equal hashes go to the same worker,
/// and every hash goes to a worker that exists.
pub proof fn lemma_shard_deterministic(a: InfoHash, b: InfoHash, num_workers: usize)
    requires
        num_workers > 0,
        a.0@ == b.0@,
    ensures
        shard(a, num_workers) == shard(b, num_workers),
        shard(a, num_workers) < num_workers,
{
}

/// The info-hashes of a scrape with their positions.
pub open spec fn indexed(hashes: Seq<InfoHash>) -> Seq<IndexedInfoHash> {
    Seq::new(hashes.len(), |i: int| IndexedInfoHash { index: i as usize, info_hash: hashes[i] })
}

/// The positioned info-hashes of a scrape that worker `w` owns, in request order.
pub open spec fn shard_part(hashes: Seq<InfoHash>, num_workers: usize, w: usize) -> Seq<IndexedInfoHash> {
    indexed(hashes).filter(|e: IndexedInfoHash| shard(e.info_hash, num_workers) == w)
}

/// `groups` splits `hashes` by owning worker: one group per worker that owns any of them,
/// each holding that worker's part in request order.
pub open spec fn groups_split(
    groups: Seq<(RequestWorkerIndex, PendingScrapeRequest)>,
    hashes: Seq<InfoHash>,
    num_workers: usize,
    transaction_id: TransactionId,
) -> bool {
    &&& forall|g: int| 0 <= g < groups.len() ==> {
        &&& (#[trigger] groups[g]).1.transaction_id == transaction_id
        &&& groups[g].1.info_hashes@ == shard_part(hashes, num_workers, groups[g].0.0)
        &&& groups[g].1.info_hashes@.len() > 0
    }
    &&& forall|g: int, h: int| 0 <= g < h < groups.len() ==> (#[trigger] groups[g]).0 != (#[trigger] groups[h]).0
    &&& forall|i: int| 0 <= i < hashes.len() ==> has_group(groups, shard(#[trigger] hashes[i], num_workers))
}

/// Some group is addressed to worker `w`.
pub open spec fn has_group(groups: Seq<(RequestWorkerIndex, PendingScrapeRequest)>, w: usize) -> bool {
    exists|g: int| 0 <= g < groups.len() && (#[trigger] groups[g]).0.0 == w
}

/// Splits a scrape's info-hashes into one part per owning request worker.
pub fn group_by_shard(num_workers: usize, transaction_id: TransactionId, hashes: &Vec<InfoHash>)
    -> (r: Vec<(RequestWorkerIndex, PendingScrapeRequest)>)
    requires
        num_workers > 0,
    ensures
        groups_split(r@, hashes@, num_workers, transaction_id),
{
    let mut groups: Vec<(RequestWorkerIndex, PendingScrapeRequest)> = Vec::new();
    let mut i: usize = 0;
    while i < hashes.len()
        invariant
            num_workers > 0,
            i <= hashes@.len(),
            groups_split(groups@, hashes@.take(i as int), num_workers, transaction_id),
        decreases hashes@.len() - i,
    {
        let info_hash = hashes[i];
        let w = RequestWorkerIndex::from_info_hash(num_workers, info_hash);
        let item = IndexedInfoHash { index: i, info_hash };
        let ghost prev = groups@;
        let ghost pre_hashes = hashes@.take(i as int);
        let ghost next_hashes = hashes@.take(i as int + 1);
        proof {
            assert(next_hashes =~= pre_hashes.push(info_hash));
            assert(indexed(next_hashes) =~= indexed(pre_hashes).push(item));
        }
        let mut j: usize = 0;
        while j < groups.len()
            invariant
                j <= groups@.len(),
                groups@ == prev,
                forall|g: int| 0 <= g < j ==> (#[trigger] groups@[g]).0 != w,
            ensures
                j <= groups@.len(),
                groups@ == prev,
                forall|g: int| 0 <= g < j ==> (#[trigger] groups@[g]).0 != w,
                j < groups@.len() ==> groups@[j as int].0 == w,
            decreases groups@.len() - j,
        {
            if groups[j].0 == w {
                break;
            }
            j = j + 1;
        }
        if j < groups.len() {
            let (gw, mut group) = groups.remove(j);
            group.info_hashes.push(item);
            groups.insert(j, (gw, group));
            proof {
                assert(groups@ =~= prev.update(j as int, (gw, group)));
                assert(gw == w);
                assert forall|g: int| 0 <= g < groups@.len() implies {
                    &&& (#[trigger] groups@[g]).1.transaction_id == transaction_id
                    &&& groups@[g].1.info_hashes@ == shard_part(next_hashes, num_workers, groups@[g].0.0)
                    &&& groups@[g].1.info_hashes@.len() > 0
                } by {
                    lemma_part_push(pre_hashes, num_workers, info_hash, groups@[g].0.0);
                    if g != j {
                        assert(prev[g].0 != prev[j as int].0);
                    }
                }
                assert forall|a: int, b: int| 0 <= a < b < groups@.len() implies
                    (#[trigger] groups@[a]).0 != (#[trigger] groups@[b]).0 by {
                    assert(prev[a].0 != prev[b].0);
                }
                assert forall|k: int| 0 <= k < next_hashes.len() implies has_group(groups@, shard(#[trigger] next_hashes[k], num_workers)) by {
                    if k < i {
                        assert(next_hashes[k] == pre_hashes[k]);
                        assert(has_group(prev, shard(pre_hashes[k], num_workers)));
                        let g = choose|g: int| 0 <= g < prev.len() && (#[trigger] prev[g]).0.0 == shard(pre_hashes[k], num_workers);
                        assert(groups@[g].0 == prev[g].0);
                    } else {
                        assert(groups@[j as int].0.0 == shard(next_hashes[k], num_workers));
                    }
                    assert(has_group(groups@, shard(next_hashes[k], num_workers)));
                }
            }
        } else {
            let ghost pw = w.0;
            proof {
                assert forall|k: int| 0 <= k < pre_hashes.len() implies shard(#[trigger] pre_hashes[k], num_workers) != pw by {
                    if shard(pre_hashes[k], num_workers) == pw {
                        assert(has_group(prev, shard(pre_hashes[k], num_workers)));
                        let g = choose|g: int| 0 <= g < prev.len() && (#[trigger] prev[g]).0.0 == shard(pre_hashes[k], num_workers);
                        assert(prev[g].0 != w);
                    }
                }
                lemma_part_empty(pre_hashes, num_workers, pw);
            }
            let mut part: Vec<IndexedInfoHash> = Vec::new();
            part.push(item);
            groups.push((w, PendingScrapeRequest { transaction_id, info_hashes: part }));
            proof {
                let last = prev.len() as int;
                assert forall|g: int| 0 <= g < groups@.len() implies {
                    &&& (#[trigger] groups@[g]).1.transaction_id == transaction_id
                    &&& groups@[g].1.info_hashes@ == shard_part(next_hashes, num_workers, groups@[g].0.0)
                    &&& groups@[g].1.info_hashes@.len() > 0
                } by {
                    lemma_part_push(pre_hashes, num_workers, info_hash, groups@[g].0.0);
                    if g == last {
                        assert(groups@[g].1.info_hashes@ =~= shard_part(pre_hashes, num_workers, pw).push(item));
                    } else {
                        assert(groups@[g] == prev[g]);
                    }
                }
                assert forall|a: int, b: int| 0 <= a < b < groups@.len() implies
                    (#[trigger] groups@[a]).0 != (#[trigger] groups@[b]).0 by {
                    if b < last {
                        assert(prev[a].0 != prev[b].0);
                    } else {
                        assert(groups@[a] == prev[a]);
                    }
                }
                assert forall|k: int| 0 <= k < next_hashes.len() implies has_group(groups@, shard(#[trigger] next_hashes[k], num_workers)) by {
                    if k < i {
                        assert(next_hashes[k] == pre_hashes[k]);
                        assert(has_group(prev, shard(pre_hashes[k], num_workers)));
                        let g = choose|g: int| 0 <= g < prev.len() && (#[trigger] prev[g]).0.0 == shard(pre_hashes[k], num_workers);
                        assert(groups@[g] == prev[g]);
                    } else {
                        assert(groups@[last].0.0 == shard(next_hashes[k], num_workers));
                    }
                    assert(has_group(groups@, shard(next_hashes[k], num_workers)));
                }
            }
        }
        i = i + 1;
    }
    assert(hashes@.take(hashes@.len() as int) =~= hashes@);
    groups
}

proof fn lemma_part_push(hashes: Seq<InfoHash>, num_workers: usize, h: InfoHash, w: usize)
    requires
        hashes.len() < usize::MAX,
    ensures
        shard_part(hashes.push(h), num_workers, w) == if shard(h, num_workers) == w {
            shard_part(hashes, num_workers, w).push(IndexedInfoHash { index: hashes.len() as usize, info_hash: h })
        } else {
            shard_part(hashes, num_workers, w)
        },
{
    let item = IndexedInfoHash { index: hashes.len() as usize, info_hash: h };
    assert(indexed(hashes.push(h)) =~= indexed(hashes).push(item));
    indexed(hashes).lemma_filter_push(item, |e: IndexedInfoHash| shard(e.info_hash, num_workers) == w);
}

proof fn lemma_part_empty(hashes: Seq<InfoHash>, num_workers: usize, w: usize)
    requires
        hashes.len() <= usize::MAX,
        forall|k: int| 0 <= k < hashes.len() ==> shard(#[trigger] hashes[k], num_workers) != w,
    ensures
        shard_part(hashes, num_workers, w).len() == 0,
    decreases hashes.len(),
{
    if hashes.len() > 0 {
        let init = hashes.drop_last();
        assert(init.push(hashes.last()) =~= hashes);
        assert forall|k: int| 0 <= k < init.len() implies shard(#[trigger] init[k], num_workers) != w by {
            assert(init[k] == hashes[k]);
        }
        lemma_part_empty(init, num_workers, w);
        lemma_part_push(init, num_workers, hashes.last(), w);
    }
}

/// How the access list is read: only listed info-hashes are served, listed ones are
/// refused, or the list is ignored.
#[derive(Clone, Copy, PartialEq, Eq, Structural, Debug)]
pub enum AccessListMode {
    Allow,
    Deny,
    Off,
}

/// Whether an info-hash is served, given the mode and whether it is on the list.
pub open spec fn allowed(mode: AccessListMode, listed: bool) -> bool {
    match mode {
        AccessListMode::Allow => listed,
        AccessListMode::Deny => !listed,
        AccessListMode::Off => true,
    }
}

/// Whether an info-hash with the bytes of `h` is in `list`.
pub open spec fn listed(list: Seq<InfoHash>, h: InfoHash) -> bool {
    exists|i: int| 0 <= i < list.len() && (#[trigger] list[i]).0@ == h.0@
}

/// A snapshot of the access list's info-hashes.
#[derive(Clone, Debug)]
pub struct AccessList {
    pub hashes: Vec<InfoHash>,
}

/// Whether two info-hashes hold the same bytes.
pub fn same_info_hash(a: &InfoHash, b: &InfoHash) -> (r: bool)
    ensures
        r == (a.0@ == b.0@),
{
    let mut k: usize = 0;
    while k < 20
        invariant
            k <= 20,
            forall|m: int| 0 <= m < k ==> a.0@[m] == b.0@[m],
        decreases 20 - k,
    {
        if a.0[k] != b.0[k] {
            return false;
        }
        k = k + 1;
    }
    assert(a.0@ =~= b.0@);
    true
}

impl AccessList {
    /// Whether the list contains `info_hash`.
    pub fn contains(&self, info_hash: &InfoHash) -> (r: bool)
        ensures
            r == listed(self.hashes@, *info_hash),
    {
        let mut i: usize = 0;
        while i < self.hashes.len()
            invariant
                i <= self.hashes@.len(),
                forall|j: int| 0 <= j < i ==> (#[trigger] self.hashes@[j]).0@ != info_hash.0@,
            decreases self.hashes@.len() - i,
        {
            if same_info_hash(&self.hashes[i], info_hash) {
                return true;
            }
            i = i + 1;
        }
        false
    }

    /// Whether `info_hash` is served under `mode`.
    pub fn allows(&self, mode: AccessListMode, info_hash: &InfoHash) -> (r: bool)
        ensures
            r == allowed(mode, listed(self.hashes@, *info_hash)),
    {
        match mode {
            AccessListMode::Allow => self.contains(info_hash),
            AccessListMode::Deny => !self.contains(info_hash),
            AccessListMode::Off => true,
        }
    }
}

/// What a socket worker needs to know of the configuration to answer requests.
#[derive(Clone, Copy, Debug)]
pub struct HandlerConfig {
    pub request_workers: usize,
    pub access_list_mode: AccessListMode,
}

/// A request on its way to a request worker, with the address to answer.
pub type Outgoing = (RequestWorkerIndex, ConnectedRequest, PeerAddr);

/// The scrape parts among outgoing requests, with their workers.
pub open spec fn scrape_parts(s: Seq<Outgoing>) -> Seq<(RequestWorkerIndex, PendingScrapeRequest)> {
    s.map_values(|e: Outgoing| (e.0, e.1->Scrape_0))
}

/// Whether `r` is an error reply for `transaction_id` with message `message`.
pub open spec fn is_error_reply(r: Response, transaction_id: TransactionId, message: Seq<char>) -> bool {
    &&& r is Error
    &&& r->Error_0.transaction_id == transaction_id
    &&& r->Error_0.message@ == message
}

/// What handling one decoded datagram from `src` does to the worker's state: tables go
/// from `conn0` and `pend0` to `conn1` and `pend1`, and requests for the request workers
/// and replies are appended to `sent0` and `local0`. Connect requests are answered at once
/// with a fresh connection id, recorded for `src`. Announce and scrape requests, and
/// sendable decode errors, are acted on only if their connection id was issued to `src`;
/// otherwise nothing is sent. An announce for an info-hash the access list refuses is
/// answered with an error; otherwise it goes to the worker that owns its info-hash. A
/// scrape is split into one part per owning worker, and a pending entry waits for them.
pub open spec fn request_handled(
    config: HandlerConfig,
    access: Seq<InfoHash>,
    valid_until: ValidUntil,
    res_request: Result<Request, RequestParseError>,
    src: PeerAddr,
    conn0: Map<(ConnectionId, PeerAddr), u64>,
    conn1: Map<(ConnectionId, PeerAddr), u64>,
    pend0: Map<TransactionId, PendingState>,
    pend1: Map<TransactionId, PendingState>,
    sent0: Seq<Outgoing>,
    sent1: Seq<Outgoing>,
    local0: Seq<(Response, PeerAddr)>,
    local1: Seq<(Response, PeerAddr)>,
) -> bool {
    &&& local1.len() >= local0.len()
    &&& local1.take(local0.len() as int) == local0
    &&& sent1.len() >= sent0.len()
    &&& sent1.take(sent0.len() as int) == sent0
    &&& match res_request {
        Ok(Request::Connect(req)) => {
            let reply = local1.last();
            &&& local1.len() == local0.len() + 1
            &&& reply.1 == src
            &&& reply.0 is Connect
            &&& reply.0->Connect_0.transaction_id == req.transaction_id
            &&& conn1 == conn0.insert(
                (reply.0->Connect_0.connection_id, src),
                valid_until.0,
            )
            &&& pend1 == pend0
            &&& sent1 == sent0
        },
        Ok(Request::Announce(req)) => {
            &&& conn1 == conn0
            &&& pend1 == pend0
            &&& if !conn0.contains_key((req.connection_id, src)) {
                &&& local1 == local0
                &&& sent1 == sent0
            } else if allowed(config.access_list_mode, listed(access, req.info_hash)) {
                &&& local1 == local0
                &&& sent1 == sent0.push((
                    RequestWorkerIndex(shard(req.info_hash, config.request_workers)),
                    ConnectedRequest::Announce(req),
                    src,
                ))
            } else {
                &&& sent1 == sent0
                &&& local1.len() == local0.len() + 1
                &&& local1.last().1 == src
                &&& is_error_reply(local1.last().0, req.transaction_id, "Info hash not allowed"@)
            }
        },
        Ok(Request::Scrape(req)) => {
            let sent = sent1.skip(sent0.len() as int);
            &&& conn1 == conn0
            &&& local1 == local0
            &&& if !conn0.contains_key((req.connection_id, src)) {
                &&& sent1 == sent0
                &&& pend1 == pend0
            } else {
                &&& forall|i: int| 0 <= i < sent.len() ==> (#[trigger] sent[i]).1 is Scrape && sent[i].2 == src
                &&& groups_split(scrape_parts(sent), req.info_hashes@, config.request_workers, req.transaction_id)
                &&& if sent.len() > 0 {
                    pend1 == pend0.insert(
                        req.transaction_id,
                        (sent.len(), valid_until.0, Map::<usize, TorrentScrapeStatistics>::empty()),
                    )
                } else {
                    pend1 == pend0
                }
            }
        },
        Err(RequestParseError::Sendable { connection_id, transaction_id, message }) => {
            &&& conn1 == conn0
            &&& pend1 == pend0
            &&& sent1 == sent0
            &&& if conn0.contains_key((connection_id, src)) {
                &&& local1.len() == local0.len() + 1
                &&& local1.last().1 == src
                &&& is_error_reply(
                    local1.last().0,
                    transaction_id,
                    match message {
                        Some(m) => m@,
                        None => "Parse error"@,
                    },
                )
            } else {
                local1 == local0
            }
        },
        Err(RequestParseError::Unsendable) => {
            &&& conn1 == conn0
            &&& pend1 == pend0
            &&& sent1 == sent0
            &&& local1 == local0
        },
    }
}

/// Answers one decoded datagram from `src`, as `request_handled` describes.
pub fn handle_request(
    config: &HandlerConfig,
    connections: &mut ConnectionMap,
    pending_scrape_responses: &mut PendingScrapeResponseMap,
    access_list: &AccessList,
    rng: &mut StdRng,
    request_sender: &mut Vec<Outgoing>,
    local_responses: &mut Vec<(Response, PeerAddr)>,
    valid_until: ValidUntil,
    res_request: Result<Request, RequestParseError>,
    src: PeerAddr,
)
    requires
        config.request_workers > 0,
        old(connections).wf(),
        old(pending_scrape_responses).wf(),
    ensures
        final(connections).wf(),
        final(pending_scrape_responses).wf(),
        request_handled(
            *config,
            access_list.hashes@,
            valid_until,
            res_request,
            src,
            old(connections)@,
            final(connections)@,
            old(pending_scrape_responses)@,
            final(pending_scrape_responses)@,
            old(request_sender)@,
            final(request_sender)@,
            old(local_responses)@,
            final(local_responses)@,
        ),
{
    let ghost old_local = local_responses@;
    let ghost old_sender = request_sender@;
    proof {
        assert(old_local.take(old_local.len() as int) =~= old_local);
        assert(old_sender.take(old_sender.len() as int) =~= old_sender);
    }
    match res_request {
        Ok(Request::Connect(request)) => {
            let connection_id = ConnectionId(random_u64(rng) as i64);
            connections.insert(connection_id, src, valid_until);
            let response = Response::Connect(ConnectResponse {
                connection_id,
                transaction_id: request.transaction_id,
            });
            local_responses.push((response, src));
            assert(local_responses@.take(old_local.len() as int) =~= old_local);
        },
        Ok(Request::Announce(request)) => {
            if connections.contains(request.connection_id, src) {
                if access_list.allows(config.access_list_mode, &request.info_hash) {
                    let worker_index = RequestWorkerIndex::from_info_hash(
                        config.request_workers,
                        request.info_hash,
                    );
                    request_sender.push((worker_index, ConnectedRequest::Announce(request), src));
                    assert(request_sender@.take(old_sender.len() as int) =~= old_sender);
                } else {
                    let response = Response::Error(ErrorResponse {
                        transaction_id: request.transaction_id,
                        message: String::from_str("Info hash not allowed"),
                    });
                    local_responses.push((response, src));
                    assert(local_responses@.take(old_local.len() as int) =~= old_local);
                }
            }
        },
        Ok(Request::Scrape(request)) => {
            if connections.contains(request.connection_id, src) {
                let transaction_id = request.transaction_id;
                let mut groups = group_by_shard(config.request_workers, transaction_id, &request.info_hashes);
                let ghost all_groups = groups@;
                if groups.len() > 0 {
                    pending_scrape_responses.prepare(transaction_id, groups.len(), valid_until);
                }
                let mut k: usize = 0;
                let n = groups.len();
                while groups.len() > 0
                    invariant
                        k + groups@.len() == n,
                        n == all_groups.len(),
                        groups@ == all_groups.skip(k as int),
                        request_sender@.len() == old_sender.len() + k,
                        request_sender@.take(old_sender.len() as int) == old_sender,
                        scrape_parts(request_sender@.skip(old_sender.len() as int)) == all_groups.take(k as int),
                        forall|i: int| 0 <= i < k ==> (#[trigger] request_sender@.skip(old_sender.len() as int)[i]).1 is Scrape
                            && request_sender@.skip(old_sender.len() as int)[i].2 == src,
                    decreases groups@.len(),
                {
                    let ghost prev = request_sender@;
                    let (worker_index, part) = groups.remove(0);
                    request_sender.push((worker_index, ConnectedRequest::Scrape(part), src));
                    proof {
                        assert(groups@ =~= all_groups.skip(k as int + 1));
                        assert(request_sender@.take(old_sender.len() as int) =~= old_sender);
                        let sent = request_sender@.skip(old_sender.len() as int);
                        assert(sent =~= prev.skip(old_sender.len() as int).push((worker_index, ConnectedRequest::Scrape(part), src)));
                        assert(scrape_parts(sent) =~= all_groups.take(k as int + 1));
                    }
                    k = k + 1;
                }
                assert(all_groups.take(n as int) =~= all_groups);
            }
        },
        Err(err) => {
            match err {
                RequestParseError::Sendable { connection_id, transaction_id, message } => {
                    if connections.contains(connection_id, src) {
                        let text = match message {
                            Some(m) => m,
                            None => String::from_str("Parse error"),
                        };
                        let response = Response::Error(ErrorResponse { transaction_id, message: text });
                        local_responses.push((response, src));
                        assert(local_responses@.take(old_local.len() as int) =~= old_local);
                    }
                },
                RequestParseError::Unsendable => {},
            }
        },
    }
}

/// Handles one datagram of `amt` bytes from `src`: counts it (as a request only if it
/// decoded), records its source with IPv4-mapped addresses made IPv4, and answers it.
pub fn handle_datagram(
    config: &HandlerConfig,
    connections: &mut ConnectionMap,
    pending_scrape_responses: &mut PendingScrapeResponseMap,
    access_list: &AccessList,
    rng: &mut StdRng,
    request_sender: &mut Vec<Outgoing>,
    local_responses: &mut Vec<(Response, PeerAddr)>,
    counters: &mut Counters,
    valid_until: ValidUntil,
    amt: usize,
    res_request: Result<Request, RequestParseError>,
    src: PeerAddr,
)
    requires
        config.request_workers > 0,
        old(connections).wf(),
        old(pending_scrape_responses).wf(),
        old(counters).bytes_received + amt <= usize::MAX,
        old(counters).requests_received < usize::MAX,
    ensures
        final(connections).wf(),
        final(pending_scrape_responses).wf(),
        final(counters).bytes_received == old(counters).bytes_received + amt,
        final(counters).requests_received == old(counters).requests_received + if res_request is Ok {
            1int
        } else {
            0int
        },
        final(counters).responses_sent == old(counters).responses_sent,
        final(counters).bytes_sent == old(counters).bytes_sent,
        request_handled(
            *config,
            access_list.hashes@,
            valid_until,
            res_request,
            normalized(src),
            old(connections)@,
            final(connections)@,
            old(pending_scrape_responses)@,
            final(pending_scrape_responses)@,
            old(request_sender)@,
            final(request_sender)@,
            old(local_responses)@,
            final(local_responses)@,
        ),
{
    counters.record_received(amt, res_request.is_ok());
    let src = normalize_source(src);
    handle_request(
        config,
        connections,
        pending_scrape_responses,
        access_list,
        rng,
        request_sender,
        local_responses,
        valid_until,
        res_request,
        src,
    );
}

/// Turns a request worker's answer into a reply: an announce answer is sent as it is; a
/// scrape part is merged into its pending scrape, and the reply is sent once all parts
/// have come.
pub fn route_response(pending_scrape_responses: &mut PendingScrapeResponseMap, response: ConnectedResponse)
    -> (r: Option<Response>)
    requires
        old(pending_scrape_responses).wf(),
        response matches ConnectedResponse::Scrape(p) ==> forall|i: int|
            0 <= i < p.torrent_stats@.len() ==> #[trigger] p.torrent_stats@[i].index < usize::MAX,
    ensures
        final(pending_scrape_responses).wf(),
        match response {
            ConnectedResponse::Announce(a) => {
                &&& r == Some(Response::Announce(a))
                &&& final(pending_scrape_responses)@ == old(pending_scrape_responses)@
            },
            ConnectedResponse::Scrape(p) => {
                let tx = p.transaction_id;
                if !old(pending_scrape_responses)@.contains_key(tx) {
                    &&& r is None
                    &&& final(pending_scrape_responses)@ == old(pending_scrape_responses)@
                } else {
                    let st = old(pending_scrape_responses)@[tx];
                    let merged = merged_stats(st, p.torrent_stats@);
                    if st.0 == 1 {
                        &&& is_scrape_reply(r, tx, ordered_stats(merged))
                        &&& final(pending_scrape_responses)@ == old(pending_scrape_responses)@.remove(tx)
                    } else {
                        &&& r is None
                        &&& final(pending_scrape_responses)@ == old(pending_scrape_responses)@.insert(
                            tx,
                            ((st.0 - 1) as nat, st.1, merged),
                        )
                    }
                }
            },
        },
{
    match response {
        ConnectedResponse::Scrape(p) => pending_scrape_responses.add_and_get_finished(p),
        ConnectedResponse::Announce(a) => Some(Response::Announce(a)),
    }
}

/// A connect reply echoes the request's transaction id, and the connection id it carries
/// is then known for the sender's address: an announce from that address with that id is
/// acted on (sent to a worker, or refused with an error), not dropped.
pub proof fn lemma_connect_round_trip(
    config: HandlerConfig,
    access: Seq<InfoHash>,
    valid_until: ValidUntil,
    connect: ConnectRequest,
    announce: AnnounceRequest,
    src: PeerAddr,
    conn0: Map<(ConnectionId, PeerAddr), u64>,
    conn1: Map<(ConnectionId, PeerAddr), u64>,
    conn2: Map<(ConnectionId, PeerAddr), u64>,
    pend0: Map<TransactionId, PendingState>,
    pend1: Map<TransactionId, PendingState>,
    pend2: Map<TransactionId, PendingState>,
    sent0: Seq<Outgoing>,
    sent1: Seq<Outgoing>,
    sent2: Seq<Outgoing>,
    local0: Seq<(Response, PeerAddr)>,
    local1: Seq<(Response, PeerAddr)>,
    local2: Seq<(Response, PeerAddr)>,
)
    requires
        request_handled(config, access, valid_until, Ok(Request::Connect(connect)), src,
            conn0, conn1, pend0, pend1, sent0, sent1, local0, local1),
        local1.last().0 is Connect,
        announce.connection_id == local1.last().0->Connect_0.connection_id,
        request_handled(config, access, valid_until, Ok(Request::Announce(announce)), src,
            conn1, conn2, pend1, pend2, sent1, sent2, local1, local2),
    ensures
        local1.last().0->Connect_0.transaction_id == connect.transaction_id,
        local1.last().1 == src,
        conn1.contains_key((announce.connection_id, src)),
        conn1[(announce.connection_id, src)] == valid_until.0,
        sent2.len() + local2.len() == sent1.len() + local1.len() + 1,
{
}

/// An announce or scrape, or a sendable decode error, whose connection id was never issued
/// to its sender's address gets no reply of any kind and changes nothing.
pub proof fn lemma_unknown_connection_silent(
    config: HandlerConfig,
    access: Seq<InfoHash>,
    valid_until: ValidUntil,
    res_request: Result<Request, RequestParseError>,
    src: PeerAddr,
    conn0: Map<(ConnectionId, PeerAddr), u64>,
    conn1: Map<(ConnectionId, PeerAddr), u64>,
    pend0: Map<TransactionId, PendingState>,
    pend1: Map<TransactionId, PendingState>,
    sent0: Seq<Outgoing>,
    sent1: Seq<Outgoing>,
    local0: Seq<(Response, PeerAddr)>,
    local1: Seq<(Response, PeerAddr)>,
)
    requires
        request_handled(config, access, valid_until, res_request, src,
            conn0, conn1, pend0, pend1, sent0, sent1, local0, local1),
        match res_request {
            Ok(Request::Connect(_)) => false,
            Ok(Request::Announce(r)) => !conn0.contains_key((r.connection_id, src)),
            Ok(Request::Scrape(r)) => !conn0.contains_key((r.connection_id, src)),
            Err(RequestParseError::Sendable { connection_id, .. }) => !conn0.contains_key((connection_id, src)),
            Err(RequestParseError::Unsendable) => true,
        },
    ensures
        sent1 == sent0,
        local1 == local0,
        conn1 == conn0,
        pend1 == pend0,
{
}

/// A connection id is accepted until a clean at or after its deadline, and refused after
/// that clean; a pair never recorded stays unknown through any clean.
pub proof fn lemma_connection_expiry(
    m: Map<(ConnectionId, PeerAddr), u64>,
    connection_id: ConnectionId,
    src: PeerAddr,
    valid_until: u64,
    now: u64,
)
    ensures
        now < valid_until ==> ConnectionMap::live_after(m.insert((connection_id, src), valid_until), now)
            .contains_key((connection_id, src)),
        valid_until <= now ==> !ConnectionMap::live_after(m.insert((connection_id, src), valid_until), now)
            .contains_key((connection_id, src)),
        !m.contains_key((connection_id, src)) ==> !ConnectionMap::live_after(m, now).contains_key((connection_id, src)),
{
}

/// With a known connection, an announce for an info-hash that the access list refuses (a
/// listed one in deny mode, an unlisted one in allow mode) is answered with exactly one
/// "Info hash not allowed" error and goes to no worker.
pub proof fn lemma_refused_announce(
    config: HandlerConfig,
    access: Seq<InfoHash>,
    valid_until: ValidUntil,
    announce: AnnounceRequest,
    src: PeerAddr,
    conn0: Map<(ConnectionId, PeerAddr), u64>,
    conn1: Map<(ConnectionId, PeerAddr), u64>,
    pend0: Map<TransactionId, PendingState>,
    pend1: Map<TransactionId, PendingState>,
    sent0: Seq<Outgoing>,
    sent1: Seq<Outgoing>,
    local0: Seq<(Response, PeerAddr)>,
    local1: Seq<(Response, PeerAddr)>,
)
    requires
        request_handled(config, access, valid_until, Ok(Request::Announce(announce)), src,
            conn0, conn1, pend0, pend1, sent0, sent1, local0, local1),
        conn0.contains_key((announce.connection_id, src)),
        (config.access_list_mode == AccessListMode::Deny && listed(access, announce.info_hash))
            || (config.access_list_mode == AccessListMode::Allow && !listed(access, announce.info_hash)),
    ensures
        sent1 == sent0,
        local1.len() == local0.len() + 1,
        local1.last().1 == src,
        is_error_reply(local1.last().0, announce.transaction_id, "Info hash not allowed"@),
{
}

/// In deny mode a listed info-hash is refused, and in allow mode an unlisted one is;
/// with the list off every info-hash is served.
pub proof fn lemma_access_list_refusals(list: Seq<InfoHash>, h: InfoHash)
    ensures
        listed(list, h) ==> !allowed(AccessListMode::Deny, listed(list, h)),
        !listed(list, h) ==> !allowed(AccessListMode::Allow, listed(list, h)),
        allowed(AccessListMode::Off, listed(list, h)),
{
}

} // verus!
