use aquatic_udp::address::{normalize_source, reply_address};
use aquatic_udp::connections::ConnectionMap;
use aquatic_udp::network::{
    group_by_shard, handle_datagram, handle_request, route_response, AccessList, AccessListMode, HandlerConfig,
    RequestWorkerIndex,
};
use aquatic_udp::pending_scrape::PendingScrapeResponseMap;
use aquatic_udp::protocol::{
    AnnounceEvent, AnnounceRequest, AnnounceResponse, ConnectRequest, ConnectedRequest,
    ConnectedResponse, ConnectionId, IndexedStats, InfoHash, PeerAddr, PeerId,
    PendingScrapeResponse, Request, RequestParseError, Response, ScrapeRequest,
    TorrentScrapeStatistics, TransactionId, ValidUntil,
};
use aquatic_udp::statistics::Counters;
use rand::rngs::StdRng;
use rand::SeedableRng;

fn v4(a: u8, b: u8, c: u8, d: u8, port: u16) -> PeerAddr {
    PeerAddr::V4 { ipv4: u32::from_be_bytes([a, b, c, d]), port }
}

fn hash(first: u8) -> InfoHash {
    let mut bytes = [0u8; 20];
    bytes[0] = first;
    InfoHash(bytes)
}

fn stats(n: i32) -> TorrentScrapeStatistics {
    TorrentScrapeStatistics { seeders: n, completed: n + 1, leechers: n + 2 }
}

struct Worker {
    config: HandlerConfig,
    connections: ConnectionMap,
    pending: PendingScrapeResponseMap,
    access_list: AccessList,
    rng: StdRng,
    sent: Vec<(RequestWorkerIndex, ConnectedRequest, PeerAddr)>,
    local: Vec<(Response, PeerAddr)>,
}

impl Worker {
    fn new(request_workers: usize, mode: AccessListMode, hashes: Vec<InfoHash>) -> Worker {
        Worker {
            config: HandlerConfig { request_workers, access_list_mode: mode },
            connections: ConnectionMap::new(),
            pending: PendingScrapeResponseMap::new(),
            access_list: AccessList { hashes },
            rng: StdRng::seed_from_u64(7),
            sent: Vec::new(),
            local: Vec::new(),
        }
    }

    fn handle(&mut self, request: Result<Request, RequestParseError>, src: PeerAddr) {
        handle_request(
            &self.config,
            &mut self.connections,
            &mut self.pending,
            &self.access_list,
            &mut self.rng,
            &mut self.sent,
            &mut self.local,
            ValidUntil(100),
            request,
            src,
        );
    }

    fn connect(&mut self, tx: i32, src: PeerAddr) -> ConnectionId {
        self.handle(Ok(Request::Connect(ConnectRequest { transaction_id: TransactionId(tx) })), src);
        match self.local.last() {
            Some((Response::Connect(r), addr)) => {
                assert_eq!(*addr, src);
                assert_eq!(r.transaction_id, TransactionId(tx));
                r.connection_id
            }
            other => panic!("expected a connect reply, got {:?}", other),
        }
    }
}

fn announce(cid: ConnectionId, tx: i32, info_hash: InfoHash) -> AnnounceRequest {
    AnnounceRequest {
        connection_id: cid,
        transaction_id: TransactionId(tx),
        info_hash,
        peer_id: PeerId([0x11; 20]),
        bytes_downloaded: 0,
        bytes_uploaded: 0,
        bytes_left: 100,
        event: AnnounceEvent::Started,
        ip_address: None,
        key: 1,
        peers_wanted: 50,
        port: 6881,
    }
}

#[test]
fn connect_reply_echoes_transaction_and_registers_id() {
    let mut w = Worker::new(1, AccessListMode::Off, vec![]);
    let src = v4(10, 0, 0, 1, 6881);
    let cid = w.connect(0xDEADBEEFu32 as i32, src);
    assert_eq!(w.local.len(), 1);
    assert!(w.connections.contains(cid, src));
    assert!(!w.connections.contains(cid, v4(10, 0, 0, 2, 6881)));
    assert!(w.sent.is_empty());
}

#[test]
fn announce_after_connect_goes_to_owning_worker() {
    let mut w = Worker::new(2, AccessListMode::Off, vec![]);
    let src = v4(10, 0, 0, 1, 6881);
    let cid = w.connect(1, src);
    w.handle(Ok(Request::Announce(announce(cid, 2, hash(3)))), src);
    assert_eq!(w.local.len(), 1);
    assert_eq!(w.sent.len(), 1);
    assert_eq!(w.sent[0].0, RequestWorkerIndex(1));
    assert_eq!(w.sent[0].2, src);
    match &w.sent[0].1 {
        ConnectedRequest::Announce(a) => assert_eq!(a.transaction_id, TransactionId(2)),
        other => panic!("expected an announce, got {:?}", other),
    }
}

#[test]
fn spoofed_announce_and_scrape_get_no_reply() {
    let mut w = Worker::new(2, AccessListMode::Off, vec![]);
    let src = v4(10, 0, 0, 1, 6881);
    w.handle(Ok(Request::Announce(announce(ConnectionId(0xAAAA), 5, hash(1)))), src);
    w.handle(
        Ok(Request::Scrape(ScrapeRequest {
            connection_id: ConnectionId(0xAAAA),
            transaction_id: TransactionId(6),
            info_hashes: vec![hash(1)],
        })),
        src,
    );
    w.handle(
        Err(RequestParseError::Sendable {
            connection_id: ConnectionId(0xAAAA),
            transaction_id: TransactionId(7),
            message: None,
        }),
        src,
    );
    assert!(w.local.is_empty());
    assert!(w.sent.is_empty());
    assert!(!w.pending.contains(TransactionId(6)));
}

#[test]
fn id_from_another_address_is_refused() {
    let mut w = Worker::new(1, AccessListMode::Off, vec![]);
    let cid = w.connect(1, v4(10, 0, 0, 1, 6881));
    w.handle(Ok(Request::Announce(announce(cid, 2, hash(1)))), v4(10, 0, 0, 1, 6882));
    assert_eq!(w.local.len(), 1);
    assert!(w.sent.is_empty());
}

fn expect_error(w: &Worker, tx: i32, message: &str) {
    match w.local.last() {
        Some((Response::Error(e), _)) => {
            assert_eq!(e.transaction_id, TransactionId(tx));
            assert_eq!(e.message, message);
        }
        other => panic!("expected an error reply, got {:?}", other),
    }
}

#[test]
fn deny_mode_refuses_listed_hash() {
    let mut w = Worker::new(1, AccessListMode::Deny, vec![hash(9)]);
    let src = v4(10, 0, 0, 1, 6881);
    let cid = w.connect(1, src);
    w.handle(Ok(Request::Announce(announce(cid, 2, hash(9)))), src);
    expect_error(&w, 2, "Info hash not allowed");
    assert!(w.sent.is_empty());
    w.handle(Ok(Request::Announce(announce(cid, 3, hash(8)))), src);
    assert_eq!(w.sent.len(), 1);
}

#[test]
fn allow_mode_refuses_unlisted_hash() {
    let mut w = Worker::new(1, AccessListMode::Allow, vec![hash(9)]);
    let src = v4(10, 0, 0, 1, 6881);
    let cid = w.connect(1, src);
    w.handle(Ok(Request::Announce(announce(cid, 2, hash(8)))), src);
    expect_error(&w, 2, "Info hash not allowed");
    assert!(w.sent.is_empty());
    w.handle(Ok(Request::Announce(announce(cid, 3, hash(9)))), src);
    assert_eq!(w.sent.len(), 1);
}

#[test]
fn parse_error_with_known_id_gets_error_reply() {
    let mut w = Worker::new(1, AccessListMode::Off, vec![]);
    let src = v4(10, 0, 0, 1, 6881);
    let cid = w.connect(1, src);
    w.handle(
        Err(RequestParseError::Sendable { connection_id: cid, transaction_id: TransactionId(4), message: None }),
        src,
    );
    expect_error(&w, 4, "Parse error");
    w.handle(
        Err(RequestParseError::Sendable {
            connection_id: cid,
            transaction_id: TransactionId(5),
            message: Some("Invalid action".to_string()),
        }),
        src,
    );
    expect_error(&w, 5, "Invalid action");
    w.handle(Err(RequestParseError::Unsendable), src);
    assert_eq!(w.local.len(), 3);
}

#[test]
fn scrape_over_two_shards_is_answered_once_in_request_order() {
    let mut w = Worker::new(2, AccessListMode::Off, vec![]);
    let src = v4(10, 0, 0, 1, 6881);
    let cid = w.connect(1, src);
    let hashes = vec![hash(0), hash(1), hash(2), hash(3)];
    w.handle(
        Ok(Request::Scrape(ScrapeRequest {
            connection_id: cid,
            transaction_id: TransactionId(9),
            info_hashes: hashes,
        })),
        src,
    );
    assert_eq!(w.sent.len(), 2);
    assert!(w.pending.contains(TransactionId(9)));
    let mut parts = Vec::new();
    for (worker, request, addr) in w.sent.drain(..) {
        assert_eq!(addr, src);
        match request {
            ConnectedRequest::Scrape(p) => {
                let indices: Vec<usize> = p.info_hashes.iter().map(|e| e.index).collect();
                if worker == RequestWorkerIndex(0) {
                    assert_eq!(indices, vec![0, 2]);
                } else {
                    assert_eq!(worker, RequestWorkerIndex(1));
                    assert_eq!(indices, vec![1, 3]);
                }
                let torrent_stats = p
                    .info_hashes
                    .iter()
                    .map(|e| IndexedStats { index: e.index, stats: stats(10 * e.index as i32) })
                    .collect();
                parts.push(PendingScrapeResponse { transaction_id: TransactionId(9), torrent_stats });
            }
            other => panic!("expected a scrape part, got {:?}", other),
        }
    }
    let second = parts.pop().unwrap();
    let first = parts.pop().unwrap();
    assert!(route_response(&mut w.pending, ConnectedResponse::Scrape(second)).is_none());
    match route_response(&mut w.pending, ConnectedResponse::Scrape(first)) {
        Some(Response::Scrape(r)) => {
            assert_eq!(r.transaction_id, TransactionId(9));
            assert_eq!(r.torrent_stats, vec![stats(0), stats(10), stats(20), stats(30)]);
        }
        other => panic!("expected a scrape reply, got {:?}", other),
    }
    assert!(!w.pending.contains(TransactionId(9)));
}

fn part(tx: i32, items: &[(usize, i32)]) -> PendingScrapeResponse {
    PendingScrapeResponse {
        transaction_id: TransactionId(tx),
        torrent_stats: items.iter().map(|&(index, n)| IndexedStats { index, stats: stats(n) }).collect(),
    }
}

fn finished_stats(r: Option<Response>) -> Vec<TorrentScrapeStatistics> {
    match r {
        Some(Response::Scrape(s)) => s.torrent_stats,
        other => panic!("expected a scrape reply, got {:?}", other),
    }
}

#[test]
fn scrape_parts_in_either_order_give_same_reply() {
    let mut a = PendingScrapeResponseMap::new();
    a.prepare(TransactionId(1), 2, ValidUntil(50));
    assert!(a.add_and_get_finished(part(1, &[(0, 1), (2, 3)])).is_none());
    let one = finished_stats(a.add_and_get_finished(part(1, &[(1, 2)])));

    let mut b = PendingScrapeResponseMap::new();
    b.prepare(TransactionId(1), 2, ValidUntil(50));
    assert!(b.add_and_get_finished(part(1, &[(1, 2)])).is_none());
    let other = finished_stats(b.add_and_get_finished(part(1, &[(0, 1), (2, 3)])));

    assert_eq!(one, vec![stats(1), stats(2), stats(3)]);
    assert_eq!(one, other);
}

#[test]
fn part_for_unknown_scrape_is_dropped() {
    let mut m = PendingScrapeResponseMap::new();
    assert!(m.add_and_get_finished(part(4, &[(0, 1)])).is_none());
    assert!(!m.contains(TransactionId(4)));
}

#[test]
fn prepare_replaces_earlier_scrape() {
    let mut m = PendingScrapeResponseMap::new();
    m.prepare(TransactionId(1), 3, ValidUntil(50));
    assert!(m.add_and_get_finished(part(1, &[(0, 7)])).is_none());
    m.prepare(TransactionId(1), 1, ValidUntil(50));
    assert_eq!(finished_stats(m.add_and_get_finished(part(1, &[(0, 1)]))), vec![stats(1)]);
}

#[test]
fn expired_scrape_is_cleaned() {
    let mut m = PendingScrapeResponseMap::new();
    m.prepare(TransactionId(1), 1, ValidUntil(10));
    m.prepare(TransactionId(2), 1, ValidUntil(30));
    m.clean(10);
    assert!(!m.contains(TransactionId(1)));
    assert!(m.contains(TransactionId(2)));
    assert!(m.add_and_get_finished(part(1, &[(0, 1)])).is_none());
}

#[test]
fn connection_expires_after_clean() {
    let mut m = ConnectionMap::new();
    let src = v4(1, 2, 3, 4, 5);
    m.insert(ConnectionId(1), src, ValidUntil(10));
    m.insert(ConnectionId(2), src, ValidUntil(20));
    m.clean(9);
    assert!(m.contains(ConnectionId(1), src));
    m.clean(10);
    assert!(!m.contains(ConnectionId(1), src));
    assert!(m.contains(ConnectionId(2), src));
    assert_eq!(m.len(), 1);
}

#[test]
fn newest_deadline_wins() {
    let mut m = ConnectionMap::new();
    let src = v4(1, 2, 3, 4, 5);
    m.insert(ConnectionId(1), src, ValidUntil(10));
    m.insert(ConnectionId(1), src, ValidUntil(30));
    assert_eq!(m.len(), 1);
    m.clean(20);
    assert!(m.contains(ConnectionId(1), src));
}

#[test]
fn valid_until_adds_and_saturates() {
    assert_eq!(ValidUntil::new(5, 120), ValidUntil(125));
    assert_eq!(ValidUntil::new(u64::MAX - 1, 5), ValidUntil(u64::MAX));
    assert!(ValidUntil(5).is_after(4));
    assert!(!ValidUntil(5).is_after(5));
}

#[test]
fn mapped_source_becomes_ipv4() {
    let mapped = PeerAddr::V6 { ipv6: 0xffff_c0a8_0001, port: 6881 };
    let normal = normalize_source(mapped);
    assert_eq!(normal, v4(192, 168, 0, 1, 6881));
    assert_eq!(reply_address(true, normal), normal);
    assert_eq!(reply_address(false, normal), mapped);
}

#[test]
fn other_sources_unchanged() {
    let plain_v6 = PeerAddr::V6 { ipv6: 0x2001_0db8 << 96, port: 80 };
    assert_eq!(normalize_source(plain_v6), plain_v6);
    assert_eq!(reply_address(false, plain_v6), plain_v6);
    let a = v4(8, 8, 8, 8, 53);
    assert_eq!(normalize_source(a), a);
}

#[test]
fn shard_is_first_byte_modulo_workers() {
    assert_eq!(RequestWorkerIndex::from_info_hash(4, hash(6)), RequestWorkerIndex(2));
    assert_eq!(RequestWorkerIndex::from_info_hash(4, hash(6)), RequestWorkerIndex::from_info_hash(4, hash(6)));
    assert_eq!(RequestWorkerIndex::from_info_hash(1, hash(255)), RequestWorkerIndex(0));
}

#[test]
fn grouping_keeps_request_order_per_worker() {
    let groups = group_by_shard(3, TransactionId(1), &vec![hash(5), hash(2), hash(3), hash(8)]);
    assert_eq!(groups.len(), 2);
    for (worker, part) in groups {
        let indices: Vec<usize> = part.info_hashes.iter().map(|e| e.index).collect();
        match worker.0 {
            2 => assert_eq!(indices, vec![0, 1, 3]),
            0 => assert_eq!(indices, vec![2]),
            other => panic!("unexpected worker {}", other),
        }
    }
    assert!(group_by_shard(3, TransactionId(1), &vec![]).is_empty());
}

#[test]
fn access_list_modes() {
    let list = AccessList { hashes: vec![hash(1)] };
    assert!(list.allows(AccessListMode::Allow, &hash(1)));
    assert!(!list.allows(AccessListMode::Allow, &hash(2)));
    assert!(!list.allows(AccessListMode::Deny, &hash(1)));
    assert!(list.allows(AccessListMode::Deny, &hash(2)));
    assert!(list.allows(AccessListMode::Off, &hash(1)));
}

#[test]
fn counters_count_and_reset() {
    let mut c = Counters::new();
    c.record_received(98, true);
    c.record_received(16, false);
    c.record_sent(16);
    assert_eq!(c.requests_received, 1);
    assert_eq!(c.bytes_received, 114);
    assert_eq!(c.responses_sent, 1);
    assert_eq!(c.bytes_sent, 16);
    let taken = c.take();
    assert_eq!(taken.bytes_received, 114);
    assert_eq!(c, Counters::new());
}

#[test]
fn announce_reply_passes_through() {
    let mut m = PendingScrapeResponseMap::new();
    let r = route_response(
        &mut m,
        ConnectedResponse::Announce(AnnounceResponse {
            transaction_id: TransactionId(3),
            announce_interval: 120,
            leechers: 0,
            seeders: 0,
            peers: vec![],
        }),
    );
    match r {
        Some(Response::Announce(a)) => assert_eq!(a.announce_interval, 120),
        other => panic!("expected an announce reply, got {:?}", other),
    }
}

#[test]
fn datagram_from_mapped_source_is_counted_and_recorded_as_ipv4() {
    let mut w = Worker::new(1, AccessListMode::Off, vec![]);
    let mut counters = Counters::new();
    let mapped = PeerAddr::V6 { ipv6: 0xffff_0a00_0001, port: 6881 };
    handle_datagram(
        &w.config,
        &mut w.connections,
        &mut w.pending,
        &w.access_list,
        &mut w.rng,
        &mut w.sent,
        &mut w.local,
        &mut counters,
        ValidUntil(100),
        16,
        Ok(Request::Connect(ConnectRequest { transaction_id: TransactionId(1) })),
        mapped,
    );
    handle_datagram(
        &w.config,
        &mut w.connections,
        &mut w.pending,
        &w.access_list,
        &mut w.rng,
        &mut w.sent,
        &mut w.local,
        &mut counters,
        ValidUntil(100),
        3,
        Err(RequestParseError::Unsendable),
        mapped,
    );
    assert_eq!(counters.requests_received, 1);
    assert_eq!(counters.bytes_received, 19);
    assert_eq!(counters.responses_sent, 0);
    let cid = match &w.local[0] {
        (Response::Connect(r), addr) => {
            assert_eq!(*addr, v4(10, 0, 0, 1, 6881));
            r.connection_id
        }
        other => panic!("expected a connect reply, got {:?}", other),
    };
    assert!(w.connections.contains(cid, v4(10, 0, 0, 1, 6881)));
    assert!(!w.connections.contains(cid, mapped));
}
