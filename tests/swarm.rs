use aquatic_udp::protocol::{
    AnnounceEvent, AnnounceRequest, ConnectionId, IndexedInfoHash, InfoHash, PeerAddr, PeerId,
    PendingScrapeRequest, TorrentScrapeStatistics, TransactionId, ValidUntil,
};
use aquatic_udp::swarm::SwarmStore;
use rand::rngs::StdRng;
use rand::SeedableRng;

fn info_hash(last: u8) -> InfoHash {
    let mut bytes = [0u8; 20];
    bytes[19] = last;
    InfoHash(bytes)
}

fn addr(last: u8) -> PeerAddr {
    PeerAddr::V4 { ipv4: u32::from_be_bytes([10, 0, 0, last]), port: 1 }
}

fn request(peer: u8, h: InfoHash, event: AnnounceEvent, bytes_left: i64) -> AnnounceRequest {
    AnnounceRequest {
        connection_id: ConnectionId(1),
        transaction_id: TransactionId(peer as i32),
        info_hash: h,
        peer_id: PeerId([peer; 20]),
        bytes_downloaded: 0,
        bytes_uploaded: 0,
        bytes_left,
        event,
        ip_address: None,
        key: 0,
        peers_wanted: 50,
        port: 6881,
    }
}

fn scrape(store: &SwarmStore, hashes: &[InfoHash]) -> Vec<TorrentScrapeStatistics> {
    let request = PendingScrapeRequest {
        transaction_id: TransactionId(77),
        info_hashes: hashes
            .iter()
            .enumerate()
            .map(|(index, h)| IndexedInfoHash { index, info_hash: *h })
            .collect(),
    };
    let r = store.handle_scrape(&request);
    assert_eq!(r.transaction_id, TransactionId(77));
    r.torrent_stats
        .iter()
        .enumerate()
        .map(|(i, s)| {
            assert_eq!(s.index, i);
            s.stats
        })
        .collect()
}

#[test]
fn second_announcer_is_listed_to_the_first() {
    let mut store = SwarmStore::new();
    let mut rng = StdRng::seed_from_u64(1);
    let h = info_hash(1);
    let first = store.handle_announce(&mut rng, &request(0x11, h, AnnounceEvent::Started, 100), addr(1), ValidUntil(50), 100, 120);
    assert_eq!(first.transaction_id, TransactionId(0x11));
    assert_eq!(first.announce_interval, 120);
    assert_eq!((first.seeders, first.leechers), (0, 1));
    assert!(first.peers.is_empty());

    let second = store.handle_announce(&mut rng, &request(0x22, h, AnnounceEvent::Started, 100), addr(2), ValidUntil(50), 100, 120);
    assert_eq!(second.peers, vec![PeerAddr::V4 { ipv4: u32::from_be_bytes([10, 0, 0, 1]), port: 6881 }]);

    let again = store.handle_announce(&mut rng, &request(0x11, h, AnnounceEvent::NoEvent, 100), addr(1), ValidUntil(60), 100, 120);
    assert_eq!(again.peers, vec![PeerAddr::V4 { ipv4: u32::from_be_bytes([10, 0, 0, 2]), port: 6881 }]);
    assert_eq!((again.seeders, again.leechers), (0, 2));
}

#[test]
fn seeders_completed_and_stopped_are_counted() {
    let mut store = SwarmStore::new();
    let mut rng = StdRng::seed_from_u64(1);
    let h = info_hash(2);
    store.handle_announce(&mut rng, &request(1, h, AnnounceEvent::Started, 100), addr(1), ValidUntil(50), 100, 120);
    store.handle_announce(&mut rng, &request(2, h, AnnounceEvent::Completed, 0), addr(2), ValidUntil(50), 100, 120);
    assert_eq!(scrape(&store, &[h]), vec![TorrentScrapeStatistics { seeders: 1, completed: 1, leechers: 1 }]);
    let r = store.handle_announce(&mut rng, &request(1, h, AnnounceEvent::Stopped, 100), addr(1), ValidUntil(50), 100, 120);
    assert_eq!((r.seeders, r.leechers), (1, 0));
    assert_eq!(scrape(&store, &[h]), vec![TorrentScrapeStatistics { seeders: 1, completed: 1, leechers: 0 }]);
}

#[test]
fn peers_wanted_caps_the_list() {
    let mut store = SwarmStore::new();
    let mut rng = StdRng::seed_from_u64(1);
    let h = info_hash(3);
    for p in 1..=5u8 {
        store.handle_announce(&mut rng, &request(p, h, AnnounceEvent::Started, 1), addr(p), ValidUntil(50), 100, 120);
    }
    let mut req = request(9, h, AnnounceEvent::Started, 1);
    req.peers_wanted = 2;
    assert_eq!(store.handle_announce(&mut rng, &req, addr(9), ValidUntil(50), 100, 120).peers.len(), 2);
    req.peers_wanted = 0;
    assert_eq!(store.handle_announce(&mut rng, &req, addr(9), ValidUntil(50), 3, 120).peers.len(), 3);
}

#[test]
fn stopping_in_unknown_swarm_creates_nothing() {
    let mut store = SwarmStore::new();
    let mut rng = StdRng::seed_from_u64(1);
    let h = info_hash(4);
    let r = store.handle_announce(&mut rng, &request(1, h, AnnounceEvent::Stopped, 1), addr(1), ValidUntil(50), 100, 120);
    assert_eq!((r.seeders, r.leechers), (0, 0));
    assert_eq!(scrape(&store, &[h]), vec![TorrentScrapeStatistics { seeders: 0, completed: 0, leechers: 0 }]);
}

#[test]
fn unknown_hash_scrapes_as_zero() {
    let mut store = SwarmStore::new();
    let mut rng = StdRng::seed_from_u64(1);
    store.handle_announce(&mut rng, &request(1, info_hash(5), AnnounceEvent::Started, 1), addr(1), ValidUntil(50), 100, 120);
    assert_eq!(
        scrape(&store, &[info_hash(6), info_hash(5)]),
        vec![
            TorrentScrapeStatistics { seeders: 0, completed: 0, leechers: 0 },
            TorrentScrapeStatistics { seeders: 0, completed: 0, leechers: 1 },
        ]
    );
}

#[test]
fn clean_removes_idle_swarms() {
    let mut store = SwarmStore::new();
    let mut rng = StdRng::seed_from_u64(1);
    let idle = info_hash(7);
    let busy = info_hash(8);
    store.handle_announce(&mut rng, &request(1, idle, AnnounceEvent::Completed, 0), addr(1), ValidUntil(10), 100, 120);
    store.handle_announce(&mut rng, &request(2, busy, AnnounceEvent::Started, 5), addr(2), ValidUntil(10), 100, 120);
    store.handle_announce(&mut rng, &request(3, busy, AnnounceEvent::Started, 5), addr(3), ValidUntil(30), 100, 120);
    store.clean(10);
    assert_eq!(
        scrape(&store, &[idle, busy]),
        vec![
            TorrentScrapeStatistics { seeders: 0, completed: 0, leechers: 0 },
            TorrentScrapeStatistics { seeders: 0, completed: 0, leechers: 1 },
        ]
    );
}

#[test]
fn all_other_peers_listed_when_fewer_than_wanted() {
    let mut store = SwarmStore::new();
    let mut rng = StdRng::seed_from_u64(3);
    let h = info_hash(9);
    for p in 1..=5u8 {
        store.handle_announce(&mut rng, &request(p, h, AnnounceEvent::Started, 1), addr(p), ValidUntil(50), 100, 120);
    }
    let r = store.handle_announce(&mut rng, &request(3, h, AnnounceEvent::NoEvent, 1), addr(3), ValidUntil(50), 100, 120);
    let mut got: Vec<u32> = r
        .peers
        .iter()
        .map(|a| match a {
            PeerAddr::V4 { ipv4, .. } => *ipv4,
            PeerAddr::V6 { .. } => panic!("unexpected IPv6 peer"),
        })
        .collect();
    got.sort();
    let want: Vec<u32> = [1u8, 2, 4, 5].iter().map(|p| u32::from_be_bytes([10, 0, 0, *p])).collect();
    assert_eq!(got, want);
}
