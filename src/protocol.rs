use vstd::prelude::*;

verus! {

/// A peer's source address: an IPv4 or IPv6 address and a port.
#[derive(Clone, Copy, PartialEq, Eq, Structural, Debug)]
pub enum PeerAddr {
    V4 { ipv4: u32, port: u16 },
    V6 { ipv6: u128, port: u16 },
}

/// Opaque token handed out in reply to a connect request.
#[derive(Clone, Copy, PartialEq, Eq, Structural, Debug)]
pub struct ConnectionId(pub i64);

/// Client-chosen correlation token, echoed in every reply.
#[derive(Clone, Copy, PartialEq, Eq, Structural, Debug)]
pub struct TransactionId(pub i32);

/// Deadline on a monotonic clock, in seconds since the clock's origin.
#[derive(Clone, Copy, PartialEq, Eq, Structural, Debug)]
pub struct ValidUntil(pub u64);

impl ValidUntil {
    /// The deadline `offset_seconds` after `now`, saturating at the clock's end.
    pub fn new(now: u64, offset_seconds: u64) -> (r: ValidUntil)
        ensures
            r.0 == if now + offset_seconds > u64::MAX { u64::MAX as int } else { now + offset_seconds },
    {
        ValidUntil(now.saturating_add(offset_seconds))
    }

    /// Whether the deadline still lies ahead of `now`.
    pub fn is_after(&self, now: u64) -> (r: bool)
        ensures
            r == (self.0 > now),
    {
        self.0 > now
    }
}

} // verus!

verus! {

/// Per-torrent figures in a scrape reply.
#[derive(Clone, Copy, PartialEq, Eq, Structural, Debug)]
pub struct TorrentScrapeStatistics {
    pub seeders: i32,
    pub completed: i32,
    pub leechers: i32,
}

/// Scrape figures for the info-hash at `index` in the client's request.
#[derive(Clone, Copy, PartialEq, Eq, Structural, Debug)]
pub struct IndexedStats {
    pub index: usize,
    pub stats: TorrentScrapeStatistics,
}

/// One shard's part of a scrape reply.
#[derive(Clone, Debug)]
pub struct PendingScrapeResponse {
    pub transaction_id: TransactionId,
    pub torrent_stats: Vec<IndexedStats>,
}

/// A complete scrape reply: figures in the order of the request's info-hashes.
#[derive(Clone, Debug)]
pub struct ScrapeResponse {
    pub transaction_id: TransactionId,
    pub torrent_stats: Vec<TorrentScrapeStatistics>,
}

/// The figures of a list of parts, by request index; a later part for an index wins.
pub open spec fn stats_map_of(s: Seq<IndexedStats>) -> Map<usize, TorrentScrapeStatistics>
    decreases s.len(),
{
    if s.len() == 0 {
        Map::empty()
    } else {
        stats_map_of(s.drop_last()).insert(s.last().index, s.last().stats)
    }
}

/// The figures of `m` whose index is below `n`, in index order.
pub open spec fn stats_below(m: Map<usize, TorrentScrapeStatistics>, n: nat) -> Seq<TorrentScrapeStatistics>
    decreases n,
{
    if n == 0 {
        Seq::empty()
    } else {
        let prev = stats_below(m, (n - 1) as nat);
        if m.contains_key((n - 1) as usize) {
            prev.push(m[(n - 1) as usize])
        } else {
            prev
        }
    }
}

/// All figures of `m`, in index order.
pub open spec fn ordered_stats(m: Map<usize, TorrentScrapeStatistics>) -> Seq<TorrentScrapeStatistics> {
    stats_below(m, usize::MAX as nat + 1)
}

/// Indices at or above `n` add nothing to the ordered figures.
pub proof fn lemma_stats_below_extend(m: Map<usize, TorrentScrapeStatistics>, n: nat, n2: nat)
    requires
        n <= n2 <= usize::MAX as nat + 1,
        forall|k: usize| #[trigger] m.contains_key(k) ==> k < n,
    ensures
        stats_below(m, n2) == stats_below(m, n),
    decreases n2 - n,
{
    if n < n2 {
        lemma_stats_below_extend(m, n, (n2 - 1) as nat);
        let last = (n2 - 1) as usize;
        assert(last as nat == n2 - 1);
        assert(!m.contains_key(last));
    }
}

} // verus!

verus! {

/// Reply to a connect request.
#[derive(Clone, Copy, PartialEq, Eq, Structural, Debug)]
pub struct ConnectResponse {
    pub connection_id: ConnectionId,
    pub transaction_id: TransactionId,
}

/// Reply to an announce: the swarm's counts and a sample of its peers.
#[derive(Clone, Debug)]
pub struct AnnounceResponse {
    pub transaction_id: TransactionId,
    pub announce_interval: i32,
    pub leechers: i32,
    pub seeders: i32,
    pub peers: Vec<PeerAddr>,
}

/// Reply carrying a short diagnostic.
#[derive(Clone, Debug)]
pub struct ErrorResponse {
    pub transaction_id: TransactionId,
    pub message: String,
}

/// A reply to a client.
#[derive(Clone, Debug)]
pub enum Response {
    Connect(ConnectResponse),
    Announce(AnnounceResponse),
    Scrape(ScrapeResponse),
    Error(ErrorResponse),
}

} // verus!

verus! {

/// 20-byte identifier of a swarm.
#[derive(Clone, Copy, Debug)]
pub struct InfoHash(pub [u8; 20]);

/// 20-byte identifier a peer chooses for itself.
#[derive(Clone, Copy, Debug)]
pub struct PeerId(pub [u8; 20]);

/// What an announce reports about the peer's download.
#[derive(Clone, Copy, PartialEq, Eq, Structural, Debug)]
pub enum AnnounceEvent {
    Started,
    Stopped,
    Completed,
    NoEvent,
}

/// Opening handshake; answered with a fresh connection id.
#[derive(Clone, Copy, PartialEq, Eq, Structural, Debug)]
pub struct ConnectRequest {
    pub transaction_id: TransactionId,
}

/// A peer joining, refreshing or leaving a swarm.
#[derive(Clone, Copy, Debug)]
pub struct AnnounceRequest {
    pub connection_id: ConnectionId,
    pub transaction_id: TransactionId,
    pub info_hash: InfoHash,
    pub peer_id: PeerId,
    pub bytes_downloaded: i64,
    pub bytes_uploaded: i64,
    pub bytes_left: i64,
    pub event: AnnounceEvent,
    pub ip_address: Option<u32>,
    pub key: i32,
    pub peers_wanted: i32,
    pub port: u16,
}

/// A request for the figures of several swarms.
#[derive(Clone, Debug)]
pub struct ScrapeRequest {
    pub connection_id: ConnectionId,
    pub transaction_id: TransactionId,
    pub info_hashes: Vec<InfoHash>,
}

/// A decoded datagram.
#[derive(Clone, Debug)]
pub enum Request {
    Connect(ConnectRequest),
    Announce(AnnounceRequest),
    Scrape(ScrapeRequest),
}

/// Why a datagram could not be decoded. A sendable error carries enough of the request
/// to answer it, and a diagnostic where the decoder gave one.
#[derive(Clone, Debug)]
pub enum RequestParseError {
    Sendable { connection_id: ConnectionId, transaction_id: TransactionId, message: Option<String> },
    Unsendable,
}

/// An info-hash together with its position in the client's scrape request.
#[derive(Clone, Copy, Debug)]
pub struct IndexedInfoHash {
    pub index: usize,
    pub info_hash: InfoHash,
}

/// The part of a scrape that one request worker answers.
#[derive(Clone, Debug)]
pub struct PendingScrapeRequest {
    pub transaction_id: TransactionId,
    pub info_hashes: Vec<IndexedInfoHash>,
}

/// A request that passed the connection check, on its way to a request worker.
#[derive(Clone, Debug)]
pub enum ConnectedRequest {
    Announce(AnnounceRequest),
    Scrape(PendingScrapeRequest),
}

/// A request worker's answer, on its way back to the socket worker.
#[derive(Clone, Debug)]
pub enum ConnectedResponse {
    Announce(AnnounceResponse),
    Scrape(PendingScrapeResponse),
}

} // verus!
