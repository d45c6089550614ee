use vstd::prelude::*;

use crate::protocol::{
    IndexedStats, PendingScrapeResponse, Response, ScrapeResponse, TorrentScrapeStatistics,
    TransactionId, ValidUntil, ordered_stats, stats_below, stats_map_of, lemma_stats_below_extend,
};

verus! {

/// What is known of a scrape in flight: shard replies still expected, deadline, and the
/// figures gathered so far by request index.
pub type PendingState = (nat, u64, Map<usize, TorrentScrapeStatistics>);

/// The figures held in a slot list: slot `i` holds the figures for request index `i`.
pub open spec fn slots_map(slots: Seq<Option<TorrentScrapeStatistics>>) -> Map<usize, TorrentScrapeStatistics> {
    Map::new(
        |i: usize| i < slots.len() && slots[i as int] is Some,
        |i: usize| slots[i as int]->Some_0,
    )
}

/// Bookkeeping of a scrape in flight: shard replies still expected, and its deadline.
pub struct PendingScrapeResponseMeta {
    num_pending: usize,
    valid_until: ValidUntil,
}

struct PendingEntry {
    transaction_id: TransactionId,
    meta: PendingScrapeResponseMeta,
    slots: Vec<Option<TorrentScrapeStatistics>>,
}

spec fn entry_state(e: PendingEntry) -> PendingState {
    (e.meta.num_pending as nat, e.meta.valid_until.0, slots_map(e.slots@))
}

spec fn keys_unique(s: Seq<PendingEntry>) -> bool {
    forall|i: int, j: int|
        0 <= i < j < s.len() ==> #[trigger] s[i].transaction_id != #[trigger] s[j].transaction_id
}

spec fn has_key(s: Seq<PendingEntry>, k: TransactionId) -> bool {
    exists|i: int| 0 <= i < s.len() && #[trigger] s[i].transaction_id == k
}

spec fn table_view(s: Seq<PendingEntry>) -> Map<TransactionId, PendingState> {
    Map::new(
        |k: TransactionId| has_key(s, k),
        |k: TransactionId| entry_state(s[choose|i: int| 0 <= i < s.len() && #[trigger] s[i].transaction_id == k]),
    )
}

proof fn lemma_state_at(s: Seq<PendingEntry>, i: int)
    requires
        keys_unique(s),
        0 <= i < s.len(),
    ensures
        table_view(s).contains_key(s[i].transaction_id),
        table_view(s)[s[i].transaction_id] == entry_state(s[i]),
{
    let k = s[i].transaction_id;
    assert(has_key(s, k));
    let j = choose|j: int| 0 <= j < s.len() && #[trigger] s[j].transaction_id == k;
    if i < j {
        assert(s[i].transaction_id != s[j].transaction_id);
    } else if j < i {
        assert(s[j].transaction_id != s[i].transaction_id);
    }
}

proof fn lemma_push(s: Seq<PendingEntry>, e: PendingEntry)
    requires
        keys_unique(s),
        !table_view(s).contains_key(e.transaction_id),
    ensures
        keys_unique(s.push(e)),
        table_view(s.push(e)) == table_view(s).insert(e.transaction_id, entry_state(e)),
{
    let t = s.push(e);
    let last = s.len() as int;
    assert forall|a: int, b: int| 0 <= a < b < t.len() implies
        #[trigger] t[a].transaction_id != #[trigger] t[b].transaction_id by {
        if b < last {
            assert(s[a].transaction_id != s[b].transaction_id);
        } else {
            assert(s[a].transaction_id == t[a].transaction_id);
            if s[a].transaction_id == e.transaction_id {
                assert(has_key(s, e.transaction_id));
            }
        }
    }
    let target = table_view(s).insert(e.transaction_id, entry_state(e));
    assert forall|q| #[trigger] table_view(t).contains_key(q) <==> target.contains_key(q) by {
        if has_key(t, q) {
            let j = choose|j: int| 0 <= j < t.len() && #[trigger] t[j].transaction_id == q;
            if j != last {
                assert(s[j].transaction_id == q);
                assert(has_key(s, q));
            }
        }
        if has_key(s, q) {
            let j = choose|j: int| 0 <= j < s.len() && #[trigger] s[j].transaction_id == q;
            assert(t[j].transaction_id == q);
            assert(has_key(t, q));
        }
        if q == e.transaction_id {
            assert(t[last].transaction_id == q);
            assert(has_key(t, q));
        }
    }
    assert forall|q| #[trigger] table_view(t).contains_key(q) implies table_view(t)[q] == target[q] by {
        let j = choose|j: int| 0 <= j < t.len() && #[trigger] t[j].transaction_id == q;
        lemma_state_at(t, j);
        if j != last {
            assert(s[j] == t[j]);
            lemma_state_at(s, j);
        }
    }
    assert(table_view(t) =~= target);
}

spec fn all_pending(s: Seq<PendingEntry>) -> bool {
    forall|i: int| 0 <= i < s.len() ==> #[trigger] s[i].meta.num_pending > 0
}

proof fn lemma_remove(s: Seq<PendingEntry>, j: int)
    requires
        keys_unique(s),
        0 <= j < s.len(),
    ensures
        keys_unique(s.remove(j)),
        all_pending(s) ==> all_pending(s.remove(j)),
        table_view(s.remove(j)) == table_view(s).remove(s[j].transaction_id),
{
    let t = s.remove(j);
    let k = s[j].transaction_id;
    if all_pending(s) {
        assert forall|i: int| 0 <= i < t.len() implies #[trigger] t[i].meta.num_pending > 0 by {
            let i2 = if i < j { i } else { i + 1 };
            assert(t[i] == s[i2]);
        }
    }
    assert forall|a: int, b: int| 0 <= a < b < t.len() implies
        #[trigger] t[a].transaction_id != #[trigger] t[b].transaction_id by {
        let a2 = if a < j { a } else { a + 1 };
        let b2 = if b < j { b } else { b + 1 };
        assert(t[a] == s[a2]);
        assert(t[b] == s[b2]);
        assert(s[a2].transaction_id != s[b2].transaction_id);
    }
    let target = table_view(s).remove(k);
    assert forall|q| #[trigger] table_view(t).contains_key(q) <==> target.contains_key(q) by {
        if has_key(t, q) {
            let i = choose|i: int| 0 <= i < t.len() && #[trigger] t[i].transaction_id == q;
            let i2 = if i < j { i } else { i + 1 };
            assert(s[i2].transaction_id == q);
            assert(has_key(s, q));
            if q == k {
                if i2 < j {
                    assert(s[i2].transaction_id != s[j].transaction_id);
                } else {
                    assert(s[j].transaction_id != s[i2].transaction_id);
                }
            }
        }
        if has_key(s, q) && q != k {
            let i = choose|i: int| 0 <= i < s.len() && #[trigger] s[i].transaction_id == q;
            let i2 = if i < j { i } else { i - 1 };
            assert(t[i2].transaction_id == q);
            assert(has_key(t, q));
        }
    }
    assert forall|q| #[trigger] table_view(t).contains_key(q) implies table_view(t)[q] == target[q] by {
        let i = choose|i: int| 0 <= i < t.len() && #[trigger] t[i].transaction_id == q;
        lemma_state_at(t, i);
        let i2 = if i < j { i } else { i + 1 };
        assert(t[i] == s[i2]);
        lemma_state_at(s, i2);
    }
    assert(table_view(t) =~= target);
}

/// Scrapes in flight on one socket worker, keyed by transaction id.
pub struct PendingScrapeResponseMap {
    entries: Vec<PendingEntry>,
}

/// Stores one part's figures in the slot list, growing it as needed.
fn place(slots: &mut Vec<Option<TorrentScrapeStatistics>>, item: IndexedStats)
    requires
        item.index < usize::MAX,
    ensures
        slots_map(final(slots)@) == slots_map(old(slots)@).insert(item.index, item.stats),
{
    while slots.len() <= item.index
        invariant
            slots_map(slots@) == slots_map(old(slots)@),
            item.index < usize::MAX,
        decreases item.index + 1 - slots@.len(),
    {
        let ghost prev = slots@;
        slots.push(None);
        assert(slots_map(slots@) =~= slots_map(prev));
    }
    let ghost prev = slots@;
    slots.set(item.index, Some(item.stats));
    assert(slots_map(slots@) =~= slots_map(prev).insert(item.index, item.stats));
}

/// The figures of a slot list in index order.
fn collect_slots(slots: &Vec<Option<TorrentScrapeStatistics>>) -> (r: Vec<TorrentScrapeStatistics>)
    ensures
        r@ == ordered_stats(slots_map(slots@)),
{
    let ghost m = slots_map(slots@);
    let mut r: Vec<TorrentScrapeStatistics> = Vec::new();
    let mut i: usize = 0;
    while i < slots.len()
        invariant
            m == slots_map(slots@),
            i <= slots@.len(),
            r@ == stats_below(m, i as nat),
        decreases slots@.len() - i,
    {
        match slots[i] {
            Some(st) => {
                assert(m.contains_key(i));
                r.push(st);
            },
            None => {
                assert(!m.contains_key(i));
            },
        }
        assert(stats_below(m, (i + 1) as nat) == r@);
        i = i + 1;
    }
    proof {
        lemma_stats_below_extend(m, slots@.len(), usize::MAX as nat + 1);
    }
    r
}

/// Whether `r` is the scrape reply for `transaction_id` carrying `stats`.
pub open spec fn is_scrape_reply(r: Option<Response>, transaction_id: TransactionId, stats: Seq<TorrentScrapeStatistics>) -> bool {
    match r {
        Some(Response::Scrape(s)) => s.transaction_id == transaction_id && s.torrent_stats@ == stats,
        _ => false,
    }
}

/// The scrapes of `m` whose deadline lies after `now`.
pub open spec fn live_states(m: Map<TransactionId, PendingState>, now: u64) -> Map<TransactionId, PendingState> {
    Map::new(|k: TransactionId| m.contains_key(k) && m[k].1 > now, |k: TransactionId| m[k])
}

/// The figures of a scrape in flight after a shard's part is merged in.
pub open spec fn merged_stats(state: PendingState, part: Seq<IndexedStats>) -> Map<usize, TorrentScrapeStatistics> {
    state.2.union_prefer_right(stats_map_of(part))
}

impl PendingScrapeResponseMap {
    /// Keys are unique and every entry still expects a reply.
    pub closed spec fn wf(&self) -> bool {
        &&& keys_unique(self.entries@)
        &&& all_pending(self.entries@)
    }

    /// The table as a map from transaction id to the scrape's state.
    pub closed spec fn view(&self) -> Map<TransactionId, PendingState> {
        table_view(self.entries@)
    }

    /// An empty table.
    pub fn new() -> (r: PendingScrapeResponseMap)
        ensures
            r.wf(),
            r@ == Map::<TransactionId, PendingState>::empty(),
    {
        let r = PendingScrapeResponseMap { entries: Vec::new() };
        assert(r@ =~= Map::<TransactionId, PendingState>::empty());
        r
    }

    fn find(&self, transaction_id: TransactionId) -> (r: Option<usize>)
        requires
            keys_unique(self.entries@),
        ensures
            r matches Some(j) ==> j < self.entries@.len() && self.entries@[j as int].transaction_id == transaction_id,
            r is None ==> !self@.contains_key(transaction_id),
    {
        let mut i: usize = 0;
        while i < self.entries.len()
            invariant
                i <= self.entries@.len(),
                forall|j: int| 0 <= j < i ==> #[trigger] self.entries@[j].transaction_id != transaction_id,
            decreases self.entries@.len() - i,
        {
            if self.entries[i].transaction_id == transaction_id {
                return Some(i);
            }
            i = i + 1;
        }
        None
    }

    /// Whether a scrape with this transaction id is in flight.
    pub fn contains(&self, transaction_id: TransactionId) -> (r: bool)
        requires
            self.wf(),
        ensures
            r == self@.contains_key(transaction_id),
    {
        match self.find(transaction_id) {
            Some(j) => {
                proof {
                    lemma_state_at(self.entries@, j as int);
                }
                true
            },
            None => false,
        }
    }

    /// Starts a scrape that expects `num_pending` shard replies, replacing any scrape
    /// under the same transaction id.
    pub fn prepare(&mut self, transaction_id: TransactionId, num_pending: usize, valid_until: ValidUntil)
        requires
            old(self).wf(),
            num_pending > 0,
        ensures
            final(self).wf(),
            final(self)@ == old(self)@.insert(
                transaction_id,
                (num_pending as nat, valid_until.0, Map::<usize, TorrentScrapeStatistics>::empty()),
            ),
    {
        let ghost pre = self.entries@;
        match self.find(transaction_id) {
            Some(j) => {
                self.entries.remove(j);
                proof {
                    lemma_remove(pre, j as int);
                }
            },
            None => {},
        }
        let ghost mid = self.entries@;
        let entry = PendingEntry {
            transaction_id,
            meta: PendingScrapeResponseMeta { num_pending, valid_until },
            slots: Vec::new(),
        };
        assert(slots_map(entry.slots@) =~= Map::<usize, TorrentScrapeStatistics>::empty());
        self.entries.push(entry);
        proof {
            assert(!table_view(mid).contains_key(transaction_id));
            lemma_push(mid, entry);
            assert(table_view(pre).remove(transaction_id).insert(transaction_id, entry_state(entry))
                =~= table_view(pre).insert(transaction_id, entry_state(entry)));
            assert(self.entries@[mid.len() as int] == entry);
        }
    }

    /// Merges one shard's part into its scrape. When that was the last part expected, the
    /// scrape leaves the table and its reply is returned, with the figures in request
    /// order. A part whose scrape is not in the table is dropped.
    pub fn add_and_get_finished(&mut self, response: PendingScrapeResponse) -> (r: Option<Response>)
        requires
            old(self).wf(),
            forall|i: int| 0 <= i < response.torrent_stats@.len() ==> #[trigger] response.torrent_stats@[i].index < usize::MAX,
        ensures
            final(self).wf(),
            !old(self)@.contains_key(response.transaction_id) ==> r is None && final(self)@ == old(self)@,
            old(self)@.contains_key(response.transaction_id) ==> {
                let tx = response.transaction_id;
                let st = old(self)@[tx];
                let merged = merged_stats(st, response.torrent_stats@);
                if st.0 == 1 {
                    &&& is_scrape_reply(r, tx, ordered_stats(merged))
                    &&& final(self)@ == old(self)@.remove(tx)
                } else {
                    &&& r is None
                    &&& final(self)@ == old(self)@.insert(tx, ((st.0 - 1) as nat, st.1, merged))
                }
            },
    {
        let tx = response.transaction_id;
        let ghost pre = self.entries@;
        let j = match self.find(tx) {
            Some(j) => j,
            None => return None,
        };
        let mut entry = self.entries.remove(j);
        proof {
            lemma_remove(pre, j as int);
            lemma_state_at(pre, j as int);
            assert(pre[j as int].meta.num_pending > 0);
        }
        let ghost mid = self.entries@;
        let ghost base = slots_map(entry.slots@);
        let parts = &response.torrent_stats;
        let mut i: usize = 0;
        while i < parts.len()
            invariant
                i <= parts@.len(),
                forall|q: int| 0 <= q < parts@.len() ==> #[trigger] parts@[q].index < usize::MAX,
                slots_map(entry.slots@) == base.union_prefer_right(stats_map_of(parts@.take(i as int))),
                entry.transaction_id == tx,
                entry.meta.num_pending == pre[j as int].meta.num_pending,
                entry.meta.valid_until == pre[j as int].meta.valid_until,
                entry.meta.num_pending > 0,
                pre[j as int].transaction_id == tx,
                base == slots_map(pre[j as int].slots@),
                mid == self.entries@,
                keys_unique(mid),
                all_pending(mid),
                table_view(mid) == table_view(pre).remove(tx),
                table_view(pre).contains_key(tx),
                table_view(pre)[tx] == entry_state(pre[j as int]),
                tx == response.transaction_id,
                parts == &response.torrent_stats,
            decreases parts@.len() - i,
        {
            let ghost before = slots_map(entry.slots@);
            place(&mut entry.slots, parts[i]);
            proof {
                let t = parts@.take(i as int + 1);
                assert(t.drop_last() =~= parts@.take(i as int));
                assert(base.union_prefer_right(stats_map_of(t)) =~= before.insert(parts@[i as int].index, parts@[i as int].stats));
            }
            i = i + 1;
        }
        assert(parts@.take(parts@.len() as int) =~= parts@);
        if entry.meta.num_pending == 1 {
            let stats = collect_slots(&entry.slots);
            Some(Response::Scrape(ScrapeResponse { transaction_id: tx, torrent_stats: stats }))
        } else {
            entry.meta.num_pending = entry.meta.num_pending - 1;
            self.entries.push(entry);
            proof {
                lemma_push(mid, entry);
                assert(table_view(pre).remove(tx).insert(tx, entry_state(entry))
                    =~= table_view(pre).insert(tx, entry_state(entry)));
                assert(self.entries@[mid.len() as int] == entry);
            }
            None
        }
    }

    /// Drops every scrape whose deadline is not after `now`.
    pub fn clean(&mut self, now: u64)
        requires
            old(self).wf(),
        ensures
            final(self).wf(),
            final(self)@ == live_states(old(self)@, now),
    {
        let ghost pre = self.entries@;
        let mut i: usize = 0;
        while i < self.entries.len()
            invariant
                i <= self.entries@.len(),
                keys_unique(self.entries@),
                all_pending(self.entries@),
                live_states(table_view(self.entries@), now) == live_states(table_view(pre), now),
                forall|j: int| 0 <= j < i ==> #[trigger] self.entries@[j].meta.valid_until.0 > now,
            decreases self.entries@.len() - i,
        {
            if self.entries[i].meta.valid_until.0 > now {
                i = i + 1;
            } else {
                let ghost before = self.entries@;
                self.entries.remove(i);
                proof {
                    lemma_remove(before, i as int);
                    lemma_state_at(before, i as int);
                    assert(live_states(table_view(self.entries@), now) =~= live_states(table_view(before), now));
                    assert forall|j: int| 0 <= j < i implies #[trigger] self.entries@[j].meta.valid_until.0 > now by {
                        assert(self.entries@[j] == before[j]);
                    }
                }
            }
        }
        proof {
            let v = table_view(self.entries@);
            assert forall|k| #[trigger] v.contains_key(k) implies v[k].1 > now by {
                let j = choose|j: int| 0 <= j < self.entries@.len() && #[trigger] self.entries@[j].transaction_id == k;
                lemma_state_at(self.entries@, j);
            }
            assert(live_states(v, now) =~= v);
        }
    }
}

impl Default for PendingScrapeResponseMap {
    fn default() -> (r: PendingScrapeResponseMap)
        ensures
            r.wf(),
            r@ == Map::<TransactionId, PendingState>::empty(),
    {
        PendingScrapeResponseMap::new()
    }
}

} // verus!

verus! {

/// Figures whose indices are exactly `0..n` come out as `n` figures, the `i`-th for index `i`.
pub proof fn lemma_ordered_stats_dense(m: Map<usize, TorrentScrapeStatistics>, n: nat)
    requires
        n <= usize::MAX as nat + 1,
        forall|i: usize| #[trigger] m.contains_key(i) <==> (i as nat) < n,
    ensures
        ordered_stats(m).len() == n,
        forall|i: int| 0 <= i < n ==> #[trigger] ordered_stats(m)[i] == m[i as usize],
{
    lemma_stats_below_dense(m, n, n);
    lemma_stats_below_extend(m, n, usize::MAX as nat + 1);
}

proof fn lemma_stats_below_dense(m: Map<usize, TorrentScrapeStatistics>, n: nat, c: nat)
    requires
        c <= n <= usize::MAX as nat + 1,
        forall|i: usize| #[trigger] m.contains_key(i) <==> (i as nat) < n,
    ensures
        stats_below(m, c).len() == c,
        forall|i: int| 0 <= i < c ==> #[trigger] stats_below(m, c)[i] == m[i as usize],
    decreases c,
{
    if c > 0 {
        lemma_stats_below_dense(m, n, (c - 1) as nat);
        assert(m.contains_key((c - 1) as usize));
    }
}

/// A scrape split over two shards: whichever shard answers first, the reply carries the
/// same figures, one for each requested info-hash, in request order.
pub proof fn lemma_two_shard_scrape(valid_until: u64, first: Seq<IndexedStats>, second: Seq<IndexedStats>, k: nat)
    requires
        k <= usize::MAX as nat + 1,
        stats_map_of(first).dom().disjoint(stats_map_of(second).dom()),
        forall|i: usize|
            (#[trigger] stats_map_of(first).contains_key(i) || stats_map_of(second).contains_key(i)) <==> (i as nat) < k,
    ensures
        ({
            let start: PendingState = (2, valid_until, Map::empty());
            let one = merged_stats((1, valid_until, merged_stats(start, first)), second);
            let other = merged_stats((1, valid_until, merged_stats(start, second)), first);
            &&& one == other
            &&& ordered_stats(one).len() == k
            &&& forall|i: int| 0 <= i < k ==> #[trigger] ordered_stats(one)[i] == one[i as usize]
        }),
{
    let start: PendingState = (2, valid_until, Map::empty());
    let one = merged_stats((1, valid_until, merged_stats(start, first)), second);
    let other = merged_stats((1, valid_until, merged_stats(start, second)), first);
    let a = stats_map_of(first);
    let b = stats_map_of(second);
    assert forall|i: usize| #[trigger] one.contains_key(i) <==> (i as nat) < k by {
        assert(a.contains_key(i) || b.contains_key(i) <==> (i as nat) < k);
    }
    assert forall|i: usize| one.contains_key(i) implies #[trigger] one[i] == other[i] by {
        if a.contains_key(i) {
            assert(!b.contains_key(i));
        }
    }
    assert(one =~= other);
    lemma_ordered_stats_dense(one, k);
}

} // verus!
