//! Top-K torrents by peers, seeders, leechers and completions, collected in
//! one pass over the swarms; partial results from several trackers merge.
use vstd::prelude::*;
use crate::order::{bytes_lt, compare_bytes, Order};
use crate::swarm::{min, Swarm};
use crate::tracker::{stats_of, Tracker};
use crate::types::{InfoHash, TorrentStats};

verus! {

/// A ranked torrent: rank key, info hash, seeders, leechers, completions.
pub type Ranked = (u64, InfoHash, usize, usize, u64);

/// A torrent in a ranking: info hash, seeders, leechers, completions.
pub type TopEntry = (InfoHash, usize, usize, u64);

/// The four rankings.
pub struct Top100All {
    pub peers: Vec<TopEntry>,
    pub seeders: Vec<TopEntry>,
    pub leechers: Vec<TopEntry>,
    pub downloaded: Vec<TopEntry>,
}

impl Top100All {
    /// Four empty rankings.
    pub fn empty() -> (r: Self)
        ensures
            r.peers@.len() == 0,
            r.seeders@.len() == 0,
            r.leechers@.len() == 0,
            r.downloaded@.len() == 0,
    {
        Top100All { peers: Vec::new(), seeders: Vec::new(), leechers: Vec::new(), downloaded: Vec::new() }
    }
}

/// The order of ranked entries: by key, then info hash, then the counts.
pub open spec fn ranked_lt(a: Ranked, b: Ranked) -> bool {
    ||| a.0 < b.0
    ||| a.0 == b.0 && bytes_lt(a.1.0@, b.1.0@)
    ||| a.0 == b.0 && a.1 == b.1 && a.2 < b.2
    ||| a.0 == b.0 && a.1 == b.1 && a.2 == b.2 && a.3 < b.3
    ||| a.0 == b.0 && a.1 == b.1 && a.2 == b.2 && a.3 == b.3 && a.4 < b.4
}

/// Entry `m` is a least one of `h`.
pub open spec fn is_least(h: Seq<Ranked>, m: int) -> bool {
    &&& 0 <= m < h.len()
    &&& forall|j: int| 0 <= j < h.len() ==> !ranked_lt(#[trigger] h[j], h[m])
}

/// The rank key of a torrent in ranking `dim`: peers, seeders, leechers,
/// then completions.
pub open spec fn dim_key_spec(dim: usize, seeders: usize, leechers: usize, downloaded: u64) -> u64 {
    if dim == 0 {
        (seeders + leechers) as u64
    } else if dim == 1 {
        seeders as u64
    } else if dim == 2 {
        leechers as u64
    } else {
        downloaded
    }
}

/// The rank key of a torrent in ranking `dim`.
pub fn dim_key(dim: usize, seeders: usize, leechers: usize, downloaded: u64) -> (r: u64)
    requires
        dim == 0 ==> seeders + leechers <= usize::MAX,
    ensures
        r == dim_key_spec(dim, seeders, leechers, downloaded),
{
    if dim == 0 {
        (seeders + leechers) as u64
    } else if dim == 1 {
        seeders as u64
    } else if dim == 2 {
        leechers as u64
    } else {
        downloaded
    }
}

/// Whether `a` ranks below `b`.
fn ranked_less(a: &Ranked, b: &Ranked) -> (r: bool)
    ensures
        r == ranked_lt(*a, *b),
{
    if a.0 != b.0 {
        return a.0 < b.0;
    }
    match compare_bytes(a.1.0.as_slice(), b.1.0.as_slice()) {
        Order::Less => true,
        Order::Greater => {
            proof {
                crate::order::lemma_lt_asymmetric(b.1.0@, a.1.0@);
            }
            false
        },
        Order::Equal => {
            proof {
                crate::tracker::lemma_hash_bytes(a.1, b.1);
                crate::order::lemma_lt_irreflexive(a.1.0@);
            }
            if a.2 != b.2 {
                a.2 < b.2
            } else if a.3 != b.3 {
                a.3 < b.3
            } else {
                a.4 < b.4
            }
        },
    }
}

/// The position of a least entry.
fn least_index(h: &Vec<Ranked>) -> (m: usize)
    requires
        h@.len() > 0,
    ensures
        is_least(h@, m as int),
{
    let mut m: usize = 0;
    let mut i: usize = 1;
    proof {
        lemma_ranked_lt_irreflexive(h@[0]);
    }
    while i < h.len()
        invariant
            1 <= i <= h@.len(),
            m < i,
            forall|j: int| 0 <= j < i ==> !ranked_lt(#[trigger] h@[j], h@[m as int]),
        decreases h@.len() - i,
    {
        if ranked_less(&h[i], &h[m]) {
            proof {
                assert forall|j: int| 0 <= j < i + 1 implies !ranked_lt(#[trigger] h@[j], h@[i as int]) by {
                    if j < i && ranked_lt(h@[j], h@[i as int]) {
                        lemma_ranked_lt_transitive(h@[j], h@[i as int], h@[m as int]);
                    }
                    if j == i {
                        lemma_ranked_lt_irreflexive(h@[j]);
                    }
                }
            }
            m = i;
        }
        i = i + 1;
    }
    m
}

/// No entry ranks below itself.
pub proof fn lemma_ranked_lt_irreflexive(a: Ranked)
    ensures
        !ranked_lt(a, a),
{
    crate::order::lemma_lt_irreflexive(a.1.0@);
}

/// The ranking order is transitive.
pub proof fn lemma_ranked_lt_transitive(a: Ranked, b: Ranked, c: Ranked)
    requires
        ranked_lt(a, b),
        ranked_lt(b, c),
    ensures
        ranked_lt(a, c),
{
    if a.0 == b.0 && b.0 == c.0 {
        if bytes_lt(a.1.0@, b.1.0@) && bytes_lt(b.1.0@, c.1.0@) {
            crate::order::lemma_lt_transitive(a.1.0@, b.1.0@, c.1.0@);
        }
    }
}

/// The key of a least entry, when the candidates are at the limit.
pub open spec fn min_ok(h: Seq<Ranked>, min_key: u64, limit: usize) -> bool {
    h.len() >= limit && h.len() > 0 ==> exists|m: int| is_least(h, m) && h[m].0 == min_key
}

/// Offers a torrent to a bounded set of candidates kept with the key of its
/// least member: below the limit it joins; at the limit it replaces a least
/// member unless its key is no greater than that least key.
pub fn try_heap_insert(
    heap: &mut Vec<Ranked>,
    min_key: &mut u64,
    limit: usize,
    key: u64,
    info_hash: InfoHash,
    complete: usize,
    incomplete: usize,
    downloaded: u64,
)
    requires
        min_ok(old(heap)@, *old(min_key), limit),
    ensures
        min_ok(final(heap)@, *final(min_key), limit),
        ({
            let e = (key, info_hash, complete, incomplete, downloaded);
            let h = old(heap)@;
            if h.len() >= limit && key <= *old(min_key) {
                final(heap)@ == h && *final(min_key) == *old(min_key)
            } else if h.len() < limit {
                final(heap)@ == h.push(e)
            } else if h.len() == 0 {
                final(heap)@ == h.push(e)
            } else {
                exists|m: int| #[trigger] is_least(h, m) && final(heap)@ == h.remove(m).push(e)
            }
        }),
{
    if heap.len() >= limit && key <= *min_key {
        return;
    }
    let entry = (key, info_hash, complete, incomplete, downloaded);
    if heap.len() < limit {
        heap.push(entry);
        if heap.len() == limit {
            let m = least_index(heap);
            *min_key = heap[m].0;
        }
    } else {
        if heap.len() > 0 {
            let m = least_index(heap);
            heap.remove(m);
        }
        heap.push(entry);
        let m = least_index(heap);
        *min_key = heap[m].0;
    }
}

/// The field a ranking is ordered by.
pub open spec fn sort_value(e: TopEntry, sort_field: u8) -> int {
    if sort_field == 1 {
        e.1 as int
    } else if sort_field == 2 {
        e.2 as int
    } else if sort_field == 3 {
        e.3 as int
    } else {
        e.1 + e.2
    }
}

/// The entry of a ranked torrent.
pub open spec fn entry_of(r: Ranked) -> TopEntry {
    (r.1, r.2, r.3, r.4)
}

fn sort_value_of(e: &TopEntry, sort_field: u8) -> (r: u128)
    ensures
        r == sort_value(*e, sort_field),
{
    if sort_field == 1 {
        e.1 as u128
    } else if sort_field == 2 {
        e.2 as u128
    } else if sort_field == 3 {
        e.3 as u128
    } else {
        e.1 as u128 + e.2 as u128
    }
}

/// The candidates as ranking entries, largest `sort_field` first (1:
/// seeders, 2: leechers, 3: completions, otherwise seeders plus leechers).
pub fn drain_heap_by(heap: Vec<Ranked>, sort_field: u8) -> (r: Vec<TopEntry>)
    ensures
        r@.to_multiset() == heap@.map_values(|x: Ranked| entry_of(x)).to_multiset(),
        forall|a: int, b: int|
            0 <= a < b < r@.len() ==> sort_value(#[trigger] r@[a], sort_field) >= sort_value(#[trigger] r@[b], sort_field),
{
    let ghost orig = heap@.map_values(|x: Ranked| entry_of(x));
    let mut rest: Vec<TopEntry> = Vec::new();
    let mut i: usize = 0;
    while i < heap.len()
        invariant
            i <= heap@.len(),
            orig == heap@.map_values(|x: Ranked| entry_of(x)),
            rest@ == orig.subrange(0, i as int),
        decreases heap@.len() - i,
    {
        let x = heap[i];
        rest.push((x.1, x.2, x.3, x.4));
        proof {
            assert(rest@ =~= orig.subrange(0, i + 1));
        }
        i = i + 1;
    }
    assert(rest@ =~= orig);
    let mut out: Vec<TopEntry> = Vec::new();
    proof {
        broadcast use vstd::seq_lib::group_to_multiset_ensures;

        assert(out@.to_multiset() =~= vstd::multiset::Multiset::<TopEntry>::empty());
        assert(out@.to_multiset().add(rest@.to_multiset()) =~= orig.to_multiset());
    }
    while rest.len() > 0
        invariant
            out@.to_multiset().add(rest@.to_multiset()) == orig.to_multiset(),
            forall|a: int, b: int|
                0 <= a < b < out@.len() ==> sort_value(#[trigger] out@[a], sort_field) >= sort_value(
                    #[trigger] out@[b],
                    sort_field,
                ),
            forall|a: int, b: int|
                0 <= a < out@.len() && 0 <= b < rest@.len() ==> sort_value(#[trigger] out@[a], sort_field)
                    >= sort_value(#[trigger] rest@[b], sort_field),
        decreases rest@.len(),
    {
        let mut best: usize = 0;
        let mut k: usize = 1;
        while k < rest.len()
            invariant
                1 <= k <= rest@.len(),
                best < k,
                forall|j: int| 0 <= j < k ==> sort_value(#[trigger] rest@[j], sort_field) <= sort_value(
                    rest@[best as int],
                    sort_field,
                ),
            decreases rest@.len() - k,
        {
            if sort_value_of(&rest[k], sort_field) > sort_value_of(&rest[best], sort_field) {
                best = k;
            }
            k = k + 1;
        }
        let ghost old_rest = rest@;
        let ghost old_out = out@;
        let e = rest.remove(best);
        out.push(e);
        proof {
            broadcast use vstd::seq_lib::group_to_multiset_ensures;

            vstd::seq_lib::to_multiset_remove(old_rest, best as int);
            assert(out@.to_multiset() =~= old_out.to_multiset().insert(e));
            assert(out@.to_multiset().add(rest@.to_multiset()) =~= old_out.to_multiset().add(
                old_rest.to_multiset(),
            ));
            assert forall|a: int, b: int|
                0 <= a < out@.len() && 0 <= b < rest@.len() implies sort_value(#[trigger] out@[a], sort_field)
                >= sort_value(#[trigger] rest@[b], sort_field) by {
                let ob = if b < best { b } else { b + 1 };
                assert(rest@[b] == old_rest[ob]);
                if a < old_out.len() {
                    assert(out@[a] == old_out[a]);
                }
            }
            assert forall|a: int, b: int| 0 <= a < b < out@.len() implies sort_value(#[trigger] out@[a], sort_field)
                >= sort_value(#[trigger] out@[b], sort_field) by {
                if b < old_out.len() {
                    assert(out@[a] == old_out[a] && out@[b] == old_out[b]);
                } else {
                    assert(out@[a] == old_out[a]);
                    assert(old_rest[best as int] == e);
                }
            }
        }
    }
    proof {
        broadcast use vstd::seq_lib::group_to_multiset_ensures;

        assert(rest@.to_multiset() =~= vstd::multiset::Multiset::<TopEntry>::empty());
        assert(out@.to_multiset() =~= orig.to_multiset());
    }
    out
}

/// The ranked form of an entry in ranking `dim`.
pub open spec fn ranked_entry(dim: usize, e: TopEntry) -> Ranked {
    (dim_key_spec(dim, e.1, e.2, e.3), e.0, e.1, e.2, e.3)
}

/// The ranking entry of a swarm.
pub open spec fn swarm_entry(h: InfoHash, w: Swarm) -> TopEntry {
    let s = stats_of(w);
    (h, s.complete, s.incomplete, s.downloaded as u64)
}

/// `r` is the ranked entry of one of `src`.
pub open spec fn drawn(r: Ranked, dim: usize, src: Seq<TopEntry>) -> bool {
    exists|j: int| 0 <= j < src.len() && r == ranked_entry(dim, #[trigger] src[j])
}

/// Every candidate is the ranked entry of one of `src`.
pub open spec fn drawn_from(heap: Seq<Ranked>, dim: usize, src: Seq<TopEntry>) -> bool {
    forall|x: int| 0 <= x < heap.len() ==> drawn(#[trigger] heap[x], dim, src)
}

/// `q` is among the candidates, or the candidates are at the limit and
/// none has a smaller key.
pub open spec fn kept_top(h: Seq<Ranked>, q: Ranked, limit: usize) -> bool {
    h.contains(q) || (h.len() >= limit && forall|x: int| 0 <= x < h.len() ==> q.0 <= (#[trigger] h[x]).0)
}

/// A least candidate has the smallest key.
proof fn lemma_least_key(h: Seq<Ranked>, m: int)
    requires
        is_least(h, m),
    ensures
        forall|j: int| 0 <= j < h.len() ==> h[m].0 <= (#[trigger] h[j]).0,
{
    assert forall|j: int| 0 <= j < h.len() implies h[m].0 <= (#[trigger] h[j]).0 by {
        assert(!ranked_lt(h[j], h[m]));
    }
}

/// One offer keeps the candidates a top selection: the offered entry and
/// everything kept before stay kept, and the count grows up to the limit.
proof fn lemma_offer_top(h: Seq<Ranked>, h2: Seq<Ranked>, r: Ranked, limit: usize, min_key: u64)
    requires
        limit > 0,
        h.len() <= limit,
        min_ok(h, min_key, limit),
        ({
            if h.len() >= limit && r.0 <= min_key {
                h2 == h
            } else if h.len() < limit {
                h2 == h.push(r)
            } else if h.len() == 0 {
                h2 == h.push(r)
            } else {
                exists|m: int| #[trigger] is_least(h, m) && h2 == h.remove(m).push(r)
            }
        }),
    ensures
        h.len() < limit ==> h2.len() == h.len() + 1,
        h.len() >= limit ==> h2.len() == h.len(),
        kept_top(h2, r, limit),
        forall|q: Ranked| kept_top(h, q, limit) ==> #[trigger] kept_top(h2, q, limit),
{
    if h.len() >= limit && r.0 <= min_key {
        let m = choose|m: int| is_least(h, m) && h[m].0 == min_key;
        lemma_least_key(h, m);
    } else if h.len() < limit {
        assert(h2[h.len() as int] == r);
        assert forall|q: Ranked| kept_top(h, q, limit) implies #[trigger] kept_top(h2, q, limit) by {
            let k = choose|k: int| 0 <= k < h.len() && h[k] == q;
            assert(h2[k] == q);
        }
    } else {
        let m = choose|m: int| #[trigger] is_least(h, m) && h2 == h.remove(m).push(r);
        let m2 = choose|m2: int| is_least(h, m2) && h[m2].0 == min_key;
        lemma_least_key(h, m);
        lemma_least_key(h, m2);
        assert(h[m].0 == min_key);
        assert(h2[h2.len() - 1] == r);
        assert forall|q: Ranked| kept_top(h, q, limit) implies #[trigger] kept_top(h2, q, limit) by {
            if h.contains(q) {
                let k = choose|k: int| 0 <= k < h.len() && h[k] == q;
                if k < m {
                    assert(h2[k] == q);
                } else if k > m {
                    assert(h2[k - 1] == q);
                } else {
                    assert forall|x: int| 0 <= x < h2.len() implies q.0 <= (#[trigger] h2[x]).0 by {
                        if x < h2.len() - 1 {
                            let ox = if x < m { x } else { x + 1 };
                            assert(h2[x] == h[ox]);
                        }
                    }
                }
            } else {
                assert forall|x: int| 0 <= x < h2.len() implies q.0 <= (#[trigger] h2[x]).0 by {
                    if x < h2.len() - 1 {
                        let ox = if x < m { x } else { x + 1 };
                        assert(h2[x] == h[ox]);
                    } else {
                        assert(q.0 <= h[m].0);
                    }
                }
            }
        }
    }
}

/// An offer of an entry not yet among the candidates keeps them free of
/// repeats.
proof fn lemma_offer_distinct(h: Seq<Ranked>, h2: Seq<Ranked>, r: Ranked, limit: usize, min_key: u64)
    requires
        h.no_duplicates(),
        !h.contains(r),
        ({
            if h.len() >= limit && r.0 <= min_key {
                h2 == h
            } else if h.len() < limit {
                h2 == h.push(r)
            } else if h.len() == 0 {
                h2 == h.push(r)
            } else {
                exists|m: int| #[trigger] is_least(h, m) && h2 == h.remove(m).push(r)
            }
        }),
    ensures
        h2.no_duplicates(),
{
    if h.len() >= limit && r.0 <= min_key {
    } else if h.len() < limit || h.len() == 0 {
        assert forall|a: int, b: int| 0 <= a < h2.len() && 0 <= b < h2.len() && a != b implies h2[a] != h2[b] by {
            if a < h.len() && b < h.len() {
            } else if a == h.len() {
                assert(h.contains(h2[b]) || b == h.len());
            } else {
                assert(h.contains(h2[a]) || a == h.len());
            }
        }
    } else {
        let m = choose|m: int| #[trigger] is_least(h, m) && h2 == h.remove(m).push(r);
        let hr = h.remove(m);
        assert forall|a: int, b: int| 0 <= a < hr.len() && 0 <= b < hr.len() && a != b implies hr[a] != hr[b] by {
            let oa = if a < m { a } else { a + 1 };
            let ob = if b < m { b } else { b + 1 };
            assert(hr[a] == h[oa] && hr[b] == h[ob]);
        }
        assert forall|a: int| 0 <= a < hr.len() implies hr[a] != r by {
            let oa = if a < m { a } else { a + 1 };
            assert(hr[a] == h[oa]);
        }
        assert forall|a: int, b: int| 0 <= a < h2.len() && 0 <= b < h2.len() && a != b implies h2[a] != h2[b] by {
            if a < hr.len() && b < hr.len() {
                assert(h2[a] == hr[a] && h2[b] == hr[b]);
            } else if a == hr.len() {
                assert(h2[b] == hr[b]);
            } else {
                assert(h2[a] == hr[a]);
            }
        }
    }
}

/// Offers `e` to the candidates of ranking `dim`.
fn offer(heap: &mut Vec<Ranked>, min_key: &mut u64, limit: usize, dim: usize, e: TopEntry, Ghost(src): Ghost<Seq<TopEntry>>)
    requires
        min_ok(old(heap)@, *old(min_key), limit),
        drawn_from(old(heap)@, dim, src),
        src.len() > 0 && src.last() == e,
        dim == 0 ==> e.1 + e.2 <= usize::MAX,
    ensures
        min_ok(final(heap)@, *final(min_key), limit),
        drawn_from(final(heap)@, dim, src),
        old(heap)@.len() < limit ==> final(heap)@ == old(heap)@.push(ranked_entry(dim, e)),
        0 < limit && old(heap)@.len() <= limit ==> final(heap)@.len() <= limit,
        0 < limit && old(heap)@.len() <= limit ==> {
            &&& old(heap)@.len() >= limit ==> final(heap)@.len() == old(heap)@.len()
            &&& kept_top(final(heap)@, ranked_entry(dim, e), limit)
            &&& forall|q: Ranked| kept_top(old(heap)@, q, limit) ==> #[trigger] kept_top(final(heap)@, q, limit)
        },
        old(heap)@.no_duplicates() && !old(heap)@.contains(ranked_entry(dim, e)) ==> final(heap)@.no_duplicates(),
{
    let key = dim_key(dim, e.1, e.2, e.3);
    let ghost h = heap@;
    let ghost mk = *min_key;
    try_heap_insert(heap, min_key, limit, key, e.0, e.1, e.2, e.3);
    proof {
        let r = ranked_entry(dim, e);
        if 0 < limit && h.len() <= limit {
            lemma_offer_top(h, heap@, r, limit, mk);
        }
        if h.no_duplicates() && !h.contains(r) {
            lemma_offer_distinct(h, heap@, r, limit, mk);
        }
        let n = src.len() - 1;
        assert(src[n] == e);
        assert forall|x: int| 0 <= x < heap@.len() implies drawn(#[trigger] heap@[x], dim, src) by {
            if heap@[x] == r {
                assert(heap@[x] == ranked_entry(dim, src[n]));
            } else if heap@ == h {
            } else if h.len() < limit || h.len() == 0 {
                assert(heap@[x] == h[x]);
            } else {
                let m = choose|m: int| #[trigger] is_least(h, m) && heap@ == h.remove(m).push(r);
                let ox = if x < m { x } else { x + 1 };
                assert(heap@[x] == h[ox]);
            }
        }
    }
}

/// The four rankings of the swarms, each of at most `limit` torrents,
/// largest first; with at most `limit` swarms every swarm is in every ranking.
#[verifier::rlimit(80)]
pub fn top_torrents_all(swarms: &Vec<(InfoHash, Swarm)>, limit: usize) -> (r: Top100All)
    requires
        forall|i: int| 0 <= i < swarms@.len() ==> (#[trigger] swarms@[i]).1.wf(),
    ensures
        ({
            let src = swarms@.map_values(|p: (InfoHash, Swarm)| swarm_entry(p.0, p.1));
            &&& r.peers@.len() <= limit && r.seeders@.len() <= limit
            &&& r.leechers@.len() <= limit && r.downloaded@.len() <= limit
            &&& r.peers@.len() == min(src.len() as int, limit as int)
            &&& r.seeders@.len() == min(src.len() as int, limit as int)
            &&& r.leechers@.len() == min(src.len() as int, limit as int)
            &&& r.downloaded@.len() == min(src.len() as int, limit as int)
            &&& covers_top(r.peers@, src, 0) && covers_top(r.seeders@, src, 1)
            &&& covers_top(r.leechers@, src, 2) && covers_top(r.downloaded@, src, 3)
            &&& src.no_duplicates() ==> r.peers@.no_duplicates() && r.seeders@.no_duplicates()
                && r.leechers@.no_duplicates() && r.downloaded@.no_duplicates()
            &&& forall|a: int| 0 <= a < r.peers@.len() ==> src.contains(#[trigger] r.peers@[a])
            &&& forall|a: int| 0 <= a < r.seeders@.len() ==> src.contains(#[trigger] r.seeders@[a])
            &&& forall|a: int| 0 <= a < r.leechers@.len() ==> src.contains(#[trigger] r.leechers@[a])
            &&& forall|a: int| 0 <= a < r.downloaded@.len() ==> src.contains(#[trigger] r.downloaded@[a])
            &&& swarms@.len() <= limit ==> {
                &&& r.peers@.to_multiset() == src.to_multiset()
                &&& r.seeders@.to_multiset() == src.to_multiset()
                &&& r.leechers@.to_multiset() == src.to_multiset()
                &&& r.downloaded@.to_multiset() == src.to_multiset()
            }
            &&& forall|a: int, b: int|
                0 <= a < b < r.peers@.len() ==> sort_value(#[trigger] r.peers@[a], 0) >= sort_value(
                    #[trigger] r.peers@[b],
                    0,
                )
            &&& forall|a: int, b: int|
                0 <= a < b < r.seeders@.len() ==> sort_value(#[trigger] r.seeders@[a], 1) >= sort_value(
                    #[trigger] r.seeders@[b],
                    1,
                )
            &&& forall|a: int, b: int|
                0 <= a < b < r.leechers@.len() ==> sort_value(#[trigger] r.leechers@[a], 2) >= sort_value(
                    #[trigger] r.leechers@[b],
                    2,
                )
            &&& forall|a: int, b: int|
                0 <= a < b < r.downloaded@.len() ==> sort_value(#[trigger] r.downloaded@[a], 3) >= sort_value(
                    #[trigger] r.downloaded@[b],
                    3,
                )
        }),
{
    let ghost src = swarms@.map_values(|p: (InfoHash, Swarm)| swarm_entry(p.0, p.1));
    if limit == 0 {
        let r = Top100All::empty();
        proof {
            if swarms@.len() == 0 {
                assert(r.peers@ =~= src);
                assert(r.seeders@ =~= src);
                assert(r.leechers@ =~= src);
                assert(r.downloaded@ =~= src);
            }
        }
        return r;
    }
    let mut hp: Vec<Ranked> = Vec::new();
    let mut hs: Vec<Ranked> = Vec::new();
    let mut hl: Vec<Ranked> = Vec::new();
    let mut hd: Vec<Ranked> = Vec::new();
    let mut mins: [u64; 4] = [0, 0, 0, 0];
    let mut i: usize = 0;
    while i < swarms.len()
        invariant
            i <= swarms@.len(),
            limit > 0,
            src == swarms@.map_values(|p: (InfoHash, Swarm)| swarm_entry(p.0, p.1)),
            forall|k: int| 0 <= k < swarms@.len() ==> (#[trigger] swarms@[k]).1.wf(),
            min_ok(hp@, mins[0], limit) && min_ok(hs@, mins[1], limit),
            min_ok(hl@, mins[2], limit) && min_ok(hd@, mins[3], limit),
            drawn_from(hp@, 0, src.subrange(0, i as int)),
            drawn_from(hs@, 1, src.subrange(0, i as int)),
            drawn_from(hl@, 2, src.subrange(0, i as int)),
            drawn_from(hd@, 3, src.subrange(0, i as int)),
            hp@.len() <= limit && hs@.len() <= limit && hl@.len() <= limit && hd@.len() <= limit,
            hp@.len() == min(i as int, limit as int) && hs@.len() == min(i as int, limit as int),
            hl@.len() == min(i as int, limit as int) && hd@.len() == min(i as int, limit as int),
            counts_fit(src.subrange(0, i as int)),
            src.no_duplicates() ==> hp@.no_duplicates() && hs@.no_duplicates() && hl@.no_duplicates()
                && hd@.no_duplicates(),
            forall|j: int| 0 <= j < i ==> kept_top(hp@, ranked_entry(0, #[trigger] src[j]), limit),
            forall|j: int| 0 <= j < i ==> kept_top(hs@, ranked_entry(1, #[trigger] src[j]), limit),
            forall|j: int| 0 <= j < i ==> kept_top(hl@, ranked_entry(2, #[trigger] src[j]), limit),
            forall|j: int| 0 <= j < i ==> kept_top(hd@, ranked_entry(3, #[trigger] src[j]), limit),
            i <= limit ==> {
                &&& hp@ == src.subrange(0, i as int).map_values(|e: TopEntry| ranked_entry(0, e))
                &&& hs@ == src.subrange(0, i as int).map_values(|e: TopEntry| ranked_entry(1, e))
                &&& hl@ == src.subrange(0, i as int).map_values(|e: TopEntry| ranked_entry(2, e))
                &&& hd@ == src.subrange(0, i as int).map_values(|e: TopEntry| ranked_entry(3, e))
            },
        decreases swarms@.len() - i,
    {
        let h = swarms[i].0;
        let stats = swarms[i].1.stats();
        let e: TopEntry = (h, stats.complete, stats.incomplete, stats.downloaded as u64);
        let ghost sub = src.subrange(0, i + 1);
        proof {
            swarms@[i as int].1.lemma_peer_count_bound();
            assert(sub.last() == src[i as int]);
            assert(src[i as int] == swarm_entry(swarms@[i as int].0, swarms@[i as int].1));
            assert(e == src[i as int]);
            assert forall|k: int| 0 <= k < i implies #[trigger] sub[k] == src.subrange(0, i as int)[k] by {
            }
            lemma_drawn_grow(hp@, 0, src.subrange(0, i as int), sub);
            lemma_drawn_grow(hs@, 1, src.subrange(0, i as int), sub);
            lemma_drawn_grow(hl@, 2, src.subrange(0, i as int), sub);
            lemma_drawn_grow(hd@, 3, src.subrange(0, i as int), sub);
            if src.no_duplicates() {
                lemma_fresh_candidate(hp@, 0, src, i as int);
                lemma_fresh_candidate(hs@, 1, src, i as int);
                lemma_fresh_candidate(hl@, 2, src, i as int);
                lemma_fresh_candidate(hd@, 3, src, i as int);
            }
        }
        let mut m0 = mins[0];
        let mut m1 = mins[1];
        let mut m2 = mins[2];
        let mut m3 = mins[3];
        offer(&mut hp, &mut m0, limit, 0, e, Ghost(sub));
        offer(&mut hs, &mut m1, limit, 1, e, Ghost(sub));
        offer(&mut hl, &mut m2, limit, 2, e, Ghost(sub));
        offer(&mut hd, &mut m3, limit, 3, e, Ghost(sub));
        mins = [m0, m1, m2, m3];
        proof {
            if i + 1 <= limit {
                assert(sub.map_values(|e: TopEntry| ranked_entry(0, e)) =~= src.subrange(0, i as int).map_values(
                    |e: TopEntry| ranked_entry(0, e),
                ).push(ranked_entry(0, e)));
                assert(sub.map_values(|e: TopEntry| ranked_entry(1, e)) =~= src.subrange(0, i as int).map_values(
                    |e: TopEntry| ranked_entry(1, e),
                ).push(ranked_entry(1, e)));
                assert(sub.map_values(|e: TopEntry| ranked_entry(2, e)) =~= src.subrange(0, i as int).map_values(
                    |e: TopEntry| ranked_entry(2, e),
                ).push(ranked_entry(2, e)));
                assert(sub.map_values(|e: TopEntry| ranked_entry(3, e)) =~= src.subrange(0, i as int).map_values(
                    |e: TopEntry| ranked_entry(3, e),
                ).push(ranked_entry(3, e)));
            }
            assert forall|j: int| 0 <= j < i + 1 implies (#[trigger] sub[j]).1 + sub[j].2 <= usize::MAX by {
                if j < i {
                    assert(sub[j] == src.subrange(0, i as int)[j]);
                }
            }
        }
        i = i + 1;
    }
    proof {
        assert(src.subrange(0, i as int) =~= src);
    }
    let ghost gp = hp@;
    let ghost gs = hs@;
    let ghost gl = hl@;
    let ghost gd = hd@;
    let peers = drain_heap_by(hp, 0);
    let seeders = drain_heap_by(hs, 1);
    let leechers = drain_heap_by(hl, 2);
    let downloaded = drain_heap_by(hd, 3);
    proof {
        lemma_drained(gp, 0, src, peers@);
        lemma_drained(gs, 1, src, seeders@);
        lemma_drained(gl, 2, src, leechers@);
        lemma_drained(gd, 3, src, downloaded@);
        lemma_drained_top(gp, 0, 0, src, peers@, limit);
        lemma_drained_top(gs, 1, 1, src, seeders@, limit);
        lemma_drained_top(gl, 2, 2, src, leechers@, limit);
        lemma_drained_top(gd, 3, 3, src, downloaded@, limit);
        if src.no_duplicates() {
            lemma_drained_distinct(gp, 0, src, peers@);
            lemma_drained_distinct(gs, 1, src, seeders@);
            lemma_drained_distinct(gl, 2, src, leechers@);
            lemma_drained_distinct(gd, 3, src, downloaded@);
        }
    }
    Top100All { peers, seeders, leechers, downloaded }
}

/// Every entry of `src` left out of `r` ranks no higher than any entry of `r`.
pub open spec fn covers_top(r: Seq<TopEntry>, src: Seq<TopEntry>, sort_field: u8) -> bool {
    forall|j: int|
        0 <= j < src.len() ==> r.contains(#[trigger] src[j]) || forall|a: int|
            0 <= a < r.len() ==> sort_value(src[j], sort_field) <= sort_value(#[trigger] r[a], sort_field)
}

/// The peer count of every entry fits a `usize`.
pub open spec fn counts_fit(src: Seq<TopEntry>) -> bool {
    forall|j: int| 0 <= j < src.len() ==> (#[trigger] src[j]).1 + src[j].2 <= usize::MAX
}

/// The key of an entry in ranking `dim` is its sort value there.
proof fn lemma_key_is_sort_value(dim: usize, sort_field: u8, e: TopEntry)
    requires
        dim == sort_field as usize,
        dim <= 3,
        dim == 0 ==> e.1 + e.2 <= usize::MAX,
    ensures
        ranked_entry(dim, e).0 == sort_value(e, sort_field),
{
}

/// Candidates that keep every entry of `src` as a top selection drain into
/// a ranking that covers the top of `src`.
proof fn lemma_drained_top(heap: Seq<Ranked>, dim: usize, sort_field: u8, src: Seq<TopEntry>, out: Seq<TopEntry>, limit: usize)
    requires
        dim == sort_field as usize,
        dim <= 3,
        drawn_from(heap, dim, src),
        out.to_multiset() == heap.map_values(|x: Ranked| entry_of(x)).to_multiset(),
        counts_fit(src),
        forall|j: int| 0 <= j < src.len() ==> kept_top(heap, ranked_entry(dim, #[trigger] src[j]), limit),
    ensures
        covers_top(out, src, sort_field),
{
    broadcast use vstd::seq_lib::group_to_multiset_ensures;

    let proj = heap.map_values(|x: Ranked| entry_of(x));
    assert forall|j: int| 0 <= j < src.len() implies out.contains(#[trigger] src[j]) || forall|a: int|
        0 <= a < out.len() ==> sort_value(src[j], sort_field) <= sort_value(#[trigger] out[a], sort_field) by {
        let e = src[j];
        assert(kept_top(heap, ranked_entry(dim, e), limit));
        lemma_key_is_sort_value(dim, sort_field, e);
        if heap.contains(ranked_entry(dim, e)) {
            let x = choose|x: int| 0 <= x < heap.len() && heap[x] == ranked_entry(dim, e);
            assert(proj[x] == e);
            assert(proj.contains(e));
            assert(proj.to_multiset().count(e) > 0);
            assert(out.to_multiset().count(e) > 0);
        } else {
            assert forall|a: int| 0 <= a < out.len() implies sort_value(e, sort_field) <= sort_value(
                #[trigger] out[a],
                sort_field,
            ) by {
                assert(out.contains(out[a]));
                assert(out.to_multiset().count(out[a]) > 0);
                assert(proj.contains(out[a]));
                let x = choose|x: int| 0 <= x < proj.len() && proj[x] == out[a];
                assert(drawn(heap[x], dim, src));
                let k = choose|k: int| 0 <= k < src.len() && heap[x] == ranked_entry(dim, #[trigger] src[k]);
                lemma_key_is_sort_value(dim, sort_field, src[k]);
                assert(ranked_entry(dim, e).0 <= heap[x].0);
            }
        }
    }
}

/// Every candidate is the ranked form of its entry, with a peer count that
/// fits a `usize` in the peers ranking.
pub open spec fn keyed(h: Seq<Ranked>, dim: usize) -> bool {
    forall|x: int|
        0 <= x < h.len() ==> {
            &&& #[trigger] h[x] == ranked_entry(dim, entry_of(h[x]))
            &&& dim == 0 ==> entry_of(h[x]).1 + entry_of(h[x]).2 <= usize::MAX
        }
}

/// An entry kept among keyed candidates is in their drained ranking or
/// ranks no higher than any entry there.
proof fn lemma_drained_kept(heap: Seq<Ranked>, dim: usize, sort_field: u8, out: Seq<TopEntry>, e: TopEntry, limit: usize)
    requires
        dim == sort_field as usize,
        dim <= 3,
        keyed(heap, dim),
        out.to_multiset() == heap.map_values(|x: Ranked| entry_of(x)).to_multiset(),
        kept_top(heap, ranked_entry(dim, e), limit),
        dim == 0 ==> e.1 + e.2 <= usize::MAX,
    ensures
        out.contains(e) || forall|a: int| 0 <= a < out.len() ==> sort_value(e, sort_field) <= sort_value(#[trigger] out[a], sort_field),
{
    broadcast use vstd::seq_lib::group_to_multiset_ensures;

    let proj = heap.map_values(|x: Ranked| entry_of(x));
    lemma_key_is_sort_value(dim, sort_field, e);
    if heap.contains(ranked_entry(dim, e)) {
        let x = choose|x: int| 0 <= x < heap.len() && heap[x] == ranked_entry(dim, e);
        assert(proj[x] == e);
        assert(proj.contains(e));
        assert(proj.to_multiset().count(e) > 0);
        assert(out.to_multiset().count(e) > 0);
    } else {
        assert forall|a: int| 0 <= a < out.len() implies sort_value(e, sort_field) <= sort_value(#[trigger] out[a], sort_field) by {
            assert(out.contains(out[a]));
            assert(out.to_multiset().count(out[a]) > 0);
            assert(proj.contains(out[a]));
            let x = choose|x: int| 0 <= x < proj.len() && proj[x] == out[a];
            assert(heap[x] == ranked_entry(dim, entry_of(heap[x])));
            lemma_key_is_sort_value(dim, sort_field, entry_of(heap[x]));
            assert(ranked_entry(dim, e).0 <= heap[x].0);
        }
    }
}

/// Candidates taken from a keyed set or drawn from `list` stay keyed.
proof fn lemma_keyed_grow(h0: Seq<Ranked>, h: Seq<Ranked>, dim: usize, list: Seq<TopEntry>)
    requires
        keyed(h0, dim),
        dim == 0 ==> forall|a: int| 0 <= a < list.len() ==> (#[trigger] list[a]).1 + list[a].2 <= usize::MAX,
        forall|x: int| 0 <= x < h.len() ==> h0.contains(#[trigger] h[x]) || drawn(h[x], dim, list),
    ensures
        keyed(h, dim),
{
    assert forall|x: int| 0 <= x < h.len() implies {
        &&& #[trigger] h[x] == ranked_entry(dim, entry_of(h[x]))
        &&& dim == 0 ==> entry_of(h[x]).1 + entry_of(h[x]).2 <= usize::MAX
    } by {
        if h0.contains(h[x]) {
            let k = choose|k: int| 0 <= k < h0.len() && h0[k] == h[x];
            assert(h0[k] == ranked_entry(dim, entry_of(h0[k])));
        } else {
            assert(drawn(h[x], dim, list));
            let j = choose|j: int| 0 <= j < list.len() && h[x] == ranked_entry(dim, #[trigger] list[j]);
        }
    }
}

/// The next entry of a list without repeats is not yet among candidates
/// drawn from the entries before it.
proof fn lemma_fresh_candidate(h: Seq<Ranked>, dim: usize, src: Seq<TopEntry>, i: int)
    requires
        drawn_from(h, dim, src.subrange(0, i)),
        src.no_duplicates(),
        0 <= i < src.len(),
    ensures
        !h.contains(ranked_entry(dim, src[i])),
{
    if h.contains(ranked_entry(dim, src[i])) {
        let k = choose|k: int| 0 <= k < h.len() && h[k] == ranked_entry(dim, src[i]);
        assert(drawn(h[k], dim, src.subrange(0, i)));
        let j = choose|j: int| 0 <= j < src.subrange(0, i).len() && h[k] == ranked_entry(dim, #[trigger] src.subrange(0, i)[j]);
        assert(src.subrange(0, i)[j] == src[j]);
        assert(entry_of(ranked_entry(dim, src[j])) == src[j]);
        assert(entry_of(ranked_entry(dim, src[i])) == src[i]);
    }
}

/// Candidates without repeats, drawn from `src`, drain into a ranking
/// without repeats.
proof fn lemma_drained_distinct(heap: Seq<Ranked>, dim: usize, src: Seq<TopEntry>, out: Seq<TopEntry>)
    requires
        drawn_from(heap, dim, src),
        heap.no_duplicates(),
        out.to_multiset() == heap.map_values(|x: Ranked| entry_of(x)).to_multiset(),
    ensures
        out.no_duplicates(),
{
    let proj = heap.map_values(|x: Ranked| entry_of(x));
    assert forall|a: int, b: int| 0 <= a < proj.len() && 0 <= b < proj.len() && a != b implies proj[a] != proj[b] by {
        assert(drawn(heap[a], dim, src));
        assert(drawn(heap[b], dim, src));
        let ja = choose|j: int| 0 <= j < src.len() && heap[a] == ranked_entry(dim, #[trigger] src[j]);
        let jb = choose|j: int| 0 <= j < src.len() && heap[b] == ranked_entry(dim, #[trigger] src[j]);
        assert(proj[a] == src[ja] && proj[b] == src[jb]);
    }
    proj.lemma_multiset_has_no_duplicates();
    out.lemma_multiset_has_no_duplicates_conv();
}

/// Candidates drawn from a prefix are drawn from a longer one.
proof fn lemma_drawn_grow(heap: Seq<Ranked>, dim: usize, a: Seq<TopEntry>, b: Seq<TopEntry>)
    requires
        drawn_from(heap, dim, a),
        a.len() <= b.len(),
        forall|k: int| 0 <= k < a.len() ==> #[trigger] b[k] == a[k],
    ensures
        drawn_from(heap, dim, b),
{
    assert forall|x: int| 0 <= x < heap.len() implies drawn(#[trigger] heap[x], dim, b) by {
        assert(drawn(heap[x], dim, a));
        let j = choose|j: int| 0 <= j < a.len() && heap[x] == ranked_entry(dim, #[trigger] a[j]);
        assert(b[j] == a[j]);
    }
}

/// Ranked entries drawn from `src` drain into entries of `src`; all of
/// `src`, when all of it was ranked.
proof fn lemma_drained(heap: Seq<Ranked>, dim: usize, src: Seq<TopEntry>, out: Seq<TopEntry>)
    requires
        drawn_from(heap, dim, src),
        out.to_multiset() == heap.map_values(|x: Ranked| entry_of(x)).to_multiset(),
    ensures
        out.len() == heap.len(),
        forall|a: int| 0 <= a < out.len() ==> src.contains(#[trigger] out[a]),
        heap == src.map_values(|e: TopEntry| ranked_entry(dim, e)) ==> out.to_multiset() == src.to_multiset(),
{
    broadcast use vstd::seq_lib::group_to_multiset_ensures;

    let proj = heap.map_values(|x: Ranked| entry_of(x));
    assert(out.len() == out.to_multiset().len());
    assert(proj.len() == proj.to_multiset().len());
    assert forall|a: int| 0 <= a < out.len() implies src.contains(#[trigger] out[a]) by {
        assert(out.contains(out[a]));
        assert(out.to_multiset().count(out[a]) > 0);
        assert(proj.contains(out[a]));
        let x = choose|x: int| 0 <= x < proj.len() && proj[x] == out[a];
        assert(drawn(heap[x], dim, src));
        let j = choose|j: int| 0 <= j < src.len() && heap[x] == ranked_entry(dim, #[trigger] src[j]);
        assert(src[j] == out[a]);
    }
    if heap == src.map_values(|e: TopEntry| ranked_entry(dim, e)) {
        assert(proj =~= src);
    }
}

/// Offers every entry of `list` to the candidates of ranking `dim`, in order.
fn offer_all(heap: &mut Vec<Ranked>, min_key: &mut u64, limit: usize, dim: usize, list: &Vec<TopEntry>)
    requires
        min_ok(old(heap)@, *old(min_key), limit),
        dim == 0 ==> forall|a: int| 0 <= a < list@.len() ==> (#[trigger] list@[a]).1 + list@[a].2 <= usize::MAX,
    ensures
        min_ok(final(heap)@, *final(min_key), limit),
        forall|x: int|
            0 <= x < final(heap)@.len() ==> old(heap)@.contains(#[trigger] final(heap)@[x]) || drawn(
                final(heap)@[x],
                dim,
                list@,
            ),
        0 < limit && old(heap)@.len() <= limit ==> final(heap)@.len() <= limit,
        0 < limit && old(heap)@.len() <= limit ==> {
            &&& final(heap)@.len() == min((old(heap)@.len() + list@.len()) as int, limit as int)
            &&& forall|q: Ranked| kept_top(old(heap)@, q, limit) ==> #[trigger] kept_top(final(heap)@, q, limit)
            &&& forall|a: int| 0 <= a < list@.len() ==> kept_top(final(heap)@, ranked_entry(dim, #[trigger] list@[a]), limit)
        },
{
    let ghost h0 = heap@;
    let mut a: usize = 0;
    while a < list.len()
        invariant
            a <= list@.len(),
            min_ok(heap@, *min_key, limit),
            dim == 0 ==> forall|k: int| 0 <= k < list@.len() ==> (#[trigger] list@[k]).1 + list@[k].2 <= usize::MAX,
            forall|x: int| 0 <= x < heap@.len() ==> h0.contains(#[trigger] heap@[x]) || drawn(heap@[x], dim, list@),
            0 < limit && h0.len() <= limit ==> heap@.len() <= limit,
            0 < limit && h0.len() <= limit ==> {
                &&& heap@.len() == min((h0.len() + a) as int, limit as int)
                &&& forall|q: Ranked| kept_top(h0, q, limit) ==> #[trigger] kept_top(heap@, q, limit)
                &&& forall|k: int| 0 <= k < a ==> kept_top(heap@, ranked_entry(dim, #[trigger] list@[k]), limit)
            },
        decreases list@.len() - a,
    {
        let e = list[a];
        let key = dim_key(dim, e.1, e.2, e.3);
        let ghost h = heap@;
        let ghost mk = *min_key;
        try_heap_insert(heap, min_key, limit, key, e.0, e.1, e.2, e.3);
        proof {
            let r = ranked_entry(dim, e);
            if 0 < limit && h0.len() <= limit {
                lemma_offer_top(h, heap@, r, limit, mk);
            }
            assert(list@[a as int] == e);
            assert forall|x: int| 0 <= x < heap@.len() implies h0.contains(#[trigger] heap@[x]) || drawn(heap@[x], dim, list@) by {
                if heap@[x] == r {
                    assert(drawn(heap@[x], dim, list@));
                } else if heap@ == h {
                } else if h.len() < limit || h.len() == 0 {
                    assert(heap@[x] == h[x]);
                } else {
                    let m = choose|m: int| #[trigger] is_least(h, m) && heap@ == h.remove(m).push(r);
                    let ox = if x < m { x } else { x + 1 };
                    assert(heap@[x] == h[ox]);
                }
            }
        }
        a = a + 1;
    }
}

/// Merges rankings of several trackers into one set of rankings.
pub struct TopKMerger {
    pub peers: Vec<Ranked>,
    pub seeders: Vec<Ranked>,
    pub leechers: Vec<Ranked>,
    pub downloaded: Vec<Ranked>,
    pub mins: [u64; 4],
    pub limit: usize,
}

impl TopKMerger {
    /// Each candidate set knows its least key when full.
    pub open spec fn wf(&self) -> bool {
        &&& min_ok(self.peers@, self.mins[0], self.limit)
        &&& min_ok(self.seeders@, self.mins[1], self.limit)
        &&& min_ok(self.leechers@, self.mins[2], self.limit)
        &&& min_ok(self.downloaded@, self.mins[3], self.limit)
        &&& keyed(self.peers@, 0) && keyed(self.seeders@, 1)
        &&& keyed(self.leechers@, 2) && keyed(self.downloaded@, 3)
        &&& self.limit > 0 ==> {
            &&& self.peers@.len() <= self.limit
            &&& self.seeders@.len() <= self.limit
            &&& self.leechers@.len() <= self.limit
            &&& self.downloaded@.len() <= self.limit
        }
    }

    /// A merger keeping up to `limit` torrents per ranking.
    pub fn new(limit: usize) -> (r: Self)
        ensures
            r.wf(),
            r.limit == limit,
            r.peers@.len() == 0 && r.seeders@.len() == 0 && r.leechers@.len() == 0 && r.downloaded@.len() == 0,
    {
        TopKMerger {
            peers: Vec::new(),
            seeders: Vec::new(),
            leechers: Vec::new(),
            downloaded: Vec::new(),
            mins: [0, 0, 0, 0],
            limit,
        }
    }

    /// Offers every torrent of the rankings of one tracker.
    pub fn insert(&mut self, part: &Top100All)
        requires
            old(self).wf(),
            forall|a: int| 0 <= a < part.peers@.len() ==> (#[trigger] part.peers@[a]).1 + part.peers@[a].2 <= usize::MAX,
        ensures
            final(self).wf(),
            final(self).limit == old(self).limit,
            old(self).limit > 0 ==> {
                let limit = old(self).limit as int;
                &&& final(self).peers@.len() == min((old(self).peers@.len() + part.peers@.len()) as int, limit)
                &&& final(self).seeders@.len() == min((old(self).seeders@.len() + part.seeders@.len()) as int, limit)
                &&& final(self).leechers@.len() == min((old(self).leechers@.len() + part.leechers@.len()) as int, limit)
                &&& final(self).downloaded@.len() == min(
                    (old(self).downloaded@.len() + part.downloaded@.len()) as int,
                    limit,
                )
            },
            old(self).limit > 0 ==> {
                let limit = old(self).limit;
                &&& forall|q: Ranked| kept_top(old(self).peers@, q, limit) ==> #[trigger] kept_top(final(self).peers@, q, limit)
                &&& forall|q: Ranked| kept_top(old(self).seeders@, q, limit) ==> #[trigger] kept_top(final(self).seeders@, q, limit)
                &&& forall|q: Ranked| kept_top(old(self).leechers@, q, limit) ==> #[trigger] kept_top(final(self).leechers@, q, limit)
                &&& forall|q: Ranked|
                    kept_top(old(self).downloaded@, q, limit) ==> #[trigger] kept_top(final(self).downloaded@, q, limit)
                &&& forall|a: int|
                    0 <= a < part.peers@.len() ==> kept_top(final(self).peers@, ranked_entry(0, #[trigger] part.peers@[a]), limit)
                &&& forall|a: int|
                    0 <= a < part.seeders@.len() ==> kept_top(final(self).seeders@, ranked_entry(1, #[trigger] part.seeders@[a]), limit)
                &&& forall|a: int|
                    0 <= a < part.leechers@.len() ==> kept_top(final(self).leechers@, ranked_entry(2, #[trigger] part.leechers@[a]), limit)
                &&& forall|a: int|
                    0 <= a < part.downloaded@.len() ==> kept_top(
                        final(self).downloaded@,
                        ranked_entry(3, #[trigger] part.downloaded@[a]),
                        limit,
                    )
            },
            forall|x: int|
                0 <= x < final(self).peers@.len() ==> old(self).peers@.contains(#[trigger] final(self).peers@[x])
                    || drawn(final(self).peers@[x], 0, part.peers@),
            forall|x: int|
                0 <= x < final(self).seeders@.len() ==> old(self).seeders@.contains(#[trigger] final(self).seeders@[x])
                    || drawn(final(self).seeders@[x], 1, part.seeders@),
            forall|x: int|
                0 <= x < final(self).leechers@.len() ==> old(self).leechers@.contains(#[trigger] final(self).leechers@[x])
                    || drawn(final(self).leechers@[x], 2, part.leechers@),
            forall|x: int|
                0 <= x < final(self).downloaded@.len() ==> old(self).downloaded@.contains(
                    #[trigger] final(self).downloaded@[x],
                ) || drawn(final(self).downloaded@[x], 3, part.downloaded@),
    {
        let limit = self.limit;
        let mut m0 = self.mins[0];
        let mut m1 = self.mins[1];
        let mut m2 = self.mins[2];
        let mut m3 = self.mins[3];
        let ghost g = *self;
        offer_all(&mut self.peers, &mut m0, limit, 0, &part.peers);
        offer_all(&mut self.seeders, &mut m1, limit, 1, &part.seeders);
        offer_all(&mut self.leechers, &mut m2, limit, 2, &part.leechers);
        offer_all(&mut self.downloaded, &mut m3, limit, 3, &part.downloaded);
        self.mins = [m0, m1, m2, m3];
        proof {
            lemma_keyed_grow(g.peers@, self.peers@, 0, part.peers@);
            lemma_keyed_grow(g.seeders@, self.seeders@, 1, part.seeders@);
            lemma_keyed_grow(g.leechers@, self.leechers@, 2, part.leechers@);
            lemma_keyed_grow(g.downloaded@, self.downloaded@, 3, part.downloaded@);
        }
    }

    /// The merged rankings, largest first.
    pub fn finish(self) -> (r: Top100All)
        requires
            self.wf(),
        ensures
            r.peers@.len() == self.peers@.len() && r.seeders@.len() == self.seeders@.len(),
            r.leechers@.len() == self.leechers@.len() && r.downloaded@.len() == self.downloaded@.len(),
            forall|e: TopEntry|
                #[trigger] kept_top(self.peers@, ranked_entry(0, e), self.limit) && e.1 + e.2 <= usize::MAX ==> r.peers@.contains(e)
                    || forall|a: int| 0 <= a < r.peers@.len() ==> sort_value(e, 0) <= sort_value(#[trigger] r.peers@[a], 0),
            forall|e: TopEntry|
                #[trigger] kept_top(self.seeders@, ranked_entry(1, e), self.limit) ==> r.seeders@.contains(e) || forall|a: int|
                    0 <= a < r.seeders@.len() ==> sort_value(e, 1) <= sort_value(#[trigger] r.seeders@[a], 1),
            forall|e: TopEntry|
                #[trigger] kept_top(self.leechers@, ranked_entry(2, e), self.limit) ==> r.leechers@.contains(e) || forall|a: int|
                    0 <= a < r.leechers@.len() ==> sort_value(e, 2) <= sort_value(#[trigger] r.leechers@[a], 2),
            forall|e: TopEntry|
                #[trigger] kept_top(self.downloaded@, ranked_entry(3, e), self.limit) ==> r.downloaded@.contains(e) || forall|
                    a: int,
                | 0 <= a < r.downloaded@.len() ==> sort_value(e, 3) <= sort_value(#[trigger] r.downloaded@[a], 3),
            r.peers@.to_multiset() == self.peers@.map_values(|x: Ranked| entry_of(x)).to_multiset(),
            r.seeders@.to_multiset() == self.seeders@.map_values(|x: Ranked| entry_of(x)).to_multiset(),
            r.leechers@.to_multiset() == self.leechers@.map_values(|x: Ranked| entry_of(x)).to_multiset(),
            r.downloaded@.to_multiset() == self.downloaded@.map_values(|x: Ranked| entry_of(x)).to_multiset(),
            forall|a: int, b: int|
                0 <= a < b < r.peers@.len() ==> sort_value(#[trigger] r.peers@[a], 0) >= sort_value(#[trigger] r.peers@[b], 0),
            forall|a: int, b: int|
                0 <= a < b < r.seeders@.len() ==> sort_value(#[trigger] r.seeders@[a], 1) >= sort_value(
                    #[trigger] r.seeders@[b],
                    1,
                ),
            forall|a: int, b: int|
                0 <= a < b < r.leechers@.len() ==> sort_value(#[trigger] r.leechers@[a], 2) >= sort_value(
                    #[trigger] r.leechers@[b],
                    2,
                ),
            forall|a: int, b: int|
                0 <= a < b < r.downloaded@.len() ==> sort_value(#[trigger] r.downloaded@[a], 3) >= sort_value(
                    #[trigger] r.downloaded@[b],
                    3,
                ),
    {
        let ghost g = self;
        let TopKMerger { peers, seeders, leechers, downloaded, mins: _, limit: _ } = self;
        let r = Top100All {
            peers: drain_heap_by(peers, 0),
            seeders: drain_heap_by(seeders, 1),
            leechers: drain_heap_by(leechers, 2),
            downloaded: drain_heap_by(downloaded, 3),
        };
        proof {
            broadcast use vstd::seq_lib::group_to_multiset_ensures;

            assert(r.peers@.len() == r.peers@.to_multiset().len());
            assert(r.seeders@.len() == r.seeders@.to_multiset().len());
            assert(r.leechers@.len() == r.leechers@.to_multiset().len());
            assert(r.downloaded@.len() == r.downloaded@.to_multiset().len());
            assert forall|e: TopEntry|
                #[trigger] kept_top(g.peers@, ranked_entry(0, e), g.limit) && e.1 + e.2 <= usize::MAX implies r.peers@.contains(e)
                || forall|a: int| 0 <= a < r.peers@.len() ==> sort_value(e, 0) <= sort_value(#[trigger] r.peers@[a], 0) by {
                lemma_drained_kept(g.peers@, 0, 0, r.peers@, e, g.limit);
            }
            assert forall|e: TopEntry| #[trigger] kept_top(g.seeders@, ranked_entry(1, e), g.limit) implies r.seeders@.contains(e)
                || forall|a: int| 0 <= a < r.seeders@.len() ==> sort_value(e, 1) <= sort_value(#[trigger] r.seeders@[a], 1) by {
                lemma_drained_kept(g.seeders@, 1, 1, r.seeders@, e, g.limit);
            }
            assert forall|e: TopEntry| #[trigger] kept_top(g.leechers@, ranked_entry(2, e), g.limit) implies r.leechers@.contains(e)
                || forall|a: int| 0 <= a < r.leechers@.len() ==> sort_value(e, 2) <= sort_value(#[trigger] r.leechers@[a], 2) by {
                lemma_drained_kept(g.leechers@, 2, 2, r.leechers@, e, g.limit);
            }
            assert forall|e: TopEntry|
                #[trigger] kept_top(g.downloaded@, ranked_entry(3, e), g.limit) implies r.downloaded@.contains(e) || forall|
                a: int,
            | 0 <= a < r.downloaded@.len() ==> sort_value(e, 3) <= sort_value(#[trigger] r.downloaded@[a], 3) by {
                lemma_drained_kept(g.downloaded@, 3, 3, r.downloaded@, e, g.limit);
            }
        }
        r
    }
}

impl Tracker {
    /// The four rankings of this tracker's swarms, up to `limit` each.
    pub fn top_torrents_all(&self, limit: usize) -> (r: Top100All)
        requires
            self.wf(),
        ensures
            ({
                let src = self.swarms@.map_values(|p: (InfoHash, Swarm)| swarm_entry(p.0, p.1));
                &&& r.peers@.len() <= limit && r.seeders@.len() <= limit
                &&& r.leechers@.len() <= limit && r.downloaded@.len() <= limit
                &&& r.peers@.len() == min(src.len() as int, limit as int)
                &&& r.seeders@.len() == min(src.len() as int, limit as int)
                &&& r.leechers@.len() == min(src.len() as int, limit as int)
                &&& r.downloaded@.len() == min(src.len() as int, limit as int)
                &&& covers_top(r.peers@, src, 0) && covers_top(r.seeders@, src, 1)
                &&& covers_top(r.leechers@, src, 2) && covers_top(r.downloaded@, src, 3)
                &&& r.peers@.no_duplicates() && r.seeders@.no_duplicates()
                &&& r.leechers@.no_duplicates() && r.downloaded@.no_duplicates()
                &&& forall|a: int| 0 <= a < r.peers@.len() ==> src.contains(#[trigger] r.peers@[a])
                &&& forall|a: int| 0 <= a < r.seeders@.len() ==> src.contains(#[trigger] r.seeders@[a])
                &&& forall|a: int| 0 <= a < r.leechers@.len() ==> src.contains(#[trigger] r.leechers@[a])
                &&& forall|a: int| 0 <= a < r.downloaded@.len() ==> src.contains(#[trigger] r.downloaded@[a])
                &&& self.swarms@.len() <= limit ==> {
                    &&& r.peers@.to_multiset() == src.to_multiset()
                    &&& r.seeders@.to_multiset() == src.to_multiset()
                    &&& r.leechers@.to_multiset() == src.to_multiset()
                    &&& r.downloaded@.to_multiset() == src.to_multiset()
                }
                &&& forall|a: int, b: int|
                    0 <= a < b < r.peers@.len() ==> sort_value(#[trigger] r.peers@[a], 0) >= sort_value(
                        #[trigger] r.peers@[b],
                        0,
                    )
                &&& forall|a: int, b: int|
                    0 <= a < b < r.seeders@.len() ==> sort_value(#[trigger] r.seeders@[a], 1) >= sort_value(
                        #[trigger] r.seeders@[b],
                        1,
                    )
                &&& forall|a: int, b: int|
                    0 <= a < b < r.leechers@.len() ==> sort_value(#[trigger] r.leechers@[a], 2) >= sort_value(
                        #[trigger] r.leechers@[b],
                        2,
                    )
                &&& forall|a: int, b: int|
                    0 <= a < b < r.downloaded@.len() ==> sort_value(#[trigger] r.downloaded@[a], 3) >= sort_value(
                        #[trigger] r.downloaded@[b],
                        3,
                    )
            }),
    {
        proof {
            let src = self.swarms@.map_values(|p: (InfoHash, Swarm)| swarm_entry(p.0, p.1));
            assert forall|a: int, b: int| 0 <= a < src.len() && 0 <= b < src.len() && a != b implies src[a] != src[b] by {
                let ks = crate::tracker::hash_keys(self.swarms@);
                if a < b {
                    assert(crate::order::bytes_lt(ks[a], ks[b]));
                    if src[a] == src[b] {
                        crate::order::lemma_lt_irreflexive(ks[a]);
                    }
                } else {
                    assert(crate::order::bytes_lt(ks[b], ks[a]));
                    if src[a] == src[b] {
                        crate::order::lemma_lt_irreflexive(ks[b]);
                    }
                }
            }
        }
        top_torrents_all(&self.swarms, limit)
    }
}

} // verus!
