//! The tracker: swarms by info hash, announce and scrape, expiry of silent
//! peers, per-client peer counts and the running totals behind the dashboard.
//!
//! Times are milliseconds on the caller's clock; a tracker made with
//! [`Tracker::new`] counts from 0.
use vstd::prelude::*;
use crate::counters::{ExpireResult, TrackerCounters, sat_sub};
use crate::order::{bytes_lt, strictly_sorted, compare_bytes, Order, lemma_lt_irreflexive, lemma_lt_transitive};
use crate::census::{census_fn, census_total, swarm_tagged, tag_of};
use crate::swarm::{PeerEndpoint, Swarm, expired_tags, min};
use crate::packed::kept;
use crate::types::{AnnounceEvent, InfoHash, PeerId, PeerIp, PeerState, TorrentStats};

verus! {

/// The announce interval is varied by up to this many percent either way.
pub const INTERVAL_JITTER_PERCENT: u64 = 10;

/// Expiry sweeps run at most this often, in seconds.
pub const EXPIRE_SWEEP_INTERVAL_SECS: u64 = 30;

/// What a client announced.
#[derive(Clone, Copy, Debug)]
pub struct AnnounceInput {
    pub info_hash: InfoHash,
    pub peer_id: PeerId,
    pub ip: PeerIp,
    pub port: u16,
    pub uploaded: u64,
    pub downloaded: u64,
    pub left: u64,
    pub event: AnnounceEvent,
    pub numwant: usize,
    pub client_tag: u8,
}

/// The tracker's answer to an announce.
#[derive(Debug, PartialEq, Eq)]
pub struct AnnounceOutput {
    /// Seconds until the client should announce again.
    pub interval: u64,
    pub complete: usize,
    pub incomplete: usize,
    pub downloaded: u32,
    /// Compact IPv4 and IPv6 peers.
    pub peers: (Vec<u8>, Vec<u8>),
}

/// Totals over all swarms.
#[derive(Clone, Copy, Debug, PartialEq, Eq, Structural)]
pub struct TrackerTotals {
    pub torrents: usize,
    pub peers: usize,
    pub seeders: usize,
    pub leechers: usize,
    pub downloaded: u64,
}

/// What the dashboard shows of a tracker.
#[derive(Debug, PartialEq, Eq)]
pub struct TrackerSnapshot {
    pub interval: u64,
    pub peer_timeout: u64,
    pub totals: TrackerTotals,
    /// Peers per client tag.
    pub clients: Vec<(u8, u64)>,
}

impl Default for TrackerTotals {
    fn default() -> (r: Self)
        ensures
            r == (TrackerTotals { torrents: 0, peers: 0, seeders: 0, leechers: 0, downloaded: 0 }),
    {
        TrackerTotals { torrents: 0, peers: 0, seeders: 0, leechers: 0, downloaded: 0 }
    }
}

/// The FNV-1a step over one byte.
pub open spec fn fnv_step(seed: u64, byte: u8) -> u64 {
    (((seed ^ (byte as u64)) as nat * 0x0000_0100_0000_01b3nat) % 0x1_0000_0000_0000_0000nat) as u64
}

/// FNV-1a over `bytes`, from `seed`.
pub open spec fn fnv(seed: u64, bytes: Seq<u8>) -> u64
    decreases bytes.len(),
{
    if bytes.len() == 0 {
        seed
    } else {
        fnv_step(fnv(seed, bytes.drop_last()), bytes.last())
    }
}

/// The seed of the peer choice and of the interval jitter for an announce.
pub open spec fn jitter_seed_spec(info_hash: InfoHash, peer_id: PeerId, now_secs: u32) -> u64 {
    fnv(0xcbf2_9ce4_8422_2325u64 ^ (now_secs as u64), info_hash.0@ + peer_id.0@)
}

/// FNV-1a over the info hash and the peer id, seeded with the time, so that
/// a peer sees a new choice of peers in each second.
pub fn jitter_seed(info_hash: InfoHash, peer_id: PeerId, now_secs: u32) -> (r: u64)
    ensures
        r == jitter_seed_spec(info_hash, peer_id, now_secs),
{
    let mut seed: u64 = 0xcbf2_9ce4_8422_2325u64 ^ (now_secs as u64);
    let ghost all = info_hash.0@ + peer_id.0@;
    let mut i: usize = 0;
    while i < 40
        invariant
            i <= 40,
            all == info_hash.0@ + peer_id.0@,
            all.len() == 40,
            seed == fnv(0xcbf2_9ce4_8422_2325u64 ^ (now_secs as u64), all.subrange(0, i as int)),
        decreases 40 - i,
    {
        let byte = if i < 20 {
            info_hash.0[i]
        } else {
            peer_id.0[i - 20]
        };
        proof {
            assert(all.subrange(0, i + 1).drop_last() =~= all.subrange(0, i as int));
            assert(byte == all[i as int]);
        }
        seed = seed ^ (byte as u64);
        seed = seed.wrapping_mul(0x0000_0100_0000_01b3);
        i = i + 1;
    }
    assert(all.subrange(0, 40) =~= all);
    seed
}

/// The interval base: at least one second.
pub open spec fn interval_base(interval_secs: u64) -> int {
    if interval_secs >= 1 {
        interval_secs as int
    } else {
        1
    }
}

/// The jitter width: a tenth of the base, at least one second.
pub open spec fn interval_jitter(interval_secs: u64) -> int {
    let base = interval_base(interval_secs);
    let tenth = min(base * 10, u64::MAX as int) / 100;
    if tenth >= 1 {
        tenth
    } else {
        1
    }
}

/// The jittered interval for a seed.
pub open spec fn jittered(interval_secs: u64, seed: u64) -> int {
    let base = interval_base(interval_secs);
    let jitter = interval_jitter(interval_secs);
    let span = min(min(jitter * 2, u64::MAX as int) + 1, u64::MAX as int);
    let v = base + (seed as int % span) - jitter;
    if v >= 1 {
        v
    } else {
        1
    }
}

/// The announce interval, varied per peer and second within a tenth of
/// the configured interval either way.
pub fn jittered_interval_secs(interval_secs: u64, info_hash: InfoHash, peer_id: PeerId, now_secs: u32) -> (r: u64)
    ensures
        r == jittered(interval_secs, jitter_seed_spec(info_hash, peer_id, now_secs)) as u64,
        interval_base(interval_secs) + interval_jitter(interval_secs) <= u64::MAX ==> {
            &&& r >= 1
            &&& interval_base(interval_secs) - interval_jitter(interval_secs) <= r || r == 1
            &&& r <= interval_base(interval_secs) + interval_jitter(interval_secs)
        },
{
    let base: u64 = if interval_secs >= 1 {
        interval_secs
    } else {
        1
    };
    let scaled = match base.checked_mul(INTERVAL_JITTER_PERCENT) {
        Some(v) => v,
        None => u64::MAX,
    };
    let tenth = scaled / 100;
    let jitter: u64 = if tenth >= 1 {
        tenth
    } else {
        1
    };
    let doubled = match jitter.checked_mul(2) {
        Some(v) => v,
        None => u64::MAX,
    };
    let span = doubled.saturating_add(1);
    let seed = jitter_seed(info_hash, peer_id, now_secs);
    let offset = (seed % span) as i128 - jitter as i128;
    let v = base as i128 + offset;
    if v >= 1 {
        #[verifier::truncate]
        (v as u64)
    } else {
        1
    }
}

/// Whole seconds of a millisecond span, capped at the `u32` range.
pub fn saturating_u32_secs(duration_ms: u64) -> (r: u32)
    ensures
        r == min(duration_ms as int / 1000, u32::MAX as int),
{
    let secs = duration_ms / 1000;
    if secs < u32::MAX as u64 {
        secs as u32
    } else {
        u32::MAX
    }
}

/// The info-hash bytes of swarm entries, in order.
pub open spec fn hash_keys(s: Seq<(InfoHash, Swarm)>) -> Seq<Seq<u8>> {
    s.map_values(|p: (InfoHash, Swarm)| p.0.0@)
}

/// Some entry holds the swarm of `h`.
pub open spec fn holds(s: Seq<(InfoHash, Swarm)>, h: InfoHash) -> bool {
    exists|i: int| 0 <= i < s.len() && (#[trigger] s[i]).0 == h
}

/// The swarm of `h`, if there is one.
pub open spec fn swarm_for(s: Seq<(InfoHash, Swarm)>, h: InfoHash) -> Option<Swarm> {
    if holds(s, h) {
        Some(s[choose|i: int| 0 <= i < s.len() && (#[trigger] s[i]).0 == h].1)
    } else {
        None
    }
}

/// A sum over the swarms.
pub open spec fn total(s: Seq<(InfoHash, Swarm)>, f: spec_fn(Swarm) -> nat) -> nat
    decreases s.len(),
{
    if s.len() == 0 {
        0
    } else {
        total(s.drop_last(), f) + f(s.last().1)
    }
}

/// Peers of a swarm.
pub open spec fn peers_in(w: Swarm) -> nat {
    w.peer_count()
}

/// Counted seeders of a swarm.
pub open spec fn complete_in(w: Swarm) -> nat {
    w.complete as nat
}

/// Completions of a swarm.
pub open spec fn downloaded_in(w: Swarm) -> nat {
    w.downloaded as nat
}

/// Equal hash bytes mean equal hashes.
pub proof fn lemma_hash_bytes(a: InfoHash, b: InfoHash)
    requires
        a.0@ == b.0@,
    ensures
        a == b,
{
    assert(a.0 =~= b.0);
}

/// In a strictly sorted list, entry `i` is the one found for its hash.
pub proof fn lemma_swarm_at(s: Seq<(InfoHash, Swarm)>, i: int)
    requires
        strictly_sorted(hash_keys(s)),
        0 <= i < s.len(),
    ensures
        holds(s, s[i].0),
        swarm_for(s, s[i].0) == Some(s[i].1),
{
    assert(holds(s, s[i].0));
    let j = choose|j: int| 0 <= j < s.len() && (#[trigger] s[j]).0 == s[i].0;
    if j != i {
        if j < i {
            assert(bytes_lt(hash_keys(s)[j], hash_keys(s)[i]));
        } else {
            assert(bytes_lt(hash_keys(s)[i], hash_keys(s)[j]));
        }
        lemma_lt_irreflexive(s[i].0.0@);
    }
}

/// Changing a sum's term at `i`.
pub proof fn lemma_total_update(s: Seq<(InfoHash, Swarm)>, i: int, x: (InfoHash, Swarm), f: spec_fn(Swarm) -> nat)
    requires
        0 <= i < s.len(),
    ensures
        total(s.update(i, x), f) + f(s[i].1) == total(s, f) + f(x.1),
    decreases s.len(),
{
    if i < s.len() - 1 {
        lemma_total_update(s.drop_last(), i, x, f);
        assert(s.update(i, x).drop_last() =~= s.drop_last().update(i, x));
    } else {
        assert(s.update(i, x).drop_last() =~= s.drop_last());
    }
}

/// Inserting a term into a sum.
pub proof fn lemma_total_insert(s: Seq<(InfoHash, Swarm)>, i: int, x: (InfoHash, Swarm), f: spec_fn(Swarm) -> nat)
    requires
        0 <= i <= s.len(),
    ensures
        total(s.insert(i, x), f) == total(s, f) + f(x.1),
    decreases s.len(),
{
    if i == s.len() {
        assert(s.insert(i, x).drop_last() =~= s);
    } else {
        lemma_total_insert(s.drop_last(), i, x, f);
        assert(s.insert(i, x).drop_last() =~= s.drop_last().insert(i, x));
    }
}

/// A prefix one longer adds the next term.
pub proof fn lemma_total_step(s: Seq<(InfoHash, Swarm)>, i: int, f: spec_fn(Swarm) -> nat)
    requires
        0 <= i < s.len(),
    ensures
        total(s.subrange(0, i + 1), f) == total(s.subrange(0, i), f) + f(s[i].1),
{
    assert(s.subrange(0, i + 1).drop_last() =~= s.subrange(0, i));
}

/// The tracker's state.
pub struct Tracker {
    pub interval_secs: u64,
    pub peer_timeout_secs: u64,
    pub started_at_ms: u64,
    pub next_expire_at_ms: u64,
    /// Swarms, in ascending order of info hash.
    pub swarms: Vec<(InfoHash, Swarm)>,
    /// Peers per client tag; no tag twice.
    pub client_counts: Vec<(u8, u64)>,
    pub counters: TrackerCounters,
}

impl Tracker {
    /// The swarm list is sorted by hash and each swarm is well formed.
    pub open spec fn wf(&self) -> bool {
        &&& strictly_sorted(hash_keys(self.swarms@))
        &&& forall|i: int| 0 <= i < self.swarms@.len() ==> (#[trigger] self.swarms@[i]).1.wf()
    }

    /// The running totals equal the sums over the swarms, and each swarm's
    /// seeder count matches its peers.
    pub open spec fn consistent(&self) -> bool {
        &&& self.counters.torrents == self.swarms@.len()
        &&& self.counters.peers == total(self.swarms@, |w: Swarm| peers_in(w))
        &&& self.counters.seeders == total(self.swarms@, |w: Swarm| complete_in(w))
        &&& self.counters.downloaded == total(self.swarms@, |w: Swarm| downloaded_in(w))
        &&& forall|i: int| 0 <= i < self.swarms@.len() ==> (#[trigger] self.swarms@[i]).1.counts_agree()
    }

    /// Every swarm can take one more peer of either family.
    pub open spec fn has_room(&self) -> bool {
        forall|i: int| 0 <= i < self.swarms@.len() ==> (#[trigger] self.swarms@[i]).1.has_room()
    }

    /// Each client count is the number of stored peers with that tag.
    pub open spec fn census_ok(&self) -> bool {
        forall|t: u8| #[trigger] tag_count(self.client_counts@, t) == census_total(self.swarms@, t)
    }

    /// The swarm of `h`, if there is one, can take one more peer of either
    /// family.
    pub open spec fn room_for(&self, h: InfoHash) -> bool {
        self.swarm(h) matches Some(w) ==> w.has_room()
    }

    /// Whether an announce for `h` finds room in its swarm, as `announce`
    /// requires.
    pub fn room_for_announce(&self, h: &InfoHash) -> (r: bool)
        requires
            self.wf(),
        ensures
            r == self.room_for(*h),
    {
        let ghost s = self.swarms@;
        match self.search(h) {
            Ok(i) => {
                proof {
                    lemma_swarm_at(s, i as int);
                }
                let w = &self.swarms[i].1;
                !(w.ipv4_peers.bytes.len() > usize::MAX - 12 || w.ipv6_peers.bytes.len() > usize::MAX - 24)
            },
            Err(_) => {
                proof {
                    if holds(s, *h) {
                        let j = choose|j: int| 0 <= j < s.len() && (#[trigger] s[j]).0 == *h;
                        lemma_lt_irreflexive(h.0@);
                    }
                }
                true
            },
        }
    }

    /// Whether every swarm can take one more peer of either family.
    pub fn room_for_peers(&self) -> (r: bool)
        ensures
            r == self.has_room(),
    {
        let mut i: usize = 0;
        while i < self.swarms.len()
            invariant
                i <= self.swarms@.len(),
                forall|j: int| 0 <= j < i ==> (#[trigger] self.swarms@[j]).1.has_room(),
            decreases self.swarms@.len() - i,
        {
            let w = &self.swarms[i].1;
            if w.ipv4_peers.bytes.len() > usize::MAX - 12 || w.ipv6_peers.bytes.len() > usize::MAX - 24 {
                assert(!self.swarms@[i as int].1.has_room());
                return false;
            }
            i = i + 1;
        }
        true
    }

    /// The swarm of `h`.
    pub open spec fn swarm(&self, h: InfoHash) -> Option<Swarm> {
        swarm_for(self.swarms@, h)
    }

    /// A tracker whose clock starts at 0.
    pub fn new(interval_secs: u64, peer_timeout_secs: u64) -> (r: Self)
        ensures
            r.wf(),
            r.consistent(),
            r.interval_secs == interval_secs,
            r.peer_timeout_secs == peer_timeout_secs,
            r.started_at_ms == 0,
            r.next_expire_at_ms == 0,
            r.swarms@.len() == 0,
            r.client_counts@.len() == 0,
            r.census_ok(),
    {
        Self::with_started_at(interval_secs, peer_timeout_secs, 0)
    }

    /// A tracker whose clock starts at `started_at_ms`.
    pub fn with_started_at(interval_secs: u64, peer_timeout_secs: u64, started_at_ms: u64) -> (r: Self)
        ensures
            r.wf(),
            r.consistent(),
            r.interval_secs == interval_secs,
            r.peer_timeout_secs == peer_timeout_secs,
            r.started_at_ms == started_at_ms,
            r.next_expire_at_ms == started_at_ms,
            r.swarms@.len() == 0,
            r.client_counts@.len() == 0,
            r.census_ok(),
    {
        let r = Tracker {
            interval_secs,
            peer_timeout_secs,
            started_at_ms,
            next_expire_at_ms: started_at_ms,
            swarms: Vec::new(),
            client_counts: Vec::new(),
            counters: TrackerCounters::default(),
        };
        proof {
            assert(hash_keys(r.swarms@) =~= Seq::<Seq<u8>>::empty());
        }
        r
    }

    /// Whole seconds from the start to `now_ms`, capped at the `u32` range.
    pub open spec fn elapsed(&self, now_ms: u64) -> u32 {
        min(
            (if now_ms >= self.started_at_ms {
                now_ms - self.started_at_ms
            } else {
                0
            }) / 1000,
            u32::MAX as int,
        ) as u32
    }

    /// Whole seconds from the start to `now_ms`, capped at the `u32` range.
    pub fn elapsed_secs(&self, now_ms: u64) -> (r: u32)
        ensures
            r == min(
                (if now_ms >= self.started_at_ms {
                    now_ms - self.started_at_ms
                } else {
                    0
                }) / 1000,
                u32::MAX as int,
            ),
    {
        let span = if now_ms >= self.started_at_ms {
            now_ms - self.started_at_ms
        } else {
            0
        };
        saturating_u32_secs(span)
    }

    /// The time between expiry sweeps: the peer timeout, but no more than
    /// 30 seconds and no less than one.
    pub fn expire_sweep_interval_ms(&self) -> (r: u64)
        ensures
            r == 1000 * (if self.peer_timeout_secs < EXPIRE_SWEEP_INTERVAL_SECS {
                if self.peer_timeout_secs >= 1 {
                    self.peer_timeout_secs
                } else {
                    1
                }
            } else {
                EXPIRE_SWEEP_INTERVAL_SECS
            }),
    {
        let secs = if self.peer_timeout_secs < EXPIRE_SWEEP_INTERVAL_SECS {
            if self.peer_timeout_secs >= 1 {
                self.peer_timeout_secs
            } else {
                1
            }
        } else {
            EXPIRE_SWEEP_INTERVAL_SECS
        };
        secs * 1000
    }

    /// Bisection over the swarm list: `Ok` with the position of `h`, or
    /// `Err` with the position where it would be inserted.
    fn search(&self, h: &InfoHash) -> (r: Result<usize, usize>)
        requires
            self.wf(),
        ensures
            r matches Ok(i) ==> i < self.swarms@.len() && self.swarms@[i as int].0 == *h,
            r matches Err(i) ==> i <= self.swarms@.len() && (forall|j: int|
                0 <= j < i ==> bytes_lt((#[trigger] self.swarms@[j]).0.0@, h.0@)) && (forall|j: int|
                i <= j < self.swarms@.len() ==> bytes_lt(h.0@, (#[trigger] self.swarms@[j]).0.0@)),
    {
        let s = &self.swarms;
        let mut size = s.len();
        let mut base: usize = 0;
        while size > 0
            invariant
                s@ == self.swarms@,
                base + size <= s@.len(),
                s@.len() <= usize::MAX,
                strictly_sorted(hash_keys(s@)),
                forall|j: int| 0 <= j < base ==> bytes_lt((#[trigger] s@[j]).0.0@, h.0@),
                forall|j: int| base + size <= j < s@.len() ==> bytes_lt(h.0@, (#[trigger] s@[j]).0.0@),
            decreases size,
        {
            let half = size / 2;
            let mid = base + half;
            let mh = &s[mid].0;
            match compare_bytes(mh.0.as_slice(), h.0.as_slice()) {
                Order::Less => {
                    proof {
                        assert forall|j: int| 0 <= j <= mid implies bytes_lt((#[trigger] s@[j]).0.0@, h.0@) by {
                            if j < mid {
                                assert(bytes_lt(hash_keys(s@)[j], hash_keys(s@)[mid as int]));
                                lemma_lt_transitive(s@[j].0.0@, s@[mid as int].0.0@, h.0@);
                            }
                        }
                    }
                    base = mid + 1;
                    size = size - (half + 1);
                },
                Order::Greater => {
                    proof {
                        assert forall|j: int| mid <= j < s@.len() implies bytes_lt(h.0@, (#[trigger] s@[j]).0.0@) by {
                            if j > mid && j < base + size {
                                assert(bytes_lt(hash_keys(s@)[mid as int], hash_keys(s@)[j]));
                                lemma_lt_transitive(h.0@, s@[mid as int].0.0@, s@[j].0.0@);
                            }
                        }
                    }
                    size = half;
                },
                Order::Equal => {
                    proof {
                        lemma_hash_bytes(s@[mid as int].0, *h);
                    }
                    return Ok(mid);
                },
            }
        }
        Err(base)
    }

    /// The position of the swarm of `h`, if there is one.
    fn find(&self, h: &InfoHash) -> (r: Option<usize>)
        requires
            self.wf(),
        ensures
            r matches Some(i) ==> i < self.swarms@.len() && self.swarms@[i as int].0 == *h && self.swarm(*h) == Some(
                self.swarms@[i as int].1,
            ),
            r is None ==> self.swarm(*h) is None,
    {
        match self.search(h) {
            Ok(i) => {
                proof {
                    lemma_swarm_at(self.swarms@, i as int);
                }
                Some(i)
            },
            Err(_) => {
                proof {
                    if holds(self.swarms@, *h) {
                        let j = choose|j: int| 0 <= j < self.swarms@.len() && (#[trigger] self.swarms@[j]).0 == *h;
                        lemma_lt_irreflexive(h.0@);
                    }
                }
                None
            },
        }
    }

    /// Scrape statistics of each requested torrent, in request order; a
    /// torrent without a swarm has all-zero statistics.
    pub fn scrape(&self, info_hashes: &[InfoHash]) -> (r: Vec<(InfoHash, TorrentStats)>)
        requires
            self.wf(),
        ensures
            r@.len() == info_hashes@.len(),
            forall|i: int|
                0 <= i < r@.len() ==> (#[trigger] r@[i]).0 == info_hashes@[i] && r@[i].1 == match self.swarm(
                    info_hashes@[i],
                ) {
                    Some(w) => stats_of(w),
                    None => TorrentStats { complete: 0, downloaded: 0, incomplete: 0 },
                },
    {
        let mut out: Vec<(InfoHash, TorrentStats)> = Vec::new();
        let mut i: usize = 0;
        while i < info_hashes.len()
            invariant
                self.wf(),
                i <= info_hashes@.len(),
                out@.len() == i,
                forall|j: int|
                    0 <= j < i ==> (#[trigger] out@[j]).0 == info_hashes@[j] && out@[j].1 == match self.swarm(
                        info_hashes@[j],
                    ) {
                        Some(w) => stats_of(w),
                        None => TorrentStats { complete: 0, downloaded: 0, incomplete: 0 },
                    },
            decreases info_hashes@.len() - i,
        {
            let h = info_hashes[i];
            let stats = match self.find(&h) {
                Some(k) => {
                    proof {
                        assert(self.swarms@[k as int].1.wf());
                    }
                    self.swarms[k].1.stats()
                },
                None => TorrentStats { complete: 0, downloaded: 0, incomplete: 0 },
            };
            out.push((h, stats));
            i = i + 1;
        }
        out
    }

    /// The peers per client tag.
    pub fn client_distribution(&self) -> (r: &[(u8, u64)])
        ensures
            r@ == self.client_counts@,
    {
        self.client_counts.as_slice()
    }

    /// The dashboard view: configuration, running totals and client counts.
    pub fn snapshot(&self) -> (r: TrackerSnapshot)
        ensures
            r.interval == self.interval_secs,
            r.peer_timeout == self.peer_timeout_secs,
            r.totals == (TrackerTotals {
                torrents: self.counters.torrents,
                peers: self.counters.peers,
                seeders: self.counters.seeders,
                leechers: (if self.counters.peers >= self.counters.seeders {
                    self.counters.peers - self.counters.seeders
                } else {
                    0
                }) as usize,
                downloaded: self.counters.downloaded,
            }),
            r.clients@ == self.client_counts@,
    {
        let c = &self.counters;
        let mut clients: Vec<(u8, u64)> = Vec::new();
        let mut i: usize = 0;
        while i < self.client_counts.len()
            invariant
                i <= self.client_counts@.len(),
                clients@ == self.client_counts@.subrange(0, i as int),
            decreases self.client_counts@.len() - i,
        {
            let entry = self.client_counts[i];
            clients.push(entry);
            proof {
                assert(clients@ =~= self.client_counts@.subrange(0, i + 1));
            }
            i = i + 1;
        }
        proof {
            assert(self.client_counts@.subrange(0, i as int) =~= self.client_counts@);
        }
        TrackerSnapshot {
            interval: self.interval_secs,
            peer_timeout: self.peer_timeout_secs,
            totals: TrackerTotals {
                torrents: c.torrents,
                peers: c.peers,
                seeders: c.seeders,
                leechers: c.peers.saturating_sub(c.seeders),
                downloaded: c.downloaded,
            },
            clients,
        }
    }
}

/// Some entry is for `tag`.
pub open spec fn tag_stored(s: Seq<(u8, u64)>, tag: u8) -> bool {
    exists|i: int| 0 <= i < s.len() && (#[trigger] s[i]).0 == tag
}

/// The count stored for `tag`, or 0.
pub open spec fn tag_count(s: Seq<(u8, u64)>, tag: u8) -> nat {
    if tag_stored(s, tag) {
        s[choose|i: int| 0 <= i < s.len() && (#[trigger] s[i]).0 == tag].1 as nat
    } else {
        0
    }
}

/// No tag is stored twice and no stored count is zero.
pub open spec fn tags_wf(s: Seq<(u8, u64)>) -> bool {
    &&& forall|i: int, j: int| 0 <= i < s.len() && 0 <= j < s.len() && i != j ==> (#[trigger] s[i]).0 != (#[trigger] s[j]).0
    &&& forall|i: int| 0 <= i < s.len() ==> (#[trigger] s[i]).1 > 0
}

/// With distinct tags, the count of the tag at `i` is the one stored there.
pub proof fn lemma_tag_at(s: Seq<(u8, u64)>, i: int)
    requires
        tags_wf(s),
        0 <= i < s.len(),
    ensures
        tag_count(s, s[i].0) == s[i].1,
{
    assert(tag_stored(s, s[i].0));
}

/// A tag stored nowhere counts 0.
pub proof fn lemma_tag_absent(s: Seq<(u8, u64)>, tag: u8)
    requires
        forall|i: int| 0 <= i < s.len() ==> (#[trigger] s[i]).0 != tag,
    ensures
        tag_count(s, tag) == 0,
{
}

/// The state an announce stores for its peer.
pub open spec fn announced_state(input: AnnounceInput, now_secs: u32) -> PeerState {
    PeerState { complete: input.left == 0, last_seen_secs: now_secs, client_tag: input.client_tag }
}

impl AnnounceInput {
    /// The state this announce stores for its peer at `now_secs`.
    pub fn into_peer_state(self, now_secs: u32) -> (r: PeerState)
        ensures
            r == announced_state(self, now_secs),
    {
        PeerState { complete: self.left == 0, last_seen_secs: now_secs, client_tag: self.client_tag }
    }
}

/// The client-tag changes of an announce: the tags to count down, and the
/// tag to count up.
pub open spec fn tag_changes(old_peer: Option<PeerState>, input: AnnounceInput) -> (Seq<u8>, Option<u8>) {
    match input.event {
        AnnounceEvent::Stopped => match old_peer {
            Some(o) => (seq![o.client_tag], None),
            None => (Seq::empty(), None),
        },
        _ => {
            let decr = match old_peer {
                Some(o) => if o.client_tag != input.client_tag {
                    seq![o.client_tag]
                } else {
                    Seq::empty()
                },
                None => Seq::empty(),
            };
            let incr = if old_peer matches Some(o) && o.client_tag == input.client_tag {
                None
            } else {
                Some(input.client_tag)
            };
            (decr, incr)
        },
    }
}

/// Applies the event of an announce to its swarm and to the running totals;
/// returns the client-tag changes.
fn apply_event(
    swarm: &mut Swarm,
    counters: &mut TrackerCounters,
    input: AnnounceInput,
    endpoint: PeerEndpoint,
    now_secs: u32,
) -> (r: (Vec<u8>, Option<u8>))
    requires
        old(swarm).wf(),
        old(swarm).has_room(),
        old(counters).peers < usize::MAX,
        old(counters).seeders < usize::MAX,
        old(counters).downloaded < u64::MAX,
    ensures
        final(swarm).wf(),
        input.event == AnnounceEvent::Stopped ==> final(swarm).peer(endpoint) is None,
        input.event != AnnounceEvent::Stopped ==> final(swarm).peer(endpoint) == Some(announced_state(input, now_secs)),
        forall|e: PeerEndpoint| e != endpoint ==> #[trigger] final(swarm).peer(e) == old(swarm).peer(e),
        final(swarm).downloaded == if input.event == AnnounceEvent::Completed && !(old(swarm).peer(endpoint) matches Some(
            o,
        ) && o.complete) {
            crate::swarm::inc_u32(old(swarm).downloaded)
        } else {
            old(swarm).downloaded
        },
        r.0@ == tag_changes(old(swarm).peer(endpoint), input).0,
        r.1 == tag_changes(old(swarm).peer(endpoint), input).1,
        final(counters).torrents == old(counters).torrents,
        final(counters).downloaded == old(counters).downloaded + if counts_completion(old(swarm).peer(endpoint), input) {
            1int
        } else {
            0int
        },
        forall|t: u8| #[trigger] swarm_tagged(*final(swarm), t) + tag_of(old(swarm).peer(endpoint), t) == swarm_tagged(
            *old(swarm),
            t,
        ) + tag_of(final(swarm).peer(endpoint), t),
        ({
            let ok = old(swarm).counts_agree() && old(counters).peers >= old(swarm).peer_count()
                && old(counters).seeders >= old(swarm).complete && final(swarm).seeder_count() <= u32::MAX
                && old(swarm).downloaded < u32::MAX;
            ok ==> {
                &&& final(swarm).counts_agree()
                &&& final(counters).peers + old(swarm).peer_count() == old(counters).peers + final(swarm).peer_count()
                &&& final(counters).seeders + old(swarm).complete == old(counters).seeders + final(swarm).complete
                &&& final(counters).downloaded + old(swarm).downloaded == old(counters).downloaded
                    + final(swarm).downloaded
            }
        }),
{
    let mut decr: Vec<u8> = Vec::new();
    let mut incr: Option<u8> = None;
    let new_tag = input.client_tag;
    match input.event {
        AnnounceEvent::Stopped => {
            let removed = swarm.remove_peer_tag(endpoint);
            if let Some(removal) = removed {
                decr.push(removal.tag);
                counters.apply_removal(&removal);
            }
            proof {
                assert(decr@ =~= tag_changes(old(swarm).peer(endpoint), input).0);
            }
        },
        AnnounceEvent::Completed => {
            let upsert = swarm.upsert_peer(endpoint, input.into_peer_state(now_secs));
            let ghost after = *swarm;
            if !upsert.was_complete {
                swarm.downloaded = swarm.downloaded.saturating_add(1);
                counters.add_downloaded();
            }
            if let Some(tag) = upsert.old_tag {
                if tag != new_tag {
                    decr.push(tag);
                }
            }
            let same_tag = match upsert.old_tag {
                Some(tag) => tag == new_tag,
                None => false,
            };
            if !same_tag {
                incr = Some(new_tag);
            }
            counters.apply_upsert(&upsert);
            proof {
                assert(decr@ =~= tag_changes(old(swarm).peer(endpoint), input).0);
                assert forall|e: PeerEndpoint| e != endpoint implies #[trigger] swarm.peer(e) == old(swarm).peer(e) by {
                    assert(swarm.peer(e) == after.peer(e));
                }
                assert(swarm.peer(endpoint) == after.peer(endpoint));
                assert forall|t: u8| #[trigger] swarm_tagged(*swarm, t) + tag_of(old(swarm).peer(endpoint), t) == swarm_tagged(
                    *old(swarm),
                    t,
                ) + tag_of(swarm.peer(endpoint), t) by {
                    assert(swarm_tagged(after, t) == swarm_tagged(*swarm, t));
                }
            }
        },
        _ => {
            let upsert = swarm.upsert_peer(endpoint, input.into_peer_state(now_secs));
            if let Some(tag) = upsert.old_tag {
                if tag != new_tag {
                    decr.push(tag);
                }
            }
            let same_tag = match upsert.old_tag {
                Some(tag) => tag == new_tag,
                None => false,
            };
            if !same_tag {
                incr = Some(new_tag);
            }
            counters.apply_upsert(&upsert);
            proof {
                assert(decr@ =~= tag_changes(old(swarm).peer(endpoint), input).0);
            }
        },
    }
    (decr, incr)
}

impl Tracker {
    /// Counts one more peer of `tag` (saturating).
    pub fn incr_client(&mut self, tag: u8)
        requires
            tags_wf(old(self).client_counts@),
        ensures
            tags_wf(final(self).client_counts@),
            tag_count(final(self).client_counts@, tag) == min(tag_count(old(self).client_counts@, tag) as int + 1, u64::MAX as int),
            forall|t: u8| t != tag ==> #[trigger] tag_count(final(self).client_counts@, t) == tag_count(old(self).client_counts@, t),
            *final(self) == (Tracker { client_counts: final(self).client_counts, ..*old(self) }),
    {
        let ghost s = self.client_counts@;
        let n = self.client_counts.len();
        let mut i: usize = 0;
        while i < n
            invariant
                n == self.client_counts@.len(),
                self.client_counts@ == s,
                *self == *old(self),
                tags_wf(s),
                i <= n,
                forall|j: int| 0 <= j < i ==> (#[trigger] s[j]).0 != tag,
            decreases n - i,
        {
            if self.client_counts[i].0 == tag {
                let c = self.client_counts[i].1;
                let nc = c.saturating_add(1);
                self.client_counts.set(i, (tag, nc));
                proof {
                    let ns = self.client_counts@;
                    assert(ns == s.update(i as int, (tag, nc)));
                    lemma_tag_at(s, i as int);
                    assert(tags_wf(ns)) by {
                        assert forall|a: int, b: int| 0 <= a < ns.len() && 0 <= b < ns.len() && a != b implies (#[trigger] ns[a]).0
                            != (#[trigger] ns[b]).0 by {
                            assert(ns[a].0 == s[a].0 && ns[b].0 == s[b].0);
                        }
                    }
                    lemma_tag_at(ns, i as int);
                    assert forall|t: u8| t != tag implies #[trigger] tag_count(ns, t) == tag_count(s, t) by {
                        if tag_stored(s, t) {
                            let j = choose|j: int| 0 <= j < s.len() && (#[trigger] s[j]).0 == t;
                            lemma_tag_at(s, j);
                            assert(ns[j] == s[j]);
                            lemma_tag_at(ns, j);
                        } else {
                            assert forall|j: int| 0 <= j < ns.len() implies (#[trigger] ns[j]).0 != t by {
                                assert(ns[j].0 == s[j].0);
                            }
                        }
                    }
                }
                return;
            }
            i = i + 1;
        }
        self.client_counts.push((tag, 1));
        proof {
            let ns = self.client_counts@;
            lemma_tag_absent(s, tag);
            assert(ns == s.push((tag, 1u64)));
            assert(tags_wf(ns)) by {
                assert forall|a: int, b: int| 0 <= a < ns.len() && 0 <= b < ns.len() && a != b implies (#[trigger] ns[a]).0
                    != (#[trigger] ns[b]).0 by {
                    if a < s.len() && b < s.len() {
                        assert(ns[a] == s[a] && ns[b] == s[b]);
                    } else if a < s.len() {
                        assert(ns[a] == s[a]);
                    } else {
                        assert(ns[b] == s[b]);
                    }
                }
            }
            lemma_tag_at(ns, s.len() as int);
            assert forall|t: u8| t != tag implies #[trigger] tag_count(ns, t) == tag_count(s, t) by {
                if tag_stored(s, t) {
                    let j = choose|j: int| 0 <= j < s.len() && (#[trigger] s[j]).0 == t;
                    lemma_tag_at(s, j);
                    assert(ns[j] == s[j]);
                    lemma_tag_at(ns, j);
                } else {
                    assert forall|j: int| 0 <= j < ns.len() implies (#[trigger] ns[j]).0 != t by {
                        if j < s.len() {
                            assert(ns[j] == s[j]);
                        }
                    }
                }
            }
        }
    }

    /// Counts one peer of `tag` less; a count that reaches 0 is dropped.
    pub fn decr_client(&mut self, tag: u8)
        requires
            tags_wf(old(self).client_counts@),
        ensures
            tags_wf(final(self).client_counts@),
            tag_count(final(self).client_counts@, tag) == if tag_count(old(self).client_counts@, tag) > 0 {
                tag_count(old(self).client_counts@, tag) - 1
            } else {
                0
            },
            forall|t: u8| t != tag ==> #[trigger] tag_count(final(self).client_counts@, t) == tag_count(old(self).client_counts@, t),
            *final(self) == (Tracker { client_counts: final(self).client_counts, ..*old(self) }),
    {
        let ghost s = self.client_counts@;
        let n = self.client_counts.len();
        let mut i: usize = 0;
        while i < n
            invariant
                n == self.client_counts@.len(),
                self.client_counts@ == s,
                *self == *old(self),
                tags_wf(s),
                i <= n,
                forall|j: int| 0 <= j < i ==> (#[trigger] s[j]).0 != tag,
            decreases n - i,
        {
            if self.client_counts[i].0 == tag {
                let c = self.client_counts[i].1;
                proof {
                    lemma_tag_at(s, i as int);
                }
                if c > 1 {
                    self.client_counts.set(i, (tag, c - 1));
                    proof {
                        let ns = self.client_counts@;
                        assert(ns == s.update(i as int, (tag, (c - 1) as u64)));
                        assert(tags_wf(ns)) by {
                            assert forall|a: int, b: int| 0 <= a < ns.len() && 0 <= b < ns.len() && a != b implies (#[trigger] ns[a]).0
                                != (#[trigger] ns[b]).0 by {
                                assert(ns[a].0 == s[a].0 && ns[b].0 == s[b].0);
                            }
                        }
                        lemma_tag_at(ns, i as int);
                        assert forall|t: u8| t != tag implies #[trigger] tag_count(ns, t) == tag_count(s, t) by {
                            if tag_stored(s, t) {
                                let j = choose|j: int| 0 <= j < s.len() && (#[trigger] s[j]).0 == t;
                                lemma_tag_at(s, j);
                                assert(ns[j] == s[j]);
                                lemma_tag_at(ns, j);
                            } else {
                                assert forall|j: int| 0 <= j < ns.len() implies (#[trigger] ns[j]).0 != t by {
                                    assert(ns[j].0 == s[j].0);
                                }
                            }
                        }
                    }
                } else {
                    self.client_counts.swap_remove(i);
                    proof {
                        let ns = self.client_counts@;
                        let last = s.len() - 1;
                        assert(ns == s.update(i as int, s.last()).drop_last());
                        // Position `j` of the new list holds the old entry `src(j)`.
                        assert forall|j: int| 0 <= j < ns.len() implies #[trigger] ns[j] == s[if j == i {
                            last
                        } else {
                            j
                        }] by {
                            assert(s[last] == s.last());
                        }
                        assert(tags_wf(ns)) by {
                            assert forall|a: int, b: int| 0 <= a < ns.len() && 0 <= b < ns.len() && a != b implies (#[trigger] ns[a]).0
                                != (#[trigger] ns[b]).0 by {
                                let sa = if a == i { last } else { a };
                                let sb = if b == i { last } else { b };
                                assert(ns[a] == s[sa] && ns[b] == s[sb]);
                            }
                        }
                        assert forall|j: int| 0 <= j < ns.len() implies (#[trigger] ns[j]).0 != tag by {
                            let sj = if j == i { last } else { j };
                            assert(ns[j] == s[sj]);
                        }
                        lemma_tag_absent(ns, tag);
                        assert forall|t: u8| t != tag implies #[trigger] tag_count(ns, t) == tag_count(s, t) by {
                            if tag_stored(s, t) {
                                let j = choose|j: int| 0 <= j < s.len() && (#[trigger] s[j]).0 == t;
                                lemma_tag_at(s, j);
                                let nj = if j == last { i as int } else { j };
                                assert(ns[nj] == s[j]);
                                lemma_tag_at(ns, nj);
                            } else {
                                assert forall|j: int| 0 <= j < ns.len() implies (#[trigger] ns[j]).0 != t by {
                                    let sj = if j == i { last } else { j };
                                    assert(ns[j] == s[sj]);
                                }
                            }
                        }
                    }
                }
                return;
            }
            i = i + 1;
        }
        proof {
            lemma_tag_absent(s, tag);
        }
    }
}

/// A sum is at least each of its terms.
pub proof fn lemma_total_ge(s: Seq<(InfoHash, Swarm)>, i: int, f: spec_fn(Swarm) -> nat)
    requires
        0 <= i < s.len(),
    ensures
        total(s, f) >= f(s[i].1),
    decreases s.len(),
{
    if i < s.len() - 1 {
        lemma_total_ge(s.drop_last(), i, f);
    }
}

/// Replacing the swarm at `i` keeps the list sorted and changes only the
/// swarm of its hash.
pub proof fn lemma_swarm_update(s: Seq<(InfoHash, Swarm)>, i: int, w: Swarm)
    requires
        strictly_sorted(hash_keys(s)),
        0 <= i < s.len(),
    ensures
        strictly_sorted(hash_keys(s.update(i, (s[i].0, w)))),
        swarm_for(s.update(i, (s[i].0, w)), s[i].0) == Some(w),
        forall|h: InfoHash| h != s[i].0 ==> #[trigger] swarm_for(s.update(i, (s[i].0, w)), h) == swarm_for(s, h),
{
    let ns = s.update(i, (s[i].0, w));
    assert(hash_keys(ns) =~= hash_keys(s));
    lemma_swarm_at(ns, i);
    assert forall|h: InfoHash| h != s[i].0 implies #[trigger] swarm_for(ns, h) == swarm_for(s, h) by {
        if holds(s, h) {
            let j = choose|j: int| 0 <= j < s.len() && (#[trigger] s[j]).0 == h;
            lemma_swarm_at(s, j);
            assert(ns[j] == s[j]);
            lemma_swarm_at(ns, j);
        } else {
            if holds(ns, h) {
                let j = choose|j: int| 0 <= j < ns.len() && (#[trigger] ns[j]).0 == h;
                assert(ns[j].0 == s[j].0);
            }
        }
    }
}

/// Inserting a swarm for a new hash at its place keeps the list sorted and
/// adds only that swarm.
pub proof fn lemma_swarm_insert(s: Seq<(InfoHash, Swarm)>, pos: int, x: (InfoHash, Swarm))
    requires
        strictly_sorted(hash_keys(s)),
        0 <= pos <= s.len(),
        forall|j: int| 0 <= j < pos ==> bytes_lt((#[trigger] s[j]).0.0@, x.0.0@),
        forall|j: int| pos <= j < s.len() ==> bytes_lt(x.0.0@, (#[trigger] s[j]).0.0@),
    ensures
        strictly_sorted(hash_keys(s.insert(pos, x))),
        s.insert(pos, x)[pos] == x,
        forall|h: InfoHash| h != x.0 ==> #[trigger] swarm_for(s.insert(pos, x), h) == swarm_for(s, h),
{
    let ns = s.insert(pos, x);
    let ks = hash_keys(ns);
    assert forall|a: int, b: int| 0 <= a < b < ks.len() implies bytes_lt(#[trigger] ks[a], #[trigger] ks[b]) by {
        if b < pos {
            assert(bytes_lt(hash_keys(s)[a], hash_keys(s)[b]));
        } else if b == pos {
            assert(ks[a] == s[a].0.0@);
        } else if a < pos {
            assert(ks[b] == s[b - 1].0.0@);
            lemma_lt_transitive(s[a].0.0@, x.0.0@, s[b - 1].0.0@);
        } else if a == pos {
            assert(ks[b] == s[b - 1].0.0@);
        } else {
            assert(bytes_lt(hash_keys(s)[a - 1], hash_keys(s)[b - 1]));
        }
    }
    assert forall|h: InfoHash| h != x.0 implies #[trigger] swarm_for(ns, h) == swarm_for(s, h) by {
        if holds(s, h) {
            let j = choose|j: int| 0 <= j < s.len() && (#[trigger] s[j]).0 == h;
            lemma_swarm_at(s, j);
            let nj = if j < pos { j } else { j + 1 };
            assert(ns[nj] == s[j]);
            lemma_swarm_at(ns, nj);
        } else {
            if holds(ns, h) {
                let j = choose|j: int| 0 <= j < ns.len() && (#[trigger] ns[j]).0 == h;
                if j != pos {
                    let oj = if j < pos { j } else { j - 1 };
                    assert(ns[j] == s[oj]);
                }
            }
        }
    }
}

/// The endpoint an announce comes from.
pub open spec fn endpoint_of(input: AnnounceInput) -> PeerEndpoint {
    match input.ip {
        PeerIp::V4(a) => PeerEndpoint::V4(crate::types::Ipv4PeerKey { ip: a, port: input.port }),
        PeerIp::V6(a) => PeerEndpoint::V6(crate::types::Ipv6PeerKey { ip: a, port: input.port }),
    }
}

/// No tag has more peers than all swarms hold.
pub proof fn lemma_census_le_peers(s: Seq<(InfoHash, Swarm)>, t: u8)
    ensures
        census_total(s, t) <= total(s, |w: Swarm| peers_in(w)),
    decreases s.len(),
{
    if s.len() > 0 {
        lemma_census_le_peers(s.drop_last(), t);
        crate::census::lemma_swarm_tagged_bound(s.last().1, t);
    }
}

/// The client-count change of an announce matches the change in the peers
/// carrying each tag.
proof fn lemma_changed_census(
    t: u8,
    old_peer: Option<PeerState>,
    new_peer: Option<PeerState>,
    input: AnnounceInput,
    before: nat,
    after: nat,
)
    requires
        after + tag_of(old_peer, t) == before + tag_of(new_peer, t),
        input.event == AnnounceEvent::Stopped ==> new_peer is None,
        input.event != AnnounceEvent::Stopped ==> (new_peer matches Some(p) && p.client_tag == input.client_tag),
        before < u64::MAX,
    ensures
        changed_count(before, t, tag_changes(old_peer, input).0, tag_changes(old_peer, input).1) == after,
{
    let decr = tag_changes(old_peer, input).0;
    if let Some(o) = old_peer {
        if decr.len() > 0 {
            assert(decr =~= seq![o.client_tag]);
            assert(decr.contains(t) <==> t == o.client_tag) by {
                if t == o.client_tag {
                    assert(decr[0] == t);
                }
            }
        } else {
            assert(!decr.contains(t));
        }
    } else {
        assert(decr =~= Seq::<u8>::empty());
        assert(!decr.contains(t));
    }
}

/// Whether an announce counts a completed download: a `completed` event
/// from a peer not already stored as complete.
pub open spec fn counts_completion(old_peer: Option<PeerState>, input: AnnounceInput) -> bool {
    input.event == AnnounceEvent::Completed && !(old_peer matches Some(o) && o.complete)
}

/// The count of a tag after the changes of an announce.
pub open spec fn changed_count(c: nat, t: u8, decr: Seq<u8>, incr: Option<u8>) -> nat {
    let d = if decr.contains(t) && c > 0 {
        (c - 1) as nat
    } else {
        c
    };
    if incr == Some(t) {
        min(d as int + 1, u64::MAX as int) as nat
    } else {
        d
    }
}

impl Tracker {
    /// The position of the swarm of `h`, creating an empty one (and counting
    /// a new torrent) where there is none.
    fn locate_or_create(&mut self, h: InfoHash) -> (idx: usize)
        requires
            old(self).wf(),
            old(self).room_for(h),
            old(self).counters.torrents < usize::MAX,
        ensures
            final(self).wf(),
            old(self).has_room() ==> final(self).has_room(),
            final(self).swarms@[idx as int].1.has_room(),
            idx < final(self).swarms@.len(),
            final(self).swarms@[idx as int].0 == h,
            final(self).swarm(h) == Some(final(self).swarms@[idx as int].1),
            old(self).swarm(h) matches Some(b) ==> final(self).swarms@[idx as int].1 == b,
            old(self).swarm(h) is None ==> {
                let w = final(self).swarms@[idx as int].1;
                &&& w.peer_count() == 0
                &&& w.complete == 0
                &&& w.downloaded == 0
                &&& forall|e: PeerEndpoint| #[trigger] w.peer(e) is None
            },
            forall|g: InfoHash| g != h ==> #[trigger] final(self).swarm(g) == old(self).swarm(g),
            final(self).client_counts == old(self).client_counts,
            final(self).interval_secs == old(self).interval_secs,
            final(self).peer_timeout_secs == old(self).peer_timeout_secs,
            final(self).started_at_ms == old(self).started_at_ms,
            final(self).next_expire_at_ms == old(self).next_expire_at_ms,
            final(self).counters.peers == old(self).counters.peers,
            final(self).counters.seeders == old(self).counters.seeders,
            final(self).counters.downloaded == old(self).counters.downloaded,
            final(self).counters.torrents <= old(self).counters.torrents + 1,
            old(self).consistent() ==> final(self).consistent(),
            forall|t: u8| #[trigger] census_total(final(self).swarms@, t) == census_total(old(self).swarms@, t),
    {
        let ghost s0 = self.swarms@;
        match self.search(&h) {
            Ok(i) => {
                proof {
                    lemma_swarm_at(s0, i as int);
                }
                i
            },
            Err(pos) => {
                let fresh = Swarm::new();
                proof {
                    lemma_swarm_insert(s0, pos as int, (h, fresh));
                    lemma_total_insert(s0, pos as int, (h, fresh), |w: Swarm| peers_in(w));
                    lemma_total_insert(s0, pos as int, (h, fresh), |w: Swarm| complete_in(w));
                    lemma_total_insert(s0, pos as int, (h, fresh), |w: Swarm| downloaded_in(w));
                    assert(fresh.ipv4_peers@.len() == 0 && fresh.ipv6_peers@.len() == 0);
                    assert forall|t: u8| #[trigger] census_total(s0.insert(pos as int, (h, fresh)), t) == census_total(s0, t) by {
                        lemma_total_insert(s0, pos as int, (h, fresh), census_fn(t));
                        assert(swarm_tagged(fresh, t) == 0);
                    }
                    if holds(s0, h) {
                        let j = choose|j: int| 0 <= j < s0.len() && (#[trigger] s0[j]).0 == h;
                        lemma_lt_irreflexive(h.0@);
                    }
                }
                self.swarms.insert(pos, (h, fresh));
                self.counters.add_torrent();
                proof {
                    let s1 = self.swarms@;
                    lemma_swarm_at(s1, pos as int);
                    assert forall|i: int| 0 <= i < s1.len() implies (#[trigger] s1[i]).1.wf() && (old(self).has_room()
                        ==> s1[i].1.has_room()) by {
                        if i < pos {
                            assert(s1[i] == s0[i]);
                        } else if i > pos {
                            assert(s1[i] == s0[i - 1]);
                        }
                    }
                    if old(self).consistent() {
                        assert forall|i: int| 0 <= i < s1.len() implies (#[trigger] s1[i]).1.counts_agree() by {
                            if i < pos {
                                assert(s1[i] == s0[i]);
                            } else if i > pos {
                                assert(s1[i] == s0[i - 1]);
                            }
                        }
                    }
                }
                pos
            },
        }
    }

    /// Applies an announce to the swarm at `idx` and answers it; returns the
    /// answer and the client-tag changes.
    fn announce_at(&mut self, idx: usize, input: AnnounceInput, endpoint: PeerEndpoint, now_secs: u32) -> (r: (
        AnnounceOutput,
        Vec<u8>,
        Option<u8>,
    ))
        requires
            old(self).wf(),
            idx < old(self).swarms@.len(),
            old(self).swarms@[idx as int].1.has_room(),
            old(self).counters.peers < usize::MAX,
            old(self).counters.seeders < usize::MAX,
            old(self).counters.downloaded < u64::MAX,
        ensures
            final(self).wf(),
            final(self).swarms@.len() == old(self).swarms@.len(),
            final(self).swarms@[idx as int].0 == old(self).swarms@[idx as int].0,
            forall|g: InfoHash| g != old(self).swarms@[idx as int].0 ==> #[trigger] final(self).swarm(g) == old(self).swarm(g),
            final(self).swarm(old(self).swarms@[idx as int].0) == Some(final(self).swarms@[idx as int].1),
            final(self).client_counts == old(self).client_counts,
            final(self).interval_secs == old(self).interval_secs,
            final(self).peer_timeout_secs == old(self).peer_timeout_secs,
            final(self).started_at_ms == old(self).started_at_ms,
            final(self).next_expire_at_ms == old(self).next_expire_at_ms,
            final(self).counters.torrents == old(self).counters.torrents,
            ({
                let b = old(self).swarms@[idx as int].1;
                let w = final(self).swarms@[idx as int].1;
                &&& w.wf()
                &&& input.event == AnnounceEvent::Stopped ==> w.peer(endpoint) is None
                &&& input.event != AnnounceEvent::Stopped ==> w.peer(endpoint) == Some(announced_state(input, now_secs))
                &&& forall|e: PeerEndpoint| e != endpoint ==> #[trigger] w.peer(e) == b.peer(e)
                &&& r.0.complete == w.complete
                &&& r.0.incomplete == stats_of(w).incomplete
                &&& r.0.downloaded == w.downloaded
                &&& w.valid_picks(endpoint, r.0.peers.0@, r.0.peers.1@, w.pick_bound(endpoint, input.numwant as int))
                &&& input.numwant > 0 && w.peer_count() > input.numwant + 1 ==> r.0.peers.0@.len() / 6 + r.0.peers.1@.len()
                    / 18 == input.numwant
                &&& input.numwant > 0 && 0 < w.peer_count() <= input.numwant + 1 ==> (r.0.peers.0@, r.0.peers.1@)
                    == w.first_contacts(endpoint, input.numwant as nat)
                &&& input.numwant > 0 && w.peer_count() > input.numwant + 1 ==> (r.0.peers.0@, r.0.peers.1@)
                    == w.random_contacts(
                    endpoint,
                    input.numwant as nat,
                    jitter_seed_spec(input.info_hash, input.peer_id, now_secs),
                )
                &&& r.1@ == tag_changes(b.peer(endpoint), input).0
                &&& r.2 == tag_changes(b.peer(endpoint), input).1
                &&& w.downloaded == if counts_completion(b.peer(endpoint), input) {
                    crate::swarm::inc_u32(b.downloaded)
                } else {
                    b.downloaded
                }
                &&& final(self).counters.downloaded == old(self).counters.downloaded + if counts_completion(
                    b.peer(endpoint),
                    input,
                ) {
                    1int
                } else {
                    0int
                }
                &&& old(self).consistent() && b.downloaded < u32::MAX && w.seeder_count() <= u32::MAX
                    ==> final(self).consistent()
                &&& forall|t: u8| #[trigger] census_total(final(self).swarms@, t) + tag_of(b.peer(endpoint), t)
                    == census_total(old(self).swarms@, t) + tag_of(w.peer(endpoint), t)
            }),
            r.0.interval == jittered(old(self).interval_secs, jitter_seed_spec(input.info_hash, input.peer_id, now_secs))
                as u64,
    {
        let ghost s1 = self.swarms@;
        let h = self.swarms[idx].0;
        proof {
            lemma_swarm_at(s1, idx as int);
            assert(s1[idx as int].1.wf() && s1[idx as int].1.has_room());
            if old(self).consistent() {
                assert(s1[idx as int].1.counts_agree());
                lemma_total_ge(s1, idx as int, |w: Swarm| peers_in(w));
                lemma_total_ge(s1, idx as int, |w: Swarm| complete_in(w));
            }
        }
        let mut entry = (h, Swarm::new());
        std::mem::swap(&mut self.swarms[idx], &mut entry);
        let (decr, incr) = apply_event(&mut entry.1, &mut self.counters, input, endpoint, now_secs);
        let stats = entry.1.stats();
        let downloaded = entry.1.downloaded;
        let peers = entry.1.contacts_excluding(endpoint, input.numwant, jitter_seed(input.info_hash, input.peer_id, now_secs));
        let interval = jittered_interval_secs(self.interval_secs, input.info_hash, input.peer_id, now_secs);
        let ghost w1 = entry.1;
        std::mem::swap(&mut self.swarms[idx], &mut entry);
        proof {
            assert(self.swarms@ == s1.update(idx as int, (h, w1)));
            lemma_swarm_update(s1, idx as int, w1);
            lemma_total_update(s1, idx as int, (h, w1), |w: Swarm| peers_in(w));
            lemma_total_update(s1, idx as int, (h, w1), |w: Swarm| complete_in(w));
            lemma_total_update(s1, idx as int, (h, w1), |w: Swarm| downloaded_in(w));
            assert forall|t: u8| #[trigger] census_total(self.swarms@, t) + tag_of(s1[idx as int].1.peer(endpoint), t)
                == census_total(s1, t) + tag_of(w1.peer(endpoint), t) by {
                lemma_total_update(s1, idx as int, (h, w1), census_fn(t));
            }
            let s2 = self.swarms@;
            assert forall|i: int| 0 <= i < s2.len() implies (#[trigger] s2[i]).1.wf() by {
                if i != idx {
                    assert(s2[i] == s1[i]);
                }
            }
            if old(self).consistent() && s1[idx as int].1.downloaded < u32::MAX && w1.seeder_count() <= u32::MAX {
                assert forall|i: int| 0 <= i < s2.len() implies (#[trigger] s2[i]).1.counts_agree() by {
                    if i != idx {
                        assert(s2[i] == s1[i]);
                    }
                }
            }
        }
        let out = AnnounceOutput { interval, complete: stats.complete, incomplete: stats.incomplete, downloaded, peers };
        (out, decr, incr)
    }

    /// Applies the client-tag changes of an announce.
    fn apply_tag_changes(&mut self, decr: Vec<u8>, incr: Option<u8>)
        requires
            tags_wf(old(self).client_counts@),
            decr@.len() <= 1,
        ensures
            tags_wf(final(self).client_counts@),
            forall|t: u8| #[trigger] tag_count(final(self).client_counts@, t) == changed_count(
                tag_count(old(self).client_counts@, t),
                t,
                decr@,
                incr,
            ),
            *final(self) == (Tracker { client_counts: final(self).client_counts, ..*old(self) }),
    {
        let ghost c0 = self.client_counts@;
        if decr.len() > 0 {
            let tag = decr[0];
            self.decr_client(tag);
            proof {
                assert(decr@ =~= seq![tag]);
            }
        } else {
            proof {
                assert(decr@ =~= Seq::<u8>::empty());
            }
        }
        let ghost c1 = self.client_counts@;
        if let Some(tag) = incr {
            self.incr_client(tag);
        }
        proof {
            assert forall|t: u8| #[trigger] tag_count(self.client_counts@, t) == changed_count(tag_count(c0, t), t, decr@, incr) by {
                assert(tag_count(c1, t) == if decr@.contains(t) && tag_count(c0, t) > 0 {
                    (tag_count(c0, t) - 1) as nat
                } else {
                    tag_count(c0, t)
                });
            }
        }
    }

    /// Records an announce: creates the torrent's swarm if needed, stores,
    /// updates or removes the peer as the event says, updates the totals and
    /// client counts, and answers with the swarm's statistics and up to
    /// `numwant` other peers.
    #[verifier::rlimit(60)]
    pub fn announce(&mut self, input: AnnounceInput, now_ms: u64) -> (r: AnnounceOutput)
        requires
            old(self).wf(),
            old(self).room_for(input.info_hash),
            tags_wf(old(self).client_counts@),
            old(self).counters.torrents < usize::MAX,
            old(self).counters.peers < usize::MAX,
            old(self).counters.seeders < usize::MAX,
            old(self).counters.downloaded < u64::MAX,
        ensures
            final(self).wf(),
            tags_wf(final(self).client_counts@),
            final(self).interval_secs == old(self).interval_secs,
            final(self).peer_timeout_secs == old(self).peer_timeout_secs,
            final(self).started_at_ms == old(self).started_at_ms,
            final(self).next_expire_at_ms == old(self).next_expire_at_ms,
            forall|h: InfoHash| h != input.info_hash ==> #[trigger] final(self).swarm(h) == old(self).swarm(h),
            r.interval == jittered(
                old(self).interval_secs,
                jitter_seed_spec(input.info_hash, input.peer_id, old(self).elapsed(now_ms)),
            ) as u64,
            ({
                let ep = endpoint_of(input);
                let before = old(self).swarm(input.info_hash);
                let old_peer = match before {
                    Some(b) => b.peer(ep),
                    None => None,
                };
                let changes = tag_changes(old_peer, input);
                &&& final(self).swarm(input.info_hash) matches Some(w) && {
                    &&& w.wf()
                    &&& input.event == AnnounceEvent::Stopped ==> w.peer(ep) is None
                    &&& input.event != AnnounceEvent::Stopped ==> w.peer(ep) == Some(
                        announced_state(input, old(self).elapsed(now_ms)),
                    )
                    &&& forall|e: PeerEndpoint|
                        e != ep ==> #[trigger] w.peer(e) == match before {
                            Some(b) => b.peer(e),
                            None => None,
                        }
                    &&& r.complete == w.complete
                    &&& r.incomplete == stats_of(w).incomplete
                    &&& r.downloaded == w.downloaded
                    &&& w.valid_picks(ep, r.peers.0@, r.peers.1@, w.pick_bound(ep, input.numwant as int))
                    &&& w.downloaded == ({
                        let d = match before {
                            Some(b) => b.downloaded,
                            None => 0u32,
                        };
                        if counts_completion(old_peer, input) {
                            crate::swarm::inc_u32(d)
                        } else {
                            d
                        }
                    })
                    &&& final(self).counters.downloaded == old(self).counters.downloaded + if counts_completion(
                        old_peer,
                        input,
                    ) {
                        1int
                    } else {
                        0int
                    }
                    &&& input.numwant > 0 && w.peer_count() > input.numwant + 1 ==> r.peers.0@.len() / 6 + r.peers.1@.len()
                        / 18 == input.numwant
                    &&& input.numwant > 0 && 0 < w.peer_count() <= input.numwant + 1 ==> (r.peers.0@, r.peers.1@)
                        == w.first_contacts(ep, input.numwant as nat)
                    &&& input.numwant > 0 && w.peer_count() > input.numwant + 1 ==> (r.peers.0@, r.peers.1@)
                        == w.random_contacts(
                        ep,
                        input.numwant as nat,
                        jitter_seed_spec(input.info_hash, input.peer_id, old(self).elapsed(now_ms)),
                    )
                }
                &&& forall|t: u8| #[trigger] tag_count(final(self).client_counts@, t) == changed_count(
                    tag_count(old(self).client_counts@, t),
                    t,
                    changes.0,
                    changes.1,
                )
            }),
            old(self).consistent() && (old(self).swarm(input.info_hash) matches Some(b) ==> b.downloaded < u32::MAX)
                && (final(self).swarm(input.info_hash) matches Some(w) && w.seeder_count() <= u32::MAX)
                ==> final(self).consistent(),
            old(self).census_ok() && old(self).consistent() ==> final(self).census_ok(),
    {
        let now_secs = self.elapsed_secs(now_ms);
        let endpoint = PeerEndpoint::new(input.ip, input.port);
        assert(endpoint == endpoint_of(input));
        let idx = self.locate_or_create(input.info_hash);
        let ghost mid = *self;
        let ghost b = mid.swarms@[idx as int].1;
        assert(b.peer(endpoint) == match old(self).swarm(input.info_hash) {
            Some(o) => o.peer(endpoint),
            None => None,
        });
        let (out, decr, incr) = self.announce_at(idx, input, endpoint, now_secs);
        assert(decr@.len() <= 1);
        let ghost after = *self;
        self.apply_tag_changes(decr, incr);
        assert(self.swarms == after.swarms);
        assert forall|h: InfoHash| h != input.info_hash implies #[trigger] self.swarm(h) == old(self).swarm(h) by {
            assert(self.swarm(h) == after.swarm(h));
            assert(after.swarm(h) == mid.swarm(h));
        }
        proof {
            if old(self).census_ok() && old(self).consistent() {
                let w = after.swarms@[idx as int].1;
                assert forall|t: u8| #[trigger] tag_count(self.client_counts@, t) == census_total(self.swarms@, t) by {
                    lemma_census_le_peers(old(self).swarms@, t);
                    assert(census_total(after.swarms@, t) + tag_of(b.peer(endpoint), t) == census_total(mid.swarms@, t)
                        + tag_of(w.peer(endpoint), t));
                    lemma_changed_census(
                        t,
                        b.peer(endpoint),
                        w.peer(endpoint),
                        input,
                        census_total(old(self).swarms@, t),
                        census_total(self.swarms@, t),
                    );
                }
            }
        }
        out
    }
}

/// The number of peers with client tag `tag` that are stale at `now` over
/// the swarms of `s`.
pub open spec fn expired_tag_total(s: Seq<(InfoHash, Swarm)>, tag: u8, now: u32, timeout: u32) -> nat
    decreases s.len(),
{
    if s.len() == 0 {
        0
    } else {
        expired_tag_total(s.drop_last(), tag, now, timeout) + expired_tags(s.last().1, now, timeout).to_multiset().count(
            tag,
        )
    }
}

/// `w2` is what the expiry of `w` at `now` leaves.
pub open spec fn expired_from(w2: Swarm, w: Swarm, now: u32, timeout: u32) -> bool {
    &&& forall|e: PeerEndpoint| #[trigger] w2.peer(e) == kept(w.peer(e), now, timeout)
    &&& w2.downloaded == w.downloaded
}

/// Expiry at `now` leaves nothing of `w`.
pub open spec fn expires_whole(w: Swarm, now: u32, timeout: u32) -> bool {
    forall|e: PeerEndpoint| #[trigger] kept(w.peer(e), now, timeout) is None
}

impl Tracker {
    /// The peer timeout in whole seconds, capped at the `u32` range.
    pub open spec fn timeout_u32(&self) -> u32 {
        min(self.peer_timeout_secs as int, u32::MAX as int) as u32
    }

    /// Drops the peers not seen within the peer timeout, then the swarms
    /// left without peers, and updates totals and client counts.
    pub fn expire(&mut self, now_ms: u64)
        requires
            old(self).wf(),
            old(self).consistent(),
            tags_wf(old(self).client_counts@),
        ensures
            final(self).wf(),
            final(self).consistent(),
            old(self).has_room() ==> final(self).has_room(),
            tags_wf(final(self).client_counts@),
            forall|t: u8| #[trigger] tag_count(final(self).client_counts@, t) == sat_sub(
                tag_count(old(self).client_counts@, t) as int,
                expired_tag_total(old(self).swarms@, t, old(self).elapsed(now_ms), old(self).timeout_u32()) as int,
            ),
            old(self).census_ok() ==> final(self).census_ok(),
            final(self).interval_secs == old(self).interval_secs,
            final(self).peer_timeout_secs == old(self).peer_timeout_secs,
            final(self).started_at_ms == old(self).started_at_ms,
            final(self).next_expire_at_ms == old(self).next_expire_at_ms,
            forall|h: InfoHash|
                #![trigger final(self).swarm(h)]
                match old(self).swarm(h) {
                    Some(w) => match final(self).swarm(h) {
                        Some(w2) => expired_from(w2, w, old(self).elapsed(now_ms), old(self).timeout_u32())
                            && w2.peer_count() > 0,
                        None => expires_whole(w, old(self).elapsed(now_ms), old(self).timeout_u32()),
                    },
                    None => final(self).swarm(h) is None,
                },
    {
        let now_secs = self.elapsed_secs(now_ms);
        let timeout_secs: u32 = if self.peer_timeout_secs < u32::MAX as u64 {
            self.peer_timeout_secs as u32
        } else {
            u32::MAX
        };
        let ghost s0 = self.swarms@;
        let mut pending: Vec<(InfoHash, Swarm)> = Vec::new();
        std::mem::swap(&mut self.swarms, &mut pending);
        let n = pending.len();
        let mut kept_swarms: Vec<(InfoHash, Swarm)> = Vec::new();
        let mut all_tags: Vec<u8> = Vec::new();
        let mut total_peers: usize = 0;
        let mut total_complete: usize = 0;
        let mut removed_swarms: usize = 0;
        let mut removed_downloaded: u64 = 0;
        let ghost fp = |w: Swarm| peers_in(w);
        let ghost fc = |w: Swarm| complete_in(w);
        let ghost fd = |w: Swarm| downloaded_in(w);
        proof {
            broadcast use vstd::seq_lib::group_to_multiset_ensures;

            assert(hash_keys(kept_swarms@) =~= Seq::<Seq<u8>>::empty());
            assert(s0.subrange(0, 0) =~= Seq::<(InfoHash, Swarm)>::empty());
            vstd::multiset::lemma_multiset_empty_len(all_tags@.to_multiset());
        }
        let mut i: usize = 0;
        while i < n
            invariant
                n == s0.len(),
                i <= n,
                pending@.len() == n,
                forall|j: int| i <= j < n ==> #[trigger] pending@[j] == s0[j],
                strictly_sorted(hash_keys(s0)),
                forall|j: int| 0 <= j < n ==> (#[trigger] s0[j]).1.wf() && s0[j].1.counts_agree(),
                old(self).has_room() ==> forall|j: int| 0 <= j < n ==> (#[trigger] s0[j]).1.has_room(),
                strictly_sorted(hash_keys(kept_swarms@)),
                forall|k: int, j: int|
                    0 <= k < kept_swarms@.len() && i <= j < n ==> bytes_lt(
                        (#[trigger] kept_swarms@[k]).0.0@,
                        (#[trigger] s0[j]).0.0@,
                    ),
                forall|k: int|
                    0 <= k < kept_swarms@.len() ==> exists|j: int|
                        0 <= j < i && #[trigger] s0[j].0 == (#[trigger] kept_swarms@[k]).0 && expired_from(
                            kept_swarms@[k].1,
                            s0[j].1,
                            now_secs,
                            timeout_secs,
                        ),
                forall|k: int|
                    0 <= k < kept_swarms@.len() ==> (#[trigger] kept_swarms@[k]).1.wf() && kept_swarms@[k].1.counts_agree()
                        && kept_swarms@[k].1.peer_count() > 0 && (old(self).has_room()
                        ==> kept_swarms@[k].1.has_room()),
                forall|j: int|
                    0 <= j < i ==> holds(kept_swarms@, (#[trigger] s0[j]).0) || expires_whole(
                        s0[j].1,
                        now_secs,
                        timeout_secs,
                    ),
                total(kept_swarms@, fp) + total_peers == total(s0.subrange(0, i as int), fp),
                total(kept_swarms@, fc) + total_complete == total(s0.subrange(0, i as int), fc),
                total(kept_swarms@, fd) + removed_downloaded == total(s0.subrange(0, i as int), fd),
                kept_swarms@.len() + removed_swarms == i,
                forall|x: u8| #[trigger] all_tags@.to_multiset().count(x) == expired_tag_total(
                    s0.subrange(0, i as int),
                    x,
                    now_secs,
                    timeout_secs,
                ),
                forall|x: u8| #[trigger] census_total(kept_swarms@, x) + expired_tag_total(
                    s0.subrange(0, i as int),
                    x,
                    now_secs,
                    timeout_secs,
                ) == census_total(s0.subrange(0, i as int), x),
                total(s0, fp) <= usize::MAX,
                total(s0, fc) <= usize::MAX,
                total(s0, fd) <= u64::MAX,
                fp == (|w: Swarm| peers_in(w)),
                fc == (|w: Swarm| complete_in(w)),
                fd == (|w: Swarm| downloaded_in(w)),
            decreases n - i,
        {
            let mut entry = (InfoHash([0u8; 20]), Swarm::new());
            std::mem::swap(&mut pending[i], &mut entry);
            let ghost w0 = entry.1;
            proof {
                assert(entry == s0[i as int]);
                lemma_total_step(s0, i as int, fp);
                lemma_total_step(s0, i as int, fc);
                lemma_total_step(s0, i as int, fd);
                lemma_total_prefix_le(s0, i as int + 1, fp);
                lemma_total_prefix_le(s0, i as int + 1, fc);
                lemma_total_prefix_le(s0, i as int + 1, fd);
            }
            let result = entry.1.expire(now_secs, timeout_secs);
            let ghost start = all_tags@;
            let mut t: usize = 0;
            while t < result.tags.len()
                invariant
                    t <= result.tags@.len(),
                    all_tags@ == start + result.tags@.subrange(0, t as int),
                decreases result.tags@.len() - t,
            {
                proof {
                    assert(start + result.tags@.subrange(0, t + 1) =~= (start + result.tags@.subrange(0, t as int)).push(
                        result.tags@[t as int],
                    ));
                }
                all_tags.push(result.tags[t]);
                t = t + 1;
            }
            proof {
                assert(result.tags@.subrange(0, t as int) =~= result.tags@);
                vstd::seq_lib::lemma_multiset_commutative(start, result.tags@);
                let sub = s0.subrange(0, i + 1);
                assert(sub.drop_last() =~= s0.subrange(0, i as int));
                assert(sub.last() == s0[i as int]);
                assert forall|x: u8| #[trigger] all_tags@.to_multiset().count(x) == expired_tag_total(
                    sub,
                    x,
                    now_secs,
                    timeout_secs,
                ) by {
                    assert(start.to_multiset().count(x) == expired_tag_total(s0.subrange(0, i as int), x, now_secs, timeout_secs));
                }
            }
            total_peers = total_peers + result.removed_peers;
            total_complete = total_complete + result.removed_complete;
            let ghost before = kept_swarms@;
            if entry.1.is_empty() {
                removed_swarms = removed_swarms + 1;
                removed_downloaded = removed_downloaded + entry.1.downloaded as u64;
                proof {
                    assert forall|e: PeerEndpoint| #[trigger] kept(w0.peer(e), now_secs, timeout_secs) is None by {
                        entry.1.lemma_no_peers(e);
                    }
                }
            } else {
                proof {
                    lemma_swarm_insert(before, before.len() as int, entry);
                    lemma_total_insert(before, before.len() as int, entry, fp);
                    lemma_total_insert(before, before.len() as int, entry, fc);
                    lemma_total_insert(before, before.len() as int, entry, fd);
                    assert(before.insert(before.len() as int, entry) =~= before.push(entry));
                }
                kept_swarms.push(entry);
                proof {
                    let ks = kept_swarms@;
                    assert forall|k: int, j: int| 0 <= k < ks.len() && i + 1 <= j < n implies bytes_lt(
                        (#[trigger] ks[k]).0.0@,
                        (#[trigger] s0[j]).0.0@,
                    ) by {
                        if k < before.len() {
                            assert(ks[k] == before[k]);
                        } else {
                            assert(bytes_lt(hash_keys(s0)[i as int], hash_keys(s0)[j]));
                        }
                    }
                    assert forall|k: int| 0 <= k < ks.len() implies exists|j: int|
                        0 <= j < i + 1 && #[trigger] s0[j].0 == (#[trigger] ks[k]).0 && expired_from(
                            ks[k].1,
                            s0[j].1,
                            now_secs,
                            timeout_secs,
                        ) by {
                        if k < before.len() {
                            assert(ks[k] == before[k]);
                        } else {
                            assert(s0[i as int].0 == ks[k].0);
                        }
                    }
                    assert forall|k: int| 0 <= k < ks.len() implies (#[trigger] ks[k]).1.wf() && ks[k].1.counts_agree()
                        && ks[k].1.peer_count() > 0 && (old(self).has_room() ==> ks[k].1.has_room()) by {
                        if k < before.len() {
                            assert(ks[k] == before[k]);
                        }
                    }
                    lemma_swarm_at(ks, before.len() as int);
                }
            }
            proof {
                let ks = kept_swarms@;
                let sub = s0.subrange(0, i + 1);
                assert(sub.drop_last() =~= s0.subrange(0, i as int));
                assert(sub.last() == s0[i as int]);
                if ks.len() > before.len() {
                    assert(ks.drop_last() =~= before);
                    assert(ks.last() == entry);
                } else {
                    assert(ks == before);
                    assert(entry.1.ipv4_peers@.len() == 0 && entry.1.ipv6_peers@.len() == 0);
                }
                assert forall|x: u8| #[trigger] census_total(ks, x) + expired_tag_total(sub, x, now_secs, timeout_secs)
                    == census_total(sub, x) by {
                    assert(census_total(before, x) + expired_tag_total(s0.subrange(0, i as int), x, now_secs, timeout_secs)
                        == census_total(s0.subrange(0, i as int), x));
                    assert(swarm_tagged(entry.1, x) + expired_tags(w0, now_secs, timeout_secs).to_multiset().count(x)
                        == swarm_tagged(w0, x));
                }
                assert forall|j: int| 0 <= j < i + 1 implies holds(ks, (#[trigger] s0[j]).0) || expires_whole(
                    s0[j].1,
                    now_secs,
                    timeout_secs,
                ) by {
                    if j < i && holds(before, s0[j].0) {
                        let k = choose|k: int| 0 <= k < before.len() && (#[trigger] before[k]).0 == s0[j].0;
                        assert(ks[k] == before[k]);
                    }
                }
                assert forall|j: int| i + 1 <= j < n implies #[trigger] pending@[j] == s0[j] by {
                }
            }
            i = i + 1;
        }
        proof {
            assert(s0.subrange(0, n as int) =~= s0);
        }
        self.swarms = kept_swarms;
        self.counters.apply_expire(
            &ExpireResult { tags: Vec::new(), removed_peers: total_peers, removed_complete: total_complete },
            removed_swarms,
            removed_downloaded,
        );
        let ghost settled = *self;
        proof {
            broadcast use vstd::seq_lib::group_to_multiset_ensures;

            vstd::multiset::lemma_multiset_empty_len(all_tags@.subrange(0, 0).to_multiset());
        }
        let mut t: usize = 0;
        while t < all_tags.len()
            invariant
                t <= all_tags@.len(),
                tags_wf(self.client_counts@),
                *self == (Tracker { client_counts: self.client_counts, ..settled }),
                forall|x: u8| #[trigger] tag_count(self.client_counts@, x) == sat_sub(
                    tag_count(settled.client_counts@, x) as int,
                    all_tags@.subrange(0, t as int).to_multiset().count(x) as int,
                ),
            decreases all_tags@.len() - t,
        {
            let tag = all_tags[t];
            let ghost c = self.client_counts@;
            self.decr_client(tag);
            proof {
                broadcast use vstd::seq_lib::group_to_multiset_ensures;

                assert(all_tags@.subrange(0, t + 1) =~= all_tags@.subrange(0, t as int).push(tag));
                assert forall|x: u8| #[trigger] tag_count(self.client_counts@, x) == sat_sub(
                    tag_count(settled.client_counts@, x) as int,
                    all_tags@.subrange(0, t + 1).to_multiset().count(x) as int,
                ) by {
                    assert(tag_count(c, x) == sat_sub(
                        tag_count(settled.client_counts@, x) as int,
                        all_tags@.subrange(0, t as int).to_multiset().count(x) as int,
                    ));
                }
            }
            t = t + 1;
        }
        proof {
            assert(all_tags@.subrange(0, t as int) =~= all_tags@);
        }
        proof {
            let s = self.swarms@;
            assert forall|h: InfoHash|
                #![trigger self.swarm(h)]
                match old(self).swarm(h) {
                    Some(w) => match self.swarm(h) {
                        Some(w2) => expired_from(w2, w, now_secs, timeout_secs) && w2.peer_count() > 0,
                        None => expires_whole(w, now_secs, timeout_secs),
                    },
                    None => self.swarm(h) is None,
                } by {
                if holds(s, h) {
                    let k = choose|k: int| 0 <= k < s.len() && (#[trigger] s[k]).0 == h;
                    lemma_swarm_at(s, k);
                    let j = choose|j: int|
                        0 <= j < n && #[trigger] s0[j].0 == (#[trigger] s[k]).0 && expired_from(
                            s[k].1,
                            s0[j].1,
                            now_secs,
                            timeout_secs,
                        );
                    lemma_swarm_at(s0, j);
                } else if holds(s0, h) {
                    let j = choose|j: int| 0 <= j < s0.len() && (#[trigger] s0[j]).0 == h;
                    lemma_swarm_at(s0, j);
                }
            }
        }
    }

    /// Runs an expiry sweep when one is due at `now_ms`, and schedules the next.
    pub fn expire_due(&mut self, now_ms: u64)
        requires
            old(self).wf(),
            now_ms >= old(self).next_expire_at_ms ==> old(self).consistent(),
            tags_wf(old(self).client_counts@),
        ensures
            final(self).wf(),
            old(self).consistent() ==> final(self).consistent(),
            now_ms >= old(self).next_expire_at_ms ==> final(self).consistent(),
            old(self).has_room() ==> final(self).has_room(),
            tags_wf(final(self).client_counts@),
            old(self).census_ok() ==> final(self).census_ok(),
            now_ms < old(self).next_expire_at_ms ==> *final(self) == *old(self),
            now_ms >= old(self).next_expire_at_ms ==> {
                &&& final(self).next_expire_at_ms == min(
                    now_ms + old(self).sweep_interval_ms(),
                    u64::MAX as int,
                )
                &&& forall|t: u8| #[trigger] tag_count(final(self).client_counts@, t) == sat_sub(
                    tag_count(old(self).client_counts@, t) as int,
                    expired_tag_total(old(self).swarms@, t, old(self).elapsed(now_ms), old(self).timeout_u32()) as int,
                )
                &&& forall|h: InfoHash|
                    #![trigger final(self).swarm(h)]
                    match old(self).swarm(h) {
                        Some(w) => match final(self).swarm(h) {
                            Some(w2) => expired_from(w2, w, old(self).elapsed(now_ms), old(self).timeout_u32())
                                && w2.peer_count() > 0,
                            None => expires_whole(w, old(self).elapsed(now_ms), old(self).timeout_u32()),
                        },
                        None => final(self).swarm(h) is None,
                    }
            },
    {
        if now_ms < self.next_expire_at_ms {
            return;
        }
        self.expire(now_ms);
        let ghost mid = *self;
        let step = self.expire_sweep_interval_ms();
        self.next_expire_at_ms = now_ms.saturating_add(step);
        proof {
            assert forall|h: InfoHash| #[trigger] self.swarm(h) == mid.swarm(h) by {
            }
        }
    }

    /// The time between sweeps, in milliseconds.
    pub open spec fn sweep_interval_ms(&self) -> int {
        1000 * (if self.peer_timeout_secs < EXPIRE_SWEEP_INTERVAL_SECS {
            if self.peer_timeout_secs >= 1 {
                self.peer_timeout_secs as int
            } else {
                1
            }
        } else {
            EXPIRE_SWEEP_INTERVAL_SECS as int
        })
    }
}

impl Tracker {
    /// Whether the running totals equal a full count over the swarms and each
    /// swarm's seeder count matches its stored peers.
    pub fn is_consistent(&self) -> (r: bool)
        requires
            self.wf(),
        ensures
            r == self.consistent(),
    {
        if !self.verify_counters() {
            return false;
        }
        let mut i: usize = 0;
        while i < self.swarms.len()
            invariant
                i <= self.swarms@.len(),
                self.wf(),
                forall|j: int| 0 <= j < i ==> (#[trigger] self.swarms@[j]).1.counts_agree(),
            decreases self.swarms@.len() - i,
        {
            let w = &self.swarms[i].1;
            proof {
                assert(self.swarms@[i as int].1.wf());
                w.lemma_peer_count_bound();
                crate::packed::lemma_seeders_bound(w.ipv4_peers@);
                crate::packed::lemma_seeders_bound(w.ipv6_peers@);
            }
            let n4 = w.ipv4_peers.seeder_total();
            let n6 = w.ipv6_peers.seeder_total();
            if w.complete as usize != n4 + n6 {
                return false;
            }
            i = i + 1;
        }
        true
    }

    /// Whether the running totals equal a full count over the swarms.
    pub fn verify_counters(&self) -> (r: bool)
        requires
            self.wf(),
        ensures
            r == (self.counters.torrents == self.swarms@.len() && self.counters.peers == total(
                self.swarms@,
                |w: Swarm| peers_in(w),
            ) && self.counters.seeders == total(self.swarms@, |w: Swarm| complete_in(w))
                && self.counters.downloaded == total(self.swarms@, |w: Swarm| downloaded_in(w))),
    {
        let ghost s = self.swarms@;
        let ghost fp = |w: Swarm| peers_in(w);
        let ghost fc = |w: Swarm| complete_in(w);
        let ghost fd = |w: Swarm| downloaded_in(w);
        let n = self.swarms.len();
        let mut peers: u128 = 0;
        let mut seeders: u128 = 0;
        let mut downloaded: u128 = 0;
        let mut i: usize = 0;
        proof {
            assert(s.subrange(0, 0) =~= Seq::<(InfoHash, Swarm)>::empty());
        }
        while i < n
            invariant
                n == s.len(),
                s == self.swarms@,
                i <= n,
                self.wf(),
                fp == (|w: Swarm| peers_in(w)),
                fc == (|w: Swarm| complete_in(w)),
                fd == (|w: Swarm| downloaded_in(w)),
                peers == total(s.subrange(0, i as int), fp),
                seeders == total(s.subrange(0, i as int), fc),
                downloaded == total(s.subrange(0, i as int), fd),
                peers <= i * 0xFFFF_FFFF_FFFF_FFFFu128,
                seeders <= i * 0xFFFF_FFFF_FFFF_FFFFu128,
                downloaded <= i * 0xFFFF_FFFF_FFFF_FFFFu128,
            decreases n - i,
        {
            proof {
                lemma_total_step(s, i as int, fp);
                lemma_total_step(s, i as int, fc);
                lemma_total_step(s, i as int, fd);
                assert(s[i as int].1.wf());
            }
            let w = &self.swarms[i].1;
            let p = w.len();
            proof {
                assert(i * 0xFFFF_FFFF_FFFF_FFFFu128 + 0xFFFF_FFFF_FFFF_FFFFu128 == (i + 1) * 0xFFFF_FFFF_FFFF_FFFFu128)
                    by (nonlinear_arith);
                assert((i + 1) * 0xFFFF_FFFF_FFFF_FFFFu128 <= 0xFFFF_FFFF_FFFF_FFFFu128 * 0xFFFF_FFFF_FFFF_FFFFu128)
                    by (nonlinear_arith)
                    requires
                        i < n,
                        n <= usize::MAX,
                ;
            }
            peers = peers + p as u128;
            seeders = seeders + w.complete as u128;
            downloaded = downloaded + w.downloaded as u128;
            i = i + 1;
        }
        proof {
            assert(s.subrange(0, n as int) =~= s);
        }
        self.counters.torrents == n && self.counters.peers as u128 == peers && self.counters.seeders as u128 == seeders
            && self.counters.downloaded as u128 == downloaded
    }
}

/// A prefix sums to at most the whole.
pub proof fn lemma_total_prefix_le(s: Seq<(InfoHash, Swarm)>, i: int, f: spec_fn(Swarm) -> nat)
    requires
        0 <= i <= s.len(),
    ensures
        total(s.subrange(0, i), f) <= total(s, f),
    decreases s.len() - i,
{
    if i < s.len() {
        lemma_total_prefix_le(s, i + 1, f);
        lemma_total_step(s, i, f);
    } else {
        assert(s.subrange(0, i) =~= s);
    }
}

/// The scrape statistics of a swarm.
pub open spec fn stats_of(w: Swarm) -> TorrentStats {
    TorrentStats {
        complete: w.complete as usize,
        downloaded: w.downloaded,
        incomplete: (if w.peer_count() >= w.complete {
            w.peer_count() - w.complete
        } else {
            0
        }) as usize,
    }
}

} // verus!
