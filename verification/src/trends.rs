//! Dashboard trends: totals sampled every ten minutes and kept for seven
//! days, with gap-filled histories of the totals and of the busiest clients.
use vstd::prelude::*;
use crate::client_id::client_name;
use crate::tracker::TrackerSnapshot;

verus! {

/// How long samples are kept, in seconds.
pub const RETENTION_SECS: u64 = 604800;

/// The sampling period, in seconds.
pub const SAMPLE_SECS: u64 = 600;

/// How many clients the client history follows.
pub const TOP_CLIENT_COUNT: usize = 15;

/// One sample of the totals.
#[derive(Clone, Copy, Debug, PartialEq, Eq, Structural)]
pub struct TrendPoint {
    pub timestamp: u64,
    pub torrents: usize,
    pub peers: usize,
    pub seeders: usize,
    pub leechers: usize,
}

/// The counts of the followed clients at one sample time.
#[derive(Debug, PartialEq, Eq)]
pub struct ClientTrendPoint {
    pub timestamp: u64,
    pub tags: Vec<u8>,
    pub counts: Vec<u32>,
}

/// The followed clients and their history.
#[derive(Debug)]
pub struct ClientTrendData {
    pub top_tags: Vec<u8>,
    pub top_clients: Vec<&'static str>,
    pub history: Vec<ClientTrendPoint>,
}

/// Sampled totals and client distributions, with their gap-filled histories.
#[derive(Debug)]
pub struct TrendStore {
    pub points: Vec<TrendPoint>,
    pub filled_cache: Vec<TrendPoint>,
    pub cache_start: u64,
    pub cache_end: u64,
    pub client_points: Vec<(u64, Vec<(u8, u32)>)>,
    pub client_cache: ClientTrendData,
    pub client_cache_bucket: u64,
    pub client_cache_dirty: bool,
}

/// The start of the sampling period holding `now`.
pub open spec fn bucket_of(now: u64) -> u64 {
    (now - now % SAMPLE_SECS) as u64
}

/// The earliest kept sample time for samples up to `bucket`.
pub open spec fn retention_start(bucket: u64) -> u64 {
    if bucket >= RETENTION_SECS {
        (bucket - RETENTION_SECS) as u64
    } else {
        0
    }
}

/// A sample with zero totals.
pub open spec fn empty_point(timestamp: u64) -> TrendPoint {
    TrendPoint { timestamp, torrents: 0, peers: 0, seeders: 0, leechers: 0 }
}

/// Sample times strictly increase.
pub open spec fn ascending(points: Seq<TrendPoint>) -> bool {
    forall|a: int, b: int| 0 <= a < b < points.len() ==> (#[trigger] points[a]).timestamp < (#[trigger] points[b]).timestamp
}

/// The sample taken at `ts`, or a zero sample.
pub open spec fn sample_at(points: Seq<TrendPoint>, ts: u64) -> TrendPoint {
    if exists|i: int| 0 <= i < points.len() && (#[trigger] points[i]).timestamp == ts {
        points[choose|i: int| 0 <= i < points.len() && (#[trigger] points[i]).timestamp == ts]
    } else {
        empty_point(ts)
    }
}

/// The number of sample times from `start` to `end`.
pub open spec fn slot_count(start: u64, end: u64) -> nat {
    if start <= end {
        ((end - start) / (SAMPLE_SECS as int) + 1) as nat
    } else {
        0
    }
}

/// With ascending times, the sample at a recorded time is that record.
pub proof fn lemma_sample_at(points: Seq<TrendPoint>, i: int)
    requires
        ascending(points),
        0 <= i < points.len(),
    ensures
        sample_at(points, points[i].timestamp) == points[i],
{
    let ts = points[i].timestamp;
    assert(exists|k: int| 0 <= k < points.len() && (#[trigger] points[k]).timestamp == ts) by {
        assert(points[i].timestamp == ts);
    }
    let k = choose|k: int| 0 <= k < points.len() && (#[trigger] points[k]).timestamp == ts;
    if k < i {
        assert(points[k].timestamp < points[i].timestamp);
    } else if k > i {
        assert(points[i].timestamp < points[k].timestamp);
    }
}

/// One entry per sample time from `start` to `end`: the sample taken then,
/// or zeros. Sample times step on with saturation, so `end` must be below
/// the largest time for the walk to end.
pub fn filled_points(points: &Vec<TrendPoint>, start: u64, end: u64) -> (r: Vec<TrendPoint>)
    requires
        end < u64::MAX,
    ensures
        r@.len() == slot_count(start, end),
        forall|k: int|
            0 <= k < r@.len() ==> (#[trigger] r@[k]).timestamp == start + k * SAMPLE_SECS && (r@[k] == empty_point(
                r@[k].timestamp,
            ) || points@.contains(r@[k])),
        ascending(points@) ==> forall|k: int|
            0 <= k < r@.len() ==> #[trigger] r@[k] == sample_at(points@, (start + k * SAMPLE_SECS) as u64),
{
    let mut out: Vec<TrendPoint> = Vec::new();
    if start > end {
        return out;
    }
    let mut timestamp = start;
    let mut idx: usize = 0;
    let ghost mut t: int = start as int;
    while timestamp <= end
        invariant
            start <= end < u64::MAX,
            t == start + out@.len() * SAMPLE_SECS,
            t <= end + SAMPLE_SECS,
            timestamp == (if t <= u64::MAX { t } else { u64::MAX as int }),
            idx <= points@.len(),
            ascending(points@) ==> forall|j: int| 0 <= j < idx ==> (#[trigger] points@[j]).timestamp < timestamp,
            forall|k: int|
                0 <= k < out@.len() ==> (#[trigger] out@[k]).timestamp == start + k * SAMPLE_SECS && (out@[k]
                    == empty_point(out@[k].timestamp) || points@.contains(out@[k])),
            ascending(points@) ==> forall|k: int|
                0 <= k < out@.len() ==> #[trigger] out@[k] == sample_at(points@, (start + k * SAMPLE_SECS) as u64),
        decreases end + SAMPLE_SECS - t,
    {
        while idx < points.len() && points[idx].timestamp < timestamp
            invariant
                idx <= points@.len(),
                ascending(points@) ==> forall|j: int| 0 <= j < idx ==> (#[trigger] points@[j]).timestamp < timestamp,
            decreases points@.len() - idx,
        {
            idx = idx + 1;
        }
        let point = if idx < points.len() && points[idx].timestamp == timestamp {
            proof {
                if ascending(points@) {
                    lemma_sample_at(points@, idx as int);
                }
                assert(points@.contains(points@[idx as int]));
            }
            points[idx]
        } else {
            proof {
                if ascending(points@) {
                    assert forall|i: int| 0 <= i < points@.len() implies (#[trigger] points@[i]).timestamp != timestamp by {
                        if i > idx {
                            assert(points@[idx as int].timestamp < points@[i].timestamp);
                        }
                    }
                }
            }
            TrendPoint { timestamp, torrents: 0, peers: 0, seeders: 0, leechers: 0 }
        };
        let ghost before = out@;
        out.push(point);
        proof {
            assert forall|k: int|
                0 <= k < out@.len() implies (#[trigger] out@[k]).timestamp == start + k * SAMPLE_SECS && (out@[k]
                    == empty_point(out@[k].timestamp) || points@.contains(out@[k])) by {
                if k < before.len() {
                    assert(out@[k] == before[k]);
                }
            }
            if ascending(points@) {
                assert forall|k: int| 0 <= k < out@.len() implies #[trigger] out@[k] == sample_at(
                    points@,
                    (start + k * SAMPLE_SECS) as u64,
                ) by {
                    if k < before.len() {
                        assert(out@[k] == before[k]);
                    }
                }
            }
            t = t + SAMPLE_SECS;
        }
        timestamp = timestamp.saturating_add(SAMPLE_SECS);
    }
    proof {
        lemma_slot_count(start, end, out@.len() as int);
    }
    out
}

/// `n` steps of `SAMPLE_SECS` from `start` end past `end`, and one fewer
/// does not: `n` is the number of sample times from `start` to `end`.
proof fn lemma_slot_count(start: u64, end: u64, n: int)
    requires
        start <= end,
        end < start + n * SAMPLE_SECS,
        start + (n - 1) * SAMPLE_SECS <= end,
    ensures
        n == slot_count(start, end),
{
    assert(n == (end - start) / (SAMPLE_SECS as int) + 1) by (nonlinear_arith)
        requires
            start <= end,
            end < start + n * 600,
            start + (n - 1) * 600 <= end,
            SAMPLE_SECS == 600,
    ;
}

/// The samples at or after `min`, in order.
pub open spec fn recent(s: Seq<TrendPoint>, min: u64) -> Seq<TrendPoint>
    decreases s.len(),
{
    if s.len() == 0 {
        Seq::empty()
    } else if s.last().timestamp >= min {
        recent(s.drop_last(), min).push(s.last())
    } else {
        recent(s.drop_last(), min)
    }
}

/// The client distributions at or after `min`, in order.
pub open spec fn recent_clients(s: Seq<(u64, Vec<(u8, u32)>)>, min: u64) -> Seq<(u64, Vec<(u8, u32)>)>
    decreases s.len(),
{
    if s.len() == 0 {
        Seq::empty()
    } else if s.last().0 >= min {
        recent_clients(s.drop_last(), min).push(s.last())
    } else {
        recent_clients(s.drop_last(), min)
    }
}

/// Keeping the later samples of ascending ones keeps them ascending.
proof fn lemma_recent_ascending(s: Seq<TrendPoint>, min: u64)
    requires
        ascending(s),
    ensures
        ascending(recent(s, min)),
        forall|k: int| 0 <= k < recent(s, min).len() ==> s.contains(#[trigger] recent(s, min)[k]),
    decreases s.len(),
{
    if s.len() > 0 {
        let d = s.drop_last();
        assert(ascending(d)) by {
            assert forall|a: int, b: int| 0 <= a < b < d.len() implies (#[trigger] d[a]).timestamp < (#[trigger] d[b]).timestamp by {
                assert(d[a] == s[a] && d[b] == s[b]);
            }
        }
        lemma_recent_ascending(d, min);
        let r = recent(d, min);
        assert forall|k: int| 0 <= k < r.len() implies s.contains(#[trigger] r[k]) by {
            let j = choose|j: int| 0 <= j < d.len() && d[j] == r[k];
            assert(s[j] == d[j]);
        }
        if s.last().timestamp >= min {
            let nr = r.push(s.last());
            assert(s[s.len() - 1] == s.last());
            assert forall|a: int, b: int| 0 <= a < b < nr.len() implies (#[trigger] nr[a]).timestamp < (#[trigger] nr[b]).timestamp by {
                if b == nr.len() - 1 {
                    let j = choose|j: int| 0 <= j < s.len() && s[j] == r[a];
                    if j == s.len() - 1 {
                        let j2 = choose|j2: int| 0 <= j2 < d.len() && d[j2] == r[a];
                        assert(s[j2] == d[j2]);
                    }
                } else {
                    assert(nr[a] == r[a] && nr[b] == r[b]);
                }
            }
            assert forall|k: int| 0 <= k < nr.len() implies s.contains(#[trigger] nr[k]) by {
                if k < r.len() {
                    assert(nr[k] == r[k]);
                }
            }
        }
    }
}

/// Keeping the later distributions of ascending ones keeps them ascending.
proof fn lemma_recent_clients_ascending(s: Seq<(u64, Vec<(u8, u32)>)>, min: u64)
    requires
        clients_ascending(s),
    ensures
        clients_ascending(recent_clients(s, min)),
        forall|k: int| 0 <= k < recent_clients(s, min).len() ==> s.contains(#[trigger] recent_clients(s, min)[k]),
    decreases s.len(),
{
    if s.len() > 0 {
        let d = s.drop_last();
        assert(clients_ascending(d)) by {
            assert forall|a: int, b: int| 0 <= a < b < d.len() implies (#[trigger] d[a]).0 < (#[trigger] d[b]).0 by {
                assert(d[a] == s[a] && d[b] == s[b]);
            }
        }
        lemma_recent_clients_ascending(d, min);
        let r = recent_clients(d, min);
        assert forall|k: int| 0 <= k < r.len() implies s.contains(#[trigger] r[k]) by {
            let j = choose|j: int| 0 <= j < d.len() && d[j] == r[k];
            assert(s[j] == d[j]);
        }
        if s.last().0 >= min {
            let nr = r.push(s.last());
            assert(s[s.len() - 1] == s.last());
            assert forall|a: int, b: int| 0 <= a < b < nr.len() implies (#[trigger] nr[a]).0 < (#[trigger] nr[b]).0 by {
                if b == nr.len() - 1 {
                    let j = choose|j: int| 0 <= j < s.len() && s[j] == r[a];
                    if j == s.len() - 1 {
                        let j2 = choose|j2: int| 0 <= j2 < d.len() && d[j2] == r[a];
                        assert(s[j2] == d[j2]);
                    }
                } else {
                    assert(nr[a] == r[a] && nr[b] == r[b]);
                }
            }
            assert forall|k: int| 0 <= k < nr.len() implies s.contains(#[trigger] nr[k]) by {
                if k < r.len() {
                    assert(nr[k] == r[k]);
                }
            }
        }
    }
}

/// A period start is never the largest time.
proof fn lemma_bucket_below_max(now: u64)
    ensures
        bucket_of(now) < u64::MAX,
        bucket_of(now) <= now,
        bucket_of(now) % SAMPLE_SECS == 0,
{
    assert(now % 600 <= now);
    assert((now - now % 600) % 600 == 0) by (nonlinear_arith)
        requires
            now >= 0,
    ;
    assert(u64::MAX % 600 == 15);
}

/// The value of the sample taken for `snapshot` at `bucket`.
pub open spec fn point_of(bucket: u64, snapshot: TrackerSnapshot) -> TrendPoint {
    TrendPoint {
        timestamp: bucket,
        torrents: snapshot.totals.torrents,
        peers: snapshot.totals.peers,
        seeders: snapshot.totals.seeders,
        leechers: snapshot.totals.leechers,
    }
}

/// A copy of a sample list.
fn copy_points(points: &Vec<TrendPoint>) -> (r: Vec<TrendPoint>)
    ensures
        r@ == points@,
{
    let mut r: Vec<TrendPoint> = Vec::new();
    let mut i: usize = 0;
    while i < points.len()
        invariant
            i <= points@.len(),
            r@ == points@.subrange(0, i as int),
        decreases points@.len() - i,
    {
        r.push(points[i]);
        assert(r@ =~= points@.subrange(0, i + 1));
        i = i + 1;
    }
    assert(r@ =~= points@);
    r
}

/// The count of `tag` in a distribution: its first entry, or 0.
pub open spec fn tag_count_in(dist: Seq<(u8, u32)>, tag: u8) -> u32
    decreases dist.len(),
{
    if dist.len() == 0 {
        0
    } else if dist[0].0 == tag {
        dist[0].1
    } else {
        tag_count_in(dist.drop_first(), tag)
    }
}

/// The count of `tag` in a distribution.
pub fn count_in(dist: &Vec<(u8, u32)>, tag: u8) -> (r: u32)
    ensures
        r == tag_count_in(dist@, tag),
{
    let mut i: usize = 0;
    assert(dist@.subrange(0, dist@.len() as int) =~= dist@);
    while i < dist.len()
        invariant
            i <= dist@.len(),
            tag_count_in(dist@, tag) == tag_count_in(dist@.subrange(i as int, dist@.len() as int), tag),
        decreases dist@.len() - i,
    {
        let ghost rest = dist@.subrange(i as int, dist@.len() as int);
        if dist[i].0 == tag {
            return dist[i].1;
        }
        assert(rest.drop_first() =~= dist@.subrange(i + 1, dist@.len() as int));
        i = i + 1;
    }
    assert(dist@.subrange(i as int, dist@.len() as int) =~= Seq::<(u8, u32)>::empty());
    0
}

/// `top` lists distinct positions of `dist`, busiest first, and every
/// position left out is no busier than the least busy one taken.
pub open spec fn is_top(top: Seq<usize>, dist: Seq<(u8, u32)>, n: nat) -> bool {
    &&& top.len() == if dist.len() < n {
        dist.len()
    } else {
        n
    }
    &&& forall|a: int| 0 <= a < top.len() ==> (#[trigger] top[a]) < dist.len()
    &&& forall|a: int, b: int| 0 <= a < b < top.len() ==> #[trigger] top[a] != #[trigger] top[b]
    &&& forall|a: int, b: int| 0 <= a < b < top.len() ==> dist[#[trigger] top[a] as int].1 >= dist[#[trigger] top[b] as int].1
    &&& forall|a: int, i: int|
        #![trigger dist[i], top[a]]
        0 <= a < top.len() && 0 <= i < dist.len() && !top.contains(i as usize) ==> dist[i].1 <= dist[top[a] as int].1
}

/// The positions of the `n` busiest clients of a distribution, busiest first.
pub fn top_positions(dist: &Vec<(u8, u32)>, n: usize) -> (r: Vec<usize>)
    ensures
        is_top(r@, dist@, n as nat),
{
    let mut taken: Vec<bool> = Vec::new();
    let mut i: usize = 0;
    while i < dist.len()
        invariant
            i <= dist@.len(),
            taken@.len() == i,
            forall|k: int| 0 <= k < i ==> !(#[trigger] taken@[k]),
        decreases dist@.len() - i,
    {
        taken.push(false);
        i = i + 1;
    }
    let mut top: Vec<usize> = Vec::new();
    while top.len() < n && top.len() < dist.len()
        invariant
            taken@.len() == dist@.len(),
            top@.len() <= n,
            top@.len() <= dist@.len(),
            forall|k: int| 0 <= k < dist@.len() ==> (#[trigger] taken@[k] <==> top@.contains(k as usize)),
            forall|a: int| 0 <= a < top@.len() ==> (#[trigger] top@[a]) < dist@.len(),
            forall|a: int, b: int| 0 <= a < b < top@.len() ==> #[trigger] top@[a] != #[trigger] top@[b],
            forall|a: int, b: int|
                0 <= a < b < top@.len() ==> dist@[#[trigger] top@[a] as int].1 >= dist@[#[trigger] top@[b] as int].1,
            forall|a: int, k: int|
                #![trigger dist@[k], top@[a]]
                0 <= a < top@.len() && 0 <= k < dist@.len() && !top@.contains(k as usize) ==> dist@[k].1
                    <= dist@[top@[a] as int].1,
        decreases dist@.len() - top@.len(),
    {
        // The distinct taken positions fill `top`, so one is still free.
        proof {
            lemma_free_position(top@, dist@.len() as int);
        }
        let mut best: usize = 0;
        let mut found = false;
        let mut k: usize = 0;
        while k < dist.len()
            invariant
                k <= dist@.len(),
                taken@.len() == dist@.len(),
                found ==> best < dist@.len() && !taken@[best as int],
                found ==> forall|j: int| 0 <= j < k && !taken@[j] ==> dist@[j].1 <= dist@[best as int].1,
                !found ==> forall|j: int| 0 <= j < k ==> (#[trigger] taken@[j]),
            decreases dist@.len() - k,
        {
            if !taken[k] && (!found || dist[k].1 > dist[best].1) {
                best = k;
                found = true;
            }
            k = k + 1;
        }
        proof {
            if !found {
                let f = choose|f: int| 0 <= f < dist@.len() && !#[trigger] has_pos(top@, f);
                assert(taken@[f]);
            }
        }
        let ghost old_top = top@;
        taken.set(best, true);
        top.push(best);
        proof {
            assert forall|j: int| 0 <= j < dist@.len() implies (#[trigger] taken@[j] <==> top@.contains(j as usize)) by {
                if j != best {
                    if top@.contains(j as usize) {
                        let x = choose|x: int| 0 <= x < top@.len() && top@[x] == j as usize;
                        assert(x < old_top.len());
                        assert(old_top[x] == j as usize);
                    }
                    if old_top.contains(j as usize) {
                        let x = choose|x: int| 0 <= x < old_top.len() && old_top[x] == j as usize;
                        assert(top@[x] == j as usize);
                    }
                } else {
                    assert(top@[top@.len() - 1] == best);
                }
            }
            assert forall|a: int, b: int| 0 <= a < b < top@.len() implies #[trigger] top@[a] != #[trigger] top@[b] by {
                if b == top@.len() - 1 {
                    assert(old_top.contains(top@[a]));
                }
            }
            assert forall|a: int, b: int|
                0 <= a < b < top@.len() implies dist@[#[trigger] top@[a] as int].1 >= dist@[#[trigger] top@[b] as int].1 by {
                if b == top@.len() - 1 {
                    assert(!old_top.contains(best));
                }
            }
            assert forall|a: int, k2: int|
                #![trigger dist@[k2], top@[a]]
                0 <= a < top@.len() && 0 <= k2 < dist@.len() && !top@.contains(k2 as usize) implies dist@[k2].1
                    <= dist@[top@[a] as int].1 by {
                assert(!old_top.contains(k2 as usize)) by {
                    if old_top.contains(k2 as usize) {
                        let x = choose|x: int| 0 <= x < old_top.len() && old_top[x] == k2 as usize;
                        assert(top@[x] == k2 as usize);
                    }
                }
                if a == top@.len() - 1 {
                    assert(!taken@[k2]);
                }
            }
        }
    }
    top
}

/// Position `f` is among `top`.
pub open spec fn has_pos(top: Seq<usize>, f: int) -> bool {
    top.contains(f as usize)
}

/// Distinct positions that include all of `0..n` number at least `n`.
proof fn lemma_cover(top: Seq<usize>, n: int)
    requires
        0 <= n <= usize::MAX,
        forall|a: int, b: int| 0 <= a < b < top.len() ==> #[trigger] top[a] != #[trigger] top[b],
        forall|f: int| 0 <= f < n ==> #[trigger] has_pos(top, f),
    ensures
        top.len() >= n,
    decreases n,
{
    if n > 0 {
        assert(has_pos(top, n - 1));
        let x = choose|x: int| 0 <= x < top.len() && top[x] == (n - 1) as usize;
        let t2 = top.remove(x);
        assert forall|a: int, b: int| 0 <= a < b < t2.len() implies #[trigger] t2[a] != #[trigger] t2[b] by {
            let oa = if a < x { a } else { a + 1 };
            let ob = if b < x { b } else { b + 1 };
            assert(t2[a] == top[oa] && t2[b] == top[ob]);
        }
        assert forall|f: int| 0 <= f < n - 1 implies #[trigger] has_pos(t2, f) by {
            assert(has_pos(top, f));
            let y = choose|y: int| 0 <= y < top.len() && top[y] == f as usize;
            assert(y != x);
            let ny = if y < x { y } else { y - 1 };
            assert(t2[ny] == f as usize);
        }
        lemma_cover(t2, n - 1);
    }
}

/// With fewer distinct positions than `n`, some position below `n` is free.
proof fn lemma_free_position(top: Seq<usize>, n: int)
    requires
        top.len() < n <= usize::MAX,
        forall|a: int, b: int| 0 <= a < b < top.len() ==> #[trigger] top[a] != #[trigger] top[b],
    ensures
        exists|f: int| 0 <= f < n && !#[trigger] has_pos(top, f),
{
    if forall|f: int| 0 <= f < n ==> #[trigger] has_pos(top, f) {
        lemma_cover(top, n);
    }
}

/// The timestamp of the `k`-th sample time from `start`.
pub open spec fn slot_time(start: u64, k: int) -> int {
    start + k * SAMPLE_SECS
}

/// Client distributions with strictly increasing sample times.
pub open spec fn clients_ascending(recorded: Seq<(u64, Vec<(u8, u32)>)>) -> bool {
    forall|a: int, b: int| 0 <= a < b < recorded.len() ==> (#[trigger] recorded[a]).0 < (#[trigger] recorded[b]).0
}

/// The distribution recorded at `ts`, or an empty one.
pub open spec fn client_sample(recorded: Seq<(u64, Vec<(u8, u32)>)>, ts: u64) -> Seq<(u8, u32)> {
    if exists|i: int| 0 <= i < recorded.len() && (#[trigger] recorded[i]).0 == ts {
        recorded[choose|i: int| 0 <= i < recorded.len() && (#[trigger] recorded[i]).0 == ts].1@
    } else {
        Seq::empty()
    }
}

/// With ascending times, the distribution at a recorded time is that record.
pub proof fn lemma_client_sample(recorded: Seq<(u64, Vec<(u8, u32)>)>, i: int)
    requires
        clients_ascending(recorded),
        0 <= i < recorded.len(),
    ensures
        client_sample(recorded, recorded[i].0) == recorded[i].1@,
{
    let ts = recorded[i].0;
    assert(exists|k: int| 0 <= k < recorded.len() && (#[trigger] recorded[k]).0 == ts) by {
        assert(recorded[i].0 == ts);
    }
    let k = choose|k: int| 0 <= k < recorded.len() && (#[trigger] recorded[k]).0 == ts;
    if k < i {
        assert(recorded[k].0 < recorded[i].0);
    } else if k > i {
        assert(recorded[i].0 < recorded[k].0);
    }
}

/// The counts of `tags` in the distribution recorded at `ts`: zeros where
/// nothing was recorded then.
pub open spec fn counts_at(recorded: Seq<(u64, Vec<(u8, u32)>)>, ts: u64, tags: Seq<u8>) -> Seq<u32> {
    tags.map_values(|tag: u8| tag_count_in(client_sample(recorded, ts), tag))
}

/// `h` is a client history from `start` to `end` over `tags`: one point per
/// sample time, with the counts of a distribution recorded then, or zeros.
/// Where the recorded times ascend, each point holds the counts of the
/// distribution recorded at its time, and zeros exactly where there is none.
pub open spec fn client_history(
    h: Seq<ClientTrendPoint>,
    start: u64,
    end: u64,
    tags: Seq<u8>,
    recorded: Seq<(u64, Vec<(u8, u32)>)>,
) -> bool {
    &&& h.len() == slot_count(start, end)
    &&& forall|k: int|
        0 <= k < h.len() ==> {
            &&& (#[trigger] h[k]).timestamp == slot_time(start, k)
            &&& h[k].tags@ == tags
            &&& h[k].counts@.len() == tags.len()
            &&& (forall|j: int| 0 <= j < tags.len() ==> h[k].counts@[j] == 0) || exists|x: int|
                0 <= x < recorded.len() && recorded[x].0 == h[k].timestamp && forall|j: int|
                    0 <= j < tags.len() ==> h[k].counts@[j] == tag_count_in(recorded[x].1@, #[trigger] tags[j])
            &&& clients_ascending(recorded) ==> h[k].counts@ == counts_at(recorded, h[k].timestamp, tags)
        }
}

/// The followed clients of a distribution: the tags at `positions`.
pub open spec fn tags_at(dist: Seq<(u8, u32)>, positions: Seq<usize>) -> Seq<u8> {
    positions.map_values(|i: usize| dist[i as int].0)
}

impl TrendStore {
    /// An empty store.
    pub fn new() -> (r: Self)
        ensures
            r.points@.len() == 0,
            r.filled_cache@.len() == 0,
            r.client_points@.len() == 0,
            r.client_cache.top_tags@.len() == 0,
            r.client_cache.history@.len() == 0,
            r.client_cache.top_clients@.len() == 0,
            r.cache_start == 0,
            r.cache_end == 0,
            r.client_cache_bucket == 0,
            !r.client_cache_dirty,
    {
        TrendStore {
            points: Vec::new(),
            filled_cache: Vec::new(),
            cache_start: 0,
            cache_end: 0,
            client_points: Vec::new(),
            client_cache: ClientTrendData { top_tags: Vec::new(), top_clients: Vec::new(), history: Vec::new() },
            client_cache_bucket: 0,
            client_cache_dirty: false,
        }
    }

    /// Samples the totals of `snapshot` at `now` (Unix seconds). A period
    /// that has a sample keeps it; otherwise the sample is added, samples
    /// older than seven days are dropped, and the gap-filled history is
    /// rebuilt. Returns the history.
    pub fn record(&mut self, now: u64, snapshot: &TrackerSnapshot) -> (r: Vec<TrendPoint>)
        ensures
            ({
                let bucket = bucket_of(now);
                let min = retention_start(bucket);
                if old(self).points@.len() > 0 && old(self).points@.last().timestamp == bucket {
                    &&& *final(self) == *old(self)
                    &&& r@ == old(self).filled_cache@
                } else {
                    &&& final(self).points@ == recent(old(self).points@.push(point_of(bucket, *snapshot)), min)
                    &&& final(self).cache_start == min
                    &&& final(self).cache_end == bucket
                    &&& r@ == final(self).filled_cache@
                    &&& final(self).filled_cache@.len() == slot_count(min, bucket)
                    &&& forall|k: int|
                        0 <= k < r@.len() ==> (#[trigger] r@[k]).timestamp == slot_time(min, k) && (r@[k] == empty_point(
                            r@[k].timestamp,
                        ) || final(self).points@.contains(r@[k]))
                    &&& ascending(old(self).points@) && (old(self).points@.len() > 0
                        ==> old(self).points@.last().timestamp < bucket) ==> {
                        &&& ascending(final(self).points@)
                        &&& forall|k: int|
                            0 <= k < r@.len() ==> #[trigger] r@[k] == sample_at(
                                final(self).points@,
                                slot_time(min, k) as u64,
                            )
                    }
                    &&& final(self).client_points == old(self).client_points
                }
            }),
    {
        let bucket = now - now % SAMPLE_SECS;
        proof {
            lemma_bucket_below_max(now);
        }
        let n = self.points.len();
        if n > 0 && self.points[n - 1].timestamp == bucket {
            return copy_points(&self.filled_cache);
        }
        let point = TrendPoint {
            timestamp: bucket,
            torrents: snapshot.totals.torrents,
            peers: snapshot.totals.peers,
            seeders: snapshot.totals.seeders,
            leechers: snapshot.totals.leechers,
        };
        let ghost old_points = self.points@;
        self.points.push(point);
        let min_timestamp = if bucket >= RETENTION_SECS {
            bucket - RETENTION_SECS
        } else {
            0
        };
        let ghost all = self.points@;
        let mut kept: Vec<TrendPoint> = Vec::new();
        let mut i: usize = 0;
        proof {
            assert(all.subrange(0, 0) =~= Seq::<TrendPoint>::empty());
        }
        while i < self.points.len()
            invariant
                all == self.points@,
                i <= all.len(),
                kept@ == recent(all.subrange(0, i as int), min_timestamp),
            decreases all.len() - i,
        {
            let p = self.points[i];
            proof {
                assert(all.subrange(0, i + 1).drop_last() =~= all.subrange(0, i as int));
                assert(all.subrange(0, i + 1).last() == p);
            }
            if p.timestamp >= min_timestamp {
                kept.push(p);
            }
            i = i + 1;
        }
        proof {
            assert(all.subrange(0, all.len() as int) =~= all);
            if ascending(old_points) && (old_points.len() > 0 ==> old_points.last().timestamp < bucket) {
                assert(ascending(all)) by {
                    assert forall|a: int, b: int| 0 <= a < b < all.len() implies (#[trigger] all[a]).timestamp < (
                    #[trigger] all[b]).timestamp by {
                        if b == all.len() - 1 && a < old_points.len() - 1 {
                            assert(old_points[a].timestamp < old_points[old_points.len() - 1].timestamp);
                        }
                    }
                }
                lemma_recent_ascending(all, min_timestamp);
            }
        }
        self.points = kept;
        self.filled_cache = filled_points(&self.points, min_timestamp, bucket);
        self.cache_start = min_timestamp;
        self.cache_end = bucket;
        copy_points(&self.filled_cache)
    }
}

/// The samples of `points` still within the retention period at `now`
/// (taken at or after `now` less seven days, saturating), in order.
pub fn recent_points(points: Vec<TrendPoint>, now: u64) -> (r: Vec<TrendPoint>)
    ensures
        r@ == recent(points@, retention_start(now)),
{
    let min_timestamp = if now >= RETENTION_SECS {
        now - RETENTION_SECS
    } else {
        0
    };
    let mut kept: Vec<TrendPoint> = Vec::new();
    let mut i: usize = 0;
    proof {
        assert(points@.subrange(0, 0) =~= Seq::<TrendPoint>::empty());
    }
    while i < points.len()
        invariant
            i <= points@.len(),
            kept@ == recent(points@.subrange(0, i as int), min_timestamp),
        decreases points@.len() - i,
    {
        let p = points[i];
        proof {
            assert(points@.subrange(0, i + 1).drop_last() =~= points@.subrange(0, i as int));
            assert(points@.subrange(0, i + 1).last() == p);
        }
        if p.timestamp >= min_timestamp {
            kept.push(p);
        }
        i = i + 1;
    }
    assert(points@.subrange(0, points@.len() as int) =~= points@);
    kept
}

/// The client distributions of `points` still within the retention period
/// at `now` (recorded at or after `now` less seven days, saturating), in
/// order.
pub fn recent_client_points(points: Vec<(u64, Vec<(u8, u32)>)>, now: u64) -> (r: Vec<(u64, Vec<(u8, u32)>)>)
    ensures
        r@ == recent_clients(points@, retention_start(now)),
{
    let min_timestamp = if now >= RETENTION_SECS {
        now - RETENTION_SECS
    } else {
        0
    };
    let mut pending = points;
    let ghost all = pending@;
    let mut kept: Vec<(u64, Vec<(u8, u32)>)> = Vec::new();
    let mut k: usize = 0;
    proof {
        assert(all.subrange(0, 0) =~= Seq::<(u64, Vec<(u8, u32)>)>::empty());
    }
    while k < pending.len()
        invariant
            pending@.len() == all.len(),
            k <= all.len(),
            forall|j: int| k <= j < all.len() ==> #[trigger] pending@[j] == all[j],
            kept@ == recent_clients(all.subrange(0, k as int), min_timestamp),
        decreases all.len() - k,
    {
        let mut entry: (u64, Vec<(u8, u32)>) = (0, Vec::new());
        std::mem::swap(&mut pending[k], &mut entry);
        proof {
            assert(entry == all[k as int]);
            assert(all.subrange(0, k + 1).drop_last() =~= all.subrange(0, k as int));
            assert(all.subrange(0, k + 1).last() == all[k as int]);
        }
        if entry.0 >= min_timestamp {
            kept.push(entry);
        }
        k = k + 1;
    }
    proof {
        assert(all.subrange(0, all.len() as int) =~= all);
    }
    kept
}

/// The latest recorded distribution, or none.
pub open spec fn latest_dist(s: Seq<(u64, Vec<(u8, u32)>)>) -> Seq<(u8, u32)> {
    if s.len() > 0 {
        s.last().1@
    } else {
        Seq::empty()
    }
}

/// A distribution with counts narrowed to 32 bits.
pub open spec fn narrowed(clients: Seq<(u8, u64)>) -> Seq<(u8, u32)> {
    clients.map_values(|c: (u8, u64)| (c.0, c.1 as u32))
}

impl TrendStore {
    /// Rebuilds the client history up to `bucket` around the busiest clients
    /// of the latest distribution; `bucket` is below the largest time, as a
    /// walk of saturating steps up to it would not end.
    pub fn rebuild_client_cache(&mut self, bucket: u64)
        requires
            bucket < u64::MAX,
        ensures
            !final(self).client_cache_dirty,
            final(self).client_cache_bucket == bucket,
            final(self).points == old(self).points,
            final(self).client_points == old(self).client_points,
            final(self).filled_cache == old(self).filled_cache,
            final(self).cache_start == old(self).cache_start,
            final(self).cache_end == old(self).cache_end,
            exists|ps: Seq<usize>|
                #[trigger] is_top(ps, latest_dist(old(self).client_points@), TOP_CLIENT_COUNT as nat)
                    && final(self).client_cache.top_tags@ == tags_at(latest_dist(old(self).client_points@), ps),
            final(self).client_cache.top_clients@.len() == final(self).client_cache.top_tags@.len(),
            forall|k: int|
                0 <= k < final(self).client_cache.top_tags@.len()
                    ==> (#[trigger] final(self).client_cache.top_clients@[k])@
                    == crate::client_id::client_name_text(final(self).client_cache.top_tags@[k]),
            client_history(
                final(self).client_cache.history@,
                retention_start(bucket),
                bucket,
                final(self).client_cache.top_tags@,
                old(self).client_points@,
            ),
    {
        self.client_cache_dirty = false;
        self.client_cache_bucket = bucket;
        let n = self.client_points.len();
        let empty: Vec<(u8, u32)> = Vec::new();
        let latest: &Vec<(u8, u32)> = if n > 0 {
            &self.client_points[n - 1].1
        } else {
            &empty
        };
        let positions = top_positions(latest, TOP_CLIENT_COUNT);
        let ghost lt = latest_dist(old(self).client_points@);
        proof {
            if n > 0 {
                assert(old(self).client_points@[n - 1] == old(self).client_points@.last());
            }
            assert(latest@ == lt);
        }
        let mut top: Vec<u8> = Vec::new();
        let mut i: usize = 0;
        while i < positions.len()
            invariant
                i <= positions@.len(),
                forall|a: int| 0 <= a < positions@.len() ==> (#[trigger] positions@[a]) < latest@.len(),
                top@ == tags_at(latest@, positions@.subrange(0, i as int)),
            decreases positions@.len() - i,
        {
            top.push(latest[positions[i]].0);
            assert(top@ =~= tags_at(latest@, positions@.subrange(0, i + 1)));
            i = i + 1;
        }
        assert(positions@.subrange(0, positions@.len() as int) =~= positions@);
        let mut names: Vec<&'static str> = Vec::new();
        let mut j: usize = 0;
        while j < top.len()
            invariant
                j <= top@.len(),
                names@.len() == j,
                forall|k: int| 0 <= k < j ==> (#[trigger] names@[k])@ == crate::client_id::client_name_text(top@[k]),
            decreases top@.len() - j,
        {
            names.push(client_name(top[j]));
            j = j + 1;
        }
        let min_timestamp = if bucket >= RETENTION_SECS {
            bucket - RETENTION_SECS
        } else {
            0
        };
        let history = client_history_of(&self.client_points, &top, min_timestamp, bucket);
        proof {
            assert(is_top(positions@, lt, TOP_CLIENT_COUNT as nat));
            assert(top@ == tags_at(lt, positions@));
        }
        self.client_cache = ClientTrendData { top_tags: top, top_clients: names, history };
    }
}

/// The counts of `tags` in `dist`.
fn counts_of(dist: &Vec<(u8, u32)>, tags: &Vec<u8>) -> (r: Vec<u32>)
    ensures
        r@.len() == tags@.len(),
        forall|j: int| 0 <= j < tags@.len() ==> r@[j] == tag_count_in(dist@, #[trigger] tags@[j]),
{
    let mut r: Vec<u32> = Vec::new();
    let mut j: usize = 0;
    while j < tags.len()
        invariant
            j <= tags@.len(),
            r@.len() == j,
            forall|k: int| 0 <= k < j ==> r@[k] == tag_count_in(dist@, #[trigger] tags@[k]),
        decreases tags@.len() - j,
    {
        r.push(count_in(dist, tags[j]));
        j = j + 1;
    }
    r
}

/// Zero counts for `tags`.
fn zero_counts(tags: &Vec<u8>) -> (r: Vec<u32>)
    ensures
        r@.len() == tags@.len(),
        forall|j: int| 0 <= j < tags@.len() ==> r@[j] == 0,
{
    let mut r: Vec<u32> = Vec::new();
    let mut j: usize = 0;
    while j < tags.len()
        invariant
            j <= tags@.len(),
            r@.len() == j,
            forall|k: int| 0 <= k < j ==> r@[k] == 0,
        decreases tags@.len() - j,
    {
        r.push(0);
        j = j + 1;
    }
    r
}

/// A copy of a tag list.
fn copy_tags(tags: &Vec<u8>) -> (r: Vec<u8>)
    ensures
        r@ == tags@,
{
    let mut r: Vec<u8> = Vec::new();
    let mut j: usize = 0;
    while j < tags.len()
        invariant
            j <= tags@.len(),
            r@ == tags@.subrange(0, j as int),
        decreases tags@.len() - j,
    {
        r.push(tags[j]);
        assert(r@ =~= tags@.subrange(0, j + 1));
        j = j + 1;
    }
    assert(r@ =~= tags@);
    r
}

/// The client history from `start` to `end` over `tags`.
fn client_history_of(recorded: &Vec<(u64, Vec<(u8, u32)>)>, tags: &Vec<u8>, start: u64, end: u64) -> (r: Vec<
    ClientTrendPoint,
>)
    requires
        end < u64::MAX,
    ensures
        client_history(r@, start, end, tags@, recorded@),
{
    let mut out: Vec<ClientTrendPoint> = Vec::new();
    if start > end {
        return out;
    }
    let mut timestamp = start;
    let mut idx: usize = 0;
    let ghost mut t: int = start as int;
    while timestamp <= end
        invariant
            start <= end < u64::MAX,
            t == start + out@.len() * SAMPLE_SECS,
            t <= end + SAMPLE_SECS,
            timestamp == (if t <= u64::MAX { t } else { u64::MAX as int }),
            idx <= recorded@.len(),
            clients_ascending(recorded@) ==> forall|j: int| 0 <= j < idx ==> (#[trigger] recorded@[j]).0 < timestamp,
            forall|k: int|
                0 <= k < out@.len() ==> {
                    &&& (#[trigger] out@[k]).timestamp == slot_time(start, k)
                    &&& out@[k].tags@ == tags@
                    &&& out@[k].counts@.len() == tags@.len()
                    &&& (forall|j: int| 0 <= j < tags@.len() ==> out@[k].counts@[j] == 0) || exists|x: int|
                        0 <= x < recorded@.len() && recorded@[x].0 == out@[k].timestamp && forall|j: int|
                            0 <= j < tags@.len() ==> out@[k].counts@[j] == tag_count_in(
                                recorded@[x].1@,
                                #[trigger] tags@[j],
                            )
                    &&& clients_ascending(recorded@) ==> out@[k].counts@ == counts_at(
                        recorded@,
                        out@[k].timestamp,
                        tags@,
                    )
                },
        decreases end + SAMPLE_SECS - t,
    {
        while idx < recorded.len() && recorded[idx].0 < timestamp
            invariant
                idx <= recorded@.len(),
                clients_ascending(recorded@) ==> forall|j: int| 0 <= j < idx ==> (#[trigger] recorded@[j]).0 < timestamp,
            decreases recorded@.len() - idx,
        {
            idx = idx + 1;
        }
        let counts = if idx < recorded.len() && recorded[idx].0 == timestamp {
            let c = counts_of(&recorded[idx].1, tags);
            proof {
                if clients_ascending(recorded@) {
                    lemma_client_sample(recorded@, idx as int);
                    assert(c@ =~= counts_at(recorded@, timestamp, tags@));
                }
            }
            c
        } else {
            let c = zero_counts(tags);
            proof {
                if clients_ascending(recorded@) {
                    assert forall|i: int| 0 <= i < recorded@.len() implies (#[trigger] recorded@[i]).0 != timestamp by {
                        if i > idx {
                            assert(recorded@[idx as int].0 < recorded@[i].0);
                        }
                    }
                    assert(client_sample(recorded@, timestamp) =~= Seq::<(u8, u32)>::empty());
                    assert(c@ =~= counts_at(recorded@, timestamp, tags@));
                }
            }
            c
        };
        let ghost before = out@;
        out.push(ClientTrendPoint { timestamp, tags: copy_tags(tags), counts });
        proof {
            assert forall|k: int|
                0 <= k < out@.len() implies {
                    &&& (#[trigger] out@[k]).timestamp == slot_time(start, k)
                    &&& out@[k].tags@ == tags@
                    &&& out@[k].counts@.len() == tags@.len()
                    &&& (forall|j: int| 0 <= j < tags@.len() ==> out@[k].counts@[j] == 0) || exists|x: int|
                        0 <= x < recorded@.len() && recorded@[x].0 == out@[k].timestamp && forall|j: int|
                            0 <= j < tags@.len() ==> out@[k].counts@[j] == tag_count_in(
                                recorded@[x].1@,
                                #[trigger] tags@[j],
                            )
                    &&& clients_ascending(recorded@) ==> out@[k].counts@ == counts_at(
                        recorded@,
                        out@[k].timestamp,
                        tags@,
                    )
                } by {
                if k < before.len() {
                    assert(out@[k] == before[k]);
                }
            }
            t = t + SAMPLE_SECS;
        }
        timestamp = timestamp.saturating_add(SAMPLE_SECS);
    }
    proof {
        lemma_slot_count(start, end, out@.len() as int);
    }
    out
}

impl TrendStore {
    /// Samples a client distribution at `now`: a period that has a sample
    /// keeps it; otherwise the sample is added, samples older than seven days
    /// are dropped and the client history is rebuilt. Returns the history.
    pub fn record_clients(&mut self, now: u64, clients: &[(u8, u64)]) -> (r: &ClientTrendData)
        ensures
            *r == final(self).client_cache,
            ({
                let bucket = bucket_of(now);
                if old(self).client_points@.len() > 0 && old(self).client_points@.last().0 == bucket {
                    *final(self) == *old(self)
                } else {
                    let cp = final(self).client_points@;
                    &&& cp.len() > 0
                    &&& cp.last().0 == bucket
                    &&& cp.last().1@ == narrowed(clients@)
                    &&& cp.drop_last() == recent_clients(old(self).client_points@, retention_start(bucket))
                    &&& final(self).client_cache_bucket == bucket
                    &&& !final(self).client_cache_dirty
                    &&& exists|ps: Seq<usize>|
                        #[trigger] is_top(ps, narrowed(clients@), TOP_CLIENT_COUNT as nat)
                            && final(self).client_cache.top_tags@ == tags_at(narrowed(clients@), ps)
                    &&& final(self).client_cache.top_clients@.len() == final(self).client_cache.top_tags@.len()
                    &&& forall|k: int|
                        0 <= k < final(self).client_cache.top_tags@.len()
                            ==> (#[trigger] final(self).client_cache.top_clients@[k])@
                            == crate::client_id::client_name_text(final(self).client_cache.top_tags@[k])
                    &&& client_history(
                        final(self).client_cache.history@,
                        retention_start(bucket),
                        bucket,
                        final(self).client_cache.top_tags@,
                        cp,
                    )
                    &&& clients_ascending(old(self).client_points@) && (old(self).client_points@.len() > 0
                        ==> old(self).client_points@.last().0 < bucket) ==> clients_ascending(cp)
                    &&& final(self).points == old(self).points
                    &&& final(self).filled_cache == old(self).filled_cache
                }
            }),
    {
        let bucket = now - now % SAMPLE_SECS;
        let mut dist: Vec<(u8, u32)> = Vec::new();
        let mut i: usize = 0;
        while i < clients.len()
            invariant
                i <= clients@.len(),
                dist@ == narrowed(clients@.subrange(0, i as int)),
            decreases clients@.len() - i,
        {
            let (tag, count) = clients[i];
            dist.push((tag, count as u32));
            assert(dist@ =~= narrowed(clients@.subrange(0, i + 1)));
            i = i + 1;
        }
        assert(clients@.subrange(0, clients@.len() as int) =~= clients@);
        proof {
            lemma_bucket_below_max(now);
        }
        let n = self.client_points.len();
        if n > 0 && self.client_points[n - 1].0 == bucket {
            return &self.client_cache;
        }
        let min_timestamp = if bucket >= RETENTION_SECS {
            bucket - RETENTION_SECS
        } else {
            0
        };
        let mut pending: Vec<(u64, Vec<(u8, u32)>)> = Vec::new();
        std::mem::swap(&mut pending, &mut self.client_points);
        let ghost all = pending@;
        let mut kept: Vec<(u64, Vec<(u8, u32)>)> = Vec::new();
        let mut k: usize = 0;
        proof {
            assert(all.subrange(0, 0) =~= Seq::<(u64, Vec<(u8, u32)>)>::empty());
        }
        while k < pending.len()
            invariant
                pending@.len() == all.len(),
                k <= all.len(),
                forall|j: int| k <= j < all.len() ==> #[trigger] pending@[j] == all[j],
                kept@ == recent_clients(all.subrange(0, k as int), min_timestamp),
            decreases all.len() - k,
        {
            let mut entry: (u64, Vec<(u8, u32)>) = (0, Vec::new());
            std::mem::swap(&mut pending[k], &mut entry);
            proof {
                assert(entry == all[k as int]);
                assert(all.subrange(0, k + 1).drop_last() =~= all.subrange(0, k as int));
                assert(all.subrange(0, k + 1).last() == all[k as int]);
            }
            if entry.0 >= min_timestamp {
                kept.push(entry);
            }
            k = k + 1;
        }
        proof {
            assert(all.subrange(0, all.len() as int) =~= all);
            if clients_ascending(all) {
                lemma_recent_clients_ascending(all, min_timestamp);
            }
        }
        let ghost before_push = kept@;
        kept.push((bucket, dist));
        proof {
            if clients_ascending(all) && (all.len() > 0 ==> all.last().0 < bucket) {
                assert forall|a: int, b: int| 0 <= a < b < kept@.len() implies (#[trigger] kept@[a]).0 < (
                #[trigger] kept@[b]).0 by {
                    if b == kept@.len() - 1 {
                        assert(kept@[a] == before_push[a]);
                        let j = choose|j: int| 0 <= j < all.len() && all[j] == before_push[a];
                        if j < all.len() - 1 {
                            assert(all[j].0 < all[all.len() - 1].0);
                        }
                    } else {
                        assert(kept@[a] == before_push[a] && kept@[b] == before_push[b]);
                    }
                }
            }
        }
        self.client_points = kept;
        self.client_cache_dirty = true;
        self.rebuild_client_cache(bucket);
        proof {
            let cp = self.client_points@;
            assert(cp.drop_last() =~= recent_clients(old(self).client_points@, min_timestamp));
            assert(latest_dist(cp) == narrowed(clients@));
        }
        &self.client_cache
    }

    /// A store of samples read back from disk, with its histories rebuilt
    /// up to the latest sample (which is below the largest time).
    pub fn from_loaded(points: Vec<TrendPoint>, client_points: Vec<(u64, Vec<(u8, u32)>)>) -> (r: Self)
        requires
            points@.len() > 0 ==> points@.last().timestamp < u64::MAX,
            client_points@.len() > 0 ==> client_points@.last().0 < u64::MAX,
        ensures
            r.points@ == points@,
            r.client_points@ == client_points@,
            points@.len() > 0 ==> {
                let last = points@.last().timestamp;
                &&& r.cache_start == retention_start(last)
                &&& r.cache_end == last
                &&& r.filled_cache@.len() == slot_count(retention_start(last), last)
                &&& ascending(points@) ==> forall|k: int|
                    0 <= k < r.filled_cache@.len() ==> #[trigger] r.filled_cache@[k] == sample_at(
                        points@,
                        slot_time(retention_start(last), k) as u64,
                    )
            },
            client_points@.len() > 0 ==> {
                let last = client_points@.last().0;
                &&& r.client_cache_bucket == last
                &&& !r.client_cache_dirty
                &&& exists|ps: Seq<usize>|
                    #[trigger] is_top(ps, latest_dist(client_points@), TOP_CLIENT_COUNT as nat)
                        && r.client_cache.top_tags@ == tags_at(latest_dist(client_points@), ps)
                &&& r.client_cache.top_clients@.len() == r.client_cache.top_tags@.len()
                &&& forall|k: int|
                    0 <= k < r.client_cache.top_tags@.len() ==> (#[trigger] r.client_cache.top_clients@[k])@
                        == crate::client_id::client_name_text(r.client_cache.top_tags@[k])
                &&& client_history(
                    r.client_cache.history@,
                    retention_start(last),
                    last,
                    r.client_cache.top_tags@,
                    client_points@,
                )
            },
            client_points@.len() == 0 ==> r.client_cache_dirty,
    {
        let mut store = TrendStore::new();
        store.points = points;
        store.client_points = client_points;
        store.client_cache_dirty = true;
        let n = store.points.len();
        if n > 0 {
            let bucket = store.points[n - 1].timestamp;
            assert(store.points@[n - 1] == store.points@.last());
            let min_timestamp = if bucket >= RETENTION_SECS {
                bucket - RETENTION_SECS
            } else {
                0
            };
            store.filled_cache = filled_points(&store.points, min_timestamp, bucket);
            store.cache_start = min_timestamp;
            store.cache_end = bucket;
        }
        let m = store.client_points.len();
        if m > 0 {
            let last = store.client_points[m - 1].0;
            assert(store.client_points@[m - 1] == store.client_points@.last());
            store.rebuild_client_cache(last);
        }
        store
    }
}

} // verus!
