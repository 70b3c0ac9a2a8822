//! Combining the snapshots of several tracker shards into one.
use vstd::prelude::*;
use crate::tracker::{tag_count, tag_stored, TrackerSnapshot, TrackerTotals};

verus! {

/// The sum of the counts of `tag` in a client list.
pub open spec fn pairs_total(cs: Seq<(u8, u64)>, tag: u8) -> nat
    decreases cs.len(),
{
    if cs.len() == 0 {
        0
    } else {
        pairs_total(cs.drop_last(), tag) + if cs.last().0 == tag {
            cs.last().1 as nat
        } else {
            0
        }
    }
}

/// The sum of the counts of `tag` over the snapshots.
pub open spec fn client_total(s: Seq<TrackerSnapshot>, tag: u8) -> nat
    decreases s.len(),
{
    if s.len() == 0 {
        0
    } else {
        client_total(s.drop_last(), tag) + pairs_total(s.last().clients@, tag)
    }
}

/// A sum of one total over the snapshots.
pub open spec fn totals_sum(s: Seq<TrackerSnapshot>, f: spec_fn(TrackerTotals) -> nat) -> nat
    decreases s.len(),
{
    if s.len() == 0 {
        0
    } else {
        totals_sum(s.drop_last(), f) + f(s.last().totals)
    }
}

/// No tag is listed twice.
pub open spec fn tags_distinct(cs: Seq<(u8, u64)>) -> bool {
    forall|i: int, j: int| 0 <= i < cs.len() && 0 <= j < cs.len() && i != j ==> (#[trigger] cs[i]).0 != (#[trigger] cs[j]).0
}

/// The count stored for `tag` in a list without repeated tags.
proof fn lemma_count_at(cs: Seq<(u8, u64)>, i: int)
    requires
        tags_distinct(cs),
        0 <= i < cs.len(),
    ensures
        tag_count(cs, cs[i].0) == cs[i].1,
{
    assert(tag_stored(cs, cs[i].0));
}

/// Raising the count at `i` raises only its tag's count.
proof fn lemma_add_at(s: Seq<(u8, u64)>, i: int, count: u64)
    requires
        tags_distinct(s),
        0 <= i < s.len(),
        s[i].1 + count <= u64::MAX,
    ensures
        ({
            let ns = s.update(i, (s[i].0, (s[i].1 + count) as u64));
            &&& tags_distinct(ns)
            &&& forall|t: u8| #[trigger] tag_count(ns, t) == tag_count(s, t) + if t == s[i].0 {
                count as nat
            } else {
                0
            }
        }),
{
    let tag = s[i].0;
    let ns = s.update(i, (tag, (s[i].1 + count) as u64));
    assert forall|a: int, b: int| 0 <= a < ns.len() && 0 <= b < ns.len() && a != b implies (#[trigger] ns[a]).0
        != (#[trigger] ns[b]).0 by {
        assert(ns[a].0 == s[a].0 && ns[b].0 == s[b].0);
    }
    lemma_count_at(s, i);
    lemma_count_at(ns, i);
    assert forall|t: u8| #[trigger] tag_count(ns, t) == tag_count(s, t) + if t == tag {
        count as nat
    } else {
        0
    } by {
        if t != tag {
            if tag_stored(s, t) {
                let j = choose|j: int| 0 <= j < s.len() && (#[trigger] s[j]).0 == t;
                lemma_count_at(s, j);
                lemma_count_at(ns, j);
            } else {
                assert forall|j: int| 0 <= j < ns.len() implies (#[trigger] ns[j]).0 != t by {
                    assert(ns[j].0 == s[j].0);
                }
            }
        }
    }
}

/// Listing a new tag adds only its count.
proof fn lemma_add_new(s: Seq<(u8, u64)>, tag: u8, count: u64)
    requires
        tags_distinct(s),
        !tag_stored(s, tag),
    ensures
        tags_distinct(s.push((tag, count))),
        forall|t: u8| #[trigger] tag_count(s.push((tag, count)), t) == tag_count(s, t) + if t == tag {
            count as nat
        } else {
            0
        },
{
    let ns = s.push((tag, count));
    assert forall|a: int, b: int| 0 <= a < ns.len() && 0 <= b < ns.len() && a != b implies (#[trigger] ns[a]).0
        != (#[trigger] ns[b]).0 by {
        if a < s.len() {
            assert(ns[a] == s[a]);
        }
        if b < s.len() {
            assert(ns[b] == s[b]);
        }
    }
    lemma_count_at(ns, s.len() as int);
    assert forall|t: u8| #[trigger] tag_count(ns, t) == tag_count(s, t) + if t == tag {
        count as nat
    } else {
        0
    } by {
        if t != tag {
            if tag_stored(s, t) {
                let j = choose|j: int| 0 <= j < s.len() && (#[trigger] s[j]).0 == t;
                lemma_count_at(s, j);
                assert(ns[j] == s[j]);
                lemma_count_at(ns, j);
            } else {
                assert forall|j: int| 0 <= j < ns.len() implies (#[trigger] ns[j]).0 != t by {
                    if j < s.len() {
                        assert(ns[j] == s[j]);
                    }
                }
            }
        }
    }
}

/// Adds `count` to the entry of `tag`, or lists it.
fn add_client(out: &mut Vec<(u8, u64)>, tag: u8, count: u64)
    requires
        tags_distinct(old(out)@),
        tag_count(old(out)@, tag) + count <= u64::MAX,
    ensures
        tags_distinct(final(out)@),
        forall|t: u8| #[trigger] tag_count(final(out)@, t) == tag_count(old(out)@, t) + if t == tag {
            count as nat
        } else {
            0
        },
{
    let ghost s = out@;
    let n = out.len();
    let mut i: usize = 0;
    while i < n
        invariant
            n == out@.len(),
            out@ == s,
            s == old(out)@,
            tags_distinct(s),
            tag_count(s, tag) + count <= u64::MAX,
            i <= n,
            forall|j: int| 0 <= j < i ==> (#[trigger] s[j]).0 != tag,
        decreases n - i,
    {
        if out[i].0 == tag {
            proof {
                lemma_count_at(s, i as int);
                lemma_add_at(s, i as int, count);
            }
            let c = out[i].1 + count;
            out.set(i, (tag, c));
            return;
        }
        i = i + 1;
    }
    proof {
        lemma_add_new(s, tag, count);
    }
    out.push((tag, count));
}

/// The snapshot of a sharded tracker: the configuration of the first
/// shard, the totals summed over the shards, and the client counts summed
/// per tag.
pub fn combine_snapshots(snapshots: &Vec<TrackerSnapshot>) -> (r: TrackerSnapshot)
    requires
        totals_sum(snapshots@, |t: TrackerTotals| t.torrents as nat) <= usize::MAX,
        totals_sum(snapshots@, |t: TrackerTotals| t.peers as nat) <= usize::MAX,
        totals_sum(snapshots@, |t: TrackerTotals| t.seeders as nat) <= usize::MAX,
        totals_sum(snapshots@, |t: TrackerTotals| t.leechers as nat) <= usize::MAX,
        totals_sum(snapshots@, |t: TrackerTotals| t.downloaded as nat) <= u64::MAX,
        forall|t: u8| #[trigger] client_total(snapshots@, t) <= u64::MAX,
    ensures
        r.interval == if snapshots@.len() > 0 {
            snapshots@[0].interval
        } else {
            0
        },
        r.peer_timeout == if snapshots@.len() > 0 {
            snapshots@[0].peer_timeout
        } else {
            0
        },
        r.totals.torrents == totals_sum(snapshots@, |t: TrackerTotals| t.torrents as nat),
        r.totals.peers == totals_sum(snapshots@, |t: TrackerTotals| t.peers as nat),
        r.totals.seeders == totals_sum(snapshots@, |t: TrackerTotals| t.seeders as nat),
        r.totals.leechers == totals_sum(snapshots@, |t: TrackerTotals| t.leechers as nat),
        r.totals.downloaded == totals_sum(snapshots@, |t: TrackerTotals| t.downloaded as nat),
        tags_distinct(r.clients@),
        forall|t: u8| #[trigger] tag_count(r.clients@, t) == client_total(snapshots@, t),
{
    let s = snapshots;
    let ghost ft = |t: TrackerTotals| t.torrents as nat;
    let ghost fp = |t: TrackerTotals| t.peers as nat;
    let ghost fs = |t: TrackerTotals| t.seeders as nat;
    let ghost fl = |t: TrackerTotals| t.leechers as nat;
    let ghost fd = |t: TrackerTotals| t.downloaded as nat;
    let mut totals = TrackerTotals { torrents: 0, peers: 0, seeders: 0, leechers: 0, downloaded: 0 };
    let mut clients: Vec<(u8, u64)> = Vec::new();
    let mut i: usize = 0;
    proof {
        assert(s@.subrange(0, 0) =~= Seq::<TrackerSnapshot>::empty());
    }
    while i < s.len()
        invariant
            i <= s@.len(),
            ft == (|t: TrackerTotals| t.torrents as nat),
            fp == (|t: TrackerTotals| t.peers as nat),
            fs == (|t: TrackerTotals| t.seeders as nat),
            fl == (|t: TrackerTotals| t.leechers as nat),
            fd == (|t: TrackerTotals| t.downloaded as nat),
            totals_sum(s@, ft) <= usize::MAX,
            totals_sum(s@, fp) <= usize::MAX,
            totals_sum(s@, fs) <= usize::MAX,
            totals_sum(s@, fl) <= usize::MAX,
            totals_sum(s@, fd) <= u64::MAX,
            forall|t: u8| #[trigger] client_total(s@, t) <= u64::MAX,
            totals.torrents == totals_sum(s@.subrange(0, i as int), ft),
            totals.peers == totals_sum(s@.subrange(0, i as int), fp),
            totals.seeders == totals_sum(s@.subrange(0, i as int), fs),
            totals.leechers == totals_sum(s@.subrange(0, i as int), fl),
            totals.downloaded == totals_sum(s@.subrange(0, i as int), fd),
            tags_distinct(clients@),
            forall|t: u8| #[trigger] tag_count(clients@, t) == client_total(s@.subrange(0, i as int), t),
        decreases s@.len() - i,
    {
        let snap = &s[i];
        let ghost sub = s@.subrange(0, i + 1);
        proof {
            assert(sub.drop_last() =~= s@.subrange(0, i as int));
            assert(sub.last() == s@[i as int]);
            lemma_prefix_sums(s@, i as int + 1);
            assert(totals_sum(sub, ft) == totals_sum(s@.subrange(0, i as int), ft) + ft(sub.last().totals));
            assert(totals_sum(sub, fp) == totals_sum(s@.subrange(0, i as int), fp) + fp(sub.last().totals));
            assert(totals_sum(sub, fs) == totals_sum(s@.subrange(0, i as int), fs) + fs(sub.last().totals));
            assert(totals_sum(sub, fl) == totals_sum(s@.subrange(0, i as int), fl) + fl(sub.last().totals));
            assert(totals_sum(sub, fd) == totals_sum(s@.subrange(0, i as int), fd) + fd(sub.last().totals));
            assert(totals_sum(sub, ft) <= totals_sum(s@, ft));
            assert(totals_sum(sub, fp) <= totals_sum(s@, fp));
            assert(totals_sum(sub, fs) <= totals_sum(s@, fs));
            assert(totals_sum(sub, fl) <= totals_sum(s@, fl));
            assert(totals_sum(sub, fd) <= totals_sum(s@, fd));
        }
        totals.torrents = totals.torrents + snap.totals.torrents;
        totals.peers = totals.peers + snap.totals.peers;
        totals.seeders = totals.seeders + snap.totals.seeders;
        totals.leechers = totals.leechers + snap.totals.leechers;
        totals.downloaded = totals.downloaded + snap.totals.downloaded;
        let ghost c0 = clients@;
        let cs = &snap.clients;
        let mut j: usize = 0;
        proof {
            assert(cs@.subrange(0, 0) =~= Seq::<(u8, u64)>::empty());
        }
        while j < cs.len()
            invariant
                j <= cs@.len(),
                i < s@.len(),
                cs@ == s@[i as int].clients@,
                sub == s@.subrange(0, i + 1),
                sub.drop_last() == s@.subrange(0, i as int),
                sub.last() == s@[i as int],
                forall|t: u8| #[trigger] client_total(sub, t) <= u64::MAX,
                tags_distinct(clients@),
                forall|t: u8| #[trigger] tag_count(clients@, t) == tag_count(c0, t) + pairs_total(cs@.subrange(0, j as int), t),
                forall|t: u8| #[trigger] tag_count(c0, t) == client_total(s@.subrange(0, i as int), t),
            decreases cs@.len() - j,
        {
            let (tag, count) = cs[j];
            proof {
                let p = cs@.subrange(0, j + 1);
                assert(p.drop_last() =~= cs@.subrange(0, j as int));
                assert(p.last() == cs@[j as int]);
                lemma_pairs_prefix(cs@, j as int + 1, tag);
                assert(client_total(sub, tag) == client_total(s@.subrange(0, i as int), tag) + pairs_total(cs@, tag));
            }
            add_client(&mut clients, tag, count);
            j = j + 1;
        }
        proof {
            assert(cs@.subrange(0, cs@.len() as int) =~= cs@);
        }
        i = i + 1;
    }
    proof {
        assert(s@.subrange(0, s@.len() as int) =~= s@);
    }
    let (interval, peer_timeout) = if s.len() > 0 {
        (s[0].interval, s[0].peer_timeout)
    } else {
        (0, 0)
    };
    TrackerSnapshot { interval, peer_timeout, totals, clients }
}

/// Prefix sums of the totals stay within the whole sums.
proof fn lemma_prefix_sums(s: Seq<TrackerSnapshot>, k: int)
    requires
        0 <= k <= s.len(),
    ensures
        forall|f: spec_fn(TrackerTotals) -> nat| #[trigger] totals_sum(s.subrange(0, k), f) <= totals_sum(s, f),
        forall|t: u8| #[trigger] client_total(s.subrange(0, k), t) <= client_total(s, t),
    decreases s.len() - k,
{
    if k < s.len() {
        lemma_prefix_sums(s, k + 1);
        let p = s.subrange(0, k + 1);
        assert(p.drop_last() =~= s.subrange(0, k));
        assert forall|f: spec_fn(TrackerTotals) -> nat| #[trigger] totals_sum(s.subrange(0, k), f) <= totals_sum(s, f) by {
            assert(totals_sum(p, f) == totals_sum(s.subrange(0, k), f) + f(p.last().totals));
            assert(totals_sum(p, f) <= totals_sum(s, f));
        }
        assert forall|t: u8| #[trigger] client_total(s.subrange(0, k), t) <= client_total(s, t) by {
            assert(client_total(p, t) == client_total(s.subrange(0, k), t) + pairs_total(p.last().clients@, t));
            assert(client_total(p, t) <= client_total(s, t));
        }
    } else {
        assert(s.subrange(0, k) =~= s);
    }
}

/// A prefix of a client list counts no more of a tag than the whole.
proof fn lemma_pairs_prefix(cs: Seq<(u8, u64)>, k: int, tag: u8)
    requires
        0 <= k <= cs.len(),
    ensures
        pairs_total(cs.subrange(0, k), tag) <= pairs_total(cs, tag),
    decreases cs.len() - k,
{
    if k < cs.len() {
        lemma_pairs_prefix(cs, k + 1, tag);
        let p = cs.subrange(0, k + 1);
        assert(p.drop_last() =~= cs.subrange(0, k));
    } else {
        assert(cs.subrange(0, k) =~= cs);
    }
}

} // verus!
