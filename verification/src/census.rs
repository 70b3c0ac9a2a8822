//! Peers per client: how many stored peers carry each client tag, and how
//! the store operations move those numbers.
use vstd::prelude::*;
use crate::packed::{
    Entry, has_key, is_fresh, kept, lookup, stale_states, unique_keys, lemma_lookup_at, lemma_remove_lookup,
};
use crate::swarm::Swarm;
use crate::tracker::total;
use crate::types::{InfoHash, PeerState};

verus! {

/// One if `s` is a peer with client tag `t`, else zero.
pub open spec fn tag_of(s: Option<PeerState>, t: u8) -> nat {
    if s matches Some(p) && p.client_tag == t {
        1
    } else {
        0
    }
}

/// The number of entries whose peer carries client tag `t`.
pub open spec fn tagged(e: Seq<Entry>, t: u8) -> nat
    decreases e.len(),
{
    if e.len() == 0 {
        0
    } else {
        tagged(e.drop_last(), t) + tag_of(Some(e.last().1), t)
    }
}

/// The number of peers of `w` that carry client tag `t`.
pub open spec fn swarm_tagged(w: Swarm, t: u8) -> nat {
    tagged(w.ipv4_peers@, t) + tagged(w.ipv6_peers@, t)
}

/// Peers with client tag `t`, as a function of a swarm.
pub open spec fn census_fn(t: u8) -> spec_fn(Swarm) -> nat {
    |w: Swarm| swarm_tagged(w, t)
}

/// The number of peers with client tag `t` over all swarms of `s`.
pub open spec fn census_total(s: Seq<(InfoHash, Swarm)>, t: u8) -> nat {
    total(s, census_fn(t))
}

proof fn lemma_tagged_concat(a: Seq<Entry>, b: Seq<Entry>, t: u8)
    ensures
        tagged(a + b, t) == tagged(a, t) + tagged(b, t),
    decreases b.len(),
{
    if b.len() == 0 {
        assert(a + b =~= a);
    } else {
        lemma_tagged_concat(a, b.drop_last(), t);
        assert((a + b).drop_last() =~= a + b.drop_last());
    }
}

/// Removing entry `i` removes its peer from the count.
pub proof fn lemma_tagged_remove(e: Seq<Entry>, i: int, t: u8)
    requires
        0 <= i < e.len(),
    ensures
        tagged(e.remove(i), t) + tag_of(Some(e[i].1), t) == tagged(e, t),
{
    let a = e.subrange(0, i);
    let c = e.subrange(i + 1, e.len() as int);
    assert(e =~= a.push(e[i]) + c);
    assert(e.remove(i) =~= a + c);
    lemma_tagged_concat(a.push(e[i]), c, t);
    lemma_tagged_concat(a, c, t);
    assert(a.push(e[i]).drop_last() =~= a);
}

/// The count never exceeds the number of entries.
pub proof fn lemma_tagged_bound(e: Seq<Entry>, t: u8)
    ensures
        tagged(e, t) <= e.len(),
    decreases e.len(),
{
    if e.len() > 0 {
        lemma_tagged_bound(e.drop_last(), t);
    }
}

/// Entry lists with unique keys and the same lookups have the same count.
pub proof fn lemma_tagged_by_lookup(a: Seq<Entry>, b: Seq<Entry>, t: u8)
    requires
        unique_keys(a),
        unique_keys(b),
        forall|k: Seq<u8>| #[trigger] lookup(a, k) == lookup(b, k),
    ensures
        tagged(a, t) == tagged(b, t),
    decreases a.len(),
{
    if a.len() == 0 {
        if b.len() > 0 {
            lemma_lookup_at(b, 0);
            assert(lookup(a, b[0].0) is None);
        }
    } else {
        let n = a.len() - 1;
        let x = a[n];
        lemma_lookup_at(a, n);
        assert(lookup(b, x.0) == Some(x.1));
        assert(has_key(b, x.0));
        let j = choose|j: int| 0 <= j < b.len() && (#[trigger] b[j]).0 == x.0;
        lemma_lookup_at(b, j);
        lemma_remove_lookup(a, n);
        lemma_remove_lookup(b, j);
        assert forall|k: Seq<u8>| #[trigger] lookup(a.remove(n), k) == lookup(b.remove(j), k) by {
        }
        lemma_tagged_by_lookup(a.remove(n), b.remove(j), t);
        lemma_tagged_remove(a, n, t);
        lemma_tagged_remove(b, j, t);
    }
}

/// The entry list without key `k`, and how the count drops.
proof fn lemma_tagged_without(e: Seq<Entry>, k: Seq<u8>, t: u8) -> (r: Seq<Entry>)
    requires
        unique_keys(e),
    ensures
        unique_keys(r),
        forall|q: Seq<u8>| #[trigger] lookup(r, q) == if q == k {
            None
        } else {
            lookup(e, q)
        },
        tagged(r, t) + tag_of(lookup(e, k), t) == tagged(e, t),
{
    if has_key(e, k) {
        let i = choose|i: int| 0 <= i < e.len() && (#[trigger] e[i]).0 == k;
        lemma_lookup_at(e, i);
        lemma_remove_lookup(e, i);
        lemma_tagged_remove(e, i, t);
        e.remove(i)
    } else {
        assert forall|q: Seq<u8>| #[trigger] lookup(e, q) == if q == k {
            None
        } else {
            lookup(e, q)
        } by {
        }
        e
    }
}

/// Changing what is stored under one key moves the count by the old and new
/// peer stored there.
pub proof fn lemma_tagged_change(e1: Seq<Entry>, e2: Seq<Entry>, k: Seq<u8>, t: u8)
    requires
        unique_keys(e1),
        unique_keys(e2),
        forall|q: Seq<u8>| q != k ==> #[trigger] lookup(e2, q) == lookup(e1, q),
    ensures
        tagged(e2, t) + tag_of(lookup(e1, k), t) == tagged(e1, t) + tag_of(lookup(e2, k), t),
{
    let r1 = lemma_tagged_without(e1, k, t);
    let r2 = lemma_tagged_without(e2, k, t);
    assert forall|q: Seq<u8>| #[trigger] lookup(r1, q) == lookup(r2, q) by {
        if q != k {
            assert(lookup(e2, q) == lookup(e1, q));
        }
    }
    lemma_tagged_by_lookup(r1, r2, t);
}

/// Dropping the stale peers moves the count by the stale peers with tag `t`.
pub proof fn lemma_tagged_retain(e1: Seq<Entry>, e2: Seq<Entry>, now: u32, timeout: u32, t: u8)
    requires
        unique_keys(e1),
        unique_keys(e2),
        forall|q: Seq<u8>| #[trigger] lookup(e2, q) == kept(lookup(e1, q), now, timeout),
    ensures
        tagged(e2, t) + stale_states(e1, now, timeout).map_values(|p: PeerState| p.client_tag).to_multiset().count(t)
            == tagged(e1, t),
    decreases e1.len(),
{
    broadcast use vstd::seq_lib::group_to_multiset_ensures;

    let f = |p: PeerState| p.client_tag;
    if e1.len() == 0 {
        assert(stale_states(e1, now, timeout) =~= Seq::<PeerState>::empty());
        assert(stale_states(e1, now, timeout).map_values(f) =~= Seq::<u8>::empty());
        assert forall|q: Seq<u8>| #[trigger] lookup(e2, q) == lookup(e1, q) by {
        }
        lemma_tagged_by_lookup(e1, e2, t);
    } else {
        let n = e1.len() - 1;
        let x = e1[n];
        let d1 = e1.drop_last();
        assert(d1 =~= e1.remove(n));
        lemma_lookup_at(e1, n);
        lemma_remove_lookup(e1, n);
        lemma_tagged_remove(e1, n, t);
        let d2 = lemma_tagged_without(e2, x.0, t);
        assert forall|q: Seq<u8>| #[trigger] lookup(d2, q) == kept(lookup(d1, q), now, timeout) by {
        }
        lemma_tagged_retain(d1, d2, now, timeout, t);
        let s1 = stale_states(d1, now, timeout);
        assert(e1.last() == x);
        if is_fresh(x.1, now, timeout) {
            assert(stale_states(e1, now, timeout) == s1);
        } else {
            assert(stale_states(e1, now, timeout) == s1.push(x.1));
            assert(s1.push(x.1).map_values(f) =~= s1.map_values(f).push(x.1.client_tag));
        }
    }
}

/// No swarm holds more peers of a tag than peers in all.
pub proof fn lemma_swarm_tagged_bound(w: Swarm, t: u8)
    ensures
        swarm_tagged(w, t) <= w.peer_count(),
{
    lemma_tagged_bound(w.ipv4_peers@, t);
    lemma_tagged_bound(w.ipv6_peers@, t);
}

} // verus!
