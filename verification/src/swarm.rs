//! One torrent's swarm: its IPv4 and IPv6 peer stores, the seeder and
//! completion counts, and the choice of peers handed to an announcing client.
use vstd::prelude::*;
use crate::census::{swarm_tagged, tag_of, lemma_tagged_change, lemma_tagged_retain};
use crate::counters::{ExpireResult, PeerRemoval, PeerUpsert};
use crate::packed::{
    PackedIpv4Peers, PackedIpv6Peers, Rng, complete_count, compact_keys, flatten, has_key, kept,
    lookup, picked_from, distinct_keys, lemma_kept_keys_distinct, seeders, lemma_flatten_len, lemma_flatten_prefix, lemma_seeders_bound,
    lemma_whole_slots, stale_states, lemma_map_same_multiset, kept_keys, random_pick,
};
use crate::types::{
    Ipv4PeerKey, Ipv6PeerKey, PeerIp, PeerState, TorrentStats, v4_bytes, v6_bytes, port_bytes,
    lemma_v4_bytes_injective, lemma_v6_bytes_injective,
};

verus! {

/// The smaller of two integers.
pub open spec fn min(a: int, b: int) -> int {
    if a <= b {
        a
    } else {
        b
    }
}

/// The split of `amount` slots: everything where everything fits; otherwise
/// each family first gets a quarter of the slots (as far as it has peers),
/// the rest is shared by the families' remaining peers in 1024ths, each share
/// is cut to the family's size, and slots still free go to IPv6 first, then
/// to IPv4.
pub open spec fn allocation(t4: int, t6: int, amount: int) -> (int, int) {
    if t4 + t6 <= amount {
        (t4, t6)
    } else {
        let a4 = min(amount / 4, t4);
        let a6 = min(amount / 4, t6);
        let left = amount - a4 - a6;
        let l4 = t4 - a4;
        let l6 = t6 - a6;
        let share = if l4 + l6 > 0 {
            (left * ((1024 * l4) / (l4 + l6))) / 1024
        } else {
            0
        };
        let b4 = if l4 + l6 > 0 {
            a4 + share
        } else {
            a4
        };
        let b6 = if l4 + l6 > 0 {
            a6 + left - share
        } else {
            a6
        };
        let c4 = min(b4, t4);
        let c6 = min(b6, t6);
        let d6 = min(t6, c6 + (amount - c4 - c6));
        (amount - d6, d6)
    }
}

/// Splits `amount` peer slots between `total_v4` IPv4 and `total_v6` IPv6
/// peers: each family gets at least a quarter of the slots where it has the
/// peers, the rest goes by pool size, and no slot stays empty that a peer
/// could fill.
pub fn allocate_v4_v6(total_v4: usize, total_v6: usize, amount: usize) -> (r: (usize, usize))
    requires
        total_v4 + total_v6 <= usize::MAX,
    ensures
        r.0 <= total_v4,
        r.1 <= total_v6,
        r.0 + r.1 == min(amount as int, total_v4 + total_v6),
        r.0 >= min(amount as int / 4, total_v4 as int),
        r.1 >= min(amount as int / 4, total_v6 as int),
        total_v4 + total_v6 <= amount ==> r == (total_v4, total_v6),
        (r.0 as int, r.1 as int) == allocation(total_v4 as int, total_v6 as int, amount as int),
{
    if total_v4 + total_v6 <= amount {
        return (total_v4, total_v6);
    }
    let quarter = amount / 4;
    let mut v4 = if quarter < total_v4 {
        quarter
    } else {
        total_v4
    };
    let mut v6 = if quarter < total_v6 {
        quarter
    } else {
        total_v6
    };
    let q4 = v4;
    let q6 = v6;
    let amount_left = amount - v4 - v6;
    let left_v4 = total_v4 - v4;
    let left_v6 = total_v6 - v6;
    if left_v4 + left_v6 > 0 {
        // Shares are in 1/1024ths; the products are formed in 128 bits.
        let scale: u128 = 1024;
        let pct_v4 = (scale * (left_v4 as u128)) / ((left_v4 + left_v6) as u128);
        proof {
            assert(pct_v4 <= 1024) by (nonlinear_arith)
                requires
                    pct_v4 == (1024 * left_v4) / (left_v4 + left_v6),
                    left_v4 + left_v6 > 0,
            ;
            assert((amount_left as u128) * pct_v4 <= 1024 * amount_left) by (nonlinear_arith)
                requires
                    pct_v4 <= 1024,
            ;
            assert(((amount_left as u128) * pct_v4) / 1024 <= amount_left) by (nonlinear_arith)
                requires
                    pct_v4 <= 1024,
            ;
        }
        let share = (((amount_left as u128) * pct_v4) / scale) as usize;
        v4 = v4 + share;
        v6 = v6 + (amount_left - share);
    }
    if v4 > total_v4 {
        v4 = total_v4;
    }
    if v6 > total_v6 {
        v6 = total_v6;
    }
    let ghost c4 = v4 as int;
    let ghost c6 = v6 as int;
    proof {
        assert(c4 == min(
            (if left_v4 + left_v6 > 0 {
                q4 + (amount_left * ((1024 * left_v4) / (left_v4 + left_v6))) / 1024
            } else {
                q4 as int
            }),
            total_v4 as int,
        ));
    }
    while v4 + v6 < amount
        invariant
            q4 <= v4 <= total_v4,
            q6 <= v6 <= total_v6,
            v4 + v6 <= amount,
            total_v4 + total_v6 > amount,
            c4 <= v4,
            c6 <= v6,
            v6 < total_v6 ==> v4 == c4,
        decreases amount - (v4 + v6),
    {
        if v6 < total_v6 {
            v6 = v6 + 1;
        } else {
            v4 = v4 + 1;
        }
    }
    (v4, v6)
}

/// A peer's address and port, in the family it announced from.
#[derive(Clone, Copy, Debug, PartialEq, Eq)]
pub enum PeerEndpoint {
    V4(Ipv4PeerKey),
    V6(Ipv6PeerKey),
}

impl PeerEndpoint {
    /// The endpoint of `ip` and `port`.
    pub fn new(ip: PeerIp, port: u16) -> (r: Self)
        ensures
            r == match ip {
                PeerIp::V4(a) => PeerEndpoint::V4(Ipv4PeerKey { ip: a, port }),
                PeerIp::V6(a) => PeerEndpoint::V6(Ipv6PeerKey { ip: a, port }),
            },
    {
        match ip {
            PeerIp::V4(a) => PeerEndpoint::V4(Ipv4PeerKey::new(a, port)),
            PeerIp::V6(a) => PeerEndpoint::V6(Ipv6PeerKey::new(a, port)),
        }
    }
}

/// The peers of one torrent.
#[derive(Debug)]
pub struct Swarm {
    pub ipv4_peers: PackedIpv4Peers,
    pub ipv6_peers: PackedIpv6Peers,
    /// Seeders, as counted by the updates.
    pub complete: u32,
    /// Completed downloads reported.
    pub downloaded: u32,
}

/// `c - 1`, or zero.
pub open spec fn dec_u32(c: u32) -> u32 {
    if c > 0 {
        (c - 1) as u32
    } else {
        0
    }
}

/// `c + 1`, or `c` at the top of the range.
pub open spec fn inc_u32(c: u32) -> u32 {
    if c < u32::MAX {
        (c + 1) as u32
    } else {
        c
    }
}

/// The client tags of the peers of `w` that are stale at `now`: IPv4 peers
/// in stored order, then IPv6 peers.
pub open spec fn expired_tags(w: Swarm, now: u32, timeout: u32) -> Seq<u8> {
    (stale_states(w.ipv4_peers@, now, timeout) + stale_states(w.ipv6_peers@, now, timeout)).map_values(
        |p: PeerState| p.client_tag,
    )
}

/// `a - b`, or zero.
pub open spec fn sub_u32(a: u32, b: int) -> u32 {
    if a >= b {
        (a - b) as u32
    } else {
        0
    }
}

impl Swarm {
    /// Both stores are well formed.
    pub open spec fn wf(&self) -> bool {
        self.ipv4_peers.wf() && self.ipv6_peers.wf()
    }

    /// The state stored for `ep`.
    pub open spec fn peer(&self, ep: PeerEndpoint) -> Option<PeerState> {
        match ep {
            PeerEndpoint::V4(k) => lookup(self.ipv4_peers@, v4_bytes(k)),
            PeerEndpoint::V6(k) => lookup(self.ipv6_peers@, v6_bytes(k)),
        }
    }

    /// The number of peers.
    pub open spec fn peer_count(&self) -> nat {
        self.ipv4_peers@.len() + self.ipv6_peers@.len()
    }

    /// The number of peers whose state is complete.
    pub open spec fn seeder_count(&self) -> nat {
        seeders(self.ipv4_peers@) + seeders(self.ipv6_peers@)
    }

    /// Both stores can take one more entry.
    pub open spec fn has_room(&self) -> bool {
        &&& self.ipv4_peers.bytes@.len() + 12 <= usize::MAX
        &&& self.ipv6_peers.bytes@.len() + 24 <= usize::MAX
    }

    /// The seeder count matches the peers.
    pub open spec fn counts_agree(&self) -> bool {
        self.complete == self.seeder_count()
    }

    /// An empty swarm.
    pub fn new() -> (r: Self)
        ensures
            r.wf(),
            r.peer_count() == 0,
            r.complete == 0,
            r.downloaded == 0,
            r.counts_agree(),
            forall|ep: PeerEndpoint| #[trigger] r.peer(ep) is None,
            r.ipv4_peers.bytes@.len() == 0 && !r.ipv4_peers.sorted,
            r.ipv6_peers.bytes@.len() == 0 && !r.ipv6_peers.sorted,
    {
        let r = Swarm {
            ipv4_peers: PackedIpv4Peers::new(),
            ipv6_peers: PackedIpv6Peers::new(),
            complete: 0,
            downloaded: 0,
        };
        proof {
            assert forall|ep: PeerEndpoint| #[trigger] r.peer(ep) is None by {
                match ep {
                    PeerEndpoint::V4(k) => {
                        crate::packed::lemma_lookup_absent(r.ipv4_peers@, v4_bytes(k));
                    },
                    PeerEndpoint::V6(k) => {
                        crate::packed::lemma_lookup_absent(r.ipv6_peers@, v6_bytes(k));
                    },
                }
            }
        }
        r
    }

    /// Stores `peer` for `endpoint` and counts it; reports what changed.
    pub fn upsert_peer(&mut self, endpoint: PeerEndpoint, peer: PeerState) -> (r: PeerUpsert)
        requires
            old(self).wf(),
            old(self).has_room(),
        ensures
            final(self).wf(),
            final(self).peer(endpoint) == Some(peer),
            forall|e: PeerEndpoint| e != endpoint ==> #[trigger] final(self).peer(e) == old(self).peer(e),
            r.is_new_peer == old(self).peer(endpoint) is None,
            r.was_complete == (old(self).peer(endpoint) matches Some(o) && o.complete),
            r.now_complete == peer.complete,
            r.old_tag == match old(self).peer(endpoint) {
                Some(o) => Some(o.client_tag),
                None => None,
            },
            final(self).peer_count() == old(self).peer_count() + if r.is_new_peer {
                1nat
            } else {
                0nat
            },
            final(self).seeder_count() + (if r.was_complete {
                1nat
            } else {
                0nat
            }) == old(self).seeder_count() + (if peer.complete {
                1nat
            } else {
                0nat
            }),
            final(self).complete == ({
                let c = if r.was_complete {
                    dec_u32(old(self).complete)
                } else {
                    old(self).complete
                };
                if peer.complete {
                    inc_u32(c)
                } else {
                    c
                }
            }),
            final(self).downloaded == old(self).downloaded,
            old(self).counts_agree() && final(self).seeder_count() <= u32::MAX ==> final(self).counts_agree(),
            forall|t: u8| #[trigger] swarm_tagged(*final(self), t) + tag_of(old(self).peer(endpoint), t) == swarm_tagged(
                *old(self),
                t,
            ) + tag_of(Some(peer), t),
    {
        let now_complete = peer.is_complete();
        let previous = match endpoint {
            PeerEndpoint::V4(key) => {
                let o = self.ipv4_peers.insert(key, peer);
                proof {
                    assert forall|e: PeerEndpoint| e != endpoint implies #[trigger] self.peer(e) == old(
                        self,
                    ).peer(e) by {
                        if let PeerEndpoint::V4(k2) = e {
                            if v4_bytes(k2) == v4_bytes(key) {
                                lemma_v4_bytes_injective(k2, key);
                            }
                        }
                    }
                }
                o
            },
            PeerEndpoint::V6(key) => {
                let o = self.ipv6_peers.insert(key, peer);
                proof {
                    assert forall|e: PeerEndpoint| e != endpoint implies #[trigger] self.peer(e) == old(
                        self,
                    ).peer(e) by {
                        if let PeerEndpoint::V6(k2) = e {
                            if v6_bytes(k2) == v6_bytes(key) {
                                lemma_v6_bytes_injective(k2, key);
                            }
                        }
                    }
                }
                o
            },
        };
        let ghost mid = *self;
        proof {
            assert forall|t: u8| #[trigger] swarm_tagged(mid, t) + tag_of(old(self).peer(endpoint), t) == swarm_tagged(
                *old(self),
                t,
            ) + tag_of(Some(peer), t) by {
                match endpoint {
                    PeerEndpoint::V4(k) => lemma_tagged_change(old(self).ipv4_peers@, mid.ipv4_peers@, v4_bytes(k), t),
                    PeerEndpoint::V6(k) => lemma_tagged_change(old(self).ipv6_peers@, mid.ipv6_peers@, v6_bytes(k), t),
                }
            }
        }
        let r = match previous {
            Some(old_peer) => {
                let was_complete = old_peer.is_complete();
                let old_tag = old_peer.client_tag;
                self.remove_from_counters(&old_peer);
                if now_complete {
                    self.complete = self.complete.saturating_add(1);
                }
                PeerUpsert { is_new_peer: false, was_complete, now_complete, old_tag: Some(old_tag) }
            },
            None => {
                if now_complete {
                    self.complete = self.complete.saturating_add(1);
                }
                PeerUpsert { is_new_peer: true, was_complete: false, now_complete, old_tag: None }
            },
        };
        proof {
            assert forall|e: PeerEndpoint| e != endpoint implies #[trigger] self.peer(e) == old(self).peer(e) by {
                assert(self.peer(e) == mid.peer(e));
            }
            if r.was_complete {
                match endpoint {
                    PeerEndpoint::V4(k) => crate::packed::lemma_lookup_seeder(old(self).ipv4_peers@, v4_bytes(k)),
                    PeerEndpoint::V6(k) => crate::packed::lemma_lookup_seeder(old(self).ipv6_peers@, v6_bytes(k)),
                }
            }
            assert forall|t: u8| #[trigger] swarm_tagged(*self, t) + tag_of(old(self).peer(endpoint), t) == swarm_tagged(
                *old(self),
                t,
            ) + tag_of(Some(peer), t) by {
                assert(swarm_tagged(mid, t) == swarm_tagged(*self, t));
            }
        }
        r
    }

    /// Removes the peer at `endpoint`; reports its tag and whether it was a
    /// seeder, or `None` when there was no such peer.
    pub fn remove_peer_tag(&mut self, endpoint: PeerEndpoint) -> (r: Option<PeerRemoval>)
        requires
            old(self).wf(),
        ensures
            final(self).wf(),
            final(self).peer(endpoint) is None,
            forall|e: PeerEndpoint| e != endpoint ==> #[trigger] final(self).peer(e) == old(self).peer(e),
            r == match old(self).peer(endpoint) {
                Some(o) => Some(PeerRemoval { tag: o.client_tag, was_complete: o.complete }),
                None => None,
            },
            final(self).peer_count() + (if r is Some {
                1nat
            } else {
                0nat
            }) == old(self).peer_count(),
            final(self).seeder_count() + (if r matches Some(x) && x.was_complete {
                1nat
            } else {
                0nat
            }) == old(self).seeder_count(),
            final(self).complete == if r matches Some(x) && x.was_complete {
                dec_u32(old(self).complete)
            } else {
                old(self).complete
            },
            final(self).downloaded == old(self).downloaded,
            old(self).counts_agree() ==> final(self).counts_agree(),
            forall|t: u8| #[trigger] swarm_tagged(*final(self), t) + tag_of(old(self).peer(endpoint), t) == swarm_tagged(
                *old(self),
                t,
            ),
    {
        let removed = match endpoint {
            PeerEndpoint::V4(key) => {
                let o = self.ipv4_peers.remove(&key);
                proof {
                    assert forall|e: PeerEndpoint| e != endpoint implies #[trigger] self.peer(e) == old(
                        self,
                    ).peer(e) by {
                        if let PeerEndpoint::V4(k2) = e {
                            if v4_bytes(k2) == v4_bytes(key) {
                                lemma_v4_bytes_injective(k2, key);
                            }
                        }
                    }
                }
                o
            },
            PeerEndpoint::V6(key) => {
                let o = self.ipv6_peers.remove(&key);
                proof {
                    assert forall|e: PeerEndpoint| e != endpoint implies #[trigger] self.peer(e) == old(
                        self,
                    ).peer(e) by {
                        if let PeerEndpoint::V6(k2) = e {
                            if v6_bytes(k2) == v6_bytes(key) {
                                lemma_v6_bytes_injective(k2, key);
                            }
                        }
                    }
                }
                o
            },
        };
        let ghost mid = *self;
        proof {
            assert forall|t: u8| #[trigger] swarm_tagged(mid, t) + tag_of(old(self).peer(endpoint), t) == swarm_tagged(
                *old(self),
                t,
            ) by {
                match endpoint {
                    PeerEndpoint::V4(k) => lemma_tagged_change(old(self).ipv4_peers@, mid.ipv4_peers@, v4_bytes(k), t),
                    PeerEndpoint::V6(k) => lemma_tagged_change(old(self).ipv6_peers@, mid.ipv6_peers@, v6_bytes(k), t),
                }
            }
        }
        let r = match removed {
            Some(peer) => {
                self.remove_from_counters(&peer);
                Some(PeerRemoval { tag: peer.client_tag, was_complete: peer.is_complete() })
            },
            None => None,
        };
        proof {
            assert forall|e: PeerEndpoint| e != endpoint implies #[trigger] self.peer(e) == old(self).peer(e) by {
                assert(self.peer(e) == mid.peer(e));
            }
            if r matches Some(x) && x.was_complete {
                match endpoint {
                    PeerEndpoint::V4(k) => crate::packed::lemma_lookup_seeder(old(self).ipv4_peers@, v4_bytes(k)),
                    PeerEndpoint::V6(k) => crate::packed::lemma_lookup_seeder(old(self).ipv6_peers@, v6_bytes(k)),
                }
            }
            assert forall|t: u8| #[trigger] swarm_tagged(*self, t) + tag_of(old(self).peer(endpoint), t) == swarm_tagged(
                *old(self),
                t,
            ) by {
                assert(swarm_tagged(mid, t) == swarm_tagged(*self, t));
            }
        }
        r
    }

    /// Drops the peers not seen within `timeout_secs` of `now_secs`.
    pub fn expire(&mut self, now_secs: u32, timeout_secs: u32) -> (r: ExpireResult)
        requires
            old(self).wf(),
        ensures
            final(self).wf(),
            forall|e: PeerEndpoint| #[trigger] final(self).peer(e) == kept(
                old(self).peer(e),
                now_secs,
                timeout_secs,
            ),
            final(self).peer_count() + r.removed_peers == old(self).peer_count(),
            final(self).seeder_count() + r.removed_complete == old(self).seeder_count(),
            r.tags@.len() == r.removed_peers,
            r.tags@.to_multiset() == expired_tags(*old(self), now_secs, timeout_secs).to_multiset(),
            forall|t: u8| #[trigger] swarm_tagged(*final(self), t) + expired_tags(*old(self), now_secs, timeout_secs).to_multiset().count(t)
                == swarm_tagged(*old(self), t),
            final(self).complete == sub_u32(old(self).complete, r.removed_complete as int),
            final(self).downloaded == old(self).downloaded,
            old(self).counts_agree() ==> final(self).counts_agree(),
            old(self).has_room() ==> final(self).has_room(),
    {
        let removed_v4 = self.ipv4_peers.retain_fresh(now_secs, timeout_secs);
        let removed_v6 = self.ipv6_peers.retain_fresh(now_secs, timeout_secs);
        let mut tags: Vec<u8> = Vec::new();
        let mut expired_complete: usize = 0;
        let ghost a = removed_v4@;
        let ghost b = removed_v6@;
        let ghost all = a + b;
        proof {
            old(self).lemma_peer_count_bound();
            lemma_complete_count_bound(a);
            lemma_complete_count_bound(b);
            lemma_complete_count_concat(a, b);
        }
        let mut i: usize = 0;
        assert(a.subrange(0, 0) =~= Seq::<PeerState>::empty());
        while i < removed_v4.len()
            invariant
                a == removed_v4@,
                i <= a.len(),
                tags@.len() == i,
                tags@ == a.subrange(0, i as int).map_values(|p: PeerState| p.client_tag),
                expired_complete == complete_count(a.subrange(0, i as int)),
                complete_count(a) <= a.len(),
                a.len() <= usize::MAX,
            decreases a.len() - i,
        {
            proof {
                lemma_complete_count_step(a, i as int);
                lemma_complete_count_prefix(a, i as int + 1);
            }
            let p = removed_v4[i];
            proof {
                assert(a.subrange(0, i + 1).map_values(|p: PeerState| p.client_tag) =~= a.subrange(
                    0,
                    i as int,
                ).map_values(|p: PeerState| p.client_tag).push(p.client_tag));
            }
            tags.push(p.client_tag);
            if p.is_complete() {
                expired_complete = expired_complete + 1;
            }
            i = i + 1;
        }
        let mut j: usize = 0;
        proof {
            assert(a.subrange(0, a.len() as int) =~= a);
            assert(b.subrange(0, 0) =~= Seq::<PeerState>::empty());
        }
        while j < removed_v6.len()
            invariant
                a == removed_v4@,
                b == removed_v6@,
                j <= b.len(),
                tags@.len() == a.len() + j,
                tags@ == a.map_values(|p: PeerState| p.client_tag) + b.subrange(0, j as int).map_values(
                    |p: PeerState| p.client_tag,
                ),
                expired_complete == complete_count(a) + complete_count(b.subrange(0, j as int)),
                complete_count(a) <= a.len(),
                complete_count(b) <= b.len(),
                a.len() + b.len() <= old(self).peer_count(),
                old(self).peer_count() <= usize::MAX,
            decreases b.len() - j,
        {
            proof {
                lemma_complete_count_step(b, j as int);
                lemma_complete_count_prefix(b, j as int + 1);
            }
            let p = removed_v6[j];
            proof {
                assert(b.subrange(0, j + 1).map_values(|p: PeerState| p.client_tag) =~= b.subrange(
                    0,
                    j as int,
                ).map_values(|p: PeerState| p.client_tag).push(p.client_tag));
            }
            tags.push(p.client_tag);
            if p.is_complete() {
                expired_complete = expired_complete + 1;
            }
            j = j + 1;
        }
        proof {
            assert(b.subrange(0, b.len() as int) =~= b);
            let sa = stale_states(old(self).ipv4_peers@, now_secs, timeout_secs);
            let sb = stale_states(old(self).ipv6_peers@, now_secs, timeout_secs);
            let f = |p: PeerState| p.client_tag;
            assert(tags@ =~= (a + b).map_values(f));
            assert((sa + sb).map_values(f) =~= sa.map_values(f) + sb.map_values(f));
            assert((a + b).map_values(f) =~= a.map_values(f) + b.map_values(f));
            vstd::seq_lib::lemma_multiset_commutative(a, b);
            vstd::seq_lib::lemma_multiset_commutative(sa, sb);
            lemma_map_same_multiset(a + b, sa + sb, f);
            vstd::seq_lib::lemma_multiset_commutative(sa.map_values(f), sb.map_values(f));
            assert forall|t: u8| #[trigger] swarm_tagged(*self, t) + expired_tags(*old(self), now_secs, timeout_secs).to_multiset().count(t)
                == swarm_tagged(*old(self), t) by {
                lemma_tagged_retain(old(self).ipv4_peers@, self.ipv4_peers@, now_secs, timeout_secs, t);
                lemma_tagged_retain(old(self).ipv6_peers@, self.ipv6_peers@, now_secs, timeout_secs, t);
            }
        }
        proof {
            lemma_whole_slots(old(self).ipv4_peers.bytes@.len() as int, 12);
            lemma_whole_slots(old(self).ipv6_peers.bytes@.len() as int, 24);
            lemma_whole_slots(self.ipv4_peers.bytes@.len() as int, 12);
            lemma_whole_slots(self.ipv6_peers.bytes@.len() as int, 24);
        }
        let ghost retained = *self;
        self.ipv4_peers.shrink_if_idle();
        self.ipv6_peers.shrink_if_idle();
        let expired_count = removed_v4.len() + removed_v6.len();
        self.complete = if (self.complete as usize) >= expired_complete {
            self.complete - (expired_complete as u32)
        } else {
            0
        };
        proof {
            assert forall|t: u8| #[trigger] swarm_tagged(*self, t) + expired_tags(*old(self), now_secs, timeout_secs).to_multiset().count(t)
                == swarm_tagged(*old(self), t) by {
                assert(swarm_tagged(retained, t) == swarm_tagged(*self, t));
            }
        }
        ExpireResult { tags, removed_peers: expired_count, removed_complete: expired_complete }
    }

    /// The number of peers.
    pub fn len(&self) -> (r: usize)
        requires
            self.wf(),
        ensures
            r == self.peer_count(),
    {
        proof {
            self.lemma_peer_count_bound();
        }
        self.ipv4_peers.len() + self.ipv6_peers.len()
    }

    /// Whether the swarm has no peers.
    pub fn is_empty(&self) -> (r: bool)
        requires
            self.wf(),
        ensures
            r == (self.peer_count() == 0),
    {
        self.ipv4_peers.is_empty() && self.ipv6_peers.is_empty()
    }

    /// Scrape statistics: seeders as counted, completions, and the other peers.
    pub fn stats(&self) -> (r: TorrentStats)
        requires
            self.wf(),
        ensures
            r.complete == self.complete,
            r.downloaded == self.downloaded,
            r.incomplete == if self.peer_count() >= self.complete {
                self.peer_count() - self.complete
            } else {
                0
            },
    {
        let complete = self.complete as usize;
        let n = self.len();
        TorrentStats { complete, downloaded: self.downloaded, incomplete: n.saturating_sub(complete) }
    }

    /// The compact keys of the IPv4 store that the requester's own key excludes.
    pub open spec fn v4_excluded(ep: PeerEndpoint) -> Option<Seq<u8>> {
        match ep {
            PeerEndpoint::V4(k) => Some(v4_bytes(k)),
            PeerEndpoint::V6(_) => None,
        }
    }

    /// The compact keys of the IPv6 store that the requester's own key excludes.
    pub open spec fn v6_excluded(ep: PeerEndpoint) -> Option<Seq<u8>> {
        match ep {
            PeerEndpoint::V4(_) => None,
            PeerEndpoint::V6(k) => Some(v6_bytes(k)),
        }
    }

    /// `a` and `b` are compact IPv4 and IPv6 keys of at most `bound` distinct
    /// peers of the swarm, none of them `ep`.
    pub open spec fn valid_picks(&self, ep: PeerEndpoint, a: Seq<u8>, b: Seq<u8>, bound: int) -> bool {
        exists|ks4: Seq<Seq<u8>>, ks6: Seq<Seq<u8>>|
            #![trigger flatten(ks4), flatten(ks6)]
            {
                &&& a == flatten(ks4)
                &&& b == flatten(ks6)
                &&& picked_from(ks4, self.ipv4_peers@, Self::v4_excluded(ep), 6)
                &&& picked_from(ks6, self.ipv6_peers@, Self::v6_excluded(ep), 18)
                &&& distinct_keys(ks4) && distinct_keys(ks6)
                &&& ks4.len() + ks6.len() <= bound
            }
    }

    /// How many peers an answer to `ep` may hold: at most `limit`, and no more
    /// than are stored.
    pub open spec fn pick_bound(&self, ep: PeerEndpoint, limit: int) -> int {
        min(limit, self.peer_count() as int)
    }

    /// How many stored peers are not the requester.
    pub open spec fn others_count(&self, ep: PeerEndpoint) -> int {
        self.peer_count() - if self.peer(ep) is Some {
            1int
        } else {
            0int
        }
    }

    /// The answer to `ep` from a swarm of at most `limit + 1` peers: the
    /// peers other than `ep` in stored order, IPv4 ones first, cut to `limit`.
    pub open spec fn first_contacts(&self, ep: PeerEndpoint, limit: nat) -> (Seq<u8>, Seq<u8>) {
        let k4 = kept_keys(self.ipv4_peers@, Self::v4_excluded(ep));
        let k6 = kept_keys(self.ipv6_peers@, Self::v6_excluded(ep));
        let m4 = min(k4.len() as int, limit as int);
        let m6 = min(k6.len() as int, limit - m4);
        (flatten(k4.subrange(0, m4)), flatten(k6.subrange(0, m6)))
    }

    /// The random answer to `ep`: each family's pick from a generator seeded
    /// with `seed` (the IPv4 pick first, the IPv6 pick going on from the state
    /// it left), in the shares that [`allocate_v4_v6`] gives for one more than
    /// `limit` (room for the requester itself), then cut to `limit` peers,
    /// IPv4 ones first.
    pub open spec fn random_contacts(&self, ep: PeerEndpoint, limit: nat, seed: u64) -> (Seq<u8>, Seq<u8>) {
        let shares = allocation(self.ipv4_peers@.len() as int, self.ipv6_peers@.len() as int, limit + 1int);
        let p4 = random_pick(self.ipv4_peers@, Self::v4_excluded(ep), shares.0 as nat, seed | 1);
        let p6 = random_pick(self.ipv6_peers@, Self::v6_excluded(ep), shares.1 as nat, p4.1);
        let m4 = min(p4.0.len() as int, limit as int);
        (flatten(p4.0.subrange(0, m4)), flatten(p6.0.subrange(0, limit - m4)))
    }

    /// Up to `limit` peers other than the requester, as compact IPv4 and IPv6
    /// bytes. A swarm of at most `limit + 1` peers is handed out in stored
    /// order (but for the requester), cut to `limit`; a larger one gets a
    /// random pick seeded with `rng_seed`, split between the families by
    /// [`allocate_v4_v6`].
    pub fn contacts_excluding(&self, requesting_endpoint: PeerEndpoint, limit: usize, rng_seed: u64) -> (r: (
        Vec<u8>,
        Vec<u8>,
    ))
        requires
            self.wf(),
        ensures
            self.valid_picks(requesting_endpoint, r.0@, r.1@, self.pick_bound(requesting_endpoint, limit as int)),
            limit == 0 || self.peer_count() == 0 ==> r.0@.len() == 0 && r.1@.len() == 0,
            limit > 0 && 0 < self.peer_count() && self.others_count(requesting_endpoint) <= limit ==> r.0@ == compact_keys(
                self.ipv4_peers@,
                Self::v4_excluded(requesting_endpoint),
            ) && r.1@ == compact_keys(self.ipv6_peers@, Self::v6_excluded(requesting_endpoint)),
            limit > 0 && 0 < self.peer_count() <= limit + 1 ==> (r.0@, r.1@) == self.first_contacts(
                requesting_endpoint,
                limit as nat,
            ),
            limit > 0 && self.others_count(requesting_endpoint) > limit ==> r.0@.len() % 6 == 0 && r.1@.len() % 18 == 0
                && r.0@.len() / 6 + r.1@.len() / 18 == limit,
            limit > 0 && self.peer_count() > limit + 1 ==> (r.0@, r.1@) == self.random_contacts(
                requesting_endpoint,
                limit as nat,
                rng_seed,
            ),
    {
        if limit == 0 || self.is_empty() {
            proof {
                let ks = Seq::<Seq<u8>>::empty();
                assert(flatten(ks) =~= Seq::<u8>::empty());
                assert(self.valid_picks(requesting_endpoint, flatten(ks), flatten(ks), 0));
            }
            return (Vec::new(), Vec::new());
        }
        let total = self.len();
        if total - 1 <= limit {
            let (mut a, mut b) = self.pick_all(requesting_endpoint);
            let ghost k4 = kept_keys(self.ipv4_peers@, Self::v4_excluded(requesting_endpoint));
            let ghost k6 = kept_keys(self.ipv6_peers@, Self::v6_excluded(requesting_endpoint));
            cut_to_limit(&mut a, &mut b, limit, Ghost(k4), Ghost(k6));
            proof {
                let (m4, m6) = choose|m4: int, m6: int|
                    #![trigger k4.subrange(0, m4), k6.subrange(0, m6)]
                    0 <= m4 <= k4.len() && 0 <= m6 <= k6.len() && m4 + m6 == min(limit as int, (k4.len() + k6.len()) as int)
                        && (m4 == k4.len() || m6 == 0) && a@ == flatten(k4.subrange(0, m4)) && b@ == flatten(
                        k6.subrange(0, m6),
                    );
                let f4 = k4.subrange(0, m4);
                let f6 = k6.subrange(0, m6);
                lemma_kept_keys_distinct(self.ipv4_peers@, Self::v4_excluded(requesting_endpoint));
                lemma_kept_keys_distinct(self.ipv6_peers@, Self::v6_excluded(requesting_endpoint));
                assert forall|i: int, j: int| 0 <= i < j < f4.len() implies #[trigger] f4[i] != #[trigger] f4[j] by {
                    assert(f4[i] == k4[i] && f4[j] == k4[j]);
                }
                assert forall|i: int, j: int| 0 <= i < j < f6.len() implies #[trigger] f6[i] != #[trigger] f6[j] by {
                    assert(f6[i] == k6[i] && f6[j] == k6[j]);
                }
                assert forall|j: int| 0 <= j < f4.len() implies has_key(self.ipv4_peers@, #[trigger] f4[j])
                    && Self::v4_excluded(requesting_endpoint) != Some(f4[j]) && f4[j].len() == 6 by {
                    assert(f4[j] == k4[j]);
                }
                assert forall|j: int| 0 <= j < f6.len() implies has_key(self.ipv6_peers@, #[trigger] f6[j])
                    && Self::v6_excluded(requesting_endpoint) != Some(f6[j]) && f6[j].len() == 18 by {
                    assert(f6[j] == k6[j]);
                }
                if m4 == k4.len() {
                    assert(f4 =~= k4);
                }
                if m6 == k6.len() {
                    assert(f6 =~= k6);
                }
                lemma_flatten_len(f4, 6);
                lemma_flatten_len(f6, 18);
                assert((6 * f4.len()) % 6 == 0 && (6 * f4.len()) / 6 == f4.len()) by (nonlinear_arith);
                assert((18 * f6.len()) % 18 == 0 && (18 * f6.len()) / 18 == f6.len()) by (nonlinear_arith);
                assert(m4 == min(k4.len() as int, limit as int));
                assert(m6 == min(k6.len() as int, limit - m4));
                assert((a@, b@) == self.first_contacts(requesting_endpoint, limit as nat));
            }
            (a, b)
        } else {
            self.pick_random(requesting_endpoint, limit, rng_seed)
        }
    }

    fn pick_all(&self, ep: PeerEndpoint) -> (r: (Vec<u8>, Vec<u8>))
        requires
            self.wf(),
        ensures
            r.0@ == compact_keys(self.ipv4_peers@, Self::v4_excluded(ep)),
            r.1@ == compact_keys(self.ipv6_peers@, Self::v6_excluded(ep)),
            self.valid_picks(ep, r.0@, r.1@, self.others_count(ep)),
            kept_keys(self.ipv4_peers@, Self::v4_excluded(ep)).len() + kept_keys(
                self.ipv6_peers@,
                Self::v6_excluded(ep),
            ).len() == self.others_count(ep),
            picked_from(kept_keys(self.ipv4_peers@, Self::v4_excluded(ep)), self.ipv4_peers@, Self::v4_excluded(ep), 6),
            picked_from(kept_keys(self.ipv6_peers@, Self::v6_excluded(ep)), self.ipv6_peers@, Self::v6_excluded(ep), 18),
    {
        let ghost e4 = self.ipv4_peers@;
        let ghost e6 = self.ipv6_peers@;
        let ghost x4 = Self::v4_excluded(ep);
        let ghost x6 = Self::v6_excluded(ep);
        let (v4_exclude, v6_exclude) = match ep {
            PeerEndpoint::V4(key) => (Some(key), None),
            PeerEndpoint::V6(key) => (None, Some(key)),
        };
        let mut a: Vec<u8> = Vec::new();
        let mut b: Vec<u8> = Vec::new();
        self.ipv4_peers.append_compact(v4_exclude, &mut a);
        self.ipv6_peers.append_compact(v6_exclude, &mut b);
        proof {
            crate::packed::lemma_key_lengths(self.ipv4_peers.bytes@, 6);
            crate::packed::lemma_key_lengths(self.ipv6_peers.bytes@, 18);
            crate::packed::lemma_kept_keys(e4, x4, 6);
            crate::packed::lemma_kept_keys(e6, x6, 18);
            crate::packed::lemma_kept_keys_len(e4, x4);
            crate::packed::lemma_kept_keys_len(e6, x6);
            lemma_kept_keys_distinct(e4, x4);
            lemma_kept_keys_distinct(e6, x6);
            let ks4 = crate::packed::kept_keys(e4, x4);
            let ks6 = crate::packed::kept_keys(e6, x6);
            assert(a@ =~= flatten(ks4));
            assert(b@ =~= flatten(ks6));
            match ep {
                PeerEndpoint::V4(k) => {
                    if self.peer(ep) is Some {
                        assert(has_key(e4, v4_bytes(k)));
                    }
                },
                PeerEndpoint::V6(k) => {
                    if self.peer(ep) is Some {
                        assert(has_key(e6, v6_bytes(k)));
                    }
                },
            }
        }
        (a, b)
    }

    #[verifier::rlimit(60)]
    fn pick_random(&self, ep: PeerEndpoint, limit: usize, rng_seed: u64) -> (r: (Vec<u8>, Vec<u8>))
        requires
            self.wf(),
            0 < limit,
            limit + 1 < self.peer_count(),
        ensures
            self.valid_picks(ep, r.0@, r.1@, limit as int),
            r.0@.len() % 6 == 0 && r.1@.len() % 18 == 0,
            r.0@.len() / 6 + r.1@.len() / 18 == limit,
            (r.0@, r.1@) == self.random_contacts(ep, limit as nat, rng_seed),
    {
        let ghost e4 = self.ipv4_peers@;
        let ghost e6 = self.ipv6_peers@;
        let ghost x4 = Self::v4_excluded(ep);
        let ghost x6 = Self::v6_excluded(ep);
        proof {
            self.lemma_peer_count_bound();
        }
        let (v4_exclude, v6_exclude) = match ep {
            PeerEndpoint::V4(key) => (Some(key), None),
            PeerEndpoint::V6(key) => (None, Some(key)),
        };
        // One more per family that holds the requester, so that `limit`
        // peers remain when the requester is drawn.
        let extra: usize = if v4_exclude.is_some() {
            1
        } else {
            0
        } + if v6_exclude.is_some() {
            1
        } else {
            0
        };
        let (v4_amount, v6_amount) = allocate_v4_v6(self.ipv4_peers.len(), self.ipv6_peers.len(), limit + extra);
        let mut rng = Rng::new(rng_seed);
        let mut a: Vec<u8> = Vec::new();
        let mut b: Vec<u8> = Vec::new();
        self.ipv4_peers.select_random_compact(v4_amount, &mut rng, v4_exclude, &mut a);
        self.ipv6_peers.select_random_compact(v6_amount, &mut rng, v6_exclude, &mut b);
        let ghost ks4 = random_pick(e4, x4, v4_amount as nat, rng_seed | 1).0;
        let ghost ks6 = random_pick(e6, x6, v6_amount as nat, random_pick(e4, x4, v4_amount as nat, rng_seed | 1).1).0;
        proof {
            assert(a@ =~= flatten(ks4));
            assert(b@ =~= flatten(ks6));
        }
        cut_to_limit(&mut a, &mut b, limit, Ghost(ks4), Ghost(ks6));
        proof {
            let (m4, m6) = choose|m4: int, m6: int|
                #![trigger ks4.subrange(0, m4), ks6.subrange(0, m6)]
                0 <= m4 <= ks4.len() && 0 <= m6 <= ks6.len() && m4 + m6 == min(limit as int, (ks4.len() + ks6.len()) as int)
                    && (m4 == ks4.len() || m6 == 0) && a@ == flatten(ks4.subrange(0, m4)) && b@ == flatten(ks6.subrange(0, m6));
            let f4 = ks4.subrange(0, m4);
            let f6 = ks6.subrange(0, m6);
            assert forall|i: int, j: int| 0 <= i < j < f4.len() implies #[trigger] f4[i] != #[trigger] f4[j] by {
                assert(f4[i] == ks4[i] && f4[j] == ks4[j]);
            }
            assert forall|i: int, j: int| 0 <= i < j < f6.len() implies #[trigger] f6[i] != #[trigger] f6[j] by {
                assert(f6[i] == ks6[i] && f6[j] == ks6[j]);
            }
            assert forall|j: int| 0 <= j < f4.len() implies has_key(e4, #[trigger] f4[j]) && x4 != Some(f4[j])
                && f4[j].len() == 6 by {
                assert(f4[j] == ks4[j]);
            }
            assert forall|j: int| 0 <= j < f6.len() implies has_key(e6, #[trigger] f6[j]) && x6 != Some(f6[j])
                && f6[j].len() == 18 by {
                assert(f6[j] == ks6[j]);
            }
            assert(a@ == flatten(f4) && b@ == flatten(f6));
            assert(ks4.len() + ks6.len() >= limit);
            lemma_flatten_len(f4, 6);
            lemma_flatten_len(f6, 18);
            assert((6 * f4.len()) % 6 == 0 && (6 * f4.len()) / 6 == f4.len()) by (nonlinear_arith);
            assert((18 * f6.len()) % 18 == 0 && (18 * f6.len()) / 18 == f6.len()) by (nonlinear_arith);
            assert(extra == 1);
            assert(m4 == min(ks4.len() as int, limit as int));
            assert((a@, b@) == self.random_contacts(ep, limit as nat, rng_seed));
        }
        (a, b)
    }

    /// The endpoints with a state stored in the swarm.
    pub open spec fn stored_endpoints(&self) -> Set<PeerEndpoint> {
        Set::new(|e: PeerEndpoint| self.peer(e) is Some)
    }

    /// The peer count is the number of endpoints with a stored state.
    pub proof fn lemma_peer_count_endpoints(&self)
        requires
            self.wf(),
        ensures
            self.stored_endpoints().finite(),
            self.stored_endpoints().len() == self.peer_count(),
    {
        let e4 = self.ipv4_peers@;
        let e6 = self.ipv6_peers@;
        crate::packed::lemma_key_lengths(self.ipv4_peers.bytes@, 6);
        crate::packed::lemma_key_lengths(self.ipv6_peers.bytes@, 18);
        let k4 = crate::packed::entry_keys(e4);
        let k6 = crate::packed::entry_keys(e6);
        assert(k4.no_duplicates()) by {
            assert forall|i: int, j: int| 0 <= i < k4.len() && 0 <= j < k4.len() && i != j implies k4[i] != k4[j] by {
                assert(k4[i] == e4[i].0 && k4[j] == e4[j].0);
            }
        }
        assert(k6.no_duplicates()) by {
            assert forall|i: int, j: int| 0 <= i < k6.len() && 0 <= j < k6.len() && i != j implies k6[i] != k6[j] by {
                assert(k6[i] == e6[i].0 && k6[j] == e6[j].0);
            }
        }
        k4.unique_seq_to_set();
        k6.unique_seq_to_set();
        let f4 = |b: Seq<u8>| PeerEndpoint::V4(v4_key_of(b));
        let f6 = |b: Seq<u8>| PeerEndpoint::V6(v6_key_of(b));
        let s4 = k4.to_set();
        let s6 = k6.to_set();
        assert forall|b: Seq<u8>| #[trigger] s4.contains(b) implies b.len() == 6 && has_key(e4, b) by {
            let i = choose|i: int| 0 <= i < k4.len() && k4[i] == b;
            assert(e4[i].0 == b);
        }
        assert forall|b: Seq<u8>| #[trigger] s6.contains(b) implies b.len() == 18 && has_key(e6, b) by {
            let i = choose|i: int| 0 <= i < k6.len() && k6[i] == b;
            assert(e6[i].0 == b);
        }
        assert(vstd::relations::injective_on(f4, s4)) by {
            assert forall|x: Seq<u8>, y: Seq<u8>| s4.contains(x) && s4.contains(y) && #[trigger] f4(x) == #[trigger] f4(y) implies x == y by {
                lemma_v4_key_of(x);
                lemma_v4_key_of(y);
            }
        }
        assert(vstd::relations::injective_on(f6, s6)) by {
            assert forall|x: Seq<u8>, y: Seq<u8>| s6.contains(x) && s6.contains(y) && #[trigger] f6(x) == #[trigger] f6(y) implies x == y by {
                lemma_v6_key_of(x);
                lemma_v6_key_of(y);
            }
        }
        let m4 = s4.map(f4);
        let m6 = s6.map(f6);
        vstd::set_lib::lemma_map_size(s4, m4, f4);
        vstd::set_lib::lemma_map_size(s6, m6, f6);
        assert(m4.disjoint(m6));
        vstd::set_lib::lemma_set_disjoint_lens(m4, m6);
        assert(self.stored_endpoints() =~= m4 + m6) by {
            assert forall|e: PeerEndpoint| #[trigger] self.stored_endpoints().contains(e) implies (m4 + m6).contains(e) by {
                match e {
                    PeerEndpoint::V4(k) => {
                        let b = v4_bytes(k);
                        let i = choose|i: int| 0 <= i < e4.len() && (#[trigger] e4[i]).0 == b;
                        assert(k4[i] == b);
                        assert(s4.contains(b));
                        lemma_v4_key_of(b);
                        lemma_v4_bytes_injective(v4_key_of(b), k);
                        assert(f4(b) == e);
                    },
                    PeerEndpoint::V6(k) => {
                        let b = v6_bytes(k);
                        let i = choose|i: int| 0 <= i < e6.len() && (#[trigger] e6[i]).0 == b;
                        assert(k6[i] == b);
                        assert(s6.contains(b));
                        lemma_v6_key_of(b);
                        lemma_v6_bytes_injective(v6_key_of(b), k);
                        assert(f6(b) == e);
                    },
                }
            }
            assert forall|e: PeerEndpoint| #[trigger] (m4 + m6).contains(e) implies self.stored_endpoints().contains(e) by {
                if m4.contains(e) {
                    let b = choose|b: Seq<u8>| s4.contains(b) && f4(b) == e;
                    lemma_v4_key_of(b);
                } else {
                    let b = choose|b: Seq<u8>| s6.contains(b) && f6(b) == e;
                    lemma_v6_key_of(b);
                }
            }
        }
    }

    /// Two swarms that agree on every endpoint but `ep` differ in peer count
    /// only by whether `ep` is stored.
    pub proof fn lemma_peer_count_frame(&self, other: &Swarm, ep: PeerEndpoint)
        requires
            self.wf(),
            other.wf(),
            forall|e: PeerEndpoint| e != ep ==> #[trigger] other.peer(e) == self.peer(e),
        ensures
            other.peer_count() + (if self.peer(ep) is Some {
                1int
            } else {
                0int
            }) == self.peer_count() + (if other.peer(ep) is Some {
                1int
            } else {
                0int
            }),
    {
        self.lemma_peer_count_endpoints();
        other.lemma_peer_count_endpoints();
        let a = self.stored_endpoints();
        let b = other.stored_endpoints();
        assert(a.remove(ep) =~= b.remove(ep));
        if a.contains(ep) {
            assert(a.remove(ep).len() == a.len() - 1);
        } else {
            assert(a.remove(ep) =~= a);
        }
        if b.contains(ep) {
            assert(b.remove(ep).len() == b.len() - 1);
        } else {
            assert(b.remove(ep) =~= b);
        }
    }

    /// A swarm without peers has no state for any endpoint.
    pub proof fn lemma_no_peers(&self, e: PeerEndpoint)
        requires
            self.peer_count() == 0,
        ensures
            self.peer(e) is None,
    {
        match e {
            PeerEndpoint::V4(k) => crate::packed::lemma_lookup_absent(self.ipv4_peers@, v4_bytes(k)),
            PeerEndpoint::V6(k) => crate::packed::lemma_lookup_absent(self.ipv6_peers@, v6_bytes(k)),
        }
    }

    /// The peer count fits comfortably in a `usize`.
    pub proof fn lemma_peer_count_bound(&self)
        requires
            self.wf(),
        ensures
            8 * self.peer_count() <= usize::MAX,
    {
        assert(self.ipv4_peers.bytes.len() == self.ipv4_peers.bytes@.len());
        assert(self.ipv6_peers.bytes.len() == self.ipv6_peers.bytes@.len());
        lemma_whole_slots(self.ipv4_peers.bytes@.len() as int, 12);
        lemma_whole_slots(self.ipv6_peers.bytes@.len() as int, 24);
        assert(self.ipv4_peers.bytes@.len() as int / 12 == self.ipv4_peers@.len());
        assert(self.ipv6_peers.bytes@.len() as int / 24 == self.ipv6_peers@.len());
    }

    fn remove_from_counters(&mut self, peer: &PeerState)
        ensures
            *final(self) == (Swarm {
                complete: if peer.complete {
                    dec_u32(old(self).complete)
                } else {
                    old(self).complete
                },
                ..*old(self)
            }),
    {
        if peer.is_complete() {
            self.complete = self.complete.saturating_sub(1);
        }
    }
}

/// Cuts compact IPv6 keys first, then IPv4 keys, so that at most `limit`
/// keys remain.
fn cut_to_limit(a: &mut Vec<u8>, b: &mut Vec<u8>, limit: usize, Ghost(ks4): Ghost<Seq<Seq<u8>>>, Ghost(ks6): Ghost<Seq<Seq<u8>>>)
    requires
        old(a)@ == flatten(ks4),
        old(b)@ == flatten(ks6),
        forall|j: int| 0 <= j < ks4.len() ==> (#[trigger] ks4[j]).len() == 6,
        forall|j: int| 0 <= j < ks6.len() ==> (#[trigger] ks6[j]).len() == 18,
    ensures
        exists|m4: int, m6: int|
            #![trigger ks4.subrange(0, m4), ks6.subrange(0, m6)]
            0 <= m4 <= ks4.len() && 0 <= m6 <= ks6.len() && m4 + m6 == min(limit as int, (ks4.len() + ks6.len()) as int)
                && (m4 == ks4.len() || m6 == 0) && final(a)@ == flatten(ks4.subrange(0, m4)) && final(b)@ == flatten(
                ks6.subrange(0, m6),
            ),
{
    proof {
        lemma_flatten_len(ks4, 6);
        lemma_flatten_len(ks6, 18);
        assert(a.len() == a@.len() && b.len() == b@.len());
        assert((6 * ks4.len()) / 6 == ks4.len()) by (nonlinear_arith);
        assert((18 * ks6.len()) / 18 == ks6.len()) by (nonlinear_arith);
    }
    let v4_count = a.len() / 6;
    let v6_count = b.len() / 18;
    let excess = (v4_count + v6_count).saturating_sub(limit);
    let mut m4 = v4_count;
    let mut m6 = v6_count;
    if excess > 0 {
        let v6_remove = if excess < v6_count {
            excess
        } else {
            v6_count
        };
        m6 = v6_count - v6_remove;
        proof {
            lemma_flatten_prefix(ks6, 18, m6 as int);
        }
        b.truncate(m6 * 18);
        let v4_remove = excess - v6_remove;
        if v4_remove > 0 {
            m4 = v4_count - v4_remove;
            proof {
                lemma_flatten_prefix(ks4, 6, m4 as int);
            }
            a.truncate(m4 * 6);
        }
    }
    proof {
        if m4 == v4_count {
            assert(ks4.subrange(0, m4 as int) =~= ks4);
        }
        if m6 == v6_count {
            assert(ks6.subrange(0, m6 as int) =~= ks6);
        }
        assert(a@ == flatten(ks4.subrange(0, m4 as int)));
        assert(b@ == flatten(ks6.subrange(0, m6 as int)));
    }
}

/// Complete peers are at most all peers.
pub proof fn lemma_complete_count_bound(s: Seq<PeerState>)
    ensures
        complete_count(s) <= s.len(),
    decreases s.len(),
{
    if s.len() > 0 {
        lemma_complete_count_bound(s.drop_last());
    }
}

/// Counting over two runs adds up.
pub proof fn lemma_complete_count_concat(a: Seq<PeerState>, b: Seq<PeerState>)
    ensures
        complete_count(a + b) == complete_count(a) + complete_count(b),
    decreases b.len(),
{
    if b.len() == 0 {
        assert(a + b =~= a);
    } else {
        lemma_complete_count_concat(a, b.drop_last());
        assert((a + b).drop_last() =~= a + b.drop_last());
    }
}

/// Counting a prefix one longer adds the next state.
pub proof fn lemma_complete_count_step(s: Seq<PeerState>, i: int)
    requires
        0 <= i < s.len(),
    ensures
        complete_count(s.subrange(0, i + 1)) == complete_count(s.subrange(0, i)) + if s[i].complete {
            1nat
        } else {
            0nat
        },
{
    assert(s.subrange(0, i + 1).drop_last() =~= s.subrange(0, i));
}

/// A prefix counts no more than its length.
pub proof fn lemma_complete_count_prefix(s: Seq<PeerState>, i: int)
    requires
        0 <= i <= s.len(),
    ensures
        complete_count(s.subrange(0, i)) <= complete_count(s),
    decreases s.len() - i,
{
    if i < s.len() {
        lemma_complete_count_prefix(s, i + 1);
        lemma_complete_count_step(s, i);
    } else {
        assert(s.subrange(0, i) =~= s);
    }
}

/// The IPv4 endpoint whose compact form is `b`.
pub open spec fn v4_key_of(b: Seq<u8>) -> Ipv4PeerKey {
    Ipv4PeerKey { ip: [b[0], b[1], b[2], b[3]], port: ((b[4] as u16) << 8u16) | (b[5] as u16) }
}

/// The IPv6 endpoint whose compact form is `b`.
pub open spec fn v6_key_of(b: Seq<u8>) -> Ipv6PeerKey {
    Ipv6PeerKey {
        ip: [b[0], b[1], b[2], b[3], b[4], b[5], b[6], b[7], b[8], b[9], b[10], b[11], b[12], b[13], b[14], b[15]],
        port: ((b[16] as u16) << 8u16) | (b[17] as u16),
    }
}

/// A port is its two bytes, high one first.
proof fn lemma_port_of_bytes(hi: u8, lo: u8)
    ensures
        port_bytes(((hi as u16) << 8u16) | (lo as u16)) == seq![hi, lo],
{
    let port: u16 = ((hi as u16) << 8u16) | (lo as u16);
    assert((port >> 8u16) as u8 == hi && port as u8 == lo) by (bit_vector)
        requires
            port == ((hi as u16) << 8u16) | (lo as u16),
    ;
    assert(port_bytes(port) =~= seq![hi, lo]);
}

/// Every six bytes are the compact form of one IPv4 endpoint.
pub proof fn lemma_v4_key_of(b: Seq<u8>)
    requires
        b.len() == 6,
    ensures
        v4_bytes(v4_key_of(b)) == b,
{
    lemma_port_of_bytes(b[4], b[5]);
    assert(v4_key_of(b).ip@ =~= b.subrange(0, 4));
    assert(v4_bytes(v4_key_of(b)) =~= b);
}

/// Every eighteen bytes are the compact form of one IPv6 endpoint.
pub proof fn lemma_v6_key_of(b: Seq<u8>)
    requires
        b.len() == 18,
    ensures
        v6_bytes(v6_key_of(b)) == b,
{
    lemma_port_of_bytes(b[16], b[17]);
    assert(v6_key_of(b).ip@ =~= b.subrange(0, 16));
    assert(v6_bytes(v6_key_of(b)) =~= b);
}

} // verus!
