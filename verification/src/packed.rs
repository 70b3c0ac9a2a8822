//! Byte-packed peer storage. Each IPv4 peer takes a 12-byte entry and each
//! IPv6 peer a 24-byte entry: the compact endpoint bytes, a flags byte, the
//! client tag and the big-endian last-seen time. Small stores keep insertion
//! order; from [`PROMOTE_THRESHOLD`] entries on they are kept sorted by key
//! and searched by bisection, until they shrink below [`DEMOTE_THRESHOLD`].
use vstd::prelude::*;
use vstd::arithmetic::div_mod::{lemma_div_multiples_vanish, lemma_fundamental_div_mod};
use vstd::arithmetic::power2::pow2;
use crate::order::{bytes_lt, strictly_sorted, compare_bytes, Order, lemma_lt_irreflexive, lemma_lt_transitive};
use crate::types::{
    PeerState, Ipv4PeerKey, Ipv6PeerKey, v4_bytes, v6_bytes, be16, lemma_be16_bytes,
    lemma_v4_bytes_injective, lemma_v6_bytes_injective,
};

verus! {

pub const FLAG_COMPLETE: u8 = 1;
pub const IPV4_ENTRY_LEN: usize = 12;
pub const IPV6_ENTRY_LEN: usize = 24;
pub const PROMOTE_THRESHOLD: usize = 16;
pub const DEMOTE_THRESHOLD: usize = 8;

// ── Entry bytes ──────────────────────────────────────────────────────────────

/// The flags byte of a peer state.
pub open spec fn flag_byte(complete: bool) -> u8 {
    if complete {
        1
    } else {
        0
    }
}

/// The 32-bit value of four big-endian bytes.
pub open spec fn be32(b0: u8, b1: u8, b2: u8, b3: u8) -> u32 {
    ((b0 as u32) << 24u32) | ((b1 as u32) << 16u32) | ((b2 as u32) << 8u32) | (b3 as u32)
}

/// The six state bytes of an entry: flags, client tag, big-endian last-seen time.
pub open spec fn state_bytes(s: PeerState) -> Seq<u8> {
    let t = s.last_seen_secs;
    seq![
        flag_byte(s.complete),
        s.client_tag,
        (t >> 24u32) as u8,
        (t >> 16u32) as u8,
        (t >> 8u32) as u8,
        t as u8,
    ]
}

/// The peer state that six state bytes denote.
pub open spec fn decode_state(e: Seq<u8>) -> PeerState {
    PeerState {
        complete: e[0] & 1u8 != 0u8,
        last_seen_secs: be32(e[2], e[3], e[4], e[5]),
        client_tag: e[1],
    }
}

/// One stored peer: its compact key bytes and its state.
pub type Entry = (Seq<u8>, PeerState);

/// The bytes of an entry.
pub open spec fn encode_entry(k: Seq<u8>, s: PeerState) -> Seq<u8> {
    k + state_bytes(s)
}

/// The entry that the bytes `e` of one slot denote, for keys of `klen` bytes.
pub open spec fn decode_entry(e: Seq<u8>, klen: int) -> Entry {
    (e.subrange(0, klen), decode_state(e.subrange(klen, klen + 6)))
}

/// Slot `i` of width `w`.
pub open spec fn slot(b: Seq<u8>, w: int, i: int) -> Seq<u8> {
    b.subrange(w * i, w * i + w)
}

/// The entries that the bytes `b` hold, for keys of `klen` bytes.
pub open spec fn decode_entries(b: Seq<u8>, klen: int) -> Seq<Entry> {
    Seq::new((b.len() as int / (klen + 6)) as nat, |i: int| decode_entry(slot(b, klen + 6, i), klen))
}

/// The number of seeders among entries.
pub open spec fn seeders(e: Seq<Entry>) -> nat
    decreases e.len(),
{
    if e.len() == 0 {
        0
    } else {
        seeders(e.drop_last()) + if e.last().1.complete {
            1nat
        } else {
            0nat
        }
    }
}

/// No two entries share a key.
pub open spec fn unique_keys(e: Seq<Entry>) -> bool {
    forall|i: int, j: int| 0 <= i < e.len() && 0 <= j < e.len() && i != j ==> (#[trigger] e[i]).0 != (#[trigger] e[j]).0
}

/// The keys of entries, in order.
pub open spec fn entry_keys(e: Seq<Entry>) -> Seq<Seq<u8>> {
    e.map_values(|x: Entry| x.0)
}

/// Some entry has key `k`.
pub open spec fn has_key(e: Seq<Entry>, k: Seq<u8>) -> bool {
    exists|i: int| 0 <= i < e.len() && (#[trigger] e[i]).0 == k
}

/// The state stored under key `k`.
pub open spec fn lookup(e: Seq<Entry>, k: Seq<u8>) -> Option<PeerState> {
    if has_key(e, k) {
        Some(e[choose|i: int| 0 <= i < e.len() && (#[trigger] e[i]).0 == k].1)
    } else {
        None
    }
}

/// A peer last seen at `last` is still live at `now` with the given timeout.
pub open spec fn is_fresh(s: PeerState, now: u32, timeout: u32) -> bool {
    (if now >= s.last_seen_secs {
        now - s.last_seen_secs
    } else {
        0
    }) <= timeout
}

pub proof fn lemma_state_roundtrip(s: PeerState)
    ensures
        decode_state(state_bytes(s)) == s,
{
    let t = s.last_seen_secs;
    assert(be32((t >> 24u32) as u8, (t >> 16u32) as u8, (t >> 8u32) as u8, t as u8) == t)
        by (bit_vector);
    let f = flag_byte(s.complete);
    assert(f == 1u8 ==> f & 1u8 != 0u8) by (bit_vector);
    assert(f == 0u8 ==> f & 1u8 == 0u8) by (bit_vector);
}

pub proof fn lemma_entry_roundtrip(k: Seq<u8>, s: PeerState)
    ensures
        decode_entry(encode_entry(k, s), k.len() as int) == (k, s),
{
    lemma_state_roundtrip(s);
    let e = encode_entry(k, s);
    assert(e.subrange(0, k.len() as int) =~= k);
    assert(e.subrange(k.len() as int, k.len() as int + 6) =~= state_bytes(s));
}

pub proof fn lemma_lookup_at(e: Seq<Entry>, i: int)
    requires
        unique_keys(e),
        0 <= i < e.len(),
    ensures
        has_key(e, e[i].0),
        lookup(e, e[i].0) == Some(e[i].1),
{
    assert(has_key(e, e[i].0));
    let j = choose|j: int| 0 <= j < e.len() && (#[trigger] e[j]).0 == e[i].0;
    assert(j == i);
}

pub proof fn lemma_lookup_absent(e: Seq<Entry>, k: Seq<u8>)
    requires
        forall|i: int| 0 <= i < e.len() ==> (#[trigger] e[i]).0 != k,
    ensures
        !has_key(e, k),
        lookup(e, k) is None,
{
}

proof fn lemma_seeders_concat(a: Seq<Entry>, b: Seq<Entry>)
    ensures
        seeders(a + b) == seeders(a) + seeders(b),
    decreases b.len(),
{
    if b.len() == 0 {
        assert(a + b =~= a);
    } else {
        lemma_seeders_concat(a, b.drop_last());
        assert((a + b).drop_last() =~= a + b.drop_last());
    }
}

/// Seeder count of `e` split around index `i`.
pub proof fn lemma_seeders_split(e: Seq<Entry>, i: int)
    requires
        0 <= i < e.len(),
    ensures
        seeders(e) == seeders(e.subrange(0, i)) + (if e[i].1.complete {
            1nat
        } else {
            0nat
        }) + seeders(e.subrange(i + 1, e.len() as int)),
{
    let a = e.subrange(0, i);
    let c = e.subrange(i + 1, e.len() as int);
    assert(e =~= a.push(e[i]) + c);
    lemma_seeders_concat(a.push(e[i]), c);
    assert(a.push(e[i]).drop_last() =~= a);
}

pub proof fn lemma_seeders_update(e: Seq<Entry>, i: int, x: Entry)
    requires
        0 <= i < e.len(),
    ensures
        seeders(e.update(i, x)) + (if e[i].1.complete {
            1nat
        } else {
            0nat
        }) == seeders(e) + (if x.1.complete {
            1nat
        } else {
            0nat
        }),
{
    let u = e.update(i, x);
    lemma_seeders_split(e, i);
    lemma_seeders_split(u, i);
    assert(u.subrange(0, i) =~= e.subrange(0, i));
    assert(u.subrange(i + 1, u.len() as int) =~= e.subrange(i + 1, e.len() as int));
}

pub proof fn lemma_seeders_insert(e: Seq<Entry>, i: int, x: Entry)
    requires
        0 <= i <= e.len(),
    ensures
        seeders(e.insert(i, x)) == seeders(e) + (if x.1.complete {
            1nat
        } else {
            0nat
        }),
{
    let u = e.insert(i, x);
    lemma_seeders_split(u, i);
    assert(u.subrange(0, i) =~= e.subrange(0, i));
    assert(u.subrange(i + 1, u.len() as int) =~= e.subrange(i, e.len() as int));
    lemma_seeders_concat(e.subrange(0, i), e.subrange(i, e.len() as int));
    assert(e =~= e.subrange(0, i) + e.subrange(i, e.len() as int));
}

pub proof fn lemma_seeders_remove(e: Seq<Entry>, i: int)
    requires
        0 <= i < e.len(),
    ensures
        seeders(e.remove(i)) + (if e[i].1.complete {
            1nat
        } else {
            0nat
        }) == seeders(e),
{
    lemma_seeders_split(e, i);
    lemma_seeders_concat(e.subrange(0, i), e.subrange(i + 1, e.len() as int));
}

pub proof fn lemma_seeders_bound(e: Seq<Entry>)
    ensures
        seeders(e) <= e.len(),
    decreases e.len(),
{
    if e.len() > 0 {
        lemma_seeders_bound(e.drop_last());
    }
}

// ── Slot arithmetic ──────────────────────────────────────────────────────────

proof fn lemma_slot_bounds(w: int, k: int, n: int)
    by (nonlinear_arith)
    requires
        w > 0,
        0 <= k < n,
    ensures
        0 <= w * k,
        w * k + w <= w * n,
        w * (k + 1) == w * k + w,
        w * (n + 1) == w * n + w,
{
}

proof fn lemma_slot_order(w: int, a: int, b: int)
    by (nonlinear_arith)
    requires
        w > 0,
        0 <= a < b,
    ensures
        w * a + w <= w * b,
{
}

proof fn lemma_len_div(w: int, n: int)
    requires
        w > 0,
        n >= 0,
    ensures
        (w * n) / w == n,
        (w * n + w) / w == n + 1,
{
    lemma_div_multiples_vanish(n, w);
    lemma_div_multiples_vanish(n + 1, w);
    assert(w * (n + 1) == w * n + w) by (nonlinear_arith);
}

/// A byte length that is a whole number of slots.
pub proof fn lemma_whole_slots(len: int, w: int)
    requires
        w > 0,
        len >= 0,
        len % w == 0,
    ensures
        len == w * (len / w),
{
    lemma_fundamental_div_mod(len, w);
}

/// Replacing slot `i` replaces entry `i`.
pub proof fn lemma_entries_splice(b: Seq<u8>, klen: int, i: int, e: Seq<u8>)
    requires
        klen > 0,
        b.len() as int % (klen + 6) == 0,
        0 <= i < b.len() as int / (klen + 6),
        e.len() == klen + 6,
    ensures
        ({
            let w = klen + 6;
            let nb = b.subrange(0, w * i) + e + b.subrange(w * i + w, b.len() as int);
            &&& nb.len() == b.len()
            &&& decode_entries(nb, klen) == decode_entries(b, klen).update(i, decode_entry(e, klen))
        }),
{
    let w = klen + 6;
    let n = b.len() as int / w;
    lemma_whole_slots(b.len() as int, w);
    lemma_slot_bounds(w, i, n);
    let nb = b.subrange(0, w * i) + e + b.subrange(w * i + w, b.len() as int);
    assert(nb.len() == b.len());
    let old_e = decode_entries(b, klen);
    let new_e = decode_entries(nb, klen);
    assert forall|k: int| 0 <= k < n implies #[trigger] new_e[k] == old_e.update(
        i,
        decode_entry(e, klen),
    )[k] by {
        lemma_slot_bounds(w, k, n);
        if k < i {
            lemma_slot_order(w, k, i);
            assert(slot(nb, w, k) =~= slot(b, w, k));
        } else if k == i {
            assert(slot(nb, w, k) =~= e);
        } else {
            lemma_slot_order(w, i, k);
            assert(slot(nb, w, k) =~= slot(b, w, k));
        }
    }
    assert(new_e =~= old_e.update(i, decode_entry(e, klen)));
}

/// Appending a slot appends an entry.
pub proof fn lemma_entries_push(b: Seq<u8>, klen: int, e: Seq<u8>)
    requires
        klen > 0,
        b.len() as int % (klen + 6) == 0,
        e.len() == klen + 6,
    ensures
        (b + e).len() as int % (klen + 6) == 0,
        (b + e).len() as int / (klen + 6) == b.len() as int / (klen + 6) + 1,
        decode_entries(b + e, klen) == decode_entries(b, klen).push(decode_entry(e, klen)),
{
    let w = klen + 6;
    let n = b.len() as int / w;
    lemma_whole_slots(b.len() as int, w);
    lemma_len_div(w, n);
    let nb = b + e;
    assert(nb.len() == w * n + w);
    assert(nb.len() == w * (n + 1)) by {
        lemma_slot_bounds(w, n, n + 1);
    }
    lemma_div_multiples_vanish(n + 1, w);
    assert(nb.len() as int % w == 0) by {
        vstd::arithmetic::div_mod::lemma_mod_multiples_basic(n + 1, w);
        vstd::arithmetic::mul::lemma_mul_is_commutative(w, n + 1);
    }
    let old_e = decode_entries(b, klen);
    let new_e = decode_entries(nb, klen);
    assert forall|k: int| 0 <= k < n + 1 implies #[trigger] new_e[k] == old_e.push(
        decode_entry(e, klen),
    )[k] by {
        lemma_slot_bounds(w, k, n + 1);
        if k < n {
            lemma_slot_bounds(w, k, n);
            assert(slot(nb, w, k) =~= slot(b, w, k));
        } else {
            assert(slot(nb, w, k) =~= e);
        }
    }
    assert(new_e =~= old_e.push(decode_entry(e, klen)));
}

/// Keeping the first `m` slots keeps the first `m` entries.
pub proof fn lemma_entries_truncate(b: Seq<u8>, klen: int, m: int)
    requires
        klen > 0,
        b.len() as int % (klen + 6) == 0,
        0 <= m <= b.len() as int / (klen + 6),
    ensures
        b.subrange(0, (klen + 6) * m).len() as int % (klen + 6) == 0,
        decode_entries(b.subrange(0, (klen + 6) * m), klen) == decode_entries(b, klen).subrange(0, m),
{
    let w = klen + 6;
    let n = b.len() as int / w;
    lemma_whole_slots(b.len() as int, w);
    if m > 0 {
        lemma_slot_bounds(w, m - 1, n);
    }
    assert(w * m <= b.len()) by (nonlinear_arith)
        requires
            w > 0,
            m <= n,
            b.len() == w * n,
    ;
    assert(w * m >= 0) by (nonlinear_arith)
        requires
            w > 0,
            m >= 0,
    ;
    let nb = b.subrange(0, w * m);
    lemma_div_multiples_vanish(m, w);
    assert(nb.len() as int % w == 0) by {
        vstd::arithmetic::div_mod::lemma_mod_multiples_basic(m, w);
        vstd::arithmetic::mul::lemma_mul_is_commutative(w, m);
    }
    let old_e = decode_entries(b, klen);
    let new_e = decode_entries(nb, klen);
    assert forall|k: int| 0 <= k < m implies #[trigger] new_e[k] == old_e.subrange(0, m)[k] by {
        lemma_slot_bounds(w, k, m);
        lemma_slot_bounds(w, k, n);
        assert(slot(nb, w, k) =~= slot(b, w, k));
    }
    assert(new_e =~= old_e.subrange(0, m));
}

/// Inserting a slot at position `i` inserts an entry there.
pub proof fn lemma_entries_insert(b: Seq<u8>, klen: int, i: int, e: Seq<u8>)
    requires
        klen > 0,
        b.len() as int % (klen + 6) == 0,
        0 <= i <= b.len() as int / (klen + 6),
        e.len() == klen + 6,
    ensures
        ({
            let w = klen + 6;
            let nb = b.subrange(0, w * i) + e + b.subrange(w * i, b.len() as int);
            &&& nb.len() == b.len() + w
            &&& nb.len() as int % w == 0
            &&& decode_entries(nb, klen) == decode_entries(b, klen).insert(i, decode_entry(e, klen))
        }),
{
    let w = klen + 6;
    let n = b.len() as int / w;
    lemma_whole_slots(b.len() as int, w);
    assert(w * i <= w * n) by (nonlinear_arith)
        requires
            w > 0,
            i <= n,
    ;
    assert(w * i >= 0) by (nonlinear_arith)
        requires
            w > 0,
            i >= 0,
    ;
    let nb = b.subrange(0, w * i) + e + b.subrange(w * i, b.len() as int);
    assert(nb.len() == w * n + w);
    lemma_len_div(w, n);
    assert(nb.len() == w * (n + 1)) by {
        lemma_slot_bounds(w, n, n + 1);
    }
    assert(nb.len() as int % w == 0) by {
        vstd::arithmetic::div_mod::lemma_mod_multiples_basic(n + 1, w);
        vstd::arithmetic::mul::lemma_mul_is_commutative(w, n + 1);
    }
    let old_e = decode_entries(b, klen);
    let new_e = decode_entries(nb, klen);
    let target = old_e.insert(i, decode_entry(e, klen));
    assert forall|k: int| 0 <= k < n + 1 implies #[trigger] new_e[k] == target[k] by {
        lemma_slot_bounds(w, k, n + 1);
        if k < i {
            lemma_slot_order(w, k, i);
            lemma_slot_bounds(w, k, n);
            assert(slot(nb, w, k) =~= slot(b, w, k));
        } else if k == i {
            assert(slot(nb, w, k) =~= e);
        } else {
            lemma_slot_order(w, i, k);
            lemma_slot_bounds(w, k - 1, n);
            assert(slot(nb, w, k) =~= slot(b, w, k - 1));
        }
    }
    assert(new_e =~= target);
}

/// Removing slot `i` removes entry `i`.
pub proof fn lemma_entries_remove(b: Seq<u8>, klen: int, i: int)
    requires
        klen > 0,
        b.len() as int % (klen + 6) == 0,
        0 <= i < b.len() as int / (klen + 6),
    ensures
        ({
            let w = klen + 6;
            let nb = b.subrange(0, w * i) + b.subrange(w * i + w, b.len() as int);
            &&& nb.len() + w == b.len()
            &&& nb.len() as int % w == 0
            &&& decode_entries(nb, klen) == decode_entries(b, klen).remove(i)
        }),
{
    let w = klen + 6;
    let n = b.len() as int / w;
    lemma_whole_slots(b.len() as int, w);
    lemma_slot_bounds(w, i, n);
    let nb = b.subrange(0, w * i) + b.subrange(w * i + w, b.len() as int);
    lemma_slot_bounds(w, n - 1, n);
    assert(nb.len() == w * (n - 1));
    lemma_div_multiples_vanish(n - 1, w);
    assert(nb.len() as int % w == 0) by {
        vstd::arithmetic::div_mod::lemma_mod_multiples_basic(n - 1, w);
        vstd::arithmetic::mul::lemma_mul_is_commutative(w, n - 1);
    }
    let old_e = decode_entries(b, klen);
    let new_e = decode_entries(nb, klen);
    let target = old_e.remove(i);
    assert forall|k: int| 0 <= k < n - 1 implies #[trigger] new_e[k] == target[k] by {
        lemma_slot_bounds(w, k, n - 1);
        if k < i {
            lemma_slot_order(w, k, i);
            assert(slot(nb, w, k) =~= slot(b, w, k));
        } else {
            lemma_slot_bounds(w, k + 1, n);
            lemma_slot_order(w, i, k + 1);
            assert(slot(nb, w, k) =~= slot(b, w, k + 1));
        }
    }
    assert(new_e =~= target);
}

// ── Order and lookup facts ───────────────────────────────────────────────────

/// Strictly ascending keys are distinct.
pub proof fn lemma_sorted_unique(e: Seq<Entry>)
    requires
        strictly_sorted(entry_keys(e)),
    ensures
        unique_keys(e),
{
    assert forall|i: int, j: int|
        0 <= i < e.len() && 0 <= j < e.len() && i != j implies (#[trigger] e[i]).0 != (
        #[trigger] e[j]).0 by {
        if i < j {
            assert(bytes_lt(entry_keys(e)[i], entry_keys(e)[j]));
            lemma_lt_irreflexive(e[i].0);
        } else {
            assert(bytes_lt(entry_keys(e)[j], entry_keys(e)[i]));
            lemma_lt_irreflexive(e[i].0);
        }
    }
}

/// Inserting a key between its neighbours keeps the keys ascending.
pub proof fn lemma_sorted_insert(e: Seq<Entry>, pos: int, x: Entry)
    requires
        strictly_sorted(entry_keys(e)),
        0 <= pos <= e.len(),
        forall|j: int| 0 <= j < pos ==> bytes_lt((#[trigger] e[j]).0, x.0),
        forall|j: int| pos <= j < e.len() ==> bytes_lt(x.0, (#[trigger] e[j]).0),
    ensures
        strictly_sorted(entry_keys(e.insert(pos, x))),
{
    let ne = e.insert(pos, x);
    let ks = entry_keys(ne);
    assert forall|a: int, b: int| 0 <= a < b < ks.len() implies bytes_lt(#[trigger] ks[a], #[trigger] ks[b]) by {
        if b < pos {
            assert(bytes_lt(entry_keys(e)[a], entry_keys(e)[b]));
        } else if b == pos {
            assert(ks[a] == e[a].0);
        } else if a < pos {
            assert(ks[b] == e[b - 1].0);
            lemma_lt_transitive(e[a].0, x.0, e[b - 1].0);
        } else if a == pos {
            assert(ks[b] == e[b - 1].0);
        } else {
            assert(bytes_lt(entry_keys(e)[a - 1], entry_keys(e)[b - 1]));
        }
    }
}

/// Lookups after inserting an entry with a new key.
pub proof fn lemma_insert_lookup(e: Seq<Entry>, pos: int, x: Entry)
    requires
        unique_keys(e),
        !has_key(e, x.0),
        0 <= pos <= e.len(),
    ensures
        unique_keys(e.insert(pos, x)),
        forall|k: Seq<u8>| #[trigger] lookup(e.insert(pos, x), k) == if k == x.0 {
            Some(x.1)
        } else {
            lookup(e, k)
        },
{
    let ne = e.insert(pos, x);
    assert forall|i: int, j: int|
        0 <= i < ne.len() && 0 <= j < ne.len() && i != j implies (#[trigger] ne[i]).0 != (
        #[trigger] ne[j]).0 by {
        let oi = if i < pos { i } else { i - 1 };
        let oj = if j < pos { j } else { j - 1 };
        if i != pos && j != pos {
            assert(ne[i] == e[oi] && ne[j] == e[oj]);
        } else if i == pos {
            assert(ne[j] == e[oj]);
        } else {
            assert(ne[i] == e[oi]);
        }
    }
    assert forall|k: Seq<u8>| #[trigger] lookup(ne, k) == if k == x.0 {
        Some(x.1)
    } else {
        lookup(e, k)
    } by {
        if k == x.0 {
            lemma_lookup_at(ne, pos);
        } else if has_key(e, k) {
            let j = choose|j: int| 0 <= j < e.len() && (#[trigger] e[j]).0 == k;
            lemma_lookup_at(e, j);
            let nj = if j < pos { j } else { j + 1 };
            assert(ne[nj] == e[j]);
            lemma_lookup_at(ne, nj);
        } else {
            assert forall|i: int| 0 <= i < ne.len() implies (#[trigger] ne[i]).0 != k by {
                if i != pos {
                    let oi = if i < pos { i } else { i - 1 };
                    assert(ne[i] == e[oi]);
                }
            }
        }
    }
}

/// Overwriting the state of entry `i` keeps its key and changes only its lookup.
pub proof fn lemma_update_lookup(e: Seq<Entry>, i: int, s: PeerState)
    requires
        unique_keys(e),
        0 <= i < e.len(),
    ensures
        unique_keys(e.update(i, (e[i].0, s))),
        entry_keys(e.update(i, (e[i].0, s))) == entry_keys(e),
        forall|k: Seq<u8>| #[trigger] lookup(e.update(i, (e[i].0, s)), k) == if k == e[i].0 {
            Some(s)
        } else {
            lookup(e, k)
        },
{
    let ne = e.update(i, (e[i].0, s));
    assert(entry_keys(ne) =~= entry_keys(e));
    assert forall|a: int, b: int|
        0 <= a < ne.len() && 0 <= b < ne.len() && a != b implies (#[trigger] ne[a]).0 != (
        #[trigger] ne[b]).0 by {
        assert(ne[a].0 == e[a].0 && ne[b].0 == e[b].0);
    }
    assert forall|k: Seq<u8>| #[trigger] lookup(ne, k) == if k == e[i].0 {
        Some(s)
    } else {
        lookup(e, k)
    } by {
        if k == e[i].0 {
            lemma_lookup_at(ne, i);
        } else if has_key(e, k) {
            let j = choose|j: int| 0 <= j < e.len() && (#[trigger] e[j]).0 == k;
            lemma_lookup_at(e, j);
            assert(ne[j] == e[j]);
            lemma_lookup_at(ne, j);
        } else {
            assert forall|j: int| 0 <= j < ne.len() implies (#[trigger] ne[j]).0 != k by {
                assert(ne[j].0 == e[j].0);
            }
            lemma_lookup_absent(ne, k);
        }
    }
}

/// Removing entry `i` removes exactly its key.
pub proof fn lemma_remove_lookup(e: Seq<Entry>, i: int)
    requires
        unique_keys(e),
        0 <= i < e.len(),
    ensures
        unique_keys(e.remove(i)),
        strictly_sorted(entry_keys(e)) ==> strictly_sorted(entry_keys(e.remove(i))),
        forall|k: Seq<u8>| #[trigger] lookup(e.remove(i), k) == if k == e[i].0 {
            None
        } else {
            lookup(e, k)
        },
{
    let ne = e.remove(i);
    assert forall|a: int, b: int|
        0 <= a < ne.len() && 0 <= b < ne.len() && a != b implies (#[trigger] ne[a]).0 != (
        #[trigger] ne[b]).0 by {
        let oa = if a < i { a } else { a + 1 };
        let ob = if b < i { b } else { b + 1 };
        assert(ne[a] == e[oa] && ne[b] == e[ob]);
    }
    if strictly_sorted(entry_keys(e)) {
        let ks = entry_keys(ne);
        assert forall|a: int, b: int| 0 <= a < b < ks.len() implies bytes_lt(
            #[trigger] ks[a],
            #[trigger] ks[b],
        ) by {
            let oa = if a < i { a } else { a + 1 };
            let ob = if b < i { b } else { b + 1 };
            assert(ks[a] == entry_keys(e)[oa] && ks[b] == entry_keys(e)[ob]);
        }
    }
    assert forall|k: Seq<u8>| #[trigger] lookup(ne, k) == if k == e[i].0 {
        None
    } else {
        lookup(e, k)
    } by {
        if k != e[i].0 && has_key(e, k) {
            let j = choose|j: int| 0 <= j < e.len() && (#[trigger] e[j]).0 == k;
            lemma_lookup_at(e, j);
            let nj = if j < i { j } else { j - 1 };
            assert(ne[nj] == e[j]);
            lemma_lookup_at(ne, nj);
        } else {
            assert forall|j: int| 0 <= j < ne.len() implies (#[trigger] ne[j]).0 != k by {
                let oj = if j < i { j } else { j + 1 };
                assert(ne[j] == e[oj]);
                if k != e[i].0 {
                    assert(!has_key(e, k));
                    assert(e[oj].0 != k);
                }
            }
            lemma_lookup_absent(ne, k);
        }
    }
}

/// Moving the last entry into slot `i` and dropping the last slot removes
/// exactly the key of entry `i`.
pub proof fn lemma_swap_remove_lookup(e: Seq<Entry>, i: int)
    requires
        unique_keys(e),
        0 <= i < e.len(),
    ensures
        unique_keys(e.update(i, e.last()).drop_last()),
        seeders(e.update(i, e.last()).drop_last()) + (if e[i].1.complete {
            1nat
        } else {
            0nat
        }) == seeders(e),
        forall|k: Seq<u8>| #[trigger] lookup(e.update(i, e.last()).drop_last(), k) == if k
            == e[i].0 {
            None
        } else {
            lookup(e, k)
        },
{
    let n = e.len() - 1;
    let ne = e.update(i, e.last()).drop_last();
    let alt = e.remove(i);
    lemma_remove_lookup(e, i);
    lemma_seeders_remove(e, i);
    if i == n {
        assert(ne =~= alt);
    } else {
        // `ne` is `alt` with its last entry moved to position `i`.
        assert(ne =~= alt.remove(n - 1).insert(i, alt[n - 1]));
        let mid = alt.remove(n - 1);
        lemma_remove_lookup(alt, n - 1);
        lemma_seeders_remove(alt, n - 1);
        lemma_seeders_insert(mid, i, alt[n - 1]);
        assert(!has_key(mid, alt[n - 1].0)) by {
            if has_key(mid, alt[n - 1].0) {
                let j = choose|j: int| 0 <= j < mid.len() && (#[trigger] mid[j]).0 == alt[n - 1].0;
                assert(mid[j] == alt[j]);
            }
        }
        lemma_insert_lookup(mid, i, alt[n - 1]);
        assert forall|k: Seq<u8>| #[trigger] lookup(ne, k) == lookup(alt, k) by {
            if k == alt[n - 1].0 {
                lemma_lookup_at(alt, n - 1);
            }
        }
    }
}

/// The number of complete peers among states.
pub open spec fn complete_count(s: Seq<PeerState>) -> nat
    decreases s.len(),
{
    if s.len() == 0 {
        0
    } else {
        complete_count(s.drop_last()) + if s.last().complete {
            1nat
        } else {
            0nat
        }
    }
}

/// What survives of a lookup when stale peers are dropped.
pub open spec fn kept(s: Option<PeerState>, now: u32, timeout: u32) -> Option<PeerState> {
    match s {
        Some(p) => if is_fresh(p, now, timeout) {
            Some(p)
        } else {
            None
        },
        None => None,
    }
}

/// The keys of the entries other than `exclude`, in stored order.
pub open spec fn kept_keys(e: Seq<Entry>, exclude: Option<Seq<u8>>) -> Seq<Seq<u8>>
    decreases e.len(),
{
    if e.len() == 0 {
        Seq::empty()
    } else if exclude == Some(e.last().0) {
        kept_keys(e.drop_last(), exclude)
    } else {
        kept_keys(e.drop_last(), exclude).push(e.last().0)
    }
}

/// `count` spacings of `(total * p) / count`, divided by `p`, stay within
/// `total`.
pub proof fn lemma_spread_within(total: nat, count: nat, p: nat)
    requires
        count > 0,
        p > 0,
    ensures
        (count * ((total * p) / count)) / p <= total,
{
    let tp = (total * p) as int;
    lemma_fundamental_div_mod(tp, count as int);
    vstd::arithmetic::div_mod::lemma_mod_pos_bound(tp, count as int);
    assert(count * ((total * p) / count) <= tp);
    vstd::arithmetic::div_mod::lemma_div_is_ordered((count * ((total * p) / count)) as int, tp, p as int);
    assert(tp == p * total) by (nonlinear_arith)
        requires
            tp == total * p,
    ;
    vstd::arithmetic::div_mod::lemma_div_multiples_vanish(total as int, p as int);
}

/// No key occurs twice in `ks`.
pub open spec fn distinct_keys(ks: Seq<Seq<u8>>) -> bool {
    forall|i: int, j: int| 0 <= i < j < ks.len() ==> #[trigger] ks[i] != #[trigger] ks[j]
}

/// The kept keys of entries with distinct keys are distinct, and each is
/// the key of an entry.
pub proof fn lemma_kept_keys_distinct(e: Seq<Entry>, exclude: Option<Seq<u8>>)
    requires
        unique_keys(e),
    ensures
        distinct_keys(kept_keys(e, exclude)),
        forall|j: int| 0 <= j < kept_keys(e, exclude).len() ==> has_key(e, #[trigger] kept_keys(e, exclude)[j]),
    decreases e.len(),
{
    if e.len() > 0 {
        let d = e.drop_last();
        assert(unique_keys(d)) by {
            assert forall|i: int, j: int| 0 <= i < d.len() && 0 <= j < d.len() && i != j implies (#[trigger] d[i]).0
                != (#[trigger] d[j]).0 by {
                assert(d[i] == e[i] && d[j] == e[j]);
            }
        }
        lemma_kept_keys_distinct(d, exclude);
        let r = kept_keys(d, exclude);
        let ks = kept_keys(e, exclude);
        assert forall|j: int| 0 <= j < r.len() implies has_key(e, #[trigger] r[j]) && r[j] != e.last().0 by {
            let i = choose|i: int| 0 <= i < d.len() && (#[trigger] d[i]).0 == r[j];
            assert(d[i] == e[i]);
            assert(e[e.len() - 1] == e.last());
        }
        if exclude != Some(e.last().0) {
            assert(e[e.len() - 1] == e.last());
            assert forall|i: int, j: int| 0 <= i < j < ks.len() implies #[trigger] ks[i] != #[trigger] ks[j] by {
                if j == ks.len() - 1 {
                    assert(ks[i] == r[i]);
                } else {
                    assert(ks[i] == r[i] && ks[j] == r[j]);
                }
            }
            assert forall|j: int| 0 <= j < ks.len() implies has_key(e, #[trigger] ks[j]) by {
                if j < r.len() {
                    assert(ks[j] == r[j]);
                }
            }
        }
    }
}

/// Byte strings laid end to end.
pub open spec fn flatten(ks: Seq<Seq<u8>>) -> Seq<u8>
    decreases ks.len(),
{
    if ks.len() == 0 {
        Seq::empty()
    } else {
        flatten(ks.drop_last()) + ks.last()
    }
}

/// The compact keys of the entries other than `exclude`, end to end.
pub open spec fn compact_keys(e: Seq<Entry>, exclude: Option<Seq<u8>>) -> Seq<u8> {
    flatten(kept_keys(e, exclude))
}

/// Every key of `ks` is the key of an entry of `e`, is not `exclude`, and is
/// `klen` bytes long.
pub open spec fn picked_from(ks: Seq<Seq<u8>>, e: Seq<Entry>, exclude: Option<Seq<u8>>, klen: nat) -> bool {
    forall|j: int|
        0 <= j < ks.len() ==> has_key(e, #[trigger] ks[j]) && exclude != Some(ks[j]) && ks[j].len()
            == klen
}

/// All entry keys of `e` are `klen` bytes long.
pub open spec fn keys_of_len(e: Seq<Entry>, klen: nat) -> bool {
    forall|i: int| 0 <= i < e.len() ==> (#[trigger] e[i]).0.len() == klen
}

/// Decoded entries carry keys of the key length.
pub proof fn lemma_key_lengths(b: Seq<u8>, klen: int)
    requires
        klen > 0,
        b.len() as int % (klen + 6) == 0,
    ensures
        keys_of_len(decode_entries(b, klen), klen as nat),
{
    let w = klen + 6;
    let e = decode_entries(b, klen);
    lemma_whole_slots(b.len() as int, w);
    assert forall|i: int| 0 <= i < e.len() implies (#[trigger] e[i]).0.len() == klen as nat by {
        lemma_slot_bounds(w, i, e.len() as int);
    }
}

/// The kept keys are a selection of the entry keys.
pub proof fn lemma_kept_keys(e: Seq<Entry>, exclude: Option<Seq<u8>>, klen: nat)
    requires
        keys_of_len(e, klen),
    ensures
        kept_keys(e, exclude).len() <= e.len(),
        picked_from(kept_keys(e, exclude), e, exclude, klen),
    decreases e.len(),
{
    if e.len() > 0 {
        let d = e.drop_last();
        assert forall|i: int| 0 <= i < d.len() implies (#[trigger] d[i]).0.len() == klen by {
            assert(d[i] == e[i]);
        }
        lemma_kept_keys(d, exclude, klen);
        let ks = kept_keys(e, exclude);
        assert forall|j: int| 0 <= j < ks.len() implies has_key(e, #[trigger] ks[j]) && exclude
            != Some(ks[j]) && ks[j].len() == klen by {
            if j < kept_keys(d, exclude).len() {
                assert(ks[j] == kept_keys(d, exclude)[j]);
                let i = choose|i: int| 0 <= i < d.len() && (#[trigger] d[i]).0 == ks[j];
                assert(d[i] == e[i]);
            } else {
                assert(ks[j] == e.last().0);
                assert(e[e.len() - 1] == e.last());
            }
        }
    }
}

/// Laid end to end, keys of `w` bytes take `w` bytes each.
pub proof fn lemma_flatten_len(ks: Seq<Seq<u8>>, w: nat)
    requires
        forall|j: int| 0 <= j < ks.len() ==> (#[trigger] ks[j]).len() == w,
    ensures
        flatten(ks).len() == w * ks.len(),
    decreases ks.len(),
{
    if ks.len() > 0 {
        let d = ks.drop_last();
        assert forall|j: int| 0 <= j < d.len() implies (#[trigger] d[j]).len() == w by {
            assert(d[j] == ks[j]);
        }
        lemma_flatten_len(d, w);
        assert(ks[ks.len() - 1] == ks.last());
        assert(w * ks.len() == w * d.len() + w) by (nonlinear_arith)
            requires
                ks.len() == d.len() + 1,
        ;
    }
}

/// Cutting keys of `w` bytes after `m` whole keys keeps the first `m` keys.
pub proof fn lemma_flatten_prefix(ks: Seq<Seq<u8>>, w: nat, m: int)
    requires
        forall|j: int| 0 <= j < ks.len() ==> (#[trigger] ks[j]).len() == w,
        0 <= m <= ks.len(),
    ensures
        flatten(ks).subrange(0, w * m) == flatten(ks.subrange(0, m)),
    decreases ks.len(),
{
    lemma_flatten_len(ks, w);
    if m == ks.len() {
        assert(ks.subrange(0, m) =~= ks);
        assert(flatten(ks).subrange(0, w * m) =~= flatten(ks));
    } else {
        let d = ks.drop_last();
        assert forall|j: int| 0 <= j < d.len() implies (#[trigger] d[j]).len() == w by {
            assert(d[j] == ks[j]);
        }
        lemma_flatten_prefix(d, w, m);
        lemma_flatten_len(d, w);
        assert(d.subrange(0, m) =~= ks.subrange(0, m));
        assert(w * m <= w * d.len()) by (nonlinear_arith)
            requires
                m <= d.len(),
        ;
        assert(flatten(ks).subrange(0, w * m) =~= flatten(d).subrange(0, w * m));
    }
}

/// The xorshift step.
pub open spec fn xorshift(x: u64) -> u64 {
    let a = x ^ (x << 13u64);
    let b = a ^ (a >> 7u64);
    b ^ (b << 17u64)
}

/// A small xorshift random number generator, for picking peers.
pub struct Rng(pub u64);

impl Rng {
    /// A generator seeded with `seed`; the state is never zero.
    pub fn new(seed: u64) -> (r: Self)
        ensures
            r.0 == seed | 1,
    {
        Rng(seed | 1)
    }

    /// The next number of the sequence.
    pub fn next_u64(&mut self) -> (r: u64)
        ensures
            r == xorshift(old(self).0),
            final(self).0 == r,
    {
        let mut x = self.0;
        x = x ^ (x << 13u64);
        x = x ^ (x >> 7u64);
        x = x ^ (x << 17u64);
        self.0 = x;
        x
    }

    /// A number below `bound`, or 0 when `bound` is 0 (the state is then left alone).
    pub fn next_usize(&mut self, bound: usize) -> (r: usize)
        ensures
            bound == 0 ==> r == 0 && final(self).0 == old(self).0,
            bound > 0 ==> final(self).0 == xorshift(old(self).0) && r == (xorshift(old(self).0) as usize)
                % bound,
            bound > 0 ==> r < bound,
    {
        if bound == 0 {
            return 0;
        }
        (self.next_u64() as usize) % bound
    }
}

/// The number of doublings, at most 62, that bring `total` to 2^62 or more,
/// counted from `shift`.
pub open spec fn spread_shift(total: nat, shift: nat) -> nat
    decreases 62 - shift,
{
    if shift < 62 && total * pow2(shift) < 0x4000_0000_0000_0000 {
        spread_shift(total, shift + 1)
    } else {
        shift
    }
}

/// The room for the pick with `r` picks after it: the whole positions
/// between `r` and `r + 1` spacings of `step / p`.
pub open spec fn pick_gap(step: nat, p: nat, r: nat) -> nat {
    let hi = ((r + 1) * step) / p;
    let lo = (r * step) / p;
    if hi > lo {
        (hi - lo) as nat
    } else {
        0
    }
}

/// The keys that `remaining` more picks take from `e`, moving on from
/// position `pos` with the generator in `state` (each pick advances by one
/// and a random part of its room), leaving out `ex`; and the final state.
pub open spec fn pick_walk(
    e: Seq<Entry>,
    ex: Option<Seq<u8>>,
    step: nat,
    p: nat,
    remaining: nat,
    pos: int,
    state: u64,
) -> (Seq<Seq<u8>>, u64)
    decreases remaining,
{
    if remaining == 0 || e.len() == 0 {
        (Seq::empty(), state)
    } else {
        let r = (remaining - 1) as nat;
        let gap = pick_gap(step, p, r);
        let jump: int = if gap > 1 {
            ((xorshift(state) as usize) % (gap as usize)) as int
        } else {
            0
        };
        let next = if gap > 1 {
            xorshift(state)
        } else {
            state
        };
        let npos = (pos + 1 + jump) % (e.len() as int);
        let key = e[npos].0;
        let rest = pick_walk(e, ex, step, p, r, npos, next);
        (
            if ex == Some(key) {
                rest.0
            } else {
                seq![key] + rest.0
            },
            rest.1,
        )
    }
}

/// The keys a random pick of `count` entries of `e` other than `ex` takes,
/// with the generator in `state`, and the generator's final state: all of
/// them when `count` covers `e`; otherwise `count` positions spread evenly
/// over `e` from a random start, each moved forward by a random part of its
/// room.
pub open spec fn random_pick(e: Seq<Entry>, ex: Option<Seq<u8>>, count: nat, state: u64) -> (Seq<Seq<u8>>, u64) {
    let total = e.len();
    if total == 0 || count == 0 {
        (Seq::empty(), state)
    } else if count >= total {
        (kept_keys(e, ex), state)
    } else {
        let p = pow2(spread_shift(total, 0));
        let s1 = xorshift(state);
        pick_walk(e, ex, (total * p) / count, p, count, ((s1 as usize) % (total as usize)) as int, s1)
    }
}

/// Whether a peer is still fresh at `now`.
pub fn peer_is_fresh(peer: &PeerState, now: u32, timeout: u32) -> (r: bool)
    ensures
        r == is_fresh(*peer, now, timeout),
{
    let age: u32 = if now >= peer.last_seen_secs {
        now - peer.last_seen_secs
    } else {
        0
    };
    age <= timeout
}

/// A stored complete state means at least one seeder.
pub proof fn lemma_lookup_seeder(e: Seq<Entry>, k: Seq<u8>)
    requires
        unique_keys(e),
        lookup(e, k) matches Some(s) && s.complete,
    ensures
        seeders(e) >= 1,
{
    assert(has_key(e, k));
    let i = choose|i: int| 0 <= i < e.len() && (#[trigger] e[i]).0 == k;
    lemma_lookup_at(e, i);
    lemma_seeders_split(e, i);
}

/// Excluding a key drops exactly one entry where the key is stored, and none
/// where it is not.
pub proof fn lemma_kept_keys_len(e: Seq<Entry>, exclude: Option<Seq<u8>>)
    requires
        unique_keys(e),
    ensures
        kept_keys(e, exclude).len() == e.len() - if exclude matches Some(x) && has_key(e, x) {
            1int
        } else {
            0int
        },
    decreases e.len(),
{
    if e.len() > 0 {
        let d = e.drop_last();
        assert forall|i: int, j: int| 0 <= i < d.len() && 0 <= j < d.len() && i != j implies (#[trigger] d[i]).0
            != (#[trigger] d[j]).0 by {
            assert(d[i] == e[i] && d[j] == e[j]);
        }
        lemma_kept_keys_len(d, exclude);
        if let Some(x) = exclude {
            let last = e.len() - 1;
            assert(e[last] == e.last());
            if e.last().0 == x {
                assert(has_key(e, x));
                assert forall|j: int| 0 <= j < d.len() implies (#[trigger] d[j]).0 != x by {
                    assert(d[j] == e[j]);
                }
            } else {
                if has_key(e, x) {
                    let j = choose|j: int| 0 <= j < e.len() && (#[trigger] e[j]).0 == x;
                    assert(d[j] == e[j]);
                } else if has_key(d, x) {
                    let j = choose|j: int| 0 <= j < d.len() && (#[trigger] d[j]).0 == x;
                    assert(d[j] == e[j]);
                }
            }
        }
    }
}

/// The flags byte of a peer.
pub fn flags(peer: &PeerState) -> (r: u8)
    ensures
        r == flag_byte(peer.complete),
{
    if peer.complete {
        FLAG_COMPLETE
    } else {
        0
    }
}

/// The states of the entries of `s` that are stale at `now`, in order.
pub open spec fn stale_states(s: Seq<Entry>, now: u32, timeout: u32) -> Seq<PeerState>
    decreases s.len(),
{
    if s.len() == 0 {
        Seq::empty()
    } else {
        let before = stale_states(s.drop_last(), now, timeout);
        if is_fresh(s.last().1, now, timeout) {
            before
        } else {
            before.push(s.last().1)
        }
    }
}

/// The stale states of a concatenation are those of each part.
pub proof fn lemma_stale_concat(a: Seq<Entry>, b: Seq<Entry>, now: u32, timeout: u32)
    ensures
        stale_states(a + b, now, timeout) == stale_states(a, now, timeout) + stale_states(b, now, timeout),
    decreases b.len(),
{
    if b.len() == 0 {
        assert(a + b =~= a);
        assert(stale_states(a, now, timeout) + stale_states(b, now, timeout) =~= stale_states(a, now, timeout));
    } else {
        lemma_stale_concat(a, b.drop_last(), now, timeout);
        assert((a + b).drop_last() =~= a + b.drop_last());
        assert((a + b).last() == b.last());
        let sa = stale_states(a, now, timeout);
        let sb = stale_states(b.drop_last(), now, timeout);
        assert((sa + sb).push(b.last().1) =~= sa + sb.push(b.last().1));
    }
}

/// Sequences with the same elements keep the same elements under a map.
pub proof fn lemma_map_same_multiset<A, B>(s1: Seq<A>, s2: Seq<A>, f: spec_fn(A) -> B)
    requires
        s1.to_multiset() == s2.to_multiset(),
    ensures
        s1.map_values(f).to_multiset() == s2.map_values(f).to_multiset(),
    decreases s1.len(),
{
    broadcast use vstd::seq_lib::group_to_multiset_ensures;

    assert(s1.len() == s1.to_multiset().len());
    assert(s2.len() == s2.to_multiset().len());
    if s1.len() == 0 {
        assert(s2.len() == 0);
        assert(s1.map_values(f) =~= Seq::<B>::empty());
        assert(s2.map_values(f) =~= Seq::<B>::empty());
    } else {
        let x = s1.last();
        assert(s1.drop_last().push(x) =~= s1);
        assert(s1.to_multiset().count(x) > 0);
        assert(s2.to_multiset().count(x) > 0);
        assert(s2.contains(x));
        let k = choose|k: int| 0 <= k < s2.len() && s2[k] == x;
        assert(s2.remove(k).to_multiset() == s2.to_multiset().remove(x));
        assert(s1.drop_last().to_multiset() =~= s1.to_multiset().remove(x));
        lemma_map_same_multiset(s1.drop_last(), s2.remove(k), f);
        assert(s1.map_values(f) =~= s1.drop_last().map_values(f).push(f(x)));
        let m2 = s2.map_values(f);
        assert(m2.remove(k) =~= s2.remove(k).map_values(f));
        assert(m2[k] == f(x));
        assert(m2.remove(k).to_multiset() == m2.to_multiset().remove(f(x)));
        assert(m2.to_multiset().count(f(x)) > 0) by {
            assert(m2.contains(f(x)));
        }
        assert(m2.to_multiset() =~= m2.to_multiset().remove(f(x)).insert(f(x)));
    }
}

/// A fresh entry adds nothing to the stale states after it.
pub proof fn lemma_stale_skip_fresh(e: Seq<Entry>, index: int, now: u32, timeout: u32)
    requires
        0 <= index < e.len(),
        is_fresh(e[index].1, now, timeout),
    ensures
        stale_states(e.subrange(index, e.len() as int), now, timeout) == stale_states(
            e.subrange(index + 1, e.len() as int),
            now,
            timeout,
        ),
{
    let one = seq![e[index]];
    assert(one.drop_last() =~= Seq::<Entry>::empty());
    assert(stale_states(Seq::<Entry>::empty(), now, timeout) =~= Seq::<PeerState>::empty());
    assert(one.last() == e[index]);
    assert(e.subrange(index, e.len() as int) =~= one + e.subrange(index + 1, e.len() as int));
    lemma_stale_concat(one, e.subrange(index + 1, e.len() as int), now, timeout);
    assert(stale_states(one, now, timeout) + stale_states(e.subrange(index + 1, e.len() as int), now, timeout)
        =~= stale_states(e.subrange(index + 1, e.len() as int), now, timeout));
}

/// Swapping a stale entry out for the last one leaves the stale states of
/// the rest, as a multiset, less that entry's state.
pub proof fn lemma_stale_swap_remove(e: Seq<Entry>, index: int, now: u32, timeout: u32)
    requires
        0 <= index < e.len(),
        !is_fresh(e[index].1, now, timeout),
    ensures
        stale_states(e.subrange(index, e.len() as int), now, timeout).to_multiset() == stale_states(
            e.update(index, e.last()).drop_last().subrange(index, e.len() - 1),
            now,
            timeout,
        ).to_multiset().insert(e[index].1),
{
    broadcast use vstd::seq_lib::group_to_multiset_ensures;

    let n = e.len() as int;
    let x = e[index];
    let e2 = e.update(index, e.last()).drop_last();
    let one = seq![x];
    assert(one.drop_last() =~= Seq::<Entry>::empty());
    assert(stale_states(Seq::<Entry>::empty(), now, timeout) =~= Seq::<PeerState>::empty());
    assert(one.last() == x);
    assert(stale_states(one, now, timeout) =~= seq![x.1]);
    if index == n - 1 {
        assert(e.subrange(index, n) =~= one);
        assert(e2.subrange(index, n - 1) =~= Seq::<Entry>::empty());
        assert(seq![x.1] =~= Seq::<PeerState>::empty().push(x.1));
    } else {
        let y = e.last();
        let mid = e.subrange(index + 1, n - 1);
        let last = seq![y];
        assert(e.subrange(index, n) =~= one + (mid + last));
        assert(e2.subrange(index, n - 1) =~= last + mid);
        lemma_stale_concat(one, mid + last, now, timeout);
        lemma_stale_concat(mid, last, now, timeout);
        lemma_stale_concat(last, mid, now, timeout);
        let sm = stale_states(mid, now, timeout);
        let sl = stale_states(last, now, timeout);
        vstd::seq_lib::lemma_multiset_commutative(seq![x.1], sm + sl);
        vstd::seq_lib::lemma_multiset_commutative(sm, sl);
        vstd::seq_lib::lemma_multiset_commutative(sl, sm);
        assert(seq![x.1] =~= Seq::<PeerState>::empty().push(x.1));
        assert(seq![x.1].to_multiset() =~= vstd::multiset::Multiset::<PeerState>::empty().insert(x.1));
        assert((sl + sm).to_multiset().insert(x.1) =~= seq![x.1].to_multiset().add((sm + sl).to_multiset()));
    }
}

/// The first power of two reached by doubling from `p` that is at least `n`.
pub open spec fn pow2_from(p: nat, n: nat) -> nat
    decreases (if p < n {
        n - p
    } else {
        0
    }),
{
    if p == 0 || p >= n {
        p
    } else {
        pow2_from(2 * p, n)
    }
}

/// The smallest power of two that is at least `n` (one for zero).
pub fn pow2_at_least(n: u128) -> (r: u128)
    requires
        n <= u64::MAX,
    ensures
        r == pow2_from(1, n as nat),
        r >= n,
        r < 2 * n || r == 1,
{
    let mut p: u128 = 1;
    while p < n
        invariant
            1 <= p,
            n <= u64::MAX,
            pow2_from(p as nat, n as nat) == pow2_from(1, n as nat),
            p == 1 || p < 2 * n,
        decreases (if p < n {
            n - p
        } else {
            0
        }),
    {
        p = p * 2;
    }
    p
}

/// The capacity an idle store shrinks to: with more than four entries' worth
/// of capacity, the next power of two of its entries (at least four) in
/// entries, when that is below the capacity.
pub open spec fn shrink_target_spec(len: nat, capacity: nat, entry_len: nat) -> Option<nat> {
    if capacity > 4 * entry_len {
        let p = pow2_from(1, len / entry_len);
        let target = (if p < 4 {
            4
        } else {
            p
        }) * entry_len;
        if target < capacity {
            Some(target)
        } else {
            None
        }
    } else {
        None
    }
}

/// The capacity an idle store of `len` bytes and `capacity` bytes of room
/// should shrink to, if any.
pub fn shrink_target(len: usize, capacity: usize, entry_len: usize) -> (r: Option<usize>)
    requires
        0 < entry_len <= 24,
    ensures
        match shrink_target_spec(len as nat, capacity as nat, entry_len as nat) {
            Some(t) => r == Some(t as usize),
            None => r is None,
        },
{
    if capacity / 4 < entry_len || capacity == 4 * entry_len {
        return None;
    }
    let entries = (len / entry_len) as u128;
    let p = pow2_at_least(entries);
    let units: u128 = if p < 4 { 4 } else { p };
    assert(units <= 2 * (u64::MAX as u128) + 4);
    let el = entry_len as u128;
    assert(units * el <= (2 * (u64::MAX as u128) + 4) * 24) by (nonlinear_arith)
        requires
            units <= 2 * (u64::MAX as u128) + 4,
            el <= 24,
    ;
    let target = units * el;
    if target < capacity as u128 {
        Some(target as usize)
    } else {
        None
    }
}

/// `Vec::capacity`: the number of elements the buffer can hold without
/// reallocating, which is at least its length. How much more depends on the
/// allocation history and is not stated.
#[verifier::external_body]
fn vec_capacity(v: &Vec<u8>) -> (r: usize)
    ensures
        r >= v@.len(),
{
    v.capacity()
}

/// `Vec::shrink_to`: lowers the capacity towards `min_capacity`; the
/// contents stay as they are.
#[verifier::external_body]
fn vec_shrink_to(v: &mut Vec<u8>, min_capacity: usize)
    ensures
        final(v)@ == old(v)@,
{
    v.shrink_to(min_capacity)
}

/// Releases spare room of a byte buffer: an empty one drops its allocation;
/// a larger one shrinks to the target of [`shrink_target`].
pub fn shrink_buffer(bytes: &mut Vec<u8>, entry_len: usize)
    requires
        0 < entry_len <= 24,
    ensures
        final(bytes)@ == old(bytes)@,
{
    if bytes.len() == 0 {
        *bytes = Vec::new();
        assert(bytes@ =~= old(bytes)@);
        return;
    }
    let cap = vec_capacity(bytes);
    match shrink_target(bytes.len(), cap, entry_len) {
        Some(target) => vec_shrink_to(bytes, target),
        None => {},
    }
}

/// Even spacing: with `s` the fixed-point step `total * p / count`, each of
/// the `count` spans `((r + 1) * s) / p - (r * s) / p` is at least one, and
/// all of them together span at most `total`.
pub proof fn lemma_even_spacing(total: nat, count: nat, p: nat, s: nat, r: nat)
    requires
        0 < count < total,
        0 < p,
        s == (total * p) / count,
        r < count,
    ensures
        ((r + 1) * s) / p >= (r * s) / p + 1,
        (count * s) / p <= total,
        (r * s) / p <= (count * s) / p,
{
    let tp = total * p;
    assert(tp == count * s + tp % count) by {
        vstd::arithmetic::div_mod::lemma_fundamental_div_mod(tp as int, count as int);
    }
    assert(tp % count >= 0) by {
        vstd::arithmetic::div_mod::lemma_mod_pos_bound(tp as int, count as int);
    }
    assert(count * s <= tp);
    assert(count * p <= tp) by (nonlinear_arith)
        requires
            count < total,
            0 < p,
            tp == total * p,
    ;
    assert(s >= p) by {
        vstd::arithmetic::div_mod::lemma_div_is_ordered((count * p) as int, tp as int, count as int);
        vstd::arithmetic::div_mod::lemma_div_multiples_vanish(p as int, count as int);
        assert((count * p) as int == count as int * p as int);
    }
    assert((count * s) / p <= tp / p) by {
        vstd::arithmetic::div_mod::lemma_div_is_ordered((count * s) as int, tp as int, p as int);
    }
    assert(tp / p == total) by {
        vstd::arithmetic::div_mod::lemma_div_multiples_vanish(total as int, p as int);
        assert(tp as int == p as int * total as int) by (nonlinear_arith)
            requires
                tp == total * p,
        ;
    }
    let rs = r * s;
    assert((r + 1) * s == rs + s) by (nonlinear_arith)
        requires
            rs == r * s,
    ;
    assert(rs + p <= rs + s);
    vstd::arithmetic::div_mod::lemma_div_is_ordered((rs + p) as int, (rs + s) as int, p as int);
    vstd::arithmetic::div_mod::lemma_hoist_over_denominator(rs as int, 1, p);
    assert(r * s <= count * s) by (nonlinear_arith)
        requires
            r < count,
    ;
    vstd::arithmetic::div_mod::lemma_div_is_ordered((r * s) as int, (count * s) as int, p as int);
}

/// Offsets less than a full turn apart land on different positions.
pub proof fn lemma_offsets_distinct(p0: int, a: int, b: int, m: int)
    requires
        0 < m,
        0 < b - a < m,
    ensures
        (p0 + a) % m != (p0 + b) % m,
{
    vstd::arithmetic::div_mod::lemma_mod_equivalence(p0 + b, p0 + a, m);
    vstd::arithmetic::div_mod::lemma_small_mod((b - a) as nat, m as nat);
    assert((p0 + b) - (p0 + a) == b - a);
}

} // verus!

verus! {

/// Peers of one address family, packed into fixed-width byte entries.
#[derive(Debug)]
pub struct PackedIpv4Peers {
    /// The entries, back to back.
    pub bytes: Vec<u8>,
    /// Entries are kept in ascending key order.
    pub sorted: bool,
}

impl View for PackedIpv4Peers {
    type V = Seq<Entry>;

    open spec fn view(&self) -> Seq<Entry> {
        decode_entries(self.bytes@, 6)
    }
}

impl PackedIpv4Peers {
    /// The store is well formed: whole entries, distinct keys, sorted when
    /// marked so, and small when unsorted.
    pub open spec fn wf(&self) -> bool {
        &&& self.bytes@.len() % 12 == 0
        &&& unique_keys(self@)
        &&& self.sorted ==> strictly_sorted(entry_keys(self@))
        &&& !self.sorted ==> self@.len() < PROMOTE_THRESHOLD
    }

    /// An empty, unsorted store.
    pub fn new() -> (r: Self)
        ensures
            r.wf(),
            r@.len() == 0,
            !r.sorted,
    {
        let r = PackedIpv4Peers { bytes: Vec::new(), sorted: false };
        assert(r@ =~= Seq::<Entry>::empty());
        r
    }

    proof fn lemma_slot_in_bounds(&self, index: int)
        requires
            self.bytes@.len() % 12 == 0,
            0 <= index < self@.len(),
        ensures
            0 <= 12 * index,
            12 * index + 12 <= self.bytes@.len(),
            self.bytes@.len() <= usize::MAX,
            self@[index] == decode_entry(slot(self.bytes@, 12, index), 6),
    {
        assert(self.bytes.len() == self.bytes@.len());
        lemma_whole_slots(self.bytes@.len() as int, 12);
        lemma_slot_bounds(12, index, self@.len() as int);
    }

    pub fn len(&self) -> (r: usize)
        ensures
            r == self@.len(),
    {
        self.bytes.len() / IPV4_ENTRY_LEN
    }

    /// Releases spare capacity: an empty store drops its buffer, and a store
    /// with room for more than four extra entries shrinks to the next power
    /// of two of its entries (at least four). The peers stay as they are.
    pub fn shrink_if_idle(&mut self)
        ensures
            final(self).bytes@ == old(self).bytes@,
            final(self).sorted == old(self).sorted,
            final(self)@ == old(self)@,
    {
        shrink_buffer(&mut self.bytes, IPV4_ENTRY_LEN);
    }

    pub fn is_empty(&self) -> (r: bool)
        requires
            self.wf(),
        ensures
            r == (self@.len() == 0),
    {
        proof {
            lemma_whole_slots(self.bytes@.len() as int, 12);
        }
        self.bytes.len() == 0
    }

    /// The key of entry `index`.
    fn key_at(&self, index: usize) -> (r: Ipv4PeerKey)
        requires
            self.bytes@.len() % 12 == 0,
            index < self@.len(),
        ensures
            v4_bytes(r) == self@[index as int].0,
    {
        proof {
            self.lemma_slot_in_bounds(index as int);
        }
        let o = index * IPV4_ENTRY_LEN;
        let b = &self.bytes;
        let r = Ipv4PeerKey {
            ip: [b[o], b[o + 1], b[o + 2], b[o + 3]],
            port: ((b[o + 4] as u16) << 8) | (b[o + 5] as u16),
        };
        proof {
            assert(r.port == be16(self.bytes@[o + 4], self.bytes@[o + 5]));
            lemma_be16_bytes(self.bytes@[o + 4], self.bytes@[o + 5]);
            assert(v4_bytes(r) =~= slot(self.bytes@, 12, index as int).subrange(0, 6));
        }
        r
    }

    /// The number of complete entries.
    pub fn seeder_total(&self) -> (r: usize)
        requires
            self.bytes@.len() % 12 == 0,
        ensures
            r == seeders(self@),
    {
        let n = self.len();
        let mut c: usize = 0;
        let mut i: usize = 0;
        proof {
            assert(self@.subrange(0, 0) =~= Seq::<Entry>::empty());
        }
        while i < n
            invariant
                n == self@.len(),
                i <= n,
                self.bytes@.len() % 12 == 0,
                c == seeders(self@.subrange(0, i as int)),
            decreases n - i,
        {
            let st = self.state_at(i);
            proof {
                assert(self@.subrange(0, i + 1).drop_last() =~= self@.subrange(0, i as int));
                lemma_seeders_bound(self@.subrange(0, i as int));
            }
            if st.complete {
                c = c + 1;
            }
            i = i + 1;
        }
        assert(self@.subrange(0, n as int) =~= self@);
        c
    }

    /// The state of entry `index`.
    fn state_at(&self, index: usize) -> (r: PeerState)
        requires
            self.bytes@.len() % 12 == 0,
            index < self@.len(),
        ensures
            r == self@[index as int].1,
    {
        proof {
            self.lemma_slot_in_bounds(index as int);
        }
        let o = index * IPV4_ENTRY_LEN + 6;
        let b = &self.bytes;
        let r = PeerState {
            complete: b[o] & FLAG_COMPLETE != 0,
            last_seen_secs: ((b[o + 2] as u32) << 24) | ((b[o + 3] as u32) << 16) | ((b[o + 4] as u32) << 8)
                | (b[o + 5] as u32),
            client_tag: b[o + 1],
        };
        proof {
            let e = slot(self.bytes@, 12, index as int).subrange(6 as int, 6 as int + 6);
            assert(e[0] == self.bytes@[o as int]);
            assert(e[1] == self.bytes@[o + 1]);
            assert(e[2] == self.bytes@[o + 2]);
            assert(e[3] == self.bytes@[o + 3]);
            assert(e[4] == self.bytes@[o + 4]);
            assert(e[5] == self.bytes@[o + 5]);
        }
        r
    }

    /// The raw bytes of entry `index`.
    fn slot_bytes(&self, index: usize) -> (r: [u8; 12])
        requires
            self.bytes@.len() % 12 == 0,
            index < self@.len(),
        ensures
            r@ == slot(self.bytes@, 12, index as int),
    {
        proof {
            self.lemma_slot_in_bounds(index as int);
        }
        let o = index * IPV4_ENTRY_LEN;
        let mut out = [0u8; 12];
        let mut j: usize = 0;
        while j < IPV4_ENTRY_LEN
            invariant
                j <= 12,
                o == 12 * index,
                o + 12 <= self.bytes@.len(),
                self.bytes@.len() <= usize::MAX,
                forall|q: int| 0 <= q < j ==> out@[q] == self.bytes@[o + q],
            decreases 12 - j,
        {
            out[j] = self.bytes[o + j];
            j = j + 1;
        }
        assert(out@ =~= slot(self.bytes@, 12, index as int));
        out
    }

    /// Overwrites the bytes of entry `index` with `e`.
    fn write_slot(&mut self, index: usize, e: &[u8; 12])
        requires
            old(self).bytes@.len() % 12 == 0,
            index < old(self)@.len(),
        ensures
            final(self).bytes@.len() == old(self).bytes@.len(),
            final(self)@ == old(self)@.update(index as int, decode_entry(e@, 6)),
            final(self).sorted == old(self).sorted,
    {
        proof {
            old(self).lemma_slot_in_bounds(index as int);
            lemma_entries_splice(old(self).bytes@, 6, index as int, e@);
        }
        let o = index * IPV4_ENTRY_LEN;
        let ghost ob = self.bytes@;
        let mut j: usize = 0;
        while j < IPV4_ENTRY_LEN
            invariant
                j <= 12,
                o == 12 * index,
                o + 12 <= ob.len(),
                ob.len() <= usize::MAX,
                self.sorted == old(self).sorted,
                self.bytes@ == ob.subrange(0, o as int) + e@.subrange(0, j as int) + ob.subrange(
                    o + j,
                    ob.len() as int,
                ),
            decreases 12 - j,
        {
            self.bytes[o + j] = e[j];
            assert(self.bytes@ =~= ob.subrange(0, o as int) + e@.subrange(0, j + 1) + ob.subrange(
                o + j + 1,
                ob.len() as int,
            ));
            j = j + 1;
        }
        assert(e@.subrange(0, 12) =~= e@);
    }

    /// The bytes of an entry for `key` and `peer`.
    fn encode(key: Ipv4PeerKey, peer: PeerState) -> (r: [u8; 12])
        ensures
            r@ == encode_entry(v4_bytes(key), peer),
            decode_entry(r@, 6) == (v4_bytes(key), peer),
    {
        let c = key.compact();
        let mut out = [0u8; 12];
        let mut j: usize = 0;
        while j < 6
            invariant
                j <= 6,
                c@ == v4_bytes(key),
                forall|q: int| 0 <= q < j ==> out@[q] == c@[q],
            decreases 6 - j,
        {
            out[j] = c[j];
            j = j + 1;
        }
        let t = peer.last_seen_secs;
        out[6] = flags(&peer);
        out[6 + 1] = peer.client_tag;
        out[6 + 2] = (t >> 24) as u8;
        out[6 + 3] = (t >> 16) as u8;
        out[6 + 4] = (t >> 8) as u8;
        out[6 + 5] = t as u8;
        proof {
            assert(out@ =~= encode_entry(v4_bytes(key), peer));
            lemma_entry_roundtrip(v4_bytes(key), peer);
        }
        out
    }

    /// Overwrites entry `index` with `key` and `peer`.
    fn write_at(&mut self, index: usize, key: Ipv4PeerKey, peer: PeerState)
        requires
            old(self).bytes@.len() % 12 == 0,
            index < old(self)@.len(),
        ensures
            final(self).bytes@.len() == old(self).bytes@.len(),
            final(self)@ == old(self)@.update(index as int, (v4_bytes(key), peer)),
            final(self).sorted == old(self).sorted,
    {
        let e = Self::encode(key, peer);
        self.write_slot(index, &e);
    }

    /// Appends an entry for `key` and `peer`.
    fn push(&mut self, key: Ipv4PeerKey, peer: PeerState)
        requires
            old(self).bytes@.len() % 12 == 0,
            old(self).bytes@.len() + 12 <= usize::MAX,
        ensures
            final(self).bytes@.len() % 12 == 0,
            final(self)@ == old(self)@.push((v4_bytes(key), peer)),
            final(self).sorted == old(self).sorted,
    {
        let e = Self::encode(key, peer);
        let ghost ob = self.bytes@;
        let mut j: usize = 0;
        while j < IPV4_ENTRY_LEN
            invariant
                j <= 12,
                self.bytes@ == ob + e@.subrange(0, j as int),
                self.sorted == old(self).sorted,
            decreases 12 - j,
        {
            self.bytes.push(e[j]);
            assert(self.bytes@ =~= ob + e@.subrange(0, j + 1));
            j = j + 1;
        }
        assert(e@.subrange(0, 12) =~= e@);
        proof {
            lemma_entries_push(ob, 6, e@);
        }
    }

    /// Removes entry `index`, moving the last entry into its place.
    fn swap_remove(&mut self, index: usize) -> (r: PeerState)
        requires
            old(self).bytes@.len() % 12 == 0,
            index < old(self)@.len(),
        ensures
            r == old(self)@[index as int].1,
            final(self).bytes@.len() % 12 == 0,
            final(self)@ == old(self)@.update(index as int, old(self)@.last()).drop_last(),
            final(self).sorted == old(self).sorted,
    {
        let removed = self.state_at(index);
        let last = self.len() - 1;
        proof {
            self.lemma_slot_in_bounds(last as int);
        }
        if index != last {
            let replacement = self.slot_bytes(last);
            self.write_slot(index, &replacement);
        }
        proof {
            lemma_whole_slots(self.bytes@.len() as int, 12);
            lemma_entries_truncate(self.bytes@, 6, last as int);
        }
        let ghost before_truncate = self@;
        self.bytes.truncate(last * IPV4_ENTRY_LEN);
        assert(self@ =~= old(self)@.update(index as int, old(self)@.last()).drop_last());
        removed
    }

    /// Inserts an entry for `key` and `peer` at position `index`.
    fn insert_at(&mut self, index: usize, key: Ipv4PeerKey, peer: PeerState)
        requires
            old(self).bytes@.len() % 12 == 0,
            index <= old(self)@.len(),
            old(self).bytes@.len() + 12 <= usize::MAX,
        ensures
            final(self).bytes@.len() % 12 == 0,
            final(self)@ == old(self)@.insert(index as int, (v4_bytes(key), peer)),
            final(self).sorted == old(self).sorted,
    {
        let ghost ob = self.bytes@;
        let old_len = self.bytes.len();
        let offset = index * IPV4_ENTRY_LEN;
        proof {
            lemma_whole_slots(ob.len() as int, 12);
            assert(12 * index <= ob.len()) by (nonlinear_arith)
                requires
                    index <= ob.len() / 12,
                    ob.len() == 12 * (ob.len() / 12),
            ;
        }
        let mut j: usize = 0;
        while j < IPV4_ENTRY_LEN
            invariant
                j <= 12,
                old_len == ob.len(),
                old_len + 12 <= usize::MAX,
                self.bytes@.len() == old_len + j,
                self.sorted == old(self).sorted,
                forall|q: int| 0 <= q < old_len ==> self.bytes@[q] == ob[q],
            decreases 12 - j,
        {
            self.bytes.push(0);
            j = j + 1;
        }
        let mut p: usize = old_len;
        while p > offset
            invariant
                offset <= p <= old_len,
                offset == 12 * index,
                old_len == ob.len(),
                old_len + 12 <= usize::MAX,
                self.sorted == old(self).sorted,
                self.bytes@.len() == old_len + 12,
                forall|q: int| 0 <= q < p ==> self.bytes@[q] == ob[q],
                forall|q: int| p + 12 <= q < old_len + 12 ==> self.bytes@[q] == ob[q - 12],
            decreases p,
        {
            p = p - 1;
            let v = self.bytes[p];
            self.bytes[p + IPV4_ENTRY_LEN] = v;
        }
        let ghost cur = self.bytes@;
        let ghost gap = cur.subrange(offset as int, offset + 12);
        proof {
            assert(cur =~= ob.subrange(0, offset as int) + gap + ob.subrange(offset as int, ob.len() as int));
            lemma_entries_insert(ob, 6, index as int, gap);
            assert(self@ == decode_entries(ob, 6).insert(index as int, decode_entry(gap, 6)));
        }
        self.write_at(index, key, peer);
        assert(self@ =~= old(self)@.insert(index as int, (v4_bytes(key), peer)));
    }

    /// Removes entry `index`, shifting later entries down.
    fn remove_at(&mut self, index: usize) -> (r: PeerState)
        requires
            old(self).bytes@.len() % 12 == 0,
            index < old(self)@.len(),
        ensures
            r == old(self)@[index as int].1,
            final(self).bytes@.len() % 12 == 0,
            final(self)@ == old(self)@.remove(index as int),
            final(self).sorted == old(self).sorted,
    {
        let removed = self.state_at(index);
        proof {
            self.lemma_slot_in_bounds(index as int);
        }
        let ghost ob = self.bytes@;
        let offset = index * IPV4_ENTRY_LEN;
        let end = self.bytes.len() - IPV4_ENTRY_LEN;
        let mut p: usize = offset;
        while p < end
            invariant
                offset <= p <= end,
                end + 12 == ob.len(),
                ob.len() <= usize::MAX,
                self.sorted == old(self).sorted,
                self.bytes@.len() == ob.len(),
                forall|q: int| 0 <= q < offset ==> self.bytes@[q] == ob[q],
                forall|q: int| offset <= q < p ==> self.bytes@[q] == ob[q + 12],
                forall|q: int| p <= q < ob.len() ==> self.bytes@[q] == ob[q],
            decreases end - p,
        {
            let v = self.bytes[p + IPV4_ENTRY_LEN];
            self.bytes[p] = v;
            p = p + 1;
        }
        self.bytes.truncate(end);
        proof {
            assert(self.bytes@ =~= ob.subrange(0, offset as int) + ob.subrange(
                offset + 12,
                ob.len() as int,
            ));
            lemma_entries_remove(ob, 6, index as int);
        }
        removed
    }

    /// The position of the entry with `key`, scanning in stored order.
    fn find_linear(&self, key: &Ipv4PeerKey) -> (r: Option<usize>)
        requires
            self.bytes@.len() % 12 == 0,
        ensures
            r matches Some(i) ==> i < self@.len() && self@[i as int].0 == v4_bytes(*key),
            r is None ==> forall|i: int| 0 <= i < self@.len() ==> (#[trigger] self@[i]).0 != v4_bytes(*key),
    {
        let n = self.len();
        let mut i: usize = 0;
        while i < n
            invariant
                n == self@.len(),
                i <= n,
                self.bytes@.len() % 12 == 0,
                forall|j: int| 0 <= j < i ==> (#[trigger] self@[j]).0 != v4_bytes(*key),
            decreases n - i,
        {
            let k = self.key_at(i);
            if k.same(key) {
                return Some(i);
            }
            proof {
                if self@[i as int].0 == v4_bytes(*key) {
                    lemma_v4_bytes_injective(k, *key);
                }
            }
            i = i + 1;
        }
        None
    }

    /// Bisection over a sorted store: `Ok` with the position of `key`, or
    /// `Err` with the position where it would be inserted.
    fn search_index(&self, key: &Ipv4PeerKey) -> (r: Result<usize, usize>)
        requires
            self.bytes@.len() % 12 == 0,
            strictly_sorted(entry_keys(self@)),
        ensures
            r matches Ok(i) ==> i < self@.len() && self@[i as int].0 == v4_bytes(*key),
            r matches Err(i) ==> i <= self@.len() && (forall|j: int|
                0 <= j < i ==> bytes_lt((#[trigger] self@[j]).0, v4_bytes(*key))) && (forall|j: int|
                i <= j < self@.len() ==> bytes_lt(v4_bytes(*key), (#[trigger] self@[j]).0)),
    {
        let kc = key.compact();
        let mut size = self.len();
        let mut base: usize = 0;
        while size > 0
            invariant
                base + size <= self@.len(),
                self@.len() <= usize::MAX,
                self.bytes@.len() % 12 == 0,
                strictly_sorted(entry_keys(self@)),
                kc@ == v4_bytes(*key),
                forall|j: int| 0 <= j < base ==> bytes_lt((#[trigger] self@[j]).0, v4_bytes(*key)),
                forall|j: int|
                    base + size <= j < self@.len() ==> bytes_lt(v4_bytes(*key), (#[trigger] self@[j]).0),
            decreases size,
        {
            let half = size / 2;
            let mid = base + half;
            let mc = self.key_at(mid).compact();
            match compare_bytes(mc.as_slice(), kc.as_slice()) {
                Order::Less => {
                    proof {
                        assert forall|j: int| 0 <= j <= mid implies bytes_lt(
                            (#[trigger] self@[j]).0,
                            v4_bytes(*key),
                        ) by {
                            if j < mid {
                                assert(bytes_lt(entry_keys(self@)[j], entry_keys(self@)[mid as int]));
                                lemma_lt_transitive(self@[j].0, self@[mid as int].0, v4_bytes(*key));
                            }
                        }
                    }
                    base = mid + 1;
                    size = size - (half + 1);
                },
                Order::Greater => {
                    proof {
                        assert forall|j: int| mid <= j < self@.len() implies bytes_lt(
                            v4_bytes(*key),
                            (#[trigger] self@[j]).0,
                        ) by {
                            if j > mid && j < base + size {
                                assert(bytes_lt(entry_keys(self@)[mid as int], entry_keys(self@)[j]));
                                lemma_lt_transitive(v4_bytes(*key), self@[mid as int].0, self@[j].0);
                            }
                        }
                    }
                    size = half;
                },
                Order::Equal => {
                    return Ok(mid);
                },
            }
        }
        Err(base)
    }

    /// The position of the entry with `key`.
    fn find(&self, key: &Ipv4PeerKey) -> (r: Option<usize>)
        requires
            self.wf(),
        ensures
            r matches Some(i) ==> i < self@.len() && self@[i as int].0 == v4_bytes(*key),
            r is None ==> forall|i: int| 0 <= i < self@.len() ==> (#[trigger] self@[i]).0 != v4_bytes(*key),
    {
        if self.sorted {
            match self.search_index(key) {
                Ok(i) => Some(i),
                Err(i) => {
                    proof {
                        assert forall|j: int| 0 <= j < self@.len() implies (#[trigger] self@[j]).0
                            != v4_bytes(*key) by {
                            lemma_lt_irreflexive(v4_bytes(*key));
                        }
                    }
                    None
                },
            }
        } else {
            self.find_linear(key)
        }
    }

    /// The compact bytes of an excluded key, if any.
    pub open spec fn excluded(exclude: Option<Ipv4PeerKey>) -> Option<Seq<u8>> {
        match exclude {
            Some(x) => Some(v4_bytes(x)),
            None => None,
        }
    }

    /// Stores `peer` under `key`, replacing any state stored there; returns the
    /// replaced state.
    pub fn insert(&mut self, key: Ipv4PeerKey, peer: PeerState) -> (r: Option<PeerState>)
        requires
            old(self).wf(),
            old(self).bytes@.len() + 12 <= usize::MAX,
        ensures
            final(self).wf(),
            r == lookup(old(self)@, v4_bytes(key)),
            forall|k: Seq<u8>| #[trigger] lookup(final(self)@, k) == if k == v4_bytes(key) {
                Some(peer)
            } else {
                lookup(old(self)@, k)
            },
            final(self)@.len() == old(self)@.len() + if r is None {
                1nat
            } else {
                0nat
            },
            seeders(final(self)@) + (if r matches Some(o) && o.complete {
                1nat
            } else {
                0nat
            }) == seeders(old(self)@) + (if peer.complete {
                1nat
            } else {
                0nat
            }),
            r is Some ==> exists|i: int|
                0 <= i < old(self)@.len() && (#[trigger] old(self)@[i]).0 == v4_bytes(key) && final(self)@ == old(
                    self,
                )@.update(i, (v4_bytes(key), peer)),
            r is None && !final(self).sorted ==> final(self)@ == old(self)@.push((v4_bytes(key), peer)),
            final(self).sorted == (old(self).sorted || final(self)@.len() >= PROMOTE_THRESHOLD),
    {
        let ghost e = self@;
        let ghost x = (v4_bytes(key), peer);
        if self.sorted {
            match self.search_index(&key) {
                Ok(index) => {
                    let old_state = self.state_at(index);
                    proof {
                        lemma_lookup_at(e, index as int);
                        lemma_update_lookup(e, index as int, peer);
                        lemma_seeders_update(e, index as int, x);
                    }
                    self.write_at(index, key, peer);
                    Some(old_state)
                },
                Err(index) => {
                    proof {
                        assert forall|j: int| 0 <= j < e.len() implies (#[trigger] e[j]).0 != x.0 by {
                            lemma_lt_irreflexive(x.0);
                        }
                        lemma_lookup_absent(e, x.0);
                        lemma_sorted_insert(e, index as int, x);
                        lemma_insert_lookup(e, index as int, x);
                        lemma_seeders_insert(e, index as int, x);
                    }
                    self.insert_at(index, key, peer);
                    proof {
                        lemma_sorted_unique(self@);
                    }
                    None
                },
            }
        } else {
            let old_state = match self.find_linear(&key) {
                Some(index) => {
                    let old_state = self.state_at(index);
                    proof {
                        lemma_lookup_at(e, index as int);
                        lemma_update_lookup(e, index as int, peer);
                        lemma_seeders_update(e, index as int, x);
                    }
                    self.write_at(index, key, peer);
                    Some(old_state)
                },
                None => {
                    proof {
                        lemma_lookup_absent(e, x.0);
                        lemma_insert_lookup(e, e.len() as int, x);
                        lemma_seeders_insert(e, e.len() as int, x);
                        assert(e.push(x) =~= e.insert(e.len() as int, x));
                    }
                    self.push(key, peer);
                    None
                },
            };
            if self.len() >= PROMOTE_THRESHOLD {
                self.sort_and_promote();
                proof {
                    lemma_sorted_unique(self@);
                }
            }
            old_state
        }
    }

    /// Removes the entry for `key`; returns its state.
    pub fn remove(&mut self, key: &Ipv4PeerKey) -> (r: Option<PeerState>)
        requires
            old(self).wf(),
        ensures
            final(self).wf(),
            r == lookup(old(self)@, v4_bytes(*key)),
            forall|k: Seq<u8>| #[trigger] lookup(final(self)@, k) == if k == v4_bytes(*key) {
                None
            } else {
                lookup(old(self)@, k)
            },
            final(self)@.len() + (if r is Some {
                1nat
            } else {
                0nat
            }) == old(self)@.len(),
            seeders(final(self)@) + (if r matches Some(o) && o.complete {
                1nat
            } else {
                0nat
            }) == seeders(old(self)@),
            r is None ==> final(self)@ == old(self)@,
            r is Some ==> exists|i: int|
                0 <= i < old(self)@.len() && (#[trigger] old(self)@[i]).0 == v4_bytes(*key) && final(self)@ == if old(
                    self,
                ).sorted {
                    old(self)@.remove(i)
                } else {
                    old(self)@.update(i, old(self)@.last()).drop_last()
                },
            final(self).sorted == (old(self).sorted && final(self)@.len() >= DEMOTE_THRESHOLD),
    {
        let ghost e = self@;
        if self.sorted {
            let result = match self.find(key) {
                Some(index) => {
                    proof {
                        lemma_lookup_at(e, index as int);
                        lemma_remove_lookup(e, index as int);
                        lemma_seeders_remove(e, index as int);
                    }
                    Some(self.remove_at(index))
                },
                None => {
                    proof {
                        lemma_lookup_absent(e, v4_bytes(*key));
                    }
                    None
                },
            };
            if self.len() < DEMOTE_THRESHOLD {
                self.sorted = false;
            }
            result
        } else {
            match self.find_linear(key) {
                Some(index) => {
                    proof {
                        lemma_lookup_at(e, index as int);
                        lemma_swap_remove_lookup(e, index as int);
                    }
                    Some(self.swap_remove(index))
                },
                None => {
                    proof {
                        lemma_lookup_absent(e, v4_bytes(*key));
                    }
                    None
                },
            }
        }
    }

    /// Drops every peer that is no longer fresh at `now`; returns the states
    /// of the dropped peers.
    pub fn retain_fresh(&mut self, now: u32, timeout: u32) -> (removed: Vec<PeerState>)
        requires
            old(self).wf(),
        ensures
            final(self).wf(),
            forall|k: Seq<u8>| #[trigger] lookup(final(self)@, k) == kept(
                lookup(old(self)@, k),
                now,
                timeout,
            ),
            final(self)@.len() + removed@.len() == old(self)@.len(),
            seeders(final(self)@) + complete_count(removed@) == seeders(old(self)@),
            forall|i: int| 0 <= i < removed@.len() ==> !is_fresh(#[trigger] removed@[i], now, timeout),
            removed@.to_multiset() == stale_states(old(self)@, now, timeout).to_multiset(),
    {
        if self.sorted {
            self.retain_fresh_sorted(now, timeout)
        } else {
            self.retain_fresh_unsorted(now, timeout)
        }
    }

    fn retain_fresh_unsorted(&mut self, now: u32, timeout: u32) -> (removed: Vec<PeerState>)
        requires
            old(self).wf(),
            !old(self).sorted,
        ensures
            final(self).wf(),
            forall|k: Seq<u8>| #[trigger] lookup(final(self)@, k) == kept(
                lookup(old(self)@, k),
                now,
                timeout,
            ),
            final(self)@.len() + removed@.len() == old(self)@.len(),
            seeders(final(self)@) + complete_count(removed@) == seeders(old(self)@),
            forall|i: int| 0 <= i < removed@.len() ==> !is_fresh(#[trigger] removed@[i], now, timeout),
            removed@.to_multiset() == stale_states(old(self)@, now, timeout).to_multiset(),
    {
        let ghost orig = self@;
        let mut removed: Vec<PeerState> = Vec::new();
        let mut index: usize = 0;
        proof {
            broadcast use vstd::seq_lib::group_to_multiset_ensures;

            assert(self@.subrange(0, self@.len() as int) =~= orig);
            assert(removed@.to_multiset() =~= vstd::multiset::Multiset::<PeerState>::empty());
            assert(removed@.to_multiset().add(stale_states(orig, now, timeout).to_multiset()) =~= stale_states(
                orig,
                now,
                timeout,
            ).to_multiset());
        }
        while index < self.len()
            invariant
                self.bytes@.len() % 12 == 0,
                unique_keys(self@),
                !self.sorted,
                self@.len() <= orig.len(),
                orig.len() < PROMOTE_THRESHOLD,
                index <= self@.len(),
                forall|j: int| 0 <= j < index ==> is_fresh((#[trigger] self@[j]).1, now, timeout),
                forall|k: Seq<u8>|
                    (#[trigger] lookup(self@, k)) is Some ==> lookup(orig, k) == lookup(self@, k),
                forall|k: Seq<u8>|
                    (#[trigger] lookup(orig, k)) is Some && is_fresh(lookup(orig, k).unwrap(), now, timeout)
                        ==> lookup(self@, k) == lookup(orig, k),
                self@.len() + removed@.len() == orig.len(),
                seeders(self@) + complete_count(removed@) == seeders(orig),
                forall|i: int| 0 <= i < removed@.len() ==> !is_fresh(#[trigger] removed@[i], now, timeout),
                removed@.to_multiset().add(
                    stale_states(self@.subrange(index as int, self@.len() as int), now, timeout).to_multiset(),
                ) == stale_states(orig, now, timeout).to_multiset(),
            decreases self@.len() - index,
        {
            let peer = self.state_at(index);
            if peer_is_fresh(&peer, now, timeout) {
                proof {
                    lemma_stale_skip_fresh(self@, index as int, now, timeout);
                }
                index = index + 1;
            } else {
                let ghost e = self@;
                let ghost before = removed@;
                proof {
                    lemma_lookup_at(e, index as int);
                    lemma_swap_remove_lookup(e, index as int);
                    lemma_stale_swap_remove(e, index as int, now, timeout);
                }
                let s = self.swap_remove(index);
                removed.push(s);
                proof {
                    broadcast use vstd::seq_lib::group_to_multiset_ensures;

                    assert(removed@.drop_last() =~= before);
                    assert(removed@ =~= before.push(s));
                    let seg2 = stale_states(self@.subrange(index as int, self@.len() as int), now, timeout).to_multiset();
                    assert(removed@.to_multiset().add(seg2) =~= before.to_multiset().add(seg2.insert(s)));
                    assert forall|k: Seq<u8>|
                        (#[trigger] lookup(orig, k)) is Some && is_fresh(lookup(orig, k).unwrap(), now, timeout)
                            implies lookup(self@, k) == lookup(orig, k) by {
                        assert(lookup(e, k) == lookup(orig, k));
                    }
                    assert forall|j: int| 0 <= j < index implies is_fresh((#[trigger] self@[j]).1, now, timeout) by {
                        assert(self@[j] == e[j]);
                    }
                }
            }
        }
        proof {
            assert forall|k: Seq<u8>| #[trigger] lookup(self@, k) == kept(lookup(orig, k), now, timeout) by {
                if has_key(self@, k) {
                    let j = choose|j: int| 0 <= j < self@.len() && (#[trigger] self@[j]).0 == k;
                    lemma_lookup_at(self@, j);
                }
            }
            assert(self@.subrange(index as int, self@.len() as int) =~= Seq::<Entry>::empty());
            assert(stale_states(Seq::<Entry>::empty(), now, timeout).to_multiset() =~= vstd::multiset::Multiset::<
                PeerState,
            >::empty());
            assert(removed@.to_multiset().add(vstd::multiset::Multiset::<PeerState>::empty()) =~= removed@.to_multiset());
        }
        removed
    }

    fn retain_fresh_sorted(&mut self, now: u32, timeout: u32) -> (removed: Vec<PeerState>)
        requires
            old(self).wf(),
            old(self).sorted,
        ensures
            final(self).wf(),
            forall|k: Seq<u8>| #[trigger] lookup(final(self)@, k) == kept(
                lookup(old(self)@, k),
                now,
                timeout,
            ),
            final(self)@.len() + removed@.len() == old(self)@.len(),
            seeders(final(self)@) + complete_count(removed@) == seeders(old(self)@),
            forall|i: int| 0 <= i < removed@.len() ==> !is_fresh(#[trigger] removed@[i], now, timeout),
            removed@.to_multiset() == stale_states(old(self)@, now, timeout).to_multiset(),
    {
        let n = self.len();
        let mut out = PackedIpv4Peers { bytes: Vec::new(), sorted: true };
        let mut removed: Vec<PeerState> = Vec::new();
        proof {
            assert(out@ =~= Seq::<Entry>::empty());
            assert(self.bytes.len() == self.bytes@.len());
            lemma_whole_slots(self.bytes@.len() as int, 12);
        }
        let mut read: usize = 0;
        while read < n
            invariant
                n == self@.len(),
                read <= n,
                self.wf(),
                self.sorted,
                self.bytes@.len() <= usize::MAX,
                self.bytes@.len() == 12 * n,
                out.bytes@.len() % 12 == 0,
                out.bytes@.len() == 12 * out@.len(),
                strictly_sorted(entry_keys(out@)),
                forall|j: int, r: int|
                    0 <= j < out@.len() && read <= r < n ==> bytes_lt(
                        (#[trigger] out@[j]).0,
                        (#[trigger] self@[r]).0,
                    ),
                forall|k: Seq<u8>|
                    (#[trigger] lookup(out@, k)) is Some ==> lookup(self@, k) == lookup(out@, k)
                        && is_fresh(lookup(out@, k).unwrap(), now, timeout),
                forall|q: int|
                    0 <= q < read && is_fresh((#[trigger] self@[q]).1, now, timeout) ==> lookup(
                        out@,
                        self@[q].0,
                    ) == Some(self@[q].1),
                out@.len() + removed@.len() == read,
                seeders(out@) + complete_count(removed@) == seeders(self@.subrange(0, read as int)),
                forall|i: int| 0 <= i < removed@.len() ==> !is_fresh(#[trigger] removed@[i], now, timeout),
                removed@ == stale_states(self@.subrange(0, read as int), now, timeout),
            decreases n - read,
        {
            let key = self.key_at(read);
            let peer = self.state_at(read);
            let ghost e = self@;
            let ghost x = (v4_bytes(key), peer);
            proof {
                assert(e.subrange(0, read + 1).drop_last() =~= e.subrange(0, read as int));
                assert(e.subrange(0, read + 1).last() == e[read as int]);
                lemma_lookup_at(e, read as int);
            }
            if peer_is_fresh(&peer, now, timeout) {
                let ghost before = out@;
                proof {
                    lemma_sorted_unique(before);
                    assert forall|j: int| 0 <= j < before.len() implies (#[trigger] before[j]).0 != x.0 by {
                        assert(bytes_lt(before[j].0, e[read as int].0));
                        lemma_lt_irreflexive(x.0);
                    }
                    lemma_lookup_absent(before, x.0);
                    lemma_sorted_insert(before, before.len() as int, x);
                    lemma_insert_lookup(before, before.len() as int, x);
                    lemma_seeders_insert(before, before.len() as int, x);
                    assert(before.push(x) =~= before.insert(before.len() as int, x));
                    lemma_slot_bounds(12, before.len() as int, n as int);
                }
                out.push(key, peer);
                proof {
                    assert forall|j: int, r: int|
                        0 <= j < out@.len() && read + 1 <= r < n implies bytes_lt(
                            (#[trigger] out@[j]).0,
                            (#[trigger] e[r]).0,
                        ) by {
                        if j < before.len() {
                            assert(out@[j] == before[j]);
                        } else {
                            assert(bytes_lt(entry_keys(e)[read as int], entry_keys(e)[r]));
                        }
                    }
                    assert forall|q: int|
                        0 <= q < read + 1 && is_fresh((#[trigger] e[q]).1, now, timeout) implies lookup(
                            out@,
                            e[q].0,
                        ) == Some(e[q].1) by {
                        if q < read {
                            assert(e[q].0 != x.0);
                        }
                    }
                    lemma_whole_slots(out.bytes@.len() as int, 12);
                    lemma_len_div(12, out@.len() as int);
                }
            } else {
                let ghost before = removed@;
                removed.push(peer);
                proof {
                    assert(removed@.drop_last() =~= before);
                }
            }
            read = read + 1;
        }
        proof {
            assert(self@.subrange(0, n as int) =~= self@);
            lemma_sorted_unique(out@);
            assert forall|k: Seq<u8>| #[trigger] lookup(out@, k) == kept(lookup(self@, k), now, timeout) by {
                if has_key(self@, k) {
                    let q = choose|q: int| 0 <= q < self@.len() && (#[trigger] self@[q]).0 == k;
                    lemma_lookup_at(self@, q);
                }
            }
        }
        let keep_sorted = out.len() >= DEMOTE_THRESHOLD;
        self.bytes = out.bytes;
        self.sorted = keep_sorted;
        removed
    }

    /// Appends the compact keys of all entries but `exclude`, in stored order.
    #[verifier::rlimit(40)]
    pub fn append_compact(&self, exclude: Option<Ipv4PeerKey>, out: &mut Vec<u8>)
        requires
            self.wf(),
        ensures
            final(out)@ == old(out)@ + compact_keys(self@, Self::excluded(exclude)),
    {
        let n = self.len();
        let ghost ex = Self::excluded(exclude);
        let mut index: usize = 0;
        assert(self@.subrange(0, 0) =~= Seq::<Entry>::empty());
        while index < n
            invariant
                n == self@.len(),
                index <= n,
                self.wf(),
                ex == Self::excluded(exclude),
                out@ == old(out)@ + compact_keys(self@.subrange(0, index as int), ex),
            decreases n - index,
        {
            let key = self.key_at(index);
            let skip = match exclude {
                Some(x) => x.same(&key),
                None => false,
            };
            let ghost before = out@;
            let ghost sub = self@.subrange(0, index + 1);
            proof {
                assert(sub.drop_last() =~= self@.subrange(0, index as int));
                assert(sub.last() == self@[index as int]);
                if let Some(x) = exclude {
                    if v4_bytes(x) == v4_bytes(key) {
                        lemma_v4_bytes_injective(x, key);
                    }
                }
            }
            if !skip {
                let c = key.compact();
                out.extend_from_slice(c.as_slice());
                proof {
                    assert(out@ =~= before + c@);
                }
            }
            proof {
                assert(flatten(kept_keys(sub, ex)) =~= if skip {
                    flatten(kept_keys(self@.subrange(0, index as int), ex))
                } else {
                    flatten(kept_keys(self@.subrange(0, index as int), ex)) + v4_bytes(key)
                }) by {
                    if !skip {
                        let ks = kept_keys(self@.subrange(0, index as int), ex).push(v4_bytes(key));
                        assert(ks.drop_last() =~= kept_keys(self@.subrange(0, index as int), ex));
                    }
                }
            }
            index = index + 1;
        }
        assert(self@.subrange(0, n as int) =~= self@);
    }

    /// Appends the compact keys of up to `count` entries other than `exclude`,
    /// spread evenly over the store from a random start.
    pub fn select_random_compact(&self, count: usize, rng: &mut Rng, exclude: Option<Ipv4PeerKey>, out: &mut Vec<u8>)
        requires
            self.wf(),
        ensures
            final(out)@ == old(out)@ + flatten(random_pick(self@, Self::excluded(exclude), count as nat, old(rng).0).0),
            final(rng).0 == random_pick(self@, Self::excluded(exclude), count as nat, old(rng).0).1,
            count >= self@.len() ==> final(out)@ == old(out)@ + compact_keys(self@, Self::excluded(exclude)),
            ({
                let ks = random_pick(self@, Self::excluded(exclude), count as nat, old(rng).0).0;
                let want = if count < self@.len() {
                    count as int
                } else {
                    self@.len() as int
                };
                &&& ks.len() <= count
                &&& distinct_keys(ks)
                &&& picked_from(ks, self@, Self::excluded(exclude), 6 as nat)
                &&& !(Self::excluded(exclude) matches Some(x) && has_key(self@, x)) ==> ks.len() == want
                &&& ks.len() + 1 >= want
            }),
    {
        let total = self.len();
        let ghost r0 = rng.0;
        proof {
            lemma_key_lengths(self.bytes@, 6);
            lemma_kept_keys(self@, Self::excluded(exclude), 6 as nat);
            lemma_kept_keys_distinct(self@, Self::excluded(exclude));
        }
        if total == 0 || count == 0 {
            proof {
                let ks = Seq::<Seq<u8>>::empty();
                assert(flatten(ks) =~= Seq::<u8>::empty());
                assert(out@ =~= out@ + flatten(ks));
                if total == 0 {
                    assert(kept_keys(self@, Self::excluded(exclude)) =~= ks);
                }
            }
            return;
        }
        if count >= total {
            self.append_compact(exclude, out);
            proof {
                lemma_kept_keys_len(self@, Self::excluded(exclude));
            }
            return;
        }
        proof {
            assert(self.bytes.len() == self.bytes@.len());
            lemma_whole_slots(self.bytes@.len() as int, 12);
        }
        let mut shifted_total: u64 = total as u64;
        let mut shift: u64 = 0;
        proof {
            vstd::arithmetic::power2::lemma2_to64();
        }
        while shifted_total < 0x4000_0000_0000_0000u64 && shift < 62
            invariant
                1 <= shifted_total < 0x8000_0000_0000_0000u64,
                shift <= 62,
                shifted_total as nat == total as nat * pow2(shift as nat),
                spread_shift(total as nat, 0) == spread_shift(total as nat, shift as nat),
            decreases 62 - shift,
        {
            proof {
                vstd::arithmetic::power2::lemma_pow2_unfold((shift + 1) as nat);
                assert(total as nat * pow2((shift + 1) as nat) == 2 * (total as nat * pow2(shift as nat))) by (nonlinear_arith)
                    requires
                        pow2((shift + 1) as nat) == 2 * pow2(shift as nat),
                ;
            }
            shifted_total = shifted_total * 2;
            shift = shift + 1;
        }
        assert(spread_shift(total as nat, shift as nat) == shift);
        let shifted_step = shifted_total / (count as u64);
        proof {
            vstd::arithmetic::div_mod::lemma_div_is_ordered(
                shifted_total as int,
                0x8000_0000_0000_0000int,
                count as int,
            );
            vstd::arithmetic::power2::lemma_pow2_pos(shift as nat);
        }
        let ghost p = pow2(shift as nat);
        let mut pos = rng.next_usize(total);
        let ghost p0 = pos as int;
        let ghost ex = Self::excluded(exclude);
        let ghost xi: int = match ex {
            Some(k) => if has_key(self@, k) {
                choose|i: int| 0 <= i < self@.len() && (#[trigger] self@[i]).0 == k
            } else {
                -1
            },
            None => -1,
        };
        let ghost mut ks: Seq<Seq<u8>> = Seq::empty();
        let ghost mut cum: int = 0;
        let ghost mut offs: Seq<int> = Seq::empty();
        let ghost mut hit: Option<int> = None;
        let ghost start = out@;
        let mut remaining = count;
        proof {
            lemma_spread_within(total as nat, count as nat, p);
            vstd::arithmetic::div_mod::lemma_small_mod(pos as nat, total as nat);
            let w = pick_walk(self@, ex, shifted_step as nat, p, remaining as nat, pos as int, rng.0);
            assert(random_pick(self@, ex, count as nat, r0) == w);
            assert(ks + w.0 =~= w.0);
        }
        while remaining > 0
            invariant
                total == self@.len(),
                0 < count < total,
                remaining <= count,
                pos < total,
                self.wf(),
                shift <= 62,
                p == pow2(shift as nat),
                p > 0,
                shifted_total as nat == total as nat * p,
                shifted_step as nat == (total as nat * p) / (count as nat),
                shifted_step <= 0x8000_0000_0000_0000u64 / (count as u64),
                ex == Self::excluded(exclude),
                out@ == start + flatten(ks),
                ks.len() + remaining + (if hit is Some {
                    1int
                } else {
                    0
                }) == count,
                !(ex matches Some(x) && has_key(self@, x)) ==> hit is None,
                picked_from(ks, self@, ex, 6 as nat),
                keys_of_len(self@, 6 as nat),
                0 <= p0 < total,
                pos as int == (p0 + cum) % (total as int),
                cum >= count - remaining,
                cum + (remaining as nat * shifted_step as nat) / p <= (count as nat * shifted_step as nat) / p,
                (count as nat * shifted_step as nat) / p <= total,
                offs.len() == ks.len(),
                forall|j: int|
                    0 <= j < offs.len() ==> 1 <= #[trigger] offs[j] <= cum && ks[j] == self@[(p0 + offs[j]) % (
                    total as int)].0,
                forall|i: int, j: int| 0 <= i < j < offs.len() ==> #[trigger] offs[i] < #[trigger] offs[j],
                distinct_keys(ks),
                hit matches Some(c) ==> 1 <= c <= cum && (p0 + c) % (total as int) == xi,
                ks + pick_walk(self@, ex, shifted_step as nat, p, remaining as nat, pos as int, rng.0).0 == random_pick(
                    self@,
                    ex,
                    count as nat,
                    r0,
                ).0,
                pick_walk(self@, ex, shifted_step as nat, p, remaining as nat, pos as int, rng.0).1 == random_pick(
                    self@,
                    ex,
                    count as nat,
                    r0,
                ).1,
                xi == -1 || (0 <= xi < self@.len() && ex == Some(self@[xi].0)),
                ex is Some && has_key(self@, ex->0) ==> 0 <= xi,
            decreases remaining,
        {
            let ghost w_pos = pos as int;
            let ghost w_state = rng.0;
            let ghost w_rem = remaining as nat;
            let ghost w_ks = ks;
            remaining = remaining - 1;
            proof {
                assert((remaining as u64 + 1) * shifted_step <= 0x8000_0000_0000_0000u64) by (nonlinear_arith)
                    requires
                        remaining < count,
                        count > 0,
                        shifted_step <= 0x8000_0000_0000_0000u64 / (count as u64),
                ;
                assert((remaining as u64) * shifted_step <= (remaining as u64 + 1) * shifted_step) by (nonlinear_arith);
            }
            let hi = ((remaining as u64 + 1) * shifted_step) >> shift;
            let lo = ((remaining as u64) * shifted_step) >> shift;
            proof {
                vstd::bits::lemma_u64_shr_is_div(((remaining as u64 + 1) * shifted_step) as u64, shift);
                vstd::bits::lemma_u64_shr_is_div(((remaining as u64) * shifted_step) as u64, shift);
                lemma_even_spacing(total as nat, count as nat, p, shifted_step as nat, remaining as nat);
                assert(hi as nat == ((remaining as nat + 1) * shifted_step as nat) / p);
                assert(lo as nat == (remaining as nat * shifted_step as nat) / p);
            }
            let diff = if hi > lo {
                hi - lo
            } else {
                0
            };
            let step = if diff > 1 {
                rng.next_usize(#[verifier::truncate] (diff as usize))
            } else {
                0
            };
            proof {
                assert(diff >= 1);
                if diff > 1 {
                    assert((diff as usize) as u64 == diff);
                }
                assert(1 + step <= diff);
            }
            let ghost old_pos = pos as int;
            pos = (((pos as u128) + 1 + (step as u128)) % (total as u128)) as usize;
            proof {
                let adv = 1 + step as int;
                vstd::arithmetic::div_mod::lemma_add_mod_noop(p0 + cum, adv, total as int);
                vstd::arithmetic::div_mod::lemma_small_mod(adv as nat % total as nat, total as nat);
                vstd::arithmetic::div_mod::lemma_add_mod_noop_right(old_pos, adv, total as int);
                assert(pos as int == (old_pos + adv) % (total as int));
                assert(pos as int == (p0 + cum + adv) % (total as int)) by {
                    vstd::arithmetic::div_mod::lemma_add_mod_noop(p0 + cum, adv, total as int);
                    vstd::arithmetic::div_mod::lemma_add_mod_noop(old_pos, adv, total as int);
                    vstd::arithmetic::div_mod::lemma_mod_twice(p0 + cum, total as int);
                }
                cum = cum + adv;
            }
            let key = self.key_at(pos);
            let skip = match exclude {
                Some(x) => x.same(&key),
                None => false,
            };
            proof {
                lemma_lookup_at(self@, pos as int);
                if let Some(x) = exclude {
                    if v4_bytes(x) == v4_bytes(key) {
                        lemma_v4_bytes_injective(x, key);
                    }
                }
            }
            if !skip {
                let ghost before = out@;
                let c = key.compact();
                out.extend_from_slice(c.as_slice());
                proof {
                    let nks = ks.push(v4_bytes(key));
                    let noffs = offs.push(cum);
                    assert(cum <= total);
                    assert forall|j: int| 0 <= j < noffs.len() implies 1 <= #[trigger] noffs[j] <= cum && nks[j]
                        == self@[(p0 + noffs[j]) % (total as int)].0 by {
                        if j < offs.len() {
                            assert(noffs[j] == offs[j] && nks[j] == ks[j]);
                        }
                    }
                    assert forall|i: int, j: int| 0 <= i < j < noffs.len() implies #[trigger] noffs[i] < #[trigger] noffs[j] by {
                        if j < offs.len() {
                            assert(noffs[i] == offs[i] && noffs[j] == offs[j]);
                        } else {
                            assert(noffs[i] == offs[i]);
                        }
                    }
                    assert forall|i: int, j: int| 0 <= i < j < nks.len() implies #[trigger] nks[i] != #[trigger] nks[j] by {
                        if j < ks.len() {
                            assert(nks[i] == ks[i] && nks[j] == ks[j]);
                        } else {
                            assert(nks[i] == ks[i]);
                            let a = offs[i];
                            lemma_offsets_distinct(p0, a, cum, total as int);
                            let pa = (p0 + a) % (total as int);
                            vstd::arithmetic::div_mod::lemma_mod_pos_bound(p0 + a, total as int);
                            assert(self@[pa].0 != self@[pos as int].0);
                        }
                    }
                    offs = noffs;
                    assert(nks.drop_last() =~= ks);
                    assert(out@ =~= before + c@);
                    assert(out@ =~= start + flatten(nks));
                    assert forall|j: int| 0 <= j < nks.len() implies has_key(self@, #[trigger] nks[j]) && ex
                        != Some(nks[j]) && nks[j].len() == 6 as nat by {
                        if j < ks.len() {
                            assert(nks[j] == ks[j]);
                        }
                    }
                    ks = nks;
                }
            } else {
                proof {
                    assert(ex == Some(self@[pos as int].0));
                    assert(has_key(self@, ex->0));
                    assert(xi == pos as int) by {
                        if xi != pos as int {
                            assert(self@[xi].0 == self@[pos as int].0);
                        }
                    }
                    if let Some(c) = hit {
                        lemma_offsets_distinct(p0, c, cum, total as int);
                    }
                    hit = Some(cum);
                }
            }
            proof {
                let g = pick_gap(shifted_step as nat, p, remaining as nat);
                assert(g == diff);
                let rest = pick_walk(self@, ex, shifted_step as nat, p, remaining as nat, pos as int, rng.0);
                let k = self@[pos as int].0;
                assert(pick_walk(self@, ex, shifted_step as nat, p, w_rem, w_pos, w_state) == (
                    if ex == Some(k) {
                        rest.0
                    } else {
                        seq![k] + rest.0
                    },
                    rest.1,
                ));
                if ex == Some(k) {
                    assert(ks == w_ks);
                } else {
                    assert(ks == w_ks.push(k));
                    assert(w_ks + (seq![k] + rest.0) =~= ks + rest.0);
                }
            }
        }
    }

    /// Re-orders the entries by key and marks the store sorted.
    fn sort_and_promote(&mut self)
        requires
            old(self).bytes@.len() % 12 == 0,
            unique_keys(old(self)@),
        ensures
            final(self).bytes@.len() % 12 == 0,
            final(self).sorted,
            strictly_sorted(entry_keys(final(self)@)),
            final(self)@.len() == old(self)@.len(),
            seeders(final(self)@) == seeders(old(self)@),
            forall|k: Seq<u8>| lookup(final(self)@, k) == lookup(old(self)@, k),
    {
        let n = self.len();
        let mut out = PackedIpv4Peers { bytes: Vec::new(), sorted: true };
        assert(out@ =~= Seq::<Entry>::empty());
        let mut i: usize = 0;
        proof {
            assert(self.bytes.len() == self.bytes@.len());
        }
        while i < n
            invariant
                n == self@.len(),
                i <= n,
                self.bytes@.len() % 12 == 0,
                self.bytes@.len() <= usize::MAX,
                unique_keys(self@),
                out.bytes@.len() % 12 == 0,
                out.bytes@.len() == 12 * i,
                out@.len() == i,
                strictly_sorted(entry_keys(out@)),
                seeders(out@) == seeders(self@.subrange(0, i as int)),
                forall|q: int| 0 <= q < i ==> lookup(out@, (#[trigger] self@[q]).0) == Some(self@[q].1),
                forall|k: Seq<u8>| has_key(out@, k) ==> exists|q: int| 0 <= q < i && (#[trigger] self@[q]).0 == k,
            decreases n - i,
        {
            let key = self.key_at(i);
            let peer = self.state_at(i);
            proof {
                self.lemma_slot_in_bounds(i as int);
                lemma_slot_bounds(12, i as int, n as int);
                assert(out.bytes@.len() + 12 <= self.bytes@.len());
                if has_key(out@, self@[i as int].0) {
                    let q = choose|q: int| 0 <= q < i && (#[trigger] self@[q]).0 == self@[i as int].0;
                    assert(false);
                }
            }
            match out.search_index(&key) {
                Ok(pos) => {
                    proof {
                        assert(out@[pos as int].0 == self@[i as int].0);
                        assert(has_key(out@, self@[i as int].0));
                    }
                },
                Err(pos) => {
                    let ghost before = out@;
                    out.insert_at(pos, key, peer);
                    proof {
                        let x = (v4_bytes(key), peer);
                        lemma_sorted_unique(before);
                        lemma_sorted_insert(before, pos as int, x);
                        lemma_sorted_unique(out@);
                        lemma_seeders_insert(before, pos as int, x);
                        assert(self@.subrange(0, i + 1) =~= self@.subrange(0, i as int).push(self@[i as int]));
                        assert(self@.subrange(0, i + 1).drop_last() =~= self@.subrange(0, i as int));
                        lemma_insert_lookup(before, pos as int, x);
                        assert forall|k: Seq<u8>| has_key(out@, k) implies exists|q: int|
                            0 <= q < i + 1 && (#[trigger] self@[q]).0 == k by {
                            if k != x.0 {
                                assert(has_key(before, k)) by {
                                    let j = choose|j: int| 0 <= j < out@.len() && (#[trigger] out@[j]).0 == k;
                                    if j < pos {
                                        assert(before[j] == out@[j]);
                                    } else {
                                        assert(before[j - 1] == out@[j]);
                                    }
                                }
                            }
                        }
                    }
                },
            }
            proof {
                lemma_slot_bounds(12, i as int, n as int);
            }
            i = i + 1;
        }
        proof {
            assert(self@.subrange(0, n as int) =~= self@);
            lemma_sorted_unique(out@);
            assert forall|k: Seq<u8>| lookup(out@, k) == lookup(self@, k) by {
                if has_key(self@, k) {
                    let q = choose|q: int| 0 <= q < self@.len() && (#[trigger] self@[q]).0 == k;
                    lemma_lookup_at(self@, q);
                } else {
                    if has_key(out@, k) {
                        let q = choose|q: int| 0 <= q < n && (#[trigger] self@[q]).0 == k;
                        assert(has_key(self@, k));
                    }
                }
            }
        }
        self.bytes = out.bytes;
        self.sorted = true;
    }
}

} // verus!

verus! {

/// Peers of one address family, packed into fixed-width byte entries.
#[derive(Debug)]
pub struct PackedIpv6Peers {
    /// The entries, back to back.
    pub bytes: Vec<u8>,
    /// Entries are kept in ascending key order.
    pub sorted: bool,
}

impl View for PackedIpv6Peers {
    type V = Seq<Entry>;

    open spec fn view(&self) -> Seq<Entry> {
        decode_entries(self.bytes@, 18)
    }
}

impl PackedIpv6Peers {
    /// The store is well formed: whole entries, distinct keys, sorted when
    /// marked so, and small when unsorted.
    pub open spec fn wf(&self) -> bool {
        &&& self.bytes@.len() % 24 == 0
        &&& unique_keys(self@)
        &&& self.sorted ==> strictly_sorted(entry_keys(self@))
        &&& !self.sorted ==> self@.len() < PROMOTE_THRESHOLD
    }

    /// An empty, unsorted store.
    pub fn new() -> (r: Self)
        ensures
            r.wf(),
            r@.len() == 0,
            !r.sorted,
    {
        let r = PackedIpv6Peers { bytes: Vec::new(), sorted: false };
        assert(r@ =~= Seq::<Entry>::empty());
        r
    }

    proof fn lemma_slot_in_bounds(&self, index: int)
        requires
            self.bytes@.len() % 24 == 0,
            0 <= index < self@.len(),
        ensures
            0 <= 24 * index,
            24 * index + 24 <= self.bytes@.len(),
            self.bytes@.len() <= usize::MAX,
            self@[index] == decode_entry(slot(self.bytes@, 24, index), 18),
    {
        assert(self.bytes.len() == self.bytes@.len());
        lemma_whole_slots(self.bytes@.len() as int, 24);
        lemma_slot_bounds(24, index, self@.len() as int);
    }

    pub fn len(&self) -> (r: usize)
        ensures
            r == self@.len(),
    {
        self.bytes.len() / IPV6_ENTRY_LEN
    }

    /// Releases spare capacity: an empty store drops its buffer, and a store
    /// with room for more than four extra entries shrinks to the next power
    /// of two of its entries (at least four). The peers stay as they are.
    pub fn shrink_if_idle(&mut self)
        ensures
            final(self).bytes@ == old(self).bytes@,
            final(self).sorted == old(self).sorted,
            final(self)@ == old(self)@,
    {
        shrink_buffer(&mut self.bytes, IPV6_ENTRY_LEN);
    }

    pub fn is_empty(&self) -> (r: bool)
        requires
            self.wf(),
        ensures
            r == (self@.len() == 0),
    {
        proof {
            lemma_whole_slots(self.bytes@.len() as int, 24);
        }
        self.bytes.len() == 0
    }

    /// The key of entry `index`.
    fn key_at(&self, index: usize) -> (r: Ipv6PeerKey)
        requires
            self.bytes@.len() % 24 == 0,
            index < self@.len(),
        ensures
            v6_bytes(r) == self@[index as int].0,
    {
        proof {
            self.lemma_slot_in_bounds(index as int);
        }
        let o = index * IPV6_ENTRY_LEN;
        let mut ip = [0u8; 16];
        let mut j: usize = 0;
        while j < 16
            invariant
                j <= 16,
                o == 24 * index,
                o + 24 <= self.bytes@.len(),
                forall|q: int| 0 <= q < j ==> ip@[q] == self.bytes@[o + q],
            decreases 16 - j,
        {
            ip[j] = self.bytes[o + j];
            j = j + 1;
        }
        let b = &self.bytes;
        let r = Ipv6PeerKey { ip, port: ((b[o + 16] as u16) << 8) | (b[o + 17] as u16) };
        proof {
            assert(r.port == be16(self.bytes@[o + 16], self.bytes@[o + 17]));
            lemma_be16_bytes(self.bytes@[o + 16], self.bytes@[o + 17]);
            assert(v6_bytes(r) =~= slot(self.bytes@, 24, index as int).subrange(0, 18));
        }
        r
    }

    /// The number of complete entries.
    pub fn seeder_total(&self) -> (r: usize)
        requires
            self.bytes@.len() % 24 == 0,
        ensures
            r == seeders(self@),
    {
        let n = self.len();
        let mut c: usize = 0;
        let mut i: usize = 0;
        proof {
            assert(self@.subrange(0, 0) =~= Seq::<Entry>::empty());
        }
        while i < n
            invariant
                n == self@.len(),
                i <= n,
                self.bytes@.len() % 24 == 0,
                c == seeders(self@.subrange(0, i as int)),
            decreases n - i,
        {
            let st = self.state_at(i);
            proof {
                assert(self@.subrange(0, i + 1).drop_last() =~= self@.subrange(0, i as int));
                lemma_seeders_bound(self@.subrange(0, i as int));
            }
            if st.complete {
                c = c + 1;
            }
            i = i + 1;
        }
        assert(self@.subrange(0, n as int) =~= self@);
        c
    }

    /// The state of entry `index`.
    fn state_at(&self, index: usize) -> (r: PeerState)
        requires
            self.bytes@.len() % 24 == 0,
            index < self@.len(),
        ensures
            r == self@[index as int].1,
    {
        proof {
            self.lemma_slot_in_bounds(index as int);
        }
        let o = index * IPV6_ENTRY_LEN + 18;
        let b = &self.bytes;
        let r = PeerState {
            complete: b[o] & FLAG_COMPLETE != 0,
            last_seen_secs: ((b[o + 2] as u32) << 24) | ((b[o + 3] as u32) << 16) | ((b[o + 4] as u32) << 8)
                | (b[o + 5] as u32),
            client_tag: b[o + 1],
        };
        proof {
            let e = slot(self.bytes@, 24, index as int).subrange(18 as int, 18 as int + 6);
            assert(e[0] == self.bytes@[o as int]);
            assert(e[1] == self.bytes@[o + 1]);
            assert(e[2] == self.bytes@[o + 2]);
            assert(e[3] == self.bytes@[o + 3]);
            assert(e[4] == self.bytes@[o + 4]);
            assert(e[5] == self.bytes@[o + 5]);
        }
        r
    }

    /// The raw bytes of entry `index`.
    fn slot_bytes(&self, index: usize) -> (r: [u8; 24])
        requires
            self.bytes@.len() % 24 == 0,
            index < self@.len(),
        ensures
            r@ == slot(self.bytes@, 24, index as int),
    {
        proof {
            self.lemma_slot_in_bounds(index as int);
        }
        let o = index * IPV6_ENTRY_LEN;
        let mut out = [0u8; 24];
        let mut j: usize = 0;
        while j < IPV6_ENTRY_LEN
            invariant
                j <= 24,
                o == 24 * index,
                o + 24 <= self.bytes@.len(),
                self.bytes@.len() <= usize::MAX,
                forall|q: int| 0 <= q < j ==> out@[q] == self.bytes@[o + q],
            decreases 24 - j,
        {
            out[j] = self.bytes[o + j];
            j = j + 1;
        }
        assert(out@ =~= slot(self.bytes@, 24, index as int));
        out
    }

    /// Overwrites the bytes of entry `index` with `e`.
    fn write_slot(&mut self, index: usize, e: &[u8; 24])
        requires
            old(self).bytes@.len() % 24 == 0,
            index < old(self)@.len(),
        ensures
            final(self).bytes@.len() == old(self).bytes@.len(),
            final(self)@ == old(self)@.update(index as int, decode_entry(e@, 18)),
            final(self).sorted == old(self).sorted,
    {
        proof {
            old(self).lemma_slot_in_bounds(index as int);
            lemma_entries_splice(old(self).bytes@, 18, index as int, e@);
        }
        let o = index * IPV6_ENTRY_LEN;
        let ghost ob = self.bytes@;
        let mut j: usize = 0;
        while j < IPV6_ENTRY_LEN
            invariant
                j <= 24,
                o == 24 * index,
                o + 24 <= ob.len(),
                ob.len() <= usize::MAX,
                self.sorted == old(self).sorted,
                self.bytes@ == ob.subrange(0, o as int) + e@.subrange(0, j as int) + ob.subrange(
                    o + j,
                    ob.len() as int,
                ),
            decreases 24 - j,
        {
            self.bytes[o + j] = e[j];
            assert(self.bytes@ =~= ob.subrange(0, o as int) + e@.subrange(0, j + 1) + ob.subrange(
                o + j + 1,
                ob.len() as int,
            ));
            j = j + 1;
        }
        assert(e@.subrange(0, 24) =~= e@);
    }

    /// The bytes of an entry for `key` and `peer`.
    fn encode(key: Ipv6PeerKey, peer: PeerState) -> (r: [u8; 24])
        ensures
            r@ == encode_entry(v6_bytes(key), peer),
            decode_entry(r@, 18) == (v6_bytes(key), peer),
    {
        let c = key.compact();
        let mut out = [0u8; 24];
        let mut j: usize = 0;
        while j < 18
            invariant
                j <= 18,
                c@ == v6_bytes(key),
                forall|q: int| 0 <= q < j ==> out@[q] == c@[q],
            decreases 18 - j,
        {
            out[j] = c[j];
            j = j + 1;
        }
        let t = peer.last_seen_secs;
        out[18] = flags(&peer);
        out[18 + 1] = peer.client_tag;
        out[18 + 2] = (t >> 24) as u8;
        out[18 + 3] = (t >> 16) as u8;
        out[18 + 4] = (t >> 8) as u8;
        out[18 + 5] = t as u8;
        proof {
            assert(out@ =~= encode_entry(v6_bytes(key), peer));
            lemma_entry_roundtrip(v6_bytes(key), peer);
        }
        out
    }

    /// Overwrites entry `index` with `key` and `peer`.
    fn write_at(&mut self, index: usize, key: Ipv6PeerKey, peer: PeerState)
        requires
            old(self).bytes@.len() % 24 == 0,
            index < old(self)@.len(),
        ensures
            final(self).bytes@.len() == old(self).bytes@.len(),
            final(self)@ == old(self)@.update(index as int, (v6_bytes(key), peer)),
            final(self).sorted == old(self).sorted,
    {
        let e = Self::encode(key, peer);
        self.write_slot(index, &e);
    }

    /// Appends an entry for `key` and `peer`.
    fn push(&mut self, key: Ipv6PeerKey, peer: PeerState)
        requires
            old(self).bytes@.len() % 24 == 0,
            old(self).bytes@.len() + 24 <= usize::MAX,
        ensures
            final(self).bytes@.len() % 24 == 0,
            final(self)@ == old(self)@.push((v6_bytes(key), peer)),
            final(self).sorted == old(self).sorted,
    {
        let e = Self::encode(key, peer);
        let ghost ob = self.bytes@;
        let mut j: usize = 0;
        while j < IPV6_ENTRY_LEN
            invariant
                j <= 24,
                self.bytes@ == ob + e@.subrange(0, j as int),
                self.sorted == old(self).sorted,
            decreases 24 - j,
        {
            self.bytes.push(e[j]);
            assert(self.bytes@ =~= ob + e@.subrange(0, j + 1));
            j = j + 1;
        }
        assert(e@.subrange(0, 24) =~= e@);
        proof {
            lemma_entries_push(ob, 18, e@);
        }
    }

    /// Removes entry `index`, moving the last entry into its place.
    fn swap_remove(&mut self, index: usize) -> (r: PeerState)
        requires
            old(self).bytes@.len() % 24 == 0,
            index < old(self)@.len(),
        ensures
            r == old(self)@[index as int].1,
            final(self).bytes@.len() % 24 == 0,
            final(self)@ == old(self)@.update(index as int, old(self)@.last()).drop_last(),
            final(self).sorted == old(self).sorted,
    {
        let removed = self.state_at(index);
        let last = self.len() - 1;
        proof {
            self.lemma_slot_in_bounds(last as int);
        }
        if index != last {
            let replacement = self.slot_bytes(last);
            self.write_slot(index, &replacement);
        }
        proof {
            lemma_whole_slots(self.bytes@.len() as int, 24);
            lemma_entries_truncate(self.bytes@, 18, last as int);
        }
        let ghost before_truncate = self@;
        self.bytes.truncate(last * IPV6_ENTRY_LEN);
        assert(self@ =~= old(self)@.update(index as int, old(self)@.last()).drop_last());
        removed
    }

    /// Inserts an entry for `key` and `peer` at position `index`.
    fn insert_at(&mut self, index: usize, key: Ipv6PeerKey, peer: PeerState)
        requires
            old(self).bytes@.len() % 24 == 0,
            index <= old(self)@.len(),
            old(self).bytes@.len() + 24 <= usize::MAX,
        ensures
            final(self).bytes@.len() % 24 == 0,
            final(self)@ == old(self)@.insert(index as int, (v6_bytes(key), peer)),
            final(self).sorted == old(self).sorted,
    {
        let ghost ob = self.bytes@;
        let old_len = self.bytes.len();
        let offset = index * IPV6_ENTRY_LEN;
        proof {
            lemma_whole_slots(ob.len() as int, 24);
            assert(24 * index <= ob.len()) by (nonlinear_arith)
                requires
                    index <= ob.len() / 24,
                    ob.len() == 24 * (ob.len() / 24),
            ;
        }
        let mut j: usize = 0;
        while j < IPV6_ENTRY_LEN
            invariant
                j <= 24,
                old_len == ob.len(),
                old_len + 24 <= usize::MAX,
                self.bytes@.len() == old_len + j,
                self.sorted == old(self).sorted,
                forall|q: int| 0 <= q < old_len ==> self.bytes@[q] == ob[q],
            decreases 24 - j,
        {
            self.bytes.push(0);
            j = j + 1;
        }
        let mut p: usize = old_len;
        while p > offset
            invariant
                offset <= p <= old_len,
                offset == 24 * index,
                old_len == ob.len(),
                old_len + 24 <= usize::MAX,
                self.sorted == old(self).sorted,
                self.bytes@.len() == old_len + 24,
                forall|q: int| 0 <= q < p ==> self.bytes@[q] == ob[q],
                forall|q: int| p + 24 <= q < old_len + 24 ==> self.bytes@[q] == ob[q - 24],
            decreases p,
        {
            p = p - 1;
            let v = self.bytes[p];
            self.bytes[p + IPV6_ENTRY_LEN] = v;
        }
        let ghost cur = self.bytes@;
        let ghost gap = cur.subrange(offset as int, offset + 24);
        proof {
            assert(cur =~= ob.subrange(0, offset as int) + gap + ob.subrange(offset as int, ob.len() as int));
            lemma_entries_insert(ob, 18, index as int, gap);
            assert(self@ == decode_entries(ob, 18).insert(index as int, decode_entry(gap, 18)));
        }
        self.write_at(index, key, peer);
        assert(self@ =~= old(self)@.insert(index as int, (v6_bytes(key), peer)));
    }

    /// Removes entry `index`, shifting later entries down.
    fn remove_at(&mut self, index: usize) -> (r: PeerState)
        requires
            old(self).bytes@.len() % 24 == 0,
            index < old(self)@.len(),
        ensures
            r == old(self)@[index as int].1,
            final(self).bytes@.len() % 24 == 0,
            final(self)@ == old(self)@.remove(index as int),
            final(self).sorted == old(self).sorted,
    {
        let removed = self.state_at(index);
        proof {
            self.lemma_slot_in_bounds(index as int);
        }
        let ghost ob = self.bytes@;
        let offset = index * IPV6_ENTRY_LEN;
        let end = self.bytes.len() - IPV6_ENTRY_LEN;
        let mut p: usize = offset;
        while p < end
            invariant
                offset <= p <= end,
                end + 24 == ob.len(),
                ob.len() <= usize::MAX,
                self.sorted == old(self).sorted,
                self.bytes@.len() == ob.len(),
                forall|q: int| 0 <= q < offset ==> self.bytes@[q] == ob[q],
                forall|q: int| offset <= q < p ==> self.bytes@[q] == ob[q + 24],
                forall|q: int| p <= q < ob.len() ==> self.bytes@[q] == ob[q],
            decreases end - p,
        {
            let v = self.bytes[p + IPV6_ENTRY_LEN];
            self.bytes[p] = v;
            p = p + 1;
        }
        self.bytes.truncate(end);
        proof {
            assert(self.bytes@ =~= ob.subrange(0, offset as int) + ob.subrange(
                offset + 24,
                ob.len() as int,
            ));
            lemma_entries_remove(ob, 18, index as int);
        }
        removed
    }

    /// The position of the entry with `key`, scanning in stored order.
    fn find_linear(&self, key: &Ipv6PeerKey) -> (r: Option<usize>)
        requires
            self.bytes@.len() % 24 == 0,
        ensures
            r matches Some(i) ==> i < self@.len() && self@[i as int].0 == v6_bytes(*key),
            r is None ==> forall|i: int| 0 <= i < self@.len() ==> (#[trigger] self@[i]).0 != v6_bytes(*key),
    {
        let n = self.len();
        let mut i: usize = 0;
        while i < n
            invariant
                n == self@.len(),
                i <= n,
                self.bytes@.len() % 24 == 0,
                forall|j: int| 0 <= j < i ==> (#[trigger] self@[j]).0 != v6_bytes(*key),
            decreases n - i,
        {
            let k = self.key_at(i);
            if k.same(key) {
                return Some(i);
            }
            proof {
                if self@[i as int].0 == v6_bytes(*key) {
                    lemma_v6_bytes_injective(k, *key);
                }
            }
            i = i + 1;
        }
        None
    }

    /// Bisection over a sorted store: `Ok` with the position of `key`, or
    /// `Err` with the position where it would be inserted.
    fn search_index(&self, key: &Ipv6PeerKey) -> (r: Result<usize, usize>)
        requires
            self.bytes@.len() % 24 == 0,
            strictly_sorted(entry_keys(self@)),
        ensures
            r matches Ok(i) ==> i < self@.len() && self@[i as int].0 == v6_bytes(*key),
            r matches Err(i) ==> i <= self@.len() && (forall|j: int|
                0 <= j < i ==> bytes_lt((#[trigger] self@[j]).0, v6_bytes(*key))) && (forall|j: int|
                i <= j < self@.len() ==> bytes_lt(v6_bytes(*key), (#[trigger] self@[j]).0)),
    {
        let kc = key.compact();
        let mut size = self.len();
        let mut base: usize = 0;
        while size > 0
            invariant
                base + size <= self@.len(),
                self@.len() <= usize::MAX,
                self.bytes@.len() % 24 == 0,
                strictly_sorted(entry_keys(self@)),
                kc@ == v6_bytes(*key),
                forall|j: int| 0 <= j < base ==> bytes_lt((#[trigger] self@[j]).0, v6_bytes(*key)),
                forall|j: int|
                    base + size <= j < self@.len() ==> bytes_lt(v6_bytes(*key), (#[trigger] self@[j]).0),
            decreases size,
        {
            let half = size / 2;
            let mid = base + half;
            let mc = self.key_at(mid).compact();
            match compare_bytes(mc.as_slice(), kc.as_slice()) {
                Order::Less => {
                    proof {
                        assert forall|j: int| 0 <= j <= mid implies bytes_lt(
                            (#[trigger] self@[j]).0,
                            v6_bytes(*key),
                        ) by {
                            if j < mid {
                                assert(bytes_lt(entry_keys(self@)[j], entry_keys(self@)[mid as int]));
                                lemma_lt_transitive(self@[j].0, self@[mid as int].0, v6_bytes(*key));
                            }
                        }
                    }
                    base = mid + 1;
                    size = size - (half + 1);
                },
                Order::Greater => {
                    proof {
                        assert forall|j: int| mid <= j < self@.len() implies bytes_lt(
                            v6_bytes(*key),
                            (#[trigger] self@[j]).0,
                        ) by {
                            if j > mid && j < base + size {
                                assert(bytes_lt(entry_keys(self@)[mid as int], entry_keys(self@)[j]));
                                lemma_lt_transitive(v6_bytes(*key), self@[mid as int].0, self@[j].0);
                            }
                        }
                    }
                    size = half;
                },
                Order::Equal => {
                    return Ok(mid);
                },
            }
        }
        Err(base)
    }

    /// The position of the entry with `key`.
    fn find(&self, key: &Ipv6PeerKey) -> (r: Option<usize>)
        requires
            self.wf(),
        ensures
            r matches Some(i) ==> i < self@.len() && self@[i as int].0 == v6_bytes(*key),
            r is None ==> forall|i: int| 0 <= i < self@.len() ==> (#[trigger] self@[i]).0 != v6_bytes(*key),
    {
        if self.sorted {
            match self.search_index(key) {
                Ok(i) => Some(i),
                Err(i) => {
                    proof {
                        assert forall|j: int| 0 <= j < self@.len() implies (#[trigger] self@[j]).0
                            != v6_bytes(*key) by {
                            lemma_lt_irreflexive(v6_bytes(*key));
                        }
                    }
                    None
                },
            }
        } else {
            self.find_linear(key)
        }
    }

    /// The compact bytes of an excluded key, if any.
    pub open spec fn excluded(exclude: Option<Ipv6PeerKey>) -> Option<Seq<u8>> {
        match exclude {
            Some(x) => Some(v6_bytes(x)),
            None => None,
        }
    }

    /// Stores `peer` under `key`, replacing any state stored there; returns the
    /// replaced state.
    pub fn insert(&mut self, key: Ipv6PeerKey, peer: PeerState) -> (r: Option<PeerState>)
        requires
            old(self).wf(),
            old(self).bytes@.len() + 24 <= usize::MAX,
        ensures
            final(self).wf(),
            r == lookup(old(self)@, v6_bytes(key)),
            forall|k: Seq<u8>| #[trigger] lookup(final(self)@, k) == if k == v6_bytes(key) {
                Some(peer)
            } else {
                lookup(old(self)@, k)
            },
            final(self)@.len() == old(self)@.len() + if r is None {
                1nat
            } else {
                0nat
            },
            seeders(final(self)@) + (if r matches Some(o) && o.complete {
                1nat
            } else {
                0nat
            }) == seeders(old(self)@) + (if peer.complete {
                1nat
            } else {
                0nat
            }),
            r is Some ==> exists|i: int|
                0 <= i < old(self)@.len() && (#[trigger] old(self)@[i]).0 == v6_bytes(key) && final(self)@ == old(
                    self,
                )@.update(i, (v6_bytes(key), peer)),
            r is None && !final(self).sorted ==> final(self)@ == old(self)@.push((v6_bytes(key), peer)),
            final(self).sorted == (old(self).sorted || final(self)@.len() >= PROMOTE_THRESHOLD),
    {
        let ghost e = self@;
        let ghost x = (v6_bytes(key), peer);
        if self.sorted {
            match self.search_index(&key) {
                Ok(index) => {
                    let old_state = self.state_at(index);
                    proof {
                        lemma_lookup_at(e, index as int);
                        lemma_update_lookup(e, index as int, peer);
                        lemma_seeders_update(e, index as int, x);
                    }
                    self.write_at(index, key, peer);
                    Some(old_state)
                },
                Err(index) => {
                    proof {
                        assert forall|j: int| 0 <= j < e.len() implies (#[trigger] e[j]).0 != x.0 by {
                            lemma_lt_irreflexive(x.0);
                        }
                        lemma_lookup_absent(e, x.0);
                        lemma_sorted_insert(e, index as int, x);
                        lemma_insert_lookup(e, index as int, x);
                        lemma_seeders_insert(e, index as int, x);
                    }
                    self.insert_at(index, key, peer);
                    proof {
                        lemma_sorted_unique(self@);
                    }
                    None
                },
            }
        } else {
            let old_state = match self.find_linear(&key) {
                Some(index) => {
                    let old_state = self.state_at(index);
                    proof {
                        lemma_lookup_at(e, index as int);
                        lemma_update_lookup(e, index as int, peer);
                        lemma_seeders_update(e, index as int, x);
                    }
                    self.write_at(index, key, peer);
                    Some(old_state)
                },
                None => {
                    proof {
                        lemma_lookup_absent(e, x.0);
                        lemma_insert_lookup(e, e.len() as int, x);
                        lemma_seeders_insert(e, e.len() as int, x);
                        assert(e.push(x) =~= e.insert(e.len() as int, x));
                    }
                    self.push(key, peer);
                    None
                },
            };
            if self.len() >= PROMOTE_THRESHOLD {
                self.sort_and_promote();
                proof {
                    lemma_sorted_unique(self@);
                }
            }
            old_state
        }
    }

    /// Removes the entry for `key`; returns its state.
    pub fn remove(&mut self, key: &Ipv6PeerKey) -> (r: Option<PeerState>)
        requires
            old(self).wf(),
        ensures
            final(self).wf(),
            r == lookup(old(self)@, v6_bytes(*key)),
            forall|k: Seq<u8>| #[trigger] lookup(final(self)@, k) == if k == v6_bytes(*key) {
                None
            } else {
                lookup(old(self)@, k)
            },
            final(self)@.len() + (if r is Some {
                1nat
            } else {
                0nat
            }) == old(self)@.len(),
            seeders(final(self)@) + (if r matches Some(o) && o.complete {
                1nat
            } else {
                0nat
            }) == seeders(old(self)@),
            r is None ==> final(self)@ == old(self)@,
            r is Some ==> exists|i: int|
                0 <= i < old(self)@.len() && (#[trigger] old(self)@[i]).0 == v6_bytes(*key) && final(self)@ == if old(
                    self,
                ).sorted {
                    old(self)@.remove(i)
                } else {
                    old(self)@.update(i, old(self)@.last()).drop_last()
                },
            final(self).sorted == (old(self).sorted && final(self)@.len() >= DEMOTE_THRESHOLD),
    {
        let ghost e = self@;
        if self.sorted {
            let result = match self.find(key) {
                Some(index) => {
                    proof {
                        lemma_lookup_at(e, index as int);
                        lemma_remove_lookup(e, index as int);
                        lemma_seeders_remove(e, index as int);
                    }
                    Some(self.remove_at(index))
                },
                None => {
                    proof {
                        lemma_lookup_absent(e, v6_bytes(*key));
                    }
                    None
                },
            };
            if self.len() < DEMOTE_THRESHOLD {
                self.sorted = false;
            }
            result
        } else {
            match self.find_linear(key) {
                Some(index) => {
                    proof {
                        lemma_lookup_at(e, index as int);
                        lemma_swap_remove_lookup(e, index as int);
                    }
                    Some(self.swap_remove(index))
                },
                None => {
                    proof {
                        lemma_lookup_absent(e, v6_bytes(*key));
                    }
                    None
                },
            }
        }
    }

    /// Drops every peer that is no longer fresh at `now`; returns the states
    /// of the dropped peers.
    pub fn retain_fresh(&mut self, now: u32, timeout: u32) -> (removed: Vec<PeerState>)
        requires
            old(self).wf(),
        ensures
            final(self).wf(),
            forall|k: Seq<u8>| #[trigger] lookup(final(self)@, k) == kept(
                lookup(old(self)@, k),
                now,
                timeout,
            ),
            final(self)@.len() + removed@.len() == old(self)@.len(),
            seeders(final(self)@) + complete_count(removed@) == seeders(old(self)@),
            forall|i: int| 0 <= i < removed@.len() ==> !is_fresh(#[trigger] removed@[i], now, timeout),
            removed@.to_multiset() == stale_states(old(self)@, now, timeout).to_multiset(),
    {
        if self.sorted {
            self.retain_fresh_sorted(now, timeout)
        } else {
            self.retain_fresh_unsorted(now, timeout)
        }
    }

    fn retain_fresh_unsorted(&mut self, now: u32, timeout: u32) -> (removed: Vec<PeerState>)
        requires
            old(self).wf(),
            !old(self).sorted,
        ensures
            final(self).wf(),
            forall|k: Seq<u8>| #[trigger] lookup(final(self)@, k) == kept(
                lookup(old(self)@, k),
                now,
                timeout,
            ),
            final(self)@.len() + removed@.len() == old(self)@.len(),
            seeders(final(self)@) + complete_count(removed@) == seeders(old(self)@),
            forall|i: int| 0 <= i < removed@.len() ==> !is_fresh(#[trigger] removed@[i], now, timeout),
            removed@.to_multiset() == stale_states(old(self)@, now, timeout).to_multiset(),
    {
        let ghost orig = self@;
        let mut removed: Vec<PeerState> = Vec::new();
        let mut index: usize = 0;
        proof {
            broadcast use vstd::seq_lib::group_to_multiset_ensures;

            assert(self@.subrange(0, self@.len() as int) =~= orig);
            assert(removed@.to_multiset() =~= vstd::multiset::Multiset::<PeerState>::empty());
            assert(removed@.to_multiset().add(stale_states(orig, now, timeout).to_multiset()) =~= stale_states(
                orig,
                now,
                timeout,
            ).to_multiset());
        }
        while index < self.len()
            invariant
                self.bytes@.len() % 24 == 0,
                unique_keys(self@),
                !self.sorted,
                self@.len() <= orig.len(),
                orig.len() < PROMOTE_THRESHOLD,
                index <= self@.len(),
                forall|j: int| 0 <= j < index ==> is_fresh((#[trigger] self@[j]).1, now, timeout),
                forall|k: Seq<u8>|
                    (#[trigger] lookup(self@, k)) is Some ==> lookup(orig, k) == lookup(self@, k),
                forall|k: Seq<u8>|
                    (#[trigger] lookup(orig, k)) is Some && is_fresh(lookup(orig, k).unwrap(), now, timeout)
                        ==> lookup(self@, k) == lookup(orig, k),
                self@.len() + removed@.len() == orig.len(),
                seeders(self@) + complete_count(removed@) == seeders(orig),
                forall|i: int| 0 <= i < removed@.len() ==> !is_fresh(#[trigger] removed@[i], now, timeout),
                removed@.to_multiset().add(
                    stale_states(self@.subrange(index as int, self@.len() as int), now, timeout).to_multiset(),
                ) == stale_states(orig, now, timeout).to_multiset(),
            decreases self@.len() - index,
        {
            let peer = self.state_at(index);
            if peer_is_fresh(&peer, now, timeout) {
                proof {
                    lemma_stale_skip_fresh(self@, index as int, now, timeout);
                }
                index = index + 1;
            } else {
                let ghost e = self@;
                let ghost before = removed@;
                proof {
                    lemma_lookup_at(e, index as int);
                    lemma_swap_remove_lookup(e, index as int);
                    lemma_stale_swap_remove(e, index as int, now, timeout);
                }
                let s = self.swap_remove(index);
                removed.push(s);
                proof {
                    broadcast use vstd::seq_lib::group_to_multiset_ensures;

                    assert(removed@.drop_last() =~= before);
                    assert(removed@ =~= before.push(s));
                    let seg2 = stale_states(self@.subrange(index as int, self@.len() as int), now, timeout).to_multiset();
                    assert(removed@.to_multiset().add(seg2) =~= before.to_multiset().add(seg2.insert(s)));
                    assert forall|k: Seq<u8>|
                        (#[trigger] lookup(orig, k)) is Some && is_fresh(lookup(orig, k).unwrap(), now, timeout)
                            implies lookup(self@, k) == lookup(orig, k) by {
                        assert(lookup(e, k) == lookup(orig, k));
                    }
                    assert forall|j: int| 0 <= j < index implies is_fresh((#[trigger] self@[j]).1, now, timeout) by {
                        assert(self@[j] == e[j]);
                    }
                }
            }
        }
        proof {
            assert forall|k: Seq<u8>| #[trigger] lookup(self@, k) == kept(lookup(orig, k), now, timeout) by {
                if has_key(self@, k) {
                    let j = choose|j: int| 0 <= j < self@.len() && (#[trigger] self@[j]).0 == k;
                    lemma_lookup_at(self@, j);
                }
            }
            assert(self@.subrange(index as int, self@.len() as int) =~= Seq::<Entry>::empty());
            assert(stale_states(Seq::<Entry>::empty(), now, timeout).to_multiset() =~= vstd::multiset::Multiset::<
                PeerState,
            >::empty());
            assert(removed@.to_multiset().add(vstd::multiset::Multiset::<PeerState>::empty()) =~= removed@.to_multiset());
        }
        removed
    }

    fn retain_fresh_sorted(&mut self, now: u32, timeout: u32) -> (removed: Vec<PeerState>)
        requires
            old(self).wf(),
            old(self).sorted,
        ensures
            final(self).wf(),
            forall|k: Seq<u8>| #[trigger] lookup(final(self)@, k) == kept(
                lookup(old(self)@, k),
                now,
                timeout,
            ),
            final(self)@.len() + removed@.len() == old(self)@.len(),
            seeders(final(self)@) + complete_count(removed@) == seeders(old(self)@),
            forall|i: int| 0 <= i < removed@.len() ==> !is_fresh(#[trigger] removed@[i], now, timeout),
            removed@.to_multiset() == stale_states(old(self)@, now, timeout).to_multiset(),
    {
        let n = self.len();
        let mut out = PackedIpv6Peers { bytes: Vec::new(), sorted: true };
        let mut removed: Vec<PeerState> = Vec::new();
        proof {
            assert(out@ =~= Seq::<Entry>::empty());
            assert(self.bytes.len() == self.bytes@.len());
            lemma_whole_slots(self.bytes@.len() as int, 24);
        }
        let mut read: usize = 0;
        while read < n
            invariant
                n == self@.len(),
                read <= n,
                self.wf(),
                self.sorted,
                self.bytes@.len() <= usize::MAX,
                self.bytes@.len() == 24 * n,
                out.bytes@.len() % 24 == 0,
                out.bytes@.len() == 24 * out@.len(),
                strictly_sorted(entry_keys(out@)),
                forall|j: int, r: int|
                    0 <= j < out@.len() && read <= r < n ==> bytes_lt(
                        (#[trigger] out@[j]).0,
                        (#[trigger] self@[r]).0,
                    ),
                forall|k: Seq<u8>|
                    (#[trigger] lookup(out@, k)) is Some ==> lookup(self@, k) == lookup(out@, k)
                        && is_fresh(lookup(out@, k).unwrap(), now, timeout),
                forall|q: int|
                    0 <= q < read && is_fresh((#[trigger] self@[q]).1, now, timeout) ==> lookup(
                        out@,
                        self@[q].0,
                    ) == Some(self@[q].1),
                out@.len() + removed@.len() == read,
                seeders(out@) + complete_count(removed@) == seeders(self@.subrange(0, read as int)),
                forall|i: int| 0 <= i < removed@.len() ==> !is_fresh(#[trigger] removed@[i], now, timeout),
                removed@ == stale_states(self@.subrange(0, read as int), now, timeout),
            decreases n - read,
        {
            let key = self.key_at(read);
            let peer = self.state_at(read);
            let ghost e = self@;
            let ghost x = (v6_bytes(key), peer);
            proof {
                assert(e.subrange(0, read + 1).drop_last() =~= e.subrange(0, read as int));
                assert(e.subrange(0, read + 1).last() == e[read as int]);
                lemma_lookup_at(e, read as int);
            }
            if peer_is_fresh(&peer, now, timeout) {
                let ghost before = out@;
                proof {
                    lemma_sorted_unique(before);
                    assert forall|j: int| 0 <= j < before.len() implies (#[trigger] before[j]).0 != x.0 by {
                        assert(bytes_lt(before[j].0, e[read as int].0));
                        lemma_lt_irreflexive(x.0);
                    }
                    lemma_lookup_absent(before, x.0);
                    lemma_sorted_insert(before, before.len() as int, x);
                    lemma_insert_lookup(before, before.len() as int, x);
                    lemma_seeders_insert(before, before.len() as int, x);
                    assert(before.push(x) =~= before.insert(before.len() as int, x));
                    lemma_slot_bounds(24, before.len() as int, n as int);
                }
                out.push(key, peer);
                proof {
                    assert forall|j: int, r: int|
                        0 <= j < out@.len() && read + 1 <= r < n implies bytes_lt(
                            (#[trigger] out@[j]).0,
                            (#[trigger] e[r]).0,
                        ) by {
                        if j < before.len() {
                            assert(out@[j] == before[j]);
                        } else {
                            assert(bytes_lt(entry_keys(e)[read as int], entry_keys(e)[r]));
                        }
                    }
                    assert forall|q: int|
                        0 <= q < read + 1 && is_fresh((#[trigger] e[q]).1, now, timeout) implies lookup(
                            out@,
                            e[q].0,
                        ) == Some(e[q].1) by {
                        if q < read {
                            assert(e[q].0 != x.0);
                        }
                    }
                    lemma_whole_slots(out.bytes@.len() as int, 24);
                    lemma_len_div(24, out@.len() as int);
                }
            } else {
                let ghost before = removed@;
                removed.push(peer);
                proof {
                    assert(removed@.drop_last() =~= before);
                }
            }
            read = read + 1;
        }
        proof {
            assert(self@.subrange(0, n as int) =~= self@);
            lemma_sorted_unique(out@);
            assert forall|k: Seq<u8>| #[trigger] lookup(out@, k) == kept(lookup(self@, k), now, timeout) by {
                if has_key(self@, k) {
                    let q = choose|q: int| 0 <= q < self@.len() && (#[trigger] self@[q]).0 == k;
                    lemma_lookup_at(self@, q);
                }
            }
        }
        let keep_sorted = out.len() >= DEMOTE_THRESHOLD;
        self.bytes = out.bytes;
        self.sorted = keep_sorted;
        removed
    }

    /// Appends the compact keys of all entries but `exclude`, in stored order.
    #[verifier::rlimit(40)]
    pub fn append_compact(&self, exclude: Option<Ipv6PeerKey>, out: &mut Vec<u8>)
        requires
            self.wf(),
        ensures
            final(out)@ == old(out)@ + compact_keys(self@, Self::excluded(exclude)),
    {
        let n = self.len();
        let ghost ex = Self::excluded(exclude);
        let mut index: usize = 0;
        assert(self@.subrange(0, 0) =~= Seq::<Entry>::empty());
        while index < n
            invariant
                n == self@.len(),
                index <= n,
                self.wf(),
                ex == Self::excluded(exclude),
                out@ == old(out)@ + compact_keys(self@.subrange(0, index as int), ex),
            decreases n - index,
        {
            let key = self.key_at(index);
            let skip = match exclude {
                Some(x) => x.same(&key),
                None => false,
            };
            let ghost before = out@;
            let ghost sub = self@.subrange(0, index + 1);
            proof {
                assert(sub.drop_last() =~= self@.subrange(0, index as int));
                assert(sub.last() == self@[index as int]);
                if let Some(x) = exclude {
                    if v6_bytes(x) == v6_bytes(key) {
                        lemma_v6_bytes_injective(x, key);
                    }
                }
            }
            if !skip {
                let c = key.compact();
                out.extend_from_slice(c.as_slice());
                proof {
                    assert(out@ =~= before + c@);
                }
            }
            proof {
                assert(flatten(kept_keys(sub, ex)) =~= if skip {
                    flatten(kept_keys(self@.subrange(0, index as int), ex))
                } else {
                    flatten(kept_keys(self@.subrange(0, index as int), ex)) + v6_bytes(key)
                }) by {
                    if !skip {
                        let ks = kept_keys(self@.subrange(0, index as int), ex).push(v6_bytes(key));
                        assert(ks.drop_last() =~= kept_keys(self@.subrange(0, index as int), ex));
                    }
                }
            }
            index = index + 1;
        }
        assert(self@.subrange(0, n as int) =~= self@);
    }

    /// Appends the compact keys of up to `count` entries other than `exclude`,
    /// spread evenly over the store from a random start.
    pub fn select_random_compact(&self, count: usize, rng: &mut Rng, exclude: Option<Ipv6PeerKey>, out: &mut Vec<u8>)
        requires
            self.wf(),
        ensures
            final(out)@ == old(out)@ + flatten(random_pick(self@, Self::excluded(exclude), count as nat, old(rng).0).0),
            final(rng).0 == random_pick(self@, Self::excluded(exclude), count as nat, old(rng).0).1,
            count >= self@.len() ==> final(out)@ == old(out)@ + compact_keys(self@, Self::excluded(exclude)),
            ({
                let ks = random_pick(self@, Self::excluded(exclude), count as nat, old(rng).0).0;
                let want = if count < self@.len() {
                    count as int
                } else {
                    self@.len() as int
                };
                &&& ks.len() <= count
                &&& distinct_keys(ks)
                &&& picked_from(ks, self@, Self::excluded(exclude), 18 as nat)
                &&& !(Self::excluded(exclude) matches Some(x) && has_key(self@, x)) ==> ks.len() == want
                &&& ks.len() + 1 >= want
            }),
    {
        let total = self.len();
        let ghost r0 = rng.0;
        proof {
            lemma_key_lengths(self.bytes@, 18);
            lemma_kept_keys(self@, Self::excluded(exclude), 18 as nat);
            lemma_kept_keys_distinct(self@, Self::excluded(exclude));
        }
        if total == 0 || count == 0 {
            proof {
                let ks = Seq::<Seq<u8>>::empty();
                assert(flatten(ks) =~= Seq::<u8>::empty());
                assert(out@ =~= out@ + flatten(ks));
                if total == 0 {
                    assert(kept_keys(self@, Self::excluded(exclude)) =~= ks);
                }
            }
            return;
        }
        if count >= total {
            self.append_compact(exclude, out);
            proof {
                lemma_kept_keys_len(self@, Self::excluded(exclude));
            }
            return;
        }
        proof {
            assert(self.bytes.len() == self.bytes@.len());
            lemma_whole_slots(self.bytes@.len() as int, 24);
        }
        let mut shifted_total: u64 = total as u64;
        let mut shift: u64 = 0;
        proof {
            vstd::arithmetic::power2::lemma2_to64();
        }
        while shifted_total < 0x4000_0000_0000_0000u64 && shift < 62
            invariant
                1 <= shifted_total < 0x8000_0000_0000_0000u64,
                shift <= 62,
                shifted_total as nat == total as nat * pow2(shift as nat),
                spread_shift(total as nat, 0) == spread_shift(total as nat, shift as nat),
            decreases 62 - shift,
        {
            proof {
                vstd::arithmetic::power2::lemma_pow2_unfold((shift + 1) as nat);
                assert(total as nat * pow2((shift + 1) as nat) == 2 * (total as nat * pow2(shift as nat))) by (nonlinear_arith)
                    requires
                        pow2((shift + 1) as nat) == 2 * pow2(shift as nat),
                ;
            }
            shifted_total = shifted_total * 2;
            shift = shift + 1;
        }
        assert(spread_shift(total as nat, shift as nat) == shift);
        let shifted_step = shifted_total / (count as u64);
        proof {
            vstd::arithmetic::div_mod::lemma_div_is_ordered(
                shifted_total as int,
                0x8000_0000_0000_0000int,
                count as int,
            );
            vstd::arithmetic::power2::lemma_pow2_pos(shift as nat);
        }
        let ghost p = pow2(shift as nat);
        let mut pos = rng.next_usize(total);
        let ghost p0 = pos as int;
        let ghost ex = Self::excluded(exclude);
        let ghost xi: int = match ex {
            Some(k) => if has_key(self@, k) {
                choose|i: int| 0 <= i < self@.len() && (#[trigger] self@[i]).0 == k
            } else {
                -1
            },
            None => -1,
        };
        let ghost mut ks: Seq<Seq<u8>> = Seq::empty();
        let ghost mut cum: int = 0;
        let ghost mut offs: Seq<int> = Seq::empty();
        let ghost mut hit: Option<int> = None;
        let ghost start = out@;
        let mut remaining = count;
        proof {
            lemma_spread_within(total as nat, count as nat, p);
            vstd::arithmetic::div_mod::lemma_small_mod(pos as nat, total as nat);
            let w = pick_walk(self@, ex, shifted_step as nat, p, remaining as nat, pos as int, rng.0);
            assert(random_pick(self@, ex, count as nat, r0) == w);
            assert(ks + w.0 =~= w.0);
        }
        while remaining > 0
            invariant
                total == self@.len(),
                0 < count < total,
                remaining <= count,
                pos < total,
                self.wf(),
                shift <= 62,
                p == pow2(shift as nat),
                p > 0,
                shifted_total as nat == total as nat * p,
                shifted_step as nat == (total as nat * p) / (count as nat),
                shifted_step <= 0x8000_0000_0000_0000u64 / (count as u64),
                ex == Self::excluded(exclude),
                out@ == start + flatten(ks),
                ks.len() + remaining + (if hit is Some {
                    1int
                } else {
                    0
                }) == count,
                !(ex matches Some(x) && has_key(self@, x)) ==> hit is None,
                picked_from(ks, self@, ex, 18 as nat),
                keys_of_len(self@, 18 as nat),
                0 <= p0 < total,
                pos as int == (p0 + cum) % (total as int),
                cum >= count - remaining,
                cum + (remaining as nat * shifted_step as nat) / p <= (count as nat * shifted_step as nat) / p,
                (count as nat * shifted_step as nat) / p <= total,
                offs.len() == ks.len(),
                forall|j: int|
                    0 <= j < offs.len() ==> 1 <= #[trigger] offs[j] <= cum && ks[j] == self@[(p0 + offs[j]) % (
                    total as int)].0,
                forall|i: int, j: int| 0 <= i < j < offs.len() ==> #[trigger] offs[i] < #[trigger] offs[j],
                distinct_keys(ks),
                hit matches Some(c) ==> 1 <= c <= cum && (p0 + c) % (total as int) == xi,
                ks + pick_walk(self@, ex, shifted_step as nat, p, remaining as nat, pos as int, rng.0).0 == random_pick(
                    self@,
                    ex,
                    count as nat,
                    r0,
                ).0,
                pick_walk(self@, ex, shifted_step as nat, p, remaining as nat, pos as int, rng.0).1 == random_pick(
                    self@,
                    ex,
                    count as nat,
                    r0,
                ).1,
                xi == -1 || (0 <= xi < self@.len() && ex == Some(self@[xi].0)),
                ex is Some && has_key(self@, ex->0) ==> 0 <= xi,
            decreases remaining,
        {
            let ghost w_pos = pos as int;
            let ghost w_state = rng.0;
            let ghost w_rem = remaining as nat;
            let ghost w_ks = ks;
            remaining = remaining - 1;
            proof {
                assert((remaining as u64 + 1) * shifted_step <= 0x8000_0000_0000_0000u64) by (nonlinear_arith)
                    requires
                        remaining < count,
                        count > 0,
                        shifted_step <= 0x8000_0000_0000_0000u64 / (count as u64),
                ;
                assert((remaining as u64) * shifted_step <= (remaining as u64 + 1) * shifted_step) by (nonlinear_arith);
            }
            let hi = ((remaining as u64 + 1) * shifted_step) >> shift;
            let lo = ((remaining as u64) * shifted_step) >> shift;
            proof {
                vstd::bits::lemma_u64_shr_is_div(((remaining as u64 + 1) * shifted_step) as u64, shift);
                vstd::bits::lemma_u64_shr_is_div(((remaining as u64) * shifted_step) as u64, shift);
                lemma_even_spacing(total as nat, count as nat, p, shifted_step as nat, remaining as nat);
                assert(hi as nat == ((remaining as nat + 1) * shifted_step as nat) / p);
                assert(lo as nat == (remaining as nat * shifted_step as nat) / p);
            }
            let diff = if hi > lo {
                hi - lo
            } else {
                0
            };
            let step = if diff > 1 {
                rng.next_usize(#[verifier::truncate] (diff as usize))
            } else {
                0
            };
            proof {
                assert(diff >= 1);
                if diff > 1 {
                    assert((diff as usize) as u64 == diff);
                }
                assert(1 + step <= diff);
            }
            let ghost old_pos = pos as int;
            pos = (((pos as u128) + 1 + (step as u128)) % (total as u128)) as usize;
            proof {
                let adv = 1 + step as int;
                vstd::arithmetic::div_mod::lemma_add_mod_noop(p0 + cum, adv, total as int);
                vstd::arithmetic::div_mod::lemma_small_mod(adv as nat % total as nat, total as nat);
                vstd::arithmetic::div_mod::lemma_add_mod_noop_right(old_pos, adv, total as int);
                assert(pos as int == (old_pos + adv) % (total as int));
                assert(pos as int == (p0 + cum + adv) % (total as int)) by {
                    vstd::arithmetic::div_mod::lemma_add_mod_noop(p0 + cum, adv, total as int);
                    vstd::arithmetic::div_mod::lemma_add_mod_noop(old_pos, adv, total as int);
                    vstd::arithmetic::div_mod::lemma_mod_twice(p0 + cum, total as int);
                }
                cum = cum + adv;
            }
            let key = self.key_at(pos);
            let skip = match exclude {
                Some(x) => x.same(&key),
                None => false,
            };
            proof {
                lemma_lookup_at(self@, pos as int);
                if let Some(x) = exclude {
                    if v6_bytes(x) == v6_bytes(key) {
                        lemma_v6_bytes_injective(x, key);
                    }
                }
            }
            if !skip {
                let ghost before = out@;
                let c = key.compact();
                out.extend_from_slice(c.as_slice());
                proof {
                    let nks = ks.push(v6_bytes(key));
                    let noffs = offs.push(cum);
                    assert(cum <= total);
                    assert forall|j: int| 0 <= j < noffs.len() implies 1 <= #[trigger] noffs[j] <= cum && nks[j]
                        == self@[(p0 + noffs[j]) % (total as int)].0 by {
                        if j < offs.len() {
                            assert(noffs[j] == offs[j] && nks[j] == ks[j]);
                        }
                    }
                    assert forall|i: int, j: int| 0 <= i < j < noffs.len() implies #[trigger] noffs[i] < #[trigger] noffs[j] by {
                        if j < offs.len() {
                            assert(noffs[i] == offs[i] && noffs[j] == offs[j]);
                        } else {
                            assert(noffs[i] == offs[i]);
                        }
                    }
                    assert forall|i: int, j: int| 0 <= i < j < nks.len() implies #[trigger] nks[i] != #[trigger] nks[j] by {
                        if j < ks.len() {
                            assert(nks[i] == ks[i] && nks[j] == ks[j]);
                        } else {
                            assert(nks[i] == ks[i]);
                            let a = offs[i];
                            lemma_offsets_distinct(p0, a, cum, total as int);
                            let pa = (p0 + a) % (total as int);
                            vstd::arithmetic::div_mod::lemma_mod_pos_bound(p0 + a, total as int);
                            assert(self@[pa].0 != self@[pos as int].0);
                        }
                    }
                    offs = noffs;
                    assert(nks.drop_last() =~= ks);
                    assert(out@ =~= before + c@);
                    assert(out@ =~= start + flatten(nks));
                    assert forall|j: int| 0 <= j < nks.len() implies has_key(self@, #[trigger] nks[j]) && ex
                        != Some(nks[j]) && nks[j].len() == 18 as nat by {
                        if j < ks.len() {
                            assert(nks[j] == ks[j]);
                        }
                    }
                    ks = nks;
                }
            } else {
                proof {
                    assert(ex == Some(self@[pos as int].0));
                    assert(has_key(self@, ex->0));
                    assert(xi == pos as int) by {
                        if xi != pos as int {
                            assert(self@[xi].0 == self@[pos as int].0);
                        }
                    }
                    if let Some(c) = hit {
                        lemma_offsets_distinct(p0, c, cum, total as int);
                    }
                    hit = Some(cum);
                }
            }
            proof {
                let g = pick_gap(shifted_step as nat, p, remaining as nat);
                assert(g == diff);
                let rest = pick_walk(self@, ex, shifted_step as nat, p, remaining as nat, pos as int, rng.0);
                let k = self@[pos as int].0;
                assert(pick_walk(self@, ex, shifted_step as nat, p, w_rem, w_pos, w_state) == (
                    if ex == Some(k) {
                        rest.0
                    } else {
                        seq![k] + rest.0
                    },
                    rest.1,
                ));
                if ex == Some(k) {
                    assert(ks == w_ks);
                } else {
                    assert(ks == w_ks.push(k));
                    assert(w_ks + (seq![k] + rest.0) =~= ks + rest.0);
                }
            }
        }
    }

    /// Re-orders the entries by key and marks the store sorted.
    fn sort_and_promote(&mut self)
        requires
            old(self).bytes@.len() % 24 == 0,
            unique_keys(old(self)@),
        ensures
            final(self).bytes@.len() % 24 == 0,
            final(self).sorted,
            strictly_sorted(entry_keys(final(self)@)),
            final(self)@.len() == old(self)@.len(),
            seeders(final(self)@) == seeders(old(self)@),
            forall|k: Seq<u8>| lookup(final(self)@, k) == lookup(old(self)@, k),
    {
        let n = self.len();
        let mut out = PackedIpv6Peers { bytes: Vec::new(), sorted: true };
        assert(out@ =~= Seq::<Entry>::empty());
        let mut i: usize = 0;
        proof {
            assert(self.bytes.len() == self.bytes@.len());
        }
        while i < n
            invariant
                n == self@.len(),
                i <= n,
                self.bytes@.len() % 24 == 0,
                self.bytes@.len() <= usize::MAX,
                unique_keys(self@),
                out.bytes@.len() % 24 == 0,
                out.bytes@.len() == 24 * i,
                out@.len() == i,
                strictly_sorted(entry_keys(out@)),
                seeders(out@) == seeders(self@.subrange(0, i as int)),
                forall|q: int| 0 <= q < i ==> lookup(out@, (#[trigger] self@[q]).0) == Some(self@[q].1),
                forall|k: Seq<u8>| has_key(out@, k) ==> exists|q: int| 0 <= q < i && (#[trigger] self@[q]).0 == k,
            decreases n - i,
        {
            let key = self.key_at(i);
            let peer = self.state_at(i);
            proof {
                self.lemma_slot_in_bounds(i as int);
                lemma_slot_bounds(24, i as int, n as int);
                assert(out.bytes@.len() + 24 <= self.bytes@.len());
                if has_key(out@, self@[i as int].0) {
                    let q = choose|q: int| 0 <= q < i && (#[trigger] self@[q]).0 == self@[i as int].0;
                    assert(false);
                }
            }
            match out.search_index(&key) {
                Ok(pos) => {
                    proof {
                        assert(out@[pos as int].0 == self@[i as int].0);
                        assert(has_key(out@, self@[i as int].0));
                    }
                },
                Err(pos) => {
                    let ghost before = out@;
                    out.insert_at(pos, key, peer);
                    proof {
                        let x = (v6_bytes(key), peer);
                        lemma_sorted_unique(before);
                        lemma_sorted_insert(before, pos as int, x);
                        lemma_sorted_unique(out@);
                        lemma_seeders_insert(before, pos as int, x);
                        assert(self@.subrange(0, i + 1) =~= self@.subrange(0, i as int).push(self@[i as int]));
                        assert(self@.subrange(0, i + 1).drop_last() =~= self@.subrange(0, i as int));
                        lemma_insert_lookup(before, pos as int, x);
                        assert forall|k: Seq<u8>| has_key(out@, k) implies exists|q: int|
                            0 <= q < i + 1 && (#[trigger] self@[q]).0 == k by {
                            if k != x.0 {
                                assert(has_key(before, k)) by {
                                    let j = choose|j: int| 0 <= j < out@.len() && (#[trigger] out@[j]).0 == k;
                                    if j < pos {
                                        assert(before[j] == out@[j]);
                                    } else {
                                        assert(before[j - 1] == out@[j]);
                                    }
                                }
                            }
                        }
                    }
                },
            }
            proof {
                lemma_slot_bounds(24, i as int, n as int);
            }
            i = i + 1;
        }
        proof {
            assert(self@.subrange(0, n as int) =~= self@);
            lemma_sorted_unique(out@);
            assert forall|k: Seq<u8>| lookup(out@, k) == lookup(self@, k) by {
                if has_key(self@, k) {
                    let q = choose|q: int| 0 <= q < self@.len() && (#[trigger] self@[q]).0 == k;
                    lemma_lookup_at(self@, q);
                } else {
                    if has_key(out@, k) {
                        let q = choose|q: int| 0 <= q < n && (#[trigger] self@[q]).0 == k;
                        assert(has_key(self@, k));
                    }
                }
            }
        }
        self.bytes = out.bytes;
        self.sorted = true;
    }
}

} // verus!
