//! Properties of the tracker that relate several operations.
use vstd::prelude::*;
use crate::counters::{sat_sub, PeerRemoval, PeerUpsert, TrackerCounters};
use crate::packed::{kept, lookup, seeders, Entry};
use crate::swarm::{PeerEndpoint, Swarm};
use crate::tracker::{jittered, AnnounceOutput, announced_state, counts_completion, expired_from, stats_of, AnnounceInput, TrackerSnapshot};
use crate::trends::{empty_point, bucket_of, point_of, recent, retention_start, TrendPoint};
use crate::types::{InfoHash, v4_bytes, v6_bytes, Ipv4PeerKey, Ipv6PeerKey, PeerState, TorrentStats};
use crate::swarm::min;
use crate::topk::{swarm_entry, covers_top, kept_top, ranked_entry, sort_value, Ranked, TopEntry};
use crate::announce::{announce_body, scrape_body, stats_body, announce_step, query_from, AnnounceQuery, ProtocolError, QueryParts};
use crate::bencode::{ascii, bint, bstring, decimal};
use crate::client_id::{client_name_text, identify_tag};
use crate::types::AnnounceEvent;
use crate::types::{hex_digit, hex_pair, is_hex_id, lower_hex, lower_hex_digit};

verus! {

/// The lowercase hex text of `bytes` has two digits per byte.
proof fn lemma_lower_hex_len(bytes: Seq<u8>)
    ensures
        lower_hex(bytes).len() == 2 * bytes.len(),
    decreases bytes.len(),
{
    if bytes.len() > 0 {
        lemma_lower_hex_len(bytes.drop_last());
    }
}

/// Byte `i` of `bytes` is spelled by the digits `2i` and `2i + 1` of its hex text.
proof fn lemma_lower_hex_at(bytes: Seq<u8>, i: int)
    requires
        0 <= i < bytes.len(),
    ensures
        lower_hex(bytes)[2 * i] == lower_hex_digit(bytes[i] / 16),
        lower_hex(bytes)[2 * i + 1] == lower_hex_digit(bytes[i] % 16),
    decreases bytes.len(),
{
    lemma_lower_hex_len(bytes.drop_last());
    if i < bytes.len() - 1 {
        lemma_lower_hex_at(bytes.drop_last(), i);
    }
}

/// A lowercase digit reads back as its value.
proof fn lemma_digit_roundtrip(v: u8)
    requires
        v < 16,
    ensures
        hex_digit(lower_hex_digit(v)) == Some(v),
{
}

/// Reading back the hex text of an info hash gives the hash: the text is
/// forty hexadecimal digits, and each digit pair spells the byte it came from.
pub proof fn law_hex_roundtrip(bytes: Seq<u8>)
    requires
        bytes.len() == 20,
    ensures
        is_hex_id(lower_hex(bytes)),
        forall|i: int| 0 <= i < 20 ==> #[trigger] hex_pair(lower_hex(bytes), i) == bytes[i],
{
    let t = lower_hex(bytes);
    lemma_lower_hex_len(bytes);
    assert forall|j: int| 0 <= j < 40 implies (#[trigger] hex_digit(t[j])) is Some by {
        let i = j / 2;
        lemma_lower_hex_at(bytes, i);
        lemma_digit_roundtrip(bytes[i] / 16);
        lemma_digit_roundtrip(bytes[i] % 16);
        assert(j == 2 * i || j == 2 * i + 1);
    }
    assert forall|i: int| 0 <= i < 20 implies #[trigger] hex_pair(t, i) == bytes[i] by {
        lemma_lower_hex_at(bytes, i);
        lemma_digit_roundtrip(bytes[i] / 16);
        lemma_digit_roundtrip(bytes[i] % 16);
    }
}

/// The counters after an upsert, as `apply_upsert` states them.
pub open spec fn upserted(c: TrackerCounters, u: PeerUpsert) -> TrackerCounters {
    TrackerCounters {
        peers: (c.peers + if u.is_new_peer {
            1int
        } else {
            0
        }) as usize,
        seeders: (if u.now_complete && !u.was_complete {
            c.seeders + 1
        } else if !u.now_complete && u.was_complete {
            sat_sub(c.seeders as int, 1)
        } else {
            c.seeders as int
        }) as usize,
        ..c
    }
}

/// The counters after a removal, as `apply_removal` states them.
pub open spec fn removed(c: TrackerCounters, r: PeerRemoval) -> TrackerCounters {
    TrackerCounters {
        peers: sat_sub(c.peers as int, 1) as usize,
        seeders: (if r.was_complete {
            sat_sub(c.seeders as int, 1)
        } else {
            c.seeders as int
        }) as usize,
        ..c
    }
}

/// Counting a new peer and then its removal leaves the counters as they
/// were.
pub proof fn law_upsert_then_remove(c: TrackerCounters, complete: bool, tag: u8)
    requires
        c.peers < usize::MAX,
        c.seeders < usize::MAX,
    ensures
        removed(
            upserted(c, PeerUpsert { is_new_peer: true, was_complete: false, now_complete: complete, old_tag: None }),
            PeerRemoval { tag, was_complete: complete },
        ) == c,
{
}

/// A peer store is a map from compact keys to states: after storing `s`
/// under `k` and then removing `k`, every other key looks up as before and
/// `k` looks up nothing.
pub proof fn law_store_then_remove(e0: Seq<Entry>, e1: Seq<Entry>, e2: Seq<Entry>, k: Seq<u8>, s: crate::types::PeerState)
    requires
        forall|x: Seq<u8>| #[trigger] lookup(e1, x) == if x == k {
            Some(s)
        } else {
            lookup(e0, x)
        },
        forall|x: Seq<u8>| #[trigger] lookup(e2, x) == if x == k {
            None
        } else {
            lookup(e1, x)
        },
    ensures
        forall|x: Seq<u8>| x != k ==> #[trigger] lookup(e2, x) == lookup(e0, x),
        lookup(e2, k) is None,
{
    assert forall|x: Seq<u8>| x != k implies #[trigger] lookup(e2, x) == lookup(e0, x) by {
        assert(lookup(e1, x) == lookup(e0, x));
    }
}

/// A store never counts more seeders than entries.
pub proof fn law_seeders_bounded(e: Seq<Entry>)
    ensures
        seeders(e) <= e.len(),
{
    crate::packed::lemma_seeders_bound(e);
}

/// One tracker's ranking as the merger saw it: a top selection of the
/// tracker's torrents without repeats, every entry of which the merged
/// candidates keep.
pub open spec fn merged_part(part: Seq<TopEntry>, src: Seq<TopEntry>, merged: Seq<Ranked>, limit: usize, sort_field: u8) -> bool {
    &&& part.no_duplicates()
    &&& covers_top(part, src, sort_field)
    &&& part.len() == min(src.len() as int, limit as int)
    &&& src.len() <= limit ==> part.to_multiset() == src.to_multiset()
    &&& forall|a: int| 0 <= a < part.len() ==> kept_top(merged, ranked_entry(sort_field as usize, #[trigger] part[a]), limit)
    &&& sort_field == 0 ==> forall|a: int| 0 <= a < part.len() ==> (#[trigger] part[a]).1 + part[a].2 <= usize::MAX
}

/// Merging the rankings of several trackers ranks every torrent of every
/// tracker: each is in the merged ranking or ranks no higher than any entry
/// of it. The rankings are those `top_torrents_all` gives, offered to a
/// `TopKMerger` with `insert`, and `out` is what `finish` gives.
pub proof fn law_merged_rankings_cover_all(
    srcs: Seq<Seq<TopEntry>>,
    parts: Seq<Seq<TopEntry>>,
    merged: Seq<Ranked>,
    out: Seq<TopEntry>,
    limit: usize,
    sort_field: u8,
)
    requires
        sort_field <= 3,
        limit > 0,
        parts.len() == srcs.len(),
        forall|i: int| 0 <= i < parts.len() ==> merged_part(#[trigger] parts[i], srcs[i], merged, limit, sort_field),
        out.len() <= limit,
        forall|e: TopEntry|
            #[trigger] kept_top(merged, ranked_entry(sort_field as usize, e), limit) && (sort_field == 0 ==> e.1 + e.2
                <= usize::MAX) ==> out.contains(e) || forall|a: int|
                0 <= a < out.len() ==> sort_value(e, sort_field) <= sort_value(#[trigger] out[a], sort_field),
    ensures
        forall|i: int| 0 <= i < srcs.len() ==> covers_top(out, #[trigger] srcs[i], sort_field),
{
    broadcast use vstd::seq_lib::group_to_multiset_ensures;

    assert forall|i: int| 0 <= i < srcs.len() implies covers_top(out, #[trigger] srcs[i], sort_field) by {
        let part = parts[i];
        let src = srcs[i];
        assert(merged_part(part, src, merged, limit, sort_field));
        assert forall|j: int| 0 <= j < src.len() implies out.contains(#[trigger] src[j]) || forall|a: int|
            0 <= a < out.len() ==> sort_value(src[j], sort_field) <= sort_value(#[trigger] out[a], sort_field) by {
            let e = src[j];
            if part.contains(e) {
                let k = choose|k: int| 0 <= k < part.len() && part[k] == e;
                assert(kept_top(merged, ranked_entry(sort_field as usize, part[k]), limit));
            } else {
                if src.len() <= limit {
                    assert(src.to_multiset().count(e) > 0) by {
                        assert(src.contains(e));
                    }
                    assert(part.to_multiset().count(e) > 0);
                }
                assert(part.len() == limit);
                assert(forall|a: int| 0 <= a < part.len() ==> sort_value(e, sort_field) <= sort_value(#[trigger] part[a], sort_field));
                if exists|a: int| 0 <= a < part.len() && !out.contains(#[trigger] part[a]) {
                    let a = choose|a: int| 0 <= a < part.len() && !out.contains(#[trigger] part[a]);
                    assert(kept_top(merged, ranked_entry(sort_field as usize, part[a]), limit));
                } else {
                    part.unique_seq_to_set();
                    out.lemma_cardinality_of_set();
                    assert(part.to_set().subset_of(out.to_set())) by {
                        assert forall|x: TopEntry| part.to_set().contains(x) implies out.to_set().contains(x) by {
                            let a = choose|a: int| 0 <= a < part.len() && part[a] == x;
                            assert(out.contains(part[a]));
                        }
                    }
                    vstd::set_lib::lemma_len_subset(part.to_set(), out.to_set());
                    vstd::set_lib::lemma_subset_equality(part.to_set(), out.to_set());
                    assert forall|a: int| 0 <= a < out.len() implies sort_value(e, sort_field) <= sort_value(
                        #[trigger] out[a],
                        sort_field,
                    ) by {
                        assert(out.to_set().contains(out[a]));
                        assert(part.to_set().contains(out[a]));
                        let b = choose|b: int| 0 <= b < part.len() && part[b] == out[a];
                        assert(sort_value(e, sort_field) <= sort_value(part[b], sort_field));
                    }
                }
            }
        }
    }
}

/// An Azureus-style peer id, `-` and two characters, names its client by a
/// fixed table of known pairs (the tag and client are given for each); any
/// other pair is unknown (0).
pub proof fn law_azureus_peer_ids(id: Seq<u8>)
    requires
        id.len() == 20,
        id[0] == 45,
    ensures
        id[1] == 65 && id[2] == 126 ==> identify_tag(id) == 20, // -A~: ARES
        id[1] == 65 && id[2] == 71 ==> identify_tag(id) == 20, // -AG: ARES
        id[1] == 65 && id[2] == 78 ==> identify_tag(id) == 20, // -AN: ARES
        id[1] == 65 && id[2] == 82 ==> identify_tag(id) == 20, // -AR: ARES
        id[1] == 65 && id[2] == 76 ==> identify_tag(id) == 102, // -AL: ANIMEKO
        id[1] == 65 && id[2] == 86 ==> identify_tag(id) == 82, // -AV: AVICORA
        id[1] == 65 && id[2] == 88 ==> identify_tag(id) == 83, // -AX: BITPUMP
        id[1] == 65 && id[2] == 68 ==> identify_tag(id) == 84, // -AD: ADM
        id[1] == 65 && id[2] == 84 ==> identify_tag(id) == 85, // -AT: AZTORRENT
        id[1] == 65 && id[2] == 90 ==> identify_tag(id) == 8, // -AZ: VUZE
        id[1] == 66 && id[2] == 66 ==> identify_tag(id) == 25, // -BB: BITBUDDY
        id[1] == 66 && id[2] == 67 ==> identify_tag(id) == 6, // -BC: BITCOMET
        id[1] == 66 && id[2] == 69 ==> identify_tag(id) == 95, // -BE: BITTORRENT_SDK
        id[1] == 66 && id[2] == 73 ==> identify_tag(id) == 9, // -BI: BIGLYBT
        id[1] == 66 && id[2] == 76 ==> identify_tag(id) == 26, // -BL: BITLORD
        id[1] == 66 && id[2] == 84 ==> identify_tag(id) == 4, // -BT: BITTORRENT
        id[1] == 66 && id[2] == 87 ==> identify_tag(id) == 27, // -BW: BITWOMBAT
        id[1] == 67 && id[2] == 66 ==> identify_tag(id) == 21, // -CB: SHAREAZA
        id[1] == 67 && id[2] == 68 ==> identify_tag(id) == 86, // -CD: ENHANCED_CTORRENT
        id[1] == 67 && id[2] == 84 ==> identify_tag(id) == 28, // -CT: CTORRENT
        id[1] == 68 && id[2] == 69 ==> identify_tag(id) == 7, // -DE: DELUGE
        id[1] == 68 && id[2] == 84 ==> identify_tag(id) == 87, // -DT: DTORRENT
        id[1] == 68 && id[2] == 80 ==> identify_tag(id) == 88, // -DP: PROPAGATE
        id[1] == 68 && id[2] == 76 ==> identify_tag(id) == 17, // -DL: DANPLAY
        id[1] == 69 && id[2] == 66 ==> identify_tag(id) == 24, // -EB: EBIT
        id[1] == 69 && id[2] == 83 ==> identify_tag(id) == 89, // -ES: ELECTRIC_SHEEP
        id[1] == 70 && id[2] == 71 ==> identify_tag(id) == 74, // -FG: VAGAA
        id[1] == 70 && id[2] == 67 ==> identify_tag(id) == 29, // -FC: FILECROC
        id[1] == 70 && id[2] == 87 ==> identify_tag(id) == 30, // -FW: FROSTWIRE
        id[1] == 70 && id[2] == 88 ==> identify_tag(id) == 90, // -FX: FREEBOX
        id[1] == 70 && id[2] == 84 ==> identify_tag(id) == 91, // -FT: FOXTORRENT
        id[1] == 70 && id[2] == 76 ==> identify_tag(id) == 92, // -FL: FOLX
        id[1] == 71 && id[2] == 82 ==> identify_tag(id) == 31, // -GR: GETRIGHT
        id[1] == 71 && id[2] == 83 ==> identify_tag(id) == 32, // -GS: GSTORRENT
        id[1] == 71 && id[2] == 80 ==> identify_tag(id) == 33, // -GP: GOPEED
        id[1] == 72 && id[2] == 76 ==> identify_tag(id) == 23, // -HL: HALITE
        id[1] == 74 && id[2] == 83 ==> identify_tag(id) == 34, // -JS: JSTORRENT
        id[1] == 75 && id[2] == 71 ==> identify_tag(id) == 35, // -KG: KGET
        id[1] == 75 && id[2] == 84 ==> identify_tag(id) == 18, // -KT: KTORRENT
        id[1] == 76 && id[2] == 67 ==> identify_tag(id) == 36, // -LC: LEECHCRAFT
        id[1] == 76 && id[2] == 72 ==> identify_tag(id) == 37, // -LH: LH_ABC
        id[1] == 76 && id[2] == 75 ==> identify_tag(id) == 38, // -LK: LINKAGE
        id[1] == 76 && id[2] == 80 ==> identify_tag(id) == 39, // -LP: LPHANT
        id[1] == 76 && id[2] == 84 ==> identify_tag(id) == 5, // -LT: LIBTORRENT
        id[1] == 108 && id[2] == 114 ==> identify_tag(id) == 46, // -lr: TORRENTVILLA
        id[1] == 76 && id[2] == 87 ==> identify_tag(id) == 40, // -LW: LIMEWIRE
        id[1] == 77 && id[2] == 79 ==> identify_tag(id) == 41, // -MO: MONOTORRENT
        id[1] == 77 && id[2] == 67 ==> identify_tag(id) == 47, // -MC: MC
        id[1] == 77 && id[2] == 71 ==> identify_tag(id) == 42, // -MG: MEDIAGET
        id[1] == 77 && id[2] == 82 ==> identify_tag(id) == 94, // -MR: MIRO
        id[1] == 78 && id[2] == 69 ==> identify_tag(id) == 48, // -NE: BT_NEXT
        id[1] == 78 && id[2] == 88 ==> identify_tag(id) == 74, // -NX: VAGAA
        id[1] == 79 && id[2] == 83 ==> identify_tag(id) == 49, // -OS: ONESWARM
        id[1] == 79 && id[2] == 84 ==> identify_tag(id) == 50, // -OT: OMEGA
        id[1] == 80 && id[2] == 67 ==> identify_tag(id) == 51, // -PC: CACHELOGIC
        id[1] == 80 && id[2] == 84 ==> identify_tag(id) == 52, // -PT: POPCORN
        id[1] == 80 && id[2] == 68 ==> identify_tag(id) == 53, // -PD: PANDO
        id[1] == 80 && id[2] == 69 ==> identify_tag(id) == 54, // -PE: PEERPROJECT
        id[1] == 80 && id[2] == 73 ==> identify_tag(id) == 43, // -PI: PICO
        id[1] == 83 && id[2] == 80 ==> identify_tag(id) == 81, // -SP: BITSPIRIT
        id[1] == 112 && id[2] == 88 ==> identify_tag(id) == 45, // -pX: PHOENIX
        id[1] == 113 && id[2] == 66 ==> identify_tag(id) == 1, // -qB: QBITTORRENT
        id[1] == 81 && id[2] == 68 ==> identify_tag(id) == 55, // -QD: QQD
        id[1] == 82 && id[2] == 78 ==> identify_tag(id) == 56, // -RN: RAIN
        id[1] == 82 && id[2] == 81 ==> identify_tag(id) == 57, // -RQ: RQ
        id[1] == 82 && id[2] == 77 ==> identify_tag(id) == 58, // -RM: RUM
        id[1] == 82 && id[2] == 84 ==> identify_tag(id) == 19, // -RT: RTORRENT
        id[1] == 82 && id[2] == 90 ==> identify_tag(id) == 60, // -RZ: REZ
        id[1] == 83 && id[2] == 126 ==> identify_tag(id) == 21, // -S~: SHAREAZA
        id[1] == 83 && id[2] == 66 ==> identify_tag(id) == 61, // -SB: SWIFTBIT
        id[1] == 83 && id[2] == 68 ==> identify_tag(id) == 11, // -SD: XUNLEI_FAST
        id[1] == 83 && id[2] == 71 ==> identify_tag(id) == 62, // -SG: GS_TORRENT
        id[1] == 83 && id[2] == 78 ==> identify_tag(id) == 63, // -SN: SHARENET
        id[1] == 83 && id[2] == 90 ==> identify_tag(id) == 21, // -SZ: SHAREAZA
        id[1] == 84 && id[2] == 71 ==> identify_tag(id) == 65, // -TG: TORRENT_GO
        id[1] == 84 && id[2] == 78 ==> identify_tag(id) == 66, // -TN: TORRENT_NET
        id[1] == 84 && id[2] == 82 ==> identify_tag(id) == 2, // -TR: TRANSMISSION
        id[1] == 84 && id[2] == 83 ==> identify_tag(id) == 22, // -TS: TORRENT_STORM
        id[1] == 84 && id[2] == 84 ==> identify_tag(id) == 68, // -TT: TUOTU
        id[1] == 116 && id[2] == 84 ==> identify_tag(id) == 69, // -tT: TTORRENT
        id[1] == 84 && id[2] == 88 ==> identify_tag(id) == 70, // -TX: TORREX
        id[1] == 85 && id[2] == 76 ==> identify_tag(id) == 71, // -UL: ULEECHER
        id[1] == 85 && id[2] == 69 ==> identify_tag(id) == 3, // -UE: UTORRENT
        id[1] == 85 && id[2] == 84 ==> identify_tag(id) == 3, // -UT: UTORRENT
        id[1] == 85 && id[2] == 77 ==> identify_tag(id) == 3, // -UM: UTORRENT
        id[1] == 85 && id[2] == 87 ==> identify_tag(id) == 3, // -UW: UTORRENT
        id[1] == 87 && id[2] == 68 ==> identify_tag(id) == 16, // -WD: WEBTORRENT
        id[1] == 87 && id[2] == 84 ==> identify_tag(id) == 72, // -WT: BITLET
        id[1] == 87 && id[2] == 87 ==> identify_tag(id) == 16, // -WW: WEBTORRENT
        id[1] == 87 && id[2] == 89 ==> identify_tag(id) == 73, // -WY: FIRETORRENT
        id[1] == 86 && id[2] == 71 ==> identify_tag(id) == 74, // -VG: VAGAA
        id[1] == 88 && id[2] == 70 ==> identify_tag(id) == 75, // -XF: XFPLAY
        id[1] == 88 && id[2] == 76 ==> identify_tag(id) == 10, // -XL: XUNLEI
        id[1] == 88 && id[2] == 84 ==> identify_tag(id) == 76, // -XT: XANTORRENT
        id[1] == 88 && id[2] == 88 ==> identify_tag(id) == 77, // -XX: XTORRENT
        id[1] == 88 && id[2] == 67 ==> identify_tag(id) == 77, // -XC: XTORRENT
        id[1] == 90 && id[2] == 84 ==> identify_tag(id) == 78, // -ZT: ZIPTORRENT
        id[1] == 55 && id[2] == 84 ==> identify_tag(id) == 79, // -7T: ATORRENT
        id[1] == 90 && id[2] == 79 ==> identify_tag(id) == 80, // -ZO: ZONA
        id[1] == 52 && id[2] == 106 ==> identify_tag(id) == 87, // -4j: DTORRENT
        id[1] == 53 && id[2] == 51 ==> identify_tag(id) == 97, // -53: LIII
        id[1] == 66 && id[2] == 79 ==> identify_tag(id) == 96, // -BO: BWS
        id[1] == 77 && id[2] == 76 ==> identify_tag(id) == 98, // -ML: MLDONKEY
        id[1] == 81 && id[2] == 86 ==> identify_tag(id) == 101, // -QV: QVOD
        !((id[1] == 65 && id[2] == 126) || (id[1] == 65 && id[2] == 71) || (id[1] == 65 && id[2] == 78) || (id[1] == 65 && id[2] == 82) || (id[1] == 65 && id[2] == 76) || (id[1] == 65 && id[2] == 86) || (id[1] == 65 && id[2] == 88) || (id[1] == 65 && id[2] == 68) || (id[1] == 65 && id[2] == 84) || (id[1] == 65 && id[2] == 90) || (id[1] == 66 && id[2] == 66) || (id[1] == 66 && id[2] == 67) || (id[1] == 66 && id[2] == 69) || (id[1] == 66 && id[2] == 73) || (id[1] == 66 && id[2] == 76) || (id[1] == 66 && id[2] == 84) || (id[1] == 66 && id[2] == 87) || (id[1] == 67 && id[2] == 66) || (id[1] == 67 && id[2] == 68) || (id[1] == 67 && id[2] == 84) || (id[1] == 68 && id[2] == 69) || (id[1] == 68 && id[2] == 84) || (id[1] == 68 && id[2] == 80) || (id[1] == 68 && id[2] == 76) || (id[1] == 69 && id[2] == 66) || (id[1] == 69 && id[2] == 83) || (id[1] == 70 && id[2] == 71) || (id[1] == 70 && id[2] == 67) || (id[1] == 70 && id[2] == 87) || (id[1] == 70 && id[2] == 88) || (id[1] == 70 && id[2] == 84) || (id[1] == 70 && id[2] == 76) || (id[1] == 71 && id[2] == 82) || (id[1] == 71 && id[2] == 83) || (id[1] == 71 && id[2] == 80) || (id[1] == 72 && id[2] == 76) || (id[1] == 74 && id[2] == 83) || (id[1] == 75 && id[2] == 71) || (id[1] == 75 && id[2] == 84) || (id[1] == 76 && id[2] == 67) || (id[1] == 76 && id[2] == 72) || (id[1] == 76 && id[2] == 75) || (id[1] == 76 && id[2] == 80) || (id[1] == 76 && id[2] == 84) || (id[1] == 108 && id[2] == 114) || (id[1] == 76 && id[2] == 87) || (id[1] == 77 && id[2] == 79) || (id[1] == 77 && id[2] == 67) || (id[1] == 77 && id[2] == 71) || (id[1] == 77 && id[2] == 82) || (id[1] == 78 && id[2] == 69) || (id[1] == 78 && id[2] == 88) || (id[1] == 79 && id[2] == 83) || (id[1] == 79 && id[2] == 84) || (id[1] == 80 && id[2] == 67) || (id[1] == 80 && id[2] == 84) || (id[1] == 80 && id[2] == 68) || (id[1] == 80 && id[2] == 69) || (id[1] == 80 && id[2] == 73) || (id[1] == 83 && id[2] == 80) || (id[1] == 112 && id[2] == 88) || (id[1] == 113 && id[2] == 66) || (id[1] == 81 && id[2] == 68) || (id[1] == 82 && id[2] == 78) || (id[1] == 82 && id[2] == 81) || (id[1] == 82 && id[2] == 77) || (id[1] == 82 && id[2] == 84) || (id[1] == 82 && id[2] == 90) || (id[1] == 83 && id[2] == 126) || (id[1] == 83 && id[2] == 66) || (id[1] == 83 && id[2] == 68) || (id[1] == 83 && id[2] == 71) || (id[1] == 83 && id[2] == 78) || (id[1] == 83 && id[2] == 90) || (id[1] == 84 && id[2] == 71) || (id[1] == 84 && id[2] == 78) || (id[1] == 84 && id[2] == 82) || (id[1] == 84 && id[2] == 83) || (id[1] == 84 && id[2] == 84) || (id[1] == 116 && id[2] == 84) || (id[1] == 84 && id[2] == 88) || (id[1] == 85 && id[2] == 76) || (id[1] == 85 && id[2] == 69) || (id[1] == 85 && id[2] == 84) || (id[1] == 85 && id[2] == 77) || (id[1] == 85 && id[2] == 87) || (id[1] == 87 && id[2] == 68) || (id[1] == 87 && id[2] == 84) || (id[1] == 87 && id[2] == 87) || (id[1] == 87 && id[2] == 89) || (id[1] == 86 && id[2] == 71) || (id[1] == 88 && id[2] == 70) || (id[1] == 88 && id[2] == 76) || (id[1] == 88 && id[2] == 84) || (id[1] == 88 && id[2] == 88) || (id[1] == 88 && id[2] == 67) || (id[1] == 90 && id[2] == 84) || (id[1] == 55 && id[2] == 84) || (id[1] == 90 && id[2] == 79) || (id[1] == 52 && id[2] == 106) || (id[1] == 53 && id[2] == 51) || (id[1] == 66 && id[2] == 79) || (id[1] == 77 && id[2] == 76) || (id[1] == 81 && id[2] == 86)) ==> identify_tag(id) == 0,
{
}

/// A 20-byte id has the prefix `p` exactly when its first bytes are those
/// of `p`.
proof fn lemma_prefix_bytes(id: Seq<u8>, p: Seq<u8>)
    requires
        id.len() == 20,
        p.len() <= 20,
    ensures
        crate::client_id::has_prefix(id, p) <==> forall|k: int| 0 <= k < p.len() ==> id[k] == #[trigger] p[k],
{
    if forall|k: int| 0 <= k < p.len() ==> id[k] == #[trigger] p[k] {
        assert(id.subrange(0, p.len() as int) =~= p);
    }
    if crate::client_id::has_prefix(id, p) {
        assert forall|k: int| 0 <= k < p.len() implies id[k] == #[trigger] p[k] by {
            assert(id.subrange(0, p.len() as int)[k] == id[k]);
        }
    }
}

/// A peer id of another style names its client by its first characters:
/// a fixed list of known prefixes (the tag and client are given for each);
/// any other id is unknown (0).
pub proof fn law_other_peer_ids(id: Seq<u8>)
    requires
        id.len() == 20,
        id[0] != 45,
    ensures
        id[0] == 65 && id[1] == 50 && id[2] == 45 ==> identify_tag(id) == 12, // A2-: ARIA2
        id[0] == 66 && id[1] == 77 ==> identify_tag(id) == 99, // BM: BM
        id[0] == 98 && id[1] == 116 && id[2] == 102 && id[3] == 97 && id[4] == 110 && id[5] == 115 ==> identify_tag(id) == 21, // btfans: SHAREAZA
        id[0] == 70 && id[1] == 68 && id[2] == 54 ==> identify_tag(id) == 13, // FD6: FDM
        id[0] == 77 && id[1] == 54 && id[2] == 45 ==> identify_tag(id) == 14, // M6-: MAINLINE
        id[0] == 77 && id[1] == 55 && id[2] == 45 ==> identify_tag(id) == 14, // M7-: MAINLINE
        id[0] == 77 && id[1] == 56 && id[2] == 45 ==> identify_tag(id) == 14, // M8-: MAINLINE
        id[0] == 77 && id[1] == 71 && id[2] == 45 ==> identify_tag(id) == 42, // MG-: MEDIAGET
        id[0] == 110 && id[1] == 101 && id[2] == 116 ==> identify_tag(id) == 93, // net: NETDISK
        id[0] == 84 && id[1] == 73 && id[2] == 88 ==> identify_tag(id) == 15, // TIX: TIXATI
        !((id[0] == 65 && id[1] == 50 && id[2] == 45) || (id[0] == 66 && id[1] == 77) || (id[0] == 98 && id[1] == 116 && id[2] == 102 && id[3] == 97 && id[4] == 110 && id[5] == 115) || (id[0] == 70 && id[1] == 68 && id[2] == 54) || (id[0] == 77 && id[1] == 54 && id[2] == 45) || (id[0] == 77 && id[1] == 55 && id[2] == 45) || (id[0] == 77 && id[1] == 56 && id[2] == 45) || (id[0] == 77 && id[1] == 71 && id[2] == 45) || (id[0] == 110 && id[1] == 101 && id[2] == 116) || (id[0] == 84 && id[1] == 73 && id[2] == 88)) ==> identify_tag(id) == 0,
{
    lemma_prefix_bytes(id, seq![65u8, 50u8, 45u8]);
    lemma_prefix_bytes(id, seq![66u8, 77u8]);
    lemma_prefix_bytes(id, seq![98u8, 116u8, 102u8, 97u8, 110u8, 115u8]);
    lemma_prefix_bytes(id, seq![70u8, 68u8, 54u8]);
    lemma_prefix_bytes(id, seq![77u8, 54u8, 45u8]);
    lemma_prefix_bytes(id, seq![77u8, 55u8, 45u8]);
    lemma_prefix_bytes(id, seq![77u8, 56u8, 45u8]);
    lemma_prefix_bytes(id, seq![77u8, 71u8, 45u8]);
    lemma_prefix_bytes(id, seq![110u8, 101u8, 116u8]);
    lemma_prefix_bytes(id, seq![84u8, 73u8, 88u8]);
}

/// Each known client tag has its display name, and every other tag is
/// "Unknown".
pub proof fn law_client_names(tag: u8)
    ensures
        tag == 1 ==> client_name_text(tag) == "qBittorrent"@,
        tag == 2 ==> client_name_text(tag) == "Transmission"@,
        tag == 3 ==> client_name_text(tag) == "uTorrent"@,
        tag == 4 ==> client_name_text(tag) == "BitTorrent"@,
        tag == 5 ==> client_name_text(tag) == "libtorrent"@,
        tag == 6 ==> client_name_text(tag) == "BitComet"@,
        tag == 7 ==> client_name_text(tag) == "Deluge"@,
        tag == 8 ==> client_name_text(tag) == "Vuze"@,
        tag == 9 ==> client_name_text(tag) == "BiglyBT"@,
        tag == 10 ==> client_name_text(tag) == "Xunlei"@,
        tag == 11 ==> client_name_text(tag) == "Xunlei Fast"@,
        tag == 12 ==> client_name_text(tag) == "Aria2"@,
        tag == 13 ==> client_name_text(tag) == "FDM"@,
        tag == 14 ==> client_name_text(tag) == "Mainline"@,
        tag == 15 ==> client_name_text(tag) == "Tixati"@,
        tag == 16 ==> client_name_text(tag) == "WebTorrent"@,
        tag == 17 ==> client_name_text(tag) == "DanDanPlay"@,
        tag == 18 ==> client_name_text(tag) == "KTorrent"@,
        tag == 19 ==> client_name_text(tag) == "rTorrent"@,
        tag == 20 ==> client_name_text(tag) == "Ares"@,
        tag == 21 ==> client_name_text(tag) == "Shareaza"@,
        tag == 22 ==> client_name_text(tag) == "TorrentStorm"@,
        tag == 23 ==> client_name_text(tag) == "Halite"@,
        tag == 24 ==> client_name_text(tag) == "EBit"@,
        tag == 25 ==> client_name_text(tag) == "BitBuddy"@,
        tag == 26 ==> client_name_text(tag) == "BitLord"@,
        tag == 27 ==> client_name_text(tag) == "BitWombat"@,
        tag == 28 ==> client_name_text(tag) == "CTorrent"@,
        tag == 29 ==> client_name_text(tag) == "FileCroc"@,
        tag == 30 ==> client_name_text(tag) == "FrostWire"@,
        tag == 31 ==> client_name_text(tag) == "GetRight"@,
        tag == 32 ==> client_name_text(tag) == "GSTorrent"@,
        tag == 33 ==> client_name_text(tag) == "Gopeed"@,
        tag == 34 ==> client_name_text(tag) == "JSTorrent"@,
        tag == 35 ==> client_name_text(tag) == "KGet"@,
        tag == 36 ==> client_name_text(tag) == "LeechCraft"@,
        tag == 37 ==> client_name_text(tag) == "LH-ABC"@,
        tag == 38 ==> client_name_text(tag) == "linkage"@,
        tag == 39 ==> client_name_text(tag) == "Lphant"@,
        tag == 40 ==> client_name_text(tag) == "LimeWire"@,
        tag == 41 ==> client_name_text(tag) == "MonoTorrent"@,
        tag == 42 ==> client_name_text(tag) == "MediaGet"@,
        tag == 43 ==> client_name_text(tag) == "picotorrent"@,
        tag == 44 ==> client_name_text(tag) == "Bitpirit"@,
        tag == 45 ==> client_name_text(tag) == "pHoeniX"@,
        tag == 46 ==> client_name_text(tag) == "Torrentvilla"@,
        tag == 47 ==> client_name_text(tag) == "MC"@,
        tag == 48 ==> client_name_text(tag) == "BT Next"@,
        tag == 49 ==> client_name_text(tag) == "OneSwarm"@,
        tag == 50 ==> client_name_text(tag) == "OmegaTorrent"@,
        tag == 51 ==> client_name_text(tag) == "CacheLogic"@,
        tag == 52 ==> client_name_text(tag) == "Popcorn Time"@,
        tag == 53 ==> client_name_text(tag) == "Pando"@,
        tag == 54 ==> client_name_text(tag) == "PeerProject"@,
        tag == 55 ==> client_name_text(tag) == "QQ旋风"@,
        tag == 56 ==> client_name_text(tag) == "Rain"@,
        tag == 57 ==> client_name_text(tag) == "rQ"@,
        tag == 58 ==> client_name_text(tag) == "RUM Torrent"@,
        tag == 59 ==> client_name_text(tag) == "Retriever"@,
        tag == 60 ==> client_name_text(tag) == "RezTorrent"@,
        tag == 61 ==> client_name_text(tag) == "SwiftBit"@,
        tag == 62 ==> client_name_text(tag) == "GS Torrent"@,
        tag == 63 ==> client_name_text(tag) == "ShareNET"@,
        tag == 64 ==> client_name_text(tag) == "StellarPlayer"@,
        tag == 65 ==> client_name_text(tag) == "Torrent GO"@,
        tag == 66 ==> client_name_text(tag) == "Torrent.NET"@,
        tag == 67 ==> client_name_text(tag) == "TorrentStorm"@,
        tag == 68 ==> client_name_text(tag) == "TuoTu"@,
        tag == 69 ==> client_name_text(tag) == "tTorrent"@,
        tag == 70 ==> client_name_text(tag) == "Torrex Pro"@,
        tag == 71 ==> client_name_text(tag) == "uLeecher"@,
        tag == 72 ==> client_name_text(tag) == "Bitlet"@,
        tag == 73 ==> client_name_text(tag) == "FireTorrent"@,
        tag == 74 ==> client_name_text(tag) == "Vagaa"@,
        tag == 75 ==> client_name_text(tag) == "Xfplay"@,
        tag == 76 ==> client_name_text(tag) == "XanTorrent"@,
        tag == 77 ==> client_name_text(tag) == "XTorrent"@,
        tag == 78 ==> client_name_text(tag) == "ZipTorrent"@,
        tag == 79 ==> client_name_text(tag) == "aTorrent"@,
        tag == 80 ==> client_name_text(tag) == "Zona"@,
        tag == 81 ==> client_name_text(tag) == "BitSpirit"@,
        tag == 82 ==> client_name_text(tag) == "Avicora"@,
        tag == 83 ==> client_name_text(tag) == "BitPump"@,
        tag == 84 ==> client_name_text(tag) == "ADM"@,
        tag == 85 ==> client_name_text(tag) == "AzTorrent"@,
        tag == 86 ==> client_name_text(tag) == "Enhanced CTorrent"@,
        tag == 87 ==> client_name_text(tag) == "DTorrent"@,
        tag == 88 ==> client_name_text(tag) == "Propagate"@,
        tag == 89 ==> client_name_text(tag) == "Electric Sheep"@,
        tag == 90 ==> client_name_text(tag) == "Freebox"@,
        tag == 91 ==> client_name_text(tag) == "FoxTorrent"@,
        tag == 92 ==> client_name_text(tag) == "folx"@,
        tag == 93 ==> client_name_text(tag) == "netdisk"@,
        tag == 94 ==> client_name_text(tag) == "Miro"@,
        tag == 95 ==> client_name_text(tag) == "BT SDK"@,
        tag == 96 ==> client_name_text(tag) == "BitsOnWheels"@,
        tag == 97 ==> client_name_text(tag) == "LIII"@,
        tag == 98 ==> client_name_text(tag) == "MLDonkey"@,
        tag == 99 ==> client_name_text(tag) == "BitMagnet"@,
        tag == 100 ==> client_name_text(tag) == "AllPeers"@,
        tag == 101 ==> client_name_text(tag) == "QVOD"@,
        tag == 102 ==> client_name_text(tag) == "Animeko"@,
        !(tag == 1 || tag == 2 || tag == 3 || tag == 4 || tag == 5 || tag == 6 || tag == 7 || tag == 8 || tag == 9 || tag == 10 || tag == 11 || tag == 12 || tag == 13 || tag == 14 || tag == 15 || tag == 16 || tag == 17 || tag == 18 || tag == 19 || tag == 20 || tag == 21 || tag == 22 || tag == 23 || tag == 24 || tag == 25 || tag == 26 || tag == 27 || tag == 28 || tag == 29 || tag == 30 || tag == 31 || tag == 32 || tag == 33 || tag == 34 || tag == 35 || tag == 36 || tag == 37 || tag == 38 || tag == 39 || tag == 40 || tag == 41 || tag == 42 || tag == 43 || tag == 44 || tag == 45 || tag == 46 || tag == 47 || tag == 48 || tag == 49 || tag == 50 || tag == 51 || tag == 52 || tag == 53 || tag == 54 || tag == 55 || tag == 56 || tag == 57 || tag == 58 || tag == 59 || tag == 60 || tag == 61 || tag == 62 || tag == 63 || tag == 64 || tag == 65 || tag == 66 || tag == 67 || tag == 68 || tag == 69 || tag == 70 || tag == 71 || tag == 72 || tag == 73 || tag == 74 || tag == 75 || tag == 76 || tag == 77 || tag == 78 || tag == 79 || tag == 80 || tag == 81 || tag == 82 || tag == 83 || tag == 84 || tag == 85 || tag == 86 || tag == 87 || tag == 88 || tag == 89 || tag == 90 || tag == 91 || tag == 92 || tag == 93 || tag == 94 || tag == 95 || tag == 96 || tag == 97 || tag == 98 || tag == 99 || tag == 100 || tag == 101 || tag == 102) ==> client_name_text(tag) == "Unknown"@,
{
}

/// The `event` parameter: `started`, `completed` and `stopped` set the
/// events of those names and an empty value sets no particular event,
/// whatever was read before; any other value is refused.
pub proof fn law_event_words(st: QueryParts, value: Seq<u8>, ip_ok: bool)
    ensures
        announce_step(st, seq![101u8, 118u8, 101u8, 110u8, 116u8], seq![115u8, 116u8, 97u8, 114u8, 116u8, 101u8, 100u8], ip_ok) == Ok::<QueryParts, ProtocolError>(
            QueryParts { event: Some(AnnounceEvent::Started), ..st },
        ),
        announce_step(st, seq![101u8, 118u8, 101u8, 110u8, 116u8], seq![99u8, 111u8, 109u8, 112u8, 108u8, 101u8, 116u8, 101u8, 100u8], ip_ok) == Ok::<QueryParts, ProtocolError>(
            QueryParts { event: Some(AnnounceEvent::Completed), ..st },
        ),
        announce_step(st, seq![101u8, 118u8, 101u8, 110u8, 116u8], seq![115u8, 116u8, 111u8, 112u8, 112u8, 101u8, 100u8], ip_ok) == Ok::<QueryParts, ProtocolError>(
            QueryParts { event: Some(AnnounceEvent::Stopped), ..st },
        ),
        announce_step(st, seq![101u8, 118u8, 101u8, 110u8, 116u8], Seq::<u8>::empty(), ip_ok) == Ok::<QueryParts, ProtocolError>(
            QueryParts { event: Some(AnnounceEvent::Empty), ..st },
        ),
        value != seq![115u8, 116u8, 97u8, 114u8, 116u8, 101u8, 100u8] && value != seq![99u8, 111u8, 109u8, 112u8, 108u8, 101u8, 116u8, 101u8, 100u8] && value != seq![115u8, 116u8, 111u8, 112u8, 112u8, 101u8, 100u8] && value.len() > 0
            ==> announce_step(st, seq![101u8, 118u8, 101u8, 110u8, 116u8], value, ip_ok) == Err::<QueryParts, ProtocolError>(
            ProtocolError::Invalid("event"),
        ),
{
    reveal_strlit("event");
    reveal_strlit("started");
    reveal_strlit("completed");
    reveal_strlit("stopped");
    reveal_strlit("info_hash");
    reveal_strlit("peer_id");
    reveal_strlit("port");
    reveal_strlit("uploaded");
    reveal_strlit("downloaded");
    reveal_strlit("left");
    assert(ascii("event"@) =~= seq![101u8, 118u8, 101u8, 110u8, 116u8]);
    assert(ascii("started"@) =~= seq![115u8, 116u8, 97u8, 114u8, 116u8, 101u8, 100u8]);
    assert(ascii("completed"@) =~= seq![99u8, 111u8, 109u8, 112u8, 108u8, 101u8, 116u8, 101u8, 100u8]);
    assert(ascii("stopped"@) =~= seq![115u8, 116u8, 111u8, 112u8, 112u8, 101u8, 100u8]);
    assert(ascii("info_hash"@).len() == 9);
    assert(ascii("peer_id"@).len() == 7);
    assert(ascii("port"@).len() == 4);
    assert(ascii("uploaded"@).len() == 8);
    assert(ascii("downloaded"@).len() == 10);
    assert(ascii("left"@).len() == 4);
}

/// A parsed query carries the values it was given, and the defaults for
/// those it was not: nothing uploaded, downloaded or left, the empty event,
/// 100 peers wanted (never more than 400) and compact answers.
pub proof fn law_query_fields(a: AnnounceQuery, st: QueryParts)
    requires
        query_from(a, st),
    ensures
        st.port == Some(a.port as nat),
        st.event == Some(AnnounceEvent::Stopped) ==> a.event == AnnounceEvent::Stopped,
        st.event == Some(AnnounceEvent::Started) ==> a.event == AnnounceEvent::Started,
        st.event == Some(AnnounceEvent::Completed) ==> a.event == AnnounceEvent::Completed,
        st.event == Some(AnnounceEvent::Empty) || st.event is None ==> a.event == AnnounceEvent::Empty,
        st.left is None ==> a.left == 0,
        st.left matches Some(n) ==> a.left == n,
        st.uploaded is None ==> a.uploaded == 0,
        st.uploaded matches Some(n) ==> a.uploaded == n,
        st.downloaded is None ==> a.downloaded == 0,
        st.downloaded matches Some(n) ==> a.downloaded == n,
        st.numwant is None ==> a.numwant == 100,
        st.numwant matches Some(n) ==> a.numwant == min(n as int, 400),
        st.compact is None ==> a.compact,
        st.compact matches Some(c) ==> a.compact == c,
{
}

/// An announce stores a seeder exactly when nothing is left to download,
/// seen now, under the client it named.
pub proof fn law_announced_state(input: AnnounceInput, now_secs: u32)
    ensures
        announced_state(input, now_secs).complete <==> input.left == 0,
        announced_state(input, now_secs).last_seen_secs == now_secs,
        announced_state(input, now_secs).client_tag == input.client_tag,
{
}

/// A completion is counted for a `completed` announce of a peer not already
/// stored as complete, and for nothing else.
pub proof fn law_completion_counted(old_peer: Option<PeerState>, input: AnnounceInput)
    ensures
        input.event != AnnounceEvent::Completed ==> !counts_completion(old_peer, input),
        old_peer matches Some(o) && o.complete ==> !counts_completion(old_peer, input),
        input.event == AnnounceEvent::Completed && (old_peer is None || !old_peer->0.complete) ==> counts_completion(
            old_peer,
            input,
        ),
{
}

/// A swarm's statistics: its seeders as complete, the other stored peers as
/// incomplete, and its completions.
pub proof fn law_swarm_stats(w: Swarm)
    requires
        w.wf(),
        w.complete <= w.peer_count(),
    ensures
        stats_of(w).complete == w.complete,
        stats_of(w).complete + stats_of(w).incomplete == w.peer_count(),
        stats_of(w).downloaded == w.downloaded,
{
    w.lemma_peer_count_bound();
}

/// Samples are taken per ten minutes: a time falls in the period that
/// starts at the last multiple of 600 seconds, and seven days (604800
/// seconds) back from a period start are kept, from time zero at the least.
pub proof fn law_sampling_periods(now: u64)
    ensures
        bucket_of(now) <= now < bucket_of(now) + 600,
        bucket_of(now) % 600 == 0,
        now >= 604800 ==> retention_start(now) == now - 604800,
        now < 604800 ==> retention_start(now) == 0,
{
    assert(bucket_of(now) % 600 == 0) by (nonlinear_arith)
        requires
            bucket_of(now) == now - now % 600,
    ;
}

/// Expiry at `now` keeps a peer exactly when it was seen within `timeout`
/// seconds of `now` (a sighting after `now` counts as recent); whether the
/// peer is a seeder plays no part.
pub proof fn law_expiry_keeps_recent_peers(s: PeerState, now: u32, timeout: u32)
    ensures
        kept(Some(s), now, timeout) == if s.last_seen_secs as int >= now as int - timeout as int {
            Some(s)
        } else {
            None::<PeerState>
        },
        kept(None, now, timeout) is None,
        kept(Some(PeerState { complete: !s.complete, ..s }), now, timeout) is Some <==> kept(Some(s), now, timeout) is Some,
{
}

/// A swarm after expiry at `now` holds the peers of the swarm before that
/// were seen within `timeout` seconds, with their states, and no others.
pub proof fn law_swarm_expiry(w: Swarm, w2: Swarm, now: u32, timeout: u32, e: PeerEndpoint)
    requires
        expired_from(w2, w, now, timeout),
    ensures
        w2.peer(e) == match w.peer(e) {
            Some(s) => if s.last_seen_secs as int >= now as int - timeout as int {
                Some(s)
            } else {
                None::<PeerState>
            },
            None => None,
        },
{
}

/// Recording a snapshot at a new period stores, as the latest sample, the
/// period's start with the snapshot's totals field by field.
pub proof fn law_record_stores_the_totals(points: Seq<TrendPoint>, bucket: u64, snapshot: TrackerSnapshot)
    ensures
        ({
            let ps = recent(points.push(point_of(bucket, snapshot)), retention_start(bucket));
            &&& ps.len() > 0
            &&& ps.last() == TrendPoint {
                timestamp: bucket,
                torrents: snapshot.totals.torrents,
                peers: snapshot.totals.peers,
                seeders: snapshot.totals.seeders,
                leechers: snapshot.totals.leechers,
            }
        }),
{
    let all = points.push(point_of(bucket, snapshot));
    assert(all.drop_last() =~= points);
}

/// The value of decimal digits, most significant first.
pub open spec fn digits_value(s: Seq<u8>) -> int
    decreases s.len(),
{
    if s.len() == 0 {
        0
    } else {
        digits_value(s.drop_last()) * 10 + (s.last() - 48)
    }
}

/// The decimal text of `n` is made of the digits `0` to `9`, starts with a
/// digit other than `0` unless `n` is zero, and reads back as `n`.
pub proof fn law_decimal_text(n: nat)
    ensures
        decimal(n).len() > 0,
        forall|i: int| 0 <= i < decimal(n).len() ==> 48 <= #[trigger] decimal(n)[i] <= 57,
        decimal(n)[0] != 48 || n == 0,
        digits_value(decimal(n)) == n,
    decreases n,
{
    if n < 10 {
        assert(decimal(n).drop_last() =~= Seq::<u8>::empty());
        assert(digits_value(decimal(n)) == digits_value(Seq::<u8>::empty()) * 10 + (decimal(n).last() - 48));
    } else {
        law_decimal_text(n / 10);
        let d = decimal(n / 10);
        assert(decimal(n).drop_last() =~= d);
        assert(decimal(n).last() == (48 + n % 10) as u8);
        assert(n == (n / 10) * 10 + n % 10);
        assert(digits_value(decimal(n)) == digits_value(d) * 10 + (decimal(n).last() - 48));
        assert forall|i: int| 0 <= i < decimal(n).len() implies 48 <= #[trigger] decimal(n)[i] <= 57 by {
            if i < d.len() {
                assert(decimal(n)[i] == d[i]);
            }
        }
        assert(decimal(n)[0] == d[0]);
    }
}

/// The answer to an announce is the dictionary, keys in order, of
/// `complete`, `downloaded`, `incomplete`, `interval` as integers and
/// `peers`, `peers6` as the compact IPv4 and IPv6 peer bytes.
pub proof fn law_announce_body(o: AnnounceOutput)
    ensures
        announce_body(o) == seq![100u8] + seq![56u8, 58u8, 99u8, 111u8, 109u8, 112u8, 108u8, 101u8, 116u8, 101u8] + bint((o.complete as i64) as int) + seq![49u8, 48u8, 58u8, 100u8, 111u8, 119u8, 110u8, 108u8, 111u8, 97u8, 100u8, 101u8, 100u8] + bint((o.downloaded as i64) as int) + seq![49u8, 48u8, 58u8, 105u8, 110u8, 99u8, 111u8, 109u8, 112u8, 108u8, 101u8, 116u8, 101u8] + bint((o.incomplete as i64) as int) + seq![56u8, 58u8, 105u8, 110u8, 116u8, 101u8, 114u8, 118u8, 97u8, 108u8] + bint((o.interval as i64) as int) + seq![53u8, 58u8, 112u8, 101u8, 101u8, 114u8, 115u8]
            + decimal(o.peers.0@.len()) + seq![58u8] + o.peers.0@ + seq![54u8, 58u8, 112u8, 101u8, 101u8, 114u8, 115u8, 54u8] + decimal(o.peers.1@.len()) + seq![58u8]
            + o.peers.1@ + seq![101u8],
{
    reveal_strlit("complete");
    reveal_strlit("downloaded");
    reveal_strlit("incomplete");
    reveal_strlit("interval");
    reveal_strlit("peers");
    reveal_strlit("peers6");
    assert(decimal(1) == seq![49u8]);
    assert(decimal(10) =~= seq![49u8, 48u8]);
    assert(bstring(ascii("complete"@)) =~= seq![56u8, 58u8, 99u8, 111u8, 109u8, 112u8, 108u8, 101u8, 116u8, 101u8]);
    assert(bstring(ascii("downloaded"@)) =~= seq![49u8, 48u8, 58u8, 100u8, 111u8, 119u8, 110u8, 108u8, 111u8, 97u8, 100u8, 101u8, 100u8]);
    assert(bstring(ascii("incomplete"@)) =~= seq![49u8, 48u8, 58u8, 105u8, 110u8, 99u8, 111u8, 109u8, 112u8, 108u8, 101u8, 116u8, 101u8]);
    assert(bstring(ascii("interval"@)) =~= seq![56u8, 58u8, 105u8, 110u8, 116u8, 101u8, 114u8, 118u8, 97u8, 108u8]);
    assert(bstring(ascii("peers"@)) =~= seq![53u8, 58u8, 112u8, 101u8, 101u8, 114u8, 115u8]);
    assert(bstring(ascii("peers6"@)) =~= seq![54u8, 58u8, 112u8, 101u8, 101u8, 114u8, 115u8, 54u8]);
    assert(announce_body(o) =~= seq![100u8] + seq![56u8, 58u8, 99u8, 111u8, 109u8, 112u8, 108u8, 101u8, 116u8, 101u8] + bint((o.complete as i64) as int) + seq![49u8, 48u8, 58u8, 100u8, 111u8, 119u8, 110u8, 108u8, 111u8, 97u8, 100u8, 101u8, 100u8] + bint((o.downloaded as i64) as int) + seq![49u8, 48u8, 58u8, 105u8, 110u8, 99u8, 111u8, 109u8, 112u8, 108u8, 101u8, 116u8, 101u8] + bint((o.incomplete as i64) as int) + seq![56u8, 58u8, 105u8, 110u8, 116u8, 101u8, 114u8, 118u8, 97u8, 108u8] + bint((o.interval as i64) as int) + seq![53u8, 58u8, 112u8, 101u8, 101u8, 114u8, 115u8]
            + decimal(o.peers.0@.len()) + seq![58u8] + o.peers.0@ + seq![54u8, 58u8, 112u8, 101u8, 101u8, 114u8, 115u8, 54u8] + decimal(o.peers.1@.len()) + seq![58u8]
            + o.peers.1@ + seq![101u8]);
}

/// The statistics of a torrent in a scrape answer: the dictionary of
/// `complete`, `downloaded` and `incomplete`, in that order, as integers.
pub proof fn law_stats_body(st: TorrentStats)
    ensures
        stats_body(st) == seq![100u8] + seq![56u8, 58u8, 99u8, 111u8, 109u8, 112u8, 108u8, 101u8, 116u8, 101u8] + bint((st.complete as i64) as int) + seq![49u8, 48u8, 58u8, 100u8, 111u8, 119u8, 110u8, 108u8, 111u8, 97u8, 100u8, 101u8, 100u8] + bint((st.downloaded as i64) as int) + seq![49u8, 48u8, 58u8, 105u8, 110u8, 99u8, 111u8, 109u8, 112u8, 108u8, 101u8, 116u8, 101u8] + bint((st.incomplete as i64) as int) + seq![101u8],
        scrape_body(Seq::empty()) == seq![100u8, 53u8, 58u8, 102u8, 105u8, 108u8, 101u8, 115u8, 100u8, 101u8, 101u8],
{
    reveal_strlit("complete");
    reveal_strlit("downloaded");
    reveal_strlit("incomplete");
    reveal_strlit("files");
    assert(decimal(1) == seq![49u8]);
    assert(decimal(10) =~= seq![49u8, 48u8]);
    assert(bstring(ascii("complete"@)) =~= seq![56u8, 58u8, 99u8, 111u8, 109u8, 112u8, 108u8, 101u8, 116u8, 101u8]);
    assert(bstring(ascii("downloaded"@)) =~= seq![49u8, 48u8, 58u8, 100u8, 111u8, 119u8, 110u8, 108u8, 111u8, 97u8, 100u8, 101u8, 100u8]);
    assert(bstring(ascii("incomplete"@)) =~= seq![49u8, 48u8, 58u8, 105u8, 110u8, 99u8, 111u8, 109u8, 112u8, 108u8, 101u8, 116u8, 101u8]);
    assert(bstring(ascii("files"@)) =~= seq![53u8, 58u8, 102u8, 105u8, 108u8, 101u8, 115u8]);
    assert(stats_body(st) =~= seq![100u8] + seq![56u8, 58u8, 99u8, 111u8, 109u8, 112u8, 108u8, 101u8, 116u8, 101u8] + bint((st.complete as i64) as int) + seq![49u8, 48u8, 58u8, 100u8, 111u8, 119u8, 110u8, 108u8, 111u8, 97u8, 100u8, 101u8, 100u8] + bint((st.downloaded as i64) as int) + seq![49u8, 48u8, 58u8, 105u8, 110u8, 99u8, 111u8, 109u8, 112u8, 108u8, 101u8, 116u8, 101u8] + bint((st.incomplete as i64) as int) + seq![101u8]);
    assert(scrape_body(Seq::empty()) =~= seq![100u8, 53u8, 58u8, 102u8, 105u8, 108u8, 101u8, 115u8, 100u8, 101u8, 101u8]);
}

/// The announce interval handed out is never below one second and, for
/// intervals of ten seconds and more, stays within a tenth of the
/// configured interval either way, whatever the seed.
pub proof fn law_jittered_interval(interval_secs: u64, seed: u64)
    ensures
        jittered(interval_secs, seed) >= 1,
        10 <= interval_secs <= u64::MAX / 10 ==> interval_secs - interval_secs / 10 <= jittered(interval_secs, seed)
            <= interval_secs + interval_secs / 10,
{
    if 10 <= interval_secs <= u64::MAX / 10 {
        let b = interval_secs as int;
        assert((b * 10) / 100 == b / 10) by (nonlinear_arith)
            requires
                b >= 0,
        ;
        assert(b * 10 <= u64::MAX);
        let j = b / 10;
        assert(j >= 1);
        let span = 2 * j + 1;
        assert(0 <= (seed as int) % span < span);
    }
}

/// A gap in the sampled history is a sample of zeros at its time.
pub proof fn law_empty_sample(ts: u64)
    ensures
        empty_point(ts) == (TrendPoint { timestamp: ts, torrents: 0, peers: 0, seeders: 0, leechers: 0 }),
{
}

/// A peer's compact form is its address bytes, then its port in two bytes,
/// high byte first.
pub proof fn law_compact_endpoints(k4: Ipv4PeerKey, k6: Ipv6PeerKey)
    ensures
        v4_bytes(k4) == k4.ip@ + seq![(k4.port / 256) as u8, (k4.port % 256) as u8],
        v6_bytes(k6) == k6.ip@ + seq![(k6.port / 256) as u8, (k6.port % 256) as u8],
{
    let p4 = k4.port;
    let p6 = k6.port;
    assert((p4 >> 8u16) as u8 == (p4 / 256) as u8 && p4 as u8 == (p4 % 256) as u8) by (bit_vector);
    assert((p6 >> 8u16) as u8 == (p6 / 256) as u8 && p6 as u8 == (p6 % 256) as u8) by (bit_vector);
    assert(v4_bytes(k4) =~= k4.ip@ + seq![(k4.port / 256) as u8, (k4.port % 256) as u8]);
    assert(v6_bytes(k6) =~= k6.ip@ + seq![(k6.port / 256) as u8, (k6.port % 256) as u8]);
}

/// The rankings order torrents by peers (seeders and leechers together),
/// by seeders, by leechers and by completions; a torrent's entry holds its
/// seeders, leechers and completions.
pub proof fn law_ranking_keys(e: TopEntry, h: InfoHash, w: Swarm)
    ensures
        e.1 + e.2 <= u64::MAX ==> ranked_entry(0, e).0 == e.1 + e.2,
        ranked_entry(1, e).0 == e.1,
        ranked_entry(2, e).0 == e.2,
        ranked_entry(3, e).0 == e.3,
        sort_value(e, 0) == e.1 + e.2,
        sort_value(e, 1) == e.1,
        sort_value(e, 2) == e.2,
        sort_value(e, 3) == e.3,
        swarm_entry(h, w) == (h, stats_of(w).complete, stats_of(w).incomplete, stats_of(w).downloaded as u64),
{
}

} // verus!
