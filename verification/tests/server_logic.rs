use rustracker::packed::{pow2_at_least, shrink_target, PackedIpv4Peers, Rng};
use rustracker::announce::{compact_peers, compact_peers6};
use rustracker::blacklist::{admin_request, filter_allowed, is_authorized, parse_blacklist, AdminRefusal};
use rustracker::pool::combine_snapshots;
use rustracker::topk::{dim_key, drain_heap_by, top_torrents_all, try_heap_insert, Top100All, TopKMerger};
use rustracker::tracker::{AnnounceInput, Tracker, TrackerSnapshot, TrackerTotals};
use rustracker::trends::{filled_points, recent_client_points, recent_points, TrendPoint, TrendStore};
use rustracker::types::{AnnounceEvent, InfoHash, Ipv4PeerKey, PeerContact, PeerId, PeerIp, PeerState};

fn h(b: u8) -> InfoHash {
    InfoHash([b; 20])
}

#[test]
fn encodes_compact_ipv4_peers() {
    let peers = [PeerContact { ip: PeerIp::V4([127, 0, 0, 1]), port: 6881 }];
    assert_eq!(compact_peers(&peers), vec![127, 0, 0, 1, 0x1a, 0xe1]);
}

#[test]
fn encodes_compact_ipv6_peers() {
    let mut ip = [0u8; 16];
    ip[15] = 1;
    let peers = [
        PeerContact { ip: PeerIp::V6(ip), port: 6881 },
        PeerContact { ip: PeerIp::V4([1, 2, 3, 4]), port: 1 },
    ];
    let mut expected = ip.to_vec();
    expected.extend_from_slice(&6881_u16.to_be_bytes());
    assert_eq!(compact_peers6(&peers), expected);
    assert_eq!(compact_peers(&peers), vec![1, 2, 3, 4, 0, 1]);
}

#[test]
fn blacklist_file_parsing() {
    let text = b"# comment\n\n  AAAAAAAAAAAAAAAAAAAAAAAAAAAAAAAAAAAAAAAA  \r\nnot-a-hash\nbbbbbbbbbbbbbbbbbbbbbbbbbbbbbbbbbbbbbbbb\naaaaaaaaaaaaaaaaaaaaaaaaaaaaaaaaaaaaaaaa";
    let hashes = parse_blacklist(text);
    assert_eq!(hashes, vec![h(0xaa), h(0xbb)]);
    assert!(parse_blacklist(b"").is_empty());
    assert!(parse_blacklist(b"#aaaaaaaaaaaaaaaaaaaaaaaaaaaaaaaaaaaaaaaa").is_empty());
}

#[test]
fn blacklist_filters_requested_hashes() {
    let list = [h(1), h(3)];
    assert_eq!(filter_allowed(&list, &[h(1), h(2), h(3), h(2)]), vec![h(2), h(2)]);
}

#[test]
fn admin_token_check() {
    assert!(is_authorized(Some(b"Bearer secret"), b"secret"));
    assert!(!is_authorized(Some(b"Bearer other"), b"secret"));
    assert!(!is_authorized(Some(&b"secret"[..]), b"secret"));
    assert!(!is_authorized(None, b"secret"));
}

fn snapshot(interval: u64, peers: usize, clients: Vec<(u8, u64)>) -> TrackerSnapshot {
    TrackerSnapshot {
        interval,
        peer_timeout: 60,
        totals: TrackerTotals { torrents: 1, peers, seeders: 1, leechers: peers - 1, downloaded: 2 },
        clients,
    }
}

#[test]
fn combines_shard_snapshots() {
    let combined = combine_snapshots(&vec![snapshot(1800, 3, vec![(1, 2), (2, 1)]), snapshot(900, 2, vec![(2, 4)])]);
    assert_eq!(combined.interval, 1800);
    assert_eq!(combined.totals, TrackerTotals { torrents: 2, peers: 5, seeders: 2, leechers: 3, downloaded: 4 });
    let mut clients = combined.clients.clone();
    clients.sort();
    assert_eq!(clients, vec![(1, 2), (2, 5)]);
    let empty = combine_snapshots(&Vec::new());
    assert_eq!(empty.interval, 0);
    assert_eq!(empty.totals, TrackerTotals::default());
}

#[test]
fn heap_keeps_the_largest() {
    let mut heap = Vec::new();
    let mut min = 0u64;
    for (k, b) in [(5u64, 1u8), (1, 2), (7, 3), (3, 4)] {
        try_heap_insert(&mut heap, &mut min, 2, k, h(b), k as usize, 0, 0);
    }
    assert_eq!(min, 5);
    let drained = drain_heap_by(heap, 1);
    assert_eq!(drained, vec![(h(3), 7, 0, 0), (h(1), 5, 0, 0)]);
    assert_eq!(dim_key(0, 2, 3, 9), 5);
    assert_eq!(dim_key(3, 2, 3, 9), 9);
}

fn input(hash: u8, peer: u8, left: u64) -> AnnounceInput {
    AnnounceInput {
        info_hash: h(hash),
        peer_id: PeerId([peer; 20]),
        ip: PeerIp::V4([10, 0, 0, peer]),
        port: 1000,
        uploaded: 0,
        downloaded: 0,
        left,
        event: AnnounceEvent::Started,
        numwant: 10,
        client_tag: 0,
    }
}

#[test]
fn top_torrents_ranked() {
    let mut tracker = Tracker::new(1800, 3600);
    for p in 0..3 {
        tracker.announce(input(1, p, 0), 0);
    }
    for p in 0..2 {
        tracker.announce(input(2, p, 5), 0);
    }
    tracker.announce(input(3, 9, 5), 0);
    let top = tracker.top_torrents_all(2);
    assert_eq!(top.peers.len(), 2);
    assert_eq!(top.peers[0].0, h(1));
    assert_eq!(top.peers[1].0, h(2));
    assert_eq!(top.seeders[0], (h(1), 3, 0, 0));
    assert_eq!(top.leechers[0], (h(2), 0, 2, 0));
    let none = top_torrents_all(&tracker.swarms, 0);
    assert!(none.peers.is_empty());

    let mut merger = TopKMerger::new(2);
    merger.insert(&top);
    merger.insert(&Top100All { peers: vec![(h(9), 10, 10, 0)], seeders: vec![], leechers: vec![], downloaded: vec![] });
    let merged = merger.finish();
    assert_eq!(merged.peers[0].0, h(9));
    assert_eq!(merged.peers[1].0, h(1));
}

#[test]
fn trend_points_are_filled() {
    let points = vec![
        TrendPoint { timestamp: 600, torrents: 1, peers: 2, seeders: 1, leechers: 1 },
        TrendPoint { timestamp: 1800, torrents: 3, peers: 4, seeders: 2, leechers: 2 },
    ];
    let filled = filled_points(&points, 0, 1800);
    assert_eq!(filled.len(), 4);
    assert_eq!(filled[0].timestamp, 0);
    assert_eq!(filled[0].peers, 0);
    assert_eq!(filled[1], points[0]);
    assert_eq!(filled[2].timestamp, 1200);
    assert_eq!(filled[3], points[1]);
}

#[test]
fn trend_store_records_once_per_period() {
    let mut store = TrendStore::new();
    let snap = TrackerSnapshot { interval: 1, peer_timeout: 1, totals: TrackerTotals { torrents: 1, peers: 5, seeders: 2, leechers: 3, downloaded: 0 }, clients: vec![] };
    let first = store.record(700_000, &snap);
    assert_eq!(first.last().unwrap().peers, 5);
    assert_eq!(first.last().unwrap().timestamp, 699_600);
    let mut later = snap.clone_shallow();
    later.totals.peers = 9;
    let again = store.record(700_100, &later);
    assert_eq!(again.last().unwrap().peers, 5);
    let next = store.record(700_300, &later);
    assert_eq!(next.last().unwrap().peers, 9);
    assert_eq!(next.len(), 1009);
}

trait ShallowClone {
    fn clone_shallow(&self) -> Self;
}

impl ShallowClone for TrackerSnapshot {
    fn clone_shallow(&self) -> Self {
        TrackerSnapshot { interval: self.interval, peer_timeout: self.peer_timeout, totals: self.totals, clients: self.clients.clone() }
    }
}

#[test]
fn client_trends_follow_the_busiest_clients() {
    let mut store = TrendStore::new();
    let data = store.record_clients(1_200, &[(1, 5), (2, 9), (3, 1)]);
    assert_eq!(data.top_tags, vec![2, 1, 3]);
    let last = data.history.last().unwrap();
    assert_eq!(last.timestamp, 1_200);
    assert_eq!(last.counts, vec![9, 5, 1]);
    assert_eq!(data.history.len(), 3);
    let loaded = TrendStore::from_loaded(Vec::new(), vec![(600, vec![(4, 2)])]);
    assert_eq!(loaded.client_cache.top_tags, vec![4]);
    assert!(!loaded.client_cache_dirty);
}

#[test]
fn shrink_target_rounds_entries_up_to_a_power_of_two() {
    assert_eq!(pow2_at_least(0), 1);
    assert_eq!(pow2_at_least(1), 1);
    assert_eq!(pow2_at_least(5), 8);
    assert_eq!(pow2_at_least(16), 16);
    assert_eq!(pow2_at_least(17), 32);
    // Five entries of 12 bytes in room for 100: eight entries are kept.
    assert_eq!(shrink_target(60, 1200, 12), Some(96));
    // Few entries still keep room for four.
    assert_eq!(shrink_target(12, 600, 12), Some(48));
    // No more than four entries of spare room: nothing to do.
    assert_eq!(shrink_target(12, 48, 12), None);
    // The target is not below the capacity: nothing to do.
    assert_eq!(shrink_target(96, 96, 12), None);
}

#[test]
fn shrinking_an_idle_store_keeps_its_peers() {
    let mut store = PackedIpv4Peers::new();
    for i in 0..40u8 {
        let state = PeerState { complete: false, last_seen_secs: i as u32, client_tag: 1 };
        store.insert(Ipv4PeerKey::new([10, 0, 0, i], 6881), state);
    }
    let removed = store.retain_fresh(100, 70);
    assert_eq!(removed.len(), 30);
    store.shrink_if_idle();
    assert_eq!(store.len(), 10);
    let mut out = Vec::new();
    store.append_compact(None, &mut out);
    assert_eq!(out.len(), 60);
}

#[test]
fn top_rankings_keep_the_largest_swarms() {
    let mut tracker = Tracker::new(1800, 3600);
    for t in 1..=5u8 {
        for p in 0..t {
            let input = AnnounceInput {
                info_hash: h(t),
                peer_id: PeerId([p; 20]),
                ip: PeerIp::V4([10, 0, t, p]),
                port: 6881,
                uploaded: 0,
                downloaded: 0,
                left: if p == 0 { 0 } else { 5 },
                event: AnnounceEvent::Started,
                numwant: 10,
                client_tag: 0,
            };
            tracker.announce(input, 1_000);
        }
    }
    let top = tracker.top_torrents_all(2);
    let peers: Vec<(InfoHash, usize)> = top.peers.iter().map(|e| (e.0, e.1 + e.2)).collect();
    assert_eq!(peers, vec![(h(5), 5), (h(4), 4)]);
    assert_eq!(top.leechers.iter().map(|e| e.2).collect::<Vec<_>>(), vec![4, 3]);
    assert_eq!(top.seeders.len(), 2);
}

fn tracker_with(sizes: &[(u8, u8)]) -> Tracker {
    let mut tracker = Tracker::new(1800, 3600);
    for &(t, n) in sizes {
        for p in 0..n {
            let input = AnnounceInput {
                info_hash: h(t),
                peer_id: PeerId([p; 20]),
                ip: PeerIp::V4([10, t, 0, p]),
                port: 6881,
                uploaded: 0,
                downloaded: 0,
                left: 5,
                event: AnnounceEvent::Started,
                numwant: 10,
                client_tag: 0,
            };
            tracker.announce(input, 1_000);
        }
    }
    tracker
}

#[test]
fn merged_rankings_keep_the_largest_torrents_of_all_trackers() {
    let a = tracker_with(&[(1, 7), (2, 1), (3, 2)]);
    let b = tracker_with(&[(4, 5), (5, 6), (6, 3)]);
    let mut merger = TopKMerger::new(3);
    merger.insert(&a.top_torrents_all(3));
    merger.insert(&b.top_torrents_all(3));
    let merged = merger.finish();
    let peers: Vec<(InfoHash, usize)> = merged.peers.iter().map(|e| (e.0, e.1 + e.2)).collect();
    assert_eq!(peers, vec![(h(1), 7), (h(5), 6), (h(4), 5)]);
}

#[test]
fn hex_text_reads_back_as_the_hash() {
    let hash = InfoHash([0x00, 0x01, 0x7f, 0x80, 0xff, 0x10, 0xab, 0xcd, 0xef, 0x12, 0x34, 0x56, 0x78, 0x9a, 0xbc, 0xde, 0xf0, 0x0f, 0x55, 0xaa]);
    let text = String::from_utf8(hash.to_hex()).unwrap();
    assert_eq!(text, "00017f80ff10abcdef123456789abcdef00f55aa");
    assert_eq!(InfoHash::from_hex(&text), Some(hash));
}

#[test]
fn blacklist_lines_are_trimmed_of_unicode_whitespace() {
    // A hash between a no-break space (U+00A0) and an ideographic space (U+3000).
    let mut text = "\u{a0}".as_bytes().to_vec();
    text.extend_from_slice(b"cccccccccccccccccccccccccccccccccccccccc");
    text.extend_from_slice("\u{3000}\u{2003}\t".as_bytes());
    text.extend_from_slice(b"\n");
    text.extend_from_slice("\u{85}dddddddddddddddddddddddddddddddddddddddd\u{a0}".as_bytes());
    assert_eq!(parse_blacklist(&text), vec![h(0xcc), h(0xdd)]);
    // A character that is not whitespace (U+00A1) spoils the line.
    assert!(parse_blacklist("cccccccccccccccccccccccccccccccccccccccc\u{a1}".as_bytes()).is_empty());
}

#[test]
fn client_history_holds_each_recorded_distribution() {
    let mut store = TrendStore::new();
    store.record_clients(600, &[(1, 5), (2, 9)]);
    store.record_clients(1_800, &[(1, 7), (2, 3)]);
    let data = store.record_clients(2_400, &[(2, 4), (1, 1)]);
    assert_eq!(data.top_tags, vec![2, 1]);
    assert_eq!(data.history.len(), 5);
    let counts: Vec<Vec<u32>> = data.history.iter().map(|p| p.counts.clone()).collect();
    assert_eq!(counts, vec![vec![0, 0], vec![9, 5], vec![0, 0], vec![3, 7], vec![4, 1]]);
}

#[test]
fn sampling_works_up_to_the_largest_time() {
    let mut store = TrendStore::new();
    let snap = TrackerSnapshot { interval: 1, peer_timeout: 1, totals: TrackerTotals { torrents: 1, peers: 5, seeders: 2, leechers: 3, downloaded: 0 }, clients: vec![] };
    let history = store.record(u64::MAX, &snap);
    let bucket = u64::MAX - u64::MAX % 600;
    assert_eq!(history.last().unwrap().timestamp, bucket);
    assert_eq!(history.last().unwrap().peers, 5);
    assert_eq!(history.len(), 1009);
    let data = store.record_clients(u64::MAX, &[(3, 2)]);
    assert_eq!(data.history.last().unwrap().timestamp, bucket);
    assert_eq!(data.history.last().unwrap().counts, vec![2]);
}

#[test]
fn a_random_pick_follows_its_seed() {
    let mut store = PackedIpv4Peers::new();
    for i in 0..10u8 {
        let state = PeerState { complete: false, last_seen_secs: 1, client_tag: 1 };
        store.insert(Ipv4PeerKey::new([10, 0, 0, i], 6881), state);
    }
    let compact = |i: u8| vec![10, 0, 0, i, 0x1a, 0xe1];
    let mut rng = Rng::new(7);
    let mut out = Vec::new();
    store.select_random_compact(3, &mut rng, None, &mut out);
    assert_eq!(out, [compact(8), compact(9), compact(1)].concat());
    assert_eq!(rng.0, 8698583309276795107);
    // The same seed gives the same pick; another seed another one.
    let mut again = Vec::new();
    store.select_random_compact(3, &mut Rng::new(7), None, &mut again);
    assert_eq!(again, out);
    let mut other = Vec::new();
    store.select_random_compact(3, &mut Rng::new(42), None, &mut other);
    assert_eq!(other, [compact(7), compact(0), compact(1)].concat());
    // An excluded key that is drawn is left out.
    let mut without = Vec::new();
    store.select_random_compact(3, &mut Rng::new(7), Some(Ipv4PeerKey::new([10, 0, 0, 9], 6881)), &mut without);
    assert_eq!(without, [compact(8), compact(1)].concat());
}

#[test]
fn admin_requests_check_token_then_file_then_hash() {
    let hex = "  ABABABABABABABABABABABABABABABABABABABAB\u{a0}";
    let bearer: &[u8] = b"Bearer secret";
    assert_eq!(admin_request(None, Some(bearer), false, true, hex.as_bytes()), Err(AdminRefusal::NotConfigured));
    assert_eq!(admin_request(Some(&b""[..]), Some(bearer), false, true, hex.as_bytes()), Err(AdminRefusal::NotConfigured));
    assert_eq!(admin_request(Some(&b"secret"[..]), None, false, true, b"x"), Err(AdminRefusal::Unauthorized));
    assert_eq!(admin_request(Some(&b"secret"[..]), Some(bearer), true, false, b"x"), Err(AdminRefusal::NoBlacklistFile));
    assert_eq!(admin_request(Some(&b"secret"[..]), Some(bearer), false, false, b"x"), Err(AdminRefusal::BadInfoHash));
    assert_eq!(admin_request(Some(&b"secret"[..]), Some(bearer), true, true, hex.as_bytes()), Ok(h(0xab)));
}

#[test]
fn loaded_samples_keep_the_last_seven_days() {
    let now = 1_000_000;
    let points = vec![
        TrendPoint { timestamp: 300_000, torrents: 1, peers: 1, seeders: 0, leechers: 1 },
        TrendPoint { timestamp: 395_200, torrents: 2, peers: 2, seeders: 0, leechers: 2 },
        TrendPoint { timestamp: 900_000, torrents: 3, peers: 3, seeders: 0, leechers: 3 },
    ];
    let kept = recent_points(points, now);
    assert_eq!(kept.iter().map(|p| p.torrents).collect::<Vec<_>>(), vec![2, 3]);
    let clients = vec![(395_199, vec![(1, 1)]), (395_200, vec![(2, 2)])];
    assert_eq!(recent_client_points(clients, now), vec![(395_200, vec![(2, 2)])]);
    // Near the start of time nothing is too old.
    assert_eq!(recent_points(vec![TrendPoint { timestamp: 0, torrents: 0, peers: 0, seeders: 0, leechers: 0 }], 5).len(), 1);
}

#[test]
fn recorded_client_names_follow_the_top_tags() {
    let mut store = TrendStore::new();
    let data = store.record_clients(1_200, &[(1, 5), (2, 9)]);
    assert_eq!(data.top_tags, vec![2, 1]);
    assert_eq!(data.top_clients.len(), 2);
    assert_eq!(data.top_clients[0], rustracker::client_id::client_name(2));
    assert_eq!(data.top_clients[1], rustracker::client_id::client_name(1));
}

#[test]
fn unsorted_stores_keep_insertion_order_and_count_seeders() {
    let mut store = PackedIpv4Peers::new();
    for i in [5u8, 1, 3] {
        store.insert(Ipv4PeerKey::new([10, 0, 0, i], 6881), PeerState { complete: i == 3, last_seen_secs: 1, client_tag: 0 });
    }
    let mut out = Vec::new();
    store.append_compact(None, &mut out);
    assert_eq!(out, [vec![10, 0, 0, 5, 0x1a, 0xe1], vec![10, 0, 0, 1, 0x1a, 0xe1], vec![10, 0, 0, 3, 0x1a, 0xe1]].concat());
    assert_eq!(store.seeder_total(), 1);
    // Removing from an unsorted store moves the last entry into the gap.
    store.remove(&Ipv4PeerKey::new([10, 0, 0, 5], 6881));
    let mut out = Vec::new();
    store.append_compact(None, &mut out);
    assert_eq!(out, [vec![10, 0, 0, 3, 0x1a, 0xe1], vec![10, 0, 0, 1, 0x1a, 0xe1]].concat());
}
