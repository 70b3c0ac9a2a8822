use rustracker::swarm::allocate_v4_v6;
use rustracker::tracker::{jitter_seed, jittered_interval_secs, saturating_u32_secs, AnnounceInput, Tracker};
use rustracker::types::{AnnounceEvent, InfoHash, PeerId, PeerIp};

const START_MS: u64 = 5_000_000;

fn hash(byte: u8) -> InfoHash {
    InfoHash([byte; 20])
}

fn peer(byte: u8) -> PeerId {
    PeerId([byte; 20])
}

fn announce(peer_id: PeerId, left: u64, event: AnnounceEvent) -> AnnounceInput {
    AnnounceInput {
        info_hash: hash(1),
        peer_id,
        ip: PeerIp::V4([127, 0, 0, peer_id.0[0]]),
        port: 6881,
        uploaded: 0,
        downloaded: 0,
        left,
        event,
        numwant: 50,
        client_tag: 0,
    }
}

fn tracker(peer_timeout_secs: u64) -> Tracker {
    Tracker::with_started_at(1800, peer_timeout_secs, START_MS)
}

#[test]
fn tracker_tracks_complete_and_incomplete_peers() {
    let mut tracker = tracker(3600);
    let first = tracker.announce(announce(peer(1), 10, AnnounceEvent::Started), START_MS);
    assert_eq!(first.complete, 0);
    assert_eq!(first.incomplete, 1);
    let second = tracker.announce(announce(peer(2), 0, AnnounceEvent::Started), START_MS);
    assert_eq!(second.complete, 1);
    assert_eq!(second.incomplete, 1);
}

#[test]
fn tracker_removes_stopped_peer() {
    let mut tracker = tracker(3600);
    tracker.announce(announce(peer(1), 10, AnnounceEvent::Started), START_MS);
    let output = tracker.announce(announce(peer(1), 10, AnnounceEvent::Stopped), START_MS);
    assert_eq!(output.complete, 0);
    assert_eq!(output.incomplete, 0);
}

#[test]
fn tracker_updates_counters_when_peer_changes_completion_state() {
    let mut tracker = tracker(3600);
    tracker.announce(announce(peer(1), 10, AnnounceEvent::Started), START_MS);
    let output = tracker.announce(announce(peer(1), 0, AnnounceEvent::Completed), START_MS);
    assert_eq!(output.complete, 1);
    assert_eq!(output.incomplete, 0);
}

#[test]
fn tracker_expires_old_peers() {
    let mut tracker = tracker(1);
    tracker.announce(announce(peer(1), 10, AnnounceEvent::Started), START_MS);
    tracker.expire_due(START_MS + 2_000);
    let stats = tracker.scrape(&[hash(1)]);
    assert_eq!(stats[0].0, hash(1));
    assert_eq!(stats[0].1.complete, 0);
    assert_eq!(stats[0].1.incomplete, 0);
}

#[test]
fn tracker_creates_dashboard_snapshot() {
    let mut tracker = tracker(3600);
    tracker.announce(announce(peer(1), 0, AnnounceEvent::Started), START_MS);
    tracker.announce(announce(peer(2), 10, AnnounceEvent::Started), START_MS);
    let snapshot = tracker.snapshot();
    assert_eq!(snapshot.totals.torrents, 1);
    assert_eq!(snapshot.totals.peers, 2);
    assert_eq!(snapshot.totals.seeders, 1);
    assert_eq!(snapshot.totals.leechers, 1);
}

#[test]
fn tracker_jitters_announce_interval_within_bounds() {
    let mut tracker = tracker(3600);
    let output = tracker.announce(announce(peer(1), 10, AnnounceEvent::Started), START_MS);
    assert!((1620..=1980).contains(&output.interval));
}

#[test]
fn tracker_jitters_announce_interval_between_peers() {
    let mut tracker = tracker(3600);
    let first = tracker.announce(announce(peer(1), 10, AnnounceEvent::Started), START_MS);
    let second = tracker.announce(announce(peer(2), 10, AnnounceEvent::Started), START_MS);
    assert_ne!(first.interval, second.interval);
}

#[test]
fn tracker_handles_large_swarms_after_peer_store_upgrade() {
    let mut tracker = tracker(3600);
    for peer_number in 0..60 {
        tracker.announce(announce(peer(peer_number), 10, AnnounceEvent::Started), START_MS);
    }
    let completed = tracker.announce(announce(peer(59), 0, AnnounceEvent::Completed), START_MS);
    assert_eq!(completed.complete, 1);
    assert_eq!(completed.incomplete, 59);
    let stopped = tracker.announce(announce(peer(59), 0, AnnounceEvent::Stopped), START_MS);
    assert_eq!(stopped.complete, 0);
    assert_eq!(stopped.incomplete, 59);
}

#[test]
fn tracker_rotates_selected_peers_between_time_windows() {
    let mut tracker = tracker(3600);
    for peer_number in 1..=8 {
        tracker.announce(announce(peer(peer_number), 10, AnnounceEvent::Started), START_MS);
    }
    let mut request = announce(peer(9), 10, AnnounceEvent::Started);
    request.numwant = 3;
    tracker.announce(request, START_MS);
    let first = tracker.announce(request, START_MS + 1_000);
    let second = tracker.announce(request, START_MS + 60_000);
    let num_v4_peers = first.peers.0.len() / 6 + first.peers.1.len() / 18;
    assert_eq!(num_v4_peers, 3);
    let num_v4_peers = second.peers.0.len() / 6 + second.peers.1.len() / 18;
    assert_eq!(num_v4_peers, 3);
    assert_ne!(first.peers, second.peers);
    let self_bytes = [127, 0, 0, 9, 0x1a, 0xe1];
    assert!(!first.peers.0.windows(6).any(|w| w == self_bytes));
    assert!(!first.peers.1.windows(18).any(|w| w[..6] == self_bytes));
    assert!(!second.peers.0.windows(6).any(|w| w == self_bytes));
    assert!(!second.peers.1.windows(18).any(|w| w[..6] == self_bytes));
}

#[test]
fn small_swarm_returns_everyone_but_the_requester() {
    let mut tracker = tracker(3600);
    for peer_number in 1..=4 {
        tracker.announce(announce(peer(peer_number), 10, AnnounceEvent::Started), START_MS);
    }
    let out = tracker.announce(announce(peer(2), 10, AnnounceEvent::Started), START_MS);
    assert_eq!(out.peers.0, vec![127, 0, 0, 1, 0x1a, 0xe1, 127, 0, 0, 3, 0x1a, 0xe1, 127, 0, 0, 4, 0x1a, 0xe1]);
    assert!(out.peers.1.is_empty());
}

#[test]
fn ipv6_peers_are_returned_in_peers6() {
    let mut tracker = tracker(3600);
    let mut v6 = announce(peer(1), 10, AnnounceEvent::Started);
    let mut ip = [0u8; 16];
    ip[15] = 1;
    v6.ip = PeerIp::V6(ip);
    tracker.announce(v6, START_MS);
    let out = tracker.announce(announce(peer(2), 10, AnnounceEvent::Started), START_MS);
    let mut expected = ip.to_vec();
    expected.extend_from_slice(&6881u16.to_be_bytes());
    assert_eq!(out.peers.1, expected);
    assert!(out.peers.0.is_empty());
}

#[test]
fn duplicate_started_does_not_double_count() {
    let mut tracker = tracker(3600);
    tracker.announce(announce(peer(1), 10, AnnounceEvent::Started), START_MS);
    let out = tracker.announce(announce(peer(1), 10, AnnounceEvent::Started), START_MS);
    assert_eq!(out.incomplete, 1);
    assert_eq!(tracker.snapshot().totals.peers, 1);
}

#[test]
fn completed_counts_download_once() {
    let mut tracker = tracker(3600);
    tracker.announce(announce(peer(1), 10, AnnounceEvent::Started), START_MS);
    let first = tracker.announce(announce(peer(1), 0, AnnounceEvent::Completed), START_MS);
    let again = tracker.announce(announce(peer(1), 0, AnnounceEvent::Completed), START_MS);
    assert_eq!(first.downloaded, 1);
    assert_eq!(again.downloaded, 1);
    assert_eq!(tracker.snapshot().totals.downloaded, 1);
}

#[test]
fn client_counts_follow_tags() {
    let mut tracker = tracker(3600);
    let mut a = announce(peer(1), 10, AnnounceEvent::Started);
    a.client_tag = 7;
    tracker.announce(a, START_MS);
    let mut b = announce(peer(2), 10, AnnounceEvent::Started);
    b.client_tag = 7;
    tracker.announce(b, START_MS);
    assert_eq!(tracker.client_distribution(), &[(7, 2)]);
    a.client_tag = 9;
    tracker.announce(a, START_MS);
    assert_eq!(tracker.client_distribution(), &[(7, 1), (9, 1)]);
    b.event = AnnounceEvent::Stopped;
    tracker.announce(b, START_MS);
    assert_eq!(tracker.client_distribution(), &[(9, 1)]);
    assert_eq!(tracker.snapshot().clients, vec![(9, 1)]);
}

#[test]
fn expiry_drops_empty_swarms_and_keeps_fresh_ones() {
    let mut tracker = tracker(10);
    let mut other = announce(peer(2), 10, AnnounceEvent::Started);
    other.info_hash = hash(2);
    tracker.announce(announce(peer(1), 10, AnnounceEvent::Started), START_MS);
    tracker.announce(other, START_MS + 8_000);
    tracker.expire_due(START_MS + 15_000);
    let snapshot = tracker.snapshot();
    assert_eq!(snapshot.totals.torrents, 1);
    assert_eq!(snapshot.totals.peers, 1);
    let stats = tracker.scrape(&[hash(1), hash(2)]);
    assert_eq!(stats[0].1.incomplete, 0);
    assert_eq!(stats[1].1.incomplete, 1);
    assert!(tracker.verify_counters());
}

#[test]
fn expire_due_waits_for_the_sweep_time() {
    let mut tracker = tracker(1);
    tracker.announce(announce(peer(1), 10, AnnounceEvent::Started), START_MS);
    tracker.expire_due(START_MS);
    tracker.expire_due(START_MS + 500);
    assert_eq!(tracker.snapshot().totals.peers, 1);
    tracker.expire_due(START_MS + 5_000);
    assert_eq!(tracker.snapshot().totals.peers, 0);
}

#[test]
fn jitter_helpers() {
    assert_eq!(saturating_u32_secs(1_999), 1);
    assert_eq!(saturating_u32_secs(u64::MAX), u32::MAX);
    let seed = jitter_seed(hash(1), peer(1), 0);
    let mut expected: u64 = 0xcbf2_9ce4_8422_2325;
    for b in [1u8; 40] {
        expected ^= b as u64;
        expected = expected.wrapping_mul(0x0000_0100_0000_01b3);
    }
    assert_eq!(seed, expected);
    let interval = jittered_interval_secs(1800, hash(1), peer(1), 0);
    assert_eq!(interval, 1800 + seed % 361 - 180);
    assert_eq!(jittered_interval_secs(0, hash(1), peer(1), 0), std::cmp::max(seed % 3, 1));
}

#[test]
fn expiry_lowers_client_counts_by_the_expired_peers() {
    let mut tracker = tracker(10);
    let mut a = announce(peer(1), 10, AnnounceEvent::Started);
    a.client_tag = 7;
    let mut b = announce(peer(2), 10, AnnounceEvent::Started);
    b.client_tag = 7;
    let mut c = announce(peer(3), 10, AnnounceEvent::Started);
    c.client_tag = 9;
    tracker.announce(a, START_MS);
    tracker.announce(b, START_MS + 8_000);
    tracker.announce(c, START_MS);
    assert_eq!(tracker.client_distribution(), &[(7, 2), (9, 1)]);
    tracker.expire_due(START_MS + 15_000);
    assert_eq!(tracker.client_distribution(), &[(7, 1)]);
    assert_eq!(tracker.snapshot().totals.peers, 1);
}

#[test]
fn large_swarm_answers_exactly_numwant_peers() {
    let mut tracker = tracker(3600);
    for p in 1..=30u8 {
        tracker.announce(announce(peer(p), 10, AnnounceEvent::Started), START_MS);
    }
    let mut request = announce(peer(5), 10, AnnounceEvent::Started);
    request.numwant = 10;
    let output = tracker.announce(request, START_MS + 1_000);
    assert_eq!(output.peers.0.len(), 60);
    assert!(output.peers.1.is_empty());
    let own = [127, 0, 0, 5, 0x1a, 0xe1];
    assert!(!output.peers.0.chunks(6).any(|c| c == own));
}

#[test]
fn family_split_follows_quarters_shares_and_top_up() {
    assert_eq!(allocate_v4_v6(10, 10, 8), (4, 4));
    assert_eq!(allocate_v4_v6(100, 2, 8), (6, 2));
    assert_eq!(allocate_v4_v6(2, 100, 8), (2, 6));
    assert_eq!(allocate_v4_v6(5, 7, 10), (4, 6));
    assert_eq!(allocate_v4_v6(3, 0, 5), (3, 0));
}

#[test]
fn an_absent_requester_gets_at_most_numwant_peers() {
    let mut tracker = tracker(3600);
    tracker.announce(announce(peer(1), 10, AnnounceEvent::Started), START_MS);
    tracker.announce(announce(peer(2), 10, AnnounceEvent::Started), START_MS);
    let mut request = announce(peer(3), 10, AnnounceEvent::Stopped);
    request.numwant = 1;
    let output = tracker.announce(request, START_MS);
    assert_eq!(output.peers.0.len(), 6);
}

#[test]
fn a_repeated_completion_is_counted_once() {
    let mut tracker = tracker(3600);
    tracker.announce(announce(peer(1), 10, AnnounceEvent::Started), START_MS);
    let first = tracker.announce(announce(peer(1), 0, AnnounceEvent::Completed), START_MS);
    assert_eq!(first.downloaded, 1);
    let second = tracker.announce(announce(peer(1), 0, AnnounceEvent::Completed), START_MS);
    assert_eq!(second.downloaded, 1);
    assert_eq!(tracker.snapshot().totals.downloaded, 1);
    assert!(tracker.room_for_peers());
}

#[test]
fn the_same_request_in_the_same_second_gets_the_same_peers() {
    let mut tracker = tracker(3600);
    for k in 1..=8u8 {
        tracker.announce(announce(peer(k), 10, AnnounceEvent::Started), START_MS);
    }
    let mut request = announce(peer(9), 10, AnnounceEvent::Started);
    request.numwant = 3;
    let first = tracker.announce(request, START_MS + 1_000);
    let second = tracker.announce(request, START_MS + 1_000);
    assert_eq!(first.peers.0.len(), 18);
    assert_eq!(first.peers, second.peers);
}

#[test]
fn room_and_consistency_can_be_tested() {
    let mut tracker = tracker(3600);
    assert!(tracker.room_for_announce(&hash(1)));
    tracker.announce(announce(peer(1), 10, AnnounceEvent::Started), START_MS);
    tracker.announce(announce(peer(2), 0, AnnounceEvent::Completed), START_MS);
    assert!(tracker.room_for_announce(&hash(1)));
    assert!(tracker.is_consistent());
    tracker.counters.peers += 1;
    assert!(!tracker.is_consistent());
}
