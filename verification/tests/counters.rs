use rustracker::counters::{ExpireResult, PeerRemoval, PeerUpsert, TrackerCounters};

#[test]
fn upsert_new_seeder() {
    let mut c = TrackerCounters::default();
    c.apply_upsert(&PeerUpsert { is_new_peer: true, was_complete: false, now_complete: true, old_tag: None });
    assert_eq!(c.peers, 1);
    assert_eq!(c.seeders, 1);
}

#[test]
fn upsert_new_leecher() {
    let mut c = TrackerCounters::default();
    c.apply_upsert(&PeerUpsert { is_new_peer: true, was_complete: false, now_complete: false, old_tag: None });
    assert_eq!(c.peers, 1);
    assert_eq!(c.seeders, 0);
}

#[test]
fn upsert_leecher_to_seeder() {
    let mut c = TrackerCounters { torrents: 1, peers: 1, seeders: 0, downloaded: 0 };
    c.apply_upsert(&PeerUpsert { is_new_peer: false, was_complete: false, now_complete: true, old_tag: Some(1) });
    assert_eq!(c.peers, 1);
    assert_eq!(c.seeders, 1);
}

#[test]
fn upsert_seeder_to_leecher() {
    let mut c = TrackerCounters { torrents: 1, peers: 1, seeders: 1, downloaded: 0 };
    c.apply_upsert(&PeerUpsert { is_new_peer: false, was_complete: true, now_complete: false, old_tag: Some(1) });
    assert_eq!(c.peers, 1);
    assert_eq!(c.seeders, 0);
}

#[test]
fn removal_seeder() {
    let mut c = TrackerCounters { torrents: 1, peers: 2, seeders: 1, downloaded: 0 };
    c.apply_removal(&PeerRemoval { tag: 0, was_complete: true });
    assert_eq!(c.peers, 1);
    assert_eq!(c.seeders, 0);
}

#[test]
fn removal_leecher() {
    let mut c = TrackerCounters { torrents: 1, peers: 2, seeders: 1, downloaded: 0 };
    c.apply_removal(&PeerRemoval { tag: 0, was_complete: false });
    assert_eq!(c.peers, 1);
    assert_eq!(c.seeders, 1);
}

#[test]
fn expire_mixed() {
    let mut c = TrackerCounters { torrents: 3, peers: 10, seeders: 4, downloaded: 50 };
    c.apply_expire(&ExpireResult { tags: vec![], removed_peers: 3, removed_complete: 1 }, 1, 5);
    assert_eq!(c.torrents, 2);
    assert_eq!(c.peers, 7);
    assert_eq!(c.seeders, 3);
    assert_eq!(c.downloaded, 45);
}

#[test]
fn saturating_on_underflow() {
    let mut c = TrackerCounters { torrents: 0, peers: 0, seeders: 0, downloaded: 0 };
    c.apply_removal(&PeerRemoval { tag: 0, was_complete: true });
    assert_eq!(c.peers, 0);
    assert_eq!(c.seeders, 0);
}

#[test]
fn counters_add_torrent_and_download() {
    let mut c = TrackerCounters::default();
    c.add_torrent();
    c.add_downloaded();
    c.add_downloaded();
    assert_eq!(c.torrents, 1);
    assert_eq!(c.downloaded, 2);
    assert!(c.verify(1, 0, 0, 2));
    assert!(!c.verify(1, 1, 0, 2));
}

#[test]
fn counters_seeder_count_floor_on_demotion() {
    let mut c = TrackerCounters { torrents: 1, peers: 1, seeders: 0, downloaded: 0 };
    c.apply_upsert(&PeerUpsert { is_new_peer: false, was_complete: true, now_complete: false, old_tag: Some(2) });
    assert_eq!(c.seeders, 0);
    assert_eq!(c.peers, 1);
}

#[test]
fn counters_expire_saturates() {
    let mut c = TrackerCounters { torrents: 1, peers: 2, seeders: 1, downloaded: 3 };
    c.apply_expire(&ExpireResult { tags: vec![1, 2, 3], removed_peers: 5, removed_complete: 4 }, 2, 9);
    assert_eq!(c, TrackerCounters { torrents: 0, peers: 0, seeders: 0, downloaded: 0 });
}
