//! Tracker-level running totals, updated from the deltas that swarm
//! mutations report, so that a snapshot needs no traversal.
use vstd::prelude::*;

verus! {

/// Running totals over all swarms of a tracker.
#[derive(Debug, Clone, Copy, PartialEq, Eq, Structural)]
pub struct TrackerCounters {
    pub torrents: usize,
    pub peers: usize,
    pub seeders: usize,
    pub downloaded: u64,
}

/// What an insert-or-update of one peer changed.
#[derive(Debug, Clone, Copy, PartialEq, Eq, Structural)]
pub struct PeerUpsert {
    /// The peer did not exist before.
    pub is_new_peer: bool,
    /// The previous state of the peer (if any) was a seeder.
    pub was_complete: bool,
    /// The new state of the peer is a seeder.
    pub now_complete: bool,
    /// Client tag of the previous state, if the peer existed.
    pub old_tag: Option<u8>,
}

/// What the removal of one peer changed.
#[derive(Debug, Clone, Copy, PartialEq, Eq, Structural)]
pub struct PeerRemoval {
    /// Client tag of the removed peer.
    pub tag: u8,
    /// The removed peer was a seeder.
    pub was_complete: bool,
}

/// What an expiry sweep over one swarm removed.
#[derive(Debug, PartialEq, Eq)]
pub struct ExpireResult {
    /// Client tags of the expired peers, in the order they were removed.
    pub tags: Vec<u8>,
    /// Number of expired peers.
    pub removed_peers: usize,
    /// Number of expired peers that were seeders.
    pub removed_complete: usize,
}

/// `a - b`, or zero when `b` exceeds `a`.
pub open spec fn sat_sub(a: int, b: int) -> int {
    if a >= b {
        a - b
    } else {
        0
    }
}

impl Default for TrackerCounters {
    fn default() -> (r: Self)
        ensures
            r == (TrackerCounters { torrents: 0, peers: 0, seeders: 0, downloaded: 0 }),
    {
        TrackerCounters { torrents: 0, peers: 0, seeders: 0, downloaded: 0 }
    }
}

impl TrackerCounters {
    /// Applies the delta of a peer insert or update.
    pub fn apply_upsert(&mut self, upsert: &PeerUpsert)
        requires
            upsert.is_new_peer ==> old(self).peers < usize::MAX,
            upsert.now_complete && !upsert.was_complete ==> old(self).seeders < usize::MAX,
        ensures
            final(self).torrents == old(self).torrents,
            final(self).downloaded == old(self).downloaded,
            final(self).peers == old(self).peers + if upsert.is_new_peer { 1int } else { 0 },
            final(self).seeders == if upsert.now_complete && !upsert.was_complete {
                old(self).seeders + 1
            } else if !upsert.now_complete && upsert.was_complete {
                sat_sub(old(self).seeders as int, 1)
            } else {
                old(self).seeders as int
            },
    {
        if upsert.is_new_peer {
            self.peers = self.peers + 1;
        }
        if upsert.now_complete && !upsert.was_complete {
            self.seeders = self.seeders + 1;
        } else if !upsert.now_complete && upsert.was_complete {
            self.seeders = self.seeders.saturating_sub(1);
        }
    }

    /// Applies the delta of a peer removal.
    pub fn apply_removal(&mut self, removal: &PeerRemoval)
        ensures
            final(self).torrents == old(self).torrents,
            final(self).downloaded == old(self).downloaded,
            final(self).peers == sat_sub(old(self).peers as int, 1),
            final(self).seeders == if removal.was_complete {
                sat_sub(old(self).seeders as int, 1)
            } else {
                old(self).seeders as int
            },
    {
        self.peers = self.peers.saturating_sub(1);
        if removal.was_complete {
            self.seeders = self.seeders.saturating_sub(1);
        }
    }

    /// Applies the delta of an expiry sweep that also dropped
    /// `removed_swarms` emptied swarms holding `removed_downloaded` completions.
    pub fn apply_expire(&mut self, result: &ExpireResult, removed_swarms: usize, removed_downloaded: u64)
        ensures
            final(self).peers == sat_sub(old(self).peers as int, result.removed_peers as int),
            final(self).seeders == sat_sub(old(self).seeders as int, result.removed_complete as int),
            final(self).torrents == sat_sub(old(self).torrents as int, removed_swarms as int),
            final(self).downloaded == sat_sub(old(self).downloaded as int, removed_downloaded as int),
    {
        self.peers = self.peers.saturating_sub(result.removed_peers);
        self.seeders = self.seeders.saturating_sub(result.removed_complete);
        self.torrents = self.torrents.saturating_sub(removed_swarms);
        self.downloaded = self.downloaded.saturating_sub(removed_downloaded);
    }

    /// Records a newly created swarm.
    pub fn add_torrent(&mut self)
        requires
            old(self).torrents < usize::MAX,
        ensures
            *final(self) == (TrackerCounters { torrents: (old(self).torrents + 1) as usize, ..*old(self) }),
    {
        self.torrents = self.torrents + 1;
    }

    /// Records a new completion.
    pub fn add_downloaded(&mut self)
        requires
            old(self).downloaded < u64::MAX,
        ensures
            *final(self) == (TrackerCounters { downloaded: (old(self).downloaded + 1) as u64, ..*old(self) }),
    {
        self.downloaded = self.downloaded + 1;
    }

    /// Whether the counters equal the given totals of a full traversal.
    pub fn verify(&self, torrents: usize, peers: usize, seeders: usize, downloaded: u64) -> (r: bool)
        ensures
            r == (self.torrents == torrents && self.peers == peers && self.seeders == seeders
                && self.downloaded == downloaded),
    {
        self.torrents == torrents && self.peers == peers && self.seeders == seeders && self.downloaded
            == downloaded
    }
}

} // verus!
