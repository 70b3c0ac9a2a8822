# rustracker

A BitTorrent tracker whose core is written in Verus and proved against its
contracts.

## Layout

- `src/` — the verified library.
  - `types.rs`: info hashes, peer ids, endpoints, peer states, hex text.
  - `packed.rs`: byte-packed peer stores (12-byte IPv4, 24-byte IPv6
    entries), kept in insertion order while small and sorted by key once
    large; the seeded random pick of peers handed to clients.
  - `swarm.rs`: the peers of one torrent, seeder counts and completions, the
    split of answers between the address families.
  - `tracker.rs`: swarms by info hash, announce, scrape, expiry sweeps,
    per-client peer counts and running totals.
  - `census.rs`: how many stored peers carry each client tag.
  - `counters.rs`: the running totals and how announces and expiry move them.
  - `topk.rs`: the dashboard rankings (by peers, seeders, leechers,
    completions) and their merge across shards.
  - `query.rs`, `announce.rs`, `bencode.rs`: query-string parsing, bencoded
    answers.
  - `client_id.rs`: client identification from peer ids.
  - `blacklist.rs`, `pool.rs`, `trends.rs`, `web.rs`: blacklist files and
    admin tokens, combining shard snapshots, trend sampling, small web
    decisions.
  - `laws.rs`: properties relating several operations.
- `app/` — the server around the library: command line, axum routes, the
  sharded tracker behind locks, background tasks, files and JSON.
- `tests/` — tests of the library.
