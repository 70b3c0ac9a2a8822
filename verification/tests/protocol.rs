use rustracker::announce::{
    announce_response, compact_peers, compact_peers6, ip_texts, parse_announce_query, parse_announce_query_checked, parse_scrape_query, peer_ip,
    scrape_response, ProtocolError,
};
use rustracker::tracker::AnnounceOutput;
use rustracker::types::{AnnounceEvent, InfoHash, PeerContact, PeerIp, TorrentStats};

#[test]
fn announce_parses_binary_announce_fields() {
    let query = "info_hash=%00%01%02%03%04%05%06%07%08%09%0A%0B%0C%0D%0E%0F%10%11%12%13&peer_id=-RT0001-abcdefgh1234&port=6881&left=10&event=started";
    let parsed = parse_announce_query(query).unwrap();
    assert_eq!(parsed.info_hash.0[0], 0);
    assert_eq!(parsed.info_hash.0[19], 19);
    assert_eq!(parsed.peer_id.0, *b"-RT0001-abcdefgh1234");
    assert_eq!(parsed.port, 6881);
}

#[test]
fn protocol_parses_binary_announce_fields() {
    let query = "info_hash=%00%01%02%03%04%05%06%07%08%09%0A%0B%0C%0D%0E%0F%10%11%12%13&peer_id=-RT0001-abcdefgh1234&port=6881&left=10&event=started";
    let parsed = parse_announce_query(query).unwrap();
    assert_eq!(parsed.info_hash.0[0], 0);
    assert_eq!(parsed.info_hash.0[19], 19);
    assert_eq!(parsed.peer_id.0, *b"-RT0001-abcdefgh1234");
    assert_eq!(parsed.port, 6881);
}

#[test]
fn announce_parses_multiple_scrape_hashes() {
    let parsed = parse_scrape_query("info_hash=aaaaaaaaaaaaaaaaaaaa&info_hash=bbbbbbbbbbbbbbbbbbbb").unwrap();
    assert_eq!(parsed.info_hashes.len(), 2);
}

#[test]
fn protocol_parses_multiple_scrape_hashes() {
    let parsed = parse_scrape_query("info_hash=aaaaaaaaaaaaaaaaaaaa&info_hash=bbbbbbbbbbbbbbbbbbbb").unwrap();
    assert_eq!(parsed.info_hashes.len(), 2);
}

const BASE: &str = "info_hash=aaaaaaaaaaaaaaaaaaaa&peer_id=bbbbbbbbbbbbbbbbbbbb&port=6881";

#[test]
fn announce_defaults() {
    let q = parse_announce_query(BASE).unwrap();
    assert_eq!(q.uploaded, 0);
    assert_eq!(q.downloaded, 0);
    assert_eq!(q.left, 0);
    assert_eq!(q.event, AnnounceEvent::Empty);
    assert_eq!(q.numwant, 100);
    assert!(q.compact);
    assert_eq!(q.ip, None);
}

#[test]
fn numwant_is_capped_at_400() {
    let q = parse_announce_query(&format!("{BASE}&numwant=5000")).unwrap();
    assert_eq!(q.numwant, 400);
    let q = parse_announce_query(&format!("{BASE}&numwant=7")).unwrap();
    assert_eq!(q.numwant, 7);
}

#[test]
fn later_values_replace_earlier_ones() {
    let q = parse_announce_query(&format!("{BASE}&left=5&left=+9&event=completed&compact=0&ip=1.2.3.4")).unwrap();
    assert_eq!(q.left, 9);
    assert_eq!(q.event, AnnounceEvent::Completed);
    assert!(!q.compact);
    assert_eq!(q.ip, Some(b"1.2.3.4".to_vec()));
}

#[test]
fn missing_parameters_are_reported_in_order() {
    assert_eq!(parse_announce_query("port=1"), Err(ProtocolError::Missing("info_hash")));
    assert_eq!(
        parse_announce_query("info_hash=aaaaaaaaaaaaaaaaaaaa&port=1"),
        Err(ProtocolError::Missing("peer_id"))
    );
    assert_eq!(
        parse_announce_query("info_hash=aaaaaaaaaaaaaaaaaaaa&peer_id=bbbbbbbbbbbbbbbbbbbb"),
        Err(ProtocolError::Missing("port"))
    );
}

#[test]
fn invalid_values_are_reported() {
    assert_eq!(parse_announce_query("info_hash=short"), Err(ProtocolError::Invalid("info_hash")));
    assert_eq!(parse_announce_query(&format!("{BASE}&port=70000")), Err(ProtocolError::Invalid("port")));
    assert_eq!(parse_announce_query(&format!("{BASE}&port=-1")), Err(ProtocolError::Invalid("port")));
    assert_eq!(parse_announce_query(&format!("{BASE}&left=")), Err(ProtocolError::Invalid("left")));
    assert_eq!(parse_announce_query(&format!("{BASE}&event=paused")), Err(ProtocolError::Invalid("event")));
    assert_eq!(
        parse_announce_query(&format!("{BASE}&uploaded=18446744073709551616")),
        Err(ProtocolError::Invalid("uploaded"))
    );
    assert_eq!(parse_announce_query(&format!("{BASE}&compact=yes")), Err(ProtocolError::Invalid("compact")));
    // The first bad value wins, wherever the missing ones are.
    assert_eq!(parse_announce_query("event=x&port=y"), Err(ProtocolError::Invalid("event")));
}

#[test]
fn empty_segments_and_unknown_keys_are_skipped() {
    let q = parse_announce_query(&format!("&&{BASE}&&foo=bar&key&")).unwrap();
    assert_eq!(q.port, 6881);
    let q = parse_announce_query(&format!("{BASE}&event")).unwrap();
    assert_eq!(q.event, AnnounceEvent::Empty);
}

#[test]
fn scrape_errors() {
    assert_eq!(parse_scrape_query("foo=1"), Err(ProtocolError::Missing("info_hash")));
    assert_eq!(parse_scrape_query("info_hash=%41"), Err(ProtocolError::Invalid("info_hash")));
    let q = parse_scrape_query("info_hash=%61aaaaaaaaaaaaaaaaaaa").unwrap();
    assert_eq!(q.info_hashes[0], InfoHash([b'a'; 20]));
}

#[test]
fn announce_response_layout() {
    let output = AnnounceOutput {
        interval: 1800,
        complete: 5,
        incomplete: 3,
        downloaded: 0,
        peers: (vec![127, 0, 0, 1, 0x1a, 0xe1], Vec::new()),
    };
    let encoded = announce_response(&output, true);
    assert_eq!(
        encoded,
        b"d8:completei5e10:downloadedi0e10:incompletei3e8:intervali1800e5:peers6:\x7f\x00\x00\x01\x1a\xe16:peers60:e"
            .to_vec()
    );
    // The compact flag does not change the answer.
    assert_eq!(announce_response(&output, false), encoded);
}

#[test]
fn announce_response_carries_ipv6_peers() {
    let mut v6 = vec![0u8; 15];
    v6.push(1);
    v6.extend_from_slice(&6881u16.to_be_bytes());
    let output = AnnounceOutput { interval: 60, complete: 1, incomplete: 0, downloaded: 0, peers: (Vec::new(), v6.clone()) };
    let encoded = announce_response(&output, true);
    assert!(encoded.windows(18).any(|w| w == v6.as_slice()));
}

#[test]
fn scrape_response_sorts_and_dedups() {
    let a = InfoHash([b'a'; 20]);
    let b = InfoHash([b'b'; 20]);
    let s1 = TorrentStats { complete: 1, downloaded: 2, incomplete: 3 };
    let s2 = TorrentStats { complete: 4, downloaded: 5, incomplete: 6 };
    let encoded = scrape_response(&[(b, s2), (a, s1), (b, s2)]);
    let expected = b"d5:filesd20:aaaaaaaaaaaaaaaaaaaad8:completei1e10:downloadedi2e10:incompletei3ee20:bbbbbbbbbbbbbbbbbbbbd8:completei4e10:downloadedi5e10:incompletei6eeee";
    assert_eq!(encoded, expected.to_vec());
}

#[test]
fn peer_ip_prefers_query_then_remote() {
    let q = PeerIp::V4([1, 2, 3, 4]);
    let r = PeerIp::V4([5, 6, 7, 8]);
    assert_eq!(peer_ip(Some(q), Some(r)), q);
    assert_eq!(peer_ip(None, Some(r)), r);
    assert_eq!(peer_ip(None, None), PeerIp::V4([127, 0, 0, 1]));
}

#[test]
fn info_hash_from_hex_parses_correctly() {
    let hash = InfoHash::from_hex("6161616161616161616161616161616161616161").unwrap();
    assert_eq!(hash.as_bytes(), &[b'a'; 20]);

    assert!(InfoHash::from_hex("invalid").is_none());
    assert!(InfoHash::from_hex("zzzzzzzzzzzzzzzzzzzzzzzzzzzzzzzzzzzzzzzz").is_none());
    assert!(InfoHash::from_hex("61616161616161616161616161616161616161").is_none());
    assert_eq!(
        InfoHash::from_hex("ABCDEFabcdef0123456789ABCDEFabcdef012345"),
        InfoHash::from_hex("abcdefabcdef0123456789abcdefabcdef012345")
    );
}

#[test]
fn short_and_long_info_hashes_are_refused() {
    let short = parse_announce_query("info_hash=short&peer_id=-RT0001-abcdefgh1234&port=6881&left=0");
    assert_eq!(short, Err(ProtocolError::Invalid("info_hash")));
    let long = format!("info_hash={}&peer_id=-RT0001-abcdefgh1234&port=6881&left=0", "a".repeat(41));
    assert_eq!(parse_announce_query(&long), Err(ProtocolError::Invalid("info_hash")));
}

fn output_with(peers: &[PeerContact]) -> AnnounceOutput {
    AnnounceOutput {
        interval: 1800,
        complete: 1,
        incomplete: 0,
        downloaded: 0,
        peers: (compact_peers(peers), compact_peers6(peers)),
    }
}

#[test]
fn announce_response_compact_ipv4() {
    let output = output_with(&[PeerContact { ip: PeerIp::V4([127, 0, 0, 1]), port: 6881 }]);
    let encoded = announce_response(&output, true);
    assert!(encoded.windows(6).any(|w| w == [127, 0, 0, 1, 0x1a, 0xe1]));
}

#[test]
fn announce_response_compact_ipv6() {
    let mut localhost = [0u8; 16];
    localhost[15] = 1;
    let output = output_with(&[PeerContact { ip: PeerIp::V6(localhost), port: 6881 }]);
    let encoded = announce_response(&output, true);
    let mut expected = localhost.to_vec();
    expected.extend_from_slice(&6881_u16.to_be_bytes());
    assert!(encoded.windows(18).any(|w| w == expected.as_slice()));
}

#[test]
fn ip_values_are_judged_where_they_stand() {
    let query = format!("{BASE}&ip=1.2.3.4&ip=bogus&port=x");
    let texts = ip_texts(&query);
    assert_eq!(texts, vec![b"1.2.3.4".to_vec(), b"bogus".to_vec()]);
    // The refused address comes before the unreadable port.
    assert_eq!(parse_announce_query_checked(&query, &[true, false]), Err(ProtocolError::Invalid("ip")));
    assert_eq!(parse_announce_query_checked(&query, &[true, true]), Err(ProtocolError::Invalid("port")));
    // An unreadable port before the address is the error.
    let query = format!("{BASE}&port=x&ip=bogus");
    assert_eq!(parse_announce_query_checked(&query, &[false]), Err(ProtocolError::Invalid("port")));
    let ok = parse_announce_query_checked(&format!("{BASE}&ip=::1"), &[true]).unwrap();
    assert_eq!(ok.ip, Some(b"::1".to_vec()));
    assert_eq!(parse_announce_query_checked(&format!("{BASE}&ip=::1"), &[false]), Err(ProtocolError::Invalid("ip")));
}

#[test]
fn info_hash_hex_reads_either_case() {
    let h = InfoHash([0xab; 20]);
    let lower = String::from_utf8(h.to_hex().to_vec()).unwrap();
    assert_eq!(InfoHash::from_hex(&lower), Some(h));
    assert_eq!(InfoHash::from_hex(&lower.to_uppercase()), Some(h));
}
