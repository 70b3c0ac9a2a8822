//! The HTTP tracker protocol: announce and scrape query strings, and the
//! bencoded answers.
use vstd::prelude::*;
use vstd::string::StringSliceAdditionalSpecFns;
use crate::bencode::{ascii, bint, bstring, lit, write_bytes, write_int, Value};
use crate::order::{compare_bytes, Order};
use crate::query::{pairs, parse_decimal, parse_uint, percent_decode_bytes, percent_decoded, split_query};
use crate::tracker::AnnounceOutput;
use crate::types::{
    AnnounceEvent, InfoHash, Ipv4PeerKey, Ipv6PeerKey, PeerContact, PeerId, PeerIp, TorrentStats, v4_bytes, v6_bytes,
};

verus! {

/// Why a query was refused, naming the parameter.
#[derive(Debug, PartialEq, Eq)]
pub enum ProtocolError {
    /// A required parameter is absent.
    Missing(&'static str),
    /// A parameter's value cannot be read.
    Invalid(&'static str),
}

/// A parsed announce request.
#[derive(Debug, PartialEq, Eq)]
pub struct AnnounceQuery {
    pub info_hash: InfoHash,
    pub peer_id: PeerId,
    /// The `ip` parameter as sent, if any (the tracker answers the address
    /// the request came from).
    pub ip: Option<Vec<u8>>,
    pub port: u16,
    pub uploaded: u64,
    pub downloaded: u64,
    pub left: u64,
    pub event: AnnounceEvent,
    pub numwant: usize,
    pub compact: bool,
}

/// A parsed scrape request.
#[derive(Debug, PartialEq, Eq)]
pub struct ScrapeQuery {
    pub info_hashes: Vec<InfoHash>,
}

/// The announce parameters seen so far.
pub struct QueryParts {
    pub info_hash: Option<Seq<u8>>,
    pub peer_id: Option<Seq<u8>>,
    pub port: Option<nat>,
    pub uploaded: Option<nat>,
    pub downloaded: Option<nat>,
    pub left: Option<nat>,
    pub event: Option<AnnounceEvent>,
    pub numwant: Option<nat>,
    pub compact: Option<bool>,
    pub ip: Option<Seq<u8>>,
}

/// No parameter seen.
pub open spec fn no_parts() -> QueryParts {
    QueryParts {
        info_hash: None,
        peer_id: None,
        port: None,
        uploaded: None,
        downloaded: None,
        left: None,
        event: None,
        numwant: None,
        compact: None,
        ip: None,
    }
}

/// The event a value names.
pub open spec fn event_of(value: Seq<u8>) -> Option<AnnounceEvent> {
    if value == ascii("started"@) {
        Some(AnnounceEvent::Started)
    } else if value == ascii("completed"@) {
        Some(AnnounceEvent::Completed)
    } else if value == ascii("stopped"@) {
        Some(AnnounceEvent::Stopped)
    } else if value.len() == 0 {
        Some(AnnounceEvent::Empty)
    } else {
        None
    }
}

/// A 20-byte identifier from a percent-encoded value.
pub open spec fn id_of(value: Seq<u8>) -> Option<Seq<u8>> {
    let d = percent_decoded(value);
    if d.len() == 20 {
        Some(d)
    } else {
        None
    }
}

/// One announce parameter applied to what was seen before; a later value
/// replaces an earlier one, and unknown parameters are ignored. `ip_ok`
/// says whether an `ip` value names an address.
pub open spec fn announce_step(st: QueryParts, key: Seq<u8>, value: Seq<u8>, ip_ok: bool) -> Result<
    QueryParts,
    ProtocolError,
> {
    if key == ascii("info_hash"@) {
        match id_of(value) {
            Some(b) => Ok(QueryParts { info_hash: Some(b), ..st }),
            None => Err(ProtocolError::Invalid("info_hash")),
        }
    } else if key == ascii("peer_id"@) {
        match id_of(value) {
            Some(b) => Ok(QueryParts { peer_id: Some(b), ..st }),
            None => Err(ProtocolError::Invalid("peer_id")),
        }
    } else if key == ascii("port"@) {
        match parse_uint(value, u16::MAX as nat) {
            Some(n) => Ok(QueryParts { port: Some(n), ..st }),
            None => Err(ProtocolError::Invalid("port")),
        }
    } else if key == ascii("uploaded"@) {
        match parse_uint(value, u64::MAX as nat) {
            Some(n) => Ok(QueryParts { uploaded: Some(n), ..st }),
            None => Err(ProtocolError::Invalid("uploaded")),
        }
    } else if key == ascii("downloaded"@) {
        match parse_uint(value, u64::MAX as nat) {
            Some(n) => Ok(QueryParts { downloaded: Some(n), ..st }),
            None => Err(ProtocolError::Invalid("downloaded")),
        }
    } else if key == ascii("left"@) {
        match parse_uint(value, u64::MAX as nat) {
            Some(n) => Ok(QueryParts { left: Some(n), ..st }),
            None => Err(ProtocolError::Invalid("left")),
        }
    } else if key == ascii("event"@) {
        match event_of(value) {
            Some(e) => Ok(QueryParts { event: Some(e), ..st }),
            None => Err(ProtocolError::Invalid("event")),
        }
    } else if key == ascii("numwant"@) {
        match parse_uint(value, usize::MAX as nat) {
            Some(n) => Ok(QueryParts { numwant: Some(n), ..st }),
            None => Err(ProtocolError::Invalid("numwant")),
        }
    } else if key == ascii("compact"@) {
        match parse_uint(value, u64::MAX as nat) {
            Some(n) => Ok(QueryParts { compact: Some(n != 0), ..st }),
            None => Err(ProtocolError::Invalid("compact")),
        }
    } else if key == ascii("ip"@) {
        if ip_ok {
            Ok(QueryParts { ip: Some(value), ..st })
        } else {
            Err(ProtocolError::Invalid("ip"))
        }
    } else {
        Ok(st)
    }
}

/// The values of the `ip` pairs, in order.
pub open spec fn ip_values(ps: Seq<(Seq<u8>, Seq<u8>)>) -> Seq<Seq<u8>>
    decreases ps.len(),
{
    if ps.len() == 0 {
        Seq::empty()
    } else if ps.last().0 == ascii("ip"@) {
        ip_values(ps.drop_last()).push(ps.last().1)
    } else {
        ip_values(ps.drop_last())
    }
}

/// The verdict on the `i`-th `ip` value: whether it names an address.
pub open spec fn ip_verdict(oks: Seq<bool>, i: int) -> bool {
    0 <= i < oks.len() ==> oks[i]
}

/// The announce parameters of the pairs, or the first error; `oks` holds
/// the verdicts on the `ip` values, in order.
pub open spec fn announce_fold(ps: Seq<(Seq<u8>, Seq<u8>)>, oks: Seq<bool>) -> Result<QueryParts, ProtocolError>
    decreases ps.len(),
{
    if ps.len() == 0 {
        Ok(no_parts())
    } else {
        match announce_fold(ps.drop_last(), oks) {
            Ok(st) => announce_step(
                st,
                ps.last().0,
                ps.last().1,
                ip_verdict(oks, ip_values(ps.drop_last()).len() as int),
            ),
            Err(e) => Err(e),
        }
    }
}

/// The outcome of parsing an announce query whose `ip` values get the
/// verdicts `oks`: its parameters, or the first error, then the first
/// required parameter that is missing.
pub open spec fn announce_spec(q: Seq<u8>, oks: Seq<bool>) -> Result<QueryParts, ProtocolError> {
    match announce_fold(pairs(q), oks) {
        Ok(st) => if st.info_hash is None {
            Err(ProtocolError::Missing("info_hash"))
        } else if st.peer_id is None {
            Err(ProtocolError::Missing("peer_id"))
        } else if st.port is None {
            Err(ProtocolError::Missing("port"))
        } else {
            Ok(st)
        },
        Err(e) => Err(e),
    }
}

/// `a` is the query with parameters `st`, defaults filled in: nothing
/// uploaded, downloaded or left, no event, 100 peers wanted (at most 400)
/// and compact answers.
pub open spec fn query_from(a: AnnounceQuery, st: QueryParts) -> bool {
    &&& st.info_hash == Some(a.info_hash.0@)
    &&& st.peer_id == Some(a.peer_id.0@)
    &&& st.port == Some(a.port as nat)
    &&& a.uploaded == (match st.uploaded {
        Some(n) => n,
        None => 0,
    })
    &&& a.downloaded == (match st.downloaded {
        Some(n) => n,
        None => 0,
    })
    &&& a.left == (match st.left {
        Some(n) => n,
        None => 0,
    })
    &&& a.event == (match st.event {
        Some(e) => e,
        None => AnnounceEvent::Empty,
    })
    &&& a.numwant == (match st.numwant {
        Some(n) => if n < 400 {
            n
        } else {
            400
        },
        None => 100,
    })
    &&& a.compact == (match st.compact {
        Some(c) => c,
        None => true,
    })
    &&& match st.ip {
        Some(v) => a.ip matches Some(x) && x@ == v,
        None => a.ip is None,
    }
}

/// An error in a prefix of the pairs is the error of all of them.
pub proof fn lemma_fold_error(ps: Seq<(Seq<u8>, Seq<u8>)>, oks: Seq<bool>, k: int)
    requires
        0 <= k <= ps.len(),
        announce_fold(ps.subrange(0, k), oks) is Err,
    ensures
        announce_fold(ps, oks) == announce_fold(ps.subrange(0, k), oks),
    decreases ps.len() - k,
{
    if k < ps.len() {
        assert(ps.subrange(0, k + 1).drop_last() =~= ps.subrange(0, k));
        lemma_fold_error(ps, oks, k + 1);
    } else {
        assert(ps.subrange(0, k) =~= ps);
    }
}

/// Whether two byte strings are equal.
pub fn bytes_equal(a: &[u8], b: &[u8]) -> (r: bool)
    ensures
        r == (a@ == b@),
{
    match compare_bytes(a, b) {
        Order::Equal => true,
        _ => false,
    }
}

/// A 20-byte identifier from a percent-encoded value.
fn decode_id(value: &[u8]) -> (r: Option<[u8; 20]>)
    ensures
        match id_of(value@) {
            Some(b) => r matches Some(x) && x@ == b,
            None => r is None,
        },
{
    let d = percent_decode_bytes(value);
    if d.len() != 20 {
        return None;
    }
    let mut out = [0u8; 20];
    let mut i: usize = 0;
    while i < 20
        invariant
            i <= 20,
            d@.len() == 20,
            forall|j: int| 0 <= j < i ==> out@[j] == d@[j],
        decreases 20 - i,
    {
        out[i] = d[i];
        i = i + 1;
    }
    assert(out@ =~= d@);
    Some(out)
}

/// The exec form of the parameters seen so far.
pub open spec fn parts_of(
    info_hash: Option<[u8; 20]>,
    peer_id: Option<[u8; 20]>,
    port: Option<u16>,
    uploaded: Option<u64>,
    downloaded: Option<u64>,
    left: Option<u64>,
    event: Option<AnnounceEvent>,
    numwant: Option<usize>,
    compact: Option<bool>,
    ip: Option<Seq<u8>>,
) -> QueryParts {
    QueryParts {
        info_hash: match info_hash {
            Some(b) => Some(b@),
            None => None,
        },
        peer_id: match peer_id {
            Some(b) => Some(b@),
            None => None,
        },
        port: match port {
            Some(n) => Some(n as nat),
            None => None,
        },
        uploaded: match uploaded {
            Some(n) => Some(n as nat),
            None => None,
        },
        downloaded: match downloaded {
            Some(n) => Some(n as nat),
            None => None,
        },
        left: match left {
            Some(n) => Some(n as nat),
            None => None,
        },
        event,
        numwant: match numwant {
            Some(n) => Some(n as nat),
            None => None,
        },
        compact,
        ip,
    }
}

/// Parses the query string of an announce request as
/// [`parse_announce_query_checked`] does, taking each `ip` value for an
/// address.
pub fn parse_announce_query(raw_query: &str) -> (r: Result<AnnounceQuery, ProtocolError>)
    ensures
        match announce_spec(raw_query.spec_bytes(), Seq::empty()) {
            Ok(st) => r matches Ok(a) && query_from(a, st),
            Err(e) => r == Err::<AnnounceQuery, ProtocolError>(e),
        },
{
    let none: Vec<bool> = Vec::new();
    parse_announce_query_checked(raw_query, none.as_slice())
}

/// The values of the `ip` pairs of an announce query, in order: the texts
/// that [`parse_announce_query_checked`] wants verdicts on.
pub fn ip_texts(raw_query: &str) -> (r: Vec<Vec<u8>>)
    ensures
        r@.len() == ip_values(pairs(raw_query.spec_bytes())).len(),
        forall|i: int| 0 <= i < r@.len() ==> (#[trigger] r@[i])@ == ip_values(pairs(raw_query.spec_bytes()))[i],
{
    proof {
        reveal_strlit("ip");
    }
    let q = raw_query.as_bytes();
    let ps = split_query(q);
    let ghost all = pairs(q@);
    let k_ip = lit("ip");
    let mut out: Vec<Vec<u8>> = Vec::new();
    let mut i: usize = 0;
    proof {
        assert(all.subrange(0, 0) =~= Seq::<(Seq<u8>, Seq<u8>)>::empty());
    }
    while i < ps.len()
        invariant
            i <= ps@.len(),
            ps@.len() == all.len(),
            q@ == raw_query.spec_bytes(),
            all == pairs(q@),
            forall|j: int| 0 <= j < ps@.len() ==> (#[trigger] ps@[j]).0@ == all[j].0 && ps@[j].1@ == all[j].1,
            k_ip@ == ascii("ip"@),
            out@.len() == ip_values(all.subrange(0, i as int)).len(),
            forall|j: int| 0 <= j < out@.len() ==> (#[trigger] out@[j])@ == ip_values(all.subrange(0, i as int))[j],
        decreases ps@.len() - i,
    {
        proof {
            assert(all.subrange(0, i + 1).drop_last() =~= all.subrange(0, i as int));
            assert(all.subrange(0, i + 1).last() == all[i as int]);
        }
        let key = ps[i].0.as_slice();
        let value = ps[i].1.as_slice();
        if bytes_equal(key, k_ip) {
            let v = crate::query::copy_range(value, 0, value.len());
            assert(v@ =~= value@);
            out.push(v);
        }
        i = i + 1;
    }
    proof {
        assert(all.subrange(0, all.len() as int) =~= all);
    }
    out
}

/// Parses the query string of an announce request. Parameters are read in
/// order; a later value replaces an earlier one, the first unreadable value
/// is the error, and then the first missing one of `info_hash`, `peer_id`
/// and `port`. `ip_ok` holds the verdicts on the `ip` values, in order: an
/// `ip` value judged not to name an address is unreadable (one without a
/// verdict is taken for an address).
pub fn parse_announce_query_checked(raw_query: &str, ip_ok: &[bool]) -> (r: Result<AnnounceQuery, ProtocolError>)
    ensures
        match announce_spec(raw_query.spec_bytes(), ip_ok@) {
            Ok(st) => r matches Ok(a) && query_from(a, st),
            Err(e) => r == Err::<AnnounceQuery, ProtocolError>(e),
        },
{
    proof {
        reveal_strlit("info_hash");
        reveal_strlit("peer_id");
        reveal_strlit("port");
        reveal_strlit("uploaded");
        reveal_strlit("downloaded");
        reveal_strlit("left");
        reveal_strlit("event");
        reveal_strlit("numwant");
        reveal_strlit("compact");
        reveal_strlit("ip");
        reveal_strlit("started");
        reveal_strlit("completed");
        reveal_strlit("stopped");
    }
    let q = raw_query.as_bytes();
    let ps = split_query(q);
    let ghost all = pairs(q@);
    let mut info_hash: Option<[u8; 20]> = None;
    let mut peer_id: Option<[u8; 20]> = None;
    let mut port: Option<u16> = None;
    let mut uploaded: Option<u64> = None;
    let mut downloaded: Option<u64> = None;
    let mut left: Option<u64> = None;
    let mut event: Option<AnnounceEvent> = None;
    let mut numwant: Option<usize> = None;
    let mut compact: Option<bool> = None;
    let mut ip: Option<Vec<u8>> = None;
    let k_info_hash = lit("info_hash");
    let k_peer_id = lit("peer_id");
    let k_port = lit("port");
    let k_uploaded = lit("uploaded");
    let k_downloaded = lit("downloaded");
    let k_left = lit("left");
    let k_event = lit("event");
    let k_numwant = lit("numwant");
    let k_compact = lit("compact");
    let k_ip = lit("ip");
    let v_started = lit("started");
    let v_completed = lit("completed");
    let v_stopped = lit("stopped");
    let mut i: usize = 0;
    let mut n_ip: usize = 0;
    proof {
        assert(all.subrange(0, 0) =~= Seq::<(Seq<u8>, Seq<u8>)>::empty());
    }
    while i < ps.len()
        invariant
            i <= ps@.len(),
            n_ip as int == ip_values(all.subrange(0, i as int)).len(),
            n_ip <= i,
            ps@.len() == all.len(),
            q@ == raw_query.spec_bytes(),
            all == pairs(q@),
            forall|j: int| 0 <= j < ps@.len() ==> (#[trigger] ps@[j]).0@ == all[j].0 && ps@[j].1@ == all[j].1,
            k_info_hash@ == ascii("info_hash"@),
            k_peer_id@ == ascii("peer_id"@),
            k_port@ == ascii("port"@),
            k_uploaded@ == ascii("uploaded"@),
            k_downloaded@ == ascii("downloaded"@),
            k_left@ == ascii("left"@),
            k_event@ == ascii("event"@),
            k_numwant@ == ascii("numwant"@),
            k_compact@ == ascii("compact"@),
            k_ip@ == ascii("ip"@),
            v_started@ == ascii("started"@),
            v_completed@ == ascii("completed"@),
            v_stopped@ == ascii("stopped"@),
            announce_fold(all.subrange(0, i as int), ip_ok@) == Ok::<QueryParts, ProtocolError>(
                parts_of(
                    info_hash,
                    peer_id,
                    port,
                    uploaded,
                    downloaded,
                    left,
                    event,
                    numwant,
                    compact,
                    match ip {
                        Some(v) => Some(v@),
                        None => None,
                    },
                ),
            ),
        decreases ps@.len() - i,
    {
        let key = ps[i].0.as_slice();
        let value = ps[i].1.as_slice();
        proof {
            assert(all.subrange(0, i + 1).drop_last() =~= all.subrange(0, i as int));
            assert(all.subrange(0, i + 1).last() == all[i as int]);
            reveal_strlit("ip");
            reveal_strlit("info_hash");
            reveal_strlit("peer_id");
            reveal_strlit("port");
            reveal_strlit("uploaded");
            reveal_strlit("downloaded");
            reveal_strlit("left");
            reveal_strlit("event");
            reveal_strlit("numwant");
            reveal_strlit("compact");
            assert(ascii("ip"@).len() == 2);
            assert(ascii("info_hash"@).len() == 9);
            assert(ascii("peer_id"@).len() == 7);
            assert(ascii("port"@).len() == 4);
            assert(ascii("uploaded"@).len() == 8);
            assert(ascii("downloaded"@).len() == 10);
            assert(ascii("left"@).len() == 4);
            assert(ascii("event"@).len() == 5);
            assert(ascii("numwant"@).len() == 7);
            assert(ascii("compact"@).len() == 7);
            if all[i as int].0 == ascii("ip"@) {
                assert(ip_values(all.subrange(0, i + 1)) == ip_values(all.subrange(0, i as int)).push(all[i as int].1));
            } else {
                assert(ip_values(all.subrange(0, i + 1)) == ip_values(all.subrange(0, i as int)));
            }
        }
        if bytes_equal(key, k_info_hash) {
            match decode_id(value) {
                Some(b) => {
                    info_hash = Some(b);
                },
                None => {
                    proof {
                        lemma_fold_error(all, ip_ok@, i + 1);
                    }
                    return Err(ProtocolError::Invalid("info_hash"));
                },
            }
        } else if bytes_equal(key, k_peer_id) {
            match decode_id(value) {
                Some(b) => {
                    peer_id = Some(b);
                },
                None => {
                    proof {
                        lemma_fold_error(all, ip_ok@, i + 1);
                    }
                    return Err(ProtocolError::Invalid("peer_id"));
                },
            }
        } else if bytes_equal(key, k_port) {
            match parse_decimal(value, u16::MAX as u64) {
                Some(n) => {
                    port = Some(n as u16);
                },
                None => {
                    proof {
                        lemma_fold_error(all, ip_ok@, i + 1);
                    }
                    return Err(ProtocolError::Invalid("port"));
                },
            }
        } else if bytes_equal(key, k_uploaded) {
            match parse_decimal(value, u64::MAX) {
                Some(n) => {
                    uploaded = Some(n);
                },
                None => {
                    proof {
                        lemma_fold_error(all, ip_ok@, i + 1);
                    }
                    return Err(ProtocolError::Invalid("uploaded"));
                },
            }
        } else if bytes_equal(key, k_downloaded) {
            match parse_decimal(value, u64::MAX) {
                Some(n) => {
                    downloaded = Some(n);
                },
                None => {
                    proof {
                        lemma_fold_error(all, ip_ok@, i + 1);
                    }
                    return Err(ProtocolError::Invalid("downloaded"));
                },
            }
        } else if bytes_equal(key, k_left) {
            match parse_decimal(value, u64::MAX) {
                Some(n) => {
                    left = Some(n);
                },
                None => {
                    proof {
                        lemma_fold_error(all, ip_ok@, i + 1);
                    }
                    return Err(ProtocolError::Invalid("left"));
                },
            }
        } else if bytes_equal(key, k_event) {
            if bytes_equal(value, v_started) {
                event = Some(AnnounceEvent::Started);
            } else if bytes_equal(value, v_completed) {
                event = Some(AnnounceEvent::Completed);
            } else if bytes_equal(value, v_stopped) {
                event = Some(AnnounceEvent::Stopped);
            } else if value.len() == 0 {
                event = Some(AnnounceEvent::Empty);
            } else {
                proof {
                    lemma_fold_error(all, ip_ok@, i + 1);
                }
                return Err(ProtocolError::Invalid("event"));
            }
        } else if bytes_equal(key, k_numwant) {
            match parse_decimal(value, usize::MAX as u64) {
                Some(n) => {
                    numwant = Some(n as usize);
                },
                None => {
                    proof {
                        lemma_fold_error(all, ip_ok@, i + 1);
                    }
                    return Err(ProtocolError::Invalid("numwant"));
                },
            }
        } else if bytes_equal(key, k_compact) {
            match parse_decimal(value, u64::MAX) {
                Some(n) => {
                    compact = Some(n != 0);
                },
                None => {
                    proof {
                        lemma_fold_error(all, ip_ok@, i + 1);
                    }
                    return Err(ProtocolError::Invalid("compact"));
                },
            }
        } else if bytes_equal(key, k_ip) {
            if n_ip < ip_ok.len() && !ip_ok[n_ip] {
                proof {
                    lemma_fold_error(all, ip_ok@, i + 1);
                }
                return Err(ProtocolError::Invalid("ip"));
            }
            let v = crate::query::copy_range(value, 0, value.len());
            assert(v@ =~= value@);
            ip = Some(v);
            n_ip = n_ip + 1;
        }
        i = i + 1;
    }
    proof {
        assert(all.subrange(0, all.len() as int) =~= all);
    }
    let info_hash = match info_hash {
        Some(b) => InfoHash(b),
        None => {
            return Err(ProtocolError::Missing("info_hash"));
        },
    };
    let peer_id = match peer_id {
        Some(b) => PeerId(b),
        None => {
            return Err(ProtocolError::Missing("peer_id"));
        },
    };
    let port = match port {
        Some(p) => p,
        None => {
            return Err(ProtocolError::Missing("port"));
        },
    };
    let wanted = match numwant {
        Some(n) => if n < 400 {
            n
        } else {
            400
        },
        None => 100,
    };
    Ok(AnnounceQuery {
        info_hash,
        peer_id,
        ip,
        port,
        uploaded: match uploaded {
            Some(n) => n,
            None => 0,
        },
        downloaded: match downloaded {
            Some(n) => n,
            None => 0,
        },
        left: match left {
            Some(n) => n,
            None => 0,
        },
        event: match event {
            Some(e) => e,
            None => AnnounceEvent::Empty,
        },
        numwant: wanted,
        compact: match compact {
            Some(c) => c,
            None => true,
        },
    })
}

/// The info hashes of a scrape query's `info_hash` pairs, or the first error.
pub open spec fn scrape_fold(ps: Seq<(Seq<u8>, Seq<u8>)>) -> Result<Seq<Seq<u8>>, ProtocolError>
    decreases ps.len(),
{
    if ps.len() == 0 {
        Ok(Seq::empty())
    } else {
        match scrape_fold(ps.drop_last()) {
            Ok(hs) => if ps.last().0 == ascii("info_hash"@) {
                match id_of(ps.last().1) {
                    Some(b) => Ok(hs.push(b)),
                    None => Err(ProtocolError::Invalid("info_hash")),
                }
            } else {
                Ok(hs)
            },
            Err(e) => Err(e),
        }
    }
}

/// The outcome of parsing a scrape query: at least one info hash is required.
pub open spec fn scrape_spec(q: Seq<u8>) -> Result<Seq<Seq<u8>>, ProtocolError> {
    match scrape_fold(pairs(q)) {
        Ok(hs) => if hs.len() == 0 {
            Err(ProtocolError::Missing("info_hash"))
        } else {
            Ok(hs)
        },
        Err(e) => Err(e),
    }
}

/// An error in a prefix of the pairs is the error of all of them.
pub proof fn lemma_scrape_error(ps: Seq<(Seq<u8>, Seq<u8>)>, k: int)
    requires
        0 <= k <= ps.len(),
        scrape_fold(ps.subrange(0, k)) is Err,
    ensures
        scrape_fold(ps) == scrape_fold(ps.subrange(0, k)),
    decreases ps.len() - k,
{
    if k < ps.len() {
        assert(ps.subrange(0, k + 1).drop_last() =~= ps.subrange(0, k));
        lemma_scrape_error(ps, k + 1);
    } else {
        assert(ps.subrange(0, k) =~= ps);
    }
}

/// Parses the query string of a scrape request: every `info_hash` pair, in
/// order; other parameters are ignored.
#[verifier::rlimit(30)]
pub fn parse_scrape_query(raw_query: &str) -> (r: Result<ScrapeQuery, ProtocolError>)
    ensures
        match scrape_spec(raw_query.spec_bytes()) {
            Ok(hs) => r matches Ok(s) && s.info_hashes@.len() == hs.len() && forall|i: int|
                0 <= i < hs.len() ==> (#[trigger] s.info_hashes@[i]).0@ == hs[i],
            Err(e) => r == Err::<ScrapeQuery, ProtocolError>(e),
        },
{
    proof {
        reveal_strlit("info_hash");
    }
    let q = raw_query.as_bytes();
    let ps = split_query(q);
    let ghost all = pairs(q@);
    let k_info_hash = lit("info_hash");
    let mut hashes: Vec<InfoHash> = Vec::new();
    let mut i: usize = 0;
    proof {
        assert(all.subrange(0, 0) =~= Seq::<(Seq<u8>, Seq<u8>)>::empty());
    }
    while i < ps.len()
        invariant
            i <= ps@.len(),
            ps@.len() == all.len(),
            q@ == raw_query.spec_bytes(),
            all == pairs(q@),
            forall|j: int| 0 <= j < ps@.len() ==> (#[trigger] ps@[j]).0@ == all[j].0 && ps@[j].1@ == all[j].1,
            k_info_hash@ == ascii("info_hash"@),
            scrape_fold(all.subrange(0, i as int)) matches Ok(hs) && hs.len() == hashes@.len() && forall|j: int|
                0 <= j < hs.len() ==> (#[trigger] hashes@[j]).0@ == hs[j],
        decreases ps@.len() - i,
    {
        let key = ps[i].0.as_slice();
        let value = ps[i].1.as_slice();
        let ghost before = hashes@;
        proof {
            assert(all.subrange(0, i + 1).drop_last() =~= all.subrange(0, i as int));
            assert(all.subrange(0, i + 1).last() == all[i as int]);
        }
        if bytes_equal(key, k_info_hash) {
            match decode_id(value) {
                Some(b) => {
                    hashes.push(InfoHash(b));
                    proof {
                        assert forall|j: int| 0 <= j < hashes@.len() implies (#[trigger] hashes@[j]).0@
                            == scrape_fold(all.subrange(0, i + 1))->Ok_0[j] by {
                            if j < before.len() {
                                assert(hashes@[j] == before[j]);
                            }
                        }
                    }
                },
                None => {
                    proof {
                        lemma_scrape_error(all, i + 1);
                    }
                    return Err(ProtocolError::Invalid("info_hash"));
                },
            }
        }
        i = i + 1;
    }
    proof {
        assert(all.subrange(0, all.len() as int) =~= all);
    }
    if hashes.len() == 0 {
        return Err(ProtocolError::Missing("info_hash"));
    }
    Ok(ScrapeQuery { info_hashes: hashes })
}

/// The bencoded answer to an announce: the swarm's counts, the interval and
/// the compact IPv4 and IPv6 peers, keys in sorted order.
pub open spec fn announce_body(output: AnnounceOutput) -> Seq<u8> {
    seq![100u8] + bstring(ascii("complete"@)) + bint((output.complete as i64) as int) + bstring(
        ascii("downloaded"@),
    ) + bint((output.downloaded as i64) as int) + bstring(ascii("incomplete"@)) + bint(
        (output.incomplete as i64) as int,
    ) + bstring(ascii("interval"@)) + bint((output.interval as i64) as int) + bstring(ascii("peers"@))
        + bstring(output.peers.0@) + bstring(ascii("peers6"@)) + bstring(output.peers.1@) + seq![101u8]
}

/// Bencodes the answer to an announce. Peers are always given in compact
/// form; `compact` is accepted and has no effect.
pub fn announce_response(output: &AnnounceOutput, compact: bool) -> (r: Vec<u8>)
    ensures
        r@ == announce_body(*output),
{
    proof {
        reveal_strlit("complete");
        reveal_strlit("downloaded");
        reveal_strlit("incomplete");
        reveal_strlit("interval");
        reveal_strlit("peers");
        reveal_strlit("peers6");
    }
    let mut buf: Vec<u8> = Vec::new();
    buf.push(100);
    write_int(&mut buf, lit("complete"), output.complete as i64);
    write_int(&mut buf, lit("downloaded"), output.downloaded as i64);
    write_int(&mut buf, lit("incomplete"), output.incomplete as i64);
    write_int(&mut buf, lit("interval"), output.interval as i64);
    write_bytes(&mut buf, lit("peers"), output.peers.0.as_slice());
    write_bytes(&mut buf, lit("peers6"), output.peers.1.as_slice());
    buf.push(101);
    assert(buf@ =~= announce_body(*output));
    buf
}

/// The address to answer for: the one the query names, else the one the
/// request came from, else 127.0.0.1.
pub fn peer_ip(query_ip: Option<PeerIp>, remote_ip: Option<PeerIp>) -> (r: PeerIp)
    ensures
        r == match query_ip {
            Some(a) => a,
            None => match remote_ip {
                Some(b) => b,
                None => PeerIp::V4([127, 0, 0, 1]),
            },
        },
{
    match query_ip {
        Some(a) => a,
        None => match remote_ip {
            Some(b) => b,
            None => PeerIp::V4([127, 0, 0, 1]),
        },
    }
}

/// Hash bytes of scrape entries, in order.
pub open spec fn entry_hashes(es: Seq<(InfoHash, TorrentStats)>) -> Seq<Seq<u8>> {
    es.map_values(|e: (InfoHash, TorrentStats)| e.0.0@)
}

/// Entry `e` is the last one in `stats[..n]` with its hash.
pub open spec fn last_for_hash(stats: Seq<(InfoHash, TorrentStats)>, n: int, e: (InfoHash, TorrentStats)) -> bool {
    exists|j: int|
        0 <= j < n && #[trigger] stats[j] == e && forall|j2: int| j < j2 < n ==> (#[trigger] stats[j2]).0 != e.0
}

/// Some entry of `es` has hash `h`.
pub open spec fn has_hash(es: Seq<(InfoHash, TorrentStats)>, h: InfoHash) -> bool {
    exists|k: int| 0 <= k < es.len() && (#[trigger] es[k]).0 == h
}

/// `es` holds the entries of `stats[..n]` ordered by hash, one per hash,
/// the later one where a hash repeats.
pub open spec fn entries_of(es: Seq<(InfoHash, TorrentStats)>, stats: Seq<(InfoHash, TorrentStats)>, n: int) -> bool {
    &&& crate::order::strictly_sorted(entry_hashes(es))
    &&& forall|j: int| 0 <= j < n ==> has_hash(es, #[trigger] stats[j].0)
    &&& forall|k: int| 0 <= k < es.len() ==> last_for_hash(stats, n, #[trigger] es[k])
}

/// The bencoded statistics of one torrent.
pub open spec fn stats_body(s: TorrentStats) -> Seq<u8> {
    seq![100u8] + bstring(ascii("complete"@)) + bint((s.complete as i64) as int) + bstring(ascii("downloaded"@))
        + bint((s.downloaded as i64) as int) + bstring(ascii("incomplete"@)) + bint((s.incomplete as i64) as int)
        + seq![101u8]
}

/// The `files` dictionary body: each hash with its statistics.
pub open spec fn files_body(es: Seq<(InfoHash, TorrentStats)>) -> Seq<u8>
    decreases es.len(),
{
    if es.len() == 0 {
        Seq::empty()
    } else {
        files_body(es.drop_last()) + bstring(es.last().0.0@) + stats_body(es.last().1)
    }
}

/// The bencoded answer to a scrape over the entries `es`.
pub open spec fn scrape_body(es: Seq<(InfoHash, TorrentStats)>) -> Seq<u8> {
    seq![100u8] + bstring(ascii("files"@)) + seq![100u8] + files_body(es) + seq![101u8, 101u8]
}

/// Orders scrape entries by hash, keeping one entry per hash: the later one.
pub fn sorted_entries(stats: &[(InfoHash, TorrentStats)]) -> (es: Vec<(InfoHash, TorrentStats)>)
    ensures
        entries_of(es@, stats@, stats@.len() as int),
{
    let mut es: Vec<(InfoHash, TorrentStats)> = Vec::new();
    let mut i: usize = 0;
    proof {
        assert(entry_hashes(es@) =~= Seq::<Seq<u8>>::empty());
    }
    while i < stats.len()
        invariant
            i <= stats@.len(),
            entries_of(es@, stats@, i as int),
        decreases stats@.len() - i,
    {
        let e = stats[i];
        let h = e.0;
        let ghost old_es = es@;
        let mut pos: usize = 0;
        while pos < es.len() && compare_bytes(es[pos].0.0.as_slice(), h.0.as_slice()) == Order::Less
            invariant
                pos <= es@.len(),
                es@ == old_es,
                forall|k: int| 0 <= k < pos ==> crate::order::bytes_lt((#[trigger] es@[k]).0.0@, h.0@),
            decreases es@.len() - pos,
        {
            pos = pos + 1;
        }
        let found = pos < es.len() && compare_bytes(es[pos].0.0.as_slice(), h.0.as_slice()) == Order::Equal;
        if found {
            proof {
                crate::tracker::lemma_hash_bytes(es@[pos as int].0, h);
            }
            es.set(pos, e);
            proof {
                let ne = es@;
                assert(entry_hashes(ne) =~= entry_hashes(old_es));
                assert forall|j: int| 0 <= j < i + 1 implies has_hash(ne, #[trigger] stats@[j].0) by {
                    if j < i {
                        let k = choose|k: int| 0 <= k < old_es.len() && (#[trigger] old_es[k]).0 == stats@[j].0;
                        assert(ne[k].0 == old_es[k].0);
                    } else {
                        assert(ne[pos as int].0 == h);
                    }
                }
                assert forall|k: int| 0 <= k < ne.len() implies last_for_hash(stats@, i + 1, #[trigger] ne[k]) by {
                    if k == pos {
                        assert(stats@[i as int] == ne[k]);
                    } else {
                        assert(ne[k] == old_es[k]);
                        assert(last_for_hash(stats@, i as int, old_es[k]));
                        let j = choose|j: int|
                            0 <= j < i && #[trigger] stats@[j] == old_es[k] && forall|j2: int|
                                j < j2 < i ==> (#[trigger] stats@[j2]).0 != old_es[k].0;
                        assert(old_es[k].0 != h) by {
                            if old_es[k].0 == h {
                                if k < pos {
                                    assert(crate::order::bytes_lt(entry_hashes(old_es)[k], entry_hashes(old_es)[pos as int]));
                                } else {
                                    assert(crate::order::bytes_lt(entry_hashes(old_es)[pos as int], entry_hashes(old_es)[k]));
                                }
                                crate::order::lemma_lt_irreflexive(h.0@);
                            }
                        }
                        assert forall|j2: int| j < j2 < i + 1 implies (#[trigger] stats@[j2]).0 != ne[k].0 by {
                        }
                    }
                }
            }
        } else {
            proof {
                assert forall|k: int| pos <= k < old_es.len() implies crate::order::bytes_lt(h.0@, (#[trigger] old_es[k]).0.0@) by {
                    if k == pos {
                    } else {
                        assert(crate::order::bytes_lt(entry_hashes(old_es)[pos as int], entry_hashes(old_es)[k]));
                        crate::order::lemma_lt_transitive(h.0@, old_es[pos as int].0.0@, old_es[k].0.0@);
                    }
                }
            }
            es.insert(pos, e);
            proof {
                let ne = es@;
                let ks = entry_hashes(ne);
                assert forall|a: int, b: int| 0 <= a < b < ks.len() implies crate::order::bytes_lt(
                    #[trigger] ks[a],
                    #[trigger] ks[b],
                ) by {
                    if b < pos {
                        assert(crate::order::bytes_lt(entry_hashes(old_es)[a], entry_hashes(old_es)[b]));
                    } else if b == pos {
                        assert(ks[a] == old_es[a].0.0@);
                    } else if a < pos {
                        assert(ks[b] == old_es[b - 1].0.0@);
                        crate::order::lemma_lt_transitive(old_es[a].0.0@, h.0@, old_es[b - 1].0.0@);
                    } else if a == pos {
                        assert(ks[b] == old_es[b - 1].0.0@);
                    } else {
                        assert(crate::order::bytes_lt(entry_hashes(old_es)[a - 1], entry_hashes(old_es)[b - 1]));
                    }
                }
                assert forall|j: int| 0 <= j < i + 1 implies has_hash(ne, #[trigger] stats@[j].0) by {
                    if j < i {
                        let k = choose|k: int| 0 <= k < old_es.len() && (#[trigger] old_es[k]).0 == stats@[j].0;
                        let nk = if k < pos { k } else { k + 1 };
                        assert(ne[nk] == old_es[k]);
                    } else {
                        assert(ne[pos as int] == e);
                    }
                }
                assert forall|k: int| 0 <= k < ne.len() implies last_for_hash(stats@, i + 1, #[trigger] ne[k]) by {
                    if k == pos {
                        assert(stats@[i as int] == ne[k]);
                    } else {
                        let ok = if k < pos { k } else { k - 1 };
                        assert(ne[k] == old_es[ok]);
                        assert(last_for_hash(stats@, i as int, old_es[ok]));
                        let j = choose|j: int|
                            0 <= j < i && #[trigger] stats@[j] == old_es[ok] && forall|j2: int|
                                j < j2 < i ==> (#[trigger] stats@[j2]).0 != old_es[ok].0;
                        assert(old_es[ok].0 != h) by {
                            if old_es[ok].0 == h {
                                crate::order::lemma_lt_irreflexive(h.0@);
                            }
                        }
                        assert forall|j2: int| j < j2 < i + 1 implies (#[trigger] stats@[j2]).0 != ne[k].0 by {
                        }
                    }
                }
            }
        }
        i = i + 1;
    }
    es
}

/// Appends one torrent's entry of the `files` dictionary.
fn write_stats_entry(buf: &mut Vec<u8>, h: &InfoHash, s: &TorrentStats)
    ensures
        final(buf)@ == old(buf)@ + bstring(h.0@) + stats_body(*s),
{
    proof {
        reveal_strlit("complete");
        reveal_strlit("downloaded");
        reveal_strlit("incomplete");
    }
    crate::bencode::write_key(buf, h.0.as_slice());
    buf.push(100);
    write_int(buf, lit("complete"), s.complete as i64);
    write_int(buf, lit("downloaded"), s.downloaded as i64);
    write_int(buf, lit("incomplete"), s.incomplete as i64);
    buf.push(101);
    assert(buf@ =~= old(buf)@ + bstring(h.0@) + stats_body(*s));
}

/// Bencodes the answer to a scrape: a `files` dictionary from info hash to
/// its `complete`, `downloaded` and `incomplete` counts, ordered by hash,
/// one entry per hash (the later one where a hash repeats).
pub fn scrape_response(stats: &[(InfoHash, TorrentStats)]) -> (r: Vec<u8>)
    ensures
        exists|es: Seq<(InfoHash, TorrentStats)>|
            #![trigger scrape_body(es)]
            entries_of(es, stats@, stats@.len() as int) && r@ == scrape_body(es),
{
    proof {
        reveal_strlit("files");
        reveal_strlit("complete");
        reveal_strlit("downloaded");
        reveal_strlit("incomplete");
    }
    let es = sorted_entries(stats);
    let mut buf: Vec<u8> = Vec::new();
    buf.push(100);
    crate::bencode::write_key(&mut buf, lit("files"));
    buf.push(100);
    let ghost head = buf@;
    let mut i: usize = 0;
    proof {
        assert(es@.subrange(0, 0) =~= Seq::<(InfoHash, TorrentStats)>::empty());
        assert(buf@ =~= head + files_body(es@.subrange(0, 0)));
    }
    while i < es.len()
        invariant
            i <= es@.len(),
            buf@ == head + files_body(es@.subrange(0, i as int)),
        decreases es@.len() - i,
    {
        let (h, s) = es[i];
        let ghost before = buf@;
        write_stats_entry(&mut buf, &h, &s);
        proof {
            let sub = es@.subrange(0, i + 1);
            assert(sub.drop_last() =~= es@.subrange(0, i as int));
            assert(sub.last() == es@[i as int]);
            assert(buf@ =~= head + files_body(sub));
        }
        i = i + 1;
    }
    buf.push(101);
    buf.push(101);
    proof {
        assert(es@.subrange(0, es@.len() as int) =~= es@);
        assert(buf@ =~= scrape_body(es@));
    }
    buf
}

/// The compact bytes of the IPv4 contacts, in order.
pub open spec fn compact_v4_of(ps: Seq<PeerContact>) -> Seq<u8>
    decreases ps.len(),
{
    if ps.len() == 0 {
        Seq::empty()
    } else {
        compact_v4_of(ps.drop_last()) + match ps.last().ip {
            PeerIp::V4(ip) => v4_bytes(Ipv4PeerKey { ip, port: ps.last().port }),
            PeerIp::V6(_) => Seq::empty(),
        }
    }
}

/// The compact bytes of the IPv6 contacts, in order.
pub open spec fn compact_v6_of(ps: Seq<PeerContact>) -> Seq<u8>
    decreases ps.len(),
{
    if ps.len() == 0 {
        Seq::empty()
    } else {
        compact_v6_of(ps.drop_last()) + match ps.last().ip {
            PeerIp::V6(ip) => v6_bytes(Ipv6PeerKey { ip, port: ps.last().port }),
            PeerIp::V4(_) => Seq::empty(),
        }
    }
}

/// The IPv4 contacts in compact form: six bytes each, IPv6 contacts skipped.
pub fn compact_peers(peers: &[PeerContact]) -> (r: Vec<u8>)
    ensures
        r@ == compact_v4_of(peers@),
{
    let mut out: Vec<u8> = Vec::new();
    let mut i: usize = 0;
    while i < peers.len()
        invariant
            i <= peers@.len(),
            out@ == compact_v4_of(peers@.subrange(0, i as int)),
        decreases peers@.len() - i,
    {
        let ghost before = out@;
        proof {
            let s = peers@.subrange(0, i + 1);
            assert(s.drop_last() =~= peers@.subrange(0, i as int));
            assert(s.last() == peers@[i as int]);
        }
        if let Some(b) = peers[i].compact_ipv4() {
            out.extend_from_slice(b.as_slice());
            assert(out@ =~= before + b@);
        }
        i = i + 1;
    }
    assert(peers@.subrange(0, i as int) =~= peers@);
    out
}

/// The IPv6 contacts in compact form: eighteen bytes each, IPv4 contacts skipped.
pub fn compact_peers6(peers: &[PeerContact]) -> (r: Vec<u8>)
    ensures
        r@ == compact_v6_of(peers@),
{
    let mut out: Vec<u8> = Vec::new();
    let mut i: usize = 0;
    while i < peers.len()
        invariant
            i <= peers@.len(),
            out@ == compact_v6_of(peers@.subrange(0, i as int)),
        decreases peers@.len() - i,
    {
        let ghost before = out@;
        proof {
            let s = peers@.subrange(0, i + 1);
            assert(s.drop_last() =~= peers@.subrange(0, i as int));
            assert(s.last() == peers@[i as int]);
        }
        if let Some(b) = peers[i].compact_ipv6() {
            out.extend_from_slice(b.as_slice());
            assert(out@ =~= before + b@);
        }
        i = i + 1;
    }
    assert(peers@.subrange(0, i as int) =~= peers@);
    out
}

} // verus!
