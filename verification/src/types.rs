//! Identifiers, peer keys and per-peer state shared by the tracker.
use vstd::prelude::*;
use vstd::string::StringSliceAdditionalSpecFns;

verus! {

/// Length in bytes of an info hash and of a peer id.
pub const ID_LEN: usize = 20;

/// The 20-byte SHA-1 identifier of a torrent.
#[derive(Clone, Copy, Debug, PartialEq, Eq, Hash, PartialOrd, Ord)]
pub struct InfoHash(pub [u8; 20]);

/// The 20-byte identifier a peer chooses for itself.
#[derive(Clone, Copy, Debug, PartialEq, Eq, Hash, PartialOrd, Ord)]
pub struct PeerId(pub [u8; 20]);

/// The `event` parameter of an announce.
#[derive(Clone, Copy, Debug, PartialEq, Eq, Structural)]
pub enum AnnounceEvent {
    Started,
    Completed,
    Stopped,
    Empty,
}

/// An IPv4 peer endpoint: four address octets and a port.
#[derive(Clone, Copy, Debug, PartialEq, Eq, Hash, PartialOrd, Ord)]
pub struct Ipv4PeerKey {
    pub ip: [u8; 4],
    pub port: u16,
}

/// An IPv6 peer endpoint: sixteen address octets and a port.
#[derive(Clone, Copy, Debug, PartialEq, Eq, Hash, PartialOrd, Ord)]
pub struct Ipv6PeerKey {
    pub ip: [u8; 16],
    pub port: u16,
}

/// What the tracker remembers of one peer.
#[derive(Clone, Copy, Debug, PartialEq, Eq, Structural)]
pub struct PeerState {
    pub complete: bool,
    pub last_seen_secs: u32,
    pub client_tag: u8,
}

/// Scrape statistics of one torrent.
#[derive(Clone, Copy, Debug, PartialEq, Eq, Structural)]
pub struct TorrentStats {
    pub complete: usize,
    pub downloaded: u32,
    pub incomplete: usize,
}

/// An IP address of either family, by its octets.
#[derive(Clone, Copy, Debug, PartialEq, Eq, Hash)]
pub enum PeerIp {
    V4([u8; 4]),
    V6([u8; 16]),
}

/// A peer address as handed to clients.
#[derive(Clone, Copy, Debug, PartialEq, Eq)]
pub struct PeerContact {
    pub ip: PeerIp,
    pub port: u16,
}

impl Default for TorrentStats {
    fn default() -> (r: Self)
        ensures
            r == (TorrentStats { complete: 0, downloaded: 0, incomplete: 0 }),
    {
        TorrentStats { complete: 0, downloaded: 0, incomplete: 0 }
    }
}

// ── Hexadecimal text ─────────────────────────────────────────────────────────

/// The value of one hexadecimal digit, in either case.
pub open spec fn hex_digit(b: u8) -> Option<u8> {
    if 48 <= b <= 57 {
        Some((b - 48) as u8)
    } else if 97 <= b <= 102 {
        Some((b - 87) as u8)
    } else if 65 <= b <= 70 {
        Some((b - 55) as u8)
    } else {
        None
    }
}

/// `s` is exactly forty hexadecimal digits.
pub open spec fn is_hex_id(s: Seq<u8>) -> bool {
    &&& s.len() == 40
    &&& forall|i: int| 0 <= i < 40 ==> (#[trigger] hex_digit(s[i])) is Some
}

/// The byte that the digit pair starting at `2 * i` denotes.
pub open spec fn hex_pair(s: Seq<u8>, i: int) -> u8 {
    (hex_digit(s[2 * i]).unwrap() * 16 + hex_digit(s[2 * i + 1]).unwrap()) as u8
}

/// The lowercase hexadecimal digit for a value below sixteen.
pub open spec fn lower_hex_digit(v: u8) -> u8 {
    if v < 10 {
        (v + 48) as u8
    } else {
        (v + 87) as u8
    }
}

/// Lowercase hexadecimal text of a byte sequence, two digits per byte.
pub open spec fn lower_hex(bytes: Seq<u8>) -> Seq<u8>
    decreases bytes.len(),
{
    if bytes.len() == 0 {
        Seq::empty()
    } else {
        lower_hex(bytes.drop_last()) + seq![
            lower_hex_digit(bytes.last() / 16),
            lower_hex_digit(bytes.last() % 16),
        ]
    }
}

fn hex_val(byte: u8) -> (r: Option<u8>)
    ensures
        r == hex_digit(byte),
{
    if 48 <= byte && byte <= 57 {
        Some(byte - 48)
    } else if 97 <= byte && byte <= 102 {
        Some(byte - 87)
    } else if 65 <= byte && byte <= 70 {
        Some(byte - 55)
    } else {
        None
    }
}

fn hex_byte(hi: u8, lo: u8) -> (r: Option<u8>)
    ensures
        r is Some <==> (hex_digit(hi) is Some && hex_digit(lo) is Some),
        r is Some ==> r->0 == hex_digit(hi).unwrap() * 16 + hex_digit(lo).unwrap(),
{
    let h = hex_val(hi)?;
    let l = hex_val(lo)?;
    Some(h * 16 + l)
}

fn hex_char(v: u8) -> (r: u8)
    requires
        v < 16,
    ensures
        r == lower_hex_digit(v),
{
    if v < 10 {
        v + 48
    } else {
        v + 87
    }
}

impl InfoHash {
    pub fn new(bytes: [u8; 20]) -> (r: Self)
        ensures
            r.0 == bytes,
    {
        InfoHash(bytes)
    }

    pub fn as_bytes(&self) -> (r: &[u8; 20])
        ensures
            *r == self.0,
    {
        &self.0
    }

    /// Parses forty hexadecimal digits, in either case, into an info hash.
    pub fn from_hex(hex: &str) -> (r: Option<Self>)
        ensures
            r is Some <==> is_hex_id(hex.spec_bytes()),
            r matches Some(h) ==> forall|i: int|
                0 <= i < 20 ==> h.0@[i] == hex_pair(hex.spec_bytes(), i),
    {
        Self::from_hex_bytes(hex.as_bytes())
    }

    /// Parses forty hexadecimal digits, in either case, into an info hash.
    pub fn from_hex_bytes(text: &[u8]) -> (r: Option<Self>)
        ensures
            r is Some <==> is_hex_id(text@),
            r matches Some(h) ==> forall|i: int| 0 <= i < 20 ==> h.0@[i] == hex_pair(text@, i),
    {
        if text.len() != 40 {
            return None;
        }
        let mut bytes = [0u8; 20];
        let mut i: usize = 0;
        while i < 20
            invariant
                text@.len() == 40,
                i <= 20,
                forall|j: int| 0 <= j < 2 * i ==> (#[trigger] hex_digit(text@[j])) is Some,
                forall|j: int| 0 <= j < i ==> bytes@[j] == hex_pair(text@, j),
            decreases 20 - i,
        {
            match hex_byte(text[2 * i], text[2 * i + 1]) {
                Some(b) => {
                    bytes[i] = b;
                },
                None => {
                    proof {
                        if hex_digit(text@[2 * i as int]) is Some {
                            assert(hex_digit(text@[2 * i + 1]) is None);
                        }
                    }
                    return None;
                },
            }
            i = i + 1;
        }
        Some(InfoHash(bytes))
    }

    /// Lowercase hexadecimal text of the hash (forty characters).
    pub fn to_hex(&self) -> (r: Vec<u8>)
        ensures
            r@ == lower_hex(self.0@),
    {
        let mut out: Vec<u8> = Vec::new();
        let mut i: usize = 0;
        while i < 20
            invariant
                i <= 20,
                out@ == lower_hex(self.0@.subrange(0, i as int)),
            decreases 20 - i,
        {
            let b = self.0[i];
            out.push(hex_char(b / 16));
            out.push(hex_char(b % 16));
            proof {
                let s = self.0@.subrange(0, i + 1);
                assert(s.drop_last() =~= self.0@.subrange(0, i as int));
            }
            i = i + 1;
        }
        proof {
            assert(self.0@.subrange(0, 20) =~= self.0@);
        }
        out
    }
}

impl PeerId {
    pub fn new(bytes: [u8; 20]) -> (r: Self)
        ensures
            r.0 == bytes,
    {
        PeerId(bytes)
    }

    pub fn as_bytes(&self) -> (r: &[u8; 20])
        ensures
            *r == self.0,
    {
        &self.0
    }
}

impl PeerState {
    pub fn is_complete(&self) -> (r: bool)
        ensures
            r == self.complete,
    {
        self.complete
    }
}

// ── Peer keys and their compact bytes ──────────────────────────────────────

/// The two big-endian bytes of a port.
pub open spec fn port_bytes(port: u16) -> Seq<u8> {
    seq![(port >> 8u16) as u8, port as u8]
}

/// The compact form of an IPv4 endpoint: four address bytes, then the port.
/// Comparing these bytes lexicographically orders keys as their derived `Ord` does.
pub open spec fn v4_bytes(k: Ipv4PeerKey) -> Seq<u8> {
    k.ip@ + port_bytes(k.port)
}

/// The compact form of an IPv6 endpoint: sixteen address bytes, then the port.
pub open spec fn v6_bytes(k: Ipv6PeerKey) -> Seq<u8> {
    k.ip@ + port_bytes(k.port)
}

/// The port whose big-endian bytes are `hi`, `lo`.
pub open spec fn be16(hi: u8, lo: u8) -> u16 {
    ((hi as u16) << 8u16) | (lo as u16)
}

pub proof fn lemma_port_bytes_roundtrip(port: u16)
    ensures
        be16(port_bytes(port)[0], port_bytes(port)[1]) == port,
        port_bytes(be16((port >> 8u16) as u8, port as u8)) == port_bytes(port),
{
    let hi = (port >> 8u16) as u8;
    let lo = port as u8;
    assert((((hi as u16) << 8u16) | (lo as u16)) == port) by (bit_vector)
        requires
            hi == (port >> 8u16) as u8,
            lo == port as u8,
    ;
}

pub proof fn lemma_be16_bytes(hi: u8, lo: u8)
    ensures
        port_bytes(be16(hi, lo)) == seq![hi, lo],
{
    let p = be16(hi, lo);
    assert((p >> 8u16) as u8 == hi && p as u8 == lo) by (bit_vector)
        requires
            p == ((hi as u16) << 8u16) | (lo as u16),
    ;
    assert(port_bytes(p) =~= seq![hi, lo]);
}

/// Equal compact bytes mean equal IPv4 keys.
pub proof fn lemma_v4_bytes_injective(a: Ipv4PeerKey, b: Ipv4PeerKey)
    requires
        v4_bytes(a) == v4_bytes(b),
    ensures
        a == b,
{
    assert(a.ip@ =~= v4_bytes(a).subrange(0, 4));
    assert(b.ip@ =~= v4_bytes(b).subrange(0, 4));
    assert(a.ip =~= b.ip);
    lemma_port_bytes_roundtrip(a.port);
    lemma_port_bytes_roundtrip(b.port);
    assert(port_bytes(a.port) =~= v4_bytes(a).subrange(4, 6));
    assert(port_bytes(b.port) =~= v4_bytes(b).subrange(4, 6));
}

/// Equal compact bytes mean equal IPv6 keys.
pub proof fn lemma_v6_bytes_injective(a: Ipv6PeerKey, b: Ipv6PeerKey)
    requires
        v6_bytes(a) == v6_bytes(b),
    ensures
        a == b,
{
    assert(a.ip@ =~= v6_bytes(a).subrange(0, 16));
    assert(b.ip@ =~= v6_bytes(b).subrange(0, 16));
    assert(a.ip =~= b.ip);
    lemma_port_bytes_roundtrip(a.port);
    lemma_port_bytes_roundtrip(b.port);
    assert(port_bytes(a.port) =~= v6_bytes(a).subrange(16, 18));
    assert(port_bytes(b.port) =~= v6_bytes(b).subrange(16, 18));
}

impl Ipv4PeerKey {
    /// The key of address octets `ip` and `port`.
    pub fn new(ip: [u8; 4], port: u16) -> (r: Self)
        ensures
            r.ip == ip,
            r.port == port,
    {
        Ipv4PeerKey { ip, port }
    }

    pub fn contact(self) -> (r: PeerContact)
        ensures
            r == (PeerContact { ip: PeerIp::V4(self.ip), port: self.port }),
    {
        PeerContact { ip: PeerIp::V4(self.ip), port: self.port }
    }

    /// The six compact bytes: address, then big-endian port.
    pub fn compact(self) -> (r: [u8; 6])
        ensures
            r@ == v4_bytes(self),
    {
        let out: [u8; 6] = [
            self.ip[0],
            self.ip[1],
            self.ip[2],
            self.ip[3],
            (self.port >> 8) as u8,
            self.port as u8,
        ];
        assert(out@ =~= v4_bytes(self));
        out
    }

    /// Whether two keys are equal.
    pub fn same(&self, other: &Self) -> (r: bool)
        ensures
            r == (*self == *other),
    {
        let r = self.ip[0] == other.ip[0] && self.ip[1] == other.ip[1] && self.ip[2] == other.ip[2]
            && self.ip[3] == other.ip[3] && self.port == other.port;
        proof {
            if r {
                assert(self.ip =~= other.ip);
            }
        }
        r
    }
}

impl Ipv6PeerKey {
    /// The key of address octets `ip` and `port`.
    pub fn new(ip: [u8; 16], port: u16) -> (r: Self)
        ensures
            r.ip == ip,
            r.port == port,
    {
        Ipv6PeerKey { ip, port }
    }

    pub fn contact(self) -> (r: PeerContact)
        ensures
            r == (PeerContact { ip: PeerIp::V6(self.ip), port: self.port }),
    {
        PeerContact { ip: PeerIp::V6(self.ip), port: self.port }
    }

    /// The eighteen compact bytes: address, then big-endian port.
    pub fn compact(self) -> (r: [u8; 18])
        ensures
            r@ == v6_bytes(self),
    {
        let mut out = [0u8; 18];
        let mut i: usize = 0;
        while i < 16
            invariant
                i <= 16,
                forall|j: int| 0 <= j < i ==> out@[j] == self.ip@[j],
            decreases 16 - i,
        {
            out[i] = self.ip[i];
            i = i + 1;
        }
        out[16] = (self.port >> 8) as u8;
        out[17] = self.port as u8;
        assert(out@ =~= v6_bytes(self));
        out
    }

    /// Whether two keys are equal.
    pub fn same(&self, other: &Self) -> (r: bool)
        ensures
            r == (*self == *other),
    {
        let mut i: usize = 0;
        while i < 16
            invariant
                i <= 16,
                forall|j: int| 0 <= j < i ==> self.ip@[j] == other.ip@[j],
            decreases 16 - i,
        {
            if self.ip[i] != other.ip[i] {
                return false;
            }
            i = i + 1;
        }
        assert(self.ip =~= other.ip);
        self.port == other.port
    }
}

/// Compact bytes of a contact of the given family, if it is of that family.
impl PeerContact {
    /// The six compact bytes of an IPv4 contact; `None` for IPv6.
    pub fn compact_ipv4(&self) -> (r: Option<[u8; 6]>)
        ensures
            match self.ip {
                PeerIp::V4(ip) => r matches Some(b) && b@ == v4_bytes(
                    Ipv4PeerKey { ip, port: self.port },
                ),
                PeerIp::V6(_) => r is None,
            },
    {
        match self.ip {
            PeerIp::V4(ip) => Some(Ipv4PeerKey::new(ip, self.port).compact()),
            PeerIp::V6(_) => None,
        }
    }

    /// The eighteen compact bytes of an IPv6 contact; `None` for IPv4.
    pub fn compact_ipv6(&self) -> (r: Option<[u8; 18]>)
        ensures
            match self.ip {
                PeerIp::V6(ip) => r matches Some(b) && b@ == v6_bytes(
                    Ipv6PeerKey { ip, port: self.port },
                ),
                PeerIp::V4(_) => r is None,
            },
    {
        match self.ip {
            PeerIp::V6(ip) => Some(Ipv6PeerKey::new(ip, self.port).compact()),
            PeerIp::V4(_) => None,
        }
    }

    /// A contact at 127.0.0.1 with the given port.
    pub fn localhost(_peer_id: PeerId, port: u16) -> (r: Self)
        ensures
            r.ip == PeerIp::V4([127u8, 0u8, 0u8, 1u8]),
            r.port == port,
    {
        PeerContact { ip: PeerIp::V4([127, 0, 0, 1]), port }
    }
}

} // verus!
