//! The info-hash blacklist: reading the list file, testing hashes against
//! it, and the admin token check that guards changes to it.
use vstd::prelude::*;
use crate::types::{hex_pair, is_hex_id, InfoHash};

verus! {

/// `c` is the UTF-8 encoding of a character that `char::is_whitespace`
/// accepts: U+0009 to U+000D, U+0020, U+0085, U+00A0, U+1680, U+2000 to
/// U+200A, U+2028, U+2029, U+202F, U+205F and U+3000.
pub open spec fn is_space_code(c: Seq<u8>) -> bool {
    ||| c.len() == 1 && (c[0] == 32 || (9 <= c[0] && c[0] <= 13))
    ||| c.len() == 2 && c[0] == 0xC2 && (c[1] == 0x85 || c[1] == 0xA0)
    ||| c.len() == 3 && c[0] == 0xE1 && c[1] == 0x9A && c[2] == 0x80
    ||| c.len() == 3 && c[0] == 0xE2 && c[1] == 0x80 && ((0x80 <= c[2] && c[2] <= 0x8A) || c[2] == 0xA8 || c[2]
        == 0xA9 || c[2] == 0xAF)
    ||| c.len() == 3 && c[0] == 0xE2 && c[1] == 0x81 && c[2] == 0x9F
    ||| c.len() == 3 && c[0] == 0xE3 && c[1] == 0x80 && c[2] == 0x80
}

/// The length of the whitespace character that `t` starts with, or 0.
pub open spec fn lead_space(t: Seq<u8>) -> nat {
    if t.len() >= 1 && is_space_code(t.subrange(0, 1)) {
        1
    } else if t.len() >= 2 && is_space_code(t.subrange(0, 2)) {
        2
    } else if t.len() >= 3 && is_space_code(t.subrange(0, 3)) {
        3
    } else {
        0
    }
}

/// The length of the whitespace character that `t` ends with, or 0.
pub open spec fn trail_space(t: Seq<u8>) -> nat {
    if t.len() >= 1 && is_space_code(t.subrange(t.len() - 1, t.len() as int)) {
        1
    } else if t.len() >= 2 && is_space_code(t.subrange(t.len() - 2, t.len() as int)) {
        2
    } else if t.len() >= 3 && is_space_code(t.subrange(t.len() - 3, t.len() as int)) {
        3
    } else {
        0
    }
}

/// `t` without its leading whitespace characters.
pub open spec fn trim_start(t: Seq<u8>) -> Seq<u8>
    decreases t.len(),
{
    if lead_space(t) > 0 {
        trim_start(t.subrange(lead_space(t) as int, t.len() as int))
    } else {
        t
    }
}

/// `t` without its trailing whitespace characters.
pub open spec fn trim_end(t: Seq<u8>) -> Seq<u8>
    decreases t.len(),
{
    if trail_space(t) > 0 {
        trim_end(t.subrange(0, t.len() - trail_space(t)))
    } else {
        t
    }
}

/// `t` without its leading and trailing whitespace characters.
pub open spec fn trimmed(t: Seq<u8>) -> Seq<u8> {
    trim_end(trim_start(t))
}

/// `s[a..b]` is a line: bounded by line feeds or the ends of the text.
pub open spec fn is_line(s: Seq<u8>, a: int, b: int) -> bool {
    &&& 0 <= a <= b <= s.len()
    &&& (a == 0 || s[a - 1] == 10)
    &&& (b == s.len() || s[b] == 10)
    &&& forall|k: int| a <= k < b ==> s[k] != 10
}

/// The hash a trimmed line names: forty hex digits, not a comment.
pub open spec fn line_hash(t: Seq<u8>) -> Option<Seq<u8>> {
    if t.len() > 0 && t[0] != 35 && is_hex_id(t) {
        Some(Seq::new(20, |i: int| hex_pair(t, i)))
    } else {
        None
    }
}

/// The hash of line `s[a..b]`, once trimmed.
pub open spec fn hash_of_line(s: Seq<u8>, a: int, b: int, h: Seq<u8>) -> bool {
    line_hash(trimmed(s.subrange(a, b))) == Some(h)
}

/// Some line of `s` names the hash `h`.
pub open spec fn named_in(s: Seq<u8>, h: Seq<u8>) -> bool {
    exists|a: int, b: int| is_line(s, a, b) && #[trigger] hash_of_line(s, a, b, h)
}

/// The length of the whitespace character that `s[c..b]` starts with, or 0.
fn lead_space_len(s: &[u8], c: usize, b: usize) -> (k: usize)
    requires
        c <= b <= s@.len(),
    ensures
        k == lead_space(s@.subrange(c as int, b as int)),
{
    let ghost t = s@.subrange(c as int, b as int);
    if c < b && (s[c] == 32 || (9 <= s[c] && s[c] <= 13)) {
        assert(t.subrange(0, 1) =~= seq![s@[c as int]]);
        return 1;
    }
    proof {
        if t.len() >= 1 {
            assert(t.subrange(0, 1) =~= seq![s@[c as int]]);
        }
    }
    if b - c >= 2 && s[c] == 0xC2 && (s[c + 1] == 0x85 || s[c + 1] == 0xA0) {
        assert(t.subrange(0, 2) =~= seq![s@[c as int], s@[c + 1]]);
        return 2;
    }
    proof {
        if t.len() >= 2 {
            assert(t.subrange(0, 2) =~= seq![s@[c as int], s@[c + 1]]);
        }
    }
    if b - c >= 3 {
        let (x, y, z) = (s[c], s[c + 1], s[c + 2]);
        assert(t.subrange(0, 3) =~= seq![x, y, z]);
        if (x == 0xE1 && y == 0x9A && z == 0x80) || (x == 0xE2 && y == 0x80 && ((0x80 <= z && z <= 0x8A) || z
            == 0xA8 || z == 0xA9 || z == 0xAF)) || (x == 0xE2 && y == 0x81 && z == 0x9F) || (x == 0xE3 && y == 0x80
            && z == 0x80) {
            return 3;
        }
    }
    0
}

/// The length of the whitespace character that `s[c..d]` ends with, or 0.
fn trail_space_len(s: &[u8], c: usize, d: usize) -> (k: usize)
    requires
        c <= d <= s@.len(),
    ensures
        k == trail_space(s@.subrange(c as int, d as int)),
{
    let ghost t = s@.subrange(c as int, d as int);
    if c < d && (s[d - 1] == 32 || (9 <= s[d - 1] && s[d - 1] <= 13)) {
        assert(t.subrange(t.len() - 1, t.len() as int) =~= seq![s@[d - 1]]);
        return 1;
    }
    proof {
        if t.len() >= 1 {
            assert(t.subrange(t.len() - 1, t.len() as int) =~= seq![s@[d - 1]]);
        }
    }
    if d - c >= 2 && s[d - 2] == 0xC2 && (s[d - 1] == 0x85 || s[d - 1] == 0xA0) {
        assert(t.subrange(t.len() - 2, t.len() as int) =~= seq![s@[d - 2], s@[d - 1]]);
        return 2;
    }
    proof {
        if t.len() >= 2 {
            assert(t.subrange(t.len() - 2, t.len() as int) =~= seq![s@[d - 2], s@[d - 1]]);
        }
    }
    if d - c >= 3 {
        let (x, y, z) = (s[d - 3], s[d - 2], s[d - 1]);
        assert(t.subrange(t.len() - 3, t.len() as int) =~= seq![x, y, z]);
        if (x == 0xE1 && y == 0x9A && z == 0x80) || (x == 0xE2 && y == 0x80 && ((0x80 <= z && z <= 0x8A) || z
            == 0xA8 || z == 0xA9 || z == 0xAF)) || (x == 0xE2 && y == 0x81 && z == 0x9F) || (x == 0xE3 && y == 0x80
            && z == 0x80) {
            return 3;
        }
    }
    0
}

/// The bounds of `s[a..b]` once trimmed.
fn trim_range(s: &[u8], a: usize, b: usize) -> (r: (usize, usize))
    requires
        a <= b <= s@.len(),
    ensures
        a <= r.0 <= r.1 <= b,
        s@.subrange(r.0 as int, r.1 as int) == trimmed(s@.subrange(a as int, b as int)),
{
    let mut c = a;
    let mut k = lead_space_len(s, c, b);
    while k > 0
        invariant
            a <= c <= b,
            b <= s@.len(),
            k == lead_space(s@.subrange(c as int, b as int)),
            trim_start(s@.subrange(a as int, b as int)) == trim_start(s@.subrange(c as int, b as int)),
        decreases b - c,
    {
        proof {
            assert(s@.subrange(c as int, b as int).subrange(k as int, b - c) =~= s@.subrange(c + k, b as int));
        }
        c = c + k;
        k = lead_space_len(s, c, b);
    }
    let mut d = b;
    let mut k = trail_space_len(s, c, d);
    while k > 0
        invariant
            c <= d <= b,
            b <= s@.len(),
            k == trail_space(s@.subrange(c as int, d as int)),
            trim_end(s@.subrange(c as int, b as int)) == trim_end(s@.subrange(c as int, d as int)),
        decreases d - c,
    {
        proof {
            assert(s@.subrange(c as int, d as int).subrange(0, d - c - k) =~= s@.subrange(c as int, d - k));
        }
        d = d - k;
        k = trail_space_len(s, c, d);
    }
    (c, d)
}

/// Whether `h` is in `list`.
pub fn contains_hash(list: &[InfoHash], h: &InfoHash) -> (r: bool)
    ensures
        r == list@.contains(*h),
{
    let mut i: usize = 0;
    while i < list.len()
        invariant
            i <= list@.len(),
            forall|j: int| 0 <= j < i ==> list@[j] != *h,
        decreases list@.len() - i,
    {
        if crate::announce::bytes_equal(list[i].0.as_slice(), h.0.as_slice()) {
            proof {
                crate::tracker::lemma_hash_bytes(list@[i as int], *h);
            }
            return true;
        }
        i = i + 1;
    }
    false
}

/// Adds the hash that line `s[a..b]` names, if any and not yet listed.
fn take_line(s: &[u8], a: usize, b: usize, out: &mut Vec<InfoHash>)
    requires
        is_line(s@, a as int, b as int),
        forall|x: int, y: int| 0 <= x < y < old(out)@.len() ==> #[trigger] old(out)@[x] != #[trigger] old(out)@[y],
    ensures
        forall|x: int, y: int| 0 <= x < y < final(out)@.len() ==> #[trigger] final(out)@[x] != #[trigger] final(out)@[y],
        final(out)@ == old(out)@ || (final(out)@.len() == old(out)@.len() + 1 && final(out)@.drop_last() == old(out)@
            && hash_of_line(s@, a as int, b as int, final(out)@.last().0@)),
        forall|h: Seq<u8>|
            #[trigger] hash_of_line(s@, a as int, b as int, h) ==> exists|x: int|
                0 <= x < final(out)@.len() && #[trigger] final(out)@[x].0@ == h,
{
    let (c, d) = trim_range(s, a, b);
    let ghost t = s@.subrange(c as int, d as int);
    let ghost before = out@;
    if c < d && s[c] != 35 {
        let line = crate::query::copy_range(s, c, d);
        match InfoHash::from_hex_bytes(line.as_slice()) {
            Some(h) => {
                proof {
                    assert(line@ == t);
                    assert(t[0] == s@[c as int]);
                    assert(h.0@ =~= Seq::new(20, |k: int| hex_pair(line@, k)));
                    assert(hash_of_line(s@, a as int, b as int, h.0@));
                }
                if !contains_hash(out.as_slice(), &h) {
                    out.push(h);
                    proof {
                        assert forall|x: int, y: int| 0 <= x < y < out@.len() implies #[trigger] out@[x]
                            != #[trigger] out@[y] by {
                            if y == out@.len() - 1 {
                                assert(out@[x] == before[x]);
                            }
                        }
                        assert(out@.drop_last() =~= before);
                        assert(out@[out@.len() - 1] == h);
                        assert(out@.contains(h));
                    }
                } else {
                    assert(out@.contains(h));
                }
                proof {
                    assert forall|g: Seq<u8>| #[trigger] hash_of_line(s@, a as int, b as int, g) implies exists|x: int|
                        0 <= x < out@.len() && #[trigger] out@[x].0@ == g by {
                        assert(g == h.0@);
                        let x = choose|x: int| 0 <= x < out@.len() && out@[x] == h;
                        assert(out@[x].0@ == g);
                    }
                }
            },
            None => {
                proof {
                    assert(line@ == t);
                }
            },
        }
    } else {
        proof {
            if c < d {
                assert(t[0] == s@[c as int]);
            }
        }
    }
}

/// The hashes of a blacklist file: each line holding forty hexadecimal
/// digits, once trimmed, names a hash; blank lines, `#` comments and other
/// lines are skipped. Each hash is listed once.
pub fn parse_blacklist(content: &[u8]) -> (r: Vec<InfoHash>)
    ensures
        forall|x: int, y: int| 0 <= x < y < r@.len() ==> #[trigger] r@[x] != #[trigger] r@[y],
        forall|x: int| 0 <= x < r@.len() ==> named_in(content@, (#[trigger] r@[x]).0@),
        forall|a: int, b: int, h: Seq<u8>|
            is_line(content@, a, b) && #[trigger] hash_of_line(content@, a, b, h) ==> exists|x: int|
                0 <= x < r@.len() && #[trigger] r@[x].0@ == h,
{
    let mut out: Vec<InfoHash> = Vec::new();
    let mut start: usize = 0;
    let mut i: usize = 0;
    let n = content.len();
    while i < n
        invariant
            n == content@.len(),
            start <= i <= n,
            start == 0 || content@[start - 1] == 10,
            forall|k: int| start <= k < i ==> content@[k] != 10,
            forall|x: int, y: int| 0 <= x < y < out@.len() ==> #[trigger] out@[x] != #[trigger] out@[y],
            forall|x: int| 0 <= x < out@.len() ==> named_in(content@, (#[trigger] out@[x]).0@),
            forall|a: int, b: int, h: Seq<u8>|
                is_line(content@, a, b) && b < start && #[trigger] hash_of_line(content@, a, b, h) ==> exists|x: int|
                    0 <= x < out@.len() && #[trigger] out@[x].0@ == h,
        decreases n - i,
    {
        if content[i] == 10 {
            let ghost before = out@;
            proof {
                assert(is_line(content@, start as int, i as int));
            }
            take_line(content, start, i, &mut out);
            proof {
                lemma_take_line_keeps(content@, start as int, i as int, before, out@);
            }
            start = i + 1;
        }
        i = i + 1;
    }
    let ghost before = out@;
    proof {
        assert(is_line(content@, start as int, n as int));
    }
    take_line(content, start, n, &mut out);
    proof {
        lemma_take_line_keeps(content@, start as int, n as int, before, out@);
    }
    out
}

/// What a line adds keeps the earlier facts and covers the line.
proof fn lemma_take_line_keeps(s: Seq<u8>, a: int, b: int, before: Seq<InfoHash>, after: Seq<InfoHash>)
    requires
        is_line(s, a, b),
        forall|x: int| 0 <= x < before.len() ==> named_in(s, (#[trigger] before[x]).0@),
        forall|a2: int, b2: int, h: Seq<u8>|
            is_line(s, a2, b2) && b2 < a && #[trigger] hash_of_line(s, a2, b2, h) ==> exists|x: int|
                0 <= x < before.len() && #[trigger] before[x].0@ == h,
        after == before || (after.len() == before.len() + 1 && after.drop_last() == before && hash_of_line(
            s,
            a,
            b,
            after.last().0@,
        )),
        forall|h: Seq<u8>| #[trigger] hash_of_line(s, a, b, h) ==> exists|x: int| 0 <= x < after.len() && #[trigger] after[x].0@ == h,
    ensures
        forall|x: int| 0 <= x < after.len() ==> named_in(s, (#[trigger] after[x]).0@),
        forall|a2: int, b2: int, h: Seq<u8>|
            is_line(s, a2, b2) && b2 < b + 1 && #[trigger] hash_of_line(s, a2, b2, h) ==> exists|x: int|
                0 <= x < after.len() && #[trigger] after[x].0@ == h,
{
    assert forall|x: int| 0 <= x < after.len() implies named_in(s, (#[trigger] after[x]).0@) by {
        if x < before.len() {
            assert(after[x] == before[x]);
        } else {
            assert(after[x] == after.last());
        }
    }
    assert forall|a2: int, b2: int, h: Seq<u8>|
        is_line(s, a2, b2) && b2 < b + 1 && #[trigger] hash_of_line(s, a2, b2, h) implies exists|x: int|
            0 <= x < after.len() && #[trigger] after[x].0@ == h by {
        if b2 < a {
            let x = choose|x: int| 0 <= x < before.len() && #[trigger] before[x].0@ == h;
            assert(after[x] == before[x]);
        } else {
            lemma_line_bounds(s, a2, b2, a, b);
        }
    }
}

/// Two lines that overlap are the same line.
proof fn lemma_line_bounds(s: Seq<u8>, a: int, b: int, start: int, i: int)
    requires
        is_line(s, a, b),
        is_line(s, start, i),
        start <= b,
        b <= i,
    ensures
        a == start,
        b == i,
{
    if a < start {
        assert(s[start - 1] == 10);
    }
    if start < a {
        assert(s[a - 1] == 10);
    }
    if b < i {
        assert(s[b] == 10);
    }
}

/// The requested hashes that are not blacklisted, in order.
pub fn filter_allowed(blacklist: &[InfoHash], info_hashes: &[InfoHash]) -> (r: Vec<InfoHash>)
    ensures
        r@ == info_hashes@.filter(|h: InfoHash| !blacklist@.contains(h)),
{
    let mut out: Vec<InfoHash> = Vec::new();
    let mut i: usize = 0;
    while i < info_hashes.len()
        invariant
            i <= info_hashes@.len(),
            out@ == info_hashes@.subrange(0, i as int).filter(|h: InfoHash| !blacklist@.contains(h)),
        decreases info_hashes@.len() - i,
    {
        let h = info_hashes[i];
        proof {
            let s = info_hashes@.subrange(0, i + 1);
            assert(s.drop_last() =~= info_hashes@.subrange(0, i as int));
            reveal(Seq::filter);
        }
        if !contains_hash(blacklist, &h) {
            out.push(h);
        }
        i = i + 1;
    }
    assert(info_hashes@.subrange(0, i as int) =~= info_hashes@);
    out
}

/// `Bearer ` followed by the token.
pub open spec fn bearer(token: Seq<u8>) -> Seq<u8> {
    seq![66u8, 101, 97, 114, 101, 114, 32] + token
}

/// Whether an `Authorization` header value carries the admin token.
pub fn is_authorized(header: Option<&[u8]>, token: &[u8]) -> (r: bool)
    ensures
        r == match header {
            Some(v) => v@ == bearer(token@),
            None => false,
        },
{
    match header {
        Some(v) => {
            let mut expected: Vec<u8> = Vec::new();
            expected.push(66);
            expected.push(101);
            expected.push(97);
            expected.push(114);
            expected.push(101);
            expected.push(114);
            expected.push(32);
            let mut i: usize = 0;
            while i < token.len()
                invariant
                    i <= token@.len(),
                    expected@ == bearer(token@.subrange(0, i as int)),
                decreases token@.len() - i,
            {
                expected.push(token[i]);
                assert(expected@ =~= bearer(token@.subrange(0, i + 1)));
                i = i + 1;
            }
            assert(token@.subrange(0, i as int) =~= token@);
            crate::announce::bytes_equal(v, expected.as_slice())
        },
        None => false,
    }
}

/// Why an admin request is refused.
#[derive(Clone, Copy, Debug, PartialEq, Eq, Structural)]
pub enum AdminRefusal {
    /// No admin token is set up.
    NotConfigured,
    /// The request does not carry the token.
    Unauthorized,
    /// The change needs a blacklist file and none is set up.
    NoBlacklistFile,
    /// The named hash is not forty hexadecimal digits once trimmed.
    BadInfoHash,
}

/// The outcome of an admin request naming the hash `text`: refused when no
/// (non-empty) token is set up, then when the `Authorization` header does
/// not carry it, then, for a change (`needs_file`) without a blacklist file,
/// then when the trimmed text is not forty hexadecimal digits; otherwise the
/// hash.
pub open spec fn admin_outcome(
    token: Option<Seq<u8>>,
    header: Option<Seq<u8>>,
    needs_file: bool,
    has_file: bool,
    text: Seq<u8>,
) -> Result<Seq<u8>, AdminRefusal> {
    match token {
        Some(t) if t.len() > 0 => if !(header matches Some(v) && v == bearer(t)) {
            Err(AdminRefusal::Unauthorized)
        } else if needs_file && !has_file {
            Err(AdminRefusal::NoBlacklistFile)
        } else if is_hex_id(trimmed(text)) {
            Ok(Seq::new(20, |i: int| hex_pair(trimmed(text), i)))
        } else {
            Err(AdminRefusal::BadInfoHash)
        },
        _ => Err(AdminRefusal::NotConfigured),
    }
}

/// Decides an admin request naming the hash `text`, as [`admin_outcome`]
/// says.
pub fn admin_request(token: Option<&[u8]>, header: Option<&[u8]>, needs_file: bool, has_file: bool, text: &[u8]) -> (r:
    Result<InfoHash, AdminRefusal>)
    ensures
        match admin_outcome(
            match token {
                Some(t) => Some(t@),
                None => None,
            },
            match header {
                Some(v) => Some(v@),
                None => None,
            },
            needs_file,
            has_file,
            text@,
        ) {
            Ok(b) => r matches Ok(h) && h.0@ == b,
            Err(e) => r == Err::<InfoHash, AdminRefusal>(e),
        },
{
    let t = match token {
        Some(t) => t,
        None => {
            return Err(AdminRefusal::NotConfigured);
        },
    };
    if t.len() == 0 {
        return Err(AdminRefusal::NotConfigured);
    }
    if !is_authorized(header, t) {
        return Err(AdminRefusal::Unauthorized);
    }
    if needs_file && !has_file {
        return Err(AdminRefusal::NoBlacklistFile);
    }
    let (c, d) = trim_range(text, 0, text.len());
    assert(text@.subrange(0, text@.len() as int) =~= text@);
    let line = crate::query::copy_range(text, c, d);
    match InfoHash::from_hex_bytes(line.as_slice()) {
        Some(h) => {
            assert(h.0@ =~= Seq::new(20, |i: int| hex_pair(trimmed(text@), i)));
            Ok(h)
        },
        None => Err(AdminRefusal::BadInfoHash),
    }
}

} // verus!
