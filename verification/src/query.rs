//! Query-string pieces: `&`-separated pairs split at their first `=`,
//! unsigned decimal numbers, and percent-decoding.
use vstd::prelude::*;
use crate::types::hex_digit;

verus! {

/// The position of the last `&` in `s`, or -1.
pub open spec fn last_amp(s: Seq<u8>) -> int
    decreases s.len(),
{
    if s.len() == 0 {
        -1
    } else if s.last() == 38 {
        s.len() - 1
    } else {
        last_amp(s.drop_last())
    }
}

/// The position of the first `=` in `s`, or -1.
pub open spec fn eq_pos(s: Seq<u8>) -> int
    decreases s.len(),
{
    if s.len() == 0 {
        -1
    } else if s[0] == 61 {
        0
    } else {
        let r = eq_pos(s.drop_first());
        if r < 0 {
            -1
        } else {
            r + 1
        }
    }
}

/// A segment split at its first `=`; without one, the value is empty.
pub open spec fn split_pair(seg: Seq<u8>) -> (Seq<u8>, Seq<u8>) {
    let i = eq_pos(seg);
    if i < 0 {
        (seg, Seq::empty())
    } else {
        (seg.subrange(0, i), seg.subrange(i + 1, seg.len() as int))
    }
}

/// The pair of a segment; an empty segment gives none.
pub open spec fn seg_pairs(seg: Seq<u8>) -> Seq<(Seq<u8>, Seq<u8>)> {
    if seg.len() == 0 {
        Seq::empty()
    } else {
        seq![split_pair(seg)]
    }
}

/// The key-value pairs of a query string, in order.
pub open spec fn pairs(q: Seq<u8>) -> Seq<(Seq<u8>, Seq<u8>)>
    decreases q.len(),
{
    let j = last_amp(q);
    if j < 0 || j >= q.len() {
        seg_pairs(q)
    } else {
        pairs(q.subrange(0, j)) + seg_pairs(q.subrange(j + 1, q.len() as int))
    }
}

/// Where the last `&` is.
pub proof fn lemma_last_amp(s: Seq<u8>)
    ensures
        -1 <= last_amp(s) < s.len(),
        last_amp(s) >= 0 ==> s[last_amp(s)] == 38,
        forall|k: int| last_amp(s) < k < s.len() ==> s[k] != 38,
    decreases s.len(),
{
    if s.len() > 0 && s.last() != 38 {
        lemma_last_amp(s.drop_last());
        assert forall|k: int| last_amp(s) < k < s.len() implies s[k] != 38 by {
            if k < s.len() - 1 {
                assert(s[k] == s.drop_last()[k]);
            }
        }
    }
}

/// Appending bytes without `&` keeps the last `&`.
pub proof fn lemma_last_amp_append(p: Seq<u8>, seg: Seq<u8>)
    requires
        forall|k: int| 0 <= k < seg.len() ==> seg[k] != 38,
    ensures
        last_amp(p + seg) == last_amp(p),
    decreases seg.len(),
{
    if seg.len() == 0 {
        assert(p + seg =~= p);
    } else {
        lemma_last_amp_append(p, seg.drop_last());
        assert((p + seg).drop_last() =~= p + seg.drop_last());
        assert((p + seg).last() == seg.last());
    }
}

/// A segment after a separator adds its own pair.
pub proof fn lemma_pairs_append(p: Seq<u8>, seg: Seq<u8>)
    requires
        p.len() == 0 || p.last() == 38,
        forall|k: int| 0 <= k < seg.len() ==> seg[k] != 38,
    ensures
        pairs(p + seg) == pairs(p) + seg_pairs(seg),
{
    lemma_last_amp_append(p, seg);
    if p.len() == 0 {
        assert(p + seg =~= seg);
        lemma_last_amp_append(Seq::<u8>::empty(), seg);
        assert(pairs(p) =~= Seq::<(Seq<u8>, Seq<u8>)>::empty());
        assert(pairs(seg) == seg_pairs(seg));
        assert(pairs(p + seg) =~= pairs(p) + seg_pairs(seg));
    } else {
        let j = p.len() - 1;
        assert(last_amp(p) == j);
        assert((p + seg).subrange(0, j) =~= p.subrange(0, j));
        assert((p + seg).subrange(j + 1, (p + seg).len() as int) =~= seg);
        assert(p.subrange(j + 1, p.len() as int) =~= Seq::<u8>::empty());
        assert(pairs(p) =~= pairs(p.subrange(0, j)) + seg_pairs(Seq::<u8>::empty()));
        assert(pairs(p + seg) =~= pairs(p) + seg_pairs(seg));
    }
}

/// The first `=` is at `k`, or there is none when `k` is the length.
pub proof fn lemma_eq_pos(s: Seq<u8>, k: int)
    requires
        0 <= k <= s.len(),
        forall|m: int| 0 <= m < k ==> s[m] != 61,
        k < s.len() ==> s[k] == 61,
    ensures
        eq_pos(s) == if k == s.len() {
            -1
        } else {
            k
        },
    decreases k,
{
    if k > 0 {
        let t = s.drop_first();
        assert forall|m: int| 0 <= m < k - 1 implies t[m] != 61 by {
            assert(t[m] == s[m + 1]);
        }
        lemma_eq_pos(t, k - 1);
    }
}

/// `s[a..b]` as a vector.
pub fn copy_range(s: &[u8], a: usize, b: usize) -> (r: Vec<u8>)
    requires
        a <= b <= s@.len(),
    ensures
        r@ == s@.subrange(a as int, b as int),
{
    let mut r: Vec<u8> = Vec::new();
    let mut i = a;
    while i < b
        invariant
            a <= i <= b,
            b <= s@.len(),
            r@ == s@.subrange(a as int, i as int),
        decreases b - i,
    {
        r.push(s[i]);
        assert(r@ =~= s@.subrange(a as int, i + 1));
        i = i + 1;
    }
    r
}

/// The segment `q[a..b]` split at its first `=`.
fn split_segment(q: &[u8], a: usize, b: usize) -> (r: (Vec<u8>, Vec<u8>))
    requires
        a <= b <= q@.len(),
    ensures
        r.0@ == split_pair(q@.subrange(a as int, b as int)).0,
        r.1@ == split_pair(q@.subrange(a as int, b as int)).1,
{
    let ghost seg = q@.subrange(a as int, b as int);
    let mut k = a;
    while k < b && q[k] != 61
        invariant
            a <= k <= b,
            b <= q@.len(),
            seg == q@.subrange(a as int, b as int),
            forall|m: int| 0 <= m < k - a ==> seg[m] != 61,
        decreases b - k,
    {
        k = k + 1;
    }
    proof {
        lemma_eq_pos(seg, k - a);
    }
    if k < b {
        let key = copy_range(q, a, k);
        let value = copy_range(q, k + 1, b);
        assert(key@ =~= seg.subrange(0, k - a));
        assert(value@ =~= seg.subrange(k - a + 1, seg.len() as int));
        (key, value)
    } else {
        let key = copy_range(q, a, b);
        (key, Vec::new())
    }
}

/// The key-value pairs of a query string: its `&`-separated non-empty
/// segments, each split at its first `=`.
pub fn split_query(q: &[u8]) -> (r: Vec<(Vec<u8>, Vec<u8>)>)
    ensures
        r@.len() == pairs(q@).len(),
        forall|i: int|
            0 <= i < r@.len() ==> (#[trigger] r@[i]).0@ == pairs(q@)[i].0 && r@[i].1@ == pairs(q@)[i].1,
{
    let mut out: Vec<(Vec<u8>, Vec<u8>)> = Vec::new();
    let mut start: usize = 0;
    let mut i: usize = 0;
    proof {
        assert(pairs(q@.subrange(0, 0)) =~= Seq::<(Seq<u8>, Seq<u8>)>::empty()) by {
            assert(q@.subrange(0, 0).len() == 0);
        }
    }
    while i < q.len()
        invariant
            start <= i <= q@.len(),
            start == 0 || q@[start - 1] == 38,
            forall|k: int| start <= k < i ==> q@[k] != 38,
            out@.len() == pairs(q@.subrange(0, start as int)).len(),
            forall|j: int|
                0 <= j < out@.len() ==> (#[trigger] out@[j]).0@ == pairs(q@.subrange(0, start as int))[j].0
                    && out@[j].1@ == pairs(q@.subrange(0, start as int))[j].1,
        decreases q@.len() - i,
    {
        if q[i] == 38 {
            let ghost p = q@.subrange(0, start as int);
            let ghost seg = q@.subrange(start as int, i as int);
            let ghost before = out@;
            proof {
                assert forall|k: int| 0 <= k < seg.len() implies seg[k] != 38 by {
                    assert(seg[k] == q@[start + k]);
                }
                lemma_pairs_append(p, seg);
                assert(p + seg =~= q@.subrange(0, i as int));
                let np = q@.subrange(0, i + 1);
                assert(np.last() == 38);
                assert(last_amp(np) == i);
                assert(np.subrange(0, i as int) =~= q@.subrange(0, i as int));
                assert(np.subrange(i + 1, np.len() as int) =~= Seq::<u8>::empty());
                assert(pairs(np) =~= pairs(p) + seg_pairs(seg));
            }
            if i > start {
                let pair = split_segment(q, start, i);
                out.push(pair);
                proof {
                    let np = q@.subrange(0, i + 1);
                    assert forall|j: int| 0 <= j < out@.len() implies (#[trigger] out@[j]).0@ == pairs(np)[j].0
                        && out@[j].1@ == pairs(np)[j].1 by {
                        if j < before.len() {
                            assert(out@[j] == before[j]);
                        }
                    }
                }
            }
            start = i + 1;
        }
        i = i + 1;
    }
    let ghost p = q@.subrange(0, start as int);
    let ghost seg = q@.subrange(start as int, q@.len() as int);
    let ghost before = out@;
    proof {
        assert forall|k: int| 0 <= k < seg.len() implies seg[k] != 38 by {
            assert(seg[k] == q@[start + k]);
        }
        lemma_pairs_append(p, seg);
        assert(p + seg =~= q@);
    }
    if q.len() > start {
        let pair = split_segment(q, start, q.len());
        out.push(pair);
        proof {
            assert forall|j: int| 0 <= j < out@.len() implies (#[trigger] out@[j]).0@ == pairs(q@)[j].0
                && out@[j].1@ == pairs(q@)[j].1 by {
                if j < before.len() {
                    assert(out@[j] == before[j]);
                }
            }
        }
    }
    out
}

// ── Unsigned decimal numbers ────────────────────────────────────────────────

/// Every byte is an ASCII digit.
pub open spec fn all_digits(s: Seq<u8>) -> bool {
    forall|i: int| 0 <= i < s.len() ==> 48 <= #[trigger] s[i] <= 57
}

/// The value of a digit string.
pub open spec fn digits_value(s: Seq<u8>) -> nat
    decreases s.len(),
{
    if s.len() == 0 {
        0
    } else {
        digits_value(s.drop_last()) * 10 + (s.last() - 48) as nat
    }
}

/// The unsigned number `s` denotes, as Rust's integer parsing reads it: an
/// optional `+`, then at least one digit, with a value of at most `max`.
pub open spec fn parse_uint(s: Seq<u8>, max: nat) -> Option<nat> {
    let d = if s.len() > 0 && s[0] == 43 {
        s.drop_first()
    } else {
        s
    };
    if d.len() > 0 && all_digits(d) && digits_value(d) <= max {
        Some(digits_value(d))
    } else {
        None
    }
}

/// A longer digit string is worth at least as much as its prefix.
pub proof fn lemma_digits_grow(s: Seq<u8>, k: int)
    requires
        0 <= k <= s.len(),
        all_digits(s),
    ensures
        digits_value(s.subrange(0, k)) <= digits_value(s),
    decreases s.len() - k,
{
    if k < s.len() {
        lemma_digits_grow(s, k + 1);
        assert(s.subrange(0, k + 1).drop_last() =~= s.subrange(0, k));
    } else {
        assert(s.subrange(0, k) =~= s);
    }
}

/// Parses an unsigned decimal number of at most `max`, as Rust's integer
/// parsing does.
pub fn parse_decimal(s: &[u8], max: u64) -> (r: Option<u64>)
    ensures
        r == match parse_uint(s@, max as nat) {
            Some(v) => Some(v as u64),
            None => None,
        },
{
    let start: usize = if s.len() > 0 && s[0] == 43 {
        1
    } else {
        0
    };
    let ghost d = if s@.len() > 0 && s@[0] == 43 {
        s@.drop_first()
    } else {
        s@
    };
    proof {
        assert(d =~= s@.subrange(start as int, s@.len() as int));
    }
    if start == s.len() {
        return None;
    }
    let mut acc: u64 = 0;
    let mut i = start;
    while i < s.len()
        invariant
            start <= i <= s@.len(),
            d =~= s@.subrange(start as int, s@.len() as int),
            d == (if s@.len() > 0 && s@[0] == 43 {
                s@.drop_first()
            } else {
                s@
            }),
            all_digits(d.subrange(0, i - start)),
            acc == digits_value(d.subrange(0, i - start)),
            acc <= max,
        decreases s@.len() - i,
    {
        let c = s[i];
        proof {
            assert(d[i - start] == c);
        }
        if c < 48 || c > 57 {
            proof {
                let k = i - start;
                assert(!(48 <= d[k] <= 57));
                assert(!all_digits(d));
                assert(parse_uint(s@, max as nat) is None);
            }
            return None;
        }
        let digit = (c - 48) as u64;
        proof {
            assert(d.subrange(0, i - start + 1).drop_last() =~= d.subrange(0, i - start));
        }
        if digit > max || acc > (max - digit) / 10 {
            proof {
                assert(acc * 10 + digit > max) by (nonlinear_arith)
                    requires
                        digit > max || acc > (max - digit) / 10,
                        digit <= 9,
                ;
                let k = i - start;
                assert(d.subrange(0, k + 1).last() == c);
                assert(digits_value(d.subrange(0, k + 1)) == acc * 10 + digit);
                if all_digits(d) {
                    lemma_digits_grow(d, k + 1);
                }
                assert(parse_uint(s@, max as nat) is None);
            }
            return None;
        }
        proof {
            assert(acc * 10 + digit <= max) by (nonlinear_arith)
                requires
                    acc <= (max - digit) / 10,
                    digit <= max,
            ;
        }
        acc = acc * 10 + digit;
        i = i + 1;
        proof {
            assert(all_digits(d.subrange(0, i - start))) by {
                assert forall|k: int| 0 <= k < i - start implies 48 <= #[trigger] d.subrange(0, i - start)[k] <= 57 by {
                    if k < i - start - 1 {
                        assert(d.subrange(0, i - start)[k] == d.subrange(0, i - start - 1)[k]);
                    }
                }
            }
        }
    }
    proof {
        assert(d.subrange(0, d.len() as int) =~= d);
    }
    Some(acc)
}

// ── Percent-decoding ────────────────────────────────────────────────────────

/// Percent-decoding: `%` and two hexadecimal digits (either case) stand for
/// the byte they spell; every other byte, a lone `%` included, stands for itself.
pub open spec fn percent_decoded(s: Seq<u8>) -> Seq<u8>
    decreases s.len(),
{
    if s.len() == 0 {
        Seq::empty()
    } else if s[0] == 37 && s.len() >= 3 && hex_digit(s[1]) is Some && hex_digit(s[2]) is Some {
        seq![(hex_digit(s[1]).unwrap() * 16 + hex_digit(s[2]).unwrap()) as u8] + percent_decoded(
            s.subrange(3, s.len() as int),
        )
    } else {
        seq![s[0]] + percent_decoded(s.subrange(1, s.len() as int))
    }
}

/// Decodes percent-escapes with `percent_encoding::percent_decode`.
///
/// Trusted: the crate's decoder replaces `%` followed by two hexadecimal
/// digits of either case by the byte they spell and passes every other byte
/// through, which is what `percent_decoded` says.
#[verifier::external_body]
pub(crate) fn percent_decode_bytes(input: &[u8]) -> (r: Vec<u8>)
    ensures
        r@ == percent_decoded(input@),
{
    percent_encoding::percent_decode(input).collect()
}

} // verus!
