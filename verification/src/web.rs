//! Small decisions of the web front end.
use vstd::prelude::*;

verus! {

/// `s` ends with `suffix`.
pub open spec fn ends_with(s: Seq<u8>, suffix: Seq<u8>) -> bool {
    s.len() >= suffix.len() && s.subrange(s.len() - suffix.len(), s.len() as int) == suffix
}

/// Whether `s` ends with `suffix`.
pub fn has_suffix(s: &[u8], suffix: &[u8]) -> (r: bool)
    ensures
        r == ends_with(s@, suffix@),
{
    if s.len() < suffix.len() {
        return false;
    }
    let n = s.len();
    let start = n - suffix.len();
    let mut i: usize = 0;
    while i < suffix.len()
        invariant
            start + suffix@.len() == s@.len(),
            s@.len() == n,
            i <= suffix@.len(),
            forall|k: int| 0 <= k < i ==> s@[start + k] == suffix@[k],
        decreases suffix@.len() - i,
    {
        if s[start + i] != suffix[i] {
            assert(s@.subrange(start as int, s@.len() as int)[i as int] != suffix@[i as int]);
            return false;
        }
        i = i + 1;
    }
    assert(s@.subrange(start as int, s@.len() as int) =~= suffix@);
    true
}

/// The content type a dashboard asset is served with, by its file suffix.
pub open spec fn content_type_spec(name: Seq<u8>) -> Seq<char> {
    if ends_with(name, seq![46u8, 106, 115]) {
        "application/javascript; charset=utf-8"@
    } else if ends_with(name, seq![46u8, 99, 115, 115]) {
        "text/css; charset=utf-8"@
    } else if ends_with(name, seq![46u8, 119, 111, 102, 102, 50]) {
        "font/woff2"@
    } else if ends_with(name, seq![46u8, 112, 110, 103]) {
        "image/png"@
    } else if ends_with(name, seq![46u8, 115, 118, 103]) {
        "image/svg+xml"@
    } else {
        "application/octet-stream"@
    }
}

/// The content type of a dashboard asset: `.js`, `.css`, `.woff2`, `.png`
/// and `.svg` files have their own; anything else is binary.
pub fn content_type_for(name: &[u8]) -> (r: &'static str)
    ensures
        r@ == content_type_spec(name@),
{
    let js: [u8; 3] = [46, 106, 115];
    let css: [u8; 4] = [46, 99, 115, 115];
    let woff2: [u8; 6] = [46, 119, 111, 102, 102, 50];
    let png: [u8; 4] = [46, 112, 110, 103];
    let svg: [u8; 4] = [46, 115, 118, 103];
    assert(js@ =~= seq![46u8, 106, 115]);
    assert(css@ =~= seq![46u8, 99, 115, 115]);
    assert(woff2@ =~= seq![46u8, 119, 111, 102, 102, 50]);
    assert(png@ =~= seq![46u8, 112, 110, 103]);
    assert(svg@ =~= seq![46u8, 115, 118, 103]);
    if has_suffix(name, js.as_slice()) {
        "application/javascript; charset=utf-8"
    } else if has_suffix(name, css.as_slice()) {
        "text/css; charset=utf-8"
    } else if has_suffix(name, woff2.as_slice()) {
        "font/woff2"
    } else if has_suffix(name, png.as_slice()) {
        "image/png"
    } else if has_suffix(name, svg.as_slice()) {
        "image/svg+xml"
    } else {
        "application/octet-stream"
    }
}

/// The number of torrents a top-list request asks for: 100 by default, at
/// most 500.
pub fn top_limit(requested: Option<usize>) -> (r: usize)
    ensures
        r == match requested {
            Some(n) => if n < 500 {
                n
            } else {
                500
            },
            None => 100,
        },
{
    match requested {
        Some(n) => if n < 500 {
            n
        } else {
            500
        },
        None => 100,
    }
}

/// The client counts, busiest client first.
pub fn clients_by_peer_count(clients: &[(u8, u64)]) -> (r: Vec<(u8, u64)>)
    ensures
        r@.to_multiset() == clients@.to_multiset(),
        forall|a: int, b: int| 0 <= a < b < r@.len() ==> (#[trigger] r@[a]).1 >= (#[trigger] r@[b]).1,
{
    let mut rest: Vec<(u8, u64)> = Vec::new();
    let mut i: usize = 0;
    while i < clients.len()
        invariant
            i <= clients@.len(),
            rest@ == clients@.subrange(0, i as int),
        decreases clients@.len() - i,
    {
        rest.push(clients[i]);
        proof {
            assert(rest@ =~= clients@.subrange(0, i + 1));
        }
        i = i + 1;
    }
    assert(rest@ =~= clients@);
    let mut out: Vec<(u8, u64)> = Vec::new();
    proof {
        broadcast use vstd::seq_lib::group_to_multiset_ensures;

        assert(out@.to_multiset() =~= vstd::multiset::Multiset::<(u8, u64)>::empty());
        assert(out@.to_multiset().add(rest@.to_multiset()) =~= clients@.to_multiset());
    }
    while rest.len() > 0
        invariant
            out@.to_multiset().add(rest@.to_multiset()) == clients@.to_multiset(),
            forall|a: int, b: int| 0 <= a < b < out@.len() ==> (#[trigger] out@[a]).1 >= (#[trigger] out@[b]).1,
            forall|a: int, b: int|
                0 <= a < out@.len() && 0 <= b < rest@.len() ==> (#[trigger] out@[a]).1 >= (#[trigger] rest@[b]).1,
        decreases rest@.len(),
    {
        let mut best: usize = 0;
        let mut k: usize = 1;
        while k < rest.len()
            invariant
                1 <= k <= rest@.len(),
                best < k,
                forall|j: int| 0 <= j < k ==> (#[trigger] rest@[j]).1 <= rest@[best as int].1,
            decreases rest@.len() - k,
        {
            if rest[k].1 > rest[best].1 {
                best = k;
            }
            k = k + 1;
        }
        let ghost old_rest = rest@;
        let ghost old_out = out@;
        let e = rest.remove(best);
        out.push(e);
        proof {
            broadcast use vstd::seq_lib::group_to_multiset_ensures;

            vstd::seq_lib::to_multiset_remove(old_rest, best as int);
            assert(out@.to_multiset() =~= old_out.to_multiset().insert(e));
            assert(out@.to_multiset().add(rest@.to_multiset()) =~= old_out.to_multiset().add(
                old_rest.to_multiset(),
            ));
            assert forall|a: int, b: int|
                0 <= a < out@.len() && 0 <= b < rest@.len() implies (#[trigger] out@[a]).1 >= (
                #[trigger] rest@[b]).1 by {
                let ob = if b < best { b } else { b + 1 };
                assert(rest@[b] == old_rest[ob]);
                if a < old_out.len() {
                    assert(out@[a] == old_out[a]);
                }
            }
            assert forall|a: int, b: int| 0 <= a < b < out@.len() implies (#[trigger] out@[a]).1 >= (
            #[trigger] out@[b]).1 by {
                if b < old_out.len() {
                    assert(out@[a] == old_out[a] && out@[b] == old_out[b]);
                } else {
                    assert(out@[a] == old_out[a]);
                    assert(old_rest[best as int] == e);
                }
            }
        }
    }
    proof {
        broadcast use vstd::seq_lib::group_to_multiset_ensures;

        assert(rest@.to_multiset() =~= vstd::multiset::Multiset::<(u8, u64)>::empty());
        assert(out@.to_multiset() =~= clients@.to_multiset());
    }
    out
}

} // verus!
