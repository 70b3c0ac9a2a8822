//! Bencode writers: byte strings, integers, dictionary keys and failure
//! responses, appended to an output buffer.
use vstd::prelude::*;
use vstd::string::StringSliceAdditionalSpecFns;

verus! {

/// The ASCII decimal digits of `n`, most significant first, without leading zeros.
pub open spec fn decimal(n: nat) -> Seq<u8>
    decreases n,
{
    if n < 10 {
        seq![(48 + n) as u8]
    } else {
        decimal(n / 10).push((48 + n % 10) as u8)
    }
}

/// Decimal text of a signed integer, with a leading `-` when negative.
pub open spec fn int_text(v: int) -> Seq<u8> {
    if v < 0 {
        seq![45u8] + decimal((-v) as nat)
    } else {
        decimal(v as nat)
    }
}

/// A bencoded byte string: its length in decimal, `:`, then the bytes.
pub open spec fn bstring(s: Seq<u8>) -> Seq<u8> {
    decimal(s.len()) + seq![58u8] + s
}

/// A bencoded integer: `i`, the decimal text, `e`.
pub open spec fn bint(v: int) -> Seq<u8> {
    seq![105u8] + int_text(v) + seq![101u8]
}

/// The bytes of ASCII text.
pub open spec fn ascii(s: Seq<char>) -> Seq<u8> {
    s.map_values(|c: char| c as u8)
}

/// The bytes of an ASCII string literal.
pub fn lit(s: &str) -> (r: &[u8])
    requires
        vstd::string::is_ascii(s),
    ensures
        r@ == ascii(s@),
{
    proof {
        vstd::string::is_ascii_spec_bytes(s);
    }
    let r = s.as_bytes();
    assert(r@ =~= ascii(s@));
    r
}

/// Appends `s` to `buf`.
pub fn extend(buf: &mut Vec<u8>, s: &[u8])
    ensures
        final(buf)@ == old(buf)@ + s@,
{
    let mut i: usize = 0;
    while i < s.len()
        invariant
            i <= s@.len(),
            buf@ == old(buf)@ + s@.subrange(0, i as int),
        decreases s@.len() - i,
    {
        buf.push(s[i]);
        assert(s@.subrange(0, i + 1) =~= s@.subrange(0, i as int).push(s@[i as int]));
        i = i + 1;
    }
    assert(s@.subrange(0, s@.len() as int) =~= s@);
}

/// Appends the decimal digits of `n`.
pub fn write_decimal(buf: &mut Vec<u8>, n: u64)
    ensures
        final(buf)@ == old(buf)@ + decimal(n as nat),
    decreases n,
{
    if n >= 10 {
        write_decimal(buf, n / 10);
    }
    buf.push((48 + n % 10) as u8);
    assert(buf@ =~= old(buf)@ + decimal(n as nat));
}

/// Appends the decimal text of a signed integer.
pub fn write_int_text(buf: &mut Vec<u8>, value: i64)
    ensures
        final(buf)@ == old(buf)@ + int_text(value as int),
{
    if value < 0 {
        buf.push(45);
        let magnitude: u64 = if value == i64::MIN {
            9223372036854775808u64
        } else {
            (-value) as u64
        };
        write_decimal(buf, magnitude);
        assert(buf@ =~= old(buf)@ + int_text(value as int));
    } else {
        write_decimal(buf, value as u64);
    }
}

/// Appends a dictionary key: a bencoded byte string.
pub fn write_key(buf: &mut Vec<u8>, key: &[u8])
    ensures
        final(buf)@ == old(buf)@ + bstring(key@),
{
    write_decimal(buf, key.len() as u64);
    buf.push(58);
    extend(buf, key);
    assert(buf@ =~= old(buf)@ + bstring(key@));
}

/// Appends a key followed by a bencoded integer value.
pub fn write_int(buf: &mut Vec<u8>, key: &[u8], value: i64)
    ensures
        final(buf)@ == old(buf)@ + bstring(key@) + bint(value as int),
{
    write_key(buf, key);
    write_int_raw(buf, value);
    assert(buf@ =~= old(buf)@ + bstring(key@) + bint(value as int));
}

/// Appends a key followed by a bencoded byte-string value.
pub fn write_bytes(buf: &mut Vec<u8>, key: &[u8], value: &[u8])
    ensures
        final(buf)@ == old(buf)@ + bstring(key@) + bstring(value@),
{
    write_key(buf, key);
    write_decimal(buf, value.len() as u64);
    buf.push(58);
    extend(buf, value);
    assert(buf@ =~= old(buf)@ + bstring(key@) + bstring(value@));
}

/// Appends a bare bencoded integer.
pub fn write_int_raw(buf: &mut Vec<u8>, value: i64)
    ensures
        final(buf)@ == old(buf)@ + bint(value as int),
{
    buf.push(105);
    write_int_text(buf, value);
    buf.push(101);
    assert(buf@ =~= old(buf)@ + bint(value as int));
}

/// The bencoded failure response `d14:failure reason<len>:<message>e`.
pub open spec fn failure_body(message: Seq<u8>) -> Seq<u8> {
    seq![100u8] + bstring(ascii("failure reason"@)) + bstring(message) + seq![101u8]
}

/// Encodes a tracker failure response carrying `message`.
pub fn failure(message: &str) -> (r: Vec<u8>)
    ensures
        r@ == failure_body(message.spec_bytes()),
{
    let msg = message.as_bytes();
    let mut buf: Vec<u8> = Vec::new();
    buf.push(100);
    proof {
        reveal_strlit("failure reason");
    }
    write_bytes(&mut buf, lit("failure reason"), msg);
    buf.push(101);
    assert(buf@ =~= failure_body(message.spec_bytes()));
    buf
}

} // verus!

verus! {

// ── Bencode values ───────────────────────────────────────────────────────────

/// A bencode value. Dictionaries hold their entries in ascending key order
/// with distinct keys when built by [`Value::dictionary`].
#[derive(Debug, PartialEq, Eq)]
pub enum Value {
    Bytes(Vec<u8>),
    Integer(i64),
    List(Vec<Value>),
    Dictionary(Vec<(Vec<u8>, Value)>),
}

/// The bencoding of a value; dictionary entries are written in stored order.
pub open spec fn encoded(v: Value) -> Seq<u8>
    decreases v,
{
    match v {
        Value::Bytes(b) => bstring(b@),
        Value::Integer(i) => bint(i as int),
        Value::List(vals) => seq![108u8] + encoded_list(vals@) + seq![101u8],
        Value::Dictionary(entries) => seq![100u8] + encoded_entries(entries@) + seq![101u8],
    }
}

/// The concatenated encodings of a list's elements.
pub open spec fn encoded_list(s: Seq<Value>) -> Seq<u8>
    decreases s,
{
    if s.len() == 0 {
        Seq::empty()
    } else {
        encoded_list(s.drop_last()) + encoded(s.last())
    }
}

/// The concatenated key/value encodings of dictionary entries.
pub open spec fn encoded_entries(s: Seq<(Vec<u8>, Value)>) -> Seq<u8>
    decreases s,
{
    if s.len() == 0 {
        Seq::empty()
    } else {
        encoded_entries(s.drop_last()) + bstring(s.last().0@) + encoded(s.last().1)
    }
}

/// The keys of dictionary entries, as byte sequences.
pub open spec fn entry_keys(s: Seq<(Vec<u8>, Value)>) -> Seq<Seq<u8>> {
    s.map_values(|e: (Vec<u8>, Value)| e.0@)
}

/// Each entry of `d` is the last entry of `entries` from index `from` on
/// with its key.
pub open spec fn takes_last_values(
    d: Seq<(Vec<u8>, Value)>,
    entries: Seq<(Vec<u8>, Value)>,
    from: int,
) -> bool {
    forall|i: int|
        #![trigger d[i]]
        0 <= i < d.len() ==> exists|j: int|
            #![trigger entries[j]]
            from <= j < entries.len() && entries[j].0@ == d[i].0@ && entries[j].1 == d[i].1 && (
            forall|k: int| j < k < entries.len() ==> (#[trigger] entries[k]).0@ != d[i].0@)
}

/// The key of entry `i`.
pub open spec fn key_at(s: Seq<(Vec<u8>, Value)>, i: int) -> Seq<u8> {
    s[i].0@
}

/// Some entry of `d` has key `k`.
pub open spec fn has_key(d: Seq<(Vec<u8>, Value)>, k: Seq<u8>) -> bool {
    exists|i: int| #![trigger key_at(d, i)] 0 <= i < d.len() && key_at(d, i) == k
}

/// Every key of `entries` from index `from` on is a key of `d`.
pub open spec fn covers_keys(d: Seq<(Vec<u8>, Value)>, entries: Seq<(Vec<u8>, Value)>, from: int) -> bool {
    forall|j: int|
        #![trigger key_at(entries, j)]
        from <= j < entries.len() ==> has_key(d, key_at(entries, j))
}

/// `d` is the dictionary that inserting `entries` in order, later entries
/// replacing earlier ones with the same key, produces: its keys ascend
/// strictly, each of its entries is the last input entry with that key, and
/// each input key occurs in it.
pub open spec fn is_dictionary_of(d: Seq<(Vec<u8>, Value)>, entries: Seq<(Vec<u8>, Value)>) -> bool {
    &&& crate::order::strictly_sorted(entry_keys(d))
    &&& takes_last_values(d, entries, 0)
    &&& covers_keys(d, entries, 0)
}

/// An entry whose key is already present adds nothing.
proof fn lemma_dictionary_skip(d: Seq<(Vec<u8>, Value)>, entries: Seq<(Vec<u8>, Value)>, n: int, pos: int)
    requires
        0 <= n < entries.len(),
        0 <= pos < d.len(),
        d[pos].0@ == entries[n].0@,
        takes_last_values(d, entries, n + 1),
        covers_keys(d, entries, n + 1),
    ensures
        takes_last_values(d, entries, n),
        covers_keys(d, entries, n),
{
    assert forall|j: int| #![trigger key_at(entries, j)] n <= j < entries.len() implies has_key(
        d,
        key_at(entries, j),
    ) by {
        if j == n {
            assert(key_at(d, pos) == d[pos].0@);
            assert(key_at(entries, j) == entries[j].0@);
            assert(key_at(d, pos) == key_at(entries, j));
        } else {
            let _ = key_at(entries, j);
        }
    }
}

/// Inserting a new key at its sorted position keeps the dictionary invariant.
proof fn lemma_dictionary_insert(
    d: Seq<(Vec<u8>, Value)>,
    entries: Seq<(Vec<u8>, Value)>,
    n: int,
    pos: int,
)
    requires
        0 <= n < entries.len(),
        0 <= pos <= d.len(),
        crate::order::strictly_sorted(entry_keys(d)),
        forall|i: int| 0 <= i < pos ==> crate::order::bytes_lt(#[trigger] d[i].0@, entries[n].0@),
        forall|i: int| pos <= i < d.len() ==> crate::order::bytes_lt(entries[n].0@, #[trigger] d[i].0@),
        takes_last_values(d, entries, n + 1),
        covers_keys(d, entries, n + 1),
    ensures
        crate::order::strictly_sorted(entry_keys(d.insert(pos, entries[n]))),
        takes_last_values(d.insert(pos, entries[n]), entries, n),
        covers_keys(d.insert(pos, entries[n]), entries, n),
{
    let key = entries[n].0@;
    let nd = d.insert(pos, entries[n]);
    assert forall|i: int| 0 <= i < d.len() implies #[trigger] d[i].0@ != key by {
        crate::order::lemma_lt_irreflexive(key);
    }
    assert(entry_keys(nd) =~= entry_keys(d).insert(pos, key));
    assert forall|a: int, b: int|
        0 <= a < b < nd.len() implies crate::order::bytes_lt(
        #[trigger] entry_keys(nd)[a],
        #[trigger] entry_keys(nd)[b],
    ) by {
        if b < pos {
            assert(entry_keys(d)[a] == entry_keys(nd)[a]);
            assert(entry_keys(d)[b] == entry_keys(nd)[b]);
        } else if b == pos {
        } else if a < pos {
            crate::order::lemma_lt_transitive(d[a].0@, key, d[b - 1].0@);
        } else if a == pos {
        } else {
            assert(entry_keys(d)[a - 1] == entry_keys(nd)[a]);
            assert(entry_keys(d)[b - 1] == entry_keys(nd)[b]);
        }
    }
    assert forall|i: int| #![trigger nd[i]] 0 <= i < nd.len() implies exists|j: int|
        #![trigger entries[j]]
        n <= j < entries.len() && entries[j].0@ == nd[i].0@ && entries[j].1 == nd[i].1 && (
        forall|k: int| j < k < entries.len() ==> (#[trigger] entries[k]).0@ != nd[i].0@) by {
        if i == pos {
            assert forall|k: int| n < k < entries.len() implies (#[trigger] entries[k]).0@
                != nd[i].0@ by {
                assert(key_at(entries, k) == entries[k].0@);
                assert(has_key(d, key_at(entries, k)));
                let i2 = choose|i2: int|
                    #![trigger key_at(d, i2)]
                    0 <= i2 < d.len() && key_at(d, i2) == key_at(entries, k);
                assert(d[i2].0@ != key);
            }
            assert(entries[n].0@ == nd[i].0@);
        } else {
            let oi = if i < pos { i } else { i - 1 };
            assert(nd[i] == d[oi]);
            let j = choose|j: int|
                #![trigger entries[j]]
                n + 1 <= j < entries.len() && entries[j].0@ == d[oi].0@ && entries[j].1 == d[oi].1 && (
                forall|k: int| j < k < entries.len() ==> (#[trigger] entries[k]).0@ != d[oi].0@);
            assert(entries[j].0@ == nd[i].0@);
        }
    }
    assert forall|j: int|
        #![trigger key_at(entries, j)]
        n <= j < entries.len() implies has_key(nd, key_at(entries, j)) by {
        if j == n {
            assert(key_at(nd, pos) == key_at(entries, j));
        } else {
            assert(has_key(d, key_at(entries, j)));
            let i = choose|i: int| #![trigger key_at(d, i)] 0 <= i < d.len() && key_at(d, i) == key_at(entries, j);
            if i < pos {
                assert(key_at(nd, i) == key_at(d, i));
            } else {
                assert(key_at(nd, i + 1) == key_at(d, i));
            }
        }
    }
}

/// The first position in `d` whose key is not below `key`, and whether the
/// key there equals `key`.
fn find_slot(d: &Vec<(Vec<u8>, Value)>, key: &Vec<u8>) -> (r: (usize, bool))
    requires
        crate::order::strictly_sorted(entry_keys(d@)),
    ensures
        r.0 <= d@.len(),
        forall|i: int| 0 <= i < r.0 ==> crate::order::bytes_lt(#[trigger] d@[i].0@, key@),
        r.1 ==> r.0 < d@.len() && d@[r.0 as int].0@ == key@,
        !r.1 ==> forall|i: int| r.0 <= i < d@.len() ==> crate::order::bytes_lt(key@, #[trigger] d@[i].0@),
{
    let mut pos: usize = 0;
    while pos < d.len()
        invariant
            pos <= d@.len(),
            crate::order::strictly_sorted(entry_keys(d@)),
            forall|i: int| 0 <= i < pos ==> crate::order::bytes_lt(#[trigger] d@[i].0@, key@),
        decreases d@.len() - pos,
    {
        match crate::order::compare_bytes(d[pos].0.as_slice(), key.as_slice()) {
            crate::order::Order::Less => {
                pos = pos + 1;
            },
            crate::order::Order::Equal => {
                return (pos, true);
            },
            crate::order::Order::Greater => {
                proof {
                    assert forall|i: int| pos <= i < d@.len() implies crate::order::bytes_lt(
                        key@,
                        #[trigger] d@[i].0@,
                    ) by {
                        if i > pos {
                            assert(crate::order::bytes_lt(
                                entry_keys(d@)[pos as int],
                                entry_keys(d@)[i],
                            ));
                            crate::order::lemma_lt_transitive(key@, d@[pos as int].0@, d@[i].0@);
                        }
                    }
                }
                return (pos, false);
            },
        }
    }
    (pos, false)
}

impl Value {
    pub fn bytes(bytes: Vec<u8>) -> (r: Self)
        ensures
            r == Value::Bytes(bytes),
    {
        Value::Bytes(bytes)
    }

    pub fn string(value: &str) -> (r: Self)
        ensures
            r matches Value::Bytes(b) && b@ == value.spec_bytes(),
    {
        let b = value.as_bytes();
        let mut v: Vec<u8> = Vec::new();
        extend(&mut v, b);
        Value::Bytes(v)
    }

    pub fn integer(value: i64) -> (r: Self)
        ensures
            r == Value::Integer(value),
    {
        Value::Integer(value)
    }

    /// Builds a dictionary; when a key repeats, the later value wins.
    pub fn dictionary(entries: Vec<(Vec<u8>, Value)>) -> (r: Self)
        ensures
            r matches Value::Dictionary(d) && is_dictionary_of(d@, entries@),
    {
        let ghost input = entries@;
        let mut rest = entries;
        let mut d: Vec<(Vec<u8>, Value)> = Vec::new();
        while rest.len() > 0
            invariant
                rest@.len() <= input.len(),
                rest@ == input.subrange(0, rest@.len() as int),
                crate::order::strictly_sorted(entry_keys(d@)),
                takes_last_values(d@, input, rest@.len() as int),
                covers_keys(d@, input, rest@.len() as int),
            decreases rest@.len(),
        {
            let ghost n = rest@.len() - 1;
            let ghost old_rest = rest@;
            assert(old_rest[n] == input[n]);
            let (key, value) = match rest.pop() {
                Some(e) => e,
                None => {
                    return Value::Dictionary(d);
                },
            };
            let (pos, found) = find_slot(&d, &key);
            if found {
                proof {
                    lemma_dictionary_skip(d@, input, n, pos as int);
                }
            } else {
                proof {
                    lemma_dictionary_insert(d@, input, n, pos as int);
                }
                d.insert(pos, (key, value));
            }
        }
        Value::Dictionary(d)
    }

    /// The bencoding of this value.
    pub fn encode(&self) -> (r: Vec<u8>)
        ensures
            r@ == encoded(*self),
    {
        let mut out: Vec<u8> = Vec::new();
        self.write_to(&mut out);
        assert(out@ =~= encoded(*self));
        out
    }

    fn write_to(&self, out: &mut Vec<u8>)
        ensures
            final(out)@ == old(out)@ + encoded(*self),
        decreases *self,
    {
        match self {
            Value::Bytes(bytes) => {
                write_decimal(out, bytes.len() as u64);
                out.push(58);
                extend(out, bytes.as_slice());
                assert(out@ =~= old(out)@ + encoded(*self));
            },
            Value::Integer(value) => {
                write_int_raw(out, *value);
            },
            Value::List(values) => {
                out.push(108);
                let mut i: usize = 0;
                while i < values.len()
                    invariant
                        i <= values@.len(),
                        *self == Value::List(*values),
                        out@ == old(out)@ + seq![108u8] + encoded_list(values@.subrange(0, i as int)),
                    decreases values@.len() - i,
                {
                    proof {
                        vstd::std_specs::vec::axiom_vec_index_decreases(*values, i as int);
                        assert(decreases_to!(*self => (*self)->List_0));
                    }
                    values[i].write_to(out);
                    assert(values@.subrange(0, i + 1).drop_last() =~= values@.subrange(0, i as int));
                    i = i + 1;
                }
                out.push(101);
                assert(values@.subrange(0, values@.len() as int) =~= values@);
                assert(out@ =~= old(out)@ + encoded(*self));
            },
            Value::Dictionary(entries) => {
                out.push(100);
                let mut i: usize = 0;
                while i < entries.len()
                    invariant
                        i <= entries@.len(),
                        *self == Value::Dictionary(*entries),
                        out@ == old(out)@ + seq![100u8] + encoded_entries(entries@.subrange(0, i as int)),
                    decreases entries@.len() - i,
                {
                    write_key(out, entries[i].0.as_slice());
                    proof {
                        vstd::std_specs::vec::axiom_vec_index_decreases(*entries, i as int);
                        assert(decreases_to!(*self => (*self)->Dictionary_0));
                        assert(decreases_to!(entries@[i as int] => entries@[i as int].1));
                    }
                    entries[i].1.write_to(out);
                    assert(entries@.subrange(0, i + 1).drop_last() =~= entries@.subrange(0, i as int));
                    i = i + 1;
                }
                out.push(101);
                assert(entries@.subrange(0, entries@.len() as int) =~= entries@);
                assert(out@ =~= old(out)@ + encoded(*self));
            },
        }
    }
}

} // verus!
