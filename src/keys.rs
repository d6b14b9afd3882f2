use vstd::prelude::*;
use vstd::string::StringSliceAdditionalSpecFns;

verus! {

/// The largest byte value.
pub const MAX_BYTE: u8 = 0xff;

/// The namespace of vector records in the store: the bytes of `vec:`.
pub open spec fn record_prefix_spec() -> Seq<u8> {
    seq![118u8, 101u8, 99u8, 58u8]
}

/// The store key of the record with id `id`: the namespace, then the id's
/// bytes verbatim.
pub open spec fn record_key_of(id: Seq<u8>) -> Seq<u8> {
    record_prefix_spec() + id
}

/// The length of the longest common prefix of `a` and `b`.
pub open spec fn common_len(a: Seq<u8>, b: Seq<u8>) -> nat
    decreases a.len(),
{
    if a.len() == 0 || b.len() == 0 || a[0] != b[0] {
        0
    } else {
        1 + common_len(a.drop_first(), b.drop_first())
    }
}

/// Byte-wise lexicographic order, as an ordered store sorts its keys: `a`
/// comes before `b` where they first differ, or when `a` is a proper prefix
/// of `b`.
pub open spec fn lex_lt(a: Seq<u8>, b: Seq<u8>) -> bool {
    let i = common_len(a, b);
    if i == a.len() {
        i < b.len()
    } else {
        i < b.len() && a[i as int] < b[i as int]
    }
}

/// `key` lies in the half-open range from `lower` to `upper`; `None` for
/// `upper` leaves the range open above.
pub open spec fn in_range(key: Seq<u8>, lower: Seq<u8>, upper: Option<Seq<u8>>) -> bool {
    &&& !lex_lt(key, lower)
    &&& match upper {
        Some(u) => lex_lt(key, u),
        None => true,
    }
}

/// The position of the last byte of `p` below the largest byte value, if
/// there is one.
pub open spec fn last_increasable(p: Seq<u8>) -> int
    decreases p.len(),
{
    if p.len() == 0 {
        -1
    } else if p.last() != MAX_BYTE {
        p.len() - 1
    } else {
        last_increasable(p.drop_last())
    }
}

/// The least byte string above every key that starts with `p`: `p` without
/// its trailing run of largest bytes, with its last byte raised by one. A `p`
/// made of largest bytes alone has no such bound.
pub open spec fn successor_of(p: Seq<u8>) -> Option<Seq<u8>> {
    let j = last_increasable(p);
    if j < 0 {
        None
    } else {
        Some(p.subrange(0, j).push((p[j] + 1) as u8))
    }
}

proof fn lemma_common_len(a: Seq<u8>, b: Seq<u8>)
    ensures
        common_len(a, b) <= a.len(),
        common_len(a, b) <= b.len(),
        forall|t: int| 0 <= t < common_len(a, b) ==> a[t] == b[t],
        common_len(a, b) < a.len() && common_len(a, b) < b.len() ==> a[common_len(a, b) as int]
            != b[common_len(a, b) as int],
    decreases a.len(),
{
    if a.len() > 0 && b.len() > 0 && a[0] == b[0] {
        lemma_common_len(a.drop_first(), b.drop_first());
        assert forall|t: int| 0 <= t < common_len(a, b) implies a[t] == b[t] by {
            if t > 0 {
                assert(a[t] == a.drop_first()[t - 1]);
                assert(b[t] == b.drop_first()[t - 1]);
            }
        }
    }
}

/// Whichever first difference two sequences have, the order goes by it.
proof fn lemma_lex_at(a: Seq<u8>, b: Seq<u8>, n: int)
    requires
        0 <= n <= a.len(),
        n <= b.len(),
        forall|t: int| 0 <= t < n ==> a[t] == b[t],
        n == a.len() || n == b.len() || a[n] != b[n],
    ensures
        common_len(a, b) == n,
        lex_lt(a, b) == (if n == a.len() {
            n < b.len()
        } else {
            n < b.len() && a[n] < b[n]
        }),
{
    lemma_common_len(a, b);
    let c = common_len(a, b) as int;
    if c < n {
        assert(a[c] == b[c]);
    } else if c > n {
        assert(a[n] == b[n]);
    }
}

proof fn lemma_last_increasable(p: Seq<u8>)
    ensures
        -1 <= last_increasable(p) < p.len(),
        last_increasable(p) >= 0 ==> p[last_increasable(p)] != MAX_BYTE,
        forall|t: int| last_increasable(p) < t < p.len() ==> p[t] == MAX_BYTE,
    decreases p.len(),
{
    if p.len() > 0 && p.last() == MAX_BYTE {
        lemma_last_increasable(p.drop_last());
        assert forall|t: int| last_increasable(p) < t < p.len() implies p[t] == MAX_BYTE by {
            if t < p.len() - 1 {
                assert(p[t] == p.drop_last()[t]);
            }
        }
    }
}

/// A key lies in the scan range that `prefix` and its successor bound span
/// exactly when it starts with `prefix`: the range misses no key of the
/// namespace and takes in no other.
pub proof fn lemma_scan_range_is_namespace(prefix: Seq<u8>, key: Seq<u8>)
    ensures
        in_range(key, prefix, successor_of(prefix)) <==> prefix.is_prefix_of(key),
{
    lemma_last_increasable(prefix);
    lemma_common_len(key, prefix);
    let c = common_len(key, prefix) as int;
    let j = last_increasable(prefix);
    lemma_lex_at(key, prefix, c);
    if j >= 0 {
        let u = prefix.subrange(0, j).push((prefix[j] + 1) as u8);
        assert(u.len() == j + 1);
        assert(forall|t: int| 0 <= t < j ==> u[t] == prefix[t]);
        assert(u[j] == prefix[j] + 1);
    }
    if prefix.is_prefix_of(key) {
        assert(forall|t: int| 0 <= t < prefix.len() ==> key[t] == key.subrange(0, prefix.len() as int)[t]);
        assert(c == prefix.len()) by {
            if c < prefix.len() {
                assert(key[c] == prefix[c]);
            }
        }
        if j >= 0 {
            let u = prefix.subrange(0, j).push((prefix[j] + 1) as u8);
            lemma_lex_at(key, u, j);
        }
    } else {
        assert(c < prefix.len()) by {
            if c == prefix.len() {
                assert(key.subrange(0, prefix.len() as int) =~= prefix);
            }
        }
        if c < key.len() && key[c] > prefix[c] {
            // The key passes the prefix at a byte where the bound is no higher.
            assert(c <= j);
            let u = prefix.subrange(0, j).push((prefix[j] + 1) as u8);
            if c < j || key[c] > u[c] {
                lemma_lex_at(key, u, c);
            } else {
                lemma_lex_at(key, u, u.len() as int);
            }
        }
    }
}

/// Two ids share a store key exactly when they are the same id.
pub proof fn lemma_record_key_injective(a: Seq<u8>, b: Seq<u8>)
    ensures
        (record_key_of(a) == record_key_of(b)) <==> (a == b),
{
    if record_key_of(a) == record_key_of(b) {
        let n = record_prefix_spec().len() as int;
        assert(a =~= record_key_of(a).subrange(n, record_key_of(a).len() as int));
        assert(b =~= record_key_of(b).subrange(n, record_key_of(b).len() as int));
    }
}

/// Every record's key lies in the range that a query scans.
pub proof fn lemma_record_key_scanned(id: Seq<u8>)
    ensures
        in_range(record_key_of(id), record_prefix_spec(), successor_of(record_prefix_spec())),
{
    let key = record_key_of(id);
    assert(key.subrange(0, record_prefix_spec().len() as int) =~= record_prefix_spec());
    lemma_scan_range_is_namespace(record_prefix_spec(), key);
}

/// Adding a record under an id that the store already holds replaces the
/// earlier record: writing `first` and then `second` under the id's key
/// leaves the store as writing `second` alone does, with one key for the id
/// and the record of any other id untouched.
pub proof fn lemma_overwrite(
    store: Map<Seq<u8>, Seq<u8>>,
    id: Seq<u8>,
    other: Seq<u8>,
    first: Seq<u8>,
    second: Seq<u8>,
)
    ensures
        store.insert(record_key_of(id), first).insert(record_key_of(id), second) == store.insert(
            record_key_of(id),
            second,
        ),
        store.insert(record_key_of(id), first).insert(record_key_of(id), second)[record_key_of(id)]
            == second,
        store.insert(record_key_of(id), first).insert(record_key_of(id), second).dom() == store.dom().insert(
            record_key_of(id),
        ),
        store.dom().finite() ==> store.insert(record_key_of(id), first).insert(
            record_key_of(id),
            second,
        ).dom().len() == store.dom().insert(record_key_of(id)).len(),
        other != id ==> store.insert(record_key_of(id), first).insert(
            record_key_of(id),
            second,
        ).dom().contains(record_key_of(other)) == store.dom().contains(record_key_of(other)),
        other != id && store.dom().contains(record_key_of(other)) ==> store.insert(
            record_key_of(id),
            first,
        ).insert(record_key_of(id), second)[record_key_of(other)] == store[record_key_of(other)],
{
    lemma_record_key_injective(id, other);
    assert(store.insert(record_key_of(id), first).insert(record_key_of(id), second) =~= store.insert(
        record_key_of(id),
        second,
    ));
}

/// The bytes of the record namespace.
pub fn record_prefix() -> (r: Vec<u8>)
    ensures
        r@ == record_prefix_spec(),
{
    let r = vec![118u8, 101u8, 99u8, 58u8];
    assert(r@ =~= record_prefix_spec());
    r
}

/// The store key of the record with id `id`.
pub fn record_key(id: &str) -> (r: Vec<u8>)
    ensures
        r@ == record_key_of(id.spec_bytes()),
{
    let bytes = id.as_bytes();
    let mut r = record_prefix();
    let mut i: usize = 0;
    while i < bytes.len()
        invariant
            i <= bytes@.len(),
            r@ == record_prefix_spec() + bytes@.subrange(0, i as int),
        decreases bytes@.len() - i,
    {
        r.push(bytes[i]);
        i = i + 1;
        assert(r@ =~= record_prefix_spec() + bytes@.subrange(0, i as int));
    }
    assert(bytes@.subrange(0, i as int) =~= bytes@);
    r
}

/// The least byte string above every key that starts with `prefix`, or
/// `None` where `prefix` is made of largest bytes alone and no such bound
/// exists.
pub fn successor_bound(prefix: &[u8]) -> (r: Option<Vec<u8>>)
    ensures
        r matches Some(u) ==> successor_of(prefix@) == Some(u@),
        r is None ==> successor_of(prefix@) is None,
{
    proof {
        lemma_last_increasable(prefix@);
    }
    let mut n: usize = prefix.len();
    assert(prefix@.subrange(0, n as int) =~= prefix@);
    while n > 0 && prefix[n - 1] == MAX_BYTE
        invariant
            n <= prefix@.len(),
            last_increasable(prefix@) == last_increasable(prefix@.subrange(0, n as int)),
        decreases n,
    {
        assert(prefix@.subrange(0, n as int).drop_last() =~= prefix@.subrange(0, n - 1));
        n = n - 1;
    }
    if n == 0 {
        assert(prefix@.subrange(0, 0) =~= Seq::<u8>::empty());
        None
    } else {
        assert(prefix@.subrange(0, n as int).drop_last() =~= prefix@.subrange(0, n - 1));
        let mut u: Vec<u8> = Vec::new();
        let mut i: usize = 0;
        while i < n - 1
            invariant
                n <= prefix@.len(),
                i <= n - 1,
                u@ == prefix@.subrange(0, i as int),
            decreases n - 1 - i,
        {
            u.push(prefix[i]);
            i = i + 1;
            assert(u@ =~= prefix@.subrange(0, i as int));
        }
        u.push(prefix[n - 1] + 1);
        Some(u)
    }
}

/// The key range that one scan over every vector record covers: from the
/// namespace itself up to, and not including, its successor bound.
pub fn record_scan_range() -> (r: (Vec<u8>, Option<Vec<u8>>))
    ensures
        r.0@ == record_prefix_spec(),
        r.1 matches Some(u) ==> successor_of(record_prefix_spec()) == Some(u@),
        r.1 is None ==> successor_of(record_prefix_spec()) is None,
        forall|key: Seq<u8>|
            #![trigger record_prefix_spec().is_prefix_of(key)]
            in_range(key, r.0@, successor_of(r.0@)) <==> record_prefix_spec().is_prefix_of(key),
{
    let lower = record_prefix();
    let upper = successor_bound(lower.as_slice());
    assert forall|key: Seq<u8>| #![trigger record_prefix_spec().is_prefix_of(key)]
        in_range(key, lower@, successor_of(lower@)) <==> record_prefix_spec().is_prefix_of(key) by {
        lemma_scan_range_is_namespace(lower@, key);
    }
    (lower, upper)
}

} // verus!
