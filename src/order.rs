//! The byte-wise lexicographic order on keys, and sorting by it.
use vstd::prelude::*;

verus! {

/// `a` sorts strictly before `b` byte by byte, a proper prefix first.
pub open spec fn bytes_lt(a: Seq<u8>, b: Seq<u8>) -> bool
    decreases a.len(),
{
    if a.len() == 0 {
        b.len() > 0
    } else if b.len() == 0 {
        false
    } else if a[0] != b[0] {
        a[0] < b[0]
    } else {
        bytes_lt(a.drop_first(), b.drop_first())
    }
}

/// Order on (key, position) pairs: by key, then by position.
pub open spec fn keyed_lt(a: (Seq<u8>, usize), b: (Seq<u8>, usize)) -> bool {
    bytes_lt(a.0, b.0) || (a.0 == b.0 && a.1 < b.1)
}

pub proof fn lemma_bytes_lt_irreflexive(a: Seq<u8>)
    ensures
        !bytes_lt(a, a),
    decreases a.len(),
{
    if a.len() > 0 {
        lemma_bytes_lt_irreflexive(a.drop_first());
    }
}

pub proof fn lemma_bytes_lt_transitive(a: Seq<u8>, b: Seq<u8>, c: Seq<u8>)
    requires
        bytes_lt(a, b),
        bytes_lt(b, c),
    ensures
        bytes_lt(a, c),
    decreases a.len(),
{
    if a.len() > 0 && b.len() > 0 && c.len() > 0 && a[0] == b[0] && b[0] == c[0] {
        lemma_bytes_lt_transitive(a.drop_first(), b.drop_first(), c.drop_first());
    }
}

pub proof fn lemma_bytes_lt_total(a: Seq<u8>, b: Seq<u8>)
    ensures
        a == b || bytes_lt(a, b) || bytes_lt(b, a),
    decreases a.len(),
{
    if a.len() > 0 && b.len() > 0 && a[0] == b[0] {
        lemma_bytes_lt_total(a.drop_first(), b.drop_first());
        if a.drop_first() == b.drop_first() {
            assert(a =~= seq![a[0]] + a.drop_first());
            assert(b =~= seq![b[0]] + b.drop_first());
        }
    }
}

pub proof fn lemma_bytes_lt_asymmetric(a: Seq<u8>, b: Seq<u8>)
    ensures
        !(bytes_lt(a, b) && bytes_lt(b, a)),
{
    if bytes_lt(a, b) && bytes_lt(b, a) {
        lemma_bytes_lt_transitive(a, b, a);
        lemma_bytes_lt_irreflexive(a);
    }
}

pub proof fn lemma_keyed_lt_facts()
    ensures
        forall|a: (Seq<u8>, usize)| !keyed_lt(a, a),
        forall|a: (Seq<u8>, usize), b: (Seq<u8>, usize)|
            a == b || keyed_lt(a, b) || keyed_lt(b, a),
        forall|a: (Seq<u8>, usize), b: (Seq<u8>, usize)|
            #[trigger] keyed_lt(a, b) ==> !keyed_lt(b, a),
        forall|a: (Seq<u8>, usize), b: (Seq<u8>, usize), c: (Seq<u8>, usize)|
            #[trigger] keyed_lt(a, b) && #[trigger] keyed_lt(b, c) ==> keyed_lt(a, c),
{
    assert forall|a: (Seq<u8>, usize)| !keyed_lt(a, a) by {
        lemma_bytes_lt_irreflexive(a.0);
    }
    assert forall|a: (Seq<u8>, usize), b: (Seq<u8>, usize)|
        a == b || keyed_lt(a, b) || keyed_lt(b, a) by {
        lemma_bytes_lt_total(a.0, b.0);
    }
    assert forall|a: (Seq<u8>, usize), b: (Seq<u8>, usize)|
        #[trigger] keyed_lt(a, b) implies !keyed_lt(b, a) by {
        lemma_bytes_lt_asymmetric(a.0, b.0);
        lemma_bytes_lt_irreflexive(a.0);
    }
    assert forall|a: (Seq<u8>, usize), b: (Seq<u8>, usize), c: (Seq<u8>, usize)|
        #[trigger] keyed_lt(a, b) && #[trigger] keyed_lt(b, c) implies keyed_lt(a, c) by {
        if bytes_lt(a.0, b.0) && bytes_lt(b.0, c.0) {
            lemma_bytes_lt_transitive(a.0, b.0, c.0);
        }
    }
}

/// Relies on `slice::sort` of std: afterwards the items are in ascending order
/// and are the same items as before. `Vec<u8>` compares lexicographically (a
/// proper prefix first) and a pair compares its first field, then its second.
#[verifier::external_body]
pub(crate) fn sort_keyed(v: Vec<(Vec<u8>, usize)>) -> (r: Vec<(Vec<u8>, usize)>)
    ensures
        r.deep_view().to_multiset() == v.deep_view().to_multiset(),
        forall|i: int, j: int|
            0 <= i < j < r.len() ==> !keyed_lt(r.deep_view()[j], r.deep_view()[i]),
{
    let mut v = v;
    v.sort();
    v
}

/// Two sequences that are strictly ascending under the same strict order and
/// hold the same items are equal.
pub proof fn lemma_strictly_sorted_unique<T>(s: Seq<T>, t: Seq<T>, lt: spec_fn(T, T) -> bool)
    requires
        forall|x: T| !#[trigger] lt(x, x),
        forall|x: T, y: T| #[trigger] lt(x, y) ==> !lt(y, x),
        forall|i: int, j: int| 0 <= i < j < s.len() ==> lt(s[i], s[j]),
        forall|i: int, j: int| 0 <= i < j < t.len() ==> lt(t[i], t[j]),
        forall|x: T| s.contains(x) <==> t.contains(x),
    ensures
        s == t,
{
    let n = if s.len() <= t.len() {
        s.len() as int
    } else {
        t.len() as int
    };
    lemma_sorted_prefix_equal(s, t, lt, n);
    if s.len() > t.len() {
        let x = s[n];
        assert(s.contains(x));
        let q = choose|q: int| 0 <= q < t.len() && t[q] == x;
        assert(lt(s[q], s[n]));
    } else if t.len() > s.len() {
        let x = t[n];
        assert(t.contains(x));
        let q = choose|q: int| 0 <= q < s.len() && s[q] == x;
        assert(lt(t[q], t[n]));
    }
    assert(s =~= t);
}

proof fn lemma_sorted_prefix_equal<T>(s: Seq<T>, t: Seq<T>, lt: spec_fn(T, T) -> bool, k: int)
    requires
        0 <= k <= s.len(),
        k <= t.len(),
        forall|x: T| !#[trigger] lt(x, x),
        forall|x: T, y: T| #[trigger] lt(x, y) ==> !lt(y, x),
        forall|i: int, j: int| 0 <= i < j < s.len() ==> lt(s[i], s[j]),
        forall|i: int, j: int| 0 <= i < j < t.len() ==> lt(t[i], t[j]),
        forall|x: T| s.contains(x) <==> t.contains(x),
    ensures
        forall|i: int| 0 <= i < k ==> s[i] == t[i],
    decreases k,
{
    if k > 0 {
        let m = k - 1;
        lemma_sorted_prefix_equal(s, t, lt, m);
        if s[m] != t[m] {
            assert(s.contains(s[m]));
            let q = choose|q: int| 0 <= q < t.len() && t[q] == s[m];
            assert(t.contains(t[m]));
            let r = choose|r: int| 0 <= r < s.len() && s[r] == t[m];
            if q < m {
                assert(lt(s[q], s[m]));
            } else if r < m {
                assert(lt(t[r], t[m]));
            } else {
                assert(q != m && r != m);
                assert(lt(t[m], t[q]));
                assert(lt(s[m], s[r]));
            }
        }
    }
}

} // verus!
