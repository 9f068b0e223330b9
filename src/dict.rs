//! Grouping of entries by surface form, the packed cost records, and the key
//! set of the surface-form index.
use crate::error::ParsingError;
use crate::le::{i16_bytes, le16, le32, le_i16, u16_bytes, u32_bytes};
use crate::mecab::Word;
use crate::order::{
    bytes_lt, keyed_lt, lemma_bytes_lt_asymmetric, lemma_bytes_lt_irreflexive,
    lemma_keyed_lt_facts, lemma_strictly_sorted_unique, sort_keyed,
};
use vstd::prelude::*;
use vstd::slice::slice_to_vec;
use vstd::utf8::encode_utf8;

verus! {

/// The most entries the index can address: a packed value keeps the first
/// record of a group above five bits of count, under the trie's flag bit.
pub const MAX_RECORDS: usize = 67108864;

/// The most entries that one surface form can have.
pub const MAX_GROUP: usize = 31;

/// The fixed-width record of one entry, in the order of the index.
#[derive(Debug, Clone, Copy, PartialEq, Eq, Structural)]
pub struct CostRecord {
    pub id: u32,
    pub is_known: bool,
    pub cost: i16,
    pub cost_id: u16,
}

/// The grouped form of an entry sequence: the sorted key set of the index, the
/// record stream, and for each record the position of the entry it was made from.
pub struct Grouped {
    pub keyset: Vec<(Vec<u8>, u32)>,
    pub records: Vec<CostRecord>,
    pub sources: Vec<usize>,
}

/// The UTF-8 bytes of an entry's surface form.
pub open spec fn surface(w: Word) -> Seq<u8> {
    encode_utf8(w.word@)
}

/// An entry whose cost fits a record; the others are dropped.
pub open spec fn kept(w: Word) -> bool {
    i16::MIN <= w.word_cost <= i16::MAX
}

/// The (surface, position) pairs of the kept entries among the first `n`, in
/// source order.
pub open spec fn kept_keys(words: Seq<Word>, n: int) -> Seq<(Seq<u8>, usize)>
    decreases n,
{
    if n <= 0 {
        Seq::empty()
    } else if kept(words[n - 1]) {
        kept_keys(words, n - 1).push((surface(words[n - 1]), (n - 1) as usize))
    } else {
        kept_keys(words, n - 1)
    }
}

/// How many entries are kept.
pub open spec fn kept_count(words: Seq<Word>) -> int {
    kept_keys(words, words.len() as int).len() as int
}

/// The record made for the entry `w` under the identifier `id`.
pub open spec fn record_for(id: int, w: Word) -> CostRecord {
    CostRecord { id: id as u32, is_known: true, cost: w.word_cost as i16, cost_id: 0 }
}

/// First record of the group that a packed index value addresses.
pub open spec fn value_start(v: u32) -> int {
    v as int / 32
}

/// Number of records of the group that a packed index value addresses.
pub open spec fn value_len(v: u32) -> int {
    v as int % 32
}

/// `ix` lists more entries with one surface form than a group can hold.
pub open spec fn homographs(words: Seq<Word>, ix: Seq<int>) -> bool {
    &&& ix.len() == MAX_GROUP + 1
    &&& forall|j: int| 0 <= j < ix.len() ==> 0 <= #[trigger] ix[j] < words.len()
    &&& forall|j: int| 0 <= j < ix.len() ==> kept(#[trigger] words[ix[j]])
    &&& forall|j: int| 0 <= j < ix.len() ==> surface(#[trigger] words[ix[j]]) == surface(words[ix[0]])
    &&& forall|j: int, l: int| 0 <= j < l < ix.len() ==> ix[j] < ix[l]
}

/// Some surface form has more kept entries than a group can hold.
pub open spec fn has_oversized_group(words: Seq<Word>) -> bool {
    exists|ix: Seq<int>| homographs(words, ix)
}

/// `g` is the grouping of `words`: the records are the kept entries sorted by
/// surface form and then by source position, numbered densely from 0; the keys
/// are the distinct surface forms in ascending byte order; and the value of
/// each key addresses exactly the records of that surface form.
pub open spec fn is_grouping(words: Seq<Word>, g: Grouped) -> bool {
    let src = g.sources@;
    let keys = g.keyset.deep_view();
    &&& src.len() == g.records@.len()
    &&& forall|p: int| 0 <= p < src.len() ==> #[trigger] src[p] < words.len()
    &&& forall|p: int| 0 <= p < src.len() ==> kept(words[#[trigger] src[p] as int])
    &&& forall|p: int|
        0 <= p < src.len() ==> #[trigger] g.records@[p] == record_for(p, words[src[p] as int])
    &&& forall|i: int|
        0 <= i < words.len() && kept(#[trigger] words[i]) ==> exists|p: int|
            0 <= p < src.len() && src[p] == i
    &&& forall|p: int, q: int|
        0 <= p < q < src.len() ==> keyed_lt(
            (surface(words[src[p] as int]), #[trigger] src[p]),
            (surface(words[src[q] as int]), #[trigger] src[q]),
        )
    &&& keys_address_groups(words, g)
}

/// The keys of `g` are the distinct surface forms of its records in ascending
/// byte order, and the value of each addresses exactly the records of its form.
pub open spec fn keys_address_groups(words: Seq<Word>, g: Grouped) -> bool {
    let src = g.sources@;
    let keys = g.keyset.deep_view();
    &&& forall|k: int, l: int|
        0 <= k < l < keys.len() ==> bytes_lt(#[trigger] keys[k].0, #[trigger] keys[l].0)
    &&& forall|k: int|
        0 <= k < keys.len() ==> 0 < value_len(#[trigger] keys[k].1) && value_start(keys[k].1)
            + value_len(keys[k].1) <= src.len()
    &&& forall|k: int, p: int|
        0 <= k < keys.len() && 0 <= p < src.len() ==> (value_start(#[trigger] keys[k].1) <= p
            < value_start(keys[k].1) + value_len(keys[k].1) <==> surface(
            words[#[trigger] src[p] as int],
        ) == keys[k].0)
    &&& forall|p: int|
        0 <= p < src.len() ==> is_key(keys, surface(words[#[trigger] src[p] as int]))
}

/// `b` is one of the keys.
pub open spec fn is_key(keys: Seq<(Seq<u8>, u32)>, b: Seq<u8>) -> bool {
    exists|k: int| 0 <= k < keys.len() && #[trigger] keys[k].0 == b
}

proof fn lemma_kept_keys(words: Seq<Word>, n: int)
    requires
        0 <= n <= words.len() <= usize::MAX,
    ensures
        forall|p: int|
            0 <= p < kept_keys(words, n).len() ==> {
                let e = #[trigger] kept_keys(words, n)[p];
                &&& e.1 < n
                &&& kept(words[e.1 as int])
                &&& e.0 == surface(words[e.1 as int])
            },
        forall|p: int, q: int|
            0 <= p < q < kept_keys(words, n).len() ==> #[trigger] kept_keys(words, n)[p].1
                < #[trigger] kept_keys(words, n)[q].1,
        forall|i: int|
            0 <= i < n && kept(#[trigger] words[i]) ==> kept_keys(words, n).contains(
                (surface(words[i]), i as usize),
            ),
        kept_keys(words, n).len() <= n,
    decreases n,
{
    if n > 0 {
        lemma_kept_keys(words, n - 1);
        let prev = kept_keys(words, n - 1);
        if kept(words[n - 1]) {
            let cur = kept_keys(words, n);
            assert(cur == prev.push((surface(words[n - 1]), (n - 1) as usize)));
            assert forall|p: int, q: int| 0 <= p < q < cur.len() implies #[trigger] cur[p].1
                < #[trigger] cur[q].1 by {
                if q < prev.len() {
                    assert(cur[p] == prev[p] && cur[q] == prev[q]);
                } else {
                    assert(cur[p] == prev[p]);
                }
            }
            assert forall|i: int| 0 <= i < n && kept(#[trigger] words[i]) implies cur.contains(
                (surface(words[i]), i as usize),
            ) by {
                if i < n - 1 {
                    let p = choose|p: int| 0 <= p < prev.len() && prev[p] == (surface(words[i]), i as usize);
                    assert(cur[p] == prev[p]);
                } else {
                    assert(cur[prev.len() as int] == (surface(words[i]), i as usize));
                }
            }
        }
    }
}

/// Byte-wise equality of two keys.
fn same_bytes(a: &Vec<u8>, b: &Vec<u8>) -> (r: bool)
    ensures
        r == (a@ == b@),
{
    if a.len() != b.len() {
        return false;
    }
    let mut i: usize = 0;
    while i < a.len()
        invariant
            a.len() == b.len(),
            0 <= i <= a.len(),
            forall|j: int| 0 <= j < i ==> a@[j] == b@[j],
        decreases a.len() - i,
    {
        if a[i] != b[i] {
            return false;
        }
        i = i + 1;
    }
    assert(a@ =~= b@);
    true
}

/// Keys of a strictly ascending sequence of pairs never go down.
proof fn lemma_keys_ascending(s: Seq<(Seq<u8>, usize)>, i: int, j: int)
    requires
        forall|a: int, b: int| 0 <= a < b < s.len() ==> keyed_lt(s[a], s[b]),
        0 <= i <= j < s.len(),
    ensures
        s[i].0 == s[j].0 || bytes_lt(s[i].0, s[j].0),
{
    if i < j {
        assert(keyed_lt(s[i], s[j]));
    }
}

/// Between a change of key before `a` and one after `b`, the positions that
/// hold the key of `a` are exactly `a..=b`.
proof fn lemma_group_bounds(s: Seq<(Seq<u8>, usize)>, a: int, b: int)
    requires
        forall|x: int, y: int| 0 <= x < y < s.len() ==> keyed_lt(s[x], s[y]),
        0 <= a <= b < s.len(),
        forall|q: int| a <= q <= b ==> s[q].0 == s[a].0,
        a == 0 || s[a - 1].0 != s[a].0,
        b == s.len() - 1 || s[b].0 != s[b + 1].0,
    ensures
        forall|q: int| 0 <= q < s.len() ==> (a <= q <= b <==> s[q].0 == s[a].0),
{
    assert forall|q: int| 0 <= q < s.len() implies (a <= q <= b <==> s[q].0 == s[a].0) by {
        if q < a {
            lemma_keys_ascending(s, q, a - 1);
            lemma_keys_ascending(s, a - 1, a);
            if s[q].0 != s[a - 1].0 {
                crate::order::lemma_bytes_lt_transitive(s[q].0, s[a - 1].0, s[a].0);
            }
            lemma_bytes_lt_irreflexive(s[a].0);
        } else if q > b {
            lemma_keys_ascending(s, b, b + 1);
            lemma_keys_ascending(s, b + 1, q);
            if s[b + 1].0 != s[q].0 {
                crate::order::lemma_bytes_lt_transitive(s[b].0, s[b + 1].0, s[q].0);
            }
            lemma_bytes_lt_irreflexive(s[b].0);
        }
    }
}

proof fn lemma_pack(start: u32, len: u32)
    requires
        start < 67108864,
        len < 32,
    ensures
        (start << 5u32) | len == start * 32 + len,
        value_start(((start << 5u32) | len) as u32) == start,
        value_len(((start << 5u32) | len) as u32) == len,
{
    assert((start << 5u32) | len == start * 32 + len) by (bit_vector)
        requires
            start < 67108864,
            len < 32,
    ;
    let v: int = start as int * 32 + len as int;
    assert(v / 32 == start as int && v % 32 == len as int) by (nonlinear_arith)
        requires
            v == start as int * 32 + len as int,
            0 <= len < 32,
            start >= 0,
    ;
}

/// A grouping leaves no surface form with more entries than a group can hold:
/// the count field of a packed value has five bits.
proof fn lemma_grouping_bounds_groups(words: Seq<Word>, g: Grouped)
    requires
        is_grouping(words, g),
    ensures
        !has_oversized_group(words),
{
    let src = g.sources@;
    let keys = g.keyset.deep_view();
    if exists|ix: Seq<int>| homographs(words, ix) {
        let ix = choose|ix: Seq<int>| homographs(words, ix);
        let pos = |j: int| choose|p: int| 0 <= p < src.len() && src[p] == ix[j];
        assert forall|j: int| 0 <= j < ix.len() implies 0 <= #[trigger] pos(j) < src.len()
            && src[pos(j)] == ix[j] by {
            assert(kept(words[ix[j]]));
        }
        lemma_keyed_lt_facts();
        assert forall|j: int, l: int| 0 <= j < l < ix.len() implies #[trigger] pos(j) < #[trigger] pos(l) by {
            assert(ix[j] < ix[l]);
            let a = (surface(words[src[pos(j)] as int]), src[pos(j)]);
            let b = (surface(words[src[pos(l)] as int]), src[pos(l)]);
            assert(keyed_lt(a, b));
            if pos(l) < pos(j) {
                assert(keyed_lt(b, a));
            }
        }
        let p0 = pos(0);
        let k = choose|k: int| 0 <= k < keys.len() && #[trigger] keys[k].0 == surface(words[src[p0] as int]);
        let last = ix.len() - 1;
        lemma_positions_spread(pos, ix.len() as int, last);
        assert(value_start(keys[k].1) <= p0 < value_start(keys[k].1) + value_len(keys[k].1));
        assert(surface(words[src[pos(last)] as int]) == keys[k].0);
        assert(pos(last) < value_start(keys[k].1) + value_len(keys[k].1));
    }
}

proof fn lemma_positions_spread(pos: spec_fn(int) -> int, n: int, j: int)
    requires
        0 <= j < n,
        forall|a: int, b: int| 0 <= a < b < n ==> #[trigger] pos(a) < #[trigger] pos(b),
    ensures
        pos(j) >= pos(0) + j,
    decreases j,
{
    if j > 0 {
        lemma_positions_spread(pos, n, j - 1);
        assert(pos(j - 1) < pos(j));
    }
}

/// Groups the entries by surface form: drops those whose cost does not fit a
/// record, sorts the rest by surface bytes and then by source position, numbers
/// them from 0 in that order, and packs the first number and the size of each
/// group into the value of its key.
pub fn group_entries(words: &Vec<Word>) -> (r: Result<Grouped, ParsingError>)
    ensures
        kept_count(words@) > MAX_RECORDS ==> r matches Err(ParsingError::TooManyEntries),
        kept_count(words@) <= MAX_RECORDS && has_oversized_group(words@) ==> r matches Err(
            ParsingError::OversizedGroup(_),
        ),
        kept_count(words@) <= MAX_RECORDS && !has_oversized_group(words@) ==> (r matches Ok(g)
            && is_grouping(words@, g)),
{
    let ghost w = words@;
    let mut keyed: Vec<(Vec<u8>, usize)> = Vec::new();
    let mut i: usize = 0;
    while i < words.len()
        invariant
            0 <= i <= words.len(),
            w == words@,
            keyed.deep_view() == kept_keys(w, i as int),
        decreases words.len() - i,
    {
        let wd = &words[i];
        if wd.word_cost >= -32768 && wd.word_cost <= 32767 {
            let b = slice_to_vec(wd.word.as_str().as_bytes());
            let ghost before = keyed.deep_view();
            let ghost old_keyed = keyed@;
            assert(b@ == surface(w[i as int]));
            keyed.push((b, i));
            assert(keyed@ == old_keyed.push((b, i)));
            assert forall|j: int| 0 <= j < before.len() implies keyed.deep_view()[j] == before[j] by {
                assert(keyed@[j] == old_keyed[j]);
            }
            assert(keyed.deep_view()[before.len() as int] == (surface(w[i as int]), i));
            assert(keyed.deep_view() =~= before.push((surface(w[i as int]), i)));
        }
        i = i + 1;
    }
    if keyed.len() > MAX_RECORDS {
        return Err(ParsingError::TooManyEntries);
    }
    let ghost kk = keyed.deep_view();
    proof {
        lemma_kept_keys(w, w.len() as int);
        assert(kk.no_duplicates());
        kk.lemma_multiset_has_no_duplicates();
    }
    let sorted = sort_keyed(keyed);
    let ghost s = sorted.deep_view();
    proof {
        broadcast use vstd::seq_lib::group_to_multiset_ensures;

        s.to_multiset_ensures();
        kk.to_multiset_ensures();
        lemma_keyed_lt_facts();
        assert(forall|x| s.contains(x) <==> s.to_multiset().count(x) > 0);
        assert(forall|x| kk.contains(x) <==> kk.to_multiset().count(x) > 0);
        s.lemma_multiset_has_no_duplicates_conv();
        assert forall|a: int, b: int| 0 <= a < b < s.len() implies keyed_lt(s[a], s[b]) by {
            assert(!keyed_lt(s[b], s[a]));
        }
        assert forall|q: int| 0 <= q < s.len() implies ({
            &&& (#[trigger] s[q]).1 < w.len()
            &&& kept(w[s[q].1 as int])
            &&& s[q].0 == surface(w[s[q].1 as int])
        }) by {
            assert(s.contains(s[q]));
            assert(kk.contains(s[q]));
        }
        assert(s.len() == kk.len());
    }
    let m = sorted.len();
    let mut records: Vec<CostRecord> = Vec::new();
    let mut sources: Vec<usize> = Vec::new();
    let mut keyset: Vec<(Vec<u8>, u32)> = Vec::new();
    let mut start: usize = 0;
    let mut p: usize = 0;
    while p < m
        invariant
            w == words@,
            s == sorted.deep_view(),
            m == s.len(),
            m == kept_count(w),
            m <= MAX_RECORDS,
            forall|x: int, y: int| 0 <= x < y < s.len() ==> keyed_lt(s[x], s[y]),
            forall|q: int|
                0 <= q < s.len() ==> {
                    &&& (#[trigger] s[q]).1 < w.len()
                    &&& kept(w[s[q].1 as int])
                    &&& s[q].0 == surface(w[s[q].1 as int])
                },
            0 <= start <= p <= m,
            records@.len() == p,
            sources@.len() == p,
            forall|q: int| 0 <= q < p ==> #[trigger] sources@[q] == s[q].1,
            forall|q: int| 0 <= q < p ==> #[trigger] records@[q] == record_for(q, w[s[q].1 as int]),
            forall|q: int| start <= q < p ==> #[trigger] s[q].0 == s[start as int].0,
            0 < start < m ==> s[start - 1].0 != s[start as int].0,
            start < p < m ==> s[p - 1].0 == s[p as int].0,
            p == m ==> start == m,
            forall|k: int|
                0 <= k < keyset.deep_view().len() ==> 0 < value_len(
                    #[trigger] keyset.deep_view()[k].1,
                ) && value_start(keyset.deep_view()[k].1) + value_len(keyset.deep_view()[k].1)
                    <= start,
            forall|k: int, q: int|
                0 <= k < keyset.deep_view().len() && 0 <= q < m ==> (value_start(
                    #[trigger] keyset.deep_view()[k].1,
                ) <= q < value_start(keyset.deep_view()[k].1) + value_len(
                    keyset.deep_view()[k].1,
                ) <==> #[trigger] s[q].0 == keyset.deep_view()[k].0),
            forall|k: int, l: int|
                0 <= k < l < keyset.deep_view().len() ==> bytes_lt(
                    #[trigger] keyset.deep_view()[k].0,
                    #[trigger] keyset.deep_view()[l].0,
                ),
            forall|q: int|
                0 <= q < start ==> exists|k: int|
                    0 <= k < keyset.deep_view().len() && #[trigger] keyset.deep_view()[k].0
                        == #[trigger] s[q].0,
        decreases m - p,
    {
        let src = sorted[p].1;
        assert(s[p as int].1 == src);
        records.push(CostRecord { id: p as u32, is_known: true, cost: words[src].word_cost as i16, cost_id: 0 });
        sources.push(src);
        let ends = p + 1 == m || !same_bytes(&sorted[p].0, &sorted[p + 1].0);
        assert(p + 1 < m ==> s[p as int].0 == sorted[p as int].0@ && s[p + 1].0 == sorted[p + 1].0@);
        assert(s[p as int].0 == s[start as int].0);
        if ends {
            let len = p + 1 - start;
            if len > MAX_GROUP {
                proof {
                    let ix = Seq::new((MAX_GROUP + 1) as nat, |j: int| s[start + j].1 as int);
                    assert forall|j: int, l: int| 0 <= j < l < ix.len() implies ix[j] < ix[l] by {
                        assert(keyed_lt(s[start + j], s[start + l]));
                        assert(s[start + j].0 == s[start as int].0);
                        assert(s[start + l].0 == s[start as int].0);
                        lemma_bytes_lt_irreflexive(s[start as int].0);
                    }
                    assert forall|j: int| 0 <= j < ix.len() implies surface(#[trigger] w[ix[j]]) == surface(w[ix[0]]) by {
                        assert(s[start + j].0 == s[start as int].0);
                    }
                    assert(homographs(w, ix));
                }
                return Err(ParsingError::OversizedGroup(words[src].word.clone()));
            }
            let ghost old_keys = keyset.deep_view();
            proof {
                lemma_group_bounds(s, start as int, p as int);
                lemma_pack(start as u32, len as u32);
            }
            let key = slice_to_vec(sorted[p].0.as_slice());
            keyset.push((key, ((start as u32) << 5u32) | len as u32));
            proof {
                let nk = keyset.deep_view();
                assert(nk =~= old_keys.push((s[p as int].0, ((start as u32) << 5u32) | len as u32)));
                assert forall|k: int, l: int| 0 <= k < l < nk.len() implies bytes_lt(
                    #[trigger] nk[k].0, #[trigger] nk[l].0) by {
                    if l == nk.len() - 1 {
                        let e = value_start(nk[k].1) + value_len(nk[k].1) - 1;
                        assert(s[e].0 == nk[k].0);
                        lemma_keys_ascending(s, e, p as int);
                    }
                }
                assert forall|q: int| 0 <= q < p + 1 implies exists|k: int|
                    0 <= k < nk.len() && #[trigger] nk[k].0 == #[trigger] s[q].0 by {
                    if q >= start {
                        assert(nk[nk.len() - 1].0 == s[q].0);
                    } else {
                        let k = choose|k: int| 0 <= k < old_keys.len() && #[trigger] old_keys[k].0 == s[q].0;
                        assert(nk[k] == old_keys[k]);
                    }
                }
            }
            start = p + 1;
        }
        p = p + 1;
    }
    let g = Grouped { keyset, records, sources };
    proof {
        let src = g.sources@;
        assert forall|i: int| 0 <= i < w.len() && kept(#[trigger] w[i]) implies exists|p: int|
            0 <= p < src.len() && src[p] == i by {
            assert(kk.contains((surface(w[i]), i as usize)));
            assert(s.contains((surface(w[i]), i as usize)));
            let q = choose|q: int| 0 <= q < s.len() && s[q] == (surface(w[i]), i as usize);
            assert(src[q] == i);
        }
        let keys = g.keyset.deep_view();
        assert forall|p: int| 0 <= p < src.len() implies is_key(keys, surface(w[#[trigger] src[p] as int])) by {
            assert(s[p].0 == surface(w[src[p] as int]));
            let k = choose|k: int| 0 <= k < keys.len() && #[trigger] keys[k].0 == s[p].0;
            assert(keys[k].0 == surface(w[src[p] as int]));
        }
        assert(is_grouping(w, g));
        lemma_grouping_bounds_groups(w, g);
    }
    Ok(g)
}

proof fn lemma_value_parts(v1: u32, v2: u32)
    requires
        value_start(v1) == value_start(v2),
        value_len(v1) == value_len(v2),
    ensures
        v1 == v2,
{
    let a = v1 as int;
    let b = v2 as int;
    assert(a == 32 * (a / 32) + a % 32) by (nonlinear_arith);
    assert(b == 32 * (b / 32) + b % 32) by (nonlinear_arith);
}

/// The entries determine their grouping: two groupings of the same entries
/// have the same records, sources and key set, byte for byte.
pub proof fn lemma_grouping_unique(words: Seq<Word>, g1: Grouped, g2: Grouped)
    requires
        is_grouping(words, g1),
        is_grouping(words, g2),
    ensures
        g1.sources@ == g2.sources@,
        g1.records@ == g2.records@,
        g1.keyset.deep_view() == g2.keyset.deep_view(),
{
    let s1 = g1.sources@;
    let s2 = g2.sources@;
    let p1 = s1.map_values(|i: usize| (surface(words[i as int]), i));
    let p2 = s2.map_values(|i: usize| (surface(words[i as int]), i));
    lemma_keyed_lt_facts();
    assert forall|x: (Seq<u8>, usize)| p1.contains(x) <==> p2.contains(x) by {
        if p1.contains(x) {
            let p = choose|p: int| 0 <= p < p1.len() && p1[p] == x;
            assert(s1[p] < words.len() && kept(words[s1[p] as int]));
            let q = choose|q: int| 0 <= q < s2.len() && s2[q] == s1[p] as int;
            assert(p2[q] == x);
        }
        if p2.contains(x) {
            let q = choose|q: int| 0 <= q < p2.len() && p2[q] == x;
            assert(s2[q] < words.len() && kept(words[s2[q] as int]));
            let p = choose|p: int| 0 <= p < s1.len() && s1[p] == s2[q] as int;
            assert(p1[p] == x);
        }
    }
    assert forall|i: int, j: int| 0 <= i < j < p1.len() implies keyed_lt(p1[i], p1[j]) by {
        assert(keyed_lt((surface(words[s1[i] as int]), s1[i]), (surface(words[s1[j] as int]), s1[j])));
    }
    assert forall|i: int, j: int| 0 <= i < j < p2.len() implies keyed_lt(p2[i], p2[j]) by {
        assert(keyed_lt((surface(words[s2[i] as int]), s2[i]), (surface(words[s2[j] as int]), s2[j])));
    }
    let klt = |a: (Seq<u8>, usize), b: (Seq<u8>, usize)| keyed_lt(a, b);
    assert(forall|x: (Seq<u8>, usize)| !#[trigger] klt(x, x));
    assert(forall|x: (Seq<u8>, usize), y: (Seq<u8>, usize)| #[trigger] klt(x, y) ==> !klt(y, x));
    lemma_strictly_sorted_unique(p1, p2, klt);
    assert forall|p: int| 0 <= p < s1.len() implies s1[p] == s2[p] by {
        assert(p1[p] == p2[p]);
    }
    assert(s1 =~= s2);
    assert(g1.records@ =~= g2.records@);
    // the keys
    let d1 = g1.keyset.deep_view();
    let d2 = g2.keyset.deep_view();
    let k1 = d1.map_values(|e: (Seq<u8>, u32)| e.0);
    let k2 = d2.map_values(|e: (Seq<u8>, u32)| e.0);
    assert forall|b: Seq<u8>| k1.contains(b) <==> k2.contains(b) by {
        if k1.contains(b) {
            let k = choose|k: int| 0 <= k < k1.len() && k1[k] == b;
            let p = value_start(d1[k].1);
            assert(surface(words[s1[p] as int]) == b);
            assert(is_key(d2, surface(words[s2[p] as int])));
            let l = choose|l: int| 0 <= l < d2.len() && #[trigger] d2[l].0 == surface(words[s2[p] as int]);
            assert(k2[l] == b);
        }
        if k2.contains(b) {
            let k = choose|k: int| 0 <= k < k2.len() && k2[k] == b;
            let p = value_start(d2[k].1);
            assert(surface(words[s2[p] as int]) == b);
            assert(is_key(d1, surface(words[s1[p] as int])));
            let l = choose|l: int| 0 <= l < d1.len() && #[trigger] d1[l].0 == surface(words[s1[p] as int]);
            assert(k1[l] == b);
        }
    }
    assert forall|i: int, j: int| 0 <= i < j < k1.len() implies bytes_lt(k1[i], k1[j]) by {
        assert(bytes_lt(d1[i].0, d1[j].0));
    }
    assert forall|i: int, j: int| 0 <= i < j < k2.len() implies bytes_lt(k2[i], k2[j]) by {
        assert(bytes_lt(d2[i].0, d2[j].0));
    }
    let blt = |a: Seq<u8>, b: Seq<u8>| bytes_lt(a, b);
    assert forall|x: Seq<u8>| !#[trigger] blt(x, x) by {
        lemma_bytes_lt_irreflexive(x);
    }
    assert forall|x: Seq<u8>, y: Seq<u8>| #[trigger] blt(x, y) implies !blt(y, x) by {
        lemma_bytes_lt_asymmetric(x, y);
    }
    lemma_strictly_sorted_unique(k1, k2, blt);
    assert forall|k: int| 0 <= k < d1.len() implies d1[k] == d2[k] by {
        assert(k1[k] == k2[k]);
        let (a1, b1) = (value_start(d1[k].1), value_start(d1[k].1) + value_len(d1[k].1));
        let (a2, b2) = (value_start(d2[k].1), value_start(d2[k].1) + value_len(d2[k].1));
        assert(a1 <= a1 < b1 <= s1.len());
        assert(surface(words[s1[a1] as int]) == d1[k].0);
        assert(a2 <= a1);
        assert(surface(words[s2[a2] as int]) == d2[k].0);
        assert(a1 <= a2);
        assert(surface(words[s1[b1 - 1] as int]) == d1[k].0);
        assert(b1 - 1 < b2);
        assert(surface(words[s2[b2 - 1] as int]) == d2[k].0);
        assert(b2 - 1 < b1);
        lemma_value_parts(d1[k].1, d2[k].1);
    }
    assert(d1 =~= d2);
}

/// The bytes of one record: its identifier in four bytes, its cost in two and
/// its class in two, all little-endian.
pub open spec fn record_bytes(r: CostRecord) -> Seq<u8> {
    le32(r.id) + le_i16(r.cost) + le16(r.cost_id)
}

/// The bytes of a record stream, in order.
pub open spec fn records_bytes(rs: Seq<CostRecord>) -> Seq<u8>
    decreases rs.len(),
{
    if rs.len() == 0 {
        Seq::empty()
    } else {
        records_bytes(rs.drop_last()) + record_bytes(rs.last())
    }
}

/// Serialises the record stream, each record in eight bytes.
pub fn values_bytes(records: &Vec<CostRecord>) -> (r: Vec<u8>)
    ensures
        r@ == records_bytes(records@),
{
    let mut out: Vec<u8> = Vec::new();
    let mut i: usize = 0;
    while i < records.len()
        invariant
            0 <= i <= records.len(),
            out@ == records_bytes(records@.take(i as int)),
        decreases records.len() - i,
    {
        let r = records[i];
        let mut a = u32_bytes(r.id);
        let mut b = i16_bytes(r.cost);
        let mut c = u16_bytes(r.cost_id);
        let ghost before = out@;
        out.append(&mut a);
        out.append(&mut b);
        out.append(&mut c);
        assert(records@.take(i + 1).drop_last() =~= records@.take(i as int));
        assert(out@ =~= before + record_bytes(r));
        i = i + 1;
    }
    assert(records@.take(records.len() as int) =~= records@);
    out
}

/// The value of key `k` addresses exactly the records of the kept entries
/// whose surface form is that key, in source order.
pub open spec fn addresses_group(words: Seq<Word>, g: Grouped, k: int) -> bool {
    let src = g.sources@;
    let key = g.keyset.deep_view()[k];
    let st = value_start(key.1);
    let ln = value_len(key.1);
    &&& 0 <= st && st + ln <= src.len()
    &&& forall|p: int| st <= p < st + ln ==> surface(words[#[trigger] src[p] as int]) == key.0
    &&& forall|j: int|
        0 <= j < words.len() && kept(#[trigger] words[j]) && surface(words[j]) == key.0 ==> exists|p: int|
            st <= p < st + ln && src[p] == j
    &&& forall|p: int, q: int| st <= p < q < st + ln ==> #[trigger] src[p] < #[trigger] src[q]
}

/// Every kept entry's surface form is a key of the index, and the value of
/// that key unpacks to the run of records of exactly the kept entries with
/// that surface form, in their source order.
pub proof fn lemma_group_addresses_entries(words: Seq<Word>, g: Grouped, i: int)
    requires
        is_grouping(words, g),
        0 <= i < words.len(),
        kept(words[i]),
    ensures
        exists|k: int|
            0 <= k < g.keyset.deep_view().len() && #[trigger] g.keyset.deep_view()[k].0 == surface(
                words[i],
            ) && addresses_group(words, g, k),
{
    let src = g.sources@;
    let keys = g.keyset.deep_view();
    let p0 = choose|p: int| 0 <= p < src.len() && src[p] == i;
    assert(is_key(keys, surface(words[src[p0] as int])));
    let k = choose|k: int| 0 <= k < keys.len() && #[trigger] keys[k].0 == surface(words[src[p0] as int]);
    let st = value_start(keys[k].1);
    let ln = value_len(keys[k].1);
    assert forall|j: int|
        0 <= j < words.len() && kept(#[trigger] words[j]) && surface(words[j]) == keys[k].0 implies exists|p: int|
            st <= p < st + ln && src[p] == j by {
        let q = choose|q: int| 0 <= q < src.len() && src[q] == j;
        assert(surface(words[src[q] as int]) == keys[k].0);
    }
    assert forall|p: int, q: int| st <= p < q < st + ln implies #[trigger] src[p] < #[trigger] src[q] by {
        assert(keyed_lt(
            (surface(words[src[p] as int]), src[p]),
            (surface(words[src[q] as int]), src[q]),
        ));
        lemma_bytes_lt_irreflexive(keys[k].0);
    }
    assert(addresses_group(words, g, k));
}

} // verus!
