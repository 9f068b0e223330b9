//! The CEDICT line grammar and the cost of a headword.
use unicode_segmentation::UnicodeSegmentation;
use vstd::prelude::*;
use vstd::slice::slice_to_vec;
use vstd::utf8::{encode_utf8, valid_utf8};

verus! {

/// `p` occurs in `b` at `j`.
pub open spec fn occurs_at(b: Seq<u8>, j: int, p: Seq<u8>) -> bool {
    0 <= j && j + p.len() <= b.len() && b.subrange(j, j + p.len()) == p
}

/// `j` is the first place at or after `from` where `p` occurs in `b`.
pub open spec fn is_first(b: Seq<u8>, from: int, p: Seq<u8>, j: int) -> bool {
    &&& from <= j
    &&& occurs_at(b, j, p)
    &&& forall|i: int| from <= i < j ==> !occurs_at(b, i, p)
}

pub open spec fn space() -> Seq<u8> {
    seq![32u8]
}

/// `" ["`, which opens the reading.
pub open spec fn open_reading() -> Seq<u8> {
    seq![32u8, 91u8]
}

/// `"] /"`, which closes the reading and opens the gloss.
pub open spec fn close_reading() -> Seq<u8> {
    seq![93u8, 32u8, 47u8]
}

/// The line `traditional simplified [reading] /gloss` splits at `sp`, `lb` and
/// `rb`: the first space, the first `" ["` after it, and the first `"] /"`
/// after that. The traditional form is `..sp`, the simplified form
/// `sp + 1..lb`, the reading `lb + 2..rb` and the gloss `rb + 3..`. A line that
/// holds a newline byte never splits.
pub open spec fn splits_at(b: Seq<u8>, sp: int, lb: int, rb: int) -> bool {
    &&& forall|i: int| 0 <= i < b.len() ==> b[i] != 10
    &&& is_first(b, 0, space(), sp)
    &&& is_first(b, sp + 1, open_reading(), lb)
    &&& is_first(b, lb + 2, close_reading(), rb)
}

/// `p` occurs in `b` at `j`.
fn matches_at(b: &[u8], j: usize, p: &Vec<u8>) -> (r: bool)
    requires
        j + p@.len() <= b@.len(),
    ensures
        r == occurs_at(b@, j as int, p@),
{
    let n = b.len();
    let mut k: usize = 0;
    while k < p.len()
        invariant
            0 <= k <= p@.len(),
            n == b@.len(),
            j + p@.len() <= b@.len(),
            forall|i: int| 0 <= i < k ==> b@[j + i] == p@[i],
        decreases p.len() - k,
    {
        if b[j + k] != p[k] {
            assert(b@.subrange(j as int, j + p@.len())[k as int] != p@[k as int]);
            return false;
        }
        k = k + 1;
    }
    assert(b@.subrange(j as int, j + p@.len()) =~= p@);
    true
}

/// The first place at or after `from` where `p` occurs in `b`.
fn find_from(b: &[u8], from: usize, p: &Vec<u8>) -> (r: Option<usize>)
    requires
        p@.len() > 0,
    ensures
        match r {
            Some(j) => is_first(b@, from as int, p@, j as int),
            None => forall|i: int| from <= i ==> !occurs_at(b@, i, p@),
        },
{
    if b.len() < p.len() {
        return None;
    }
    let last = b.len() - p.len();
    assert(last < usize::MAX);
    let mut j: usize = from;
    while j <= last
        invariant
            from <= j,
            p@.len() > 0,
            last == b@.len() - p@.len(),
            last < usize::MAX,
            forall|i: int| from <= i < j ==> !occurs_at(b@, i, p@),
        decreases last + 1 - j,
    {
        if matches_at(b, j, p) {
            return Some(j);
        }
        j = j + 1;
    }
    assert forall|i: int| from <= i implies !occurs_at(b@, i, p@) by {
        if i > last {
            assert(i + p@.len() > b@.len());
        }
    }
    None
}

/// Splits a dictionary line into its four fields, as the pattern
/// `^(.*?) (.*?) \[(.*?)\] /(.*?)$` would: returns `(sp, lb, rb)` of
/// `splits_at`, or `None` when the line does not have that shape.
pub fn entry_spans(b: &[u8]) -> (r: Option<(usize, usize, usize)>)
    ensures
        match r {
            Some((sp, lb, rb)) => splits_at(b@, sp as int, lb as int, rb as int),
            None => forall|sp: int, lb: int, rb: int| !splits_at(b@, sp, lb, rb),
        },
{
    let mut i: usize = 0;
    while i < b.len()
        invariant
            0 <= i <= b.len(),
            forall|j: int| 0 <= j < i ==> b@[j] != 10,
        decreases b.len() - i,
    {
        if b[i] == 10 {
            return None;
        }
        i = i + 1;
    }
    let sp_pat: Vec<u8> = vec![32u8];
    let open_pat: Vec<u8> = vec![32u8, 91u8];
    let close_pat: Vec<u8> = vec![93u8, 32u8, 47u8];
    assert(sp_pat@ =~= space());
    assert(open_pat@ =~= open_reading());
    assert(close_pat@ =~= close_reading());
    let sp = match find_from(b, 0, &sp_pat) {
        Some(x) => x,
        None => {
            return None;
        },
    };
    let lb = match find_from(b, sp + 1, &open_pat) {
        Some(x) => x,
        None => {
            assert forall|s: int, l: int, r: int| !splits_at(b@, s, l, r) by {
                if splits_at(b@, s, l, r) {
                    assert(s == sp);
                }
            }
            return None;
        },
    };
    let rb = match find_from(b, lb + 2, &close_pat) {
        Some(x) => x,
        None => {
            assert forall|s: int, l: int, r: int| !splits_at(b@, s, l, r) by {
                if splits_at(b@, s, l, r) {
                    assert(s == sp);
                    assert(l == lb);
                }
            }
            return None;
        },
    };
    Some((sp, lb, rb))
}

/// The number of extended grapheme clusters of a text.
pub uninterp spec fn grapheme_count_of(s: Seq<char>) -> nat;

/// Relies on unicode-segmentation's `graphemes(true)`: the extended grapheme
/// clusters of the text, which the text alone decides; the empty text has none.
#[verifier::external_body]
fn grapheme_count(s: &str) -> (r: usize)
    ensures
        r == grapheme_count_of(s@),
        s@.len() == 0 ==> r == 0,
{
    s.graphemes(true).count()
}

/// `k` is the integer square root of `m`.
pub open spec fn is_isqrt(k: int, m: int) -> bool {
    0 <= k && k * k <= m < (k + 1) * (k + 1)
}

/// The most negative cost an entry gets.
pub const MIN_ENTRY_COST: i32 = -36000;

/// The cost of a headword of `n` graphemes: `-⌊400 · n^1.5⌋`, that is minus the
/// integer square root of `160000 · n³`, but never below -36000 (from 21
/// graphemes on).
pub fn entry_cost(n: usize) -> (r: i32)
    ensures
        n > 20 ==> r == MIN_ENTRY_COST,
        n <= 20 ==> is_isqrt(-r, 160000 * n * n * n),
{
    if n > 20 {
        return MIN_ENTRY_COST;
    }
    let nn = n as u64;
    let a: u64 = 160000 * nn;
    assert(a * nn <= 64000000) by (nonlinear_arith)
        requires
            a == 160000 * nn,
            nn <= 20,
    ;
    let b: u64 = a * nn;
    assert(b * nn <= 1280000000) by (nonlinear_arith)
        requires
            b <= 64000000,
            nn <= 20,
    ;
    let m: u64 = b * nn;
    assert(m == 160000 * n * n * n) by (nonlinear_arith)
        requires
            a == 160000 * nn,
            b == a * nn,
            m == b * nn,
            nn == n,
    ;
    let mut lo: u64 = 0;
    let mut hi: u64 = 36000;
    while hi - lo > 1
        invariant
            lo < hi <= 36000,
            m <= 1280000000,
            m == 160000 * n * n * n,
            lo * lo <= m,
            m < hi * hi,
        decreases hi - lo,
    {
        let mid = lo + (hi - lo) / 2;
        assert(mid * mid <= 36000 * 36000) by (nonlinear_arith)
            requires
                mid <= 36000,
        ;
        if mid * mid <= m {
            lo = mid;
        } else {
            hi = mid;
        }
    }
    assert(lo <= 35777) by (nonlinear_arith)
        requires
            lo * lo <= 1280000000,
    ;
    -(lo as i32)
}

/// The cost of a headword by its number of grapheme clusters.
pub fn surface_cost(s: &str) -> (r: i32)
    ensures
        grapheme_count_of(s@) > 20 ==> r == MIN_ENTRY_COST,
        grapheme_count_of(s@) <= 20 ==> is_isqrt(
            -r,
            (160000 * grapheme_count_of(s@) * grapheme_count_of(s@) * grapheme_count_of(s@)) as int,
        ),
{
    entry_cost(grapheme_count(s))
}

/// Relies on `String::from_utf8` of std: the text of the bytes when they are
/// valid UTF-8, else an error.
#[verifier::external_body]
pub(crate) fn text_of(b: Vec<u8>) -> (r: Option<String>)
    ensures
        valid_utf8(b@) <==> r is Some,
        r matches Some(s) ==> encode_utf8(s@) == b@,
{
    String::from_utf8(b).ok()
}

/// The bytes `a..e` of `b` as text.
pub(crate) fn field_text(b: &[u8], a: usize, e: usize) -> (r: Option<String>)
    requires
        a <= e <= b@.len(),
    ensures
        valid_utf8(b@.subrange(a as int, e as int)) <==> r is Some,
        r matches Some(s) ==> encode_utf8(s@) == b@.subrange(a as int, e as int),
{
    let mut v: Vec<u8> = Vec::new();
    let mut i: usize = a;
    while i < e
        invariant
            a <= i <= e <= b@.len(),
            v@ == b@.subrange(a as int, i as int),
        decreases e - i,
    {
        v.push(b[i]);
        i = i + 1;
        assert(v@ =~= b@.subrange(a as int, i as int));
    }
    text_of(v)
}

} // verus!
