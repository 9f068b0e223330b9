//! Dictionary entries, and the MeCab-flavoured source that holds them.
use vstd::prelude::*;
use crate::source::{
    entry_spans, field_text, grapheme_count_of, is_isqrt, splits_at, surface_cost, MIN_ENTRY_COST,
};
use vstd::string::StringExecFns;
use vstd::utf8::{decode_utf8, encode_utf8, encode_utf8_decode_utf8, valid_utf8};

verus! {

/// One lexical entry: a surface form with its cost and its payload.
pub struct Word {
    pub word: String,
    pub left_id: u32,
    pub right_id: u32,
    pub word_cost: i32,
    pub traditional: String,
    pub simplified: String,
    pub pinyin: String,
    pub definition: String,
}

/// A dictionary source: its entries, and the tables that go with them as text.
pub struct Mecab {
    pub words: Vec<Word>,
    pub unk_def: Vec<u8>,
    pub char_def: Vec<u8>,
    pub dicrc: Vec<u8>,
    pub matrix: Vec<u8>,
}

/// The decimal digits of `n`, most significant first, without leading zeros.
pub open spec fn digits_of(n: nat) -> Seq<char>
    decreases n,
{
    if n < 10 {
        seq![(n + 48) as char]
    } else {
        digits_of(n / 10).push(((n % 10) + 48) as char)
    }
}

/// `n` written in decimal, with a leading `-` when it is negative.
pub open spec fn decimal_of(n: int) -> Seq<char> {
    if n < 0 {
        seq!['-'] + digits_of((-n) as nat)
    } else {
        digits_of(n as nat)
    }
}

/// Relies on the `Display` of `i32` in std (through `to_string`): a `-` for a
/// negative number, then its decimal digits without leading zeros.
#[verifier::external_body]
fn decimal_text(n: i32) -> (r: String)
    ensures
        r@ == decimal_of(n as int),
{
    n.to_string()
}

/// The CSV line of an entry in MeCab's source format: surface, two zero
/// context ids, cost, four `*` fields, reading, traditional form, simplified
/// form and gloss, then a newline.
pub open spec fn mecab_line(w: Word) -> Seq<char> {
    w.word@ + seq![',', '0', ',', '0', ','] + decimal_of(w.word_cost as int) + seq![
        ',',
        '*',
        ',',
        '*',
        ',',
        '*',
        ',',
        '*',
        ',',
    ] + w.pinyin@ + seq![','] + w.traditional@ + seq![','] + w.simplified@ + seq![','] + w.definition@
        + seq!['\n']
}

impl Word {
    pub fn to_mecab(&self) -> (r: String)
        ensures
            r@ == mecab_line(*self),
    {
        let mut s = self.word.clone();
        proof {
            reveal_strlit(",0,0,");
            reveal_strlit(",*,*,*,*,");
            reveal_strlit(",");
            reveal_strlit("\n");
        }
        s.append(",0,0,");
        let cost = decimal_text(self.word_cost);
        s.append(cost.as_str());
        s.append(",*,*,*,*,");
        s.append(self.pinyin.as_str());
        s.append(",");
        s.append(self.traditional.as_str());
        s.append(",");
        s.append(self.simplified.as_str());
        s.append(",");
        s.append(self.definition.as_str());
        s.append("\n");
        assert(s@ =~= mecab_line(*self));
        s
    }
}

impl Mecab {
    /// A source with no entries yet and the given tables.
    pub fn new(unk_def: Vec<u8>, char_def: Vec<u8>, dicrc: Vec<u8>, matrix: Vec<u8>) -> (r: Mecab)
        ensures
            r.words@.len() == 0,
            r.unk_def@ == unk_def@,
            r.char_def@ == char_def@,
            r.dicrc@ == dicrc@,
            r.matrix@ == matrix@,
    {
        Mecab { words: Vec::new(), unk_def, char_def, dicrc, matrix }
    }

    /// A walk over every ordered pair of entries with the cost of the pair.
    pub fn matrix(&self) -> (r: Matrix<'_>)
        requires
            self.words@.len() <= u32::MAX,
        ensures
            r.wf(),
            r.words == &self.words,
            r.l_size == self.words@.len(),
            r.r_size == self.words@.len(),
            r.l_index == 0,
            r.r_index == 0,
    {
        let size = self.words.len() as u32;
        Matrix { l_size: size, r_size: size, l_index: 0, r_index: 0, words: &self.words }
    }
}

/// `s / 10` rounded toward zero.
pub open spec fn div10_toward_zero(s: int) -> int {
    if s >= 0 {
        s / 10
    } else {
        -((-s) / 10)
    }
}

/// A walk over the pairs `(l, r)` of entries, `r` fastest.
pub struct Matrix<'a> {
    pub l_size: u32,
    pub r_size: u32,
    pub l_index: u32,
    pub r_index: u32,
    pub words: &'a Vec<Word>,
}

impl<'a> Matrix<'a> {
    /// The position is inside the sizes, and the sizes inside the entries.
    pub open spec fn wf(&self) -> bool {
        &&& self.l_size <= self.words@.len()
        &&& self.r_size <= self.words@.len()
        &&& self.l_index <= self.l_size
        &&& self.l_index < self.l_size ==> self.r_index < self.r_size
    }

    /// The next pair with its cost, the sum of the two entry costs divided by
    /// ten and rounded toward zero; `None` once every pair has been given.
    pub fn next(&mut self) -> (r: Option<(u32, u32, i32)>)
        requires
            old(self).wf(),
        ensures
            final(self).wf(),
            final(self).words == old(self).words,
            final(self).l_size == old(self).l_size,
            final(self).r_size == old(self).r_size,
            old(self).l_index == old(self).l_size ==> r is None && *final(self) == *old(self),
            old(self).l_index < old(self).l_size ==> {
                let (l, rr) = (old(self).l_index, old(self).r_index);
                &&& r == Some((l, rr, div10_toward_zero(
                    old(self).words@[l as int].word_cost + old(self).words@[rr as int].word_cost,
                ) as i32))
                &&& rr + 1 < old(self).r_size ==> final(self).l_index == l && final(self).r_index
                    == rr + 1
                &&& rr + 1 == old(self).r_size ==> final(self).l_index == l + 1
                    && final(self).r_index == 0
            },
    {
        if self.l_index == self.l_size {
            return None;
        }
        let lcost = self.words[self.l_index as usize].word_cost as i64;
        let rcost = self.words[self.r_index as usize].word_cost as i64;
        let sum = lcost + rcost;
        let cost: i64 = if sum >= 0 {
            sum / 10
        } else {
            0 - ((0 - sum) / 10)
        };
        let result = (self.l_index, self.r_index, cost as i32);
        self.r_index = self.r_index + 1;
        if self.r_index == self.r_size {
            self.r_index = 0;
            self.l_index = self.l_index + 1;
        }
        Some(result)
    }
}

/// The four fields of a source line: traditional form, simplified form,
/// reading and gloss.
pub type Fields = (Seq<char>, Seq<char>, Seq<char>, Seq<char>);

/// The fields of a source line, or `None` for a blank line, a `%` comment, a
/// line that does not have the shape of an entry, or a field that is not UTF-8.
pub open spec fn line_fields(b: Seq<u8>) -> Option<Fields> {
    if b.len() == 0 || b[0] == 37 || !(exists|t: (int, int, int)| splits_at(b, t.0, t.1, t.2)) {
        None
    } else {
        let t = choose|t: (int, int, int)| splits_at(b, t.0, t.1, t.2);
        let f0 = b.subrange(0, t.0);
        let f1 = b.subrange(t.0 + 1, t.1);
        let f2 = b.subrange(t.1 + 2, t.2);
        let f3 = b.subrange(t.2 + 3, b.len() as int);
        if valid_utf8(f0) && valid_utf8(f1) && valid_utf8(f2) && valid_utf8(f3) {
            Some((decode_utf8(f0), decode_utf8(f1), decode_utf8(f2), decode_utf8(f3)))
        } else {
            None
        }
    }
}

/// The fields of the entry lines among the first `n` lines, in order.
pub open spec fn entries_of(raw: Seq<String>, n: int) -> Seq<Fields>
    decreases n,
{
    if n <= 0 {
        Seq::empty()
    } else {
        let prev = entries_of(raw, n - 1);
        match line_fields(encode_utf8(raw[n - 1]@)) {
            Some(f) => prev.push(f),
            None => prev,
        }
    }
}

/// How many words the first `k` entries give: one for an entry whose two forms
/// agree, two for one whose simplified form differs.
pub open spec fn words_before(es: Seq<Fields>, k: int) -> int
    decreases k,
{
    if k <= 0 {
        0
    } else {
        words_before(es, k - 1) + if es[k - 1].0 == es[k - 1].1 {
            1int
        } else {
            2int
        }
    }
}

/// `c` is the cost of a headword `t`: minus the integer square root of
/// `160000 · n³` for its `n` graphemes, but never below -36000.
pub open spec fn cost_of(t: Seq<char>, c: i32) -> bool {
    let n = grapheme_count_of(t) as int;
    &&& n > 20 ==> c == MIN_ENTRY_COST
    &&& n <= 20 ==> is_isqrt(-c, 160000 * n * n * n)
}

/// `w` is the word of entry `id` with fields `f` and surface `surface`.
pub open spec fn word_of(w: Word, surface: Seq<char>, id: int, f: Fields) -> bool {
    &&& w.word@ == surface
    &&& w.left_id == id
    &&& w.right_id == id
    &&& cost_of(f.0, w.word_cost)
    &&& w.traditional@ == f.0
    &&& w.simplified@ == f.1
    &&& w.pinyin@ == f.2
    &&& w.definition@ == f.3
}

/// `words` are the words of the entries `es`: for entry `k`, a word with its
/// traditional form, then one with its simplified form if that differs.
pub open spec fn words_of_entries(words: Seq<Word>, es: Seq<Fields>) -> bool {
    &&& words.len() == words_before(es, es.len() as int)
    &&& forall|k: int|
        0 <= k < es.len() ==> {
            let at = #[trigger] words_before(es, k);
            &&& word_of(words[at], es[k].0, k, es[k])
            &&& es[k].0 != es[k].1 ==> word_of(words[at + 1], es[k].1, k, es[k])
        }
}

proof fn lemma_splits_unique(b: Seq<u8>, s1: int, l1: int, r1: int, s2: int, l2: int, r2: int)
    requires
        splits_at(b, s1, l1, r1),
        splits_at(b, s2, l2, r2),
    ensures
        s1 == s2 && l1 == l2 && r1 == r2,
{
    if s1 < s2 {
        assert(!crate::source::occurs_at(b, s1, crate::source::space()));
    } else if s2 < s1 {
        assert(!crate::source::occurs_at(b, s2, crate::source::space()));
    }
    if l1 < l2 {
        assert(!crate::source::occurs_at(b, l1, crate::source::open_reading()));
    } else if l2 < l1 {
        assert(!crate::source::occurs_at(b, l2, crate::source::open_reading()));
    }
    if r1 < r2 {
        assert(!crate::source::occurs_at(b, r1, crate::source::close_reading()));
    } else if r2 < r1 {
        assert(!crate::source::occurs_at(b, r2, crate::source::close_reading()));
    }
}

proof fn lemma_words_before_grows(es: Seq<Fields>, j: int, k: int)
    requires
        0 <= j <= k <= es.len(),
    ensures
        words_before(es, j) + (k - j) <= words_before(es, k),
    decreases k - j,
{
    if j < k {
        lemma_words_before_grows(es, j, k - 1);
    }
}

impl Mecab {
    /// The fields of one source line, as `line_fields` states.
    fn read_line(line: &String) -> (r: Option<(String, String, String, String)>)
        ensures
            match r {
                Some((t, s, p, d)) => line_fields(encode_utf8(line@)) == Some((t@, s@, p@, d@)),
                None => line_fields(encode_utf8(line@)) is None,
            },
    {
        let b = line.as_str().as_bytes();
        let ghost bb = b@;
        assert(bb == encode_utf8(line@));
        if b.len() == 0 || b[0] == 37 {
            return None;
        }
        let (sp, lb, rb) = match entry_spans(b) {
            Some(x) => x,
            None => {
                return None;
            },
        };
        proof {
            let t = choose|t: (int, int, int)| splits_at(bb, t.0, t.1, t.2);
            lemma_splits_unique(bb, t.0, t.1, t.2, sp as int, lb as int, rb as int);
        }
        let tr = field_text(b, 0, sp);
        let si = field_text(b, sp + 1, lb);
        let pi = field_text(b, lb + 2, rb);
        let de = field_text(b, rb + 3, b.len());
        match (tr, si, pi, de) {
            (Some(t), Some(s), Some(p), Some(d)) => {
                proof {
                    encode_utf8_decode_utf8(t@);
                    encode_utf8_decode_utf8(s@);
                    encode_utf8_decode_utf8(p@);
                    encode_utf8_decode_utf8(d@);
                }
                Some((t, s, p, d))
            },
            _ => None,
        }
    }

    /// Reads the entries of a CEDICT source, one per line
    /// `traditional simplified [reading] /gloss`, skipping blank lines and `%`
    /// comments. Entry `k` gives a word for its traditional form and, when it
    /// differs, one for its simplified form; both carry `k` as context id and
    /// the cost of the traditional form.
    pub fn from_raw(raw: &Vec<String>, base: Mecab) -> (r: Mecab)
        requires
            raw@.len() <= u32::MAX,
            base.words@.len() == 0,
        ensures
            words_of_entries(r.words@, entries_of(raw@, raw@.len() as int)),
            r.unk_def@ == base.unk_def@,
            r.char_def@ == base.char_def@,
            r.dicrc@ == base.dicrc@,
            r.matrix@ == base.matrix@,
    {
        let mut mecab = base;
        let mut id: u32 = 0;
        let mut i: usize = 0;
        while i < raw.len()
            invariant
                0 <= i <= raw@.len() <= u32::MAX,
                id as int == entries_of(raw@, i as int).len(),
                id <= i,
                words_of_entries(mecab.words@, entries_of(raw@, i as int)),
                mecab.unk_def@ == base.unk_def@,
                mecab.char_def@ == base.char_def@,
                mecab.dicrc@ == base.dicrc@,
                mecab.matrix@ == base.matrix@,
            decreases raw.len() - i,
        {
            let ghost es = entries_of(raw@, i as int);
            let ghost before = mecab.words@;
            assert(before.len() == words_before(es, es.len() as int));
            match Self::read_line(&raw[i]) {
                Some((traditional, simplified, pinyin, definition)) => {
                    let ghost f = (traditional@, simplified@, pinyin@, definition@);
                    let ghost es2 = es.push(f);
                    assert(entries_of(raw@, i + 1) == es2);
                    let word_cost = surface_cost(traditional.as_str());
                    let differs = !(traditional == simplified);
                    mecab.words.push(Word {
                        word: traditional.clone(),
                        left_id: id,
                        right_id: id,
                        word_cost,
                        traditional: traditional.clone(),
                        simplified: simplified.clone(),
                        pinyin: pinyin.clone(),
                        definition: definition.clone(),
                    });
                    if differs {
                        mecab.words.push(Word {
                            word: simplified.clone(),
                            left_id: id,
                            right_id: id,
                            word_cost,
                            traditional,
                            simplified,
                            pinyin,
                            definition,
                        });
                    }
                    proof {
                        assert(before.len() == words_before(es, es.len() as int));
                        assert(forall|j: int| 0 <= j < es.len() ==> es2[j] == es[j]);
                        lemma_prefix_words_before(es, es2, es.len() as int);
                        let now = mecab.words@;
                        assert(forall|j: int| 0 <= j < before.len() ==> #[trigger] now[j] == before[j]);
                        assert(words_before(es2, es.len() as int) == words_before(es, es.len() as int));
                        assert forall|k: int| 0 <= k < es2.len() implies {
                            let at = #[trigger] words_before(es2, k);
                            &&& word_of(mecab.words@[at], es2[k].0, k, es2[k])
                            &&& es2[k].0 != es2[k].1 ==> word_of(mecab.words@[at + 1], es2[k].1, k, es2[k])
                        } by {
                            if k < es.len() {
                                assert(words_before(es2, k) == words_before(es, k)) by {
                                    lemma_prefix_words_before(es, es2, k);
                                }
                                lemma_words_before_grows(es, k + 1, es.len() as int);
                                lemma_words_before_grows(es, 0, k);
                                assert(words_before(es, k + 1) >= words_before(es, k) + 1);
                                assert(es2[k] == es[k]);
                                assert(words_before(es, k) + 1 <= words_before(es, k + 1));
                                assert(words_before(es, k + 1) <= before.len());
                                assert(words_before(es, k) < before.len());
                                assert(now[words_before(es, k)] == before[words_before(es, k)]);
                                if es[k].0 != es[k].1 {
                                    assert(now[words_before(es, k) + 1] == before[words_before(es, k) + 1]);
                                }
                            } else {
                                lemma_prefix_words_before(es, es2, k);
                            }
                        }
                    }
                    id = id + 1;
                },
                None => {
                    assert(entries_of(raw@, i + 1) == es);
                },
            }
            i = i + 1;
        }
        mecab
    }
}

proof fn lemma_prefix_words_before(es: Seq<Fields>, es2: Seq<Fields>, k: int)
    requires
        0 <= k <= es.len(),
        es.len() <= es2.len(),
        forall|j: int| 0 <= j < es.len() ==> es2[j] == es[j],
    ensures
        words_before(es2, k) == words_before(es, k),
    decreases k,
{
    if k > 0 {
        lemma_prefix_words_before(es, es2, k - 1);
    }
}

} // verus!
