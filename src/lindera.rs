//! The dictionary compiler: turns a source's entries and cost table into the
//! binary tables of the tokenizer.
use crate::dict::{
    group_entries, has_oversized_group, is_grouping, kept_count, lemma_grouping_unique,
    records_bytes, values_bytes, Grouped, MAX_RECORDS,
};
use crate::error::ParsingError;
use crate::matrix::{
    all_fields_parse, cost_matrix, costs_bytes, fields_of, matrix_bytes, matrix_of, table_ok,
    values_of,
};
use crate::mecab::{Mecab, Word};
use crate::payload::{build_payload, index_bytes, offsets_fit, payload_blob};
use vstd::prelude::*;
use yada::builder::DoubleArrayBuilder;

verus! {

/// The serialised double array that yada builds from a key set.
pub uninterp spec fn double_array_of(keys: Seq<(Seq<u8>, u32)>) -> Option<Seq<u8>>;

/// Relies on yada's `DoubleArrayBuilder::build`: it returns the serialised
/// double array of the key set, which depends on the key set alone, or an
/// error; it checks the key set first and fails when it is empty or a key is
/// empty or holds a zero byte.
#[verifier::external_body]
fn build_double_array(keyset: &Vec<(Vec<u8>, u32)>) -> (r: Option<Vec<u8>>)
    ensures
        match r {
            Some(b) => double_array_of(keyset.deep_view()) == Some(b@),
            None => double_array_of(keyset.deep_view()) is None,
        },
        keyset@.len() == 0 ==> r is None,
        (exists|k: int| 0 <= k < keyset@.len() && #[trigger] keyset@[k].0@.len() == 0) ==> r is None,
        (exists|k: int, j: int| 0 <= k < keyset@.len() && 0 <= j < keyset@[k].0@.len() && #[trigger] keyset@[k].0@[j] == 0) ==> r is None,
{
    DoubleArrayBuilder::build(keyset).ok()
}

/// The grouping of `words`; there is only one (see `lemma_grouping_unique`).
pub open spec fn grouping_of(words: Seq<Word>) -> Grouped {
    choose|g: Grouped| is_grouping(words, g)
}

/// The tables of a compiled dictionary.
pub struct DictTables {
    /// The payload records, in source order.
    pub words: Vec<u8>,
    /// The offset of each payload record, four bytes each.
    pub words_idx: Vec<u8>,
    /// The double array over the surface forms.
    pub da: Vec<u8>,
    /// The cost records, in the order of the index.
    pub vals: Vec<u8>,
}

/// `t` holds the tables of `words` under the grouping `g`.
pub open spec fn tables_from(words: Seq<Word>, g: Grouped, t: DictTables) -> bool {
    &&& t.words@ == payload_blob(words)
    &&& t.words_idx@ == index_bytes(words)
    &&& t.vals@ == records_bytes(g.records@)
    &&& double_array_of(g.keyset.deep_view()) == Some(t.da@)
}

/// Compiling is deterministic: tables built from the same entries under any
/// grouping of them are the same, byte for byte.
pub proof fn lemma_tables_deterministic(
    words: Seq<Word>,
    g1: Grouped,
    g2: Grouped,
    t1: DictTables,
    t2: DictTables,
)
    requires
        is_grouping(words, g1),
        is_grouping(words, g2),
        tables_from(words, g1, t1),
        tables_from(words, g2, t2),
    ensures
        t1.words@ == t2.words@,
        t1.words_idx@ == t2.words_idx@,
        t1.da@ == t2.da@,
        t1.vals@ == t2.vals@,
{
    lemma_grouping_unique(words, g1, g2);
}

/// The grouping steps before the double array succeed.
pub open spec fn groups_ok(words: Seq<Word>) -> bool {
    offsets_fit(words) && kept_count(words) <= MAX_RECORDS && !has_oversized_group(words)
}

/// The compiler over one dictionary source.
pub struct Lindera<'a> {
    pub mecab: &'a Mecab,
}

impl<'a> Lindera<'a> {
    pub fn from_mecab(mecab: &'a Mecab) -> (r: Lindera<'a>)
        ensures
            r.mecab == mecab,
    {
        Lindera { mecab }
    }

    /// Compiles the entries: the payload blob and its index in source order,
    /// then the grouping by surface form, its record stream, and the double
    /// array over its key set.
    pub fn build_dict(&self) -> (r: Result<DictTables, ParsingError>)
        ensures
            ({
                let w = self.mecab.words@;
                let g = grouping_of(w);
                &&& !offsets_fit(w) ==> (r matches Err(ParsingError::PayloadTooLarge))
                &&& offsets_fit(w) && kept_count(w) > MAX_RECORDS ==> (r matches Err(
                    ParsingError::TooManyEntries,
                ))
                &&& offsets_fit(w) && kept_count(w) <= MAX_RECORDS && has_oversized_group(w) ==> (
                r matches Err(ParsingError::OversizedGroup(_)))
                &&& groups_ok(w) ==> is_grouping(w, g)
                &&& groups_ok(w) && g.keyset@.len() == 0 ==> (r matches Err(ParsingError::TrieBuildError))
                &&& groups_ok(w) ==> match r {
                    Ok(t) => tables_from(w, g, t),
                    Err(e) => e is TrieBuildError && double_array_of(g.keyset.deep_view()) is None,
                }
            }),
    {
        let words = &self.mecab.words;
        let ghost w = words@;
        let (blob, index) = match build_payload(words) {
            Ok(x) => x,
            Err(e) => {
                return Err(e);
            },
        };
        let grouped = match group_entries(words) {
            Ok(g) => g,
            Err(e) => {
                return Err(e);
            },
        };
        proof {
            lemma_grouping_unique(w, grouped, grouping_of(w));
        }
        let keyset = &grouped.keyset;
        let da = match build_double_array(keyset) {
            Some(b) => b,
            None => {
                return Err(ParsingError::TrieBuildError);
            },
        };
        let vals = values_bytes(&grouped.records);
        Ok(DictTables { words: blob, words_idx: index, da, vals })
    }

    /// Builds the bytes of the connection-cost matrix from the source's cost
    /// table: the two sizes, then every cell, each as a little-endian `i16`.
    pub fn build_cost_matrix(&self) -> (r: Result<Vec<u8>, ParsingError>)
        ensures
            ({
                let f = fields_of(self.mecab.matrix@);
                let v = values_of(f);
                &&& !all_fields_parse(f) ==> (r matches Err(ParsingError::ParseIntError))
                &&& all_fields_parse(f) && v[0].len() < 2 ==> (r matches Err(
                    ParsingError::MissingHeader,
                ))
                &&& all_fields_parse(f) && v[0].len() >= 2 && !table_ok(v) ==> (r matches Err(
                    ParsingError::MalformedCostTable,
                ))
                &&& all_fields_parse(f) && table_ok(v) ==> (r matches Ok(b) && b@ == costs_bytes(
                    matrix_of(v),
                ))
            }),
    {
        let costs = match cost_matrix(self.mecab.matrix.as_slice()) {
            Ok(c) => c,
            Err(e) => {
                return Err(e);
            },
        };
        Ok(matrix_bytes(&costs))
    }
}

} // verus!
