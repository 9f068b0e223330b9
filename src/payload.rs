//! The payload table: the reading and gloss of every entry, serialised one
//! after another, and an index of where each begins.
use crate::error::ParsingError;
use crate::le::{
    le32, le64, lemma_le_bytes_len, lemma_pow256_values, lemma_read_le_bytes, read_le, u32_bytes,
};
use crate::mecab::Word;
use vstd::prelude::*;
use vstd::utf8::{decode_utf8, encode_utf8, encode_utf8_decode_utf8};

verus! {

/// The serialised form of one payload: a count of two strings, then each string
/// as its byte length followed by its UTF-8 bytes, every length in eight bytes.
pub open spec fn payload_record(pinyin: Seq<char>, definition: Seq<char>) -> Seq<u8> {
    let p = encode_utf8(pinyin);
    let d = encode_utf8(definition);
    le64(2) + le64(p.len()) + p + le64(d.len()) + d
}

/// The payload record of one entry.
pub open spec fn record_of(w: Word) -> Seq<u8> {
    payload_record(w.pinyin@, w.definition@)
}

/// The payload blob of `words`: their records in source order.
pub open spec fn payload_blob(words: Seq<Word>) -> Seq<u8>
    decreases words.len(),
{
    if words.len() == 0 {
        Seq::empty()
    } else {
        payload_blob(words.drop_last()) + record_of(words.last())
    }
}

/// Where the record of entry `i` begins in the blob.
pub open spec fn payload_offset(words: Seq<Word>, i: int) -> int {
    payload_blob(words.take(i)).len() as int
}

/// The offset index of `words`: the offset of each record as four bytes.
pub open spec fn index_bytes(words: Seq<Word>) -> Seq<u8>
    decreases words.len(),
{
    if words.len() == 0 {
        Seq::empty()
    } else {
        index_bytes(words.drop_last()) + le32(payload_blob(words.drop_last()).len() as u32)
    }
}

/// Every record begins at an offset that four bytes can hold.
pub open spec fn offsets_fit(words: Seq<Word>) -> bool {
    forall|i: int| 0 <= i < words.len() ==> #[trigger] payload_offset(words, i) <= u32::MAX
}

/// The (reading, gloss) bytes of the record that begins at `off`, if a whole
/// record begins there.
pub open spec fn decode_record(b: Seq<u8>, off: int) -> Option<(Seq<u8>, Seq<u8>)> {
    let count = read_le(b.subrange(off, off + 8), 8);
    let l1 = read_le(b.subrange(off + 8, off + 16), 8) as int;
    let l2 = read_le(b.subrange(off + 16 + l1, off + 24 + l1), 8) as int;
    if 0 <= off && off + 24 + l1 + l2 <= b.len() && count == 2 {
        Some((b.subrange(off + 16, off + 16 + l1), b.subrange(off + 24 + l1, off + 24 + l1 + l2)))
    } else {
        None
    }
}

/// Byte length of the record that begins at `off`.
pub open spec fn record_len_at(b: Seq<u8>, off: int) -> int {
    let l1 = read_le(b.subrange(off + 8, off + 16), 8) as int;
    let l2 = read_le(b.subrange(off + 16 + l1, off + 24 + l1), 8) as int;
    24 + l1 + l2
}

/// Relies on `bincode::serialize` with its default options (fixed-width
/// little-endian integers) on a `Vec<&str>`: the length of the vector in eight
/// bytes, then each string as its byte length in eight bytes and its UTF-8
/// bytes. Writing into memory cannot fail.
#[verifier::external_body]
fn serialize_pair(pinyin: &str, definition: &str) -> (r: Vec<u8>)
    ensures
        r@ == payload_record(pinyin@, definition@),
{
    bincode::serialize(&vec![pinyin, definition]).unwrap_or_default()
}

proof fn lemma_blob_step(words: Seq<Word>, i: int)
    requires
        0 <= i < words.len(),
    ensures
        payload_blob(words.take(i + 1)) == payload_blob(words.take(i)) + record_of(words[i]),
        index_bytes(words.take(i + 1)) == index_bytes(words.take(i)) + le32(
            payload_blob(words.take(i)).len() as u32,
        ),
{
    assert(words.take(i + 1).drop_last() =~= words.take(i));
}

/// Serialises the payload of every entry in source order. The blob holds the
/// records one after another; the index holds, for each entry, the offset of
/// its record as four little-endian bytes. Fails when an offset does not fit
/// four bytes.
pub fn build_payload(words: &Vec<Word>) -> (r: Result<(Vec<u8>, Vec<u8>), ParsingError>)
    ensures
        match r {
            Ok((blob, index)) => offsets_fit(words@) && blob@ == payload_blob(words@)
                && index@ == index_bytes(words@),
            Err(e) => !offsets_fit(words@) && e is PayloadTooLarge,
        },
{
    let mut blob: Vec<u8> = Vec::new();
    let mut index: Vec<u8> = Vec::new();
    let mut i: usize = 0;
    while i < words.len()
        invariant
            0 <= i <= words.len(),
            blob@ == payload_blob(words@.take(i as int)),
            index@ == index_bytes(words@.take(i as int)),
            forall|j: int| 0 <= j < i ==> #[trigger] payload_offset(words@, j) <= u32::MAX,
        decreases words.len() - i,
    {
        proof {
            lemma_blob_step(words@, i as int);
        }
        if blob.len() > 4294967295 {
            assert(payload_offset(words@, i as int) > u32::MAX);
            return Err(ParsingError::PayloadTooLarge);
        }
        let mut off = u32_bytes(blob.len() as u32);
        index.append(&mut off);
        let mut rec = serialize_pair(words[i].pinyin.as_str(), words[i].definition.as_str());
        blob.append(&mut rec);
        i = i + 1;
    }
    assert(words@.take(words.len() as int) =~= words@);
    Ok((blob, index))
}

proof fn lemma_prefixes(words: Seq<Word>, j: int, k: int)
    requires
        0 <= j <= k <= words.len(),
    ensures
        payload_blob(words.take(j)).len() <= payload_blob(words.take(k)).len(),
        payload_blob(words.take(k)).subrange(0, payload_blob(words.take(j)).len() as int)
            == payload_blob(words.take(j)),
        index_bytes(words.take(k)).len() == 4 * k,
        index_bytes(words.take(k)).subrange(0, 4 * j) == index_bytes(words.take(j)),
    decreases k,
{
    if k == 0 {
        assert(words.take(0) =~= Seq::<Word>::empty());
    } else if j == k {
        lemma_prefixes(words, j - 1, k - 1);
        lemma_blob_step(words, k - 1);
        lemma_le_bytes_len(payload_blob(words.take(k - 1)).len() as u32 as nat, 4);
        assert(payload_blob(words.take(k)).subrange(0, payload_blob(words.take(j)).len() as int)
            =~= payload_blob(words.take(j)));
        assert(index_bytes(words.take(k)).subrange(0, 4 * j) =~= index_bytes(words.take(j)));
    } else {
        lemma_prefixes(words, j, k - 1);
        lemma_blob_step(words, k - 1);
        lemma_le_bytes_len(payload_blob(words.take(k - 1)).len() as u32 as nat, 4);
        let a = payload_blob(words.take(k - 1));
        let lj = payload_blob(words.take(j)).len() as int;
        assert(payload_blob(words.take(k)).subrange(0, lj) =~= a.subrange(0, lj));
        let ib = index_bytes(words.take(k - 1));
        assert(index_bytes(words.take(k)).subrange(0, 4 * j) =~= ib.subrange(0, 4 * j));
    }
}

proof fn lemma_decode_at(a: Seq<u8>, p: Seq<u8>, d: Seq<u8>, z: Seq<u8>)
    requires
        p.len() <= usize::MAX,
        d.len() <= usize::MAX,
    ensures
        ({
            let b = a + (le64(2) + le64(p.len()) + p + le64(d.len()) + d) + z;
            &&& decode_record(b, a.len() as int) == Some((p, d))
            &&& record_len_at(b, a.len() as int) == 24 + p.len() + d.len()
        }),
{
    let b = a + (le64(2) + le64(p.len()) + p + le64(d.len()) + d) + z;
    let off = a.len() as int;
    lemma_le_bytes_len(2, 8);
    lemma_le_bytes_len(p.len(), 8);
    lemma_le_bytes_len(d.len(), 8);
    lemma_pow256_values();
    lemma_read_le_bytes(2, 8);
    lemma_read_le_bytes(p.len(), 8);
    lemma_read_le_bytes(d.len(), 8);
    assert(b.subrange(off, off + 8) =~= le64(2));
    assert(b.subrange(off + 8, off + 16) =~= le64(p.len()));
    let l1 = p.len() as int;
    assert(b.subrange(off + 16, off + 16 + l1) =~= p);
    assert(b.subrange(off + 16 + l1, off + 24 + l1) =~= le64(d.len()));
    assert(b.subrange(off + 24 + l1, off + 24 + l1 + d.len()) =~= d);
}

proof fn lemma_middle(x: Seq<u8>, a: Seq<u8>, e: Seq<u8>)
    requires
        a.len() + e.len() <= x.len(),
        x.subrange(0, (a.len() + e.len()) as int) == a + e,
    ensures
        x.subrange(a.len() as int, (a.len() + e.len()) as int) == e,
{
    assert(x.subrange(a.len() as int, (a.len() + e.len()) as int) =~= e) by {
        assert forall|j: int| 0 <= j < e.len() implies x[a.len() + j] == #[trigger] e[j] by {
            let k = a.len() + j;
            let y = x.subrange(0, (a.len() + e.len()) as int);
            assert(y[k] == x[k]);
            assert((a + e)[k] == e[j]);
        }
    }
}

proof fn lemma_index_entry(words: Seq<Word>, i: int)
    requires
        0 <= i < words.len(),
        payload_offset(words, i) <= u32::MAX,
    ensures
        read_le(index_bytes(words).subrange(4 * i, 4 * i + 4), 4) == payload_offset(words, i),
{
    let n = words.len() as int;
    assert(words.take(n) =~= words);
    lemma_prefixes(words, i + 1, n);
    lemma_blob_step(words, i);
    let ib = index_bytes(words);
    let prefix = index_bytes(words.take(i));
    let off = payload_offset(words, i);
    let o32 = off as u32;
    let e = le32(o32);
    assert(ib.subrange(0, 4 * (i + 1)) == prefix + e);
    lemma_prefixes(words, i, i);
    lemma_le_bytes_len(o32 as nat, 4);
    lemma_middle(ib, prefix, e);
    lemma_pow256_values();
    lemma_read_le_bytes(o32 as nat, 4);
}

/// The index and the blob round-trip: the four index bytes of entry `i` give
/// the offset of its record, which is the byte length of the records before
/// it; the record read at that offset holds exactly the entry's reading and
/// gloss, and spans exactly the serialised record.
pub proof fn lemma_payload_round_trip(words: Seq<Word>, i: int)
    requires
        0 <= i < words.len(),
        offsets_fit(words),
        encode_utf8(words[i].pinyin@).len() <= usize::MAX,
        encode_utf8(words[i].definition@).len() <= usize::MAX,
    ensures
        ({
            let blob = payload_blob(words);
            let off = payload_offset(words, i);
            let rec = decode_record(blob, off);
            &&& off == payload_blob(words.take(i)).len()
            &&& read_le(index_bytes(words).subrange(4 * i, 4 * i + 4), 4) == off
            &&& rec == Some((encode_utf8(words[i].pinyin@), encode_utf8(words[i].definition@)))
            &&& decode_utf8(rec.unwrap().0) == words[i].pinyin@
            &&& decode_utf8(rec.unwrap().1) == words[i].definition@
            &&& record_len_at(blob, off) == record_of(words[i]).len()
            &&& blob.subrange(off, off + record_len_at(blob, off)) == record_of(words[i])
        }),
{
    let n = words.len() as int;
    assert(words.take(n) =~= words);
    lemma_prefixes(words, i + 1, n);
    lemma_blob_step(words, i);
    let blob = payload_blob(words);
    let before = payload_blob(words.take(i));
    let off = before.len() as int;
    let rec = record_of(words[i]);
    let p = encode_utf8(words[i].pinyin@);
    let d = encode_utf8(words[i].definition@);
    let lr = rec.len() as int;
    assert(blob.subrange(0, off + lr) == before + rec);
    let rest = blob.subrange(off + lr, blob.len() as int);
    assert(blob =~= before + rec + rest);
    lemma_decode_at(before, p, d, rest);
    lemma_le_bytes_len(2, 8);
    lemma_le_bytes_len(p.len(), 8);
    lemma_le_bytes_len(d.len(), 8);
    assert(blob.subrange(off, off + lr) =~= rec);
    encode_utf8_decode_utf8(words[i].pinyin@);
    encode_utf8_decode_utf8(words[i].definition@);
    lemma_index_entry(words, i);
}

} // verus!
