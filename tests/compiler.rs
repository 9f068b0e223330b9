use cedict_builder::dict::{group_entries, values_bytes, CostRecord};
use cedict_builder::error::ParsingError;
use cedict_builder::lindera::Lindera;
use cedict_builder::matrix::{cost_matrix, matrix_bytes, parse_field, split_fields};
use cedict_builder::mecab::{Mecab, Word};
use cedict_builder::payload::build_payload;

fn word(surface: &str, cost: i32, pinyin: &str, definition: &str) -> Word {
    Word {
        word: surface.to_string(),
        left_id: 0,
        right_id: 0,
        word_cost: cost,
        traditional: surface.to_string(),
        simplified: surface.to_string(),
        pinyin: pinyin.to_string(),
        definition: definition.to_string(),
    }
}

fn source(words: Vec<Word>) -> Mecab {
    let mut m = Mecab::new(Vec::new(), Vec::new(), Vec::new(), b"1 1\n0 0 0".to_vec());
    m.words = words;
    m
}

fn le64(n: u64) -> Vec<u8> {
    n.to_le_bytes().to_vec()
}

fn record(pinyin: &str, definition: &str) -> Vec<u8> {
    let mut r = le64(2);
    r.extend(le64(pinyin.len() as u64));
    r.extend(pinyin.as_bytes());
    r.extend(le64(definition.len() as u64));
    r.extend(definition.as_bytes());
    r
}

#[test]
fn single_entry_example() {
    let words = vec![word("你好", -3000, "ni3 hao3", "hello")];
    let g = group_entries(&words).unwrap();
    assert_eq!(g.keyset.len(), 1);
    assert_eq!(g.keyset[0].0, "你好".as_bytes().to_vec());
    assert_eq!(g.keyset[0].1, (0 << 5) | 1);
    assert_eq!(
        g.records,
        vec![CostRecord { id: 0, is_known: true, cost: -3000, cost_id: 0 }]
    );
    let (blob, index) = build_payload(&words).unwrap();
    assert_eq!(index, vec![0, 0, 0, 0]);
    assert_eq!(blob, record("ni3 hao3", "hello"));

    let m = source(words);
    let t = Lindera::from_mecab(&m).build_dict().unwrap();
    assert_eq!(t.words_idx, vec![0, 0, 0, 0]);
    assert_eq!(t.words, record("ni3 hao3", "hello"));
    let c = (-3000i16).to_le_bytes();
    assert_eq!(t.vals, vec![0, 0, 0, 0, c[0], c[1], 0, 0]);
    let keyset: Vec<(&[u8], u32)> = vec![("你好".as_bytes(), 1)];
    assert_eq!(t.da, yada::builder::DoubleArrayBuilder::build(&keyset).unwrap());
}

#[test]
fn cost_table_example() {
    let costs = cost_matrix(b"2 2\n0 1 50").unwrap();
    assert_eq!(costs, vec![2, 2, i16::MAX, 50, i16::MAX, i16::MAX]);
    let bytes = matrix_bytes(&costs);
    assert_eq!(bytes, vec![2, 0, 2, 0, 0xff, 0x7f, 50, 0, 0xff, 0x7f, 0xff, 0x7f]);
}

#[test]
fn group_of_thirty_one_builds() {
    let words: Vec<Word> = (0..31).map(|i| word("字", -i, "zi4", "character")).collect();
    let g = group_entries(&words).unwrap();
    assert_eq!(g.keyset.len(), 1);
    assert_eq!(g.keyset[0].1, 31);
    assert_eq!(g.records.len(), 31);
    let m = source(words);
    assert!(Lindera::from_mecab(&m).build_dict().is_ok());
}

#[test]
fn group_of_thirty_two_fails() {
    let words: Vec<Word> = (0..32).map(|i| word("字", -i, "zi4", "character")).collect();
    assert!(matches!(group_entries(&words), Err(ParsingError::OversizedGroup(_))));
    let m = source(words);
    assert!(matches!(
        Lindera::from_mecab(&m).build_dict(),
        Err(ParsingError::OversizedGroup(_))
    ));
}

#[test]
fn groups_are_sorted_and_address_their_records() {
    let words = vec![
        word("b", 10, "b1", "first b"),
        word("a", 20, "a1", "first a"),
        word("b", 30, "b2", "second b"),
        word("ab", 40, "ab", "ab"),
        word("a", 50, "a2", "second a"),
    ];
    let g = group_entries(&words).unwrap();
    let keys: Vec<Vec<u8>> = g.keyset.iter().map(|k| k.0.clone()).collect();
    assert_eq!(keys, vec![b"a".to_vec(), b"ab".to_vec(), b"b".to_vec()]);
    let values: Vec<u32> = g.keyset.iter().map(|k| k.1).collect();
    assert_eq!(values, vec![(0 << 5) | 2, (2 << 5) | 1, (3 << 5) | 2]);
    assert_eq!(g.sources, vec![1, 4, 3, 0, 2]);
    let costs: Vec<i16> = g.records.iter().map(|r| r.cost).collect();
    assert_eq!(costs, vec![20, 50, 40, 10, 30]);
    let ids: Vec<u32> = g.records.iter().map(|r| r.id).collect();
    assert_eq!(ids, vec![0, 1, 2, 3, 4]);
}

#[test]
fn out_of_range_costs_are_dropped() {
    let words = vec![
        word("a", 40000, "x", "too high"),
        word("a", -1, "y", "kept"),
        word("b", -40000, "z", "too low"),
        word("c", i16::MIN as i32, "w", "lowest"),
    ];
    let g = group_entries(&words).unwrap();
    assert_eq!(g.sources, vec![1, 3]);
    assert_eq!(g.keyset.len(), 2);
    assert_eq!(g.keyset[0].1, 1);
    assert_eq!(g.keyset[1].1, (1 << 5) | 1);
    // the payload keeps every entry, in source order
    let (_, index) = build_payload(&words).unwrap();
    assert_eq!(index.len(), 16);
}

#[test]
fn payload_index_round_trip() {
    let words = vec![
        word("一", 0, "yi1", "one"),
        word("二", 0, "er4", "two; 2"),
        word("三", 0, "", ""),
    ];
    let (blob, index) = build_payload(&words).unwrap();
    assert_eq!(index.len(), 12);
    let mut expected_offset = 0usize;
    for (i, w) in words.iter().enumerate() {
        let off = u32::from_le_bytes([index[4 * i], index[4 * i + 1], index[4 * i + 2], index[4 * i + 3]]) as usize;
        assert_eq!(off, expected_offset);
        let rec = record(&w.pinyin, &w.definition);
        assert_eq!(&blob[off..off + rec.len()], &rec[..]);
        let l1 = u64::from_le_bytes(blob[off + 8..off + 16].try_into().unwrap()) as usize;
        assert_eq!(std::str::from_utf8(&blob[off + 16..off + 16 + l1]).unwrap(), w.pinyin);
        expected_offset += rec.len();
    }
    assert_eq!(blob.len(), expected_offset);
}

#[test]
fn compiling_twice_gives_identical_tables() {
    let make = || {
        source(vec![
            word("中国", -800, "zhong1 guo2", "China"),
            word("中", -400, "zhong1", "middle"),
            word("国", -400, "guo2", "country"),
            word("中", -400, "zhong4", "to hit"),
        ])
    };
    let m1 = make();
    let m2 = make();
    let t1 = Lindera::from_mecab(&m1).build_dict().unwrap();
    let t2 = Lindera::from_mecab(&m2).build_dict().unwrap();
    assert_eq!(t1.words, t2.words);
    assert_eq!(t1.words_idx, t2.words_idx);
    assert_eq!(t1.da, t2.da);
    assert_eq!(t1.vals, t2.vals);
    let c1 = Lindera::from_mecab(&m1).build_cost_matrix().unwrap();
    let c2 = Lindera::from_mecab(&m2).build_cost_matrix().unwrap();
    assert_eq!(c1, c2);
}

#[test]
fn matrix_cells_and_sentinel() {
    let costs = cost_matrix(b"3 2\n0 0 -5\n2 1 7\n1 0 100\n2 1 9\n").unwrap();
    assert_eq!(costs.len(), 2 + 6);
    assert_eq!(costs[2 + 0 + 0 * 2], -5);
    assert_eq!(costs[2 + 0 + 1 * 2], 100);
    // a later line for the same cell wins
    assert_eq!(costs[2 + 1 + 2 * 2], 9);
    assert_eq!(costs[2 + 1 + 0 * 2], i16::MAX);
    assert_eq!(costs[2 + 1 + 1 * 2], i16::MAX);
    assert_eq!(costs[2 + 0 + 2 * 2], i16::MAX);
}

#[test]
fn matrix_cost_keeps_low_bits() {
    let costs = cost_matrix(b"1 1\n0 0 70000").unwrap();
    assert_eq!(costs, vec![1, 1, 70000u32 as u16 as i16]);
}

#[test]
fn matrix_blank_lines_and_crlf() {
    let costs = cost_matrix(b"1 2\r\n\r\n0 1 3\r\n").unwrap();
    assert_eq!(costs, vec![1, 2, i16::MAX, 3]);
}

#[test]
fn matrix_errors() {
    assert!(matches!(cost_matrix(b"2 x\n0 0 1"), Err(ParsingError::ParseIntError)));
    assert!(matches!(cost_matrix(b"2 2\n0 0 1.5"), Err(ParsingError::ParseIntError)));
    assert!(matches!(cost_matrix(b""), Err(ParsingError::MissingHeader)));
    assert!(matches!(cost_matrix(b"2\n0 0 1"), Err(ParsingError::MissingHeader)));
    assert!(matches!(cost_matrix(b"\n2 2"), Err(ParsingError::MissingHeader)));
    assert!(matches!(cost_matrix(b"2 2\n0 2 1"), Err(ParsingError::MalformedCostTable)));
    assert!(matches!(cost_matrix(b"2 2\n0 1"), Err(ParsingError::MalformedCostTable)));
    assert!(matches!(cost_matrix(b"-1 2"), Err(ParsingError::MalformedCostTable)));
    assert!(matches!(cost_matrix(b"40000 2"), Err(ParsingError::MalformedCostTable)));
}

#[test]
fn fields_split_by_lines_and_spaces() {
    let f = split_fields(b"a  bc\td\n\nx");
    assert_eq!(
        f,
        vec![
            vec![b"a".to_vec(), b"bc".to_vec(), b"d".to_vec()],
            vec![],
            vec![b"x".to_vec()]
        ]
    );
}

#[test]
fn parse_field_cases() {
    assert_eq!(parse_field(&b"42".to_vec()), Some(42));
    assert_eq!(parse_field(&b"+7".to_vec()), Some(7));
    assert_eq!(parse_field(&b"-2147483648".to_vec()), Some(i32::MIN));
    assert_eq!(parse_field(&b"2147483647".to_vec()), Some(i32::MAX));
    assert_eq!(parse_field(&b"2147483648".to_vec()), None);
    assert_eq!(parse_field(&b"-".to_vec()), None);
    assert_eq!(parse_field(&b"".to_vec()), None);
    assert_eq!(parse_field(&b"1a".to_vec()), None);
    assert_eq!(parse_field(&b"00012".to_vec()), Some(12));
}

#[test]
fn empty_source_fails_trie_build() {
    let m = source(vec![]);
    assert!(matches!(Lindera::from_mecab(&m).build_dict(), Err(ParsingError::TrieBuildError)));
}

#[test]
fn surface_with_zero_byte_fails_trie_build() {
    let m = source(vec![word("a\u{0}b", 0, "", "")]);
    assert!(matches!(Lindera::from_mecab(&m).build_dict(), Err(ParsingError::TrieBuildError)));
}

#[test]
fn record_bytes_layout() {
    let recs = vec![
        CostRecord { id: 0x01020304, is_known: true, cost: -2, cost_id: 0x0506 },
        CostRecord { id: 1, is_known: true, cost: 3, cost_id: 0 },
    ];
    assert_eq!(
        values_bytes(&recs),
        vec![4, 3, 2, 1, 0xfe, 0xff, 6, 5, 1, 0, 0, 0, 3, 0, 0, 0]
    );
}

#[test]
fn mecab_line_format() {
    let mut w = word("漢字", -1234, "han4 zi4", "Chinese character");
    w.simplified = "汉字".to_string();
    assert_eq!(
        w.to_mecab(),
        "漢字,0,0,-1234,*,*,*,*,han4 zi4,漢字,汉字,Chinese character\n"
    );
    let w2 = word("a", 56, "p", "d");
    assert_eq!(w2.to_mecab(), "a,0,0,56,*,*,*,*,p,a,a,d\n");
}

#[test]
fn pair_walk_costs() {
    let m = source(vec![word("a", -100, "", ""), word("b", -25, "", "")]);
    let mut walk = m.matrix();
    assert_eq!(walk.next(), Some((0, 0, -20)));
    assert_eq!(walk.next(), Some((0, 1, -12)));
    assert_eq!(walk.next(), Some((1, 0, -12)));
    assert_eq!(walk.next(), Some((1, 1, -5)));
    assert_eq!(walk.next(), None);
    assert_eq!(walk.next(), None);
}

#[test]
fn new_source_is_empty() {
    let m = Mecab::new(b"u".to_vec(), b"c".to_vec(), b"d".to_vec(), b"m".to_vec());
    assert!(m.words.is_empty());
    assert_eq!(m.unk_def, b"u".to_vec());
    assert_eq!(m.char_def, b"c".to_vec());
    assert_eq!(m.dicrc, b"d".to_vec());
    assert_eq!(m.matrix, b"m".to_vec());
}
