use cedict_builder::mecab::Mecab;
use cedict_builder::source::{entry_cost, entry_spans, surface_cost};

fn base() -> Mecab {
    Mecab::new(b"u".to_vec(), b"c".to_vec(), b"d".to_vec(), b"m".to_vec())
}

#[test]
fn spans_of_a_cedict_line() {
    let line = "中國 中国 [Zhong1 guo2] /China/Middle Kingdom/";
    let (sp, lb, rb) = entry_spans(line.as_bytes()).unwrap();
    assert_eq!(&line[..sp], "中國");
    assert_eq!(&line[sp + 1..lb], "中国");
    assert_eq!(&line[lb + 2..rb], "Zhong1 guo2");
    assert_eq!(&line[rb + 3..], "China/Middle Kingdom/");
}

#[test]
fn spans_take_the_first_delimiters() {
    // lazy groups: the simplified form ends at the first " [" and the
    // reading at the first "] /" after it
    let line = "A B C [x] /y [z] /w";
    let (sp, lb, rb) = entry_spans(line.as_bytes()).unwrap();
    assert_eq!(&line[..sp], "A");
    assert_eq!(&line[sp + 1..lb], "B C");
    assert_eq!(&line[lb + 2..rb], "x");
    assert_eq!(&line[rb + 3..], "y [z] /w");
}

#[test]
fn spans_reject_other_shapes() {
    assert_eq!(entry_spans(b"no brackets here"), None);
    assert_eq!(entry_spans(b"a [b] /c"), None);
    assert_eq!(entry_spans(b"a b [c] d"), None);
    assert_eq!(entry_spans(b"a b [c] /d\ne"), None);
    assert_eq!(entry_spans(b""), None);
}

#[test]
fn cost_matches_the_power_formula() {
    for n in 0usize..40 {
        let expected = std::cmp::max(-36000, (-400f64 * (n as f64).powf(1.5)) as i32);
        assert_eq!(entry_cost(n), expected, "n = {}", n);
    }
    assert_eq!(entry_cost(1), -400);
    assert_eq!(entry_cost(2), -1131);
    assert_eq!(entry_cost(4), -3200);
    assert_eq!(entry_cost(20), -35777);
    assert_eq!(entry_cost(21), -36000);
    assert_eq!(entry_cost(1000), -36000);
}

#[test]
fn cost_counts_graphemes() {
    assert_eq!(surface_cost("中国"), -1131);
    // one grapheme made of two code points
    assert_eq!(surface_cost("e\u{301}"), -400);
    assert_eq!(surface_cost(""), 0);
}

#[test]
fn from_raw_reads_entries() {
    let raw: Vec<String> = vec![
        "% a comment".to_string(),
        "".to_string(),
        "中國 中国 [Zhong1 guo2] /China/".to_string(),
        "not an entry".to_string(),
        "你好 你好 [ni3 hao3] /hello/".to_string(),
    ];
    let m = Mecab::from_raw(&raw, base());
    assert_eq!(m.words.len(), 3);
    assert_eq!(m.words[0].word, "中國");
    assert_eq!(m.words[1].word, "中国");
    assert_eq!(m.words[2].word, "你好");
    assert_eq!(m.words[0].left_id, 0);
    assert_eq!(m.words[1].right_id, 0);
    assert_eq!(m.words[2].left_id, 1);
    assert_eq!(m.words[1].traditional, "中國");
    assert_eq!(m.words[1].simplified, "中国");
    assert_eq!(m.words[1].pinyin, "Zhong1 guo2");
    assert_eq!(m.words[1].definition, "China/");
    assert_eq!(m.words[0].word_cost, -1131);
    assert_eq!(m.words[1].word_cost, -1131);
    assert_eq!(m.unk_def, b"u".to_vec());
    assert_eq!(m.matrix, b"m".to_vec());
}
