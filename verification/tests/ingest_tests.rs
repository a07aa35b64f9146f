use memelay::ingest::{parse_histogram, parse_model, parse_seeds, IngestError, ParseStage};
use memelay::types::Kc;

fn bigram_zeros() -> String {
    let mut s = String::new();
    for _ in 0..80 {
        s.push_str("0.0 ");
    }
    s.push('\n');
    s
}

#[test]
fn test_load_seeds_single_layout() {
    let layouts = parse_seeds("a b c\nd e f\n").unwrap();
    assert_eq!(layouts.len(), 1);
    assert_eq!(layouts[0].0, vec![Kc::A, Kc::B, Kc::C, Kc::D, Kc::E, Kc::F]);
}

#[test]
fn test_load_seeds_multiple_layouts() {
    let layouts = parse_seeds("a b c\n\nd e f\n").unwrap();
    assert_eq!(layouts.len(), 2);
    assert_eq!(layouts[0].0, vec![Kc::A, Kc::B, Kc::C]);
    assert_eq!(layouts[1].0, vec![Kc::D, Kc::E, Kc::F]);
}

#[test]
fn test_load_seeds_whitespace_handling() {
    let layouts = parse_seeds("a  b   c\n  d e f  \n").unwrap();
    assert_eq!(layouts.len(), 1);
    assert_eq!(layouts[0].0, vec![Kc::A, Kc::B, Kc::C, Kc::D, Kc::E, Kc::F]);
}

#[test]
fn test_load_seeds_empty_lines_at_end() {
    let layouts = parse_seeds("a b c\n\nd e f\n\n").unwrap();
    assert_eq!(layouts.len(), 2);
}

#[test]
fn test_load_seeds_invalid_keycode() {
    let result = parse_seeds("a invalid c\n");
    assert!(result.is_err());
    assert_eq!(result.unwrap_err(), IngestError::UnknownKey("invalid".to_string()));
}

#[test]
fn test_load_seeds_different_sizes() {
    let result = parse_seeds("a b c\n\nd e\n");
    assert!(result.is_err());
    assert!(result.unwrap_err().message().contains("not all layouts the same size"));
}

#[test]
fn test_load_seeds_empty_file() {
    let layouts = parse_seeds("").unwrap();
    assert_eq!(layouts.len(), 0);
}

#[test]
fn test_load_seeds_only_whitespace_lines() {
    let layouts = parse_seeds("   \n\t\t\n").unwrap();
    assert!(layouts.is_empty() || layouts[0].0.is_empty());
}

#[test]
fn test_load_seeds_mixed_whitespace() {
    let layouts = parse_seeds("a\tb\t c\n").unwrap();
    assert_eq!(layouts[0].0, vec![Kc::A, Kc::B, Kc::C]);
}

#[test]
fn seeds_crlf_lines() {
    let layouts = parse_seeds("a b\r\n\r\nc d\r\n").unwrap();
    assert_eq!(layouts.len(), 2);
    assert_eq!(layouts[1].0, vec![Kc::C, Kc::D]);
}

#[test]
fn test_load_histograms_unigrams() {
    let hist = parse_histogram("header\na 100.5\nb 50.25\n", 1).unwrap();
    assert_eq!(hist.len(), 2);
    assert_eq!(hist[0].keys, vec![Kc::A]);
    assert_eq!(hist[0].count, "100.5");
    assert_eq!(hist[1].keys, vec![Kc::B]);
    assert_eq!(hist[1].count, "50.25");
}

#[test]
fn test_load_histograms_bigrams() {
    let hist = parse_histogram("header\na b 10.5\nc d 20.25\n", 2).unwrap();
    assert_eq!(hist.len(), 2);
    assert_eq!(hist[0].keys, vec![Kc::A, Kc::B]);
    assert_eq!(hist[0].count, "10.5");
    assert_eq!(hist[1].keys, vec![Kc::C, Kc::D]);
    assert_eq!(hist[1].count, "20.25");
}

#[test]
fn test_load_histograms_trigrams() {
    let hist = parse_histogram("header\na b c 5.5\nd e f 7.25\n", 3).unwrap();
    assert_eq!(hist.len(), 2);
    assert_eq!(hist[0].keys, vec![Kc::A, Kc::B, Kc::C]);
    assert_eq!(hist[0].count, "5.5");
    assert_eq!(hist[1].keys, vec![Kc::D, Kc::E, Kc::F]);
    assert_eq!(hist[1].count, "7.25");
}

#[test]
fn test_load_histograms_invalid_unigram_format() {
    let result = parse_histogram("header\na\n", 1);
    assert!(result.is_err());
    assert_eq!(result.unwrap_err(), IngestError::WeirdLine("a".to_string()));
}

#[test]
fn test_load_histograms_invalid_bigram_format() {
    assert!(parse_histogram("header\na b\n", 2).is_err());
}

#[test]
fn test_load_histograms_invalid_trigram_format() {
    assert!(parse_histogram("header\na b c\n", 3).is_err());
}

#[test]
fn test_load_histograms_empty_files() {
    assert_eq!(parse_histogram("header\n", 1).unwrap().len(), 0);
    assert_eq!(parse_histogram("header\n", 2).unwrap().len(), 0);
    assert_eq!(parse_histogram("header\n", 3).unwrap().len(), 0);
    assert_eq!(parse_histogram("", 1).unwrap().len(), 0);
}

#[test]
fn test_load_histograms_multiple_entries() {
    let mut text = String::from("header\n");
    for i in 0..10 {
        text.push_str(&format!("a {}.0\n", i));
    }
    assert_eq!(parse_histogram(&text, 1).unwrap().len(), 10);
}

#[test]
fn histogram_unknown_key() {
    assert_eq!(
        parse_histogram("header\nq 1.0\nzz 2.0\n", 1).unwrap_err(),
        IngestError::UnknownKey("zz".to_string())
    );
}

#[test]
fn test_load_model_basic() {
    let text = format!(
        "layout\nX X X\nkeys\na b c\nfixed\nNone None None\nunigram_cost\n1.0 2.0 3.0\nbigram_cost\n{}row\n0 0 0\nhand\n0 0 1\nfinger\n0 1 0\n",
        bigram_zeros()
    );
    let mt = parse_model(&text).unwrap();
    assert_eq!(mt.model.universe, vec![Kc::A, Kc::B, Kc::C]);
    assert_eq!(mt.model.fixed, vec![Kc::No, Kc::No, Kc::No]);
    assert_eq!(mt.unigram_cost, vec!["1.0", "2.0", "3.0"]);
    assert_eq!(mt.bigram_cost.len(), 80);
    assert_eq!(mt.model.row, vec![0, 0, 0]);
    assert_eq!(mt.model.hand, vec![0, 0, 1]);
    assert_eq!(mt.model.finger, vec![0, 1, 0]);
}

#[test]
fn test_load_model_with_fixed_keys() {
    let text = format!(
        "layout\nX X\nkeys\na b\nfixed\na None\nunigram_cost\n1.0 2.0\nbigram_cost\n{}row\n0 0\nhand\n0 0\nfinger\n0 1\n",
        bigram_zeros()
    );
    let mt = parse_model(&text).unwrap();
    assert_eq!(mt.model.fixed, vec![Kc::A, Kc::No]);
}

#[test]
fn test_load_model_layout_preservation() {
    let text = format!(
        "layout\nX X X\nY Y Y\nkeys\na b c\nfixed\nNone None None\nunigram_cost\n1.0 2.0 3.0\nbigram_cost\n{}row\n0 0 0\nhand\n0 0 1\nfinger\n0 1 0\n",
        bigram_zeros()
    );
    let mt = parse_model(&text).unwrap();
    assert!(mt.model.layout.contains("X X X"));
    assert!(mt.model.layout.contains("Y Y Y"));
    assert_eq!(mt.model.layout, "X X X\nY Y Y\n");
}

#[test]
fn test_load_model_whitespace_handling() {
    let text = format!(
        "layout\nX X X\nkeys\n  a   b   c  \nfixed\nNone None None\nunigram_cost\n1.0  2.0  3.0\nbigram_cost\n{}row\n0 0 0\nhand\n0 0 1\nfinger\n0 1 0\n",
        bigram_zeros()
    );
    let mt = parse_model(&text).unwrap();
    assert_eq!(mt.model.universe, vec![Kc::A, Kc::B, Kc::C]);
}

#[test]
fn model_errors() {
    assert_eq!(
        parse_model("keys\na nope\n").unwrap_err(),
        IngestError::UnknownKey("nope".to_string())
    );
    assert_eq!(parse_model("row\n1 x2\n").unwrap_err(), IngestError::BadInteger("x2".to_string()));
    assert_eq!(parse_model("row\n99999999999\n").unwrap_err(), IngestError::BadInteger("99999999999".to_string()));
    let mut many = String::from("bigram_cost\n");
    for _ in 0..81 {
        many.push_str("1 ");
    }
    assert_eq!(parse_model(&many).unwrap_err(), IngestError::TooManyBigramCosts);
    let mut costs = String::from("bigram_cost\n");
    for _ in 0..80 {
        costs.push_str("1 ");
    }
    costs.push('\n');
    // Unknown fixed keys stand for no key.
    let text = format!("{}fixed\nq what\n", costs);
    assert_eq!(parse_model(&text).unwrap().model.fixed, vec![Kc::Q, Kc::No]);
    // Signed rows.
    let text = format!("{}row\n-3 +4 0\n", costs);
    assert_eq!(parse_model(&text).unwrap().model.row, vec![-3, 4, 0]);
}

#[test]
fn model_needs_all_bigram_costs() {
    assert_eq!(parse_model("fixed\nq what\n").unwrap_err(), IngestError::MissingBigramCosts);
    let mut few = String::from("bigram_cost\n");
    for _ in 0..79 {
        few.push_str("1 ");
    }
    assert_eq!(parse_model(&few).unwrap_err(), IngestError::MissingBigramCosts);
    assert_eq!(IngestError::MissingBigramCosts.message(), "missing bigram costs");
}

#[test]
fn test_parse_stage_values() {
    let stages = [
        ParseStage::Layout,
        ParseStage::Keys,
        ParseStage::Fixed,
        ParseStage::UnigramCost,
        ParseStage::BigramCost,
        ParseStage::Row,
        ParseStage::Hand,
        ParseStage::Finger,
    ];

    for stage in &stages {
        let debug_str = format!("{:?}", stage);
        assert!(!debug_str.is_empty());
    }
}

#[test]
fn seeds_split_on_unicode_whitespace() {
    // An ideographic space and a no-break space separate tokens; a zero-width space does not.
    let layouts = parse_seeds("a\u{3000}b\u{a0}c\n").unwrap();
    assert_eq!(layouts[0].0, vec![Kc::A, Kc::B, Kc::C]);
    assert_eq!(
        parse_seeds("a\u{200b}b\n").unwrap_err(),
        IngestError::UnknownKey("a\u{200b}b".to_string())
    );
}
