//! Judgment-file parsing and the judgment store, fed exactly as the file
//! loader feeds them: tokenize the lines, parse each relevance token into a
//! gain key, build the store.

use fastrank::errors::RankError;
use fastrank::qrel::{ParsedGain, QuerySetJudgments, build_judgments, split_columns, tokenize_qrel};

fn gain_key(g: f32) -> u32 {
    let g = if g == 0.0 { 0.0 } else { g };
    let b = g.to_bits();
    if b & 0x8000_0000 != 0 {
        !b
    } else {
        b | 0x8000_0000
    }
}

/// What the boundary does with one relevance token.
fn parse_gain(token: &str) -> ParsedGain {
    match token.parse::<f32>() {
        Ok(v) if v.is_nan() => ParsedGain::NotANumber,
        Ok(v) => ParsedGain::Value(gain_key(v)),
        Err(_) => ParsedGain::Unparsable,
    }
}

/// The whole load path from raw lines, as the file reader drives it.
fn load(path: &str, text: &str) -> Result<QuerySetJudgments, RankError> {
    let lines: Vec<String> = text.lines().map(|l| l.to_string()).collect();
    let records = tokenize_qrel(path, &lines)?;
    let rows: Vec<(String, String, ParsedGain)> = records
        .into_iter()
        .map(|(qid, docid, token)| (qid, docid, parse_gain(&token)))
        .collect();
    build_judgments(path, &rows)
}

#[test]
fn columns_split_on_whitespace() {
    let cols = split_columns("q1 0\tdoc-3   2.5");
    assert_eq!(
        cols,
        vec![
            String::from("q1"),
            String::from("0"),
            String::from("doc-3"),
            String::from("2.5"),
        ]
    );
    assert_eq!(split_columns("   "), Vec::<String>::new());
    assert_eq!(split_columns(""), Vec::<String>::new());
}

#[test]
fn well_formed_file_builds_the_store() {
    let text = "q1 0 d1 2\nq1 0 d2 0\nq2 0 d9 1.5\n";
    let set = load("qrels.txt", text).unwrap();
    let q1 = set.get("q1").unwrap();
    assert_eq!(q1.num_judged(), 2);
    assert_eq!(q1.num_relevant(), 1);
    assert_eq!(q1.get_gain("d1"), gain_key(2.0));
    assert_eq!(q1.get_gain("d2"), gain_key(0.0));
    // An unjudged document defaults to the zero gain.
    assert_eq!(q1.get_gain("unseen"), gain_key(0.0));
    assert_eq!(q1.gain_vector(), vec![gain_key(2.0), gain_key(0.0)]);
    let q2 = set.get("q2").unwrap();
    assert_eq!(q2.num_judged(), 1);
    assert_eq!(q2.get_gain("d9"), gain_key(1.5));
    assert!(set.get("q3").is_none());
}

#[test]
fn duplicate_query_document_pairs_take_the_later_line() {
    let text = "q1 0 d1 1\nq1 0 d1 3\n";
    let set = load("qrels.txt", text).unwrap();
    let q1 = set.get("q1").unwrap();
    assert_eq!(q1.num_judged(), 1);
    assert_eq!(q1.get_gain("d1"), gain_key(3.0));
}

#[test]
fn unparsable_relevance_on_line_five_fails_the_whole_load() {
    let text = "q1 0 d1 1\nq1 0 d2 0\nq1 0 d3 2\nq2 0 d4 1\nq2 0 d5 abc\nq2 0 d6 1\n";
    match load("judgments/qrels.txt", text) {
        Err(RankError::InvalidValue { path, line, detail }) => {
            assert_eq!(path, "judgments/qrels.txt");
            assert_eq!(line, 5);
            assert_eq!(detail, "Invalid relevance judgment");
            let e = RankError::InvalidValue { path, line, detail };
            assert_eq!(
                e.message(),
                "judgments/qrels.txt:5: Invalid relevance judgment"
            );
        },
        other => panic!("expected an invalid-value error, got {:?}", other),
    }
}

#[test]
fn nan_relevance_is_rejected_with_its_line() {
    let text = "q1 0 d1 1\nq1 0 d2 NaN\n";
    match load("qrels.txt", text) {
        Err(RankError::InvalidValue { path, line, detail }) => {
            assert_eq!(path, "qrels.txt");
            assert_eq!(line, 2);
            assert_eq!(detail, "NaN relevance judgment.");
        },
        other => panic!("expected a NaN rejection, got {:?}", other),
    }
}

#[test]
fn short_line_fails_the_whole_load() {
    let text = "q1 0 d1 1\nq1 d2\n";
    match load("qrels.txt", text) {
        Err(RankError::InvalidValue { path, line, detail }) => {
            assert_eq!(path, "qrels.txt");
            assert_eq!(line, 2);
            assert_eq!(detail, "Invalid judgment line");
        },
        other => panic!("expected a malformed-line error, got {:?}", other),
    }
}

#[test]
fn unicode_whitespace_also_separates_columns() {
    // A no-break space and an em space are White_Space, as under the
    // standard library's whitespace splitting.
    let cols = split_columns("q1\u{00A0}0\u{2003}d1 2");
    assert_eq!(
        cols,
        vec![
            String::from("q1"),
            String::from("0"),
            String::from("d1"),
            String::from("2"),
        ]
    );
}

#[test]
fn extra_columns_are_ignored() {
    let text = "q1 0 d1 2 trailing words\n";
    let set = load("qrels.txt", text).unwrap();
    assert_eq!(set.get("q1").unwrap().get_gain("d1"), gain_key(2.0));
}

#[test]
fn error_messages_name_path_and_line() {
    let e = RankError::IOFailure { path: String::from("missing.txt") };
    assert_eq!(e.message(), "could not read missing.txt");
    let s = RankError::ShapeMismatch { detail: "Bad y-length" };
    assert_eq!(s.message(), "Bad y-length");
}
