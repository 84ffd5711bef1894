use policy_search::codec::{
    parse_record, parse_record_flexible, serialize_record, split_corpus, PolicyEvalResult,
};
use policy_search::policy::{BuyPolicyConfig, BuyPolicyItem, BuyablePiece};

fn item(piece_type: BuyablePiece, piece_num: i64, budget: i64) -> BuyPolicyItem {
    BuyPolicyItem { piece_type, piece_num, budget }
}

fn sample_record() -> PolicyEvalResult {
    PolicyEvalResult {
        policy: BuyPolicyConfig {
            priorities: vec![
                item(BuyablePiece::JACK, 1, 5),
                item(BuyablePiece::QUEEN, 2, 10),
                item(BuyablePiece::KING, 4, 0),
            ],
        },
        all_kings_policy: None,
        score: 305,
        times: 140000,
    }
}

#[test]
fn serialized_form_is_the_documented_line() {
    let line = serialize_record(&sample_record());
    let text = String::from_utf8(line).unwrap();
    let expected = "{\"policy\":{\"priorities\":[{\"piece_type\":\"JACK\",\"piece_num\":1,\"budget\":5},{\"piece_type\":\"QUEEN\",\"piece_num\":2,\"budget\":10},{\"piece_type\":\"KING\",\"piece_num\":4,\"budget\":0}]},\"all_kings_policy\":null,\"score\":0.305,\"times\":140000}";
    assert_eq!(text, expected);
}

#[test]
fn round_trip_without_kings_table() {
    let rec = sample_record();
    let line = serialize_record(&rec);
    let back = parse_record(&line).expect("a serialized record parses");
    assert_eq!(back, rec);
}

#[test]
fn round_trip_with_kings_table_and_full_score() {
    let rec = PolicyEvalResult {
        policy: BuyPolicyConfig { priorities: vec![item(BuyablePiece::JACK, 3, 7)] },
        all_kings_policy: Some(BuyPolicyConfig {
            priorities: vec![
                item(BuyablePiece::KING, 1, 10),
                item(BuyablePiece::QUEEN, 4, 2),
            ],
        }),
        score: 1000,
        times: 0,
    };
    let line = serialize_record(&rec);
    assert!(String::from_utf8(line.clone()).unwrap().contains("\"score\":1.000"));
    let back = parse_record(&line).expect("a serialized record parses");
    assert_eq!(back, rec);
}

#[test]
fn round_trip_with_empty_table() {
    let rec = PolicyEvalResult {
        policy: BuyPolicyConfig { priorities: vec![] },
        all_kings_policy: Some(BuyPolicyConfig { priorities: vec![] }),
        score: 0,
        times: 7,
    };
    let line = serialize_record(&rec);
    let back = parse_record(&line).expect("a serialized record parses");
    assert_eq!(back, rec);
}

#[test]
fn parses_a_line_written_by_hand() {
    let line = "{\"policy\":{\"priorities\":[{\"piece_type\":\"QUEEN\",\"piece_num\":3,\"budget\":2}]},\"all_kings_policy\":null,\"score\":0.500,\"times\":12}";
    let rec = parse_record(&line.as_bytes().to_vec()).expect("a well-formed line parses");
    assert_eq!(rec.policy.priorities, vec![item(BuyablePiece::QUEEN, 3, 2)]);
    assert_eq!(rec.all_kings_policy, None);
    assert_eq!(rec.score, 500);
    assert_eq!(rec.times, 12);
}

#[test]
fn malformed_lines_are_rejected() {
    assert!(parse_record(&Vec::new()).is_none());
    assert!(parse_record(&b"not a record".to_vec()).is_none());
    assert!(parse_record(&b"{\"policy\":{\"priorities\":[]}".to_vec()).is_none());
    // a tampered field name fails the render-back comparison
    let mut line = serialize_record(&sample_record());
    line[2] = b'q';
    assert!(parse_record(&line).is_none());
    // trailing garbage is rejected
    let mut line2 = serialize_record(&sample_record());
    line2.push(b' ');
    assert!(parse_record(&line2).is_none());
}

#[test]
fn corpus_split_by_score_tier() {
    let low = PolicyEvalResult {
        policy: BuyPolicyConfig { priorities: vec![item(BuyablePiece::JACK, 1, 1)] },
        all_kings_policy: None,
        score: 499,
        times: 10,
    };
    let high = PolicyEvalResult {
        policy: BuyPolicyConfig { priorities: vec![item(BuyablePiece::KING, 2, 9)] },
        all_kings_policy: None,
        score: 500,
        times: 10,
    };
    let (all, fifty) = split_corpus(&vec![low, high]);
    assert_eq!(all.len(), 2);
    assert_eq!(fifty.len(), 1);
    assert_eq!(fifty[0].priorities, vec![item(BuyablePiece::KING, 2, 9)]);
    assert_eq!(all[0].priorities, vec![item(BuyablePiece::JACK, 1, 1)]);
}

#[test]
fn tolerant_reader_truncates_float_spellings() {
    // shortest-float spellings with fewer or more than three fraction digits
    let short = "{\"policy\":{\"priorities\":[{\"piece_type\":\"QUEEN\",\"piece_num\":3,\"budget\":2}]},\"all_kings_policy\":null,\"score\":0.5,\"times\":12}";
    let rec = parse_record_flexible(&short.as_bytes().to_vec()).expect("short fraction parses");
    assert_eq!(rec.score, 500);
    assert_eq!(rec.times, 12);
    let long = "{\"policy\":{\"priorities\":[{\"piece_type\":\"JACK\",\"piece_num\":1,\"budget\":9}]},\"all_kings_policy\":null,\"score\":0.30571,\"times\":140000}";
    let rec2 = parse_record_flexible(&long.as_bytes().to_vec()).expect("long fraction parses");
    assert_eq!(rec2.score, 305);
}

#[test]
fn tolerant_reader_accepts_canonical_lines() {
    let rec = sample_record();
    let line = serialize_record(&rec);
    let back = parse_record_flexible(&line).expect("a canonical line parses");
    assert_eq!(back, rec);
}

#[test]
fn tolerant_reader_rejects_malformed_lines() {
    assert!(parse_record_flexible(&Vec::new()).is_none());
    assert!(parse_record_flexible(&b"not a record".to_vec()).is_none());
    // a score with no fraction digits at all is not the documented spelling
    let no_frac = "{\"policy\":{\"priorities\":[]},\"all_kings_policy\":null,\"score\":0.,\"times\":1}";
    assert!(parse_record_flexible(&no_frac.as_bytes().to_vec()).is_none());
}
