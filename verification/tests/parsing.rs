use ctest_cost_merge::parse::parse_records;
use ctest_cost_merge::record::CostError;
use ctest_cost_merge::serialize::serialize_records;

#[test]
fn parse_three_records() {
    let content = b"a 5 1.0\nb 3 2.0\nc 1 0.25\n---".to_vec();
    let recs = parse_records(&content).expect("parse failed");
    assert_eq!(recs.len(), 3);
    assert_eq!(recs[0].test_name, b"a".to_vec());
    assert_eq!(recs[0].count, 5);
    assert_eq!(recs[0].cost, b"1.0".to_vec());
    assert_eq!(recs[1].test_name, b"b".to_vec());
    assert_eq!(recs[1].count, 3);
    assert_eq!(recs[2].test_name, b"c".to_vec());
    assert_eq!(recs[2].cost, b"0.25".to_vec());
}

#[test]
fn parse_without_trailer() {
    let content = b"a 5 1.0\nb 3 2.0\n".to_vec();
    let recs = parse_records(&content).expect("parse failed");
    assert_eq!(recs.len(), 2);
    assert_eq!(recs[1].test_name, b"b".to_vec());
}

#[test]
fn parse_empty_file() {
    let recs = parse_records(&Vec::new()).expect("parse failed");
    assert!(recs.is_empty());
}

#[test]
fn parse_trailer_only() {
    let recs = parse_records(&b"---".to_vec()).expect("parse failed");
    assert!(recs.is_empty());
}

#[test]
fn parse_skips_empty_lines() {
    let content = b"a 5 1.0\n\nb 3 2.0\n\n---".to_vec();
    let recs = parse_records(&content).expect("parse failed");
    assert_eq!(recs.len(), 2);
}

#[test]
fn parse_strips_from_last_marker() {
    // an earlier `---` inside a cost field survives; only the last one ends the data
    let content = b"a 5 ---x\nb 3 2.0\n---".to_vec();
    let recs = parse_records(&content).expect("parse failed");
    assert_eq!(recs.len(), 2);
    assert_eq!(recs[0].cost, b"---x".to_vec());
}

#[test]
fn parse_rejects_two_fields() {
    let content = b"a 5\nb 3 2.0\n---".to_vec();
    assert_eq!(parse_records(&content), Err(CostError::MalformedRow));
}

#[test]
fn parse_rejects_four_fields() {
    let content = b"a 5 1.0 extra\n---".to_vec();
    assert_eq!(parse_records(&content), Err(CostError::MalformedRow));
}

#[test]
fn parse_rejects_non_integer_count() {
    let content = b"a x5 1.0\n---".to_vec();
    assert_eq!(parse_records(&content), Err(CostError::MalformedRow));
}

#[test]
fn parse_rejects_overflowing_count() {
    let content = b"a 99999999999999999999999999 1.0\n---".to_vec();
    assert_eq!(parse_records(&content), Err(CostError::MalformedRow));
}

#[test]
fn parse_accepts_max_count() {
    let line = format!("a {} 1.0\n---", usize::MAX);
    let recs = parse_records(&line.into_bytes()).expect("parse failed");
    assert_eq!(recs[0].count, usize::MAX);
}

#[test]
fn serialize_exact_bytes() {
    let content = b"a 5 1.0\nb 3 2.0\n---".to_vec();
    let recs = parse_records(&content).expect("parse failed");
    let out = serialize_records(&recs);
    assert_eq!(out, b"a 5 1.0\nb 3 2.0\n---".to_vec());
}

#[test]
fn serialize_renders_multidigit_counts() {
    let content = b"t 1234 0.5\n---".to_vec();
    let recs = parse_records(&content).expect("parse failed");
    let out = serialize_records(&recs);
    assert_eq!(out, b"t 1234 0.5\n---".to_vec());
}

#[test]
fn serialize_empty_set_is_trailer_alone() {
    let recs = parse_records(&b"---".to_vec()).expect("parse failed");
    let out = serialize_records(&recs);
    assert_eq!(out, b"---".to_vec());
}
