use ctest_cost_merge::merge::RecordSet;
use ctest_cost_merge::parse::parse_records;
use ctest_cost_merge::record::{CostError, CostRecord};
use ctest_cost_merge::reconcile::{merge_cost_files, MergeError};

fn rec(name: &[u8], count: usize, cost: &[u8]) -> CostRecord {
    CostRecord { test_name: name.to_vec(), count, cost: cost.to_vec() }
}

#[test]
fn freshest_record_wins() {
    let base = vec![rec(b"a", 5, b"1.0"), rec(b"b", 3, b"2.0")];
    let mut set = RecordSet::from_baseline(base).expect("baseline load failed");
    set.apply_update(vec![rec(b"a", 7, b"1.5"), rec(b"b", 1, b"9.9")]);
    let merged = set.into_records();
    assert_eq!(merged.len(), 2);
    // a: the update out-counts the baseline, so its row is kept
    assert_eq!(merged[0].count, 7);
    assert_eq!(merged[0].cost, b"1.5".to_vec());
    // b: the update is staler, so the baseline row is kept
    assert_eq!(merged[1].count, 3);
    assert_eq!(merged[1].cost, b"2.0".to_vec());
}

#[test]
fn tie_keeps_existing_record() {
    let base = vec![rec(b"a", 5, b"1.0")];
    let mut set = RecordSet::from_baseline(base).expect("baseline load failed");
    set.apply_update(vec![rec(b"a", 5, b"8.8")]);
    let merged = set.into_records();
    assert_eq!(merged[0].cost, b"1.0".to_vec());
}

#[test]
fn new_test_is_appended() {
    let base = vec![rec(b"a", 5, b"1.0")];
    let mut set = RecordSet::from_baseline(base).expect("baseline load failed");
    set.apply_update(vec![rec(b"c", 1, b"0.1")]);
    let merged = set.into_records();
    assert_eq!(merged.len(), 2);
    assert_eq!(merged[1].test_name, b"c".to_vec());
    assert_eq!(merged[1].count, 1);
    assert_eq!(merged[1].cost, b"0.1".to_vec());
}

#[test]
fn merged_names_stay_unique() {
    let base = b"a 5 1.0\nb 3 2.0\n---".to_vec();
    let updates = vec![
        b"a 7 1.5\nc 1 0.1\n---".to_vec(),
        b"b 9 4.0\nc 2 0.2\n---".to_vec(),
    ];
    let merged = merge_cost_files(&base, &updates).expect("merge failed");
    let rows = parse_records(&merged).expect("reparse failed");
    for i in 0..rows.len() {
        for j in 0..rows.len() {
            if i != j {
                assert_ne!(rows[i].test_name, rows[j].test_name);
            }
        }
    }
}

#[test]
fn baseline_duplicate_is_rejected() {
    let base = vec![rec(b"a", 5, b"1.0"), rec(b"a", 6, b"2.0")];
    match RecordSet::from_baseline(base) {
        Err(CostError::DuplicateTestName) => {},
        _ => panic!("a duplicated baseline test name must be rejected"),
    }
}

#[test]
fn baseline_duplicate_fails_before_output() {
    let base = b"a 5 1.0\na 6 2.0\n---".to_vec();
    let updates: Vec<Vec<u8>> = vec![b"b 1 0.1\n---".to_vec()];
    assert_eq!(
        merge_cost_files(&base, &updates),
        Err(MergeError::DuplicateTestName)
    );
}

#[test]
fn duplicates_inside_updates_are_merged() {
    // an update may carry one test twice; the fresher row wins there too
    let base = vec![rec(b"a", 1, b"1.0")];
    let mut set = RecordSet::from_baseline(base).expect("baseline load failed");
    set.apply_update(vec![rec(b"a", 4, b"4.0"), rec(b"a", 3, b"3.0")]);
    let merged = set.into_records();
    assert_eq!(merged.len(), 1);
    assert_eq!(merged[0].count, 4);
}

#[test]
fn malformed_update_fails_merge() {
    let base = b"a 5 1.0\n---".to_vec();
    let updates = vec![b"a 6 1.1\n---".to_vec(), b"bad row\n---".to_vec()];
    assert_eq!(
        merge_cost_files(&base, &updates),
        Err(MergeError::UpdateMalformed(1))
    );
}

#[test]
fn merged_file_round_trips_as_baseline() {
    let base = b"a 5 1.0\nb 3 2.0\n---".to_vec();
    let updates = vec![b"a 7 1.5\nc 1 0.1\n---".to_vec()];
    let merged = merge_cost_files(&base, &updates).expect("merge failed");
    // use the merged file as the next baseline, with nothing to fold in
    let again = merge_cost_files(&merged, &Vec::new()).expect("re-merge failed");
    assert_eq!(merged, again);
    let rows = parse_records(&merged).expect("reparse failed");
    assert_eq!(rows.len(), 3);
    assert_eq!(rows[0].test_name, b"a".to_vec());
    assert_eq!(rows[0].count, 7);
}

#[test]
fn end_to_end_scenario() {
    let base = b"A 5 1.0\nB 3 2.0\n---".to_vec();
    let updates = vec![
        b"A 7 1.5\n---".to_vec(),
        b"B 2 9.9\nC 1 0.1\n---".to_vec(),
    ];
    let merged = merge_cost_files(&base, &updates).expect("merge failed");
    assert_eq!(merged, b"A 7 1.5\nB 3 2.0\nC 1 0.1\n---".to_vec());
}

#[test]
fn order_independent_with_one_new_test() {
    let base = b"a 5 1.0\nb 3 2.0\n---".to_vec();
    let u1 = b"a 7 1.5\nc 1 0.1\n---".to_vec();
    let u2 = b"b 9 4.0\n---".to_vec();
    let one = merge_cost_files(&base, &vec![u1.clone(), u2.clone()]).expect("merge failed");
    let other = merge_cost_files(&base, &vec![u2, u1]).expect("merge failed");
    assert_eq!(one, other);
    assert_eq!(one, b"a 7 1.5\nb 9 4.0\nc 1 0.1\n---".to_vec());
}

#[test]
fn malformed_baseline_fails_merge() {
    let base = b"only two\n---".to_vec();
    assert_eq!(
        merge_cost_files(&base, &Vec::new()),
        Err(MergeError::BaselineMalformed)
    );
}
