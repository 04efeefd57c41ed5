use ctest_cost_merge::reconcile::merge_cost_files;

fn base_file() -> Vec<u8> {
    b"alpha 5 1.0\nbeta 3 2.0\ngamma 2 0.5\n---".to_vec()
}

fn update_file(n: u32) -> Vec<u8> {
    match n {
        1 => b"alpha 7 1.5\nbeta 3 2.0\ngamma 2 0.5\n---".to_vec(),
        2 => b"alpha 5 1.0\nbeta 3 2.0\ngamma 9 0.7\n---".to_vec(),
        3 => b"alpha 5 1.0\nbeta 6 2.2\ngamma 2 0.5\n---".to_vec(),
        _ => panic!("no such update file"),
    }
}

fn expected_new() -> Vec<u8> {
    b"alpha 7 1.5\nbeta 6 2.2\ngamma 9 0.7\n---".to_vec()
}

fn basic_cost_merge_inner(order: [u32; 3]) {
    let updates: Vec<Vec<u8>> = order.iter().map(|&n| update_file(n)).collect();
    let merged = merge_cost_files(&base_file(), &updates).expect("merge failed");
    assert_eq!(
        expected_new(),
        merged,
        "Expected and actual merged content diverged"
    );
}

#[test]
fn basic_cost_merge_123() {
    basic_cost_merge_inner([1, 2, 3]);
}

#[test]
fn basic_cost_merge_132() {
    basic_cost_merge_inner([1, 3, 2]);
}

#[test]
fn basic_cost_merge_312() {
    basic_cost_merge_inner([3, 1, 2]);
}

#[test]
fn basic_cost_merge_321() {
    basic_cost_merge_inner([3, 2, 1]);
}

#[test]
fn basic_cost_merge_213() {
    basic_cost_merge_inner([2, 1, 3]);
}

#[test]
fn basic_cost_merge_231() {
    basic_cost_merge_inner([2, 3, 1]);
}
