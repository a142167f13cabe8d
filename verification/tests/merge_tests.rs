use distributed_prover::field::FieldElement;
use distributed_prover::merge::{merge_runs, merge_steps};
use distributed_prover::portal::{decimal_string, PortalKey};

fn run(entries: &[(u64, usize)]) -> Vec<(FieldElement, usize)> {
    entries.iter().map(|(k, r)| (FieldElement::from_u64(*k), *r)).collect()
}

fn rows(v: &[(FieldElement, usize)]) -> Vec<usize> {
    v.iter().map(|e| e.1).collect()
}

#[test]
fn merge_of_sorted_runs_is_sorted() {
    let left = run(&[(1, 10), (4, 11), (9, 12)]);
    let right = run(&[(2, 20), (3, 21), (10, 22)]);
    let merged = merge_runs(&left, &right, true);
    assert_eq!(rows(&merged), vec![10, 20, 21, 11, 12, 22]);
}

#[test]
fn ties_go_left_or_right_as_asked() {
    let left = run(&[(3, 0), (7, 1)]);
    let right = run(&[(3, 5), (7, 6)]);
    assert_eq!(rows(&merge_runs(&left, &right, true)), vec![0, 5, 1, 6]);
    assert_eq!(rows(&merge_runs(&left, &right, false)), vec![5, 0, 6, 1]);
}

#[test]
fn merge_with_an_empty_run() {
    let left = run(&[(3, 0), (1, 1)]);
    let empty = run(&[]);
    assert_eq!(rows(&merge_runs(&left, &empty, true)), vec![0, 1]);
    assert_eq!(rows(&merge_runs(&empty, &left, false)), vec![0, 1]);
    assert!(merge_runs(&empty, &empty, true).is_empty());
}

#[test]
fn portal_names() {
    assert_eq!(PortalKey::MergedIndex { pair: 3, position: 12 }.name(), "merged_indices_3_12");
    assert_eq!(PortalKey::MergedIndex { pair: 0, position: 0 }.name(), "merged_indices_0_0");
    assert_eq!(PortalKey::BatchMask { batch: 7 }.name(), "batch_7_cmp_results");
}

#[test]
fn decimal_text_of_integers() {
    assert_eq!(decimal_string(0), "0");
    assert_eq!(decimal_string(7), "7");
    assert_eq!(decimal_string(10), "10");
    assert_eq!(decimal_string(1203), "1203");
    assert_eq!(decimal_string(usize::MAX), usize::MAX.to_string());
    assert_eq!(PortalKey::MergedIndex { pair: 120, position: 9 }.name(), "merged_indices_120_9");
    assert_eq!(PortalKey::BatchMask { batch: 4096 }.name(), "batch_4096_cmp_results");
}

#[test]
fn merge_steps_name_the_side_of_each_comparison() {
    let left = run(&[(1, 10), (4, 11), (9, 12)]);
    let right = run(&[(2, 20), (4, 21), (10, 22)]);
    // 1<2 left, 4>2 right, 4=4 right (strict), 4<10 left, 9<10 left; then left is empty.
    assert_eq!(merge_steps(&left, &right, false), vec![true, false, false, true, true]);
    // With ties to the left, the equal keys go left first.
    assert_eq!(merge_steps(&left, &right, true), vec![true, false, true, false, true]);
    assert_eq!(merge_steps(&left, &run(&[]), false), Vec::<bool>::new());
    // Replaying the steps and appending the rest gives the merge.
    let steps = merge_steps(&left, &right, false);
    let (mut i, mut j) = (0, 0);
    let mut out = Vec::new();
    for s in steps {
        if s { out.push(left[i].1); i += 1; } else { out.push(right[j].1); j += 1; }
    }
    out.extend(left[i..].iter().map(|e| e.1));
    out.extend(right[j..].iter().map(|e| e.1));
    assert_eq!(out, rows(&merge_runs(&left, &right, false)));
}
