use distributed_prover::coordinator::{
    gen_test_circuit_params, key_file_writes, key_for_subcircuit, key_generation_targets, stage_subcircuit_count, KeySlot,
};
use distributed_prover::test_circuit::ZkDbSqlCircuitParams;

#[test]
fn circuit_params_sort_by_the_first_column() {
    assert_eq!(gen_test_circuit_params(8), ZkDbSqlCircuitParams { num_rows: 8, sort_column_idx: 0 });
}

#[test]
fn stages_address_one_subcircuit_per_64_rows() {
    assert_eq!(stage_subcircuit_count(&gen_test_circuit_params(2)), 1);
    assert_eq!(stage_subcircuit_count(&gen_test_circuit_params(64)), 1);
    assert_eq!(stage_subcircuit_count(&gen_test_circuit_params(65)), 2);
}

#[test]
fn fetcher_keys() {
    assert_eq!(key_for_subcircuit(0, 5), KeySlot::First);
    assert_eq!(key_for_subcircuit(4, 5), KeySlot::Last);
    assert_eq!(key_for_subcircuit(2, 5), KeySlot::Middle);
    assert_eq!(key_for_subcircuit(0, 1), KeySlot::First);
}

#[test]
fn key_targets_and_files() {
    assert_eq!(key_generation_targets(4), vec![(KeySlot::First, 0), (KeySlot::Middle, 1), (KeySlot::Last, 3)]);
    assert_eq!(
        key_file_writes(4),
        vec![(KeySlot::First, 0), (KeySlot::Middle, 1), (KeySlot::Middle, 2), (KeySlot::Last, 3)]
    );
    assert_eq!(key_generation_targets(2), vec![(KeySlot::First, 0), (KeySlot::Middle, 1), (KeySlot::Last, 1)]);
    assert_eq!(key_file_writes(2), vec![(KeySlot::First, 0), (KeySlot::Last, 1)]);
}

#[test]
fn one_subcircuit_gets_only_the_first_key() {
    // Two rows make one merge layer.
    assert_eq!(key_generation_targets(1), vec![(KeySlot::First, 0)]);
    assert_eq!(key_file_writes(1), vec![(KeySlot::First, 0)]);
}

#[test]
fn key_targets_are_subcircuits() {
    for num in 1..20usize {
        assert!(key_generation_targets(num).iter().all(|t| t.1 < num), "{num} sub-circuits");
    }
}

#[test]
fn every_subcircuit_file_matches_the_fetcher() {
    for num in 1..10usize {
        let writes = key_file_writes(num);
        for i in 0..num {
            let last = writes.iter().rev().find(|w| w.1 == i).map(|w| w.0);
            assert_eq!(last, Some(key_for_subcircuit(i, num)));
        }
    }
}
