use distributed_prover::field::FieldElement;
use distributed_prover::portal::{PortalEntry, PortalKey};
use distributed_prover::test_circuit::{ZkDbSqlCircuit, ZkDbSqlCircuitParams};

fn params(num_rows: usize) -> ZkDbSqlCircuitParams {
    ZkDbSqlCircuitParams { num_rows, sort_column_idx: 0 }
}

/// A circuit whose rows have the given keys in column 0, in table order.
fn circuit_with_keys(keys: &[u64]) -> ZkDbSqlCircuit {
    let mut c = ZkDbSqlCircuit::new(&params(keys.len()));
    for (i, k) in keys.iter().enumerate() {
        c.table_data[i][0] = FieldElement::from_u64(*k);
    }
    c
}

fn values(writes: &[PortalEntry]) -> Vec<(PortalKey, [u64; 4])> {
    writes.iter().map(|e| (e.key, e.value.to_limbs())).collect()
}

fn merged(pair: usize, position: usize, row: u64) -> (PortalKey, [u64; 4]) {
    (PortalKey::MergedIndex { pair, position }, [row, 0, 0, 0])
}

#[test]
fn num_subcircuits_is_ceil_log2() {
    let expected = [(0usize, 0usize), (1, 0), (2, 1), (3, 2), (4, 2), (5, 3), (8, 3), (9, 4), (1000, 10), (1024, 10), (1025, 11)];
    for (n, k) in expected.iter() {
        let c = ZkDbSqlCircuit::new(&params(*n));
        assert_eq!(c.num_subcircuits(), *k, "rows {n}");
    }
}

#[test]
fn unique_and_representative_subcircuits() {
    let c = ZkDbSqlCircuit::new(&params(5));
    assert_eq!(c.get_unique_subcircuits(), vec![0, 1, 2]);
    assert_eq!(c.representative_subcircuit(2), 2);
    assert_eq!(c.representative_subcircuit(0), 0);
    assert_eq!(c.get_params(), params(5));
}

#[test]
fn rand_has_the_shape_of_the_parameters() {
    let mut rng = rand::thread_rng();
    let c = ZkDbSqlCircuit::rand(&mut rng, &params(9));
    assert_eq!(c.get_params(), params(9));
    assert_eq!(c.table_data.len(), 9);
    assert!(c.table_data.iter().all(|r| r.len() == 7));
    assert_eq!(c.sorted_indices, (0..9).collect::<Vec<usize>>());
    assert!(c.check_positions(9));
    assert_eq!(c.get_serialized_witnesses(0).len(), 9 * 64);
}

#[test]
fn new_fills_placeholder_data() {
    let c = ZkDbSqlCircuit::new(&params(3));
    assert_eq!(c.table_data.len(), 3);
    for row in c.table_data.iter() {
        assert_eq!(row.len(), 7);
        for f in row.iter() {
            assert_eq!(f.to_limbs(), [12, 0, 0, 0]);
        }
    }
    assert_eq!(c.sorted_indices, vec![0, 1, 2]);
}

#[test]
fn params_display_text() {
    let p = ZkDbSqlCircuitParams { num_rows: 10, sort_column_idx: 3 };
    assert_eq!(p.to_display_string(), "ZkDbSqlCircuitParams { num_rows: 10, sort_column_idx: 3 }");
}

#[test]
fn layer_layout_of_five_rows() {
    let c = ZkDbSqlCircuit::new(&params(5));
    assert_eq!(c.layer_layout(0), (4, 1));
    assert_eq!(c.layer_layout(1), (2, 1));
    assert_eq!(c.layer_layout(2), (1, 2));
}

#[test]
fn witness_holds_key_and_row_of_each_paired_position() {
    let c = circuit_with_keys(&[7, 8, 9, 10, 11]);
    // Layer 1: segments of 2, one pair over positions 0..4; position 4 has no partner.
    let w = c.get_serialized_witnesses(1);
    assert_eq!(w.len(), 4 * 64);
    for pos in 0..4 {
        let chunk = &w[pos * 64..pos * 64 + 64];
        assert_eq!(chunk[0], 7 + pos as u8);
        assert!(chunk[1..32].iter().all(|b| *b == 0));
        assert_eq!(chunk[32], pos as u8);
        assert!(chunk[33..].iter().all(|b| *b == 0));
    }
    // Layer 0: one pair of segments 0..4 and 4..5.
    assert_eq!(c.get_serialized_witnesses(0).len(), 5 * 64);
    // Layer 2: two pairs of single positions, position 4 alone.
    assert_eq!(c.get_serialized_witnesses(2).len(), 4 * 64);
}

#[test]
fn set_witnesses_reads_merged_indices_after_each_pair() {
    let mut c = ZkDbSqlCircuit::new(&params(5));
    // Layer 2: pairs {0, 1} and {2, 3}; each pair: 2 * 64 bytes skipped, then 2 usizes.
    let mut bytes = vec![0u8; 288];
    bytes[128..136].copy_from_slice(&9u64.to_le_bytes());
    bytes[136..144].copy_from_slice(&8u64.to_le_bytes());
    bytes[272..280].copy_from_slice(&7u64.to_le_bytes());
    bytes[280..288].copy_from_slice(&6u64.to_le_bytes());
    c.set_serialized_witnesses(2, &bytes);
    assert_eq!(c.sorted_indices, vec![9, 8, 7, 6, 4]);
    assert_eq!(c.params, params(5));
}

#[test]
fn trace_merges_each_pair_with_ties_to_the_left() {
    let c = circuit_with_keys(&[5, 1, 3, 3]);
    let traces = c.get_portal_subtraces();
    assert_eq!(traces.len(), 2);
    // Layer 0: one pair, segments [5, 1] and [3, 3].
    assert_eq!(values(&traces[0]), vec![merged(0, 0, 2), merged(0, 1, 3), merged(0, 2, 0), merged(0, 3, 1)]);
    // Layer 1: pairs (5 | 1) and (3 | 3).
    assert_eq!(values(&traces[1]), vec![merged(0, 0, 1), merged(0, 1, 0), merged(1, 0, 2), merged(1, 1, 3)]);
}

#[test]
fn constraints_merge_with_ties_to_the_right() {
    let c = circuit_with_keys(&[5, 1, 3, 3]);
    assert_eq!(
        values(&c.constraint_portal_writes(1)),
        vec![merged(0, 0, 1), merged(0, 1, 0), merged(1, 0, 3), merged(1, 1, 2)]
    );
    assert_eq!(
        values(&c.constraint_portal_writes(0)),
        vec![merged(0, 0, 2), merged(0, 1, 3), merged(0, 2, 0), merged(0, 3, 1)]
    );
}

#[test]
fn distinct_keys_give_the_same_writes_both_ways() {
    let c = circuit_with_keys(&[4, 2, 7, 1, 9, 3]);
    let traces = c.get_portal_subtraces();
    for idx in 0..c.num_subcircuits() {
        assert_eq!(values(&traces[idx]), values(&c.constraint_portal_writes(idx)));
    }
    // Layer 2 (segments of one) sorts each pair.
    assert_eq!(
        values(&traces[2]),
        vec![merged(0, 0, 1), merged(0, 1, 0), merged(1, 0, 3), merged(1, 1, 2), merged(2, 0, 5), merged(2, 1, 4)]
    );
}

#[test]
fn pair_segments_follow_sorted_indices() {
    let mut c = circuit_with_keys(&[10, 20, 30]);
    c.sorted_indices = vec![2, 0, 1];
    // Three rows: two layers; layer 0 pairs segment 0..2 with 2..3.
    let (left, right) = c.pair_segments(0, 0);
    assert_eq!(left.iter().map(|e| (e.0.to_limbs()[0], e.1)).collect::<Vec<_>>(), vec![(30, 2), (10, 0)]);
    assert_eq!(right.iter().map(|e| (e.0.to_limbs()[0], e.1)).collect::<Vec<_>>(), vec![(20, 1)]);
}

#[test]
fn witness_with_merge_results_installs_the_merged_order() {
    let mut c = circuit_with_keys(&[5, 1, 3, 3]);
    let w = c.get_serialized_witnesses(1);
    assert_eq!(w.len(), 256);
    let mut bytes = Vec::new();
    bytes.extend_from_slice(&w[..128]);
    bytes.extend_from_slice(&1u64.to_le_bytes());
    bytes.extend_from_slice(&0u64.to_le_bytes());
    bytes.extend_from_slice(&w[128..]);
    bytes.extend_from_slice(&2u64.to_le_bytes());
    bytes.extend_from_slice(&3u64.to_le_bytes());
    c.set_serialized_witnesses(1, &bytes);
    assert_eq!(c.sorted_indices, vec![1, 0, 2, 3]);
    // The next layer now merges the two sorted segments [1, 5] and [3, 3].
    let traces = c.get_portal_subtraces();
    assert_eq!(values(&traces[0]), vec![merged(0, 0, 1), merged(0, 1, 2), merged(0, 2, 3), merged(0, 3, 0)]);
}

/// The witness of layer `idx` with the merge results appended after each
/// pair, built from the circuit's witness and its portal trace.
fn witness_with_merges(c: &ZkDbSqlCircuit, idx: usize) -> Vec<u8> {
    let n = c.params.num_rows;
    let (seg, pairs) = c.layer_layout(idx);
    let w = c.get_serialized_witnesses(idx);
    let trace = &c.get_portal_subtraces()[idx];
    let mut bytes = Vec::new();
    let mut trace_pos = 0;
    for p in 0..pairs {
        let start = 2 * p * seg;
        let end = std::cmp::min(start + 2 * seg, n);
        bytes.extend_from_slice(&w[start * 64..end * 64]);
        for _ in start..end {
            let row = trace[trace_pos].value.to_limbs()[0];
            bytes.extend_from_slice(&row.to_le_bytes());
            trace_pos += 1;
        }
    }
    bytes
}

#[test]
fn applying_all_layers_sorts_the_rows() {
    let keys = [9u64, 3, 7, 1, 8, 2, 5, 3];
    let mut c = circuit_with_keys(&keys);
    let layers = c.num_subcircuits();
    assert_eq!(layers, 3);
    for idx in (0..layers).rev() {
        let bytes = witness_with_merges(&c, idx);
        c.set_serialized_witnesses(idx, &bytes);
    }
    let sorted_keys: Vec<u64> = c.sorted_indices.iter().map(|r| keys[*r]).collect();
    assert_eq!(sorted_keys, vec![1, 2, 3, 3, 5, 7, 8, 9]);
    assert_eq!(c.sorted_indices, vec![3, 5, 1, 7, 6, 2, 4, 0]);
}

#[test]
fn applying_all_layers_sorts_an_odd_number_of_rows() {
    let keys = [4u64, 4, 1, 0, 6, 2, 9];
    let mut c = circuit_with_keys(&keys);
    for idx in (0..c.num_subcircuits()).rev() {
        let bytes = witness_with_merges(&c, idx);
        c.set_serialized_witnesses(idx, &bytes);
    }
    let sorted_keys: Vec<u64> = c.sorted_indices.iter().map(|r| keys[*r]).collect();
    assert_eq!(sorted_keys, vec![0, 1, 2, 4, 4, 6, 9]);
    let mut rows = c.sorted_indices.clone();
    rows.sort();
    assert_eq!(rows, vec![0, 1, 2, 3, 4, 5, 6]);
}

#[test]
fn position_checks_cover_only_what_a_layer_reads() {
    let mut c = circuit_with_keys(&[7, 8, 9, 10, 11]);
    // Position 4 has no partner in layer 1 (segments of 2) nor in layer 2.
    c.table_data[4].clear();
    assert_eq!(c.covered_positions(0), 5);
    assert_eq!(c.covered_positions(1), 4);
    assert_eq!(c.covered_positions(2), 4);
    assert!(c.check_positions(4));
    assert!(!c.check_positions(5));
    assert_eq!(c.get_serialized_witnesses(1).len(), 4 * 64);
    assert_eq!(values(&c.constraint_portal_writes(2)).len(), 4);
    c.sorted_indices[4] = 99;
    assert!(!c.check_positions(5));
    assert!(c.check_positions(4));
    c.sorted_indices.truncate(3);
    assert!(!c.check_positions(4));
    assert!(c.check_positions(3));
}

#[test]
fn set_witnesses_fills_a_longer_order() {
    let mut c = ZkDbSqlCircuit::new(&params(4));
    c.sorted_indices = vec![0, 1, 2, 3, 40, 41];
    let mut bytes = vec![0u8; 288];
    bytes[256..264].copy_from_slice(&3u64.to_le_bytes());
    bytes[264..272].copy_from_slice(&2u64.to_le_bytes());
    bytes[272..280].copy_from_slice(&1u64.to_le_bytes());
    bytes[280..288].copy_from_slice(&0u64.to_le_bytes());
    c.set_serialized_witnesses(0, &bytes);
    assert_eq!(c.sorted_indices, vec![3, 2, 1, 0, 40, 41]);
}

#[test]
fn per_pair_permutations_keep_a_permutation() {
    let keys = [6u64, 2, 9, 4, 1];
    let mut c = circuit_with_keys(&keys);
    for idx in (0..c.num_subcircuits()).rev() {
        let (seg, pairs) = c.layer_layout(idx);
        let w = c.get_serialized_witnesses(idx);
        let mut bytes = Vec::new();
        for p in 0..pairs {
            let start = 2 * p * seg;
            let end = std::cmp::min(start + 2 * seg, 5);
            bytes.extend_from_slice(&w[start * 64..end * 64]);
            // Any permutation of the pair's rows: here, reversed.
            for pos in (start..end).rev() {
                bytes.extend_from_slice(&(c.sorted_indices[pos] as u64).to_le_bytes());
            }
        }
        c.set_serialized_witnesses(idx, &bytes);
        let mut rows = c.sorted_indices.clone();
        rows.sort();
        assert_eq!(rows, vec![0, 1, 2, 3, 4]);
    }
}
