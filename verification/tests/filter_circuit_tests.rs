use distributed_prover::field::FieldElement;
use distributed_prover::muti_tuple_filter_circuit::{ZkDbSqlCircuit, ZkDbSqlCircuitParams};
use distributed_prover::portal::PortalKey;

fn params(num_rows: usize) -> ZkDbSqlCircuitParams {
    ZkDbSqlCircuitParams { num_rows }
}

fn table(c: &ZkDbSqlCircuit) -> Vec<Vec<[u64; 4]>> {
    c.lineitem_table.iter().map(|r| r.iter().map(|f| f.to_limbs()).collect()).collect()
}

#[test]
fn batches_of_64_rows() {
    for (n, k) in [(0usize, 0usize), (1, 1), (64, 1), (65, 2), (128, 2), (129, 3)].iter() {
        assert_eq!(ZkDbSqlCircuit::new(&params(*n)).num_subcircuits(), *k);
    }
}

#[test]
fn filter_unique_and_representative_subcircuits() {
    let c = ZkDbSqlCircuit::new(&params(10));
    assert_eq!(c.get_unique_subcircuits(), vec![0]);
    assert_eq!(c.representative_subcircuit(0), 0);
    assert_eq!(c.representative_subcircuit(9), 3);
    assert_eq!(c.representative_subcircuit(1), 1);
    assert_eq!(c.representative_subcircuit(5), 1);
    assert_eq!(c.get_params(), params(10));
}

#[test]
fn unique_subcircuits_are_the_distinct_representatives() {
    assert_eq!(ZkDbSqlCircuit::new(&params(0)).get_unique_subcircuits(), Vec::<usize>::new());
    assert_eq!(ZkDbSqlCircuit::new(&params(64)).get_unique_subcircuits(), vec![0]);
    assert_eq!(ZkDbSqlCircuit::new(&params(65)).get_unique_subcircuits(), vec![0, 1]);
    for n in [1usize, 2, 63, 64, 65, 128, 129, 300, 1000].iter() {
        let c = ZkDbSqlCircuit::new(&params(*n));
        let mut reps: Vec<usize> = (0..c.num_subcircuits()).map(|i| c.representative_subcircuit(i)).collect();
        reps.sort();
        reps.dedup();
        assert_eq!(c.get_unique_subcircuits(), reps, "rows {n}");
    }
}

#[test]
fn filter_new_fills_placeholder_data() {
    let c = ZkDbSqlCircuit::new(&params(2));
    assert_eq!(table(&c), vec![vec![[13, 0, 0, 0]; 7]; 2]);
    assert_eq!(c.right_shipdate.to_limbs(), [12, 0, 0, 0]);
}

#[test]
fn filter_rand_has_the_shape_of_the_parameters() {
    let mut rng = rand::thread_rng();
    let c = ZkDbSqlCircuit::rand(&mut rng, &params(70));
    assert_eq!(c.get_params(), params(70));
    assert_eq!(c.lineitem_table.len(), 70);
    assert!(c.lineitem_table.iter().all(|r| r.len() == 7));
    assert!(c.check_rows(0, 70));
    let w = c.get_serialized_witnesses(1);
    assert_eq!(w.len(), 7 * 32);
}

#[test]
fn row_checks_cover_only_the_batch() {
    let mut c = ZkDbSqlCircuit::new(&params(70));
    c.lineitem_table[65].truncate(3);
    assert!(c.check_batch_rows(0));
    assert!(!c.check_batch_rows(1));
    assert!(!c.check_rows(0, 70));
    assert!(c.check_rows(0, 65));
    assert!(!c.check_rows(60, 80));
    // The first batch does not read row 65.
    assert_eq!(c.get_serialized_witnesses(0).len(), 65 * 32);
    assert_eq!(c.batch_comparison_mask(0), 0);
}

#[test]
fn witness_moves_from_one_circuit_to_another() {
    let mut a = ZkDbSqlCircuit::new(&params(70));
    for i in 0..70 {
        a.lineitem_table[i][6] = FieldElement::from_u64(1000 + i as u64);
    }
    a.right_shipdate = FieldElement::from_u64(1033);
    let mut b = ZkDbSqlCircuit::new(&params(70));
    for b_idx in 0..2 {
        let w = a.get_serialized_witnesses(b_idx);
        b.set_serialized_witnesses(b_idx, &w);
        assert_eq!(b.get_serialized_witnesses(b_idx), w);
        assert_eq!(b.batch_comparison_mask(b_idx), a.batch_comparison_mask(b_idx));
    }
    assert_eq!(table(&b), table(&a));
    assert_eq!(b.right_shipdate.to_limbs(), [1033, 0, 0, 0]);
}

#[test]
fn filter_params_display_text() {
    assert_eq!(params(70).to_display_string(), "ZkDbSqlCircuitParams { num_rows: 70 }");
}

#[test]
fn witness_is_the_batch_dates_then_the_bound() {
    let mut c = ZkDbSqlCircuit::new(&params(70));
    c.lineitem_table[64][6] = FieldElement::from_u64(200);
    let w = c.get_serialized_witnesses(1);
    assert_eq!(w.len(), 7 * 32);
    assert_eq!(w[0], 200);
    assert_eq!(w[32], 13);
    assert_eq!(w[6 * 32], 12);
    assert_eq!(c.get_serialized_witnesses(0).len(), 65 * 32);
    // A batch past the table holds only the bound.
    assert_eq!(c.get_serialized_witnesses(5).len(), 32);
}

#[test]
fn witness_round_trip_leaves_the_circuit_unchanged() {
    let mut c = ZkDbSqlCircuit::new(&params(70));
    for i in 0..70 {
        c.lineitem_table[i][6] = FieldElement::from_u64(i as u64 * 3);
    }
    c.right_shipdate = FieldElement::from_u64(100);
    let before = table(&c);
    for b in 0..2 {
        let w = c.get_serialized_witnesses(b);
        c.set_serialized_witnesses(b, &w);
        assert_eq!(table(&c), before);
        assert_eq!(c.right_shipdate.to_limbs(), [100, 0, 0, 0]);
    }
}

#[test]
fn set_witnesses_replaces_dates_and_bound() {
    let mut c = ZkDbSqlCircuit::new(&params(66));
    let mut bytes = Vec::new();
    FieldElement::from_u64(1).serialize_uncompressed(&mut bytes);
    FieldElement::from_u64(2).serialize_uncompressed(&mut bytes);
    FieldElement::from_u64(3).serialize_uncompressed(&mut bytes);
    c.set_serialized_witnesses(1, &bytes);
    assert_eq!(c.lineitem_table[64][6].to_limbs(), [1, 0, 0, 0]);
    assert_eq!(c.lineitem_table[65][6].to_limbs(), [2, 0, 0, 0]);
    assert_eq!(c.lineitem_table[65][5].to_limbs(), [13, 0, 0, 0]);
    assert_eq!(c.lineitem_table[63][6].to_limbs(), [13, 0, 0, 0]);
    assert_eq!(c.right_shipdate.to_limbs(), [3, 0, 0, 0]);
}

#[test]
fn mask_marks_the_rows_that_pass() {
    let mut c = ZkDbSqlCircuit::new(&params(70));
    for i in [0usize, 3, 63, 64, 69].iter() {
        c.lineitem_table[*i][6] = FieldElement::from_u64(12);
    }
    c.lineitem_table[5][6] = FieldElement::from_u64(11);
    assert_eq!(c.batch_comparison_mask(0), (1u64 << 0) | (1 << 3) | (1 << 5) | (1 << 63));
    assert_eq!(c.batch_comparison_mask(1), 1 | (1 << 5));
    let writes = c.constraint_portal_writes(1);
    assert_eq!(writes.len(), 1);
    assert_eq!(writes[0].key, PortalKey::BatchMask { batch: 1 });
    assert_eq!(writes[0].value.to_limbs(), [0b100001, 0, 0, 0]);
}

#[test]
fn subtraces_hold_one_mask_per_batch() {
    let mut c = ZkDbSqlCircuit::new(&params(130));
    c.lineitem_table[129][6] = FieldElement::from_u64(0);
    let traces = c.get_portal_subtraces();
    assert_eq!(traces.len(), 3);
    assert_eq!(traces[0].len(), 1);
    assert_eq!(traces[0][0].value.to_limbs(), [0, 0, 0, 0]);
    assert_eq!(traces[2][0].key, PortalKey::BatchMask { batch: 2 });
    assert_eq!(traces[2][0].value.to_limbs(), [2, 0, 0, 0]);
}

#[test]
fn all_rows_pass_when_the_bound_is_large() {
    let mut c = ZkDbSqlCircuit::new(&params(64));
    c.right_shipdate = FieldElement::from_u64(13);
    assert_eq!(c.batch_comparison_mask(0), u64::MAX);
}
