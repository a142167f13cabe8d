//! Decisions of the coordinator that drives the distributed proof of the
//! sort circuit: the circuit parameters, how many sub-circuits the stages
//! address, and which Groth16 proving key serves which sub-circuit.

use vstd::prelude::*;
use crate::test_circuit::ZkDbSqlCircuitParams;

verus! {

/// The parameters of the test circuit for `num_rows` rows, sorted by the
/// first column. There must be more than one row.
pub fn gen_test_circuit_params(num_rows: usize) -> (r: ZkDbSqlCircuitParams)
    requires
        num_rows > 1,
    ensures
        r == (ZkDbSqlCircuitParams { num_rows, sort_column_idx: 0 }),
{
    ZkDbSqlCircuitParams { num_rows, sort_column_idx: 0 }
}

/// The number of sub-circuits that the proving stages address: one per
/// batch of 64 rows, `(num_rows + 63) / 64`.
pub fn stage_subcircuit_count(params: &ZkDbSqlCircuitParams) -> (r: usize)
    requires
        params.num_rows + 63 <= usize::MAX,
    ensures
        r == (params.num_rows + 63) / 64,
{
    (params.num_rows + 63) / 64
}

/// The three Groth16 proving keys that are generated: one for the first
/// sub-circuit, one shared by the middle ones, one for the last.
#[derive(Clone, Copy, Debug, PartialEq, Eq, Structural)]
pub enum KeySlot {
    First,
    Middle,
    Last,
}

/// The key that serves sub-circuit `i` of `num` when the aggregation key is
/// built: the first key for sub-circuit 0, the last key for the last
/// sub-circuit, the middle key otherwise.
pub open spec fn key_slot(i: nat, num: nat) -> KeySlot {
    if i == 0 {
        KeySlot::First
    } else if i == num - 1 {
        KeySlot::Last
    } else {
        KeySlot::Middle
    }
}

/// The key that serves sub-circuit `subcircuit_idx` (see `key_slot`).
pub fn key_for_subcircuit(subcircuit_idx: usize, num_subcircuits: usize) -> (r: KeySlot)
    requires
        subcircuit_idx == 0 || num_subcircuits >= 1,
    ensures
        r == key_slot(subcircuit_idx as nat, num_subcircuits as nat),
        subcircuit_idx == 0 ==> r == KeySlot::First,
        0 < subcircuit_idx && subcircuit_idx == num_subcircuits - 1 ==> r == KeySlot::Last,
        0 < subcircuit_idx < num_subcircuits - 1 ==> r == KeySlot::Middle,
{
    if subcircuit_idx == 0 {
        KeySlot::First
    } else if subcircuit_idx == num_subcircuits - 1 {
        KeySlot::Last
    } else {
        KeySlot::Middle
    }
}

/// The keys generated, in order, as `(key, sub-circuit it is generated
/// for)`: with one sub-circuit only the first key, for sub-circuit 0; with
/// more, the first key for sub-circuit 0, the middle key for sub-circuit 1
/// and the last key for the last sub-circuit.
pub open spec fn key_generation_plan(num_subcircuits: nat) -> Seq<(KeySlot, usize)> {
    if num_subcircuits == 1 {
        seq![(KeySlot::First, 0usize)]
    } else {
        seq![(KeySlot::First, 0usize), (KeySlot::Middle, 1usize), (KeySlot::Last, (num_subcircuits - 1) as usize)]
    }
}

/// The sub-circuits whose keys are generated (see `key_generation_plan`);
/// each is a sub-circuit of the circuit.
pub fn key_generation_targets(num_subcircuits: usize) -> (r: Vec<(KeySlot, usize)>)
    requires
        num_subcircuits >= 1,
    ensures
        r@ == key_generation_plan(num_subcircuits as nat),
        num_subcircuits == 1 ==> r@ == seq![(KeySlot::First, 0usize)],
        num_subcircuits >= 2 ==> r@.len() == 3 && r@[1] == (KeySlot::Middle, 1usize),
        forall|k: int| 0 <= k < r@.len() ==> (#[trigger] r@[k]).1 < num_subcircuits,
{
    if num_subcircuits == 1 {
        vec![(KeySlot::First, 0)]
    } else {
        vec![(KeySlot::First, 0), (KeySlot::Middle, 1), (KeySlot::Last, num_subcircuits - 1)]
    }
}

/// Each key is generated from the lowest-numbered sub-circuit that it
/// serves: the first key from sub-circuit 0, the middle key from
/// sub-circuit 1 (the first of the middle ones when there are any, and the
/// last sub-circuit when there are two), the last key from the last
/// sub-circuit; and every key that serves some sub-circuit is generated.
pub proof fn lemma_key_targets_lowest_served(num_subcircuits: nat)
    requires
        1 <= num_subcircuits <= usize::MAX,
    ensures
        key_generation_plan(num_subcircuits)[0] == (KeySlot::First, 0usize),
        num_subcircuits >= 2 ==> key_generation_plan(num_subcircuits).len() == 3
            && key_generation_plan(num_subcircuits)[1] == (KeySlot::Middle, 1usize)
            && key_generation_plan(num_subcircuits)[2] == (KeySlot::Last, (num_subcircuits - 1) as usize),
        num_subcircuits == 1 ==> key_generation_plan(num_subcircuits).len() == 1,
        forall|k: int| 0 <= k < key_generation_plan(num_subcircuits).len()
            && (num_subcircuits >= 3 || key_generation_plan(num_subcircuits)[k].0 != KeySlot::Middle) ==> {
                let t = #[trigger] key_generation_plan(num_subcircuits)[k];
                &&& t.1 < num_subcircuits
                &&& key_slot(t.1 as nat, num_subcircuits) == t.0
                &&& forall|j: nat| j < t.1 ==> key_slot(j, num_subcircuits) != t.0
            },
        forall|j: nat| #![trigger key_slot(j, num_subcircuits)] j < num_subcircuits ==> exists|k: int| 0 <= k < key_generation_plan(num_subcircuits).len()
            && (#[trigger] key_generation_plan(num_subcircuits)[k]).0 == key_slot(j, num_subcircuits),
{
    let n = num_subcircuits;
    let plan = key_generation_plan(n);
    assert forall|j: nat| #![trigger key_slot(j, n)] j < n implies exists|k: int| 0 <= k < plan.len()
        && (#[trigger] plan[k]).0 == key_slot(j, n) by {
        if j == 0 {
            assert(plan[0].0 == key_slot(j, n));
        } else if j == n - 1 {
            assert(plan[2].0 == key_slot(j, n));
        } else {
            assert(plan[1].0 == key_slot(j, n));
        }
    }
}

/// The key files written, in order, as `(key, sub-circuit index)`: with one
/// sub-circuit only the first key, for sub-circuit 0; with more, the first
/// key for sub-circuit 0, the middle key for each of
/// `1 .. num_subcircuits - 1`, the last key for `num_subcircuits - 1`.
pub open spec fn key_file_writes_spec(num_subcircuits: nat) -> Seq<(KeySlot, usize)> {
    if num_subcircuits == 1 {
        seq![(KeySlot::First, 0usize)]
    } else {
        seq![(KeySlot::First, 0usize)]
            + Seq::new(
                (if num_subcircuits >= 2 { num_subcircuits - 2 } else { 0 }) as nat,
                |i: int| (KeySlot::Middle, (i + 1) as usize),
            )
            + seq![(KeySlot::Last, (num_subcircuits - 1) as usize)]
    }
}

/// The key files written, in order (see `key_file_writes_spec`).
pub fn key_file_writes(num_subcircuits: usize) -> (r: Vec<(KeySlot, usize)>)
    requires
        num_subcircuits >= 1,
    ensures
        r@ == key_file_writes_spec(num_subcircuits as nat),
{
    let mut writes: Vec<(KeySlot, usize)> = Vec::new();
    writes.push((KeySlot::First, 0));
    if num_subcircuits == 1 {
        assert(writes@ =~= key_file_writes_spec(1));
        return writes;
    }
    let mut i: usize = 1;
    while i < num_subcircuits - 1
        invariant
            1 <= i,
            i <= num_subcircuits - 1,
            num_subcircuits >= 2,
            writes@ == seq![(KeySlot::First, 0usize)]
                + Seq::new((i - 1) as nat, |k: int| (KeySlot::Middle, (k + 1) as usize)),
        decreases num_subcircuits - i,
    {
        writes.push((KeySlot::Middle, i));
        assert(writes@ =~= seq![(KeySlot::First, 0usize)]
            + Seq::new(i as nat, |k: int| (KeySlot::Middle, (k + 1) as usize)));
        i = i + 1;
    }
    writes.push((KeySlot::Last, num_subcircuits - 1));
    assert(writes@ =~= key_file_writes_spec(num_subcircuits as nat));
    writes
}

/// The key file of sub-circuit `i` is the one written last for it.
pub open spec fn last_written_key(writes: Seq<(KeySlot, usize)>, i: usize) -> Option<KeySlot>
    decreases writes.len(),
{
    if writes.len() == 0 {
        None
    } else if writes.last().1 == i {
        Some(writes.last().0)
    } else {
        last_written_key(writes.drop_last(), i)
    }
}

proof fn lemma_last_written_prefix(m: nat, i: usize)
    requires
        m < usize::MAX,
    ensures
        last_written_key(
            seq![(KeySlot::First, 0usize)] + Seq::new(m, |k: int| (KeySlot::Middle, (k + 1) as usize)),
            i,
        ) == (if i == 0 {
            Some(KeySlot::First)
        } else if i <= m {
            Some(KeySlot::Middle)
        } else {
            None::<KeySlot>
        }),
    decreases m,
{
    let s = seq![(KeySlot::First, 0usize)] + Seq::new(m, |k: int| (KeySlot::Middle, (k + 1) as usize));
    if m == 0 {
        assert(s.drop_last() =~= Seq::<(KeySlot, usize)>::empty());
        assert(s.last() == (KeySlot::First, 0usize));
        assert(last_written_key(Seq::<(KeySlot, usize)>::empty(), i) == None::<KeySlot>);
    } else {
        lemma_last_written_prefix((m - 1) as nat, i);
        assert(s.drop_last() =~= seq![(KeySlot::First, 0usize)]
            + Seq::new((m - 1) as nat, |k: int| (KeySlot::Middle, (k + 1) as usize)));
        assert(s.last() == (KeySlot::Middle, m as usize));
    }
}

/// The key file that each sub-circuit ends up with is the key that the
/// aggregation key is built with for it.
pub proof fn lemma_key_files_match_fetcher(num_subcircuits: nat, i: usize)
    requires
        num_subcircuits >= 1,
        i < num_subcircuits,
        num_subcircuits <= usize::MAX,
    ensures
        last_written_key(key_file_writes_spec(num_subcircuits), i) == Some(key_slot(i as nat, num_subcircuits)),
        i == 0 ==> last_written_key(key_file_writes_spec(num_subcircuits), i) == Some(KeySlot::First),
        0 < i && i == num_subcircuits - 1 ==> last_written_key(key_file_writes_spec(num_subcircuits), i)
            == Some(KeySlot::Last),
        0 < i < num_subcircuits - 1 ==> last_written_key(key_file_writes_spec(num_subcircuits), i)
            == Some(KeySlot::Middle),
{
    let w = key_file_writes_spec(num_subcircuits);
    if num_subcircuits == 1 {
        assert(w.drop_last() =~= Seq::<(KeySlot, usize)>::empty());
        assert(last_written_key(w.drop_last(), i) == None::<KeySlot>);
    } else {
        let m = (num_subcircuits - 2) as nat;
        let prefix = seq![(KeySlot::First, 0usize)] + Seq::new(m, |k: int| (KeySlot::Middle, (k + 1) as usize));
        assert(w.drop_last() =~= prefix);
        assert(w.last() == (KeySlot::Last, (num_subcircuits - 1) as usize));
        lemma_last_written_prefix(m, i);
    }
}

} // verus!
