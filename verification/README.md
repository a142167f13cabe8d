# distributed_prover

Verified witness logic of two SQL sub-circuits of a distributed Groth16
prover over the BLS12-381 scalar field, written in Verus.

- `src/field.rs`: field elements held by their canonical value; ordering,
  `u64` conversion and the uncompressed byte encoding come from `ark-ff`,
  `ark-bls12-381` and `ark-serialize`.
- `src/merge.rs`: merging two runs of `(key, row)` entries, with the laws
  that the merge is a permutation, sorts sorted runs, and does not depend on
  the tie rule when keys differ.
- `src/test_circuit.rs`: the merge-sort circuit, one layer of pairwise
  merges per sub-circuit: layer geometry, witness encoding and decoding,
  portal values of the constraints and of the portal trace.
- `src/merge_sort.rs`: the layers applied one after another, smallest
  segments first, sort the rows by key and keep every row.
- `src/muti_tuple_filter_circuit.rs`: the `l_shipdate <= date` filter of
  TPC-H query 1 in batches of 64 rows, with its comparison masks.
- `src/coordinator.rs`: circuit parameters, stage sizes, and which proving
  key serves which sub-circuit.
- `src/portal.rs`: portal keys and their names.
- `app/`: the command-line coordinator and the R1CS constraint generation
  with `ark-r1cs-std`.
