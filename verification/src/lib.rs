//! Witness logic of two SQL sub-circuits for a distributed Groth16 prover:
//! a merge-sort circuit that splits a sort into layers of pairwise merges,
//! and a filter circuit that compares a date column against a bound in
//! batches of 64 rows.
//!
//! Field elements of the BLS12-381 scalar field are held as their canonical
//! integer value (`field::FieldElement`); all arithmetic on them, their
//! ordering and their byte encoding come from `ark-ff` / `ark-serialize`.

pub mod coordinator;
pub mod field;
pub mod merge;
pub mod merge_sort;
pub mod muti_tuple_filter_circuit;
pub mod portal;
pub mod test_circuit;
