//! The merge-sort circuit: the rows of a table are sorted by one column,
//! one layer of pairwise merges per sub-circuit.
//!
//! Sub-circuit `k` of a circuit with `L` layers merges segments of
//! `2^(L - k - 1)` positions of `sorted_indices`: pairs of adjacent segments
//! are merged by the key that `table_data` holds in the sort column. A last
//! segment without a partner is left alone.

use vstd::prelude::*;
use vstd::arithmetic::power2::*;
use vstd::arithmetic::div_mod::{lemma_div_decreases, lemma_fundamental_div_mod, lemma_fundamental_div_mod_converse};
use crate::field::{
    field_bytes, fr_rand, lemma_le_bytes_len, lemma_le_round_trip, lemma_modulus_fits, lemma_value_below_modulus,
    le_bytes, le_value, usize_deserialize_uncompressed_unchecked, FieldElement,
};
use rand::rngs::ThreadRng;
use crate::merge::{
    keys_disjoint, lemma_merge_permutation, lemma_merge_sorted, lemma_merge_ties_irrelevant, merge, merge_runs,
    merged_rows, run_view, sorted_by_key, Entry,
};
use crate::portal::{decimal, decimal_string, portal_view, PortalEntry, PortalKey};
use crate::merge_sort::{apply_layer, order_left, order_merged, order_right, order_run, rows_in_range};

verus! {

/// The parameters of a sort circuit.
#[derive(Clone, Copy, Debug, PartialEq, Eq, Structural)]
pub struct ZkDbSqlCircuitParams {
    pub num_rows: usize,
    /// The column whose values the rows are sorted by.
    pub sort_column_idx: usize,
}

/// The text that `Display` gives the parameters.
pub open spec fn params_text(num_rows: nat, sort_column_idx: nat) -> Seq<char> {
    "ZkDbSqlCircuitParams { num_rows: "@ + decimal(num_rows) + ", sort_column_idx: "@
        + decimal(sort_column_idx) + " }"@
}

impl ZkDbSqlCircuitParams {
    /// The parameters as `Display` writes them.
    pub fn to_display_string(&self) -> (r: String)
        ensures
            r@ == params_text(self.num_rows as nat, self.sort_column_idx as nat),
    {
        let mut text = String::from_str("ZkDbSqlCircuitParams { num_rows: ");
        text.append(decimal_string(self.num_rows).as_str());
        text.append(", sort_column_idx: ");
        text.append(decimal_string(self.sort_column_idx).as_str());
        text.append(" }");
        text
    }
}

/// A sort circuit: a table, the current order of its rows, and the
/// parameters.
#[derive(Clone)]
pub struct ZkDbSqlCircuit {
    pub table_data: Vec<Vec<FieldElement>>,
    /// The rows in their order so far: `sorted_indices[pos]` is a row of
    /// `table_data`.
    pub sorted_indices: Vec<usize>,
    pub params: ZkDbSqlCircuitParams,
}

/// The number of halvings (rounding up) that bring `n` down to at most one:
/// the number of merge layers for `n` rows.
pub open spec fn layer_count(n: nat) -> nat
    decreases n,
{
    if n <= 1 {
        0
    } else {
        1 + layer_count(((n + 1) / 2) as nat)
    }
}

/// The number of layers is the base-2 logarithm of the number of rows,
/// rounded up: `2^(k - 1) < n <= 2^k` for `k` layers and `n >= 2` rows.
pub proof fn lemma_layer_count_is_ceil_log2(n: nat)
    requires
        n >= 1,
    ensures
        n <= pow2(layer_count(n)),
        n >= 2 ==> layer_count(n) >= 1 && pow2((layer_count(n) - 1) as nat) < n,
    decreases n,
{
    if n < 2 {
        lemma_pow2_pos(layer_count(n));
    } else {
        let m = ((n + 1) / 2) as nat;
        lemma_layer_count_is_ceil_log2(m);
        let k = layer_count(n);
        assert(k == 1 + layer_count(m));
        lemma_pow2_unfold(k);
        if m >= 2 {
            lemma_pow2_unfold((k - 1) as nat);
        } else {
            lemma2_to64();
        }
    }
}

/// Size of the segments that sub-circuit `idx` merges when there are `n`
/// rows: `2^(layers - idx - 1)`.
pub open spec fn segment_size(n: nat, idx: nat) -> nat {
    pow2((layer_count(n) - idx - 1) as nat)
}

/// Number of segments of size `s` that `n` positions fall into.
pub open spec fn num_segments(n: nat, s: nat) -> nat {
    ((n + s - 1) / (s as int)) as nat
}

/// Number of pairs of adjacent segments that are merged.
pub open spec fn num_pairs(n: nat, s: nat) -> nat {
    num_segments(n, s) / 2
}

/// The smaller of two numbers.
pub open spec fn min_nat(a: nat, b: nat) -> nat {
    if a <= b {
        a
    } else {
        b
    }
}

/// First position of pair `p`; its right segment starts `s` later.
pub open spec fn pair_start(s: nat, p: nat) -> nat {
    2 * p * s
}

/// One past the last position of pair `p`.
pub open spec fn pair_end(n: nat, s: nat, p: nat) -> nat {
    min_nat(2 * p * s + 2 * s, n)
}

/// The positions `0 .. covered_rows(n, s)` belong to some pair.
pub open spec fn covered_rows(n: nat, s: nat) -> nat {
    min_nat(2 * num_pairs(n, s) * s, n)
}

/// Rounding-up division without going past `n`.
pub proof fn lemma_ceil_div(n: nat, s: nat)
    requires
        s >= 1,
    ensures
        num_segments(n, s) == n / s + (if n % s == 0 { 0nat } else { 1nat }),
{
    let q = (n / s) as int;
    let r = (n % s) as int;
    lemma_fundamental_div_mod(n as int, s as int);
    assert(n == q * s + r) by (nonlinear_arith)
        requires n == s * q + r;
    if r == 0 {
        lemma_fundamental_div_mod_converse(n + s - 1, s as int, q, s - 1);
    } else {
        assert(n + s - 1 == (q + 1) * s + (r - 1)) by (nonlinear_arith)
            requires n == q * s + r;
        lemma_fundamental_div_mod_converse(n + s - 1, s as int, q + 1, r - 1);
    }
}

/// The right segment of every merged pair starts before the last row, and
/// consecutive pairs are adjacent.
pub proof fn lemma_pair_fits(n: nat, s: nat, p: nat)
    requires
        s >= 1,
        p < num_pairs(n, s),
    ensures
        2 * p * s + s < n,
        p + 1 < num_pairs(n, s) ==> pair_end(n, s, p) == pair_start(s, p + 1),
        p + 1 == num_pairs(n, s) ==> pair_end(n, s, p) == covered_rows(n, s),
{
    let ns = num_segments(n, s);
    lemma_fundamental_div_mod(n + s - 1, s as int);
    assert(ns * s <= n + s - 1) by (nonlinear_arith)
        requires ns == (n + s - 1) / (s as int), n + s - 1 == s * ((n + s - 1) / (s as int)) + (n + s - 1) % (s as int),
            (n + s - 1) % (s as int) >= 0;
    assert(2 * p + 2 <= ns);
    assert((2 * p + 1) * s + s <= ns * s) by (nonlinear_arith)
        requires 2 * p + 2 <= ns, s >= 1;
    assert(2 * p * s + s == (2 * p + 1) * s) by (nonlinear_arith);
    if p + 1 < num_pairs(n, s) {
        assert(2 * (p + 1) + 2 <= ns);
        assert((2 * (p + 1) + 1) * s + s <= ns * s) by (nonlinear_arith)
            requires 2 * (p + 1) + 2 <= ns, s >= 1;
        assert(2 * p * s + 2 * s == 2 * (p + 1) * s) by (nonlinear_arith);
        assert(2 * (p + 1) * s + s == (2 * (p + 1) + 1) * s) by (nonlinear_arith);
    }
    if p + 1 == num_pairs(n, s) {
        assert(2 * p * s + 2 * s == 2 * num_pairs(n, s) * s) by (nonlinear_arith)
            requires p + 1 == num_pairs(n, s);
    }
}

/// Where pair `p` lies: it starts at `p * 2 * s`, as the code computes it,
/// after the positions of the pairs before it; its right segment starts
/// before the last row; and it ends within the covered positions.
pub proof fn lemma_pair_offsets(n: nat, s: nat, p: nat)
    requires
        s >= 1,
        p < num_pairs(n, s),
    ensures
        p * 2 * s == pair_start(s, p),
        p * 2 <= p * 2 * s,
        rows_before(n, s, p) == pair_start(s, p),
        pair_start(s, p) + s < n,
        pair_end(n, s, p) <= covered_rows(n, s),
{
    lemma_pair_fits(n, s, p);
    if p > 0 {
        lemma_pair_fits(n, s, (p - 1) as nat);
    } else {
        assert(pair_start(s, 0) == 0) by (nonlinear_arith);
    }
    assert(p * 2 * s == 2 * p * s) by (nonlinear_arith);
    assert(p * 2 <= p * 2 * s) by (nonlinear_arith)
        requires s >= 1;
    if p + 1 < num_pairs(n, s) {
        assert(2 * (p + 1) * s <= 2 * num_pairs(n, s) * s) by (nonlinear_arith)
            requires p + 1 < num_pairs(n, s);
        assert(2 * p * s + 2 * s == 2 * (p + 1) * s) by (nonlinear_arith);
    }
}

/// The pairs of a layer cover positions `0 .. covered_rows(n, s)` one after
/// the other.
pub proof fn lemma_pairs_cover(n: nat, s: nat)
    requires
        s >= 1,
    ensures
        rows_before(n, s, num_pairs(n, s)) == covered_rows(n, s),
        covered_rows(n, s) <= n,
{
    if num_pairs(n, s) == 0 {
        assert(2 * num_pairs(n, s) * s == 0) by (nonlinear_arith)
            requires num_pairs(n, s) == 0;
    } else {
        lemma_pair_fits(n, s, (num_pairs(n, s) - 1) as nat);
    }
}

/// Segment size and number of pairs of sub-circuit `subcircuit_idx` of a
/// circuit with `num_rows` rows and `total_layers` layers.
fn layer_geometry(num_rows: usize, total_layers: usize, subcircuit_idx: usize) -> (r: (usize, usize))
    requires
        total_layers == layer_count(num_rows as nat),
        subcircuit_idx < total_layers,
    ensures
        r.0 == segment_size(num_rows as nat, subcircuit_idx as nat),
        r.0 >= 1,
        r.0 < num_rows,
        r.1 == num_pairs(num_rows as nat, r.0 as nat),
{
    proof {
        lemma_layer_count_is_ceil_log2(num_rows as nat);
    }
    let current_layer = total_layers - subcircuit_idx - 1;
    let mut segment_size: usize = 1;
    let mut k: usize = 0;
    proof {
        lemma2_to64();
        if current_layer < total_layers - 1 {
            lemma_pow2_strictly_increases(current_layer as nat, (total_layers - 1) as nat);
        }
    }
    while k < current_layer
        invariant
            k <= current_layer,
            segment_size == pow2(k as nat),
            pow2(current_layer as nat) < num_rows,
        decreases current_layer - k,
    {
        proof {
            lemma_pow2_unfold((k + 1) as nat);
            if k + 1 < current_layer {
                lemma_pow2_strictly_increases((k + 1) as nat, current_layer as nat);
            }
        }
        segment_size = segment_size * 2;
        k = k + 1;
    }
    proof {
        lemma_pow2_pos(k as nat);
        lemma_ceil_div(num_rows as nat, segment_size as nat);
        if num_rows % segment_size != 0 {
            assert(segment_size >= 2);
            lemma_div_decreases(num_rows as int, segment_size as int);
        }
    }
    let num_segments = num_rows / segment_size + if num_rows % segment_size == 0 { 0 } else { 1 };
    (segment_size, num_segments / 2)
}

/// The sub-circuits whose keys are generated separately: every layer.
pub open spec fn unique_subcircuits(n: nat) -> Seq<usize> {
    Seq::new(layer_count(n), |i: int| i as usize)
}

/// Every sub-circuit is represented by one of the unique sub-circuits:
/// itself.
pub proof fn lemma_representative_is_unique(n: nat, idx: usize)
    requires
        idx < layer_count(n),
    ensures
        unique_subcircuits(n).contains(idx),
{
    assert(unique_subcircuits(n)[idx as int] == idx);
}

impl ZkDbSqlCircuit {
    /// The number of sub-circuits: one per merge layer, `ceil(log2(num_rows))`.
    pub fn num_subcircuits(&self) -> (r: usize)
        ensures
            r == layer_count(self.params.num_rows as nat),
    {
        let mut size: usize = self.params.num_rows;
        let mut count: usize = 0;
        while size > 1
            invariant
                count + layer_count(size as nat) == layer_count(self.params.num_rows as nat),
                count <= self.params.num_rows - size,
            decreases size,
        {
            size = size / 2 + size % 2;
            count = count + 1;
        }
        count
    }

    /// Every layer is a sub-circuit of its own: `0, 1, .., num_subcircuits - 1`.
    pub fn get_unique_subcircuits(&self) -> (r: Vec<usize>)
        ensures
            r@ == unique_subcircuits(self.params.num_rows as nat),
    {
        let n = self.num_subcircuits();
        let mut v: Vec<usize> = Vec::new();
        let mut i: usize = 0;
        while i < n
            invariant
                i <= n,
                v@ == Seq::new(i as nat, |k: int| k as usize),
            decreases n - i,
        {
            v.push(i);
            i = i + 1;
        }
        v
    }

    /// Each sub-circuit stands for itself.
    pub fn representative_subcircuit(&self, subcircuit_idx: usize) -> (r: usize)
        ensures
            r == subcircuit_idx,
    {
        subcircuit_idx
    }

    /// The parameters.
    pub fn get_params(&self) -> (r: ZkDbSqlCircuitParams)
        ensures
            r == self.params,
    {
        self.params
    }

    /// The circuit of the given size with placeholder data: every row holds
    /// seven copies of `12`, and the rows are in their table order.
    pub fn new(params: &ZkDbSqlCircuitParams) -> (r: Self)
        ensures
            r.params == *params,
            r.table_data@.len() == params.num_rows,
            forall|i: int| 0 <= i < params.num_rows ==> #[trigger] r.table_data@[i]@.len() == 7,
            forall|i: int, j: int| 0 <= i < params.num_rows && 0 <= j < 7
                ==> #[trigger] r.table_data@[i]@[j]@ == 12,
            r.sorted_indices@ == Seq::new(params.num_rows as nat, |i: int| i as usize),
            r.order_names_rows(),
            params.sort_column_idx < 7 ==> r.positions_readable(params.num_rows as nat),
    {
        let twelve = FieldElement::from_u64(12);
        let mut table_data: Vec<Vec<FieldElement>> = Vec::new();
        let mut sorted_indices: Vec<usize> = Vec::new();
        let mut i: usize = 0;
        while i < params.num_rows
            invariant
                i <= params.num_rows,
                twelve@ == 12,
                table_data@.len() == i,
                forall|k: int| 0 <= k < i ==> #[trigger] table_data@[k]@.len() == 7,
                forall|k: int, j: int| 0 <= k < i && 0 <= j < 7 ==> #[trigger] table_data@[k]@[j]@ == 12,
                sorted_indices@ == Seq::new(i as nat, |k: int| k as usize),
            decreases params.num_rows - i,
        {
            let mut row: Vec<FieldElement> = Vec::new();
            let mut j: usize = 0;
            while j < 7
                invariant
                    j <= 7,
                    twelve@ == 12,
                    row@.len() == j,
                    forall|k: int| 0 <= k < j ==> #[trigger] row@[k]@ == 12,
                decreases 7 - j,
            {
                row.push(twelve);
                j = j + 1;
            }
            table_data.push(row);
            sorted_indices.push(i);
            i = i + 1;
        }
        let r = ZkDbSqlCircuit { table_data, sorted_indices, params: *params };
        assert(r.params.sort_column_idx < 7 ==> r.positions_readable(params.num_rows as nat)) by {
            if r.params.sort_column_idx < 7 {
                assert forall|pos: int| 0 <= pos < params.num_rows implies #[trigger] r.position_readable(pos) by {
                    assert(r.sorted_indices@[pos] == pos);
                }
            }
        }
        r
    }

    /// A random circuit for the given parameters, for tests: every entry of
    /// the seven columns of every row is drawn from the field, and the rows
    /// are in their table order.
    pub fn rand(rng: &mut ThreadRng, params: &ZkDbSqlCircuitParams) -> (r: Self)
        ensures
            r.params == *params,
            r.table_data@.len() == params.num_rows,
            forall|i: int| 0 <= i < params.num_rows ==> #[trigger] r.table_data@[i]@.len() == 7,
            r.sorted_indices@ == Seq::new(params.num_rows as nat, |i: int| i as usize),
            r.order_names_rows(),
            params.sort_column_idx < 7 ==> r.positions_readable(params.num_rows as nat),
    {
        let mut table_data: Vec<Vec<FieldElement>> = Vec::new();
        let mut sorted_indices: Vec<usize> = Vec::new();
        let mut i: usize = 0;
        while i < params.num_rows
            invariant
                i <= params.num_rows,
                table_data@.len() == i,
                forall|k: int| 0 <= k < i ==> #[trigger] table_data@[k]@.len() == 7,
                sorted_indices@ == Seq::new(i as nat, |k: int| k as usize),
            decreases params.num_rows - i,
        {
            let mut row: Vec<FieldElement> = Vec::new();
            let mut j: usize = 0;
            while j < 7
                invariant
                    j <= 7,
                    row@.len() == j,
                decreases 7 - j,
            {
                row.push(fr_rand(rng));
                j = j + 1;
            }
            table_data.push(row);
            sorted_indices.push(i);
            i = i + 1;
        }
        let r = ZkDbSqlCircuit { table_data, sorted_indices, params: *params };
        assert(r.params.sort_column_idx < 7 ==> r.positions_readable(params.num_rows as nat)) by {
            if r.params.sort_column_idx < 7 {
                assert forall|pos: int| 0 <= pos < params.num_rows implies #[trigger] r.position_readable(pos) by {
                    assert(r.sorted_indices@[pos] == pos);
                }
            }
        }
        r
    }
}

/// The bytes that stand for one entry in a witness: the key, then the row
/// index as a field element, each in its uncompressed encoding.
pub open spec fn encode_entry(e: (nat, usize)) -> Seq<u8> {
    le_bytes(e.0, field_bytes()) + le_bytes(e.1 as nat, field_bytes())
}

/// The positions of the pairs before pair `p` are `0 .. rows_before(n, s, p)`.
pub open spec fn rows_before(n: nat, s: nat, p: nat) -> nat {
    if p == 0 {
        0
    } else {
        pair_end(n, s, (p - 1) as nat)
    }
}

impl ZkDbSqlCircuit {
    /// Position `pos` of the order names a row of the table, and that row
    /// holds the sort column.
    pub open spec fn position_readable(self, pos: int) -> bool {
        &&& 0 <= pos < self.sorted_indices@.len()
        &&& self.sorted_indices@[pos] < self.table_data@.len()
        &&& self.params.sort_column_idx < self.table_data@[self.sorted_indices@[pos] as int]@.len()
    }

    /// Positions `0 .. m` are readable.
    pub open spec fn positions_readable(self, m: nat) -> bool {
        forall|pos: int| 0 <= pos < m ==> #[trigger] self.position_readable(pos)
    }

    /// The positions that the layer of sub-circuit `idx` reads, those of its
    /// pairs, are readable.
    pub open spec fn layer_readable(self, idx: nat) -> bool {
        let n = self.params.num_rows as nat;
        self.positions_readable(covered_rows(n, segment_size(n, idx)))
    }

    /// The positions that every layer reads are readable.
    pub open spec fn layers_readable(self) -> bool {
        forall|l: nat| l < layer_count(self.params.num_rows as nat) ==> #[trigger] self.layer_readable(l)
    }

    /// Every position of the order names a row of the table, and there is
    /// one position per row.
    pub open spec fn order_names_rows(self) -> bool {
        &&& self.sorted_indices@.len() == self.params.num_rows
        &&& forall|i: int| 0 <= i < self.sorted_indices@.len()
            ==> #[trigger] self.sorted_indices@[i] < self.table_data@.len()
    }

    /// Checks `positions_readable`: whether positions `0 .. m` name rows of
    /// the table that hold the sort column.
    pub fn check_positions(&self, m: usize) -> (r: bool)
        ensures
            r == self.positions_readable(m as nat),
    {
        let mut pos: usize = 0;
        while pos < m
            invariant
                pos <= m,
                forall|k: int| 0 <= k < pos ==> #[trigger] self.position_readable(k),
            decreases m - pos,
        {
            if pos >= self.sorted_indices.len() || self.sorted_indices[pos] >= self.table_data.len()
                || self.table_data[self.sorted_indices[pos]].len() <= self.params.sort_column_idx {
                assert(!self.position_readable(pos as int));
                return false;
            }
            pos = pos + 1;
        }
        true
    }

    /// The number of positions that the layer of sub-circuit
    /// `subcircuit_idx` reads: those of its pairs, `0 .. covered`.
    pub fn covered_positions(&self, subcircuit_idx: usize) -> (r: usize)
        requires
            subcircuit_idx < layer_count(self.params.num_rows as nat),
        ensures
            r == covered_rows(self.params.num_rows as nat, segment_size(self.params.num_rows as nat, subcircuit_idx as nat)),
    {
        let n = self.params.num_rows;
        let total_layers = self.num_subcircuits();
        let (seg_size, pair_count) = layer_geometry(n, total_layers, subcircuit_idx);
        proof {
            lemma_pairs_cover(n as nat, seg_size as nat);
        }
        if pair_count == 0 {
            0
        } else {
            proof {
                lemma_pair_offsets(n as nat, seg_size as nat, (pair_count - 1) as nat);
            }
            let last_start = (pair_count - 1) * 2 * seg_size;
            if seg_size <= n - last_start - seg_size { last_start + 2 * seg_size } else { n }
        }
    }

    /// The entry at position `pos`: the key of its row and the row.
    pub open spec fn entry_at(self, pos: int) -> (nat, usize) {
        let row = self.sorted_indices@[pos];
        (self.table_data@[row as int]@[self.params.sort_column_idx as int]@, row)
    }

    /// The entries at positions `a .. b`.
    pub open spec fn run(self, a: nat, b: nat) -> Seq<(nat, usize)> {
        Seq::new((b - a) as nat, |i: int| self.entry_at(a + i))
    }

    /// The encoded entries at positions `a .. b`.
    pub open spec fn entries_bytes(self, a: nat, b: nat) -> Seq<u8>
        decreases b,
    {
        if b <= a {
            Seq::empty()
        } else {
            self.entries_bytes(a, (b - 1) as nat) + encode_entry(self.entry_at(b - 1))
        }
    }

    /// The witness of sub-circuit `idx`: the encoded entries of every
    /// position that belongs to a pair, in order.
    pub open spec fn witness_bytes(self, idx: nat) -> Seq<u8> {
        let n = self.params.num_rows as nat;
        self.entries_bytes(0, covered_rows(n, segment_size(n, idx)))
    }

    /// The entries at positions `start .. start + len` that are rows of the
    /// circuit.
    fn gather(&self, start: usize, len: usize) -> (r: Vec<Entry>)
        requires
            self.positions_readable((start + len) as nat),
            start + len <= self.params.num_rows,
        ensures
            run_view(r@) == self.run(start as nat, (start + len) as nat),
    {
        let mut out: Vec<Entry> = Vec::new();
        let mut i: usize = 0;
        while i < len
            invariant
                self.positions_readable((start + len) as nat),
                start + len <= self.params.num_rows,
                i <= len,
                run_view(out@) =~= self.run(start as nat, (start + i) as nat),
            decreases len - i,
        {
            if start + i < self.params.num_rows {
                assert(self.position_readable((start + i) as int));
                let ghost before = out@;
                let idx = self.sorted_indices[start + i];
                let key = self.table_data[idx][self.params.sort_column_idx];
                out.push((key, idx));
                assert(run_view(out@) =~= run_view(before).push(self.entry_at(start + i)));
                assert(self.run(start as nat, (start + i + 1) as nat)
                    =~= self.run(start as nat, (start + i) as nat).push(self.entry_at(start + i)));
            }
            i = i + 1;
        }
        out
    }

    /// Appends the encoded entries at positions `start .. start + len`.
    fn serialize_entries(&self, start: usize, len: usize, out: &mut Vec<u8>)
        requires
            self.positions_readable((start + len) as nat),
            start + len <= self.params.num_rows,
            old(out)@ == self.entries_bytes(0, start as nat),
        ensures
            final(out)@ == self.entries_bytes(0, (start + len) as nat),
    {
        let mut i: usize = 0;
        while i < len
            invariant
                self.positions_readable((start + len) as nat),
                start + len <= self.params.num_rows,
                i <= len,
                out@ == self.entries_bytes(0, (start + i) as nat),
            decreases len - i,
        {
            if start + i < self.params.num_rows {
                assert(self.position_readable((start + i) as int));
                let idx = self.sorted_indices[start + i];
                let key = self.table_data[idx][self.params.sort_column_idx];
                key.serialize_uncompressed(out);
                FieldElement::from_u64(idx as u64).serialize_uncompressed(out);
                assert(out@ =~= self.entries_bytes(0, (start + i) as nat) + encode_entry(self.entry_at(start + i)));
            }
            i = i + 1;
        }
    }

    /// The witness that sub-circuit `subcircuit_idx` is given: for each pair
    /// of segments, the key and the row of each position of the left, then
    /// of the right segment.
    pub fn get_serialized_witnesses(&self, subcircuit_idx: usize) -> (r: Vec<u8>)
        requires
            subcircuit_idx < layer_count(self.params.num_rows as nat),
            self.layer_readable(subcircuit_idx as nat),
        ensures
            r@ == self.witness_bytes(subcircuit_idx as nat),
    {
        let n = self.params.num_rows;
        let total_layers = self.num_subcircuits();
        let (segment_size, pair_count) = layer_geometry(n, total_layers, subcircuit_idx);
        let ghost s = segment_size as nat;
        let mut out_buf: Vec<u8> = Vec::new();
        let mut pair_idx: usize = 0;
        while pair_idx < pair_count
            invariant
                self.positions_readable(covered_rows(n as nat, s)),
                n == self.params.num_rows,
                s == segment_size,
                segment_size >= 1,
                pair_count == num_pairs(n as nat, s),
                pair_idx <= pair_count,
                out_buf@ == self.entries_bytes(0, rows_before(n as nat, s, pair_idx as nat)),
            decreases pair_count - pair_idx,
        {
            proof {
                lemma_pair_offsets(n as nat, s, pair_idx as nat);
            }
            let left_start = pair_idx * 2 * segment_size;
            let right_start = left_start + segment_size;
            let right_end = if segment_size <= n - right_start { right_start + segment_size } else { n };
            let left_len = segment_size;
            let right_len = right_end - right_start;
            self.serialize_entries(left_start, left_len, &mut out_buf);
            self.serialize_entries(right_start, right_len, &mut out_buf);
            proof {
                if pair_idx + 1 < pair_count {
                    lemma_pair_offsets(n as nat, s, (pair_idx + 1) as nat);
                }
            }
            pair_idx = pair_idx + 1;
        }
        proof {
            lemma_pairs_cover(n as nat, s);
        }
        out_buf
    }
}

/// The `usize` encoded by the eight bytes at `off`, as read back on this
/// machine.
pub open spec fn read_index(bytes: Seq<u8>, off: int) -> usize {
    (le_value(bytes.subrange(off, off + 8)) % (usize::MAX as nat + 1)) as usize
}

/// The merged row indices that a witness holds for pair `p`: after the
/// `2 * len` encoded entries of the pair, `len` encoded `usize`s.
pub open spec fn pair_read_indices(n: nat, s: nat, bytes: Seq<u8>, p: nat) -> Seq<usize> {
    let start = pair_start(s, p);
    let len = (pair_end(n, s, p) - start) as nat;
    Seq::new(len, |i: int| read_index(bytes, 72 * start + 64 * len + 8 * i))
}

/// The merged row indices that a witness holds for the pairs before `k`.
pub open spec fn read_indices(n: nat, s: nat, bytes: Seq<u8>, k: nat) -> Seq<usize>
    decreases k,
{
    if k == 0 {
        Seq::empty()
    } else {
        read_indices(n, s, bytes, (k - 1) as nat) + pair_read_indices(n, s, bytes, (k - 1) as nat)
    }
}

/// The indices read for the pairs before `k` fill the positions of those pairs.
pub proof fn lemma_read_indices_len(n: nat, s: nat, bytes: Seq<u8>, k: nat)
    requires
        s >= 1,
        k <= num_pairs(n, s),
    ensures
        read_indices(n, s, bytes, k).len() == rows_before(n, s, k),
    decreases k,
{
    if k > 0 {
        lemma_read_indices_len(n, s, bytes, (k - 1) as nat);
        lemma_pair_fits(n, s, (k - 1) as nat);
        lemma_pair_offsets(n, s, (k - 1) as nat);
    }
}

impl ZkDbSqlCircuit {
    /// Reads the merged order of the layer of sub-circuit `subcircuit_idx`
    /// into `sorted_indices`: for each pair, skips its serialized keys and
    /// rows (64 bytes per position) and reads one `usize` per position.
    pub fn set_serialized_witnesses(&mut self, subcircuit_idx: usize, bytes: &[u8])
        requires
            subcircuit_idx < layer_count(old(self).params.num_rows as nat),
            old(self).sorted_indices@.len() >= covered_rows(
                old(self).params.num_rows as nat,
                segment_size(old(self).params.num_rows as nat, subcircuit_idx as nat),
            ),
            bytes@.len() >= 72 * covered_rows(
                old(self).params.num_rows as nat,
                segment_size(old(self).params.num_rows as nat, subcircuit_idx as nat),
            ),
        ensures
            final(self).table_data == old(self).table_data,
            final(self).params == old(self).params,
            ({
                let n = old(self).params.num_rows as nat;
                let s = segment_size(n, subcircuit_idx as nat);
                final(self).sorted_indices@ == read_indices(n, s, bytes@, num_pairs(n, s))
                    + old(self).sorted_indices@.skip(covered_rows(n, s) as int)
            }),
    {
        let ghost old_indices = self.sorted_indices@;
        let ghost old_table = self.table_data;
        let ghost old_params = self.params;
        let bytes_len = bytes.len();
        let field_size = FieldElement::uncompressed_size();
        let index_size = crate::field::usize_uncompressed_size();
        let n = self.params.num_rows;
        let total_layers = self.num_subcircuits();
        let (segment_size, pair_count) = layer_geometry(n, total_layers, subcircuit_idx);
        let ghost s = segment_size as nat;
        let mut offset: usize = 0;
        let mut pair_idx: usize = 0;
        while pair_idx < pair_count
            invariant
                n == self.params.num_rows,
                field_size == 32,
                index_size == 8,
                s == segment_size,
                segment_size >= 1,
                pair_count == num_pairs(n as nat, s),
                pair_idx <= pair_count,
                bytes@.len() >= 72 * covered_rows(n as nat, s),
                offset == 72 * rows_before(n as nat, s, pair_idx as nat),
                self.sorted_indices@ == read_indices(n as nat, s, bytes@, pair_idx as nat)
                    + old_indices.skip(rows_before(n as nat, s, pair_idx as nat) as int),
                old_indices.len() >= covered_rows(n as nat, s),
                self.table_data == old_table,
                self.params == old_params,
                bytes_len == bytes@.len(),
            decreases pair_count - pair_idx,
        {
            proof {
                lemma_pair_offsets(n as nat, s, pair_idx as nat);
                lemma_read_indices_len(n as nat, s, bytes@, pair_idx as nat);
            }
            let left_start = pair_idx * 2 * segment_size;
            let right_start = left_start + segment_size;
            let right_end = if segment_size <= n - right_start { right_start + segment_size } else { n };
            let output_start = left_start;
            let left_len = segment_size;
            let right_len = right_end - right_start;
            let entries_to_skip = (left_len + right_len) * 2;
            offset = offset + entries_to_skip * field_size;
            let merged_len = left_len + right_len;
            let ghost base = offset;
            let ghost prefix = read_indices(n as nat, s, bytes@, pair_idx as nat);
            let ghost pair_vals = pair_read_indices(n as nat, s, bytes@, pair_idx as nat);
            let mut i: usize = 0;
            while i < merged_len
                invariant
                    n == self.params.num_rows,
                    index_size == 8,
                    i <= merged_len,
                    merged_len == pair_vals.len(),
                    output_start + merged_len <= n,
                    output_start == rows_before(n as nat, s, pair_idx as nat),
                    prefix.len() == output_start,
                    base == 72 * output_start + 64 * merged_len,
                    offset == base + 8 * i,
                    72 * (output_start + merged_len) <= bytes@.len(),
                    output_start + merged_len <= old_indices.len(),
                    output_start == pair_start(s, pair_idx as nat),
                    self.table_data == old_table,
                    self.params == old_params,
                    bytes_len == bytes@.len(),
                    pair_vals == pair_read_indices(n as nat, s, bytes@, pair_idx as nat),
                    self.sorted_indices@ == prefix + pair_vals.take(i as int)
                        + old_indices.skip(output_start + i),
                decreases merged_len - i,
            {
                if output_start + i < n {
                    let chunk = &bytes[offset..(offset + index_size)];
                    assert(chunk@.take(8) =~= bytes@.subrange(offset as int, offset + 8));
                    let sorted_idx = usize_deserialize_uncompressed_unchecked(chunk).unwrap();
                    offset = offset + index_size;
                    self.sorted_indices.set(output_start + i, sorted_idx);
                    assert(pair_vals[i as int] == sorted_idx);
                    assert(self.sorted_indices@ =~= prefix + pair_vals.take(i + 1)
                        + old_indices.skip(output_start + i + 1));
                }
                i = i + 1;
            }
            assert(pair_vals.take(merged_len as int) =~= pair_vals);
            proof {
                if pair_idx + 1 < pair_count {
                    lemma_pair_offsets(n as nat, s, (pair_idx + 1) as nat);
                }
            }
            pair_idx = pair_idx + 1;
        }
        proof {
            lemma_pairs_cover(n as nat, s);
        }
    }
}

/// The indices read for the pairs before `k` have, together, the multiset
/// of the old order's positions before those pairs, when each pair's indices
/// are a permutation of that pair's old positions.
proof fn lemma_read_indices_multiset(n: nat, s: nat, bytes: Seq<u8>, old_order: Seq<usize>, k: nat)
    requires
        s >= 1,
        k <= num_pairs(n, s),
        covered_rows(n, s) <= old_order.len(),
        forall|p: nat| p < num_pairs(n, s) ==> #[trigger] pair_read_indices(n, s, bytes, p).to_multiset()
            == old_order.subrange(pair_start(s, p) as int, pair_end(n, s, p) as int).to_multiset(),
    ensures
        read_indices(n, s, bytes, k).to_multiset() == old_order.take(rows_before(n, s, k) as int).to_multiset(),
    decreases k,
{
    broadcast use vstd::seq_lib::lemma_multiset_commutative;
    if k == 0 {
        assert(old_order.take(0) =~= Seq::<usize>::empty());
        assert(read_indices(n, s, bytes, 0) =~= Seq::<usize>::empty());
    } else {
        let p = (k - 1) as nat;
        lemma_read_indices_multiset(n, s, bytes, old_order, p);
        lemma_pair_offsets(n, s, p);
        let before = old_order.take(rows_before(n, s, p) as int);
        let pair = old_order.subrange(pair_start(s, p) as int, pair_end(n, s, p) as int);
        assert(rows_before(n, s, k) == pair_end(n, s, p));
        assert(old_order.take(pair_end(n, s, p) as int) =~= before + pair);
        assert(read_indices(n, s, bytes, k) == read_indices(n, s, bytes, p) + pair_read_indices(n, s, bytes, p));
    }
}

/// Reading back a witness keeps the order a permutation: when, for every
/// pair of the layer of sub-circuit `idx`, the row indices that the witness
/// holds are a permutation of the indices at that pair's positions, the
/// order that `set_serialized_witnesses` installs has the same length and
/// the same multiset of rows as the old one.
pub proof fn lemma_set_keeps_permutation(c: ZkDbSqlCircuit, idx: nat, bytes: Seq<u8>)
    requires
        idx < layer_count(c.params.num_rows as nat),
        c.sorted_indices@.len() >= covered_rows(c.params.num_rows as nat, segment_size(c.params.num_rows as nat, idx)),
        ({
            let n = c.params.num_rows as nat;
            let s = segment_size(n, idx);
            forall|p: nat| p < num_pairs(n, s) ==> #[trigger] pair_read_indices(n, s, bytes, p).to_multiset()
                == c.sorted_indices@.subrange(pair_start(s, p) as int, pair_end(n, s, p) as int).to_multiset()
        }),
    ensures
        ({
            let n = c.params.num_rows as nat;
            let s = segment_size(n, idx);
            let installed = read_indices(n, s, bytes, num_pairs(n, s)) + c.sorted_indices@.skip(covered_rows(n, s) as int);
            &&& installed.len() == c.sorted_indices@.len()
            &&& installed.to_multiset() == c.sorted_indices@.to_multiset()
        }),
{
    broadcast use vstd::seq_lib::lemma_multiset_commutative;
    let n = c.params.num_rows as nat;
    lemma_pow2_pos((layer_count(n) - idx - 1) as nat);
    let s = segment_size(n, idx);
    let np = num_pairs(n, s);
    let order = c.sorted_indices@;
    lemma_pairs_cover(n, s);
    lemma_read_indices_len(n, s, bytes, np);
    lemma_read_indices_multiset(n, s, bytes, order, np);
    let cov = covered_rows(n, s);
    assert(order =~= order.take(cov as int) + order.skip(cov as int));
}

impl ZkDbSqlCircuit {
    /// The left segment of pair `p` of the layer of sub-circuit `idx`.
    pub open spec fn left_run(self, idx: nat, p: nat) -> Seq<(nat, usize)> {
        let s = segment_size(self.params.num_rows as nat, idx);
        self.run(pair_start(s, p), pair_start(s, p) + s)
    }

    /// The right segment of pair `p` of the layer of sub-circuit `idx`.
    pub open spec fn right_run(self, idx: nat, p: nat) -> Seq<(nat, usize)> {
        let n = self.params.num_rows as nat;
        let s = segment_size(n, idx);
        self.run(pair_start(s, p) + s, pair_end(n, s, p))
    }

    /// The merge of pair `p` of the layer of sub-circuit `idx`.
    pub open spec fn pair_merge(self, idx: nat, p: nat, ties_left: bool) -> Seq<(nat, usize)> {
        merge(self.left_run(idx, p), self.right_run(idx, p), ties_left)
    }

    /// The portal writes for pair `p`: position `i` of its merge gets the row
    /// index at that position of the merged output.
    pub open spec fn pair_writes(self, idx: nat, p: nat, ties_left: bool) -> Seq<(PortalKey, nat)> {
        let m = self.pair_merge(idx, p, ties_left);
        Seq::new(
            m.len(),
            |i: int| (PortalKey::MergedIndex { pair: p as usize, position: i as usize }, m[i].1 as nat),
        )
    }

    /// The portal writes for the pairs before `k`, in order.
    pub open spec fn writes_before(self, idx: nat, ties_left: bool, k: nat) -> Seq<(PortalKey, nat)>
        decreases k,
    {
        if k == 0 {
            Seq::empty()
        } else {
            self.writes_before(idx, ties_left, (k - 1) as nat) + self.pair_writes(idx, (k - 1) as nat, ties_left)
        }
    }

    /// All portal writes of the layer of sub-circuit `idx`.
    pub open spec fn layer_writes(self, idx: nat, ties_left: bool) -> Seq<(PortalKey, nat)> {
        let n = self.params.num_rows as nat;
        self.writes_before(idx, ties_left, num_pairs(n, segment_size(n, idx)))
    }

    /// Segment size and number of merged pairs of the layer of sub-circuit
    /// `subcircuit_idx`.
    pub fn layer_layout(&self, subcircuit_idx: usize) -> (r: (usize, usize))
        requires
            subcircuit_idx < layer_count(self.params.num_rows as nat),
        ensures
            r.0 == segment_size(self.params.num_rows as nat, subcircuit_idx as nat),
            r.0 >= 1,
            r.1 == num_pairs(self.params.num_rows as nat, r.0 as nat),
    {
        let total_layers = self.num_subcircuits();
        layer_geometry(self.params.num_rows, total_layers, subcircuit_idx)
    }

    /// The entries of the left and of the right segment of pair `pair_idx`
    /// of the layer of sub-circuit `subcircuit_idx`.
    pub fn pair_segments(&self, subcircuit_idx: usize, pair_idx: usize) -> (r: (Vec<Entry>, Vec<Entry>))
        requires
            subcircuit_idx < layer_count(self.params.num_rows as nat),
            self.layer_readable(subcircuit_idx as nat),
            pair_idx < num_pairs(
                self.params.num_rows as nat,
                segment_size(self.params.num_rows as nat, subcircuit_idx as nat),
            ),
        ensures
            run_view(r.0@) == self.left_run(subcircuit_idx as nat, pair_idx as nat),
            run_view(r.1@) == self.right_run(subcircuit_idx as nat, pair_idx as nat),
    {
        let n = self.params.num_rows;
        let (seg_size, _pair_count) = self.layer_layout(subcircuit_idx);
        proof {
            lemma_pair_offsets(n as nat, seg_size as nat, pair_idx as nat);
        }
        let left_start = pair_idx * 2 * seg_size;
        let right_start = left_start + seg_size;
        let right_end = if seg_size <= n - right_start { right_start + seg_size } else { n };
        let left = self.gather(left_start, seg_size);
        let right = self.gather(right_start, right_end - right_start);
        (left, right)
    }

    /// Merges pair `pair_idx` and appends its portal writes.
    fn push_pair_writes(&self, subcircuit_idx: usize, pair_idx: usize, ties_left: bool, out: &mut Vec<PortalEntry>)
        requires
            subcircuit_idx < layer_count(self.params.num_rows as nat),
            self.layer_readable(subcircuit_idx as nat),
            pair_idx < num_pairs(
                self.params.num_rows as nat,
                segment_size(self.params.num_rows as nat, subcircuit_idx as nat),
            ),
        ensures
            portal_view(final(out)@) == portal_view(old(out)@)
                + self.pair_writes(subcircuit_idx as nat, pair_idx as nat, ties_left),
    {
        let (left, right) = self.pair_segments(subcircuit_idx, pair_idx);
        let merged = merge_runs(&left, &right, ties_left);
        let ghost m = self.pair_merge(subcircuit_idx as nat, pair_idx as nat, ties_left);
        assert(run_view(merged@) == m);
        let ghost old_out = portal_view(out@);
        let mut i: usize = 0;
        while i < merged.len()
            invariant
                i <= merged@.len(),
                run_view(merged@) == m,
                m == self.pair_merge(subcircuit_idx as nat, pair_idx as nat, ties_left),
                portal_view(out@) == old_out + self.pair_writes(subcircuit_idx as nat, pair_idx as nat, ties_left).take(i as int),
            decreases merged.len() - i,
        {
            let ghost before = out@;
            let row = merged[i].1;
            out.push(PortalEntry {
                key: PortalKey::MergedIndex { pair: pair_idx, position: i },
                value: FieldElement::from_u64(row as u64),
            });
            assert(m[i as int] == (merged@[i as int].0@, merged@[i as int].1));
            assert(portal_view(out@) =~= portal_view(before) + seq![(PortalKey::MergedIndex { pair: pair_idx, position: i }, row as nat)]);
            let ghost pw = self.pair_writes(subcircuit_idx as nat, pair_idx as nat, ties_left);
            assert(pw.len() == merged@.len());
            assert(pw[i as int] == (PortalKey::MergedIndex { pair: pair_idx, position: i }, row as nat));
            assert(self.pair_writes(subcircuit_idx as nat, pair_idx as nat, ties_left).take(i + 1)
                =~= self.pair_writes(subcircuit_idx as nat, pair_idx as nat, ties_left).take(i as int)
                    .push((PortalKey::MergedIndex { pair: pair_idx, position: i }, row as nat)));
            i = i + 1;
        }
        assert(self.pair_writes(subcircuit_idx as nat, pair_idx as nat, ties_left).take(merged@.len() as int)
            =~= self.pair_writes(subcircuit_idx as nat, pair_idx as nat, ties_left));
    }

    /// The portal writes of one layer, each pair merged with the given tie
    /// rule.
    fn layer_portal_writes(&self, subcircuit_idx: usize, ties_left: bool) -> (r: Vec<PortalEntry>)
        requires
            subcircuit_idx < layer_count(self.params.num_rows as nat),
            self.layer_readable(subcircuit_idx as nat),
        ensures
            portal_view(r@) == self.layer_writes(subcircuit_idx as nat, ties_left),
    {
        let n = self.params.num_rows;
        let total_layers = self.num_subcircuits();
        let (seg_size, pair_count) = layer_geometry(n, total_layers, subcircuit_idx);
        let mut out: Vec<PortalEntry> = Vec::new();
        let mut pair_idx: usize = 0;
        while pair_idx < pair_count
            invariant
                self.layer_readable(subcircuit_idx as nat),
                n == self.params.num_rows,
                subcircuit_idx < layer_count(n as nat),
                seg_size == segment_size(n as nat, subcircuit_idx as nat),
                seg_size >= 1,
                pair_count == num_pairs(n as nat, seg_size as nat),
                pair_idx <= pair_count,
                portal_view(out@) == self.writes_before(subcircuit_idx as nat, ties_left, pair_idx as nat),
            decreases pair_count - pair_idx,
        {
            self.push_pair_writes(subcircuit_idx, pair_idx, ties_left, &mut out);
            pair_idx = pair_idx + 1;
        }
        out
    }

    /// The values that sub-circuit `subcircuit_idx` writes to its portals
    /// when its constraints are generated: for each pair, the merged row
    /// indices, where a left key goes first only when it is strictly smaller
    /// (the circuit compares with `<`).
    pub fn constraint_portal_writes(&self, subcircuit_idx: usize) -> (r: Vec<PortalEntry>)
        requires
            subcircuit_idx < layer_count(self.params.num_rows as nat),
            self.layer_readable(subcircuit_idx as nat),
        ensures
            portal_view(r@) == self.layer_writes(subcircuit_idx as nat, false),
    {
        self.layer_portal_writes(subcircuit_idx, false)
    }

    /// The portal trace of every layer: for each pair, the merged row
    /// indices, where a left key goes first when it is not larger (`<=`).
    pub fn get_portal_subtraces(&self) -> (r: Vec<Vec<PortalEntry>>)
        requires
            self.layers_readable(),
        ensures
            r@.len() == layer_count(self.params.num_rows as nat),
            forall|l: int| 0 <= l < r@.len() ==> portal_view(#[trigger] r@[l]@) == self.layer_writes(l as nat, true),
    {
        let total_layers = self.num_subcircuits();
        let mut subtraces: Vec<Vec<PortalEntry>> = Vec::new();
        let mut layer_idx: usize = 0;
        while layer_idx < total_layers
            invariant
                self.layers_readable(),
                total_layers == layer_count(self.params.num_rows as nat),
                layer_idx <= total_layers,
                subtraces@.len() == layer_idx,
                forall|l: int| 0 <= l < layer_idx ==> portal_view(#[trigger] subtraces@[l]@) == self.layer_writes(l as nat, true),
            decreases total_layers - layer_idx,
        {
            assert(self.layer_readable(layer_idx as nat));
            let subtrace = self.layer_portal_writes(layer_idx, true);
            subtraces.push(subtrace);
            layer_idx = layer_idx + 1;
        }
        subtraces
    }
}

/// Every pair of a layer is merged into a permutation of its two segments;
/// when both segments are sorted by key, so is the merge.
pub proof fn lemma_pair_merge_sorts(c: ZkDbSqlCircuit, idx: nat, p: nat, ties_left: bool)
    ensures
        c.pair_merge(idx, p, ties_left).to_multiset()
            == c.left_run(idx, p).to_multiset().add(c.right_run(idx, p).to_multiset()),
        sorted_by_key(c.left_run(idx, p)) && sorted_by_key(c.right_run(idx, p))
            ==> sorted_by_key(c.pair_merge(idx, p, ties_left)),
{
    lemma_merge_permutation(c.left_run(idx, p), c.right_run(idx, p), ties_left);
    if sorted_by_key(c.left_run(idx, p)) && sorted_by_key(c.right_run(idx, p)) {
        lemma_merge_sorted(c.left_run(idx, p), c.right_run(idx, p), ties_left);
    }
}

/// When no key of the left segment of a pair equals a key of its right
/// segment, the circuit (which merges with `<`) writes to the portals exactly
/// what the portal trace (which merges with `<=`) holds, for every pair of
/// the layer.
pub proof fn lemma_constraints_match_trace(c: ZkDbSqlCircuit, idx: nat)
    requires
        forall|p: nat| p < num_pairs(c.params.num_rows as nat, segment_size(c.params.num_rows as nat, idx))
            ==> keys_disjoint(#[trigger] c.left_run(idx, p), c.right_run(idx, p)),
    ensures
        c.layer_writes(idx, false) == c.layer_writes(idx, true),
{
    let n = c.params.num_rows as nat;
    lemma_writes_before_ties_irrelevant(c, idx, num_pairs(n, segment_size(n, idx)));
}

proof fn lemma_writes_before_ties_irrelevant(c: ZkDbSqlCircuit, idx: nat, k: nat)
    requires
        k <= num_pairs(c.params.num_rows as nat, segment_size(c.params.num_rows as nat, idx)),
        forall|p: nat| p < num_pairs(c.params.num_rows as nat, segment_size(c.params.num_rows as nat, idx))
            ==> keys_disjoint(#[trigger] c.left_run(idx, p), c.right_run(idx, p)),
    ensures
        c.writes_before(idx, false, k) == c.writes_before(idx, true, k),
    decreases k,
{
    if k > 0 {
        let p = (k - 1) as nat;
        lemma_writes_before_ties_irrelevant(c, idx, p);
        lemma_merge_ties_irrelevant(c.left_run(idx, p), c.right_run(idx, p));
        assert(c.pair_writes(idx, p, false) =~= c.pair_writes(idx, p, true));
    }
}
/// A layer writes one value per position that belongs to a pair.
pub proof fn lemma_layer_writes_len(c: ZkDbSqlCircuit, idx: nat, ties_left: bool)
    requires
        idx < layer_count(c.params.num_rows as nat),
    ensures
        c.layer_writes(idx, ties_left).len()
            == covered_rows(c.params.num_rows as nat, segment_size(c.params.num_rows as nat, idx)),
{
    let n = c.params.num_rows as nat;
    lemma_pow2_pos((layer_count(n) - idx - 1) as nat);
    let s = segment_size(n, idx);
    let np = num_pairs(n, s);
    lemma_writes_before_len(c, idx, ties_left, np);
    lemma_pairs_cover(n, s);
}

proof fn lemma_writes_before_len(c: ZkDbSqlCircuit, idx: nat, ties_left: bool, k: nat)
    requires
        segment_size(c.params.num_rows as nat, idx) >= 1,
        k <= num_pairs(c.params.num_rows as nat, segment_size(c.params.num_rows as nat, idx)),
    ensures
        c.writes_before(idx, ties_left, k).len()
            == rows_before(c.params.num_rows as nat, segment_size(c.params.num_rows as nat, idx), k),
    decreases k,
{
    if k > 0 {
        let n = c.params.num_rows as nat;
        let s = segment_size(n, idx);
        let p = (k - 1) as nat;
        lemma_writes_before_len(c, idx, ties_left, p);
        lemma_pair_fits(n, s, p);
        lemma_merge_permutation(c.left_run(idx, p), c.right_run(idx, p), ties_left);
        lemma_pair_offsets(n, s, p);
    }
}

proof fn lemma_writes_before_at(c: ZkDbSqlCircuit, idx: nat, ties_left: bool, k: nat, p: nat, i: nat)
    requires
        segment_size(c.params.num_rows as nat, idx) >= 1,
        p < k <= num_pairs(c.params.num_rows as nat, segment_size(c.params.num_rows as nat, idx)),
        i < pair_end(c.params.num_rows as nat, segment_size(c.params.num_rows as nat, idx), p)
            - pair_start(segment_size(c.params.num_rows as nat, idx), p),
    ensures
        ({
            let n = c.params.num_rows as nat;
            let s = segment_size(n, idx);
            let w = c.writes_before(idx, ties_left, k);
            &&& rows_before(n, s, p) + i < w.len()
            &&& w[(rows_before(n, s, p) + i) as int] == (
                PortalKey::MergedIndex { pair: p as usize, position: i as usize },
                c.pair_merge(idx, p, ties_left)[i as int].1 as nat,
            )
        }),
    decreases k,
{
    let n = c.params.num_rows as nat;
    let s = segment_size(n, idx);
    let q = (k - 1) as nat;
    lemma_writes_before_len(c, idx, ties_left, q);
    lemma_writes_before_len(c, idx, ties_left, k);
    lemma_pair_offsets(n, s, p);
    lemma_pair_offsets(n, s, q);
    lemma_pair_fits(n, s, q);
    lemma_merge_permutation(c.left_run(idx, q), c.right_run(idx, q), ties_left);
    if q == p {
        assert(c.pair_writes(idx, p, ties_left).len() == pair_end(n, s, p) - pair_start(s, p));
    } else {
        lemma_writes_before_at(c, idx, ties_left, q, p, i);
        lemma_pair_fits(n, s, p);
        assert(pair_end(n, s, p) <= rows_before(n, s, q)) by {
            if p + 1 < q {
                lemma_pair_offsets(n, s, (p + 1) as nat);
                assert(2 * (p + 1) * s <= 2 * q * s) by (nonlinear_arith)
                    requires p + 1 < q;
            }
        }
    }
}

/// Each write of a layer names its pair and its place in the pair: the
/// value written for place `i` of pair `p` goes to the portal
/// `MergedIndex { pair: p, position: i }` (named `merged_indices_{p}_{i}`),
/// comes after the writes of the pairs before `p`, and is the row at place
/// `i` of the pair's merge.
pub proof fn lemma_layer_writes_at(c: ZkDbSqlCircuit, idx: nat, ties_left: bool, p: nat, i: nat)
    requires
        idx < layer_count(c.params.num_rows as nat),
        p < num_pairs(c.params.num_rows as nat, segment_size(c.params.num_rows as nat, idx)),
        i < pair_end(c.params.num_rows as nat, segment_size(c.params.num_rows as nat, idx), p)
            - pair_start(segment_size(c.params.num_rows as nat, idx), p),
    ensures
        ({
            let n = c.params.num_rows as nat;
            let s = segment_size(n, idx);
            let w = c.layer_writes(idx, ties_left);
            &&& pair_start(s, p) + i < w.len()
            &&& w[(pair_start(s, p) + i) as int] == (
                PortalKey::MergedIndex { pair: p as usize, position: i as usize },
                merged_rows(merge(c.left_run(idx, p), c.right_run(idx, p), ties_left))[i as int] as nat,
            )
        }),
{
    let n = c.params.num_rows as nat;
    lemma_pow2_pos((layer_count(n) - idx - 1) as nat);
    let s = segment_size(n, idx);
    lemma_pair_offsets(n, s, p);
    lemma_pair_fits(n, s, p);
    lemma_writes_before_at(c, idx, ties_left, num_pairs(n, s), p, i);
    let m = c.pair_merge(idx, p, ties_left);
    lemma_merge_permutation(c.left_run(idx, p), c.right_run(idx, p), ties_left);
    assert(merged_rows(m)[i as int] == m[i as int].1);
}

/// The encoded entries of a run, in order.
pub open spec fn encode_run(s: Seq<(nat, usize)>) -> Seq<u8>
    decreases s.len(),
{
    if s.len() == 0 {
        Seq::empty()
    } else {
        encode_run(s.drop_last()) + encode_entry(s.last())
    }
}

impl ZkDbSqlCircuit {
    /// The encoded inputs of the merges of the pairs before `k`: for each
    /// pair, its left segment and then its right segment.
    pub open spec fn merge_inputs_bytes(self, idx: nat, k: nat) -> Seq<u8>
        decreases k,
    {
        if k == 0 {
            Seq::empty()
        } else {
            self.merge_inputs_bytes(idx, (k - 1) as nat)
                + encode_run(self.left_run(idx, (k - 1) as nat) + self.right_run(idx, (k - 1) as nat))
        }
    }
}

proof fn lemma_encode_run_concat(s1: Seq<(nat, usize)>, s2: Seq<(nat, usize)>)
    ensures
        encode_run(s1 + s2) == encode_run(s1) + encode_run(s2),
    decreases s2.len(),
{
    if s2.len() == 0 {
        assert(s1 + s2 =~= s1);
        assert(encode_run(s1) + encode_run(s2) =~= encode_run(s1));
    } else {
        lemma_encode_run_concat(s1, s2.drop_last());
        assert((s1 + s2).drop_last() =~= s1 + s2.drop_last());
        assert((s1 + s2).last() == s2.last());
        assert(encode_run(s1 + s2) =~= encode_run(s1) + encode_run(s2));
    }
}

proof fn lemma_entries_bytes_run(c: ZkDbSqlCircuit, a: nat, b: nat)
    requires
        a <= b,
    ensures
        c.entries_bytes(a, b) == encode_run(c.run(a, b)),
    decreases b,
{
    if b == a {
        assert(c.run(a, b) =~= Seq::<(nat, usize)>::empty());
    } else {
        lemma_entries_bytes_run(c, a, (b - 1) as nat);
        assert(c.run(a, b).drop_last() =~= c.run(a, (b - 1) as nat));
    }
}

proof fn lemma_run_concat(c: ZkDbSqlCircuit, a: nat, b: nat, e: nat)
    requires
        a <= b <= e,
    ensures
        c.run(a, b) + c.run(b, e) == c.run(a, e),
{
    assert(c.run(a, b) + c.run(b, e) =~= c.run(a, e));
}

proof fn lemma_merge_inputs_prefix(c: ZkDbSqlCircuit, idx: nat, k: nat)
    requires
        segment_size(c.params.num_rows as nat, idx) >= 1,
        k <= num_pairs(c.params.num_rows as nat, segment_size(c.params.num_rows as nat, idx)),
    ensures
        c.entries_bytes(0, rows_before(c.params.num_rows as nat, segment_size(c.params.num_rows as nat, idx), k))
            == c.merge_inputs_bytes(idx, k),
    decreases k,
{
    let n = c.params.num_rows as nat;
    let s = segment_size(n, idx);
    if k > 0 {
        let p = (k - 1) as nat;
        lemma_merge_inputs_prefix(c, idx, p);
        lemma_pair_fits(n, s, p);
        let start = pair_start(s, p);
        let end = pair_end(n, s, p);
        lemma_pair_offsets(n, s, p);
        assert(rows_before(n, s, p) == start);
        assert(rows_before(n, s, k) == end);
        lemma_run_concat(c, start, start + s, end);
        lemma_run_concat(c, 0, start, end);
        lemma_entries_bytes_run(c, 0, start);
        lemma_entries_bytes_run(c, 0, end);
        lemma_encode_run_concat(c.run(0, start), c.run(start, end));
    }
}

/// The witness of a sub-circuit carries exactly the inputs of its merges:
/// for each pair in order, the key and row of each entry of the left
/// segment, then of the right segment.
pub proof fn lemma_witness_is_merge_inputs(c: ZkDbSqlCircuit, idx: nat)
    requires
        idx < layer_count(c.params.num_rows as nat),
    ensures
        c.witness_bytes(idx)
            == c.merge_inputs_bytes(idx, num_pairs(c.params.num_rows as nat, segment_size(c.params.num_rows as nat, idx))),
{
    let n = c.params.num_rows as nat;
    lemma_pow2_pos((layer_count(n) - idx - 1) as nat);
    let s = segment_size(n, idx);
    let np = num_pairs(n, s);
    lemma_merge_inputs_prefix(c, idx, np);
    lemma_pairs_cover(n, s);
}

/// Row indices, each encoded as eight little-endian bytes.
pub open spec fn index_bytes(rows: Seq<usize>) -> Seq<u8>
    decreases rows.len(),
{
    if rows.len() == 0 {
        Seq::empty()
    } else {
        index_bytes(rows.drop_last()) + le_bytes(rows.last() as nat, 8)
    }
}

impl ZkDbSqlCircuit {
    /// A witness of sub-circuit `idx` that carries the merge results: for
    /// each pair before `k`, its inputs as `get_serialized_witnesses` writes
    /// them, then the rows of its merge as 8-byte integers.
    pub open spec fn merged_witness_bytes(self, idx: nat, ties_left: bool, k: nat) -> Seq<u8>
        decreases k,
    {
        if k == 0 {
            Seq::empty()
        } else {
            let p = (k - 1) as nat;
            self.merged_witness_bytes(idx, ties_left, p)
                + encode_run(self.left_run(idx, p) + self.right_run(idx, p))
                + index_bytes(merged_rows(self.pair_merge(idx, p, ties_left)))
        }
    }

    /// The rows of the merges of the pairs before `k`, pair after pair.
    pub open spec fn merged_order(self, idx: nat, ties_left: bool, k: nat) -> Seq<usize>
        decreases k,
    {
        if k == 0 {
            Seq::empty()
        } else {
            self.merged_order(idx, ties_left, (k - 1) as nat)
                + merged_rows(self.pair_merge(idx, (k - 1) as nat, ties_left))
        }
    }
}

proof fn lemma_encode_run_len(s: Seq<(nat, usize)>)
    ensures
        encode_run(s).len() == 64 * s.len(),
    decreases s.len(),
{
    if s.len() > 0 {
        lemma_encode_run_len(s.drop_last());
        lemma_le_bytes_len(s.last().0, 32);
        lemma_le_bytes_len(s.last().1 as nat, 32);
    }
}

proof fn lemma_encode_run_chunks(s: Seq<(nat, usize)>, k: int)
    requires
        0 <= k < s.len(),
    ensures
        encode_run(s).subrange(64 * k, 64 * k + 64) == encode_entry(s[k]),
    decreases s.len(),
{
    let prev = s.drop_last();
    lemma_encode_run_len(prev);
    lemma_le_bytes_len(s.last().0, 32);
    lemma_le_bytes_len(s.last().1 as nat, 32);
    let last = encode_entry(s.last());
    assert(encode_run(s) == encode_run(prev) + last);
    if k < s.len() - 1 {
        lemma_encode_run_chunks(prev, k);
        assert((encode_run(prev) + last).subrange(64 * k, 64 * k + 64)
            =~= encode_run(prev).subrange(64 * k, 64 * k + 64));
    } else {
        assert((encode_run(prev) + last).subrange(64 * k, 64 * k + 64) =~= last);
    }
}

/// The witness of a sub-circuit reads back to the entries of its paired
/// positions: it holds 64 bytes per position, and for position `k` the
/// first 32 are the little-endian value of the key of the row that `k`
/// names (its full canonical value) and the next 32 that row's index.
pub proof fn lemma_witness_decodes(c: ZkDbSqlCircuit, idx: nat, k: int)
    requires
        idx < layer_count(c.params.num_rows as nat),
        0 <= k < covered_rows(c.params.num_rows as nat, segment_size(c.params.num_rows as nat, idx)),
    ensures
        ({
            let n = c.params.num_rows as nat;
            let w = c.witness_bytes(idx);
            let row = c.sorted_indices@[k];
            &&& w.len() == 64 * covered_rows(n, segment_size(n, idx))
            &&& le_value(w.subrange(64 * k, 64 * k + 32))
                == c.table_data@[row as int]@[c.params.sort_column_idx as int]@
            &&& le_value(w.subrange(64 * k + 32, 64 * k + 64)) == row as nat
        }),
{
    let n = c.params.num_rows as nat;
    let m = covered_rows(n, segment_size(n, idx));
    let w = c.witness_bytes(idx);
    let e = c.entry_at(k);
    let key = c.table_data@[c.sorted_indices@[k] as int]@[c.params.sort_column_idx as int];
    lemma_entries_bytes_run(c, 0, m);
    lemma_encode_run_len(c.run(0, m));
    lemma_encode_run_chunks(c.run(0, m), k);
    assert(c.run(0, m)[k] == e);
    let chunk = w.subrange(64 * k, 64 * k + 64);
    assert(chunk == encode_entry(e));
    lemma_le_bytes_len(e.0, 32);
    lemma_le_bytes_len(e.1 as nat, 32);
    assert(w.subrange(64 * k, 64 * k + 32) =~= chunk.subrange(0, 32));
    assert(chunk.subrange(0, 32) =~= le_bytes(e.0, 32));
    assert(w.subrange(64 * k + 32, 64 * k + 64) =~= chunk.subrange(32, 64));
    assert(chunk.subrange(32, 64) =~= le_bytes(e.1 as nat, 32));
    lemma_value_below_modulus(key);
    lemma_modulus_fits();
    lemma2_to64();
    lemma_pow2_strictly_increases(64, 256);
    assert(8 * 32nat == 256) by (nonlinear_arith);
    lemma_le_round_trip(e.0, 32);
    lemma_le_round_trip(e.1 as nat, 32);
}

proof fn lemma_index_bytes(rows: Seq<usize>)
    ensures
        index_bytes(rows).len() == 8 * rows.len(),
        forall|i: int| 0 <= i < rows.len() ==> #[trigger] index_bytes(rows).subrange(8 * i, 8 * i + 8)
            == le_bytes(rows[i] as nat, 8),
    decreases rows.len(),
{
    if rows.len() > 0 {
        let prev = rows.drop_last();
        lemma_index_bytes(prev);
        lemma_le_bytes_len(rows.last() as nat, 8);
        let b = index_bytes(rows);
        let pb = index_bytes(prev);
        let last = le_bytes(rows.last() as nat, 8);
        assert(b == pb + last);
        assert forall|i: int| 0 <= i < rows.len() implies #[trigger] index_bytes(rows).subrange(8 * i, 8 * i + 8)
            == le_bytes(rows[i] as nat, 8) by {
            if i < rows.len() - 1 {
                assert((pb + last).subrange(8 * i, 8 * i + 8) =~= pb.subrange(8 * i, 8 * i + 8));
                assert(prev[i] == rows[i]);
            } else {
                assert((pb + last).subrange(8 * i, 8 * i + 8) =~= last);
            }
        }
    }
}

proof fn lemma_pair_lens(c: ZkDbSqlCircuit, idx: nat, p: nat, ties_left: bool)
    requires
        segment_size(c.params.num_rows as nat, idx) >= 1,
        p < num_pairs(c.params.num_rows as nat, segment_size(c.params.num_rows as nat, idx)),
    ensures
        ({
            let n = c.params.num_rows as nat;
            let s = segment_size(n, idx);
            let len = (pair_end(n, s, p) - pair_start(s, p)) as nat;
            &&& (c.left_run(idx, p) + c.right_run(idx, p)).len() == len
            &&& merged_rows(c.pair_merge(idx, p, ties_left)).len() == len
            &&& pair_start(s, p) + len == pair_end(n, s, p)
        }),
{
    let n = c.params.num_rows as nat;
    let s = segment_size(n, idx);
    lemma_pair_fits(n, s, p);
    lemma_merge_permutation(c.left_run(idx, p), c.right_run(idx, p), ties_left);
}

proof fn lemma_merged_witness_len(c: ZkDbSqlCircuit, idx: nat, ties_left: bool, k: nat)
    requires
        segment_size(c.params.num_rows as nat, idx) >= 1,
        k <= num_pairs(c.params.num_rows as nat, segment_size(c.params.num_rows as nat, idx)),
    ensures
        c.merged_witness_bytes(idx, ties_left, k).len()
            == 72 * rows_before(c.params.num_rows as nat, segment_size(c.params.num_rows as nat, idx), k),
        c.merged_order(idx, ties_left, k).len()
            == rows_before(c.params.num_rows as nat, segment_size(c.params.num_rows as nat, idx), k),
    decreases k,
{
    if k > 0 {
        let n = c.params.num_rows as nat;
        let s = segment_size(n, idx);
        let p = (k - 1) as nat;
        lemma_merged_witness_len(c, idx, ties_left, p);
        lemma_pair_lens(c, idx, p, ties_left);
        lemma_encode_run_len(c.left_run(idx, p) + c.right_run(idx, p));
        lemma_index_bytes(merged_rows(c.pair_merge(idx, p, ties_left)));
        lemma_pair_offsets(n, s, p);
    }
}

proof fn lemma_merged_witness_prefix(c: ZkDbSqlCircuit, idx: nat, ties_left: bool, j: nat, k: nat)
    requires
        j <= k,
    ensures
        c.merged_witness_bytes(idx, ties_left, j).len() <= c.merged_witness_bytes(idx, ties_left, k).len(),
        c.merged_witness_bytes(idx, ties_left, k).subrange(0, c.merged_witness_bytes(idx, ties_left, j).len() as int)
            == c.merged_witness_bytes(idx, ties_left, j),
    decreases k,
{
    if j < k {
        lemma_merged_witness_prefix(c, idx, ties_left, j, (k - 1) as nat);
        let prev = c.merged_witness_bytes(idx, ties_left, (k - 1) as nat);
        let cur = c.merged_witness_bytes(idx, ties_left, k);
        let pj = c.merged_witness_bytes(idx, ties_left, j);
        assert(cur.subrange(0, prev.len() as int) =~= prev);
        assert(cur.subrange(0, pj.len() as int) =~= prev.subrange(0, pj.len() as int));
    } else {
        let cur = c.merged_witness_bytes(idx, ties_left, k);
        assert(cur.subrange(0, cur.len() as int) =~= cur);
    }
}

/// Reading an index back from a witness whose prefix `here` ends with the
/// encoded `rows`: the `i`-th of them comes back.
proof fn lemma_read_index_at(bytes: Seq<u8>, here: Seq<u8>, a: nat, b: nat, rows: Seq<usize>, i: int)
    requires
        0 <= i < rows.len(),
        here.len() == a + b + 8 * rows.len(),
        here.len() <= bytes.len(),
        bytes.subrange(0, here.len() as int) == here,
        here.subrange((a + b) as int, here.len() as int) == index_bytes(rows),
    ensures
        read_index(bytes, a + b + 8 * i) == rows[i],
{
    let off = a + b + 8 * i;
    lemma_index_bytes(rows);
    lemma2_to64();
    assert(bytes.subrange(off, off + 8) =~= here.subrange(off, off + 8));
    assert(here.subrange(off, off + 8) =~= index_bytes(rows).subrange(8 * i, 8 * i + 8));
    assert(rows[i] as nat <= usize::MAX);
    assert(8 * 8nat == 64) by (nonlinear_arith);
    lemma_le_round_trip(rows[i] as nat, 8);
    assert(bytes.subrange(off, off + 8) == le_bytes(rows[i] as nat, 8));
    assert(le_value(bytes.subrange(off, off + 8)) == rows[i] as nat);
    vstd::arithmetic::div_mod::lemma_small_mod(rows[i] as nat, (usize::MAX + 1) as nat);
}

proof fn lemma_read_merged_order(c: ZkDbSqlCircuit, idx: nat, ties_left: bool, k: nat)
    requires
        segment_size(c.params.num_rows as nat, idx) >= 1,
        k <= num_pairs(c.params.num_rows as nat, segment_size(c.params.num_rows as nat, idx)),
    ensures
        ({
            let n = c.params.num_rows as nat;
            let s = segment_size(n, idx);
            let bytes = c.merged_witness_bytes(idx, ties_left, num_pairs(n, s));
            read_indices(n, s, bytes, k) == c.merged_order(idx, ties_left, k)
        }),
    decreases k,
{
    let n = c.params.num_rows as nat;
    let s = segment_size(n, idx);
    let np = num_pairs(n, s);
    let bytes = c.merged_witness_bytes(idx, ties_left, np);
    if k > 0 {
        let p = (k - 1) as nat;
        lemma_read_merged_order(c, idx, ties_left, p);
        lemma_pair_lens(c, idx, p, ties_left);
        lemma_merged_witness_len(c, idx, ties_left, p);
        lemma_merged_witness_prefix(c, idx, ties_left, k, np);
        lemma_pair_offsets(n, s, p);
        let start = pair_start(s, p);
        let len = (pair_end(n, s, p) - start) as nat;
        let before = c.merged_witness_bytes(idx, ties_left, p);
        let inputs = encode_run(c.left_run(idx, p) + c.right_run(idx, p));
        let rows = merged_rows(c.pair_merge(idx, p, ties_left));
        let here = c.merged_witness_bytes(idx, ties_left, k);
        lemma_encode_run_len(c.left_run(idx, p) + c.right_run(idx, p));
        lemma_index_bytes(rows);
        assert(here == before + inputs + index_bytes(rows));
        assert(before.len() == 72 * start);
        assert(inputs.len() == 64 * len);
        assert(bytes.subrange(0, here.len() as int) == here);
        assert(here.subrange((before.len() + inputs.len()) as int, here.len() as int) =~= index_bytes(rows));
        assert forall|i: int| 0 <= i < len implies #[trigger] pair_read_indices(n, s, bytes, p)[i] == rows[i] by {
            lemma_read_index_at(bytes, here, before.len(), inputs.len(), rows, i);
            assert(pair_read_indices(n, s, bytes, p)[i] == read_index(bytes, 72 * start + 64 * len + 8 * i));
        }
        assert(pair_read_indices(n, s, bytes, p) =~= rows);
    }
}

/// When a worker's witness of a sub-circuit carries, after the inputs of
/// each pair, the rows of that pair's merge, reading it back with
/// `set_serialized_witnesses` is possible and installs the merged order on
/// the positions of the pairs.
pub proof fn lemma_set_installs_merged_order(c: ZkDbSqlCircuit, idx: nat, ties_left: bool)
    requires
        idx < layer_count(c.params.num_rows as nat),
    ensures
        ({
            let n = c.params.num_rows as nat;
            let s = segment_size(n, idx);
            let np = num_pairs(n, s);
            let bytes = c.merged_witness_bytes(idx, ties_left, np);
            &&& bytes.len() == 72 * covered_rows(n, s)
            &&& read_indices(n, s, bytes, np) == c.merged_order(idx, ties_left, np)
        }),
{
    let n = c.params.num_rows as nat;
    lemma_pow2_pos((layer_count(n) - idx - 1) as nat);
    let s = segment_size(n, idx);
    let np = num_pairs(n, s);
    lemma_merged_witness_len(c, idx, ties_left, np);
    lemma_read_merged_order(c, idx, ties_left, np);
    lemma_pairs_cover(n, s);
}

impl ZkDbSqlCircuit {
    /// The key of every row of the table, in the sort column.
    pub open spec fn row_keys(self) -> Seq<nat> {
        Seq::new(
            self.table_data@.len(),
            |r: int| self.table_data@[r]@[self.params.sort_column_idx as int]@,
        )
    }
}

proof fn lemma_run_is_order_run(c: ZkDbSqlCircuit, a: nat, b: nat)
    requires
        c.order_names_rows(),
        a <= b <= c.params.num_rows,
    ensures
        c.run(a, b) == order_run(c.row_keys(), c.sorted_indices@, a, b),
{
    assert(c.run(a, b) =~= order_run(c.row_keys(), c.sorted_indices@, a, b));
}

proof fn lemma_merged_order_is_model(c: ZkDbSqlCircuit, idx: nat, ties_left: bool, k: nat)
    requires
        c.order_names_rows(),
        idx < layer_count(c.params.num_rows as nat),
        k <= num_pairs(c.params.num_rows as nat, segment_size(c.params.num_rows as nat, idx)),
    ensures
        c.merged_order(idx, ties_left, k) == order_merged(c.row_keys(), c.sorted_indices@, idx, ties_left, k),
    decreases k,
{
    if k > 0 {
        let n = c.params.num_rows as nat;
        let s = segment_size(n, idx);
        let p = (k - 1) as nat;
        lemma_pow2_pos((layer_count(n) - idx - 1) as nat);
        lemma_merged_order_is_model(c, idx, ties_left, p);
        lemma_pair_fits(n, s, p);
        let start = pair_start(s, p);
        lemma_run_is_order_run(c, start, start + s);
        lemma_run_is_order_run(c, start + s, pair_end(n, s, p));
        assert(c.left_run(idx, p) == order_left(c.row_keys(), c.sorted_indices@, idx, p));
        assert(c.right_run(idx, p) == order_right(c.row_keys(), c.sorted_indices@, idx, p));
    }
}

/// Reading back a witness that carries the merge results of sub-circuit
/// `idx` applies that layer to the order of the rows: the order that
/// `set_serialized_witnesses` installs is `apply_layer` of the current one.
/// Applied from the last sub-circuit to the first, the layers sort the rows
/// (`merge_sort::lemma_layers_sort`).
pub proof fn lemma_set_applies_layer(c: ZkDbSqlCircuit, idx: nat, ties_left: bool)
    requires
        c.order_names_rows(),
        idx < layer_count(c.params.num_rows as nat),
    ensures
        rows_in_range(c.row_keys(), c.sorted_indices@),
        ({
            let n = c.params.num_rows as nat;
            let s = segment_size(n, idx);
            let np = num_pairs(n, s);
            let bytes = c.merged_witness_bytes(idx, ties_left, np);
            &&& bytes.len() == 72 * covered_rows(n, s)
            &&& read_indices(n, s, bytes, np) + c.sorted_indices@.skip(covered_rows(n, s) as int)
                == apply_layer(c.row_keys(), c.sorted_indices@, idx, ties_left)
        }),
{
    let n = c.params.num_rows as nat;
    let s = segment_size(n, idx);
    lemma_set_installs_merged_order(c, idx, ties_left);
    lemma_merged_order_is_model(c, idx, ties_left, num_pairs(n, s));
    assert forall|i: int| 0 <= i < c.sorted_indices@.len() implies #[trigger] c.sorted_indices@[i] < c.row_keys().len() by {
    }
}

} // verus!
