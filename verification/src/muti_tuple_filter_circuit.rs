//! The filter circuit of TPC-H query 1: `l_shipdate <= date` over the
//! `lineitem` table, 64 rows per sub-circuit. Each sub-circuit compares the
//! ship dates of its batch with the bound and hands on the results as one
//! 64-bit mask, bit `i` for the `i`-th row of the batch.

use vstd::prelude::*;
use vstd::arithmetic::power2::*;
use vstd::bits::lemma_u64_shl_is_mul;
use crate::field::{
    field_bytes, fr_modulus, fr_rand, lemma_le_bytes_len, lemma_le_round_trip, lemma_modulus_fits,
    lemma_value_below_modulus, le_bytes, le_value, FieldElement,
};
use rand::rngs::ThreadRng;
use vstd::arithmetic::div_mod::lemma_fundamental_div_mod_converse;
use crate::portal::{decimal, decimal_string, portal_view, PortalEntry, PortalKey};

verus! {

/// Rows per sub-circuit.
pub const BATCH_SIZE: usize = 64;

/// The column of `lineitem` that holds `l_shipdate`.
pub const SHIPDATE_COLUMN: usize = 6;

/// The columns of a `lineitem` row: quantity, extended price, discount, tax,
/// return flag, line status, ship date.
pub const LINEITEM_COLUMNS: usize = 7;

/// The parameters of a filter circuit.
#[derive(Clone, Copy, Debug, PartialEq, Eq, Structural)]
pub struct ZkDbSqlCircuitParams {
    pub num_rows: usize,
}

/// The text that `Display` gives the parameters.
pub open spec fn params_text(num_rows: nat) -> Seq<char> {
    "ZkDbSqlCircuitParams { num_rows: "@ + decimal(num_rows) + " }"@
}

impl ZkDbSqlCircuitParams {
    /// The parameters as `Display` writes them.
    pub fn to_display_string(&self) -> (r: String)
        ensures
            r@ == params_text(self.num_rows as nat),
    {
        let mut text = String::from_str("ZkDbSqlCircuitParams { num_rows: ");
        text.append(decimal_string(self.num_rows).as_str());
        text.append(" }");
        text
    }
}

/// A filter circuit: the `lineitem` rows, the bound on the ship date, and
/// the parameters.
#[derive(Clone)]
pub struct ZkDbSqlCircuit {
    pub lineitem_table: Vec<Vec<FieldElement>>,
    /// The right-hand side of `l_shipdate <= date`.
    pub right_shipdate: FieldElement,
    pub params: ZkDbSqlCircuitParams,
}

/// Number of batches of 64 rows, the last one possibly shorter.
pub open spec fn batch_count(n: nat) -> nat {
    (n + 63) / 64
}

/// First row of batch `b`.
pub open spec fn batch_start(b: nat) -> nat {
    64 * b
}

/// One past the last row of batch `b`.
pub open spec fn batch_end(n: nat, b: nat) -> nat {
    if 64 * b + 64 <= n {
        64 * b + 64
    } else {
        n
    }
}

/// The values of a table, row by row.
pub open spec fn table_view(t: Seq<Vec<FieldElement>>) -> Seq<Seq<nat>> {
    t.map_values(|row: Vec<FieldElement>| row@.map_values(|f: FieldElement| f@))
}

/// The value of the `i`-th encoded field element of `bytes`.
pub open spec fn chunk_value(bytes: Seq<u8>, i: nat) -> nat {
    le_value(bytes.subrange(32 * i as int, 32 * i as int + 32))
}

/// The table after the ship dates of rows `start .. start + count` are
/// replaced by the first `count` elements encoded in `bytes`.
pub open spec fn with_shipdates(t: Seq<Seq<nat>>, start: nat, count: nat, bytes: Seq<u8>) -> Seq<Seq<nat>> {
    Seq::new(
        t.len(),
        |r: int|
            if start <= r < start + count {
                t[r].update(SHIPDATE_COLUMN as int, chunk_value(bytes, (r - start) as nat))
            } else {
                t[r]
            },
    )
}

impl ZkDbSqlCircuit {
    /// Row `r` exists and holds a ship date.
    pub open spec fn row_has_shipdate(self, r: int) -> bool {
        0 <= r < self.lineitem_table@.len() && SHIPDATE_COLUMN < self.lineitem_table@[r]@.len()
    }

    /// Rows `a .. b` exist and hold a ship date.
    pub open spec fn rows_have_shipdate(self, a: nat, b: nat) -> bool {
        forall|r: int| a <= r < b ==> #[trigger] self.row_has_shipdate(r)
    }

    /// Checks `rows_have_shipdate`: whether rows `a .. b` exist and hold a
    /// ship date.
    pub fn check_rows(&self, a: usize, b: usize) -> (r: bool)
        ensures
            r == self.rows_have_shipdate(a as nat, b as nat),
    {
        let mut r: usize = a;
        while r < b
            invariant
                a <= r,
                forall|k: int| a <= k < r ==> #[trigger] self.row_has_shipdate(k),
            decreases b - r,
        {
            if r >= self.lineitem_table.len() || self.lineitem_table[r].len() <= SHIPDATE_COLUMN {
                assert(!self.row_has_shipdate(r as int));
                return false;
            }
            r = r + 1;
        }
        true
    }

    /// The rows of batch `b` exist and hold a ship date.
    pub open spec fn batch_rows_readable(self, b: nat) -> bool {
        self.rows_have_shipdate(batch_start(b), batch_end(self.params.num_rows as nat, b))
    }

    /// Checks `batch_rows_readable`: whether every row of sub-circuit
    /// `subcircuit_idx`'s batch exists and holds a ship date.
    pub fn check_batch_rows(&self, subcircuit_idx: usize) -> (r: bool)
        requires
            subcircuit_idx * 64 + 64 <= usize::MAX,
        ensures
            r == self.batch_rows_readable(subcircuit_idx as nat),
    {
        let start_idx = subcircuit_idx * BATCH_SIZE;
        let end_idx = if start_idx + BATCH_SIZE <= self.params.num_rows {
            start_idx + BATCH_SIZE
        } else {
            self.params.num_rows
        };
        self.check_rows(start_idx, end_idx)
    }

    /// The ship date of row `r`.
    pub open spec fn shipdate(self, r: int) -> nat {
        self.lineitem_table@[r]@[SHIPDATE_COLUMN as int]@
    }

    /// Whether row `r` passes the filter `l_shipdate <= date`.
    pub open spec fn passes(self, r: int) -> bool {
        self.shipdate(r) <= self.right_shipdate@
    }

    /// The encoded ship dates of rows `a .. b`.
    pub open spec fn shipdates_bytes(self, a: nat, b: nat) -> Seq<u8>
        decreases b,
    {
        if b <= a {
            Seq::empty()
        } else {
            self.shipdates_bytes(a, (b - 1) as nat) + le_bytes(self.shipdate(b - 1), field_bytes())
        }
    }

    /// The witness of sub-circuit `b`: the ship dates of its batch, then the
    /// bound.
    pub open spec fn witness_bytes(self, b: nat) -> Seq<u8> {
        self.shipdates_bytes(batch_start(b), batch_end(self.params.num_rows as nat, b))
            + le_bytes(self.right_shipdate@, field_bytes())
    }

    /// The mask of the first `k` rows from `start`: bit `i` is set when row
    /// `start + i` passes the filter.
    pub open spec fn mask_upto(self, start: nat, k: nat) -> nat
        decreases k,
    {
        if k == 0 {
            0
        } else {
            self.mask_upto(start, (k - 1) as nat) + if self.passes(start + k - 1) {
                pow2((k - 1) as nat)
            } else {
                0
            }
        }
    }

    /// The comparison mask of batch `b`.
    pub open spec fn batch_mask(self, b: nat) -> nat {
        let n = self.params.num_rows as nat;
        self.mask_upto(batch_start(b), (batch_end(n, b) - batch_start(b)) as nat)
    }
}

/// The representative of sub-circuit `idx` for `n` rows: `0` for the first,
/// `3` for the one numbered `n - 1`, `1` for the others.
pub open spec fn representative_of(n: nat, idx: nat) -> usize {
    if idx == 0 {
        0
    } else if idx == n - 1 {
        3
    } else {
        1
    }
}

/// The sub-circuits that stand for all others, for `n` rows: the distinct
/// representatives of the sub-circuits `0 .. batch_count(n)`, in increasing
/// order. Only the first sub-circuit stands for itself; every later one is
/// represented by sub-circuit `1`.
pub open spec fn unique_subcircuits(n: nat) -> Seq<usize> {
    if batch_count(n) == 0 {
        seq![]
    } else if batch_count(n) == 1 {
        seq![0usize]
    } else {
        seq![0usize, 1usize]
    }
}

/// Every sub-circuit is represented by one of the unique sub-circuits.
pub proof fn lemma_representative_is_unique(n: nat, idx: nat)
    requires
        idx < batch_count(n),
    ensures
        unique_subcircuits(n).contains(representative_of(n, idx)),
{
    lemma_unique_subcircuits_minimal(n);
}

/// The unique sub-circuits are exactly the representatives of the
/// sub-circuits, each listed once in increasing order, and each standing for
/// itself.
pub proof fn lemma_unique_subcircuits_minimal(n: nat)
    ensures
        forall|j: int, k: int| 0 <= j < k < unique_subcircuits(n).len()
            ==> unique_subcircuits(n)[j] < unique_subcircuits(n)[k],
        forall|j: int| 0 <= j < unique_subcircuits(n).len() ==> {
            &&& unique_subcircuits(n)[j] < batch_count(n)
            &&& representative_of(n, #[trigger] unique_subcircuits(n)[j] as nat) == unique_subcircuits(n)[j]
        },
        forall|u: usize| unique_subcircuits(n).contains(u)
            <==> exists|i: nat| i < batch_count(n) && #[trigger] representative_of(n, i) == u,
{
    let u = unique_subcircuits(n);
    let count = batch_count(n);
    assert forall|i: nat| i < count implies #[trigger] u.contains(representative_of(n, i)) by {
        if i == 0 {
            assert(u[0] == 0);
        } else {
            assert(n >= 65);
            assert(i != n - 1);
            assert(u[1] == 1);
        }
    }
    assert forall|v: usize| u.contains(v) implies exists|i: nat| i < count && #[trigger] representative_of(n, i) == v by {
        let j = choose|j: int| 0 <= j < u.len() && u[j] == v;
        if j == 0 {
            assert(representative_of(n, 0) == v);
        } else {
            assert(n >= 65);
            assert(representative_of(n, 1) == v);
        }
    }
}

impl ZkDbSqlCircuit {
    /// One sub-circuit per batch of 64 rows: `ceil(num_rows / 64)`.
    pub fn num_subcircuits(&self) -> (r: usize)
        ensures
            r == batch_count(self.params.num_rows as nat),
    {
        let n = self.params.num_rows;
        n / BATCH_SIZE + if n % BATCH_SIZE == 0 { 0 } else { 1 }
    }

    /// The sub-circuits whose keys stand for all others: the distinct
    /// representatives of the sub-circuits, in increasing order.
    pub fn get_unique_subcircuits(&self) -> (r: Vec<usize>)
        ensures
            r@ == unique_subcircuits(self.params.num_rows as nat),
            forall|j: int, k: int| 0 <= j < k < r@.len() ==> r@[j] < r@[k],
            forall|j: int| 0 <= j < r@.len() ==> {
                &&& r@[j] < batch_count(self.params.num_rows as nat)
                &&& representative_of(self.params.num_rows as nat, #[trigger] r@[j] as nat) == r@[j]
            },
            forall|u: usize| r@.contains(u) <==> exists|i: nat|
                i < batch_count(self.params.num_rows as nat)
                && #[trigger] representative_of(self.params.num_rows as nat, i) == u,
    {
        proof {
            lemma_unique_subcircuits_minimal(self.params.num_rows as nat);
        }
        let count = self.num_subcircuits();
        if count == 0 {
            Vec::new()
        } else if count == 1 {
            vec![0]
        } else {
            vec![0, 1]
        }
    }

    /// The representative of a sub-circuit: `0` for the first, `3` for the
    /// one numbered `num_rows - 1`, `1` for the others.
    pub fn representative_subcircuit(&self, subcircuit_idx: usize) -> (r: usize)
        requires
            subcircuit_idx == 0 || self.params.num_rows >= 1,
        ensures
            r == representative_of(self.params.num_rows as nat, subcircuit_idx as nat),
    {
        if subcircuit_idx == 0 {
            0
        } else if subcircuit_idx == self.params.num_rows - 1 {
            3
        } else {
            1
        }
    }

    /// The parameters.
    pub fn get_params(&self) -> (r: ZkDbSqlCircuitParams)
        ensures
            r == self.params,
    {
        self.params
    }

    /// The circuit of the given size with placeholder data: every row holds
    /// seven copies of `13`, and the bound is `12`.
    pub fn new(params: &ZkDbSqlCircuitParams) -> (r: Self)
        ensures
            r.params == *params,
            r.right_shipdate@ == 12,
            r.rows_have_shipdate(0, params.num_rows as nat),
            table_view(r.lineitem_table@) == Seq::new(
                params.num_rows as nat,
                |i: int| Seq::new(LINEITEM_COLUMNS as nat, |j: int| 13nat),
            ),
    {
        let thirteen = FieldElement::from_u64(13);
        let right_shipdate = FieldElement::from_u64(12);
        let mut lineitem_table: Vec<Vec<FieldElement>> = Vec::new();
        let mut i: usize = 0;
        while i < params.num_rows
            invariant
                i <= params.num_rows,
                thirteen@ == 13,
                lineitem_table@.len() == i,
                forall|k: int| 0 <= k < i ==> #[trigger] lineitem_table@[k]@.len() == LINEITEM_COLUMNS,
                table_view(lineitem_table@) =~= Seq::new(
                    i as nat,
                    |k: int| Seq::new(LINEITEM_COLUMNS as nat, |j: int| 13nat),
                ),
            decreases params.num_rows - i,
        {
            let mut row: Vec<FieldElement> = Vec::new();
            let mut j: usize = 0;
            while j < LINEITEM_COLUMNS
                invariant
                    j <= LINEITEM_COLUMNS,
                    thirteen@ == 13,
                    row@.len() == j,
                    row@.map_values(|f: FieldElement| f@) =~= Seq::new(j as nat, |k: int| 13nat),
                decreases LINEITEM_COLUMNS - j,
            {
                let ghost before = row@;
                row.push(thirteen);
                assert(row@.map_values(|f: FieldElement| f@)
                    =~= before.map_values(|f: FieldElement| f@).push(thirteen@));
                j = j + 1;
            }
            let ghost before = lineitem_table@;
            lineitem_table.push(row);
            assert(table_view(lineitem_table@) =~= table_view(before).push(row@.map_values(|f: FieldElement| f@)));
            i = i + 1;
        }
        ZkDbSqlCircuit { lineitem_table, right_shipdate, params: *params }
    }

    /// A random circuit for the given parameters, for tests: every entry of
    /// the `lineitem` rows and the bound are drawn from the field.
    pub fn rand(rng: &mut ThreadRng, params: &ZkDbSqlCircuitParams) -> (r: Self)
        ensures
            r.params == *params,
            r.lineitem_table@.len() == params.num_rows,
            forall|i: int| 0 <= i < r.lineitem_table@.len() ==> #[trigger] r.lineitem_table@[i]@.len() == LINEITEM_COLUMNS,
            r.rows_have_shipdate(0, params.num_rows as nat),
    {
        let mut lineitem_table: Vec<Vec<FieldElement>> = Vec::new();
        let mut i: usize = 0;
        while i < params.num_rows
            invariant
                i <= params.num_rows,
                lineitem_table@.len() == i,
                forall|k: int| 0 <= k < i ==> #[trigger] lineitem_table@[k]@.len() == LINEITEM_COLUMNS,
            decreases params.num_rows - i,
        {
            let mut row: Vec<FieldElement> = Vec::new();
            let mut j: usize = 0;
            while j < LINEITEM_COLUMNS
                invariant
                    j <= LINEITEM_COLUMNS,
                    row@.len() == j,
                decreases LINEITEM_COLUMNS - j,
            {
                row.push(fr_rand(rng));
                j = j + 1;
            }
            lineitem_table.push(row);
            i = i + 1;
        }
        let right_shipdate = fr_rand(rng);
        ZkDbSqlCircuit { lineitem_table, right_shipdate, params: *params }
    }

    /// The witness of sub-circuit `subcircuit_idx`: the ship date of each
    /// row of its batch, then the bound, each in its uncompressed encoding.
    pub fn get_serialized_witnesses(&self, subcircuit_idx: usize) -> (r: Vec<u8>)
        requires
            self.batch_rows_readable(subcircuit_idx as nat),
            subcircuit_idx * 64 + 64 <= usize::MAX,
        ensures
            r@ == self.witness_bytes(subcircuit_idx as nat),
    {
        let start_idx = subcircuit_idx * BATCH_SIZE;
        let end_idx = if start_idx + BATCH_SIZE <= self.params.num_rows {
            start_idx + BATCH_SIZE
        } else {
            self.params.num_rows
        };
        let mut out_buf: Vec<u8> = Vec::new();
        let mut i: usize = start_idx;
        while i < end_idx
            invariant
                self.batch_rows_readable(subcircuit_idx as nat),
                start_idx == batch_start(subcircuit_idx as nat),
                end_idx == batch_end(self.params.num_rows as nat, subcircuit_idx as nat),
                end_idx <= self.params.num_rows,
                start_idx <= i,
                i <= end_idx || i == start_idx,
                out_buf@ == self.shipdates_bytes(start_idx as nat, i as nat),
            decreases end_idx - i,
        {
            assert(self.row_has_shipdate(i as int));
            self.lineitem_table[i][SHIPDATE_COLUMN].serialize_uncompressed(&mut out_buf);
            i = i + 1;
        }
        assert(out_buf@ == self.shipdates_bytes(start_idx as nat, end_idx as nat));
        self.right_shipdate.serialize_uncompressed(&mut out_buf);
        out_buf
    }
}

impl ZkDbSqlCircuit {
    /// Whether `bytes` holds, for batch `b`, one canonical field element per
    /// row and one for the bound.
    pub open spec fn witnesses_readable(self, b: nat, bytes: Seq<u8>) -> bool {
        let count = (batch_end(self.params.num_rows as nat, b) - batch_start(b)) as nat;
        &&& bytes.len() >= 32 * (count + 1)
        &&& forall|i: nat| i <= count ==> #[trigger] chunk_value(bytes, i) < fr_modulus()
    }

    /// Reads the witness of sub-circuit `subcircuit_idx`: the ship dates of
    /// its batch, then the bound.
    pub fn set_serialized_witnesses(&mut self, subcircuit_idx: usize, bytes: &[u8])
        requires
            old(self).batch_rows_readable(subcircuit_idx as nat),
            subcircuit_idx * 64 <= old(self).params.num_rows,
            subcircuit_idx * 64 + 64 <= usize::MAX,
            old(self).witnesses_readable(subcircuit_idx as nat, bytes@),
        ensures
            final(self).params == old(self).params,
            final(self).lineitem_table@.len() == old(self).lineitem_table@.len(),
            forall|r: int| 0 <= r < final(self).lineitem_table@.len()
                ==> #[trigger] final(self).lineitem_table@[r]@.len() == old(self).lineitem_table@[r]@.len(),
            ({
                let start = batch_start(subcircuit_idx as nat);
                let count = (batch_end(old(self).params.num_rows as nat, subcircuit_idx as nat) - start) as nat;
                &&& table_view(final(self).lineitem_table@)
                    == with_shipdates(table_view(old(self).lineitem_table@), start, count, bytes@)
                &&& final(self).right_shipdate@ == chunk_value(bytes@, count)
            }),
    {
        let ghost old_table = table_view(self.lineitem_table@);
        let ghost old_rows = self.lineitem_table@;
        let ghost old_params = self.params;
        let field_size = FieldElement::uncompressed_size();
        let start_idx = subcircuit_idx * BATCH_SIZE;
        let end_idx = if start_idx + BATCH_SIZE <= self.params.num_rows {
            start_idx + BATCH_SIZE
        } else {
            self.params.num_rows
        };
        let num_elements = end_idx - start_idx;
        let mut i: usize = 0;
        while i < num_elements
            invariant
                old(self).batch_rows_readable(subcircuit_idx as nat),
                old_rows == old(self).lineitem_table@,
                old_params == old(self).params,
                self.params == old_params,
                self.lineitem_table@.len() == old_rows.len(),
                forall|r: int| 0 <= r < old_rows.len()
                    ==> #[trigger] self.lineitem_table@[r]@.len() == old_rows[r]@.len(),
                field_size == 32,
                start_idx == batch_start(subcircuit_idx as nat),
                end_idx == batch_end(self.params.num_rows as nat, subcircuit_idx as nat),
                end_idx <= self.params.num_rows,
                num_elements == end_idx - start_idx,
                num_elements <= 64,
                i <= num_elements,
                bytes@.len() >= 32 * (num_elements + 1),
                forall|k: nat| k <= num_elements ==> #[trigger] chunk_value(bytes@, k) < fr_modulus(),
                old_table.len() == self.lineitem_table@.len(),
                table_view(self.lineitem_table@) =~= with_shipdates(old_table, start_idx as nat, i as nat, bytes@),
            decreases num_elements - i,
        {
            let offset = i * field_size;
            let chunk = &bytes[offset..(offset + field_size)];
            assert(chunk@.take(32) =~= bytes@.subrange(32 * i as int, 32 * i as int + 32));
            assert(chunk_value(bytes@, i as nat) < fr_modulus());
            let value = FieldElement::deserialize_uncompressed_unchecked(chunk).unwrap();
            let ghost before = table_view(self.lineitem_table@);
            let ghost before_rows = self.lineitem_table@;
            assert(old(self).row_has_shipdate((start_idx + i) as int));
            self.lineitem_table[start_idx + i][SHIPDATE_COLUMN] = value;
            let ghost r = (start_idx + i) as int;
            assert(self.lineitem_table@.len() == before_rows.len());
            assert(self.lineitem_table@[r]@ == before_rows[r]@.update(SHIPDATE_COLUMN as int, value));
            assert(forall|k: int| 0 <= k < before_rows.len() && k != r ==> self.lineitem_table@[k] == before_rows[k]);
            assert(self.lineitem_table@[r]@.map_values(|f: FieldElement| f@)
                =~= before[r].update(SHIPDATE_COLUMN as int, value@));
            assert(table_view(self.lineitem_table@) =~= before.update(
                (start_idx + i) as int,
                before[(start_idx + i) as int].update(SHIPDATE_COLUMN as int, value@),
            ));
            i = i + 1;
        }
        let right_offset = num_elements * field_size;
        let chunk = &bytes[right_offset..(right_offset + field_size)];
        assert(chunk@.take(32) =~= bytes@.subrange(32 * num_elements as int, 32 * num_elements as int + 32));
        assert(chunk_value(bytes@, num_elements as nat) < fr_modulus());
        self.right_shipdate = FieldElement::deserialize_uncompressed_unchecked(chunk).unwrap();
    }
}

/// Setting the next bit above a smaller value adds that bit.
proof fn lemma_or_new_bit(r: u64, i: u64)
    requires
        i < 64,
        r < (1u64 << i),
    ensures
        r | (1u64 << i) == r + (1u64 << i),
{
    assert(r < (1u64 << i) ==> r | (1u64 << i) == r + (1u64 << i)) by (bit_vector)
        requires i < 64;
}

/// The mask of the first `k` rows has only the `k` low bits.
pub proof fn lemma_mask_upto_bound(c: ZkDbSqlCircuit, start: nat, k: nat)
    ensures
        c.mask_upto(start, k) < pow2(k),
    decreases k,
{
    if k == 0 {
        lemma2_to64();
    } else {
        lemma_mask_upto_bound(c, start, (k - 1) as nat);
        lemma_pow2_unfold(k);
    }
}

impl ZkDbSqlCircuit {
    /// The comparison mask of batch `batch_idx`: bit `i` is set when the
    /// ship date of row `64 * batch_idx + i` is at most the bound.
    pub fn batch_comparison_mask(&self, batch_idx: usize) -> (r: u64)
        requires
            self.batch_rows_readable(batch_idx as nat),
            batch_idx * 64 <= self.params.num_rows,
            batch_idx * 64 + 64 <= usize::MAX,
        ensures
            r as nat == self.batch_mask(batch_idx as nat),
    {
        let start_idx = batch_idx * BATCH_SIZE;
        let end_idx = if start_idx + BATCH_SIZE <= self.params.num_rows {
            start_idx + BATCH_SIZE
        } else {
            self.params.num_rows
        };
        let mut comparison_results: u64 = 0;
        let mut i: usize = 0;
        while i < end_idx - start_idx
            invariant
                self.batch_rows_readable(batch_idx as nat),
                start_idx == batch_start(batch_idx as nat),
                end_idx == batch_end(self.params.num_rows as nat, batch_idx as nat),
                start_idx <= end_idx <= self.params.num_rows,
                end_idx - start_idx <= 64,
                i <= end_idx - start_idx,
                comparison_results as nat == self.mask_upto(start_idx as nat, i as nat),
            decreases end_idx - start_idx - i,
        {
            let row_idx = start_idx + i;
            assert(self.row_has_shipdate(row_idx as int));
            let is_less_or_equal = self.lineitem_table[row_idx][SHIPDATE_COLUMN].le(&self.right_shipdate);
            proof {
                lemma_mask_upto_bound(*self, start_idx as nat, i as nat);
                vstd::bits::lemma_u64_pow2_no_overflow(i as nat);
                lemma_u64_shl_is_mul(1, i as u64);
            }
            if is_less_or_equal {
                proof {
                    lemma_or_new_bit(comparison_results, i as u64);
                }
                comparison_results = comparison_results | (1u64 << (i as u64));
            }
            i = i + 1;
        }
        comparison_results
    }

    /// The value that sub-circuit `subcircuit_idx` writes to its portal
    /// when its constraints are generated: the comparison mask of its batch,
    /// under the name `batch_{subcircuit_idx}_cmp_results`.
    pub fn constraint_portal_writes(&self, subcircuit_idx: usize) -> (r: Vec<PortalEntry>)
        requires
            self.batch_rows_readable(subcircuit_idx as nat),
            subcircuit_idx * 64 <= self.params.num_rows,
            subcircuit_idx * 64 + 64 <= usize::MAX,
        ensures
            portal_view(r@) == seq![(PortalKey::BatchMask { batch: subcircuit_idx }, self.batch_mask(subcircuit_idx as nat))],
    {
        let mask = self.batch_comparison_mask(subcircuit_idx);
        let entry = PortalEntry {
            key: PortalKey::BatchMask { batch: subcircuit_idx },
            value: FieldElement::from_u64(mask),
        };
        let mut out: Vec<PortalEntry> = Vec::new();
        out.push(entry);
        assert(portal_view(out@) =~= seq![(PortalKey::BatchMask { batch: subcircuit_idx }, self.batch_mask(subcircuit_idx as nat))]);
        out
    }

    /// The portal trace: one sub-trace per batch, holding the batch's
    /// comparison mask.
    pub fn get_portal_subtraces(&self) -> (r: Vec<Vec<PortalEntry>>)
        requires
            self.rows_have_shipdate(0, self.params.num_rows as nat),
            self.params.num_rows + 63 <= usize::MAX,
        ensures
            r@.len() == batch_count(self.params.num_rows as nat),
            forall|b: int| 0 <= b < r@.len() ==> portal_view(#[trigger] r@[b]@)
                == seq![(PortalKey::BatchMask { batch: b as usize }, self.batch_mask(b as nat))],
    {
        let num_batches = (self.params.num_rows + 63) / BATCH_SIZE;
        let mut subtraces: Vec<Vec<PortalEntry>> = Vec::new();
        let mut batch_idx: usize = 0;
        while batch_idx < num_batches
            invariant
                self.rows_have_shipdate(0, self.params.num_rows as nat),
                self.params.num_rows + 63 <= usize::MAX,
                num_batches == batch_count(self.params.num_rows as nat),
                batch_idx <= num_batches,
                subtraces@.len() == batch_idx,
                forall|b: int| 0 <= b < batch_idx ==> portal_view(#[trigger] subtraces@[b]@)
                    == seq![(PortalKey::BatchMask { batch: b as usize }, self.batch_mask(b as nat))],
            decreases num_batches - batch_idx,
        {
            assert(self.batch_rows_readable(batch_idx as nat)) by {
                assert forall|r: int| batch_start(batch_idx as nat) <= r < batch_end(self.params.num_rows as nat, batch_idx as nat)
                    implies #[trigger] self.row_has_shipdate(r) by {
                    assert(0 <= r < self.params.num_rows);
                }
            }
            let subtrace = self.constraint_portal_writes(batch_idx);
            subtraces.push(subtrace);
            batch_idx = batch_idx + 1;
        }
        subtraces
    }
}

/// Bit `i` of a mask, as a number.
pub open spec fn bit_of(passes: bool) -> nat {
    if passes {
        1
    } else {
        0
    }
}

impl ZkDbSqlCircuit {
    /// The bits of the mask of the first `k` rows above bit `i`, shifted
    /// down by `i + 1`.
    pub open spec fn mask_high(self, start: nat, i: nat, k: nat) -> nat
        decreases k,
    {
        if k <= i + 1 {
            0
        } else {
            self.mask_high(start, i, (k - 1) as nat) + if self.passes(start + k - 1) {
                pow2((k - 2 - i) as nat)
            } else {
                0
            }
        }
    }
}

/// The mask of `k` rows splits at bit `i` into the bits below, bit `i`, and
/// the bits above.
#[verifier::spinoff_prover]
proof fn lemma_mask_split(c: ZkDbSqlCircuit, start: nat, i: nat, k: nat)
    requires
        i < k,
    ensures
        c.mask_upto(start, k) == c.mask_upto(start, i)
            + pow2(i) * (bit_of(c.passes((start + i) as int)) + 2 * c.mask_high(start, i, k)),
    decreases k,
{
    if k == i + 1 {
        assert(c.mask_upto(start, k) == c.mask_upto(start, i) + pow2(i) * bit_of(c.passes((start + i) as int)));
    } else {
        lemma_mask_split(c, start, i, (k - 1) as nat);
        let e = (k - 2 - i) as nat;
        lemma_pow2_adds(i, e);
        lemma_pow2_unfold((k - 1) as nat);
        assert(pow2((k - 1) as nat) == 2 * pow2((k - 2) as nat));
        assert((i + e) as nat == (k - 2) as nat);
        let lo = c.mask_upto(start, i);
        let b = bit_of(c.passes((start + i) as int));
        let h = c.mask_high(start, i, (k - 1) as nat);
        let top = bit_of(c.passes((start + k - 1) as int));
        assert(c.mask_upto(start, k) == c.mask_upto(start, (k - 1) as nat) + top * pow2((k - 1) as nat));
        assert(c.mask_high(start, i, k) == h + top * pow2(e));
        assert(lo + pow2(i) * (b + 2 * h) + top * (2 * (pow2(i) * pow2(e)))
            == lo + pow2(i) * (b + 2 * (h + top * pow2(e)))) by (nonlinear_arith);
    }
}

/// Bit `i` of the comparison mask of a batch is set exactly when row `i` of
/// the batch passes the filter, and the mask has no bits beyond the batch.
pub proof fn lemma_batch_mask_bits(c: ZkDbSqlCircuit, b: nat, i: nat)
    requires
        i < batch_end(c.params.num_rows as nat, b) - batch_start(b),
    ensures
        (c.batch_mask(b) / pow2(i)) % 2 == bit_of(c.passes((batch_start(b) + i) as int)),
        c.batch_mask(b) < pow2((batch_end(c.params.num_rows as nat, b) - batch_start(b)) as nat),
{
    let start = batch_start(b);
    let k = (batch_end(c.params.num_rows as nat, b) - start) as nat;
    lemma_mask_upto_bound(c, start, k);
    lemma_mask_upto_bound(c, start, i);
    lemma_mask_split(c, start, i, k);
    lemma_pow2_pos(i);
    let q = bit_of(c.passes((start + i) as int)) + 2 * c.mask_high(start, i, k);
    lemma_fundamental_div_mod_converse(c.batch_mask(b) as int, pow2(i) as int, q as int, c.mask_upto(start, i) as int);
    lemma_fundamental_div_mod_converse(q as int, 2, c.mask_high(start, i, k) as int, bit_of(c.passes((start + i) as int)) as int);
}

/// Bit `i` of the comparison mask of batch `b` is set exactly when the
/// ship date of row `64 * b + i`, as an element of the field (its canonical
/// value in `0 .. p`), is at most the bound; the mask has no bit at or above
/// the batch's length, and every bit is `0` or `1`.
pub proof fn lemma_batch_mask_compares_values(c: ZkDbSqlCircuit, b: nat, i: nat)
    requires
        i < batch_end(c.params.num_rows as nat, b) - batch_start(b),
    ensures
        ({
            let date = c.lineitem_table@[(64 * b + i) as int]@[SHIPDATE_COLUMN as int];
            &&& (c.batch_mask(b) / pow2(i)) % 2 == 1 <==> date@ <= c.right_shipdate@
            &&& (c.batch_mask(b) / pow2(i)) % 2 == 0 <==> !(date@ <= c.right_shipdate@)
        }),
        c.batch_mask(b) < pow2((batch_end(c.params.num_rows as nat, b) - batch_start(b)) as nat),
{
    lemma_batch_mask_bits(c, b, i);
    assert(c.shipdate((batch_start(b) + i) as int) == c.lineitem_table@[(64 * b + i) as int]@[SHIPDATE_COLUMN as int]@);
}

/// The encoded ship dates of rows `start .. start + k` take 32 bytes each,
/// the `j`-th chunk being the `j`-th date.
proof fn lemma_shipdates_bytes_chunks(c: ZkDbSqlCircuit, start: nat, k: nat)
    ensures
        c.shipdates_bytes(start, start + k).len() == 32 * k,
        forall|j: nat| j < k ==> #[trigger] c.shipdates_bytes(start, start + k).subrange(32 * j as int, 32 * j as int + 32)
            == le_bytes(c.shipdate((start + j) as int), 32),
    decreases k,
{
    if k > 0 {
        let m = (k - 1) as nat;
        lemma_shipdates_bytes_chunks(c, start, m);
        lemma_le_bytes_len(c.shipdate((start + m) as int), 32);
        let prev = c.shipdates_bytes(start, start + m);
        let last = le_bytes(c.shipdate((start + m) as int), 32);
        assert(c.shipdates_bytes(start, start + k) == prev + last);
        assert forall|j: nat| j < k implies #[trigger] c.shipdates_bytes(start, start + k).subrange(32 * j as int, 32 * j as int + 32)
            == le_bytes(c.shipdate((start + j) as int), 32) by {
            if j < m {
                assert((prev + last).subrange(32 * j as int, 32 * j as int + 32)
                    =~= prev.subrange(32 * j as int, 32 * j as int + 32));
            } else {
                assert((prev + last).subrange(32 * j as int, 32 * j as int + 32) =~= last);
            }
        }
    }
}

/// The witness of batch `b` holds, chunk by chunk, the ship dates of the
/// batch and then the bound, each read back as it was.
proof fn lemma_witness_chunks(c: ZkDbSqlCircuit, b: nat)
    requires
        c.batch_rows_readable(b),
        batch_start(b) <= c.params.num_rows,
    ensures
        ({
            let start = batch_start(b);
            let count = (batch_end(c.params.num_rows as nat, b) - start) as nat;
            &&& c.witness_bytes(b).len() == 32 * (count + 1)
            &&& forall|j: nat| j < count ==> #[trigger] chunk_value(c.witness_bytes(b), j) == c.shipdate((start + j) as int)
            &&& chunk_value(c.witness_bytes(b), count) == c.right_shipdate@
        }),
{
    let n = c.params.num_rows as nat;
    let start = batch_start(b);
    let count = (batch_end(n, b) - start) as nat;
    let w = c.witness_bytes(b);
    let dates = c.shipdates_bytes(start, start + count);
    let rhs = le_bytes(c.right_shipdate@, 32);
    lemma_shipdates_bytes_chunks(c, start, count);
    lemma_le_bytes_len(c.right_shipdate@, 32);
    lemma_modulus_fits();
    lemma_value_below_modulus(c.right_shipdate);
    assert(w == dates + rhs);
    assert(8 * 32nat == 256) by (nonlinear_arith);
    assert forall|j: nat| j < count implies #[trigger] chunk_value(w, j) == c.shipdate((start + j) as int) by {
        let r = (start + j) as int;
        assert(w.subrange(32 * j as int, 32 * j as int + 32) =~= dates.subrange(32 * j as int, 32 * j as int + 32));
        assert(c.row_has_shipdate(r));
        lemma_value_below_modulus(c.lineitem_table@[r]@[SHIPDATE_COLUMN as int]);
        lemma_le_round_trip(c.shipdate(r), 32);
    }
    assert(w.subrange(32 * count as int, 32 * count as int + 32) =~= rhs);
    lemma_le_round_trip(c.right_shipdate@, 32);
}

/// Two circuits that agree on the ship dates of a batch and on the bound
/// give the same witness for that batch.
proof fn lemma_witness_depends_on_batch(a: ZkDbSqlCircuit, c: ZkDbSqlCircuit, b: nat, k: nat)
    requires
        a.params == c.params,
        k <= batch_end(a.params.num_rows as nat, b) - batch_start(b),
        forall|r: int| batch_start(b) <= r < batch_start(b) + k ==> #[trigger] a.shipdate(r) == c.shipdate(r),
    ensures
        a.shipdates_bytes(batch_start(b), batch_start(b) + k) == c.shipdates_bytes(batch_start(b), batch_start(b) + k),
    decreases k,
{
    if k > 0 {
        lemma_witness_depends_on_batch(a, c, b, (k - 1) as nat);
        assert(a.shipdate((batch_start(b) + k - 1) as int) == c.shipdate((batch_start(b) + k - 1) as int));
    }
}

/// Reading back the witness of a batch changes nothing: the bytes that
/// `get_serialized_witnesses` gives meet what `set_serialized_witnesses`
/// asks, and putting them back leaves the table and the bound as they were.
pub proof fn lemma_witness_round_trip(c: ZkDbSqlCircuit, b: nat)
    requires
        c.batch_rows_readable(b),
        batch_start(b) <= c.params.num_rows,
    ensures
        c.witnesses_readable(b, c.witness_bytes(b)),
        ({
            let start = batch_start(b);
            let count = (batch_end(c.params.num_rows as nat, b) - start) as nat;
            &&& with_shipdates(table_view(c.lineitem_table@), start, count, c.witness_bytes(b))
                == table_view(c.lineitem_table@)
            &&& chunk_value(c.witness_bytes(b), count) == c.right_shipdate@
        }),
{
    let n = c.params.num_rows as nat;
    let start = batch_start(b);
    let count = (batch_end(n, b) - start) as nat;
    let w = c.witness_bytes(b);
    lemma_witness_chunks(c, b);
    lemma_value_below_modulus(c.right_shipdate);
    assert forall|j: nat| j <= count implies #[trigger] chunk_value(w, j) < fr_modulus() by {
        if j < count {
            let r = (start + j) as int;
            assert(chunk_value(w, j) == c.shipdate(r));
            assert(c.row_has_shipdate(r));
            lemma_value_below_modulus(c.lineitem_table@[r]@[SHIPDATE_COLUMN as int]);
        }
    }
    let t = table_view(c.lineitem_table@);
    assert(with_shipdates(t, start, count, w) =~= t) by {
        assert forall|r: int| 0 <= r < t.len() implies #[trigger] with_shipdates(t, start, count, w)[r] == t[r] by {
            if start <= r < start + count {
                let j = (r - start) as nat;
                assert(chunk_value(w, j) == c.shipdate((start + j) as int));
                assert(c.row_has_shipdate(r));
                assert(t[r].update(SHIPDATE_COLUMN as int, chunk_value(w, j)) =~= t[r]);
            }
        }
    }
}

/// Handing the witness of a batch from one circuit to another of the same
/// size: the bytes that `a` gives meet what `set_serialized_witnesses` asks
/// of `c`, and a circuit `d` that `set_serialized_witnesses` leaves from `c`
/// holds `a`'s ship dates for the batch and `a`'s bound, and so gives the
/// same witness as `a`.
pub proof fn lemma_witness_transfer(a: ZkDbSqlCircuit, c: ZkDbSqlCircuit, d: ZkDbSqlCircuit, b: nat)
    requires
        a.params == c.params,
        a.batch_rows_readable(b),
        c.batch_rows_readable(b),
        batch_start(b) <= a.params.num_rows,
        d.params == c.params,
        d.lineitem_table@.len() == c.lineitem_table@.len(),
        forall|r: int| 0 <= r < d.lineitem_table@.len()
            ==> #[trigger] d.lineitem_table@[r]@.len() == c.lineitem_table@[r]@.len(),
        ({
            let start = batch_start(b);
            let count = (batch_end(c.params.num_rows as nat, b) - start) as nat;
            &&& table_view(d.lineitem_table@)
                == with_shipdates(table_view(c.lineitem_table@), start, count, a.witness_bytes(b))
            &&& d.right_shipdate@ == chunk_value(a.witness_bytes(b), count)
        }),
    ensures
        c.witnesses_readable(b, a.witness_bytes(b)),
        forall|r: int| batch_start(b) <= r < batch_end(a.params.num_rows as nat, b)
            ==> #[trigger] d.shipdate(r) == a.shipdate(r),
        d.right_shipdate@ == a.right_shipdate@,
        d.witness_bytes(b) == a.witness_bytes(b),
{
    let n = a.params.num_rows as nat;
    let start = batch_start(b);
    let count = (batch_end(n, b) - start) as nat;
    let w = a.witness_bytes(b);
    lemma_witness_round_trip(a, b);
    lemma_witness_chunks(a, b);
    let tc = table_view(c.lineitem_table@);
    let td = table_view(d.lineitem_table@);
    assert forall|r: int| start <= r < start + count implies #[trigger] d.shipdate(r) == a.shipdate(r) by {
        let j = (r - start) as nat;
        assert(c.row_has_shipdate(r));
        assert(SHIPDATE_COLUMN < d.lineitem_table@[r]@.len());
        assert(td[r] == tc[r].update(SHIPDATE_COLUMN as int, chunk_value(w, j)));
        assert(chunk_value(w, j) == a.shipdate((start + j) as int));
        assert(td[r][SHIPDATE_COLUMN as int] == d.shipdate(r));
    }
    lemma_witness_depends_on_batch(d, a, b, count);
}

} // verus!
