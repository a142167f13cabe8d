//! What the layers of the sort circuit do to an order of rows when each
//! layer's merge results are installed before the next layer runs, from the
//! layer of single positions up to the layer of the largest segments: the
//! rows end up sorted by key.

use vstd::prelude::*;
use vstd::arithmetic::power2::*;
use vstd::arithmetic::div_mod::lemma_fundamental_div_mod;
use crate::merge::{
    entries_consistent, lemma_merge_consistent, lemma_merge_rows_permutation, lemma_merge_sorted, merge,
    merged_rows, sorted_by_key,
};
use crate::test_circuit::{
    covered_rows, layer_count, lemma_ceil_div, lemma_layer_count_is_ceil_log2, lemma_pair_fits, lemma_pair_offsets,
    lemma_pairs_cover, min_nat,
    num_pairs, num_segments, pair_end, pair_start, rows_before, segment_size,
};

verus! {

broadcast use vstd::seq_lib::group_seq_properties;

/// The entries at positions `a .. b` of an order of rows: each row with its
/// key.
pub open spec fn order_run(keys: Seq<nat>, order: Seq<usize>, a: nat, b: nat) -> Seq<(nat, usize)> {
    Seq::new((b - a) as nat, |i: int| (keys[order[a + i] as int], order[a + i]))
}

/// Every position names a row that has a key.
pub open spec fn rows_in_range(keys: Seq<nat>, order: Seq<usize>) -> bool {
    forall|i: int| 0 <= i < order.len() ==> #[trigger] order[i] < keys.len()
}

/// The left segment of pair `p` of layer `idx`.
pub open spec fn order_left(keys: Seq<nat>, order: Seq<usize>, idx: nat, p: nat) -> Seq<(nat, usize)> {
    let s = segment_size(order.len(), idx);
    order_run(keys, order, pair_start(s, p), pair_start(s, p) + s)
}

/// The right segment of pair `p` of layer `idx`.
pub open spec fn order_right(keys: Seq<nat>, order: Seq<usize>, idx: nat, p: nat) -> Seq<(nat, usize)> {
    let n = order.len();
    let s = segment_size(n, idx);
    order_run(keys, order, pair_start(s, p) + s, pair_end(n, s, p))
}

/// The merge of pair `p` of layer `idx`.
pub open spec fn order_pair_merge(keys: Seq<nat>, order: Seq<usize>, idx: nat, p: nat, ties_left: bool) -> Seq<(nat, usize)> {
    merge(order_left(keys, order, idx, p), order_right(keys, order, idx, p), ties_left)
}

/// The rows of the merges of the pairs before `k` of layer `idx`.
pub open spec fn order_merged(keys: Seq<nat>, order: Seq<usize>, idx: nat, ties_left: bool, k: nat) -> Seq<usize>
    decreases k,
{
    if k == 0 {
        Seq::empty()
    } else {
        order_merged(keys, order, idx, ties_left, (k - 1) as nat)
            + merged_rows(order_pair_merge(keys, order, idx, (k - 1) as nat, ties_left))
    }
}

/// The order after layer `idx` has merged its pairs: the merged rows on the
/// positions of the pairs, the other positions as they were.
pub open spec fn apply_layer(keys: Seq<nat>, order: Seq<usize>, idx: nat, ties_left: bool) -> Seq<usize> {
    let n = order.len();
    let s = segment_size(n, idx);
    order_merged(keys, order, idx, ties_left, num_pairs(n, s)) + order.skip(covered_rows(n, s) as int)
}

/// The order after the last `j` layers (those of the smallest segments)
/// have been applied, smallest segments first.
pub open spec fn sort_layers(keys: Seq<nat>, order: Seq<usize>, j: nat, ties_left: bool) -> Seq<usize>
    decreases j,
{
    if j == 0 {
        order
    } else {
        apply_layer(
            keys,
            sort_layers(keys, order, (j - 1) as nat, ties_left),
            (layer_count(order.len()) - j) as nat,
            ties_left,
        )
    }
}

/// Block `b` of width `w`: positions `w * b .. min(w * b + w, n)`.
pub open spec fn block(keys: Seq<nat>, order: Seq<usize>, w: nat, b: nat) -> Seq<(nat, usize)> {
    order_run(keys, order, w * b, min_nat(w * b + w, order.len()))
}

/// Every block of width `w` is sorted by key.
pub open spec fn blocks_sorted(keys: Seq<nat>, order: Seq<usize>, w: nat) -> bool {
    forall|b: nat| w * b < order.len() ==> sorted_by_key(#[trigger] block(keys, order, w, b))
}

proof fn lemma_order_run_facts(keys: Seq<nat>, order: Seq<usize>, a: nat, b: nat)
    requires
        rows_in_range(keys, order),
        a <= b <= order.len(),
    ensures
        entries_consistent(order_run(keys, order, a, b), keys),
        merged_rows(order_run(keys, order, a, b)) == order.subrange(a as int, b as int),
{
    let r = order_run(keys, order, a, b);
    assert forall|i: int| 0 <= i < r.len() implies (#[trigger] r[i]).1 < keys.len() && r[i].0 == keys[r[i].1 as int] by {
        assert(order[a + i] < keys.len());
    }
    assert(merged_rows(r) =~= order.subrange(a as int, b as int));
}

proof fn lemma_order_merged_prefix(keys: Seq<nat>, order: Seq<usize>, idx: nat, ties_left: bool, j: nat, k: nat)
    requires
        j <= k,
    ensures
        order_merged(keys, order, idx, ties_left, j).len() <= order_merged(keys, order, idx, ties_left, k).len(),
        order_merged(keys, order, idx, ties_left, k).take(order_merged(keys, order, idx, ties_left, j).len() as int)
            == order_merged(keys, order, idx, ties_left, j),
    decreases k,
{
    let mk = order_merged(keys, order, idx, ties_left, k);
    let mj = order_merged(keys, order, idx, ties_left, j);
    if j < k {
        lemma_order_merged_prefix(keys, order, idx, ties_left, j, (k - 1) as nat);
        let prev = order_merged(keys, order, idx, ties_left, (k - 1) as nat);
        assert(mk.take(prev.len() as int) =~= prev);
        assert(mk.take(mj.len() as int) =~= prev.take(mj.len() as int));
    } else {
        assert(mk.take(mk.len() as int) =~= mk);
    }
}

/// Facts on the merged rows of the pairs before `k`.
proof fn lemma_order_merged_facts(keys: Seq<nat>, order: Seq<usize>, idx: nat, ties_left: bool, k: nat)
    requires
        rows_in_range(keys, order),
        idx < layer_count(order.len()),
        k <= num_pairs(order.len(), segment_size(order.len(), idx)),
    ensures
        ({
            let n = order.len();
            let s = segment_size(n, idx);
            let m = order_merged(keys, order, idx, ties_left, k);
            &&& m.len() == rows_before(n, s, k)
            &&& rows_before(n, s, k) <= n
            &&& forall|x: int| 0 <= x < m.len() ==> #[trigger] m[x] < keys.len()
            &&& m.to_multiset() == order.take(rows_before(n, s, k) as int).to_multiset()
        }),
    decreases k,
{
    broadcast use vstd::multiset::group_multiset_axioms, vstd::seq_lib::lemma_multiset_commutative;

    let n = order.len();
    let s = segment_size(n, idx);
    lemma_pow2_pos((layer_count(n) - idx - 1) as nat);
    if k == 0 {
        assert(order.take(0) =~= Seq::<usize>::empty());
    } else {
        let p = (k - 1) as nat;
        lemma_order_merged_facts(keys, order, idx, ties_left, p);
        lemma_pair_fits(n, s, p);
        lemma_pair_offsets(n, s, p);
        let start = pair_start(s, p);
        let end = pair_end(n, s, p);
        let left = order_left(keys, order, idx, p);
        let right = order_right(keys, order, idx, p);
        let pm = order_pair_merge(keys, order, idx, p, ties_left);
        lemma_order_run_facts(keys, order, start, start + s);
        lemma_order_run_facts(keys, order, start + s, end);
        lemma_merge_consistent(left, right, ties_left, keys);
        lemma_merge_rows_permutation(left, right, ties_left);
        crate::merge::lemma_merge_permutation(left, right, ties_left);
        let prev = order_merged(keys, order, idx, ties_left, p);
        let m = order_merged(keys, order, idx, ties_left, k);
        let mr = merged_rows(pm);
        assert(m == prev + mr);
        assert forall|x: int| 0 <= x < m.len() implies #[trigger] m[x] < keys.len() by {
            if x >= prev.len() {
                assert(m[x] == pm[x - prev.len()].1);
            }
        }
        let a = start as int;
        let mid = (start + s) as int;
        let e = end as int;
        assert(order.take(e) =~= order.take(a) + order.subrange(a, mid) + order.subrange(mid, e));
        assert((order.take(a) + order.subrange(a, mid)) + order.subrange(mid, e)
            =~= order.take(a) + (order.subrange(a, mid) + order.subrange(mid, e)));
        vstd::seq_lib::lemma_multiset_commutative(order.subrange(a, mid), order.subrange(mid, e));
        vstd::seq_lib::lemma_multiset_commutative(order.take(a), order.subrange(a, mid) + order.subrange(mid, e));
        vstd::seq_lib::lemma_multiset_commutative(prev, mr);
        assert(m.to_multiset() =~= order.take(end as int).to_multiset());
    }
}

/// Applying a layer keeps the rows: same length, same rows with their
/// multiplicities, and the positions past the pairs unchanged.
proof fn lemma_apply_layer_facts(keys: Seq<nat>, order: Seq<usize>, idx: nat, ties_left: bool)
    requires
        rows_in_range(keys, order),
        idx < layer_count(order.len()),
    ensures
        ({
            let n = order.len();
            let s = segment_size(n, idx);
            let new = apply_layer(keys, order, idx, ties_left);
            &&& new.len() == n
            &&& rows_in_range(keys, new)
            &&& new.to_multiset() == order.to_multiset()
            &&& forall|pos: int| covered_rows(n, s) <= pos < n ==> #[trigger] new[pos] == order[pos]
        }),
{
    broadcast use vstd::multiset::group_multiset_axioms, vstd::seq_lib::lemma_multiset_commutative;

    let n = order.len();
    let s = segment_size(n, idx);
    let np = num_pairs(n, s);
    lemma_pow2_pos((layer_count(n) - idx - 1) as nat);
    lemma_order_merged_facts(keys, order, idx, ties_left, np);
    lemma_pairs_cover(n, s);
    let c = covered_rows(n, s);
    assert(rows_before(n, s, np) == c);
    let m = order_merged(keys, order, idx, ties_left, np);
    let new = apply_layer(keys, order, idx, ties_left);
    assert(new == m + order.skip(c as int));
    assert forall|i: int| 0 <= i < new.len() implies #[trigger] new[i] < keys.len() by {
        if i >= m.len() {
            assert(new[i] == order[i]);
        }
    }
    assert(order =~= order.take(c as int) + order.skip(c as int));
    vstd::seq_lib::lemma_multiset_commutative(order.take(c as int), order.skip(c as int));
    vstd::seq_lib::lemma_multiset_commutative(m, order.skip(c as int));
}

/// After a layer is applied, the positions of each pair hold that pair's
/// merge, each row with its key.
proof fn lemma_apply_layer_pair(keys: Seq<nat>, order: Seq<usize>, idx: nat, ties_left: bool, p: nat)
    requires
        rows_in_range(keys, order),
        idx < layer_count(order.len()),
        p < num_pairs(order.len(), segment_size(order.len(), idx)),
    ensures
        ({
            let n = order.len();
            let s = segment_size(n, idx);
            order_run(keys, apply_layer(keys, order, idx, ties_left), pair_start(s, p), pair_end(n, s, p))
                == order_pair_merge(keys, order, idx, p, ties_left)
        }),
{
    let n = order.len();
    let s = segment_size(n, idx);
    let np = num_pairs(n, s);
    lemma_pow2_pos((layer_count(n) - idx - 1) as nat);
    lemma_pair_fits(n, s, p);
    lemma_pair_offsets(n, s, p);
    let start = pair_start(s, p);
    let end = pair_end(n, s, p);
    lemma_order_merged_facts(keys, order, idx, ties_left, p);
    lemma_order_merged_facts(keys, order, idx, ties_left, p + 1);
    lemma_order_merged_facts(keys, order, idx, ties_left, np);
    lemma_order_merged_prefix(keys, order, idx, ties_left, p + 1, np);
    let left = order_left(keys, order, idx, p);
    let right = order_right(keys, order, idx, p);
    let pm = order_pair_merge(keys, order, idx, p, ties_left);
    lemma_order_run_facts(keys, order, start, start + s);
    lemma_order_run_facts(keys, order, start + s, end);
    lemma_merge_consistent(left, right, ties_left, keys);
    crate::merge::lemma_merge_permutation(left, right, ties_left);
    let prev = order_merged(keys, order, idx, ties_left, p);
    let upto = order_merged(keys, order, idx, ties_left, p + 1);
    let all = order_merged(keys, order, idx, ties_left, np);
    let new = apply_layer(keys, order, idx, ties_left);
    assert(upto == prev + merged_rows(pm));
    assert(rows_before(n, s, p + 1) == end);
    assert(rows_before(n, s, p) == start);
    assert(new == all + order.skip(covered_rows(n, s) as int));
    let run = order_run(keys, new, start, end);
    assert forall|i: int| 0 <= i < run.len() implies #[trigger] run[i] == pm[i] by {
        assert(all.take(upto.len() as int)[start + i] == upto[start + i]);
        assert(new[start + i] == all[start + i]);
        assert(upto[start + i] == pm[i].1);
    }
    assert(run =~= pm);
}

/// The segments of size `s` cover `n` positions: `n <= num_segments * s`.
proof fn lemma_segments_cover(n: nat, s: nat)
    requires
        s >= 1,
    ensures
        n <= num_segments(n, s) * s,
{
    lemma_ceil_div(n, s);
    lemma_fundamental_div_mod(n as int, s as int);
    let q = n / s;
    let r = n % s;
    let ns = num_segments(n, s);
    assert(n <= ns * s) by (nonlinear_arith)
        requires n == s * q + r, 0 <= r < s, ns == q + (if r == 0 { 0nat } else { 1nat });
}

/// A layer with segments of size `s` turns sorted blocks of width `s` into
/// sorted blocks of width `2 * s`.
proof fn lemma_apply_layer_sorts(keys: Seq<nat>, order: Seq<usize>, idx: nat, ties_left: bool)
    requires
        rows_in_range(keys, order),
        idx < layer_count(order.len()),
        blocks_sorted(keys, order, segment_size(order.len(), idx)),
    ensures
        blocks_sorted(keys, apply_layer(keys, order, idx, ties_left), 2 * segment_size(order.len(), idx)),
{
    let n = order.len();
    let s = segment_size(n, idx);
    let np = num_pairs(n, s);
    let ns = num_segments(n, s);
    let new = apply_layer(keys, order, idx, ties_left);
    lemma_pow2_pos((layer_count(n) - idx - 1) as nat);
    lemma_apply_layer_facts(keys, order, idx, ties_left);
    lemma_segments_cover(n, s);
    assert forall|b: nat| (2 * s) * b < new.len() implies sorted_by_key(#[trigger] block(keys, new, 2 * s, b)) by {
        if b < np {
            let p = b;
            lemma_pair_fits(n, s, p);
            lemma_apply_layer_pair(keys, order, idx, ties_left, p);
            assert((2 * s) * b == 2 * p * s) by (nonlinear_arith)
                requires p == b;
            assert(s * (2 * p) == 2 * p * s) by (nonlinear_arith);
            assert(s * (2 * p + 1) == 2 * p * s + s) by (nonlinear_arith);
            let bl = block(keys, order, s, 2 * p);
            let br = block(keys, order, s, 2 * p + 1);
            assert(s * (2 * p) < n);
            assert(s * (2 * p + 1) < n);
            assert(sorted_by_key(bl));
            assert(sorted_by_key(br));
            assert(bl == order_left(keys, order, idx, p));
            assert(br == order_right(keys, order, idx, p));
            lemma_merge_sorted(order_left(keys, order, idx, p), order_right(keys, order, idx, p), ties_left);
        } else if b == np {
            let c = 2 * np * s;
            assert((2 * s) * b == c) by (nonlinear_arith)
                requires b == np, c == 2 * np * s;
            assert(ns == 2 * np + 1) by {
                if ns <= 2 * np {
                    assert(ns * s <= 2 * np * s) by (nonlinear_arith)
                        requires ns <= 2 * np;
                }
            }
            assert(n <= c + s) by (nonlinear_arith)
                requires n <= ns * s, ns == 2 * np + 1, c == 2 * np * s;
            assert(covered_rows(n, s) == c);
            assert(s * (2 * np) == c) by (nonlinear_arith)
                requires c == 2 * np * s;
            let old_block = block(keys, order, s, 2 * np);
            assert(sorted_by_key(old_block));
            let new_block = block(keys, new, 2 * s, b);
            assert forall|i: int| 0 <= i < new_block.len() implies #[trigger] new_block[i] == old_block[i] by {
                assert(new[c + i] == order[c + i]);
            }
            assert(new_block =~= old_block);
        } else {
            assert(ns <= 2 * np + 1);
            assert((2 * s) * b >= n) by (nonlinear_arith)
                requires b >= np + 1, n <= ns * s, ns <= 2 * np + 1, s >= 1;
        }
    }
}

proof fn lemma_sort_layers_inv(keys: Seq<nat>, order: Seq<usize>, j: nat, ties_left: bool)
    requires
        rows_in_range(keys, order),
        j <= layer_count(order.len()),
    ensures
        ({
            let out = sort_layers(keys, order, j, ties_left);
            &&& out.len() == order.len()
            &&& rows_in_range(keys, out)
            &&& out.to_multiset() == order.to_multiset()
            &&& blocks_sorted(keys, out, pow2(j))
        }),
    decreases j,
{
    if j == 0 {
        lemma2_to64();
        assert forall|b: nat| 1 * b < order.len() implies sorted_by_key(#[trigger] block(keys, order, 1, b)) by {
            assert(block(keys, order, 1, b).len() <= 1);
        }
    } else {
        let n = order.len();
        let prev = sort_layers(keys, order, (j - 1) as nat, ties_left);
        lemma_sort_layers_inv(keys, order, (j - 1) as nat, ties_left);
        let idx = (layer_count(n) - j) as nat;
        assert(segment_size(prev.len(), idx) == pow2((j - 1) as nat));
        lemma_apply_layer_facts(keys, prev, idx, ties_left);
        lemma_apply_layer_sorts(keys, prev, idx, ties_left);
        lemma_pow2_unfold(j);
    }
}

/// Applying all layers of the sort circuit, from the layer of single
/// positions to the layer of the largest segments, each installing its
/// merges before the next runs, sorts the rows by key and keeps every row:
/// the result is a permutation of the order it started from, sorted by key,
/// whichever way ties go.
pub proof fn lemma_layers_sort(keys: Seq<nat>, order: Seq<usize>, ties_left: bool)
    requires
        rows_in_range(keys, order),
    ensures
        ({
            let out = sort_layers(keys, order, layer_count(order.len()), ties_left);
            &&& out.len() == order.len()
            &&& out.to_multiset() == order.to_multiset()
            &&& sorted_by_key(order_run(keys, out, 0, order.len()))
        }),
{
    let n = order.len();
    let l = layer_count(n);
    let out = sort_layers(keys, order, l, ties_left);
    lemma_sort_layers_inv(keys, order, l, ties_left);
    if n >= 1 {
        lemma_layer_count_is_ceil_log2(n);
        let w = pow2(l);
        assert(w * 0 == 0);
        assert(sorted_by_key(block(keys, out, w, 0)));
        assert(block(keys, out, w, 0) == order_run(keys, out, 0, n));
    } else {
        assert(order_run(keys, out, 0, n).len() == 0);
    }
}

} // verus!
