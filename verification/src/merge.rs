//! Merging two runs of `(key, row index)` entries, the step that every layer
//! of the sort circuit performs on each pair of segments.

use vstd::prelude::*;
use crate::field::FieldElement;
use vstd::multiset::Multiset;

verus! {

broadcast use vstd::seq_lib::group_seq_properties, vstd::seq_lib::group_to_multiset_ensures;

/// An entry of a run: the sort key and the row it comes from.
pub type Entry = (FieldElement, usize);

/// The mathematical view of an entry: the key's canonical value and the row.
pub open spec fn entry_view(e: Entry) -> (nat, usize) {
    (e.0@, e.1)
}

/// The mathematical view of a run.
pub open spec fn run_view(s: Seq<Entry>) -> Seq<(nat, usize)> {
    s.map_values(|e: Entry| entry_view(e))
}

/// Whether the merge takes the head of the left run when the heads have keys
/// `a` (left) and `b` (right). With `ties_left` equal keys go left first;
/// without it, only a strictly smaller left key goes first.
pub open spec fn takes_left(a: nat, b: nat, ties_left: bool) -> bool {
    if ties_left {
        a <= b
    } else {
        a < b
    }
}

/// The merge of two runs: repeatedly move the smaller head to the output,
/// then append what remains.
pub open spec fn merge(l: Seq<(nat, usize)>, r: Seq<(nat, usize)>, ties_left: bool) -> Seq<(nat, usize)>
    decreases l.len() + r.len(),
{
    if l.len() == 0 {
        r
    } else if r.len() == 0 {
        l
    } else if takes_left(l[0].0, r[0].0, ties_left) {
        seq![l[0]] + merge(l.drop_first(), r, ties_left)
    } else {
        seq![r[0]] + merge(l, r.drop_first(), ties_left)
    }
}

/// A run whose keys never decrease.
pub open spec fn sorted_by_key(s: Seq<(nat, usize)>) -> bool {
    forall|i: int, j: int| 0 <= i <= j < s.len() ==> s[i].0 <= s[j].0
}

/// Every key of the run is at least `k`.
pub open spec fn keys_at_least(s: Seq<(nat, usize)>, k: nat) -> bool {
    forall|i: int| 0 <= i < s.len() ==> s[i].0 >= k
}

/// Two runs share no key.
pub open spec fn keys_disjoint(l: Seq<(nat, usize)>, r: Seq<(nat, usize)>) -> bool {
    forall|i: int, j: int| 0 <= i < l.len() && 0 <= j < r.len() ==> l[i].0 != r[j].0
}

/// Merges the runs `left` and `right` of entries. With `ties_left`, an entry
/// of `left` goes before an entry of `right` with the same key (the merge of
/// the portal trace); without it, it goes after (the merge of the circuit,
/// which compares with a strict `<`).
pub fn merge_runs(left: &Vec<Entry>, right: &Vec<Entry>, ties_left: bool) -> (r: Vec<Entry>)
    ensures
        run_view(r@) == merge(run_view(left@), run_view(right@), ties_left),
{
    let ghost lv = run_view(left@);
    let ghost rv = run_view(right@);
    let mut merged: Vec<Entry> = Vec::new();
    let mut i: usize = 0;
    let mut j: usize = 0;
    while i < left.len() && j < right.len()
        invariant
            lv == run_view(left@),
            rv == run_view(right@),
            i <= left.len(),
            j <= right.len(),
            run_view(merged@) + merge(lv.skip(i as int), rv.skip(j as int), ties_left) == merge(lv, rv, ties_left),
        decreases left.len() + right.len() - i - j,
    {
        let ghost before = merged@;
        let take = if ties_left {
            left[i].0.le(&right[j].0)
        } else {
            !right[j].0.le(&left[i].0)
        };
        assert(lv.skip(i as int)[0] == entry_view(left@[i as int]));
        assert(rv.skip(j as int)[0] == entry_view(right@[j as int]));
        assert(lv.skip(i as int).drop_first() =~= lv.skip(i + 1));
        assert(rv.skip(j as int).drop_first() =~= rv.skip(j + 1));
        if take {
            merged.push(left[i]);
            assert(run_view(merged@) =~= run_view(before) + seq![lv[i as int]]);
            i = i + 1;
        } else {
            merged.push(right[j]);
            assert(run_view(merged@) =~= run_view(before) + seq![rv[j as int]]);
            j = j + 1;
        }
    }
    while i < left.len()
        invariant
            lv == run_view(left@),
            rv == run_view(right@),
            i <= left.len(),
            j <= right.len(),
            i == left.len() || j == right.len(),
            run_view(merged@) + merge(lv.skip(i as int), rv.skip(j as int), ties_left) == merge(lv, rv, ties_left),
        decreases left.len() - i,
    {
        let ghost before = merged@;
        assert(lv.skip(i as int).drop_first() =~= lv.skip(i + 1));
        assert(merge(lv.skip(i as int), rv.skip(j as int), ties_left) == lv.skip(i as int));
        assert(merge(lv.skip(i + 1), rv.skip(j as int), ties_left) == lv.skip(i + 1));
        merged.push(left[i]);
        assert(run_view(merged@) =~= run_view(before) + seq![lv[i as int]]);
        i = i + 1;
    }
    while j < right.len()
        invariant
            lv == run_view(left@),
            rv == run_view(right@),
            i == left.len(),
            j <= right.len(),
            run_view(merged@) + merge(lv.skip(i as int), rv.skip(j as int), ties_left) == merge(lv, rv, ties_left),
        decreases right.len() - j,
    {
        let ghost before = merged@;
        assert(rv.skip(j as int).drop_first() =~= rv.skip(j + 1));
        merged.push(right[j]);
        assert(run_view(merged@) =~= run_view(before) + seq![rv[j as int]]);
        j = j + 1;
    }
    assert(merge(lv.skip(i as int), rv.skip(j as int), ties_left) =~= Seq::<(nat, usize)>::empty());
    merged
}

/// The comparisons of a merge, in order: for each step while both runs
/// still have entries, whether the head of the left run is taken.
pub open spec fn merge_choices(l: Seq<(nat, usize)>, r: Seq<(nat, usize)>, ties_left: bool) -> Seq<bool>
    decreases l.len() + r.len(),
{
    if l.len() == 0 || r.len() == 0 {
        Seq::empty()
    } else if takes_left(l[0].0, r[0].0, ties_left) {
        seq![true] + merge_choices(l.drop_first(), r, ties_left)
    } else {
        seq![false] + merge_choices(l, r.drop_first(), ties_left)
    }
}

/// The side that each comparison step of the merge of `left` and `right`
/// takes: `true` for the head of `left`, `false` for the head of `right`.
/// The circuit makes one comparison gadget per step and advances by it.
pub fn merge_steps(left: &Vec<Entry>, right: &Vec<Entry>, ties_left: bool) -> (r: Vec<bool>)
    ensures
        r@ == merge_choices(run_view(left@), run_view(right@), ties_left),
{
    let ghost lv = run_view(left@);
    let ghost rv = run_view(right@);
    let mut steps: Vec<bool> = Vec::new();
    let mut i: usize = 0;
    let mut j: usize = 0;
    while i < left.len() && j < right.len()
        invariant
            lv == run_view(left@),
            rv == run_view(right@),
            i <= left.len(),
            j <= right.len(),
            steps@ + merge_choices(lv.skip(i as int), rv.skip(j as int), ties_left) == merge_choices(lv, rv, ties_left),
        decreases left.len() + right.len() - i - j,
    {
        let take = if ties_left {
            left[i].0.le(&right[j].0)
        } else {
            !right[j].0.le(&left[i].0)
        };
        assert(lv.skip(i as int)[0] == entry_view(left@[i as int]));
        assert(rv.skip(j as int)[0] == entry_view(right@[j as int]));
        assert(lv.skip(i as int).drop_first() =~= lv.skip(i + 1));
        assert(rv.skip(j as int).drop_first() =~= rv.skip(j + 1));
        let ghost before = steps@;
        steps.push(take);
        assert(steps@ =~= before + seq![take]);
        if take {
            i = i + 1;
        } else {
            j = j + 1;
        }
    }
    assert(merge_choices(lv.skip(i as int), rv.skip(j as int), ties_left) =~= Seq::<bool>::empty());
    steps
}

/// Taking heads of `l` and `r` as `choices` say, then appending what is left
/// of `l` and then of `r`.
pub open spec fn replay_choices(l: Seq<(nat, usize)>, r: Seq<(nat, usize)>, choices: Seq<bool>) -> Seq<(nat, usize)>
    decreases choices.len(),
{
    if choices.len() == 0 {
        l + r
    } else if choices[0] {
        seq![l[0]] + replay_choices(l.drop_first(), r, choices.drop_first())
    } else {
        seq![r[0]] + replay_choices(l, r.drop_first(), choices.drop_first())
    }
}

/// Following the comparison steps of a merge, and appending what remains of
/// the left run and then of the right run, gives the merge.
pub proof fn lemma_replay_choices_is_merge(l: Seq<(nat, usize)>, r: Seq<(nat, usize)>, ties_left: bool)
    ensures
        replay_choices(l, r, merge_choices(l, r, ties_left)) == merge(l, r, ties_left),
    decreases l.len() + r.len(),
{
    let c = merge_choices(l, r, ties_left);
    if l.len() == 0 {
        assert(l + r =~= r);
    } else if r.len() == 0 {
        assert(l + r =~= l);
    } else if takes_left(l[0].0, r[0].0, ties_left) {
        lemma_replay_choices_is_merge(l.drop_first(), r, ties_left);
        assert(c.drop_first() =~= merge_choices(l.drop_first(), r, ties_left));
    } else {
        lemma_replay_choices_is_merge(l, r.drop_first(), ties_left);
        assert(c.drop_first() =~= merge_choices(l, r.drop_first(), ties_left));
    }
}

/// Merging keeps exactly the entries of both runs: the merge is a
/// permutation of the concatenated runs.
pub proof fn lemma_merge_permutation(l: Seq<(nat, usize)>, r: Seq<(nat, usize)>, ties_left: bool)
    ensures
        merge(l, r, ties_left).len() == l.len() + r.len(),
        merge(l, r, ties_left).to_multiset() == l.to_multiset().add(r.to_multiset()),
    decreases l.len() + r.len(),
{
    broadcast use vstd::multiset::group_multiset_axioms, vstd::seq_lib::lemma_multiset_commutative;

    if l.len() == 0 {
        assert(l.to_multiset() =~= Multiset::empty());
        assert(r.to_multiset() =~= l.to_multiset().add(r.to_multiset()));
    } else if r.len() == 0 {
        assert(r.to_multiset() =~= Multiset::empty());
        assert(l.to_multiset() =~= l.to_multiset().add(r.to_multiset()));
    } else if takes_left(l[0].0, r[0].0, ties_left) {
        let rest = merge(l.drop_first(), r, ties_left);
        lemma_merge_permutation(l.drop_first(), r, ties_left);
        assert(l =~= seq![l[0]] + l.drop_first());
        assert((seq![l[0]] + rest).to_multiset() =~= seq![l[0]].to_multiset().add(rest.to_multiset()));
        assert((seq![l[0]] + l.drop_first()).to_multiset()
            =~= seq![l[0]].to_multiset().add(l.drop_first().to_multiset()));
        assert(merge(l, r, ties_left).to_multiset() =~= l.to_multiset().add(r.to_multiset()));
    } else {
        let rest = merge(l, r.drop_first(), ties_left);
        lemma_merge_permutation(l, r.drop_first(), ties_left);
        assert(r =~= seq![r[0]] + r.drop_first());
        assert((seq![r[0]] + rest).to_multiset() =~= seq![r[0]].to_multiset().add(rest.to_multiset()));
        assert((seq![r[0]] + r.drop_first()).to_multiset()
            =~= seq![r[0]].to_multiset().add(r.drop_first().to_multiset()));
        assert(merge(l, r, ties_left).to_multiset() =~= l.to_multiset().add(r.to_multiset()));
    }
}

/// A lower bound on the keys of both runs bounds the keys of their merge.
pub proof fn lemma_merge_keys_at_least(l: Seq<(nat, usize)>, r: Seq<(nat, usize)>, ties_left: bool, k: nat)
    requires
        keys_at_least(l, k),
        keys_at_least(r, k),
    ensures
        keys_at_least(merge(l, r, ties_left), k),
    decreases l.len() + r.len(),
{
    if l.len() == 0 || r.len() == 0 {
    } else if takes_left(l[0].0, r[0].0, ties_left) {
        lemma_merge_keys_at_least(l.drop_first(), r, ties_left, k);
    } else {
        lemma_merge_keys_at_least(l, r.drop_first(), ties_left, k);
    }
}

/// Merging two sorted runs gives a sorted run, whichever way ties go.
pub proof fn lemma_merge_sorted(l: Seq<(nat, usize)>, r: Seq<(nat, usize)>, ties_left: bool)
    requires
        sorted_by_key(l),
        sorted_by_key(r),
    ensures
        sorted_by_key(merge(l, r, ties_left)),
    decreases l.len() + r.len(),
{
    if l.len() == 0 || r.len() == 0 {
    } else if takes_left(l[0].0, r[0].0, ties_left) {
        let h = l[0];
        let rest = merge(l.drop_first(), r, ties_left);
        lemma_merge_sorted(l.drop_first(), r, ties_left);
        lemma_merge_keys_at_least(l.drop_first(), r, ties_left, h.0);
        let m = seq![h] + rest;
        assert forall|i: int, j: int| 0 <= i <= j < m.len() implies m[i].0 <= m[j].0 by {
            if i > 0 {
                assert(m[i] == rest[i - 1] && m[j] == rest[j - 1]);
            } else if j > 0 {
                assert(m[j] == rest[j - 1]);
            }
        }
    } else {
        let h = r[0];
        let rest = merge(l, r.drop_first(), ties_left);
        lemma_merge_sorted(l, r.drop_first(), ties_left);
        lemma_merge_keys_at_least(l, r.drop_first(), ties_left, h.0);
        let m = seq![h] + rest;
        assert forall|i: int, j: int| 0 <= i <= j < m.len() implies m[i].0 <= m[j].0 by {
            if i > 0 {
                assert(m[i] == rest[i - 1] && m[j] == rest[j - 1]);
            } else if j > 0 {
                assert(m[j] == rest[j - 1]);
            }
        }
    }
}

/// The entries of a run whose key is `k`, in run order.
pub open spec fn with_key(s: Seq<(nat, usize)>, k: nat) -> Seq<(nat, usize)>
    decreases s.len(),
{
    if s.len() == 0 {
        Seq::empty()
    } else if s[0].0 == k {
        seq![s[0]] + with_key(s.drop_first(), k)
    } else {
        with_key(s.drop_first(), k)
    }
}

/// A run without key `k` has no entries of key `k`.
proof fn lemma_with_key_absent(s: Seq<(nat, usize)>, k: nat)
    requires
        forall|i: int| 0 <= i < s.len() ==> s[i].0 != k,
    ensures
        with_key(s, k) == Seq::<(nat, usize)>::empty(),
    decreases s.len(),
{
    if s.len() > 0 {
        lemma_with_key_absent(s.drop_first(), k);
    }
}

/// The entries of key `k` of an entry followed by a run.
proof fn lemma_with_key_cons(x: (nat, usize), s: Seq<(nat, usize)>, k: nat)
    ensures
        with_key(seq![x] + s, k) == (if x.0 == k { seq![x] + with_key(s, k) } else { with_key(s, k) }),
{
    assert((seq![x] + s).drop_first() =~= s);
}

/// The merge is stable run by run: merging two sorted runs, the entries of
/// any one key come out as those of the left run in their order followed by
/// those of the right run in their order when ties go left, and the other
/// way round when they go right.
pub proof fn lemma_merge_stable(l: Seq<(nat, usize)>, r: Seq<(nat, usize)>, ties_left: bool, k: nat)
    requires
        sorted_by_key(l),
        sorted_by_key(r),
    ensures
        ties_left ==> with_key(merge(l, r, ties_left), k) == with_key(l, k) + with_key(r, k),
        !ties_left ==> with_key(merge(l, r, ties_left), k) == with_key(r, k) + with_key(l, k),
    decreases l.len() + r.len(),
{
    if l.len() == 0 {
        assert(with_key(l, k) == Seq::<(nat, usize)>::empty());
        assert(with_key(r, k) + with_key(l, k) =~= with_key(r, k));
        assert(with_key(l, k) + with_key(r, k) =~= with_key(r, k));
    } else if r.len() == 0 {
        assert(with_key(r, k) == Seq::<(nat, usize)>::empty());
        assert(with_key(r, k) + with_key(l, k) =~= with_key(l, k));
        assert(with_key(l, k) + with_key(r, k) =~= with_key(l, k));
    } else {
        let l1 = l.drop_first();
        let r1 = r.drop_first();
        assert(sorted_by_key(l1)) by {
            assert forall|i: int, j: int| 0 <= i <= j < l1.len() implies l1[i].0 <= l1[j].0 by {
                assert(l1[i] == l[i + 1] && l1[j] == l[j + 1]);
            }
        }
        assert(sorted_by_key(r1)) by {
            assert forall|i: int, j: int| 0 <= i <= j < r1.len() implies r1[i].0 <= r1[j].0 by {
                assert(r1[i] == r[i + 1] && r1[j] == r[j + 1]);
            }
        }
        assert(l =~= seq![l[0]] + l1);
        assert(r =~= seq![r[0]] + r1);
        lemma_with_key_cons(l[0], l1, k);
        lemma_with_key_cons(r[0], r1, k);
        if takes_left(l[0].0, r[0].0, ties_left) {
            lemma_merge_stable(l1, r, ties_left, k);
            lemma_with_key_cons(l[0], merge(l1, r, ties_left), k);
            if !ties_left && l[0].0 == k {
                assert forall|i: int| 0 <= i < r.len() implies r[i].0 != k by {
                    assert(r[0].0 <= r[i].0);
                }
                lemma_with_key_absent(r, k);
                assert(with_key(r, k) + with_key(l, k) =~= with_key(l, k));
                assert(with_key(r, k) + with_key(l1, k) =~= with_key(l1, k));
            }
            assert(with_key(merge(l, r, ties_left), k) =~= if ties_left {
                with_key(l, k) + with_key(r, k)
            } else {
                with_key(r, k) + with_key(l, k)
            });
        } else {
            lemma_merge_stable(l, r1, ties_left, k);
            lemma_with_key_cons(r[0], merge(l, r1, ties_left), k);
            if ties_left && r[0].0 == k {
                assert forall|i: int| 0 <= i < l.len() implies l[i].0 != k by {
                    assert(l[0].0 <= l[i].0);
                }
                lemma_with_key_absent(l, k);
                assert(with_key(l, k) + with_key(r, k) =~= with_key(r, k));
                assert(with_key(l, k) + with_key(r1, k) =~= with_key(r1, k));
            }
            assert(with_key(merge(l, r, ties_left), k) =~= if ties_left {
                with_key(l, k) + with_key(r, k)
            } else {
                with_key(r, k) + with_key(l, k)
            });
        }
    }
}

/// Merging with ties to the right is merging the runs the other way round
/// with ties to the left: which run an equal key comes from first is all
/// that the tie rule decides. Merging with an empty run gives the other run.
pub proof fn lemma_merge_mirror(l: Seq<(nat, usize)>, r: Seq<(nat, usize)>)
    ensures
        merge(l, r, false) == merge(r, l, true),
        merge(l, Seq::empty(), true) == l,
        merge(l, Seq::empty(), false) == l,
        merge(Seq::empty(), r, true) == r,
        merge(Seq::empty(), r, false) == r,
    decreases l.len() + r.len(),
{
    if l.len() > 0 && r.len() > 0 {
        if l[0].0 < r[0].0 {
            lemma_merge_mirror(l.drop_first(), r);
        } else {
            lemma_merge_mirror(l, r.drop_first());
        }
    }
}

/// When no key of the left run equals a key of the right run, it does not
/// matter which way ties go: both merges are the same.
pub proof fn lemma_merge_ties_irrelevant(l: Seq<(nat, usize)>, r: Seq<(nat, usize)>)
    requires
        keys_disjoint(l, r),
    ensures
        merge(l, r, true) == merge(l, r, false),
    decreases l.len() + r.len(),
{
    if l.len() == 0 || r.len() == 0 {
    } else {
        assert(l[0].0 != r[0].0);
        if l[0].0 < r[0].0 {
            assert(keys_disjoint(l.drop_first(), r)) by {
                assert forall|i: int, j: int| 0 <= i < l.len() - 1 && 0 <= j < r.len()
                    implies l.drop_first()[i].0 != r[j].0 by {
                    assert(l.drop_first()[i] == l[i + 1]);
                }
            }
            lemma_merge_ties_irrelevant(l.drop_first(), r);
        } else {
            assert(keys_disjoint(l, r.drop_first())) by {
                assert forall|i: int, j: int| 0 <= i < l.len() && 0 <= j < r.len() - 1
                    implies l[i].0 != r.drop_first()[j].0 by {
                    assert(r.drop_first()[j] == r[j + 1]);
                }
            }
            lemma_merge_ties_irrelevant(l, r.drop_first());
        }
    }
}

/// The rows of a run, in order.
pub open spec fn merged_rows(m: Seq<(nat, usize)>) -> Seq<usize> {
    m.map_values(|e: (nat, usize)| e.1)
}

/// Every entry of the run names a row of `keys` and carries that row's key.
pub open spec fn entries_consistent(s: Seq<(nat, usize)>, keys: Seq<nat>) -> bool {
    forall|i: int| 0 <= i < s.len() ==> (#[trigger] s[i]).1 < keys.len() && s[i].0 == keys[s[i].1 as int]
}

/// Merging keeps entries consistent with the keys of their rows.
pub proof fn lemma_merge_consistent(l: Seq<(nat, usize)>, r: Seq<(nat, usize)>, ties_left: bool, keys: Seq<nat>)
    requires
        entries_consistent(l, keys),
        entries_consistent(r, keys),
    ensures
        entries_consistent(merge(l, r, ties_left), keys),
    decreases l.len() + r.len(),
{
    if l.len() == 0 || r.len() == 0 {
    } else if takes_left(l[0].0, r[0].0, ties_left) {
        lemma_merge_consistent(l.drop_first(), r, ties_left, keys);
        let m = merge(l, r, ties_left);
        assert forall|i: int| 0 <= i < m.len() implies (#[trigger] m[i]).1 < keys.len() && m[i].0 == keys[m[i].1 as int] by {
            if i > 0 {
                assert(m[i] == merge(l.drop_first(), r, ties_left)[i - 1]);
            }
        }
    } else {
        lemma_merge_consistent(l, r.drop_first(), ties_left, keys);
        let m = merge(l, r, ties_left);
        assert forall|i: int| 0 <= i < m.len() implies (#[trigger] m[i]).1 < keys.len() && m[i].0 == keys[m[i].1 as int] by {
            if i > 0 {
                assert(m[i] == merge(l, r.drop_first(), ties_left)[i - 1]);
            }
        }
    }
}

/// The rows of a merge are the rows of both runs.
pub proof fn lemma_merge_rows_permutation(l: Seq<(nat, usize)>, r: Seq<(nat, usize)>, ties_left: bool)
    ensures
        merged_rows(merge(l, r, ties_left)).to_multiset()
            == merged_rows(l).to_multiset().add(merged_rows(r).to_multiset()),
    decreases l.len() + r.len(),
{
    broadcast use vstd::multiset::group_multiset_axioms, vstd::seq_lib::lemma_multiset_commutative;

    if l.len() == 0 {
        assert(merged_rows(l) =~= Seq::<usize>::empty());
        assert(merged_rows(l).to_multiset() =~= Multiset::empty());
        assert(merged_rows(r).to_multiset() =~= merged_rows(l).to_multiset().add(merged_rows(r).to_multiset()));
    } else if r.len() == 0 {
        assert(merged_rows(r) =~= Seq::<usize>::empty());
        assert(merged_rows(r).to_multiset() =~= Multiset::empty());
        assert(merged_rows(l).to_multiset() =~= merged_rows(l).to_multiset().add(merged_rows(r).to_multiset()));
    } else if takes_left(l[0].0, r[0].0, ties_left) {
        let rest = merge(l.drop_first(), r, ties_left);
        lemma_merge_rows_permutation(l.drop_first(), r, ties_left);
        assert(merged_rows(seq![l[0]] + rest) =~= seq![l[0].1] + merged_rows(rest));
        assert(merged_rows(l) =~= seq![l[0].1] + merged_rows(l.drop_first()));
        assert((seq![l[0].1] + merged_rows(rest)).to_multiset()
            =~= seq![l[0].1].to_multiset().add(merged_rows(rest).to_multiset()));
        assert((seq![l[0].1] + merged_rows(l.drop_first())).to_multiset()
            =~= seq![l[0].1].to_multiset().add(merged_rows(l.drop_first()).to_multiset()));
        assert(merged_rows(merge(l, r, ties_left)).to_multiset()
            =~= merged_rows(l).to_multiset().add(merged_rows(r).to_multiset()));
    } else {
        let rest = merge(l, r.drop_first(), ties_left);
        lemma_merge_rows_permutation(l, r.drop_first(), ties_left);
        assert(merged_rows(seq![r[0]] + rest) =~= seq![r[0].1] + merged_rows(rest));
        assert(merged_rows(r) =~= seq![r[0].1] + merged_rows(r.drop_first()));
        assert((seq![r[0].1] + merged_rows(rest)).to_multiset()
            =~= seq![r[0].1].to_multiset().add(merged_rows(rest).to_multiset()));
        assert((seq![r[0].1] + merged_rows(r.drop_first())).to_multiset()
            =~= seq![r[0].1].to_multiset().add(merged_rows(r.drop_first()).to_multiset()));
        assert(merged_rows(merge(l, r, ties_left)).to_multiset()
            =~= merged_rows(l).to_multiset().add(merged_rows(r).to_multiset()));
    }
}

} // verus!
