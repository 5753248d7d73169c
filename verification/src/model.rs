//! The mathematical model of the multiset: a key/count index is interpreted
//! as the flat ascending sequence of its elements, each key repeated as many
//! times as its count says.

use vstd::prelude::*;

verus! {

/// `n` copies of `k` in a row.
pub open spec fn repeat_of(k: i64, n: nat) -> Seq<i64> {
    Seq::new(n, |i: int| k)
}

/// The flat view of a key/count index: each key repeated `count` times, in
/// index order.
pub open spec fn flat(es: Seq<(i64, usize)>) -> Seq<i64>
    decreases es.len(),
{
    if es.len() == 0 {
        Seq::empty()
    } else {
        repeat_of(es[0].0, es[0].1 as nat) + flat(es.drop_first())
    }
}

/// The predicate "is the element `k`", used to count occurrences.
pub open spec fn is_key(k: i64) -> spec_fn(i64) -> bool {
    |x: i64| x == k
}

/// Number of occurrences of `k` in `s`.
pub open spec fn occ(s: Seq<i64>, k: i64) -> nat {
    s.filter(is_key(k)).len()
}

/// The sequence is in non-decreasing order.
pub open spec fn sorted_asc(s: Seq<i64>) -> bool {
    forall|i: int, j: int| 0 <= i <= j < s.len() ==> s[i] <= s[j]
}

/// A well-formed index: every count is positive and the keys are strictly
/// increasing, so each distinct element owns exactly one entry.
pub open spec fn wf_entries(es: Seq<(i64, usize)>) -> bool {
    &&& forall|i: int| 0 <= i < es.len() ==> (#[trigger] es[i]).1 >= 1
    &&& forall|i: int, j: int| 0 <= i < j < es.len() ==> es[i].0 < es[j].0
}

/// Flattening distributes over concatenation of indexes.
pub proof fn lemma_flat_add(a: Seq<(i64, usize)>, b: Seq<(i64, usize)>)
    ensures
        flat(a + b) == flat(a) + flat(b),
    decreases a.len(),
{
    if a.len() == 0 {
        assert(a + b =~= b);
        assert(flat(a) + flat(b) =~= flat(b));
    } else {
        assert((a + b).drop_first() =~= a.drop_first() + b);
        lemma_flat_add(a.drop_first(), b);
        assert((a + b)[0] == a[0]);
        assert(repeat_of(a[0].0, a[0].1 as nat) + (flat(a.drop_first()) + flat(b)) =~= (repeat_of(
            a[0].0,
            a[0].1 as nat,
        ) + flat(a.drop_first())) + flat(b));
    }
}

/// The flat view of a single entry is just that key, repeated.
pub proof fn lemma_flat_singleton(e: (i64, usize))
    ensures
        flat(seq![e]) == repeat_of(e.0, e.1 as nat),
{
    assert(seq![e].drop_first() =~= Seq::<(i64, usize)>::empty());
    assert(flat(Seq::<(i64, usize)>::empty()) =~= Seq::<i64>::empty());
    assert(flat(seq![e]) == repeat_of(e.0, e.1 as nat) + flat(seq![e].drop_first()));
    assert(repeat_of(e.0, e.1 as nat) + Seq::<i64>::empty() =~= repeat_of(e.0, e.1 as nat));
}

/// The flat view splits around any entry of the index.
pub proof fn lemma_flat_split(es: Seq<(i64, usize)>, i: int)
    requires
        0 <= i < es.len(),
    ensures
        flat(es) == flat(es.subrange(0, i)) + repeat_of(es[i].0, es[i].1 as nat) + flat(
            es.subrange(i + 1, es.len() as int),
        ),
{
    let a = es.subrange(0, i);
    let m = es.subrange(i, i + 1);
    let b = es.subrange(i + 1, es.len() as int);
    assert(es =~= (a + m) + b);
    lemma_flat_add(a + m, b);
    lemma_flat_add(a, m);
    assert(m =~= seq![es[i]]);
    lemma_flat_singleton(es[i]);
}

/// Counting occurrences distributes over concatenation.
pub proof fn lemma_occ_add(a: Seq<i64>, b: Seq<i64>, k: i64)
    ensures
        occ(a + b, k) == occ(a, k) + occ(b, k),
{
    Seq::filter_distributes_over_add(a, b, is_key(k));
}

/// Filtering steps through one pushed element at a time.
pub proof fn lemma_filter_push(s: Seq<i64>, x: i64, pred: spec_fn(i64) -> bool)
    ensures
        s.push(x).filter(pred) == if pred(x) {
            s.filter(pred).push(x)
        } else {
            s.filter(pred)
        },
{
    reveal(Seq::filter);
    assert(s.push(x).drop_last() =~= s);
    assert(s.push(x).last() == x);
}

/// The occurrences in a run of one repeated element.
pub proof fn lemma_occ_repeat(k: i64, n: nat, j: i64)
    ensures
        occ(repeat_of(k, n), j) == if j == k {
            n
        } else {
            0nat
        },
    decreases n,
{
    reveal(Seq::filter);
    if n == 0 {
        assert(repeat_of(k, n).len() == 0);
    } else {
        lemma_occ_repeat(k, (n - 1) as nat, j);
        assert(repeat_of(k, n) =~= repeat_of(k, (n - 1) as nat).push(k));
        lemma_filter_push(repeat_of(k, (n - 1) as nat), k, is_key(j));
    }
}

/// Counting occurrences agrees with the multiset abstraction of a sequence.
pub proof fn lemma_occ_multiset(s: Seq<i64>, k: i64)
    ensures
        occ(s, k) == s.to_multiset().count(k),
    decreases s.len(),
{
    broadcast use vstd::seq_lib::group_to_multiset_ensures;
    broadcast use vstd::multiset::group_multiset_axioms;

    reveal(Seq::filter);
    if s.len() == 0 {
        assert(!s.contains(k));
        assert(s.to_multiset().count(k) == 0);
    } else {
        let pre = s.drop_last();
        lemma_occ_multiset(pre, k);
        assert(s =~= pre.push(s.last()));
        lemma_filter_push(pre, s.last(), is_key(k));
        assert(pre.push(s.last()).to_multiset() =~= pre.to_multiset().insert(s.last()));
    }
}

/// A key that appears in no entry does not appear in the flat view.
pub proof fn lemma_occ_absent(es: Seq<(i64, usize)>, k: i64)
    requires
        forall|i: int| 0 <= i < es.len() ==> (#[trigger] es[i]).0 != k,
    ensures
        occ(flat(es), k) == 0,
    decreases es.len(),
{
    if es.len() == 0 {
        reveal(Seq::filter);
    } else {
        lemma_occ_add(repeat_of(es[0].0, es[0].1 as nat), flat(es.drop_first()), k);
        lemma_occ_repeat(es[0].0, es[0].1 as nat, k);
        lemma_occ_absent(es.drop_first(), k);
    }
}

/// In a well-formed index, the occurrences of a key are exactly the count
/// stored in its entry.
pub proof fn lemma_occ_at(es: Seq<(i64, usize)>, i: int, k: i64)
    requires
        wf_entries(es),
        0 <= i < es.len(),
        es[i].0 == k,
    ensures
        occ(flat(es), k) == es[i].1,
{
    let a = es.subrange(0, i);
    let b = es.subrange(i + 1, es.len() as int);
    lemma_flat_split(es, i);
    lemma_occ_add(flat(a) + repeat_of(k, es[i].1 as nat), flat(b), k);
    lemma_occ_add(flat(a), repeat_of(k, es[i].1 as nat), k);
    lemma_occ_repeat(k, es[i].1 as nat, k);
    lemma_occ_absent(a, k);
    lemma_occ_absent(b, k);
}

/// No entry's count exceeds the length of the flat view.
pub proof fn lemma_entry_le_flat_len(es: Seq<(i64, usize)>, i: int)
    requires
        0 <= i < es.len(),
    ensures
        es[i].1 <= flat(es).len(),
{
    lemma_flat_split(es, i);
}

/// A lower bound on all keys is a lower bound on the whole flat view.
pub proof fn lemma_flat_lower_bound(es: Seq<(i64, usize)>, b: int)
    requires
        forall|i: int| 0 <= i < es.len() ==> (#[trigger] es[i]).0 >= b,
    ensures
        forall|j: int| 0 <= j < flat(es).len() ==> flat(es)[j] >= b,
    decreases es.len(),
{
    if es.len() > 0 {
        lemma_flat_lower_bound(es.drop_first(), b);
        let c0 = es[0].1 as nat;
        let rest = flat(es.drop_first());
        assert forall|j: int| 0 <= j < flat(es).len() implies flat(es)[j] >= b by {
            if j < c0 {
                assert(flat(es)[j] == es[0].0);
            } else {
                assert(flat(es)[j] == rest[j - c0]);
            }
        }
    }
}

/// The flat view of a well-formed index is in non-decreasing order.
pub proof fn lemma_flat_sorted(es: Seq<(i64, usize)>)
    requires
        wf_entries(es),
    ensures
        sorted_asc(flat(es)),
    decreases es.len(),
{
    if es.len() > 0 {
        let d = es.drop_first();
        lemma_flat_sorted(d);
        assert(forall|i: int| 0 <= i < d.len() ==> (#[trigger] d[i]).0 >= es[0].0 + 1);
        lemma_flat_lower_bound(d, es[0].0 + 1);
        let c0 = es[0].1 as nat;
        let rest = flat(d);
        assert forall|i: int, j: int| 0 <= i <= j < flat(es).len() implies flat(es)[i] <= flat(
            es,
        )[j] by {
            if i < c0 {
                assert(flat(es)[i] == es[0].0);
                if j >= c0 {
                    assert(flat(es)[j] == rest[j - c0]);
                }
            } else {
                assert(flat(es)[i] == rest[i - c0]);
                assert(flat(es)[j] == rest[j - c0]);
            }
        }
    }
}

/// The flat view of a well-formed index contains exactly the stored keys.
pub proof fn lemma_flat_contains(es: Seq<(i64, usize)>, k: i64)
    requires
        wf_entries(es),
    ensures
        flat(es).contains(k) <==> exists|i: int| 0 <= i < es.len() && (#[trigger] es[i]).0 == k,
{
    broadcast use vstd::seq_lib::group_to_multiset_ensures;

    lemma_occ_multiset(flat(es), k);
    if exists|i: int| 0 <= i < es.len() && (#[trigger] es[i]).0 == k {
        let i = choose|i: int| 0 <= i < es.len() && (#[trigger] es[i]).0 == k;
        lemma_occ_at(es, i, k);
    } else {
        lemma_occ_absent(es, k);
    }
}

/// The occurrences of `k` in the empty sequence.
pub proof fn lemma_occ_empty(k: i64)
    ensures
        occ(Seq::<i64>::empty(), k) == 0,
{
    reveal(Seq::filter);
}

/// The occurrences of `k` in a one-element sequence.
pub proof fn lemma_occ_singleton(x: i64, k: i64)
    ensures
        occ(seq![x], k) == if k == x {
            1nat
        } else {
            0nat
        },
{
    lemma_occ_empty(k);
    assert(seq![x] =~= Seq::<i64>::empty().push(x));
    lemma_filter_push(Seq::<i64>::empty(), x, is_key(k));
}

/// An element occurs zero times exactly when it is not contained.
pub proof fn lemma_count_zero_iff_absent(s: Seq<i64>, k: i64)
    ensures
        (occ(s, k) == 0) <==> !s.contains(k),
{
    broadcast use vstd::seq_lib::group_to_multiset_ensures;

    lemma_occ_multiset(s, k);
    assert(s.contains(k) <==> s.to_multiset().count(k) > 0);
}

/// Two sorted sequences in which every element occurs equally often are the
/// same sequence: the occurrence profile together with sortedness pins the
/// flat view completely.
pub proof fn lemma_sorted_occ_unique(a: Seq<i64>, b: Seq<i64>)
    requires
        sorted_asc(a),
        sorted_asc(b),
        forall|k: i64| occ(a, k) == occ(b, k),
    ensures
        a == b,
    decreases a.len(),
{
    if a.len() == 0 {
        if b.len() > 0 {
            assert(b.contains(b[0]));
            lemma_count_zero_iff_absent(b, b[0]);
            lemma_count_zero_iff_absent(a, b[0]);
        }
        assert(a =~= b);
    } else if b.len() == 0 {
        assert(a.contains(a[0]));
        lemma_count_zero_iff_absent(a, a[0]);
        lemma_count_zero_iff_absent(b, a[0]);
    } else {
        assert(a.contains(a[0]));
        lemma_count_zero_iff_absent(a, a[0]);
        lemma_count_zero_iff_absent(b, a[0]);
        assert(b.contains(a[0]));
        let ib = choose|i: int| 0 <= i < b.len() && b[i] == a[0];
        assert(b[0] <= b[ib]);
        assert(b.contains(b[0]));
        lemma_count_zero_iff_absent(b, b[0]);
        lemma_count_zero_iff_absent(a, b[0]);
        assert(a.contains(b[0]));
        let ia = choose|i: int| 0 <= i < a.len() && a[i] == b[0];
        assert(a[0] <= a[ia]);
        assert(a[0] == b[0]);
        let x = a[0];
        let a2 = a.drop_first();
        let b2 = b.drop_first();
        assert(a =~= seq![x] + a2);
        assert(b =~= seq![x] + b2);
        assert forall|k: i64| occ(a2, k) == occ(b2, k) by {
            lemma_occ_add(seq![x], a2, k);
            lemma_occ_add(seq![x], b2, k);
        }
        assert(sorted_asc(a2)) by {
            assert(forall|i: int, j: int|
                0 <= i <= j < a2.len() ==> a2[i] == a[i + 1] && a2[j] == a[j + 1]);
        }
        assert(sorted_asc(b2)) by {
            assert(forall|i: int, j: int|
                0 <= i <= j < b2.len() ==> b2[i] == b[i + 1] && b2[j] == b[j + 1]);
        }
        lemma_sorted_occ_unique(a2, b2);
        assert(a =~= b);
    }
}

/// The flat view of a non-empty index whose first count is positive starts
/// at the first key.
pub proof fn lemma_flat_first(es: Seq<(i64, usize)>)
    requires
        es.len() > 0,
        es[0].1 >= 1,
    ensures
        flat(es).len() > 0,
        flat(es)[0] == es[0].0,
{
}

/// The flat view of a non-empty well-formed index ends at the last key.
pub proof fn lemma_flat_last(es: Seq<(i64, usize)>)
    requires
        wf_entries(es),
        es.len() > 0,
    ensures
        flat(es).len() > 0,
        flat(es).last() == es.last().0,
    decreases es.len(),
{
    let d = es.drop_first();
    if d.len() == 0 {
        assert(flat(d) =~= Seq::<i64>::empty());
        assert(flat(es) =~= repeat_of(es[0].0, es[0].1 as nat));
    } else {
        lemma_flat_last(d);
        assert(flat(es).last() == flat(d).last());
        assert(d.last() == es.last());
    }
}

} // verus!
