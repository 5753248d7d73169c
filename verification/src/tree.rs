//! The ordered multiset itself: a key/count index kept in ascending key
//! order, together with a running total for constant-time size queries.

use vstd::prelude::*;

use crate::model::flat;
use crate::model::lemma_entry_le_flat_len;
use crate::model::lemma_filter_push;
use crate::model::lemma_flat_add;
use crate::model::lemma_flat_contains;
use crate::model::lemma_flat_first;
use crate::model::lemma_flat_last;
use crate::model::lemma_flat_singleton;
use crate::model::lemma_flat_sorted;
use crate::model::lemma_flat_split;
use crate::model::lemma_occ_absent;
use crate::model::lemma_occ_add;
use crate::model::lemma_occ_at;
use crate::model::lemma_occ_multiset;
use crate::model::lemma_occ_repeat;
use crate::model::occ;
use crate::model::repeat_of;
use crate::model::sorted_asc;
use crate::model::wf_entries;

verus! {

/// One end of a range query: open, inclusive, or exclusive.
#[derive(Clone, Copy)]
pub enum Bound {
    /// No constraint on this end.
    Unbounded,
    /// The end point belongs to the range.
    Included(i64),
    /// The end point does not belong to the range.
    Excluded(i64),
}

/// Whether `x` lies above the lower end of a range.
pub open spec fn above_lower(lo: Bound, x: i64) -> bool {
    match lo {
        Bound::Unbounded => true,
        Bound::Included(a) => a <= x,
        Bound::Excluded(a) => a < x,
    }
}

/// Whether `x` lies below the upper end of a range.
pub open spec fn below_upper(hi: Bound, x: i64) -> bool {
    match hi {
        Bound::Unbounded => true,
        Bound::Included(b) => x <= b,
        Bound::Excluded(b) => x < b,
    }
}

/// The membership predicate of the range between the two bounds.
pub open spec fn in_range(lo: Bound, hi: Bound) -> spec_fn(i64) -> bool {
    |x: i64| above_lower(lo, x) && below_upper(hi, x)
}

/// The elements of `s` that lie between the two bounds, in their order in `s`.
pub open spec fn range_view(s: Seq<i64>, lo: Bound, hi: Bound) -> Seq<i64> {
    s.filter(in_range(lo, hi))
}

/// Decides membership of `x` in the range between the two bounds.
fn bound_check(lo: Bound, hi: Bound, x: i64) -> (r: bool)
    ensures
        r == in_range(lo, hi)(x),
{
    let lo_ok = match lo {
        Bound::Unbounded => true,
        Bound::Included(a) => a <= x,
        Bound::Excluded(a) => a < x,
    };
    let hi_ok = match hi {
        Bound::Unbounded => true,
        Bound::Included(b) => x <= b,
        Bound::Excluded(b) => x < b,
    };
    lo_ok && hi_ok
}

/// Copies a vector back to front.
fn reversed(v: &Vec<i64>) -> (r: Vec<i64>)
    ensures
        r@ == v@.reverse(),
{
    let mut out: Vec<i64> = Vec::new();
    let mut i: usize = v.len();
    while i > 0
        invariant
            i <= v@.len(),
            out@.len() == v@.len() - i,
            forall|p: int| 0 <= p < out@.len() ==> out@[p] == v@[v@.len() - 1 - p],
        decreases i,
    {
        i = i - 1;
        out.push(v[i]);
    }
    proof {
        assert(out@ =~= v@.reverse());
    }
    out
}

/// A range with both ends unbounded keeps every element: the view of
/// [`TreeMultiSet::range`] over such bounds is the full flat view, the same
/// sequence that [`TreeMultiSet::iter`] produces.
pub proof fn lemma_range_unbounded(s: Seq<i64>)
    ensures
        range_view(s, Bound::Unbounded, Bound::Unbounded) == s,
    decreases s.len(),
{
    reveal(Seq::filter);
    if s.len() > 0 {
        lemma_range_unbounded(s.drop_last());
        assert(s.drop_last().push(s.last()) =~= s);
        lemma_filter_push(s.drop_last(), s.last(), in_range(Bound::Unbounded, Bound::Unbounded));
    }
}

/// An ordered multiset of `i64` elements.
///
/// The view `self@` is the flat ascending sequence of all stored elements,
/// with each element repeated as many times as it occurs.
pub struct TreeMultiSet {
    entries: Vec<(i64, usize)>,
    total: usize,
}

impl View for TreeMultiSet {
    type V = Seq<i64>;

    closed spec fn view(&self) -> Seq<i64> {
        flat(self.entries@)
    }
}

impl TreeMultiSet {
    /// The structural invariant: the index is strictly sorted by key with
    /// positive counts, and `total` caches the number of stored elements.
    pub closed spec fn wf(&self) -> bool {
        &&& wf_entries(self.entries@)
        &&& self.total as nat == flat(self.entries@).len()
    }

    /// Constructs a new, empty multiset.
    pub fn new() -> (s: Self)
        ensures
            s.wf(),
            s@ == Seq::<i64>::empty(),
    {
        let s = Self { entries: Vec::new(), total: 0 };
        proof {
            assert(s.entries@ =~= Seq::<(i64, usize)>::empty());
        }
        s
    }

    /// Removes every element, leaving the multiset empty.
    pub fn clear(&mut self)
        ensures
            final (self).wf(),
            final (self)@ == Seq::<i64>::empty(),
    {
        self.entries.clear();
        self.total = 0;
    }

    /// Returns `true` when no element is stored.
    pub fn is_empty(&self) -> (r: bool)
        requires
            self.wf(),
        ensures
            r == (self@.len() == 0),
    {
        self.total == 0
    }

    /// Returns the number of stored elements, multiplicities included.
    pub fn len(&self) -> (r: usize)
        requires
            self.wf(),
        ensures
            r as nat == self@.len(),
    {
        self.total
    }

    /// Index of the first entry whose key is not below `k`, found by binary
    /// search over the sorted index.
    fn lower_bound(&self, k: i64) -> (r: usize)
        requires
            self.wf(),
        ensures
            r <= self.entries@.len(),
            forall|j: int| 0 <= j < r ==> (#[trigger] self.entries@[j]).0 < k,
            forall|j: int| r <= j < self.entries@.len() ==> (#[trigger] self.entries@[j]).0 >= k,
    {
        let mut lo: usize = 0;
        let mut hi: usize = self.entries.len();
        while lo < hi
            invariant
                self.wf(),
                lo <= hi <= self.entries@.len(),
                forall|j: int| 0 <= j < lo ==> (#[trigger] self.entries@[j]).0 < k,
                forall|j: int| hi <= j < self.entries@.len() ==> (#[trigger] self.entries@[j]).0 >= k,
            decreases hi - lo,
        {
            let mid = lo + (hi - lo) / 2;
            if self.entries[mid].0 < k {
                proof {
                    assert forall|j: int| 0 <= j < mid + 1 implies (#[trigger] self.entries@[j]).0
                        < k by {
                        if j < mid {
                            assert(self.entries@[j].0 < self.entries@[mid as int].0);
                        }
                    }
                }
                lo = mid + 1;
            } else {
                proof {
                    assert forall|j: int| mid <= j < self.entries@.len() implies (
                    #[trigger] self.entries@[j]).0 >= k by {
                        if j > mid {
                            assert(self.entries@[mid as int].0 < self.entries@[j].0);
                        }
                    }
                }
                hi = mid;
            }
        }
        lo
    }

    /// In a well-formed index, a key can only sit at its lower-bound index.
    proof fn lemma_key_only_at(&self, i: int, k: i64)
        requires
            self.wf(),
            0 <= i <= self.entries@.len(),
            forall|j: int| 0 <= j < i ==> (#[trigger] self.entries@[j]).0 < k,
            forall|j: int| i <= j < self.entries@.len() ==> (#[trigger] self.entries@[j]).0 >= k,
            i < self.entries@.len() ==> self.entries@[i].0 != k,
        ensures
            forall|j: int| 0 <= j < self.entries@.len() ==> (#[trigger] self.entries@[j]).0 != k,
    {
        assert forall|j: int| 0 <= j < self.entries@.len() implies (#[trigger] self.entries@[j]).0
            != k by {
            if j > i {
                assert(self.entries@[i].0 < self.entries@[j].0);
            }
        }
    }

    /// Returns how many occurrences of `k` are stored (zero when absent).
    pub fn count(&self, k: i64) -> (r: usize)
        requires
            self.wf(),
        ensures
            r as nat == occ(self@, k),
    {
        let i = self.lower_bound(k);
        if i < self.entries.len() {
            let e = self.entries[i];
            if e.0 == k {
                proof {
                    lemma_occ_at(self.entries@, i as int, k);
                }
                return e.1;
            }
        }
        proof {
            self.lemma_key_only_at(i as int, k);
            lemma_occ_absent(self.entries@, k);
        }
        0
    }

    /// Returns `true` when at least one occurrence of `k` is stored.
    pub fn contains(&self, k: i64) -> (r: bool)
        requires
            self.wf(),
        ensures
            r == self@.contains(k),
    {
        let i = self.lower_bound(k);
        let r = i < self.entries.len() && self.entries[i].0 == k;
        proof {
            lemma_flat_contains(self.entries@, k);
            if !r {
                self.lemma_key_only_at(i as int, k);
            }
        }
        r
    }

    /// Returns the minimum stored element, or `None` when empty.
    pub fn first(&self) -> (r: Option<i64>)
        requires
            self.wf(),
        ensures
            self@.len() == 0 ==> r is None,
            self@.len() > 0 ==> r == Some(self@[0]),
    {
        if self.entries.len() == 0 {
            proof {
                assert(flat(self.entries@) =~= Seq::<i64>::empty());
            }
            None
        } else {
            proof {
                lemma_flat_first(self.entries@);
            }
            Some(self.entries[0].0)
        }
    }

    /// Returns the maximum stored element, or `None` when empty.
    pub fn last(&self) -> (r: Option<i64>)
        requires
            self.wf(),
        ensures
            self@.len() == 0 ==> r is None,
            self@.len() > 0 ==> r == Some(self@.last()),
    {
        if self.entries.len() == 0 {
            proof {
                assert(flat(self.entries@) =~= Seq::<i64>::empty());
            }
            None
        } else {
            proof {
                lemma_flat_last(self.entries@);
            }
            Some(self.entries[self.entries.len() - 1].0)
        }
    }

    /// Adds one occurrence of `k`, creating its entry when it was absent.
    pub fn insert(&mut self, k: i64)
        requires
            old(self).wf(),
            old(self)@.len() < usize::MAX,
        ensures
            final (self).wf(),
            final (self)@.len() == old(self)@.len() + 1,
            occ(final (self)@, k) == occ(old(self)@, k) + 1,
            forall|j: i64| j != k ==> occ(final (self)@, j) == occ(old(self)@, j),
    {
        let i = self.lower_bound(k);
        if i < self.entries.len() && self.entries[i].0 == k {
            let c = self.entries[i].1;
            proof {
                lemma_entry_le_flat_len(self.entries@, i as int);
            }
            self.entries[i] = (k, c + 1);
            self.total = self.total + 1;
            proof {
                let oes = old(self).entries@;
                let nes = self.entries@;
                let a = oes.subrange(0, i as int);
                let b = oes.subrange(i as int + 1, oes.len() as int);
                lemma_flat_split(oes, i as int);
                lemma_flat_split(nes, i as int);
                assert(nes.subrange(0, i as int) =~= a);
                assert(nes.subrange(i as int + 1, nes.len() as int) =~= b);
                let rold = repeat_of(k, c as nat);
                let rnew = repeat_of(k, (c + 1) as nat);
                assert(flat(oes) == flat(a) + rold + flat(b));
                assert(flat(nes) == flat(a) + rnew + flat(b));
                assert forall|j: i64| true implies #[trigger] occ(flat(nes), j) == occ(
                    flat(oes),
                    j,
                ) + (if j == k {
                    1int
                } else {
                    0int
                }) by {
                    lemma_occ_add(flat(a) + rold, flat(b), j);
                    lemma_occ_add(flat(a), rold, j);
                    lemma_occ_add(flat(a) + rnew, flat(b), j);
                    lemma_occ_add(flat(a), rnew, j);
                    lemma_occ_repeat(k, c as nat, j);
                    lemma_occ_repeat(k, (c + 1) as nat, j);
                }
                assert(wf_entries(nes)) by {
                    assert(forall|m: int|
                        0 <= m < nes.len() ==> (#[trigger] nes[m]).0 == oes[m].0);
                }
            }
        } else {
            proof {
                let oes = self.entries@;
                assert forall|j: int| i <= j < oes.len() implies (#[trigger] oes[j]).0 > k by {
                    if j > i {
                        assert(oes[i as int].0 < oes[j].0);
                    }
                }
            }
            self.entries.insert(i, (k, 1));
            self.total = self.total + 1;
            proof {
                let oes = old(self).entries@;
                let nes = self.entries@;
                let a = oes.subrange(0, i as int);
                let b = oes.subrange(i as int, oes.len() as int);
                assert(oes =~= a + b);
                assert(nes =~= (a + seq![(k, 1usize)]) + b);
                lemma_flat_add(a, b);
                lemma_flat_add(a + seq![(k, 1usize)], b);
                lemma_flat_add(a, seq![(k, 1usize)]);
                lemma_flat_singleton((k, 1usize));
                let r1 = repeat_of(k, 1);
                assert(flat(oes) == flat(a) + flat(b));
                assert(flat(nes) == (flat(a) + r1) + flat(b));
                assert forall|j: i64| true implies #[trigger] occ(flat(nes), j) == occ(
                    flat(oes),
                    j,
                ) + (if j == k {
                    1int
                } else {
                    0int
                }) by {
                    lemma_occ_add(flat(a), flat(b), j);
                    lemma_occ_add(flat(a) + r1, flat(b), j);
                    lemma_occ_add(flat(a), r1, j);
                    lemma_occ_repeat(k, 1, j);
                }
                assert(wf_entries(nes)) by {
                    assert forall|m: int, n: int| 0 <= m < n < nes.len() implies nes[m].0
                        < nes[n].0 by {
                        assert(forall|p: int| 0 <= p < i ==> (#[trigger] nes[p]) == oes[p]);
                        assert(forall|p: int|
                            i < p < nes.len() ==> (#[trigger] nes[p]) == oes[p - 1]);
                    }
                    assert(forall|m: int| 0 <= m < nes.len() ==> (#[trigger] nes[m]).1 >= 1);
                }
            }
        }
    }

    /// Removes one occurrence of `k` and returns a copy of it, or `None`
    /// (without mutation) when `k` is absent.
    pub fn remove_one(&mut self, k: i64) -> (r: Option<i64>)
        requires
            old(self).wf(),
        ensures
            final (self).wf(),
            !old(self)@.contains(k) ==> r is None && final (self)@ == old(self)@,
            old(self)@.contains(k) ==> {
                &&& r == Some(k)
                &&& final (self)@.len() + 1 == old(self)@.len()
                &&& occ(final (self)@, k) + 1 == occ(old(self)@, k)
                &&& forall|j: i64| j != k ==> occ(final (self)@, j) == occ(old(self)@, j)
            },
    {
        let i = self.lower_bound(k);
        if i < self.entries.len() {
            let e = self.entries[i];
            if e.0 == k {
                proof {
                    lemma_flat_contains(self.entries@, k);
                    lemma_entry_le_flat_len(self.entries@, i as int);
                }
                let c = e.1;
                if c > 1 {
                    self.entries[i] = (k, c - 1);
                } else {
                    self.entries.remove(i);
                }
                self.total = self.total - 1;
                proof {
                    let oes = old(self).entries@;
                    let nes = self.entries@;
                    let a = oes.subrange(0, i as int);
                    let b = oes.subrange(i as int + 1, oes.len() as int);
                    lemma_flat_split(oes, i as int);
                    let rold = repeat_of(k, c as nat);
                    assert(flat(oes) == flat(a) + rold + flat(b));
                    if c > 1 {
                        lemma_flat_split(nes, i as int);
                        assert(nes.subrange(0, i as int) =~= a);
                        assert(nes.subrange(i as int + 1, nes.len() as int) =~= b);
                        let rnew = repeat_of(k, (c - 1) as nat);
                        assert(flat(nes) == flat(a) + rnew + flat(b));
                        assert forall|j: i64| true implies #[trigger] occ(flat(nes), j) + (if j
                            == k {
                            1int
                        } else {
                            0int
                        }) == occ(flat(oes), j) by {
                            lemma_occ_add(flat(a) + rold, flat(b), j);
                            lemma_occ_add(flat(a), rold, j);
                            lemma_occ_add(flat(a) + rnew, flat(b), j);
                            lemma_occ_add(flat(a), rnew, j);
                            lemma_occ_repeat(k, c as nat, j);
                            lemma_occ_repeat(k, (c - 1) as nat, j);
                        }
                        assert(wf_entries(nes)) by {
                            assert(forall|m: int|
                                0 <= m < nes.len() ==> (#[trigger] nes[m]).0 == oes[m].0);
                        }
                    } else {
                        assert(nes =~= a + b);
                        lemma_flat_add(a, b);
                        assert(flat(nes) == flat(a) + flat(b));
                        assert forall|j: i64| true implies #[trigger] occ(flat(nes), j) + (if j
                            == k {
                            1int
                        } else {
                            0int
                        }) == occ(flat(oes), j) by {
                            lemma_occ_add(flat(a) + rold, flat(b), j);
                            lemma_occ_add(flat(a), rold, j);
                            lemma_occ_add(flat(a), flat(b), j);
                            lemma_occ_repeat(k, c as nat, j);
                        }
                        assert(wf_entries(nes)) by {
                            assert(forall|p: int| 0 <= p < i ==> (#[trigger] nes[p]) == oes[p]);
                            assert(forall|p: int|
                                i <= p < nes.len() ==> (#[trigger] nes[p]) == oes[p + 1]);
                        }
                    }
                }
                return Some(k);
            }
        }
        proof {
            self.lemma_key_only_at(i as int, k);
            lemma_flat_contains(self.entries@, k);
        }
        None
    }

    /// Removes every occurrence of `k` at once and returns a copy of it, or
    /// `None` (without mutation) when `k` is absent.  Afterwards `k` is never
    /// contained.
    pub fn remove_all(&mut self, k: i64) -> (r: Option<i64>)
        requires
            old(self).wf(),
        ensures
            final (self).wf(),
            !old(self)@.contains(k) ==> r is None && final (self)@ == old(self)@,
            old(self)@.contains(k) ==> {
                &&& r == Some(k)
                &&& final (self)@.len() + occ(old(self)@, k) == old(self)@.len()
                &&& forall|j: i64| j != k ==> occ(final (self)@, j) == occ(old(self)@, j)
            },
            occ(final (self)@, k) == 0,
            !final (self)@.contains(k),
    {
        let i = self.lower_bound(k);
        if i < self.entries.len() {
            let e = self.entries[i];
            if e.0 == k {
                proof {
                    lemma_flat_contains(self.entries@, k);
                    lemma_entry_le_flat_len(self.entries@, i as int);
                    lemma_occ_at(self.entries@, i as int, k);
                }
                let c = e.1;
                self.total = self.total - c;
                self.entries.remove(i);
                proof {
                    let oes = old(self).entries@;
                    let nes = self.entries@;
                    let a = oes.subrange(0, i as int);
                    let b = oes.subrange(i as int + 1, oes.len() as int);
                    lemma_flat_split(oes, i as int);
                    let rold = repeat_of(k, c as nat);
                    assert(flat(oes) == flat(a) + rold + flat(b));
                    assert(nes =~= a + b);
                    lemma_flat_add(a, b);
                    assert(flat(nes) == flat(a) + flat(b));
                    assert forall|j: i64| true implies #[trigger] occ(flat(nes), j) + (if j == k {
                        c as int
                    } else {
                        0int
                    }) == occ(flat(oes), j) by {
                        lemma_occ_add(flat(a) + rold, flat(b), j);
                        lemma_occ_add(flat(a), rold, j);
                        lemma_occ_add(flat(a), flat(b), j);
                        lemma_occ_repeat(k, c as nat, j);
                    }
                    assert(wf_entries(nes)) by {
                        assert(forall|p: int| 0 <= p < i ==> (#[trigger] nes[p]) == oes[p]);
                        assert(forall|p: int|
                            i <= p < nes.len() ==> (#[trigger] nes[p]) == oes[p + 1]);
                    }
                    lemma_flat_contains(nes, k);
                    assert forall|p: int| 0 <= p < nes.len() implies (#[trigger] nes[p]).0
                        != k by {
                        if p >= i {
                            assert(oes[i as int].0 < oes[p + 1].0);
                        }
                    }
                }
                return Some(k);
            }
        }
        proof {
            self.lemma_key_only_at(i as int, k);
            lemma_flat_contains(self.entries@, k);
            lemma_occ_absent(self.entries@, k);
        }
        None
    }

    /// Removes one occurrence of the minimum element and returns a copy of
    /// it, or `None` when the multiset is empty.
    pub fn pop_first(&mut self) -> (r: Option<i64>)
        requires
            old(self).wf(),
        ensures
            final (self).wf(),
            old(self)@.len() == 0 ==> r is None && final (self)@ == old(self)@,
            old(self)@.len() > 0 ==> r == Some(old(self)@[0]) && final (self)@ == old(
                self,
            )@.drop_first(),
    {
        if self.entries.len() == 0 {
            proof {
                assert(flat(self.entries@) =~= Seq::<i64>::empty());
            }
            return None;
        }
        let e = self.entries[0];
        proof {
            lemma_flat_first(self.entries@);
        }
        let c = e.1;
        if c > 1 {
            self.entries[0] = (e.0, c - 1);
        } else {
            self.entries.remove(0);
        }
        self.total = self.total - 1;
        proof {
            let oes = old(self).entries@;
            let nes = self.entries@;
            let d = oes.drop_first();
            assert(flat(oes) == repeat_of(e.0, c as nat) + flat(d));
            if c > 1 {
                assert(nes[0] == (e.0, (c - 1) as usize));
                assert(nes.drop_first() =~= d);
                assert(flat(nes) == repeat_of(e.0, (c - 1) as nat) + flat(nes.drop_first()));
                assert(flat(nes) =~= flat(oes).drop_first());
                assert(wf_entries(nes)) by {
                    assert(forall|m: int|
                        0 <= m < nes.len() ==> (#[trigger] nes[m]).0 == oes[m].0);
                }
            } else {
                assert(nes =~= d);
                assert(flat(nes) =~= flat(oes).drop_first());
                assert(wf_entries(nes)) by {
                    assert(forall|p: int|
                        0 <= p < nes.len() ==> (#[trigger] nes[p]) == oes[p + 1]);
                }
            }
        }
        Some(e.0)
    }

    /// Removes one occurrence of the maximum element and returns a copy of
    /// it, or `None` when the multiset is empty.
    pub fn pop_last(&mut self) -> (r: Option<i64>)
        requires
            old(self).wf(),
        ensures
            final (self).wf(),
            old(self)@.len() == 0 ==> r is None && final (self)@ == old(self)@,
            old(self)@.len() > 0 ==> r == Some(old(self)@.last()) && final (self)@ == old(
                self,
            )@.drop_last(),
    {
        if self.entries.len() == 0 {
            proof {
                assert(flat(self.entries@) =~= Seq::<i64>::empty());
            }
            return None;
        }
        let n = self.entries.len();
        let e = self.entries[n - 1];
        proof {
            lemma_flat_last(self.entries@);
            lemma_entry_le_flat_len(self.entries@, n - 1 as int);
        }
        let c = e.1;
        if c > 1 {
            self.entries[n - 1] = (e.0, c - 1);
        } else {
            self.entries.remove(n - 1);
        }
        self.total = self.total - 1;
        proof {
            let oes = old(self).entries@;
            let nes = self.entries@;
            let a = oes.subrange(0, n - 1 as int);
            lemma_flat_split(oes, n - 1 as int);
            assert(oes.subrange(n as int, oes.len() as int) =~= Seq::<(i64, usize)>::empty());
            assert(flat(Seq::<(i64, usize)>::empty()) =~= Seq::<i64>::empty());
            let rold = repeat_of(e.0, c as nat);
            assert(flat(oes) =~= flat(a) + rold);
            if c > 1 {
                lemma_flat_split(nes, n - 1 as int);
                assert(nes.subrange(0, n - 1 as int) =~= a);
                assert(nes.subrange(n as int, nes.len() as int) =~= Seq::<(i64, usize)>::empty());
                let rnew = repeat_of(e.0, (c - 1) as nat);
                assert(flat(nes) =~= flat(a) + rnew);
                assert(flat(nes) =~= flat(oes).drop_last());
                assert(wf_entries(nes)) by {
                    assert(forall|m: int|
                        0 <= m < nes.len() ==> (#[trigger] nes[m]).0 == oes[m].0);
                }
            } else {
                assert(nes =~= a);
                assert(flat(nes) =~= flat(oes).drop_last());
                assert(wf_entries(nes)) by {
                    assert(forall|p: int| 0 <= p < nes.len() ==> (#[trigger] nes[p]) == oes[p]);
                }
            }
        }
        Some(e.0)
    }

    /// Produces all stored elements in ascending order, each one repeated as
    /// many times as it occurs.  A fresh traversal is produced on every call.
    pub fn iter(&self) -> (r: Vec<i64>)
        requires
            self.wf(),
        ensures
            r@ == self@,
    {
        let mut out: Vec<i64> = Vec::new();
        let mut i: usize = 0;
        while i < self.entries.len()
            invariant
                self.wf(),
                i <= self.entries@.len(),
                out@ == flat(self.entries@.subrange(0, i as int)),
            decreases self.entries@.len() - i,
        {
            let e = self.entries[i];
            proof {
                assert(out@ =~= flat(self.entries@.subrange(0, i as int)) + repeat_of(e.0, 0));
            }
            let mut j: usize = 0;
            while j < e.1
                invariant
                    self.wf(),
                    i < self.entries@.len(),
                    e == self.entries@[i as int],
                    j <= e.1,
                    out@ == flat(self.entries@.subrange(0, i as int)) + repeat_of(e.0, j as nat),
                decreases e.1 - j,
            {
                let ghost prev = out@;
                out.push(e.0);
                proof {
                    assert(flat(self.entries@.subrange(0, i as int)) + repeat_of(
                        e.0,
                        (j + 1) as nat,
                    ) =~= prev.push(e.0));
                }
                j = j + 1;
            }
            proof {
                let es = self.entries@;
                assert(es.subrange(0, i as int + 1) =~= es.subrange(0, i as int) + seq![es[i as int]]);
                lemma_flat_add(es.subrange(0, i as int), seq![es[i as int]]);
                lemma_flat_singleton(es[i as int]);
            }
            i = i + 1;
        }
        proof {
            assert(self.entries@.subrange(0, self.entries@.len() as int) =~= self.entries@);
        }
        out
    }

    /// Produces all stored elements in descending order: the reverse of
    /// [`Self::iter`].
    pub fn iter_rev(&self) -> (r: Vec<i64>)
        requires
            self.wf(),
        ensures
            r@ == self@.reverse(),
    {
        let all = self.iter();
        reversed(&all)
    }

    /// Produces, in ascending order, the stored elements that lie between the
    /// two bounds, each one repeated as many times as it occurs.
    pub fn range(&self, lo: Bound, hi: Bound) -> (r: Vec<i64>)
        requires
            self.wf(),
        ensures
            r@ == range_view(self@, lo, hi),
    {
        let all = self.iter();
        let mut out: Vec<i64> = Vec::new();
        let mut i: usize = 0;
        proof {
            assert(all@.subrange(0, 0) =~= Seq::<i64>::empty());
            reveal(Seq::filter);
        }
        while i < all.len()
            invariant
                i <= all@.len(),
                all@ == self@,
                out@ == all@.subrange(0, i as int).filter(in_range(lo, hi)),
            decreases all@.len() - i,
        {
            let x = all[i];
            if bound_check(lo, hi, x) {
                out.push(x);
            }
            proof {
                let pre = all@.subrange(0, i as int);
                assert(all@.subrange(0, i as int + 1) =~= pre.push(x));
                lemma_filter_push(pre, x, in_range(lo, hi));
            }
            i = i + 1;
        }
        proof {
            assert(all@.subrange(0, all@.len() as int) =~= all@);
        }
        out
    }

    /// Traverses the same restricted range as [`Self::range`], in descending
    /// order: exactly the forward range reversed.
    pub fn range_rev(&self, lo: Bound, hi: Bound) -> (r: Vec<i64>)
        requires
            self.wf(),
        ensures
            r@ == range_view(self@, lo, hi).reverse(),
    {
        let fwd = self.range(lo, hi);
        reversed(&fwd)
    }

    /// The flat view is in non-decreasing order, and the occurrences of any
    /// one element form a single contiguous run.  Together with the contracts
    /// of [`Self::iter`] and [`Self::count`], a full traversal therefore
    /// yields each distinct element exactly `count` times, consecutively.
    pub proof fn lemma_iterate_order(&self)
        requires
            self.wf(),
        ensures
            sorted_asc(self@),
            forall|i: int, j: int, l: int|
                0 <= i <= j <= l < self@.len() && self@[i] == self@[l] ==> self@[j] == self@[i],
    {
        lemma_flat_sorted(self.entries@);
        assert forall|i: int, j: int, l: int|
            0 <= i <= j <= l < self@.len() && self@[i] == self@[l] implies self@[j] == self@[i] by {
            assert(self@[i] <= self@[j]);
            assert(self@[j] <= self@[l]);
        }
    }

    /// The size of the multiset is the sum of the multiplicities of all its
    /// elements: the view's multiset abstraction has the same cardinality,
    /// and counts every element exactly as [`Self::count`] reports.
    pub proof fn lemma_size_is_sum_of_counts(&self)
        requires
            self.wf(),
        ensures
            self@.to_multiset().len() == self@.len(),
            forall|k: i64| occ(self@, k) == self@.to_multiset().count(k),
    {
        broadcast use vstd::seq_lib::group_to_multiset_ensures;

        assert forall|k: i64| occ(self@, k) == self@.to_multiset().count(k) by {
            lemma_occ_multiset(self@, k);
        }
    }
}

/// Inserting an element and then removing one occurrence of the same element
/// restores every multiplicity: the hypotheses are exactly what the contracts
/// of [`TreeMultiSet::insert`] and [`TreeMultiSet::remove_one`] state about
/// the views before the pair of calls (`s0`), between them (`s1`), and after
/// them (`s2`).
pub proof fn lemma_insert_remove_inverse(s0: Seq<i64>, s1: Seq<i64>, s2: Seq<i64>, k: i64)
    requires
        occ(s1, k) == occ(s0, k) + 1,
        forall|j: i64| j != k ==> occ(s1, j) == occ(s0, j),
        occ(s2, k) + 1 == occ(s1, k),
        forall|j: i64| j != k ==> occ(s2, j) == occ(s1, j),
    ensures
        forall|j: i64| occ(s2, j) == occ(s0, j),
{
}

} // verus!
