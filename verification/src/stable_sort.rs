//! Stable sorting of keyed entries: entries are ordered by key, and entries with equal
//! keys keep their input order.
use vstd::prelude::*;

verus! {

/// A sort key: an integer type, ordered as the integers it stands for.
pub trait SortKey: Copy {
    /// The integer the key stands for.
    spec fn key_int(self) -> int;

    /// Whether `self` sorts after `other`.
    fn greater_than(&self, other: &Self) -> (r: bool)
        ensures
            r == (self.key_int() > other.key_int()),
    ;
}

impl SortKey for i32 {
    open spec fn key_int(self) -> int {
        self as int
    }

    fn greater_than(&self, other: &Self) -> (r: bool) {
        *self > *other
    }
}

impl SortKey for u64 {
    open spec fn key_int(self) -> int {
        self as int
    }

    fn greater_than(&self, other: &Self) -> (r: bool) {
        *self > *other
    }
}

/// Position at which an entry with key `key` goes into `s`: after the last entry whose key
/// is not greater than `key` (scanning from the end).
pub open spec fn insert_pos<T, K: SortKey>(s: Seq<(T, K)>, key: K) -> int
    decreases s.len(),
{
    if s.len() == 0 {
        0
    } else if s.last().1.key_int() <= key.key_int() {
        s.len() as int
    } else {
        insert_pos(s.drop_last(), key)
    }
}

/// Stable sort by key, defined by insertion: each entry, in order, goes after every
/// already placed entry whose key is not greater than its own.
pub open spec fn sorted_by_key<T, K: SortKey>(s: Seq<(T, K)>) -> Seq<(T, K)>
    decreases s.len(),
{
    if s.len() == 0 {
        s
    } else {
        let rest = sorted_by_key(s.drop_last());
        rest.insert(insert_pos(rest, s.last().1), s.last())
    }
}

/// Keys never decrease along `s`.
pub open spec fn keys_nondecreasing<T, K: SortKey>(s: Seq<(T, K)>) -> bool {
    forall|i: int, j: int|
        0 <= i <= j < s.len() ==> #[trigger] s[i].1.key_int() <= #[trigger] s[j].1.key_int()
}

/// The entries of `s` whose key stands for `k`, in their order in `s`.
pub open spec fn with_key<T, K: SortKey>(s: Seq<(T, K)>, k: int) -> Seq<(T, K)> {
    s.filter(key_is(k))
}

/// The entry's key stands for `k`.
pub open spec fn key_is<T, K: SortKey>(k: int) -> spec_fn((T, K)) -> bool {
    |e: (T, K)| e.1.key_int() == k
}

proof fn lemma_insert_pos_bounds<T, K: SortKey>(s: Seq<(T, K)>, key: K)
    requires
        keys_nondecreasing(s),
    ensures
        0 <= insert_pos(s, key) <= s.len(),
        forall|t: int| 0 <= t < insert_pos(s, key) ==> #[trigger] s[t].1.key_int() <= key.key_int(),
        forall|t: int| insert_pos(s, key) <= t < s.len() ==> #[trigger] s[t].1.key_int() > key.key_int(),
    decreases s.len(),
{
    if s.len() == 0 {
    } else if s.last().1.key_int() <= key.key_int() {
    } else {
        let d = s.drop_last();
        assert(keys_nondecreasing(d)) by {
            assert forall|i: int, j: int| 0 <= i <= j < d.len() implies #[trigger] d[i].1.key_int()
                <= #[trigger] d[j].1.key_int() by {
                assert(d[i] == s[i] && d[j] == s[j]);
            }
        }
        lemma_insert_pos_bounds(d, key);
        assert forall|t: int| 0 <= t < insert_pos(s, key) implies #[trigger] s[t].1.key_int() <= key.key_int() by {
            assert(s[t] == d[t]);
        }
        assert forall|t: int| insert_pos(s, key) <= t < s.len() implies #[trigger] s[t].1.key_int() > key.key_int() by {
            if t < d.len() {
                assert(s[t] == d[t]);
            }
        }
    }
}

/// Law: sorting orders entries by key, and entries with the same key keep their input
/// relative order (so nothing is lost, duplicated or reordered among equal keys).
pub proof fn law_sort_is_stable<T, K: SortKey>(s: Seq<(T, K)>)
    ensures
        keys_nondecreasing(sorted_by_key(s)),
        forall|k: int| #[trigger] with_key(sorted_by_key(s), k) == with_key(s, k),
        sorted_by_key(s).len() == s.len(),
    decreases s.len(),
{
    if s.len() == 0 {
    } else {
        let d = s.drop_last();
        let x = s.last();
        law_sort_is_stable(d);
        let rest = sorted_by_key(d);
        let p = insert_pos(rest, x.1);
        lemma_insert_pos_bounds(rest, x.1);
        let r = rest.insert(p, x);
        assert(r == sorted_by_key(s));
        assert(r =~= rest.take(p) + seq![x] + rest.skip(p));
        assert forall|i: int, j: int| 0 <= i <= j < r.len() implies #[trigger] r[i].1.key_int()
            <= #[trigger] r[j].1.key_int() by {
            if j < p {
                assert(r[i] == rest[i] && r[j] == rest[j]);
            } else if j == p {
                if i < p {
                    assert(r[i] == rest[i]);
                }
            } else if i > p {
                assert(r[i] == rest[i - 1] && r[j] == rest[j - 1]);
            } else if i == p {
                assert(r[j] == rest[j - 1]);
            } else {
                assert(r[i] == rest[i] && r[j] == rest[j - 1]);
            }
        }
        assert forall|k: int| #[trigger] with_key(r, k) == with_key(s, k) by {
            let pred = key_is::<T, K>(k);
            let a = rest.take(p);
            let b = rest.skip(p);
            let xs = seq![x];
            assert(r =~= (a + xs) + b);
            Seq::filter_distributes_over_add(a + xs, b, pred);
            Seq::filter_distributes_over_add(a, xs, pred);
            Seq::filter_distributes_over_add(a, b, pred);
            assert(rest =~= a + b);
            assert(with_key(r, k) == (a.filter(pred) + xs.filter(pred)) + b.filter(pred));
            assert(with_key(rest, k) == a.filter(pred) + b.filter(pred));
            assert(with_key(rest, k) == with_key(d, k));
            assert(s =~= d.push(x));
            d.lemma_filter_push(x, pred);
            assert(xs.filter(pred) =~= if x.1.key_int() == k { xs } else { Seq::empty() }) by {
                reveal_with_fuel(Seq::filter, 2);
                assert(xs.drop_last() =~= Seq::<(T, K)>::empty());
            }
            if x.1.key_int() == k {
                assert forall|t: int| 0 <= t < b.len() implies !pred(#[trigger] b[t]) by {
                    assert(b[t] == rest[p + t]);
                }
                b.lemma_all_neg_filter_empty(pred);
                assert(b.filter(pred) =~= Seq::<(T, K)>::empty());
                assert(with_key(r, k) =~= a.filter(pred) + xs);
                assert(with_key(s, k) == with_key(d, k).push(x));
                assert(with_key(d, k) =~= a.filter(pred));
                assert(with_key(r, k) =~= with_key(s, k));
            } else {
                assert(with_key(s, k) == with_key(d, k));
                assert(with_key(r, k) =~= a.filter(pred) + b.filter(pred));
            }
        }
    }
}

/// Every entry of the sorted sequence occurs in the input.
pub proof fn lemma_sorted_entries_from_input<T, K: SortKey>(s: Seq<(T, K)>)
    ensures
        sorted_by_key(s).len() == s.len(),
        forall|t: int| 0 <= t < sorted_by_key(s).len() ==> s.contains(#[trigger] sorted_by_key(s)[t]),
    decreases s.len(),
{
    if s.len() > 0 {
        let d = s.drop_last();
        lemma_sorted_entries_from_input(d);
        let rest = sorted_by_key(d);
        let p = insert_pos(rest, s.last().1);
        law_sort_is_stable(d);
        lemma_insert_pos_bounds(rest, s.last().1);
        let r = rest.insert(p, s.last());
        assert forall|t: int| 0 <= t < r.len() implies s.contains(#[trigger] r[t]) by {
            if t < p {
                assert(r[t] == rest[t]);
                let u = choose|u: int| 0 <= u < d.len() && d[u] == rest[t];
                assert(s[u] == d[u]);
            } else if t == p {
                assert(s[s.len() - 1] == s.last());
            } else {
                assert(r[t] == rest[t - 1]);
                let u = choose|u: int| 0 <= u < d.len() && d[u] == rest[t - 1];
                assert(s[u] == d[u]);
            }
        }
    }
}

/// The first components of the entries of `s` are pairwise different.
pub open spec fn distinct_firsts<T, K: SortKey>(s: Seq<(T, K)>) -> bool {
    forall|p: int, q: int| 0 <= p < q < s.len() ==> #[trigger] s[p].0 != #[trigger] s[q].0
}

/// Sorting keeps the first components of the entries pairwise different.
pub proof fn lemma_sorted_distinct_firsts<T, K: SortKey>(s: Seq<(T, K)>)
    requires
        distinct_firsts(s),
    ensures
        distinct_firsts(sorted_by_key(s)),
    decreases s.len(),
{
    if s.len() > 0 {
        let d = s.drop_last();
        let x = s.last();
        assert(distinct_firsts(d)) by {
            assert forall|p: int, q: int| 0 <= p < q < d.len() implies #[trigger] d[p].0
                != #[trigger] d[q].0 by {
                assert(d[p] == s[p] && d[q] == s[q]);
            }
        }
        lemma_sorted_distinct_firsts(d);
        lemma_sorted_entries_from_input(d);
        let rest = sorted_by_key(d);
        let p = insert_pos(rest, x.1);
        law_sort_is_stable(d);
        lemma_insert_pos_bounds(rest, x.1);
        let r = rest.insert(p, x);
        assert forall|t: int| 0 <= t < rest.len() implies #[trigger] rest[t].0 != x.0 by {
            let u = choose|u: int| 0 <= u < d.len() && d[u] == rest[t];
            assert(s[u] == d[u] && s[s.len() - 1] == x);
        }
        assert forall|a: int, b: int| 0 <= a < b < r.len() implies #[trigger] r[a].0
            != #[trigger] r[b].0 by {
            if b < p {
                assert(r[a] == rest[a] && r[b] == rest[b]);
            } else if b == p {
                assert(r[a] == rest[a] && r[b] == x);
            } else if a > p {
                assert(r[a] == rest[a - 1] && r[b] == rest[b - 1]);
            } else if a == p {
                assert(r[a] == x && r[b] == rest[b - 1]);
            } else {
                assert(r[a] == rest[a] && r[b] == rest[b - 1]);
            }
        }
    }
}

/// Sorts entries by key, stably: keys ascend, and the entries of each key keep their
/// input order.
pub fn stable_sort_by_key<T: Copy, K: SortKey>(items: &Vec<(T, K)>) -> (r: Vec<(T, K)>)
    ensures
        r@ == sorted_by_key(items@),
        r@.len() == items@.len(),
        keys_nondecreasing(r@),
        forall|k: int| #[trigger] with_key(r@, k) == with_key(items@, k),
{
    let mut r: Vec<(T, K)> = Vec::new();
    let mut i: usize = 0;
    while i < items.len()
        invariant
            i <= items@.len(),
            r@ == sorted_by_key(items@.take(i as int)),
        decreases items@.len() - i,
    {
        let x = items[i];
        let key = x.1;
        let mut j = r.len();
        proof {
            assert(r@.take(j as int) =~= r@);
        }
        while j > 0 && r[j - 1].1.greater_than(&key)
            invariant
                j <= r@.len(),
                insert_pos(r@, key) == insert_pos(r@.take(j as int), key),
            decreases j,
        {
            proof {
                assert(r@.take(j as int).drop_last() =~= r@.take(j - 1));
            }
            j = j - 1;
        }
        proof {
            if j == 0 {
                assert(r@.take(0) =~= Seq::<(T, K)>::empty());
            }
            assert(insert_pos(r@, key) == j);
            assert(items@.take(i + 1).drop_last() =~= items@.take(i as int));
            assert(items@.take(i + 1).last() == x);
        }
        r.insert(j, x);
        i = i + 1;
    }
    proof {
        assert(items@.take(items@.len() as int) =~= items@);
        law_sort_is_stable(items@);
    }
    r
}

} // verus!
