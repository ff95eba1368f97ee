//! Reconciliation of a keyed child list: which old children are kept, which are
//! removed, and where new children are built, so that unchanged items keep their
//! children.
use vstd::prelude::*;
use crate::lcs::{
    is_longest_run, is_common_run, observed_match, observed_mismatch, run_bounded, blocked_at,
    first_of_length, lcs_in,
};

verus! {

/// One entry of the new child list.
#[derive(Clone, Copy, PartialEq, Eq, Debug)]
pub enum ListOp {
    /// Reuse the child built for the old item at this index.
    Keep(usize),
    /// Build a new child for the new item at this index.
    Insert(usize),
}

/// The result of reconciling an old item list with a new one.
pub struct ListPatch {
    /// The new child list, in order: one entry per new item.
    pub ops: Vec<ListOp>,
    /// Indices of old items whose children are despawned, in increasing order.
    pub removed: Vec<usize>,
}

/// `op` keeps the old item `p`.
pub open spec fn keeps(op: ListOp, p: int) -> bool {
    match op {
        ListOp::Keep(q) => q == p,
        ListOp::Insert(_) => false,
    }
}

/// Old item `p` is kept somewhere in `ops`.
pub open spec fn is_kept(ops: Seq<ListOp>, p: int) -> bool {
    exists|k: int| 0 <= k < ops.len() && #[trigger] keeps(ops[k], p)
}

/// Entry `k` of a segment that covers old items `[ps, pe)` and new items from `ns` on
/// stands for new item `ns + k`: either a new child for it, or an old child whose item
/// matched it.
pub open spec fn op_fits<T, F: Fn(&T, &T) -> bool>(
    same: F,
    prev: Seq<T>,
    next: Seq<T>,
    ps: int,
    pe: int,
    ns: int,
    op: ListOp,
    k: int,
) -> bool {
    match op {
        ListOp::Insert(n) => n == ns + k,
        ListOp::Keep(p) => ps <= p < pe && observed_match(same, prev, next, p as int, ns + k),
    }
}

/// Two entries keep old children in their old order.
pub open spec fn keeps_in_order(o1: ListOp, o2: ListOp) -> bool {
    match (o1, o2) {
        (ListOp::Keep(p1), ListOp::Keep(p2)) => p1 < p2,
        _ => true,
    }
}

/// `ops` and `rem` reconcile old items `prev[ps..pe]` with new items `next[ns..ne]`:
/// * one entry per new item, in order, each a new child or a matching old child;
/// * kept old children stay in their old order;
/// * every old item of the range is either kept or removed, never both, and removals
///   are listed once each, in increasing order.
pub open spec fn valid_patch<T, F: Fn(&T, &T) -> bool>(
    same: F,
    prev: Seq<T>,
    next: Seq<T>,
    ps: int,
    pe: int,
    ns: int,
    ne: int,
    ops: Seq<ListOp>,
    rem: Seq<usize>,
) -> bool {
    &&& 0 <= ps <= pe <= prev.len()
    &&& 0 <= ns <= ne <= next.len()
    &&& ops.len() == ne - ns
    &&& forall|k: int| 0 <= k < ops.len() ==> #[trigger] op_fits(same, prev, next, ps, pe, ns, ops[k], k)
    &&& forall|k1: int, k2: int|
        0 <= k1 < k2 < ops.len() ==> #[trigger] keeps_in_order(ops[k1], ops[k2])
    &&& forall|r: int| 0 <= r < rem.len() ==> ps <= #[trigger] rem[r] < pe
    &&& forall|r1: int, r2: int| 0 <= r1 < r2 < rem.len() ==> #[trigger] rem[r1] < #[trigger] rem[r2]
    &&& forall|k: int, r: int|
        0 <= k < ops.len() && 0 <= r < rem.len() ==> !#[trigger] keeps(ops[k], #[trigger] rem[r] as int)
    &&& forall|p: int| ps <= p < pe ==> #[trigger] is_kept(ops, p) || rem.contains(p as usize)
}

/// The comparator never answers `false` along the run of length `len` at `(i, j)`.
pub open spec fn run_without_mismatch<T, F: Fn(&T, &T) -> bool>(
    same: F,
    prev: Seq<T>,
    next: Seq<T>,
    i: int,
    j: int,
    len: int,
) -> bool {
    &&& 0 <= i
    &&& 0 <= j
    &&& 0 <= len
    &&& i + len <= prev.len()
    &&& j + len <= next.len()
    &&& forall|t: int| 0 <= t < len ==> !#[trigger] observed_mismatch(same, prev, next, i + t, j + t)
}

/// The old items `prev[ps..pe]` appear, in order and contiguously, inside `next[ns..ne]`.
pub open spec fn old_run_inside_new<T, F: Fn(&T, &T) -> bool>(
    same: F,
    prev: Seq<T>,
    next: Seq<T>,
    ps: int,
    pe: int,
    ns: int,
    ne: int,
) -> bool {
    exists|b0: int|
        ns <= b0 && b0 + (pe - ps) <= ne && #[trigger] run_without_mismatch(
            same,
            prev,
            next,
            ps,
            b0,
            pe - ps,
        )
}

/// The new items `next[ns..ne]` appear, in order and contiguously, inside `prev[ps..pe]`.
pub open spec fn new_run_inside_old<T, F: Fn(&T, &T) -> bool>(
    same: F,
    prev: Seq<T>,
    next: Seq<T>,
    ps: int,
    pe: int,
    ns: int,
    ne: int,
) -> bool {
    exists|a0: int|
        ps <= a0 && a0 + (ne - ns) <= pe && #[trigger] run_without_mismatch(
            same,
            prev,
            next,
            a0,
            ns,
            ne - ns,
        )
}

/// Entry `k` keeps old child `a + k`, for every `k`.
pub open spec fn keeps_run_from(ops: Seq<ListOp>, a: int) -> bool {
    forall|k: int| 0 <= k < ops.len() ==> #[trigger] keeps(ops[k], a + k)
}

/// Every entry keeps an old child, and the kept children form one contiguous run
/// starting at or after `lo`.
pub open spec fn keeps_one_run(ops: Seq<ListOp>, lo: int) -> bool {
    exists|a: int| lo <= a && #[trigger] keeps_run_from(ops, a)
}

/// Entries that build the new items `ns..ne`, in order.
pub open spec fn insert_run(ns: int, ne: int) -> Seq<ListOp> {
    Seq::new((ne - ns) as nat, |k: int| ListOp::Insert((ns + k) as usize))
}

/// Entries that keep the old items `ps..ps + len`, in order.
pub open spec fn keep_run(ps: int, len: int) -> Seq<ListOp> {
    Seq::new(len as nat, |k: int| ListOp::Keep((ps + k) as usize))
}

/// The old items `ps..pe`, in order.
pub open spec fn removal_run(ps: int, pe: int) -> Seq<usize> {
    Seq::new((pe - ps) as nat, |k: int| (ps + k) as usize)
}

/// The common run that reconciliation takes between `prev[ps..pe]` and `next[ns..ne]`:
/// a longest one, and among those the first in row-major order of start positions.
pub open spec fn chosen_run<T, F: Fn(&T, &T) -> bool>(
    same: F,
    prev: Seq<T>,
    next: Seq<T>,
    ps: int,
    pe: int,
    ns: int,
    ne: int,
    r: (usize, usize, usize),
) -> bool {
    &&& is_longest_run(same, prev, next, ps, pe, ns, ne, r)
    &&& first_of_length(same, prev, next, ps, pe, ns, ne, r.0 as int, r.1 as int, r.2 as int)
}

/// `m` splits the removals between the two sides of a chosen run.
pub open spec fn removal_split(rem: Seq<usize>, m: int) -> bool {
    0 <= m <= rem.len()
}

/// One side of a chosen run: with old and new items on it, it is reconciled like a whole
/// list; otherwise its old items are removed and its new items are built.
pub open spec fn side_plan<T, F: Fn(&T, &T) -> bool>(
    same: F,
    prev: Seq<T>,
    next: Seq<T>,
    ps: int,
    pe: int,
    ns: int,
    ne: int,
    ops: Seq<ListOp>,
    rem: Seq<usize>,
) -> bool
    decreases (pe - ps) + (ne - ns), 1int,
{
    if 0 <= ps < pe && 0 <= ns < ne {
        exact_plan(same, prev, next, ps, pe, ns, ne, ops, rem)
    } else {
        ops == insert_run(ns, ne) && rem == removal_run(ps, pe)
    }
}

/// `ops` and `rem` are exactly what reconciling `prev[ps..pe]` with `next[ns..ne]` gives:
/// take the chosen common run; when it is empty, remove every old item and build every
/// new one; otherwise keep the run's old children in place and reconcile the items that
/// precede it and the items that follow it in the same way.
pub open spec fn exact_plan<T, F: Fn(&T, &T) -> bool>(
    same: F,
    prev: Seq<T>,
    next: Seq<T>,
    ps: int,
    pe: int,
    ns: int,
    ne: int,
    ops: Seq<ListOp>,
    rem: Seq<usize>,
) -> bool
    decreases (pe - ps) + (ne - ns), 0int,
{
    if !(0 <= ps <= pe && 0 <= ns <= ne) {
        false
    } else {
        exists|r: (usize, usize, usize)|
            #[trigger] chosen_run(same, prev, next, ps, pe, ns, ne, r) && if r.2 == 0 {
                ops == insert_run(ns, ne) && rem == removal_run(ps, pe)
            } else {
                &&& ops.len() == ne - ns
                &&& ops.subrange(r.1 - ns, r.1 - ns + r.2) == keep_run(r.0 as int, r.2 as int)
                &&& exists|m: int|
                    #[trigger] removal_split(rem, m) && side_plan(
                        same,
                        prev,
                        next,
                        ps,
                        r.0 as int,
                        ns,
                        r.1 as int,
                        ops.take(r.1 - ns),
                        rem.take(m),
                    ) && side_plan(
                        same,
                        prev,
                        next,
                        r.0 + r.2,
                        pe,
                        r.1 + r.2,
                        ne,
                        ops.skip(r.1 - ns + r.2),
                        rem.skip(m),
                    )
            }
    }
}

/// Assembles an exact plan from a chosen run and the plans of its two sides.
proof fn lemma_exact_plan_join<T, F: Fn(&T, &T) -> bool>(
    same: F,
    prev: Seq<T>,
    next: Seq<T>,
    ps: int,
    pe: int,
    ns: int,
    ne: int,
    r: (usize, usize, usize),
    ops1: Seq<ListOp>,
    rem1: Seq<usize>,
    ops2: Seq<ListOp>,
    ops3: Seq<ListOp>,
    rem3: Seq<usize>,
)
    requires
        0 <= ps <= pe,
        0 <= ns <= ne,
        chosen_run(same, prev, next, ps, pe, ns, ne, r),
        r.2 > 0,
        ops1.len() == r.1 - ns,
        ops2 == keep_run(r.0 as int, r.2 as int),
        ops3.len() == ne - (r.1 + r.2),
        side_plan(same, prev, next, ps, r.0 as int, ns, r.1 as int, ops1, rem1),
        side_plan(same, prev, next, r.0 + r.2, pe, r.1 + r.2, ne, ops3, rem3),
    ensures
        exact_plan(same, prev, next, ps, pe, ns, ne, ops1 + ops2 + ops3, rem1 + rem3),
{
    let ops = ops1 + ops2 + ops3;
    let rem = rem1 + rem3;
    let k1 = r.1 - ns;
    let k2 = k1 + r.2;
    assert(ops.take(k1) =~= ops1);
    assert(ops.subrange(k1, k2) =~= ops2);
    assert(ops.skip(k2) =~= ops3);
    let m = rem1.len() as int;
    assert(rem.take(m) =~= rem1);
    assert(rem.skip(m) =~= rem3);
    assert(removal_split(rem, m));
    assert(chosen_run(same, prev, next, ps, pe, ns, ne, r));
}

/// A mismatch-free run of the whole old range inside the new range forces the longest
/// common run to cover the whole old range.
proof fn lemma_old_inside_new_forces_run<T, F: Fn(&T, &T) -> bool>(
    same: F,
    prev: Seq<T>,
    next: Seq<T>,
    ps: int,
    pe: int,
    ns: int,
    ne: int,
    r: (usize, usize, usize),
)
    requires
        ps < pe,
        old_run_inside_new(same, prev, next, ps, pe, ns, ne),
        is_longest_run(same, prev, next, ps, pe, ns, ne, r),
    ensures
        r.2 == pe - ps,
        r.0 == ps,
{
    let b0 = choose|b0: int|
        ns <= b0 && b0 + (pe - ps) <= ne && #[trigger] run_without_mismatch(
            same,
            prev,
            next,
            ps,
            b0,
            pe - ps,
        );
    assert(run_bounded(same, prev, next, pe, ne, ps, b0, r.2 as int));
    let t = choose|t: int|
        0 <= t <= r.2 && #[trigger] blocked_at(same, prev, next, pe, ne, ps, b0, t);
    if t < pe - ps {
        assert(!observed_mismatch(same, prev, next, ps + t, b0 + t));
    }
}

/// A mismatch-free run of the whole new range inside the old range forces the longest
/// common run to cover the whole new range.
proof fn lemma_new_inside_old_forces_run<T, F: Fn(&T, &T) -> bool>(
    same: F,
    prev: Seq<T>,
    next: Seq<T>,
    ps: int,
    pe: int,
    ns: int,
    ne: int,
    r: (usize, usize, usize),
)
    requires
        ns < ne,
        new_run_inside_old(same, prev, next, ps, pe, ns, ne),
        is_longest_run(same, prev, next, ps, pe, ns, ne, r),
    ensures
        r.2 == ne - ns,
        r.1 == ns,
{
    let a0 = choose|a0: int|
        ps <= a0 && a0 + (ne - ns) <= pe && #[trigger] run_without_mismatch(
            same,
            prev,
            next,
            a0,
            ns,
            ne - ns,
        );
    assert(run_bounded(same, prev, next, pe, ne, a0, ns, r.2 as int));
    let t = choose|t: int|
        0 <= t <= r.2 && #[trigger] blocked_at(same, prev, next, pe, ne, a0, ns, t);
    if t < ne - ns {
        assert(!observed_mismatch(same, prev, next, a0 + t, ns + t));
    }
}

proof fn lemma_concat_valid<T, F: Fn(&T, &T) -> bool>(
    same: F,
    prev: Seq<T>,
    next: Seq<T>,
    ps: int,
    pm: int,
    pe: int,
    ns: int,
    nm: int,
    ne: int,
    ops1: Seq<ListOp>,
    rem1: Seq<usize>,
    ops2: Seq<ListOp>,
    rem2: Seq<usize>,
)
    requires
        valid_patch(same, prev, next, ps, pm, ns, nm, ops1, rem1),
        valid_patch(same, prev, next, pm, pe, nm, ne, ops2, rem2),
    ensures
        valid_patch(same, prev, next, ps, pe, ns, ne, ops1 + ops2, rem1 + rem2),
{
    let ops = ops1 + ops2;
    let rem = rem1 + rem2;
    let l1 = ops1.len() as int;
    let m1 = rem1.len() as int;
    assert forall|k: int| 0 <= k < ops.len() implies #[trigger] op_fits(
        same,
        prev,
        next,
        ps,
        pe,
        ns,
        ops[k],
        k,
    ) by {
        if k < l1 {
            assert(ops[k] == ops1[k]);
            assert(op_fits(same, prev, next, ps, pm, ns, ops1[k], k));
        } else {
            assert(ops[k] == ops2[k - l1]);
            assert(op_fits(same, prev, next, pm, pe, nm, ops2[k - l1], k - l1));
        }
    }
    assert forall|k1: int, k2: int| 0 <= k1 < k2 < ops.len() implies #[trigger] keeps_in_order(
        ops[k1],
        ops[k2],
    ) by {
        if k2 < l1 {
            assert(keeps_in_order(ops1[k1], ops1[k2]));
        } else if k1 >= l1 {
            assert(keeps_in_order(ops2[k1 - l1], ops2[k2 - l1]));
        } else {
            assert(op_fits(same, prev, next, ps, pm, ns, ops1[k1], k1));
            assert(op_fits(same, prev, next, pm, pe, nm, ops2[k2 - l1], k2 - l1));
        }
    }
    assert forall|r: int| 0 <= r < rem.len() implies ps <= #[trigger] rem[r] < pe by {
        if r < m1 {
            assert(rem[r] == rem1[r]);
        } else {
            assert(rem[r] == rem2[r - m1]);
        }
    }
    assert forall|r1: int, r2: int| 0 <= r1 < r2 < rem.len() implies #[trigger] rem[r1]
        < #[trigger] rem[r2] by {
        if r2 < m1 {
            assert(rem1[r1] < rem1[r2]);
        } else if r1 >= m1 {
            assert(rem2[r1 - m1] < rem2[r2 - m1]);
        } else {
            assert(ps <= rem1[r1] < pm);
            assert(pm <= rem2[r2 - m1] < pe);
        }
    }
    assert forall|k: int, r: int| 0 <= k < ops.len() && 0 <= r < rem.len() implies !#[trigger] keeps(
        ops[k],
        #[trigger] rem[r] as int,
    ) by {
        if k < l1 {
            assert(op_fits(same, prev, next, ps, pm, ns, ops1[k], k));
            if r < m1 {
                assert(!keeps(ops1[k], rem1[r] as int));
            } else {
                assert(pm <= rem2[r - m1] < pe);
            }
        } else {
            assert(op_fits(same, prev, next, pm, pe, nm, ops2[k - l1], k - l1));
            if r < m1 {
                assert(ps <= rem1[r] < pm);
            } else {
                assert(!keeps(ops2[k - l1], rem2[r - m1] as int));
            }
        }
    }
    assert forall|p: int| ps <= p < pe implies #[trigger] is_kept(ops, p) || rem.contains(
        p as usize,
    ) by {
        if p < pm {
            assert(is_kept(ops1, p) || rem1.contains(p as usize));
            if is_kept(ops1, p) {
                let k = choose|k: int| 0 <= k < ops1.len() && #[trigger] keeps(ops1[k], p);
                assert(ops[k] == ops1[k]);
                assert(keeps(ops[k], p));
            } else {
                let r = choose|r: int| 0 <= r < rem1.len() && rem1[r] == p as usize;
                assert(rem[r] == rem1[r]);
            }
        } else {
            assert(is_kept(ops2, p) || rem2.contains(p as usize));
            if is_kept(ops2, p) {
                let k = choose|k: int| 0 <= k < ops2.len() && #[trigger] keeps(ops2[k], p);
                assert(ops[k + l1] == ops2[k]);
                assert(keeps(ops[k + l1], p));
            } else {
                let r = choose|r: int| 0 <= r < rem2.len() && rem2[r] == p as usize;
                assert(rem[r + m1] == rem2[r]);
            }
        }
    }
}

/// Appends one new child per new item `next[ns..ne]`.
fn push_inserts<T, F: Fn(&T, &T) -> bool>(
    same: &F,
    Ghost(prev): Ghost<Seq<T>>,
    next: &[T],
    p: usize,
    ns: usize,
    ne: usize,
    ops: &mut Vec<ListOp>,
)
    requires
        p <= prev.len(),
        ns <= ne <= next@.len(),
    ensures
        final(ops)@.take(old(ops)@.len() as int) == old(ops)@,
        final(ops)@.len() >= old(ops)@.len(),
        valid_patch(
            *same,
            prev,
            next@,
            p as int,
            p as int,
            ns as int,
            ne as int,
            final(ops)@.skip(old(ops)@.len() as int),
            Seq::<usize>::empty(),
        ),
        final(ops)@.skip(old(ops)@.len() as int) == insert_run(ns as int, ne as int),
{
    let ghost o0 = ops@;
    let mut n = ns;
    while n < ne
        invariant
            ns <= n <= ne,
            ops@.len() == o0.len() + (n - ns),
            ops@.take(o0.len() as int) == o0,
            forall|k: int| 0 <= k < n - ns ==> #[trigger] ops@[o0.len() + k] == ListOp::Insert((ns + k) as usize),
        decreases ne - n,
    {
        ops.push(ListOp::Insert(n));
        n = n + 1;
        assert(ops@.take(o0.len() as int) =~= o0);
    }
    let ghost seg = ops@.skip(o0.len() as int);
    assert forall|k: int| 0 <= k < seg.len() implies #[trigger] op_fits(
        *same,
        prev,
        next@,
        p as int,
        p as int,
        ns as int,
        seg[k],
        k,
    ) by {
        assert(seg[k] == ops@[o0.len() + k]);
    }
    assert forall|k1: int, k2: int| 0 <= k1 < k2 < seg.len() implies #[trigger] keeps_in_order(
        seg[k1],
        seg[k2],
    ) by {
        assert(seg[k1] == ops@[o0.len() + k1]);
    }
    assert forall|k: int| 0 <= k < seg.len() implies !#[trigger] keeps(seg[k], p as int) by {
        assert(seg[k] == ops@[o0.len() + k]);
    }
    assert forall|k: int| 0 <= k < seg.len() implies #[trigger] seg[k] == insert_run(
        ns as int,
        ne as int,
    )[k] by {
        assert(seg[k] == ops@[o0.len() + k]);
    }
    assert(seg =~= insert_run(ns as int, ne as int));
}

/// Lists the old items `prev[ps..pe]` as removed.
fn push_removals<T, F: Fn(&T, &T) -> bool>(
    same: &F,
    Ghost(prev): Ghost<Seq<T>>,
    Ghost(next): Ghost<Seq<T>>,
    ps: usize,
    pe: usize,
    n: usize,
    rem: &mut Vec<usize>,
)
    requires
        ps <= pe <= prev.len(),
        n <= next.len(),
    ensures
        final(rem)@.take(old(rem)@.len() as int) == old(rem)@,
        final(rem)@.len() >= old(rem)@.len(),
        valid_patch(
            *same,
            prev,
            next,
            ps as int,
            pe as int,
            n as int,
            n as int,
            Seq::<ListOp>::empty(),
            final(rem)@.skip(old(rem)@.len() as int),
        ),
        final(rem)@.len() == old(rem)@.len() + (pe - ps),
        final(rem)@.skip(old(rem)@.len() as int) == removal_run(ps as int, pe as int),
{
    let ghost r0 = rem@;
    let mut p = ps;
    while p < pe
        invariant
            ps <= p <= pe,
            rem@.len() == r0.len() + (p - ps),
            rem@.take(r0.len() as int) == r0,
            forall|r: int| 0 <= r < p - ps ==> #[trigger] rem@[r0.len() + r] == (ps + r) as usize,
        decreases pe - p,
    {
        rem.push(p);
        p = p + 1;
        assert(rem@.take(r0.len() as int) =~= r0);
    }
    let ghost seg = rem@.skip(r0.len() as int);
    assert forall|r: int| 0 <= r < seg.len() implies ps <= #[trigger] seg[r] < pe by {
        assert(seg[r] == rem@[r0.len() + r]);
    }
    assert forall|r1: int, r2: int| 0 <= r1 < r2 < seg.len() implies #[trigger] seg[r1]
        < #[trigger] seg[r2] by {
        assert(seg[r1] == rem@[r0.len() + r1]);
        assert(seg[r2] == rem@[r0.len() + r2]);
    }
    assert forall|q: int| ps <= q < pe implies #[trigger] is_kept(Seq::<ListOp>::empty(), q)
        || seg.contains(q as usize) by {
        assert(seg[q - ps] == rem@[r0.len() + (q - ps)]);
    }
    assert forall|r: int| 0 <= r < seg.len() implies #[trigger] seg[r] == removal_run(
        ps as int,
        pe as int,
    )[r] by {
        assert(seg[r] == rem@[r0.len() + r]);
    }
    assert(seg =~= removal_run(ps as int, pe as int));
}

/// Appends the old children of a common run `prev[ps..ps+len]` ~ `next[ns..ns+len]`.
fn push_keeps<T, F: Fn(&T, &T) -> bool>(
    same: &F,
    Ghost(prev): Ghost<Seq<T>>,
    Ghost(next): Ghost<Seq<T>>,
    ps: usize,
    ns: usize,
    len: usize,
    ops: &mut Vec<ListOp>,
)
    requires
        is_common_run(*same, prev, next, ps as int, ns as int, len as int),
        prev.len() <= usize::MAX,
        next.len() <= usize::MAX,
    ensures
        final(ops)@.take(old(ops)@.len() as int) == old(ops)@,
        final(ops)@.len() >= old(ops)@.len(),
        valid_patch(
            *same,
            prev,
            next,
            ps as int,
            ps + len,
            ns as int,
            ns + len,
            final(ops)@.skip(old(ops)@.len() as int),
            Seq::<usize>::empty(),
        ),
        forall|k: int|
            0 <= k < final(ops)@.len() - old(ops)@.len() ==> #[trigger] final(ops)@.skip(
                old(ops)@.len() as int,
            )[k] == ListOp::Keep((ps + k) as usize),
        final(ops)@.skip(old(ops)@.len() as int) == keep_run(ps as int, len as int),
{
    let ghost o0 = ops@;
    let mut i: usize = 0;
    while i < len
        invariant
            is_common_run(*same, prev, next, ps as int, ns as int, len as int),
            prev.len() <= usize::MAX,
            i <= len,
            ops@.len() == o0.len() + i,
            ops@.take(o0.len() as int) == o0,
            forall|k: int| 0 <= k < i ==> #[trigger] ops@[o0.len() + k] == ListOp::Keep((ps + k) as usize),
        decreases len - i,
    {
        ops.push(ListOp::Keep(ps + i));
        i = i + 1;
        assert(ops@.take(o0.len() as int) =~= o0);
    }
    let ghost seg = ops@.skip(o0.len() as int);
    assert forall|k: int| 0 <= k < seg.len() implies #[trigger] op_fits(
        *same,
        prev,
        next,
        ps as int,
        ps + len,
        ns as int,
        seg[k],
        k,
    ) by {
        assert(seg[k] == ops@[o0.len() + k]);
        assert(observed_match(*same, prev, next, ps + k, ns + k));
    }
    assert forall|k1: int, k2: int| 0 <= k1 < k2 < seg.len() implies #[trigger] keeps_in_order(
        seg[k1],
        seg[k2],
    ) by {
        assert(seg[k1] == ops@[o0.len() + k1]);
        assert(seg[k2] == ops@[o0.len() + k2]);
    }
    assert forall|k: int| 0 <= k < seg.len() implies #[trigger] seg[k] == ListOp::Keep((ps + k) as usize) by {
        assert(seg[k] == ops@[o0.len() + k]);
    }
    assert forall|q: int| ps <= q < ps + len implies #[trigger] is_kept(seg, q)
        || Seq::<usize>::empty().contains(q as usize) by {
        assert(seg[q - ps] == ops@[o0.len() + (q - ps)]);
        assert(keeps(seg[q - ps], q));
    }
    assert(seg =~= keep_run(ps as int, len as int));
}

proof fn lemma_extend<A>(s0: Seq<A>, s1: Seq<A>, s2: Seq<A>)
    requires
        s1.len() >= s0.len(),
        s1.take(s0.len() as int) == s0,
        s2.len() >= s1.len(),
        s2.take(s1.len() as int) == s1,
    ensures
        s2.len() >= s0.len(),
        s2.take(s0.len() as int) == s0,
        s2.skip(s0.len() as int) == s1.skip(s0.len() as int) + s2.skip(s1.len() as int),
{
    assert(s2.take(s0.len() as int) =~= s1.take(s0.len() as int));
    assert(s2.skip(s0.len() as int) =~= s1.skip(s0.len() as int) + s2.skip(s1.len() as int));
}

proof fn lemma_empty_valid<T, F: Fn(&T, &T) -> bool>(
    same: F,
    prev: Seq<T>,
    next: Seq<T>,
    p: int,
    n: int,
)
    requires
        0 <= p <= prev.len(),
        0 <= n <= next.len(),
    ensures
        valid_patch(same, prev, next, p, p, n, n, Seq::<ListOp>::empty(), Seq::<usize>::empty()),
{
}

proof fn lemma_skip_self<A>(s: Seq<A>)
    ensures
        s.skip(s.len() as int) == Seq::<A>::empty(),
        s.take(s.len() as int) == s,
{
    assert(s.skip(s.len() as int) =~= Seq::<A>::empty());
    assert(s.take(s.len() as int) =~= s);
}

/// Reconciles `prev[ps..pe]` with `next[ns..ne]`, appending the new child entries to `ops`
/// and the removed old indices to `rem`.
fn plan_range<T, F: Fn(&T, &T) -> bool>(
    prev: &[T],
    ps: usize,
    pe: usize,
    next: &[T],
    ns: usize,
    ne: usize,
    same: &F,
    ops: &mut Vec<ListOp>,
    rem: &mut Vec<usize>,
)
    requires
        ps <= pe <= prev@.len(),
        ns <= ne <= next@.len(),
        forall|x: &T, y: &T| same.requires((x, y)),
    ensures
        final(ops)@.len() >= old(ops)@.len(),
        final(ops)@.take(old(ops)@.len() as int) == old(ops)@,
        final(rem)@.len() >= old(rem)@.len(),
        final(rem)@.take(old(rem)@.len() as int) == old(rem)@,
        valid_patch(
            *same,
            prev@,
            next@,
            ps as int,
            pe as int,
            ns as int,
            ne as int,
            final(ops)@.skip(old(ops)@.len() as int),
            final(rem)@.skip(old(rem)@.len() as int),
        ),
        old_run_inside_new(*same, prev@, next@, ps as int, pe as int, ns as int, ne as int)
            ==> final(rem)@.len() == old(rem)@.len(),
        new_run_inside_old(*same, prev@, next@, ps as int, pe as int, ns as int, ne as int)
            ==> keeps_one_run(final(ops)@.skip(old(ops)@.len() as int), ps as int),
        exact_plan(
            *same,
            prev@,
            next@,
            ps as int,
            pe as int,
            ns as int,
            ne as int,
            final(ops)@.skip(old(ops)@.len() as int),
            final(rem)@.skip(old(rem)@.len() as int),
        ),
    decreases (pe - ps) + (ne - ns),
{
    let ghost o0 = ops@;
    let ghost r0 = rem@;
    let prev_len = prev.len();
    let next_len = next.len();
    assert(prev_len == prev@.len() && next_len == next@.len());
    let (a, b, len) = lcs_in(prev, ps, pe, next, ns, ne, same);
    if len == 0 {
        // Nothing in common: remove every old child, build every new one.
        push_removals(same, Ghost(prev@), Ghost(next@), ps, pe, ns, rem);
        push_inserts(same, Ghost(prev@), next, pe, ns, ne, ops);
        proof {
            lemma_skip_self(o0);
            lemma_skip_self(r0);
            lemma_extend(o0, o0, ops@);
            lemma_skip_self(rem@);
            lemma_extend(r0, rem@, rem@);
            lemma_concat_valid(
                *same,
                prev@,
                next@,
                ps as int,
                pe as int,
                pe as int,
                ns as int,
                ns as int,
                ne as int,
                Seq::<ListOp>::empty(),
                rem@.skip(r0.len() as int),
                ops@.skip(o0.len() as int),
                Seq::<usize>::empty(),
            );
            assert(Seq::<ListOp>::empty() + ops@.skip(o0.len() as int) =~= ops@.skip(o0.len() as int));
            assert(rem@.skip(r0.len() as int) + Seq::<usize>::empty() =~= rem@.skip(r0.len() as int));
            if old_run_inside_new(*same, prev@, next@, ps as int, pe as int, ns as int, ne as int) {
                if ps < pe {
                    lemma_old_inside_new_forces_run(
                        *same,
                        prev@,
                        next@,
                        ps as int,
                        pe as int,
                        ns as int,
                        ne as int,
                        (a, b, len),
                    );
                }
            }
            if new_run_inside_old(*same, prev@, next@, ps as int, pe as int, ns as int, ne as int) {
                if ns < ne {
                    lemma_new_inside_old_forces_run(
                        *same,
                        prev@,
                        next@,
                        ps as int,
                        pe as int,
                        ns as int,
                        ne as int,
                        (a, b, len),
                    );
                }
                assert(keeps_run_from(ops@.skip(o0.len() as int), ps as int));
            }
            assert(chosen_run(*same, prev@, next@, ps as int, pe as int, ns as int, ne as int, (a, b, len)));
        }
        return;
    }
    // What precedes the common run.

    if a > ps {
        if b > ns {
            plan_range(prev, ps, a, next, ns, b, same, ops, rem);
        } else {
            push_removals(same, Ghost(prev@), Ghost(next@), ps, a, ns, rem);
            proof {
                lemma_skip_self(o0);
            }
        }
    } else if b > ns {
        push_inserts(same, Ghost(prev@), next, ps, ns, b, ops);
        proof {
            lemma_skip_self(r0);
        }
    } else {
        proof {
            lemma_skip_self(o0);
            lemma_skip_self(r0);
            lemma_empty_valid(*same, prev@, next@, ps as int, ns as int);
        }
    }
    let ghost o1 = ops@;
    let ghost r1 = rem@;
    // The common run keeps its children.
    push_keeps(same, Ghost(prev@), Ghost(next@), a, b, len, ops);
    let ghost o2 = ops@;
    proof {
        lemma_skip_self(r1);
        lemma_extend(o0, o1, o2);
        lemma_extend(r0, r1, r1);
        lemma_concat_valid(
            *same,
            prev@,
            next@,
            ps as int,
            a as int,
            a + len,
            ns as int,
            b as int,
            b + len,
            o1.skip(o0.len() as int),
            r1.skip(r0.len() as int),
            o2.skip(o1.len() as int),
            Seq::<usize>::empty(),
        );
        assert(r1.skip(r0.len() as int) + Seq::<usize>::empty() =~= r1.skip(r0.len() as int));
    }
    // What follows the common run.
    let pm = a + len;
    let nm = b + len;
    if pm < pe {
        if nm < ne {
            plan_range(prev, pm, pe, next, nm, ne, same, ops, rem);
        } else {
            push_removals(same, Ghost(prev@), Ghost(next@), pm, pe, ne, rem);
            proof {
                lemma_skip_self(o2);
            }
        }
    } else if nm < ne {
        push_inserts(same, Ghost(prev@), next, pe, nm, ne, ops);
        proof {
            lemma_skip_self(r1);
        }
    } else {
        proof {
            lemma_skip_self(o2);
            lemma_skip_self(r1);
            lemma_empty_valid(*same, prev@, next@, pe as int, ne as int);
        }
    }
    proof {
        lemma_extend(o0, o2, ops@);
        lemma_extend(r0, r1, rem@);
        lemma_concat_valid(
            *same,
            prev@,
            next@,
            ps as int,
            pm as int,
            pe as int,
            ns as int,
            nm as int,
            ne as int,
            o2.skip(o0.len() as int),
            r1.skip(r0.len() as int),
            ops@.skip(o2.len() as int),
            rem@.skip(r1.len() as int),
        );
        if old_run_inside_new(*same, prev@, next@, ps as int, pe as int, ns as int, ne as int) {
            lemma_old_inside_new_forces_run(
                *same,
                prev@,
                next@,
                ps as int,
                pe as int,
                ns as int,
                ne as int,
                (a, b, len),
            );
            assert(r1 == r0);
            assert(rem@ == r1);
        }
        if new_run_inside_old(*same, prev@, next@, ps as int, pe as int, ns as int, ne as int) {
            lemma_new_inside_old_forces_run(
                *same,
                prev@,
                next@,
                ps as int,
                pe as int,
                ns as int,
                ne as int,
                (a, b, len),
            );
            assert(o1 == o0);
            assert(ops@ == o2);
            assert(keeps_run_from(o2.skip(o1.len() as int), a as int));
        }
        let ghost left_ops = o1.skip(o0.len() as int);
        let ghost left_rem = r1.skip(r0.len() as int);
        let ghost right_ops = ops@.skip(o2.len() as int);
        let ghost right_rem = rem@.skip(r1.len() as int);
        assert(insert_run(ns as int, ns as int) =~= Seq::<ListOp>::empty());
        assert(insert_run(ne as int, ne as int) =~= Seq::<ListOp>::empty());
        assert(removal_run(ps as int, ps as int) =~= Seq::<usize>::empty());
        assert(removal_run(pe as int, pe as int) =~= Seq::<usize>::empty());
        assert(side_plan(*same, prev@, next@, ps as int, a as int, ns as int, b as int, left_ops, left_rem));
        assert(side_plan(*same, prev@, next@, pm as int, pe as int, nm as int, ne as int, right_ops, right_rem));
        lemma_exact_plan_join(
            *same,
            prev@,
            next@,
            ps as int,
            pe as int,
            ns as int,
            ne as int,
            (a, b, len),
            left_ops,
            left_rem,
            o2.skip(o1.len() as int),
            right_ops,
            right_rem,
        );
    }
}

/// Reconciles the item list of a previous update with the new item list. Matching runs
/// (found by repeatedly taking a longest common run, then recursing on what precedes and
/// follows it) keep their children; other old children are removed and new children are
/// built for the other new items.
pub fn plan_list_update<T, F: Fn(&T, &T) -> bool>(prev: &[T], next: &[T], same: F) -> (patch: ListPatch)
    requires
        forall|x: &T, y: &T| same.requires((x, y)),
    ensures
        exact_plan(
            same,
            prev@,
            next@,
            0,
            prev@.len() as int,
            0,
            next@.len() as int,
            patch.ops@,
            patch.removed@,
        ),
        valid_patch(
            same,
            prev@,
            next@,
            0,
            prev@.len() as int,
            0,
            next@.len() as int,
            patch.ops@,
            patch.removed@,
        ),
        // The old items appear unchanged inside the new list: no child is removed.
        old_run_inside_new(same, prev@, next@, 0, prev@.len() as int, 0, next@.len() as int)
            ==> patch.removed@.len() == 0,
        // The new items appear unchanged inside the old list: no child is built, and
        // the kept children are one contiguous run of the old ones.
        new_run_inside_old(same, prev@, next@, 0, prev@.len() as int, 0, next@.len() as int)
            ==> keeps_one_run(patch.ops@, 0),
        // Nothing changed: every child is kept in place.
        prev@.len() == next@.len() && run_without_mismatch(
            same,
            prev@,
            next@,
            0,
            0,
            prev@.len() as int,
        ) ==> patch.removed@.len() == 0 && forall|k: int|
            0 <= k < patch.ops@.len() ==> #[trigger] patch.ops@[k] == ListOp::Keep(k as usize),
{
    let mut ops: Vec<ListOp> = Vec::new();
    let mut removed: Vec<usize> = Vec::new();
    plan_range(prev, 0, prev.len(), next, 0, next.len(), &same, &mut ops, &mut removed);
    proof {
        assert(ops@.skip(0) =~= ops@);
        assert(removed@.skip(0) =~= removed@);
        let n = prev@.len() as int;
        if n == next@.len() && run_without_mismatch(same, prev@, next@, 0, 0, n) {
            assert(old_run_inside_new(same, prev@, next@, 0, n, 0, n));
            assert(new_run_inside_old(same, prev@, next@, 0, n, 0, n));
            let a = choose|a: int| 0 <= a && #[trigger] keeps_run_from(ops@, a);
            if n > 0 {
                assert(ops@.len() == n);
                assert(keeps(ops@[n - 1], a + (n - 1)));
                assert(op_fits(same, prev@, next@, 0, n, 0, ops@[n - 1], n - 1));
            }
            assert forall|k: int| 0 <= k < ops@.len() implies #[trigger] ops@[k] == ListOp::Keep(
                k as usize,
            ) by {
                assert(keeps(ops@[k], a + k));
            }
        }
    }
    ListPatch { ops, removed }
}

/// The comparator answers each pair of items one way only.
pub open spec fn deterministic<T, F: Fn(&T, &T) -> bool>(same: F) -> bool {
    forall|x: &T, y: &T, b1: bool, b2: bool|
        #[trigger] call_ensures(same, (x, y), b1) && #[trigger] call_ensures(same, (x, y), b2)
            ==> b1 == b2
}

/// With a deterministic comparator, a common run of length `len` at `(i, j)` that fits in
/// the ranges is not shorter than any bound on the runs starting there.
proof fn lemma_run_within_bound<T, F: Fn(&T, &T) -> bool>(
    same: F,
    prev: Seq<T>,
    next: Seq<T>,
    a_hi: int,
    b_hi: int,
    i: int,
    j: int,
    len: int,
    m: int,
)
    requires
        deterministic(same),
        is_common_run(same, prev, next, i, j, len),
        i + len <= a_hi,
        j + len <= b_hi,
        run_bounded(same, prev, next, a_hi, b_hi, i, j, m),
    ensures
        len <= m,
{
    let t = choose|t: int| 0 <= t <= m && #[trigger] blocked_at(same, prev, next, a_hi, b_hi, i, j, t);
    if t < len {
        assert(observed_match(same, prev, next, i + t, j + t));
        assert(observed_mismatch(same, prev, next, i + t, j + t));
        assert(call_ensures(same, (&prev[i + t], &next[j + t]), true));
        assert(call_ensures(same, (&prev[i + t], &next[j + t]), false));
    }
}

/// With a deterministic comparator, the chosen common run is unique.
proof fn lemma_chosen_run_unique<T, F: Fn(&T, &T) -> bool>(
    same: F,
    prev: Seq<T>,
    next: Seq<T>,
    ps: int,
    pe: int,
    ns: int,
    ne: int,
    r1: (usize, usize, usize),
    r2: (usize, usize, usize),
)
    requires
        deterministic(same),
        chosen_run(same, prev, next, ps, pe, ns, ne, r1),
        chosen_run(same, prev, next, ps, pe, ns, ne, r2),
    ensures
        r1 == r2,
{
    if r1.2 > 0 {
        assert(run_bounded(same, prev, next, pe, ne, r1.0 as int, r1.1 as int, r2.2 as int));
        lemma_run_within_bound(
            same,
            prev,
            next,
            pe,
            ne,
            r1.0 as int,
            r1.1 as int,
            r1.2 as int,
            r2.2 as int,
        );
    }
    if r2.2 > 0 {
        assert(run_bounded(same, prev, next, pe, ne, r2.0 as int, r2.1 as int, r1.2 as int));
        lemma_run_within_bound(
            same,
            prev,
            next,
            pe,
            ne,
            r2.0 as int,
            r2.1 as int,
            r2.2 as int,
            r1.2 as int,
        );
    }
    let len = r1.2 as int;
    if len > 0 {
        if r2.0 < r1.0 || (r2.0 == r1.0 && r2.1 < r1.1) {
            assert(run_bounded(same, prev, next, pe, ne, r2.0 as int, r2.1 as int, len - 1));
            lemma_run_within_bound(
                same,
                prev,
                next,
                pe,
                ne,
                r2.0 as int,
                r2.1 as int,
                len,
                len - 1,
            );
        }
        if r1.0 < r2.0 || (r1.0 == r2.0 && r1.1 < r2.1) {
            assert(run_bounded(same, prev, next, pe, ne, r1.0 as int, r1.1 as int, len - 1));
            lemma_run_within_bound(
                same,
                prev,
                next,
                pe,
                ne,
                r1.0 as int,
                r1.1 as int,
                len,
                len - 1,
            );
        }
    }
}

proof fn lemma_side_plan_unique<T, F: Fn(&T, &T) -> bool>(
    same: F,
    prev: Seq<T>,
    next: Seq<T>,
    ps: int,
    pe: int,
    ns: int,
    ne: int,
    ops1: Seq<ListOp>,
    rem1: Seq<usize>,
    ops2: Seq<ListOp>,
    rem2: Seq<usize>,
)
    requires
        deterministic(same),
        side_plan(same, prev, next, ps, pe, ns, ne, ops1, rem1),
        side_plan(same, prev, next, ps, pe, ns, ne, ops2, rem2),
    ensures
        ops1 == ops2,
        rem1 == rem2,
    decreases (pe - ps) + (ne - ns), 1int,
{
    if 0 <= ps < pe && 0 <= ns < ne {
        lemma_exact_plan_unique(same, prev, next, ps, pe, ns, ne, ops1, rem1, ops2, rem2);
    }
}

proof fn lemma_exact_plan_unique<T, F: Fn(&T, &T) -> bool>(
    same: F,
    prev: Seq<T>,
    next: Seq<T>,
    ps: int,
    pe: int,
    ns: int,
    ne: int,
    ops1: Seq<ListOp>,
    rem1: Seq<usize>,
    ops2: Seq<ListOp>,
    rem2: Seq<usize>,
)
    requires
        deterministic(same),
        exact_plan(same, prev, next, ps, pe, ns, ne, ops1, rem1),
        exact_plan(same, prev, next, ps, pe, ns, ne, ops2, rem2),
    ensures
        ops1 == ops2,
        rem1 == rem2,
    decreases (pe - ps) + (ne - ns), 0int,
{
    let r1 = choose|r: (usize, usize, usize)|
        #[trigger] chosen_run(same, prev, next, ps, pe, ns, ne, r) && if r.2 == 0 {
            ops1 == insert_run(ns, ne) && rem1 == removal_run(ps, pe)
        } else {
            &&& ops1.len() == ne - ns
            &&& ops1.subrange(r.1 - ns, r.1 - ns + r.2) == keep_run(r.0 as int, r.2 as int)
            &&& exists|m: int|
                #[trigger] removal_split(rem1, m) && side_plan(
                    same,
                    prev,
                    next,
                    ps,
                    r.0 as int,
                    ns,
                    r.1 as int,
                    ops1.take(r.1 - ns),
                    rem1.take(m),
                ) && side_plan(
                    same,
                    prev,
                    next,
                    r.0 + r.2,
                    pe,
                    r.1 + r.2,
                    ne,
                    ops1.skip(r.1 - ns + r.2),
                    rem1.skip(m),
                )
        };
    let r2 = choose|r: (usize, usize, usize)|
        #[trigger] chosen_run(same, prev, next, ps, pe, ns, ne, r) && if r.2 == 0 {
            ops2 == insert_run(ns, ne) && rem2 == removal_run(ps, pe)
        } else {
            &&& ops2.len() == ne - ns
            &&& ops2.subrange(r.1 - ns, r.1 - ns + r.2) == keep_run(r.0 as int, r.2 as int)
            &&& exists|m: int|
                #[trigger] removal_split(rem2, m) && side_plan(
                    same,
                    prev,
                    next,
                    ps,
                    r.0 as int,
                    ns,
                    r.1 as int,
                    ops2.take(r.1 - ns),
                    rem2.take(m),
                ) && side_plan(
                    same,
                    prev,
                    next,
                    r.0 + r.2,
                    pe,
                    r.1 + r.2,
                    ne,
                    ops2.skip(r.1 - ns + r.2),
                    rem2.skip(m),
                )
        };
    lemma_chosen_run_unique(same, prev, next, ps, pe, ns, ne, r1, r2);
    let r = r1;
    if r.2 > 0 {
        let k1 = r.1 - ns;
        let k2 = k1 + r.2;
        let m1 = choose|m: int|
            #[trigger] removal_split(rem1, m) && side_plan(
                same,
                prev,
                next,
                ps,
                r.0 as int,
                ns,
                r.1 as int,
                ops1.take(k1),
                rem1.take(m),
            ) && side_plan(
                same,
                prev,
                next,
                r.0 + r.2,
                pe,
                r.1 + r.2,
                ne,
                ops1.skip(k2),
                rem1.skip(m),
            );
        let m2 = choose|m: int|
            #[trigger] removal_split(rem2, m) && side_plan(
                same,
                prev,
                next,
                ps,
                r.0 as int,
                ns,
                r.1 as int,
                ops2.take(k1),
                rem2.take(m),
            ) && side_plan(
                same,
                prev,
                next,
                r.0 + r.2,
                pe,
                r.1 + r.2,
                ne,
                ops2.skip(k2),
                rem2.skip(m),
            );
        lemma_side_plan_unique(
            same,
            prev,
            next,
            ps,
            r.0 as int,
            ns,
            r.1 as int,
            ops1.take(k1),
            rem1.take(m1),
            ops2.take(k1),
            rem2.take(m2),
        );
        lemma_side_plan_unique(
            same,
            prev,
            next,
            r.0 + r.2,
            pe,
            r.1 + r.2,
            ne,
            ops1.skip(k2),
            rem1.skip(m1),
            ops2.skip(k2),
            rem2.skip(m2),
        );
        assert forall|k: int| 0 <= k < ops1.len() implies ops1[k] == ops2[k] by {
            if k < k1 {
                assert(ops1.take(k1)[k] == ops2.take(k1)[k]);
            } else if k < k2 {
                assert(ops1.subrange(k1, k2)[k - k1] == ops2.subrange(k1, k2)[k - k1]);
            } else {
                assert(ops1.skip(k2)[k - k2] == ops2.skip(k2)[k - k2]);
            }
        }
        assert(ops1 =~= ops2);
        assert(rem1 =~= rem1.take(m1) + rem1.skip(m1));
        assert(rem2 =~= rem2.take(m2) + rem2.skip(m2));
    }
}

/// Law: with a comparator that answers each pair of items one way only, reconciliation
/// has one result: the plan is a function of the two item lists.
pub proof fn law_plan_is_unique<T, F: Fn(&T, &T) -> bool>(
    same: F,
    prev: Seq<T>,
    next: Seq<T>,
    ops1: Seq<ListOp>,
    rem1: Seq<usize>,
    ops2: Seq<ListOp>,
    rem2: Seq<usize>,
)
    requires
        deterministic(same),
        exact_plan(same, prev, next, 0, prev.len() as int, 0, next.len() as int, ops1, rem1),
        exact_plan(same, prev, next, 0, prev.len() as int, 0, next.len() as int, ops2, rem2),
    ensures
        ops1 == ops2,
        rem1 == rem2,
{
    lemma_exact_plan_unique(
        same,
        prev,
        next,
        0,
        prev.len() as int,
        0,
        next.len() as int,
        ops1,
        rem1,
        ops2,
        rem2,
    );
}

} // verus!
