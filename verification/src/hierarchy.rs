//! Dynamic-children hierarchies: flattening fragments into a parent's real children,
//! finding the ancestor whose children must be recomputed, and hover tracking.
use vstd::prelude::*;

verus! {

/// What the hierarchy algorithms read of one entity.
pub struct HierEntity {
    /// The entity's identifier.
    pub id: u64,
    /// The entity is a fragment: it stands for its own children.
    pub fragment: bool,
    /// The entity has a dynamic children list (possibly empty).
    pub has_children: bool,
    /// Positions of the entity's dynamic children, in order.
    pub children: Vec<usize>,
    /// Position of the entity's dynamic parent, if it has one.
    pub parent: Option<usize>,
}

/// Entities of a hierarchy, each parent placed before its children.
pub struct Hierarchy {
    pub entities: Vec<HierEntity>,
}

/// Parents come before their children, and every position is in range.
pub open spec fn hierarchy_wf(h: Hierarchy) -> bool {
    &&& forall|i: int, k: int|
        0 <= i < h.entities@.len() && 0 <= k < h.entities@[i].children@.len() ==> i
            < #[trigger] h.entities@[i].children@[k] < h.entities@.len()
    &&& forall|i: int|
        0 <= i < h.entities@.len() ==> match #[trigger] h.entities@[i].parent {
            Some(p) => p < i,
            None => true,
        }
}

impl Hierarchy {
    /// Whether the hierarchy is well formed: every parent stands before its children and
    /// every position is in range.
    pub fn is_well_formed(&self) -> (r: bool)
        ensures
            r == hierarchy_wf(*self),
    {
        let n = self.entities.len();
        let mut i: usize = 0;
        while i < n
            invariant
                n == self.entities@.len(),
                i <= n,
                forall|a: int, k: int|
                    0 <= a < i && 0 <= k < self.entities@[a].children@.len() ==> a
                        < #[trigger] self.entities@[a].children@[k] < n,
                forall|a: int|
                    0 <= a < i ==> match #[trigger] self.entities@[a].parent {
                        Some(p) => p < a,
                        None => true,
                    },
            decreases n - i,
        {
            let e = &self.entities[i];
            match e.parent {
                Some(p) => {
                    if p >= i {
                        assert(!hierarchy_wf(*self)) by {
                            assert(self.entities@[i as int].parent == Some(p));
                        }
                        return false;
                    }
                },
                None => {},
            }
            let mut k: usize = 0;
            while k < e.children.len()
                invariant
                    n == self.entities@.len(),
                    i < n,
                    *e == self.entities@[i as int],
                    k <= e.children@.len(),
                    forall|t: int| 0 <= t < k ==> i < #[trigger] e.children@[t] < n,
                decreases e.children@.len() - k,
            {
                let c = e.children[k];
                if c <= i || c >= n {
                    assert(!hierarchy_wf(*self)) by {
                        assert(self.entities@[i as int].children@[k as int] == c);
                    }
                    return false;
                }
                k = k + 1;
            }
            i = i + 1;
        }
        true
    }
}

/// The entity is replaced by its own children when flattening: a fragment that has a
/// children list.
pub open spec fn is_expanded(h: Hierarchy, i: int) -> bool {
    h.entities@[i].fragment && h.entities@[i].has_children
}

/// The flattened children of entity `i`: its children in order, each expanded fragment
/// replaced by its own flattened children.
pub open spec fn flattened(h: Hierarchy, i: int) -> Seq<usize>
    decreases h.entities@.len() - i, 1int, 0int,
{
    if 0 <= i < h.entities@.len() {
        flattened_prefix(h, i, h.entities@[i].children@.len() as int)
    } else {
        Seq::empty()
    }
}

/// The flattened form of the first `k` children of entity `i`.
pub open spec fn flattened_prefix(h: Hierarchy, i: int, k: int) -> Seq<usize>
    decreases h.entities@.len() - i, 0int, k,
{
    if 0 < k && 0 <= i < h.entities@.len() && k <= h.entities@[i].children@.len() {
        let c = h.entities@[i].children@[k - 1];
        flattened_prefix(h, i, k - 1) + if i < c < h.entities@.len() && is_expanded(h, c as int) {
            flattened(h, c as int)
        } else {
            seq![c]
        }
    } else {
        Seq::empty()
    }
}

fn flatten_into(h: &Hierarchy, i: usize, out: &mut Vec<usize>)
    requires
        hierarchy_wf(*h),
        i < h.entities@.len(),
    ensures
        final(out)@ == old(out)@ + flattened(*h, i as int),
    decreases h.entities@.len() - i,
{
    let ghost out0 = out@;
    let e = &h.entities[i];
    let n = e.children.len();
    let mut j: usize = 0;
    while j < n
        invariant
            hierarchy_wf(*h),
            i < h.entities@.len(),
            e == h.entities@[i as int],
            n == e.children@.len(),
            j <= n,
            out@ == out0 + flattened_prefix(*h, i as int, j as int),
        decreases n - j,
    {
        let c = e.children[j];
        assert(i < c < h.entities@.len());
        let ce = &h.entities[c];
        if ce.fragment && ce.has_children {
            flatten_into(h, c, out);
        } else {
            out.push(c);
        }
        j = j + 1;
        proof {
            assert(out@ =~= out0 + flattened_prefix(*h, i as int, j as int));
        }
    }
}

/// The real children of entity `i`: its dynamic children with every fragment that has a
/// children list replaced, recursively, by that list.
pub fn flatten_children(h: &Hierarchy, i: usize) -> (r: Vec<usize>)
    requires
        hierarchy_wf(*h),
        i < h.entities@.len(),
    ensures
        r@ == flattened(*h, i as int),
{
    let mut out: Vec<usize> = Vec::new();
    flatten_into(h, i, &mut out);
    proof {
        assert(out@ =~= flattened(*h, i as int));
    }
    out
}

/// No entry of `s` is an expanded fragment, and every entry is a position in range.
pub open spec fn no_expanded_fragments(h: Hierarchy, s: Seq<usize>) -> bool {
    forall|k: int| 0 <= k < s.len() ==> #[trigger] s[k] < h.entities@.len() && !is_expanded(h, s[k] as int)
}

proof fn lemma_concat_no_fragments(h: Hierarchy, a: Seq<usize>, b: Seq<usize>)
    requires
        no_expanded_fragments(h, a),
        no_expanded_fragments(h, b),
    ensures
        no_expanded_fragments(h, a + b),
{
    assert forall|k: int| 0 <= k < (a + b).len() implies #[trigger] (a + b)[k] < h.entities@.len()
        && !is_expanded(h, (a + b)[k] as int) by {
        if k < a.len() {
            assert((a + b)[k] == a[k]);
        } else {
            assert((a + b)[k] == b[k - a.len()]);
        }
    }
}

proof fn lemma_flattened_no_fragments(h: Hierarchy, i: int)
    requires
        hierarchy_wf(h),
    ensures
        no_expanded_fragments(h, flattened(h, i)),
    decreases h.entities@.len() - i, 1int, 0int,
{
    if 0 <= i < h.entities@.len() {
        lemma_prefix_no_fragments(h, i, h.entities@[i].children@.len() as int);
    }
}

proof fn lemma_prefix_no_fragments(h: Hierarchy, i: int, k: int)
    requires
        hierarchy_wf(h),
    ensures
        no_expanded_fragments(h, flattened_prefix(h, i, k)),
    decreases h.entities@.len() - i, 0int, k,
{
    if 0 < k && 0 <= i < h.entities@.len() && k <= h.entities@[i].children@.len() {
        let c = h.entities@[i].children@[k - 1];
        lemma_prefix_no_fragments(h, i, k - 1);
        if i < c < h.entities@.len() && is_expanded(h, c as int) {
            lemma_flattened_no_fragments(h, c as int);
            lemma_concat_no_fragments(h, flattened_prefix(h, i, k - 1), flattened(h, c as int));
        } else {
            assert(c < h.entities@.len());
            lemma_concat_no_fragments(h, flattened_prefix(h, i, k - 1), seq![c]);
        }
    }
}

/// Law: flattening leaves no fragment that has children in the result, and when none of
/// an entity's children is such a fragment, its real children are exactly its dynamic
/// children.
pub proof fn law_flatten_removes_fragments(h: Hierarchy, i: int)
    requires
        hierarchy_wf(h),
        0 <= i < h.entities@.len(),
    ensures
        no_expanded_fragments(h, flattened(h, i)),
        (forall|k: int|
            0 <= k < h.entities@[i].children@.len() ==> !is_expanded(
                h,
                #[trigger] h.entities@[i].children@[k] as int,
            )) ==> flattened(h, i) == h.entities@[i].children@,
{
    lemma_flattened_no_fragments(h, i);
    if forall|k: int|
        0 <= k < h.entities@[i].children@.len() ==> !is_expanded(
            h,
            #[trigger] h.entities@[i].children@[k] as int,
        ) {
        lemma_plain_prefix(h, i, h.entities@[i].children@.len() as int);
        assert(h.entities@[i].children@.take(h.entities@[i].children@.len() as int)
            =~= h.entities@[i].children@);
    }
}

proof fn lemma_plain_prefix(h: Hierarchy, i: int, k: int)
    requires
        hierarchy_wf(h),
        0 <= i < h.entities@.len(),
        0 <= k <= h.entities@[i].children@.len(),
        forall|t: int|
            0 <= t < h.entities@[i].children@.len() ==> !is_expanded(
                h,
                #[trigger] h.entities@[i].children@[t] as int,
            ),
    ensures
        flattened_prefix(h, i, k) == h.entities@[i].children@.take(k),
    decreases k,
{
    if k > 0 {
        lemma_plain_prefix(h, i, k - 1);
        let c = h.entities@[i].children@[k - 1];
        assert(!is_expanded(h, c as int));
        assert(h.entities@[i].children@.take(k) =~= h.entities@[i].children@.take(k - 1).push(c));
        assert(flattened_prefix(h, i, k) =~= h.entities@[i].children@.take(k - 1) + seq![c]);
    } else {
        assert(h.entities@[i].children@.take(0) =~= Seq::<usize>::empty());
    }
}

/// Every child list agrees with the parent links: each child of an entity has that entity
/// as its parent.
pub open spec fn hier_tree_consistent(h: Hierarchy) -> bool {
    forall|i: int, k: int|
        0 <= i < h.entities@.len() && 0 <= k < h.entities@[i].children@.len() ==> h.entities@[
            #[trigger] h.entities@[i].children@[k] as int
        ].parent == Some(i as usize)
}

/// Every parent link agrees with the child lists: an entity with a parent is one of that
/// parent's children.
pub open spec fn hier_children_listed(h: Hierarchy) -> bool {
    forall|x: int|
        0 <= x < h.entities@.len() ==> match #[trigger] h.entities@[x].parent {
            Some(p) => exists|k: int|
                0 <= k < h.entities@[p as int].children@.len() && #[trigger] h.entities@[
                    p as int
                ].children@[k] == x,
            None => true,
        }
}

/// Entity `x` is a child of `a`, or a child of an expanded fragment that is itself spliced
/// under `a`: flattening `a` lifts it into `a`'s real children unless it is expanded.
pub open spec fn spliced_under(h: Hierarchy, x: int, a: int) -> bool
    decreases x,
{
    if 0 <= x < h.entities@.len() {
        match h.entities@[x].parent {
            Some(p) => p < x && (p == a || (is_expanded(h, p as int) && spliced_under(
                h,
                p as int,
                a,
            ))),
            None => false,
        }
    } else {
        false
    }
}

proof fn lemma_seq_concat_contains(a: Seq<usize>, b: Seq<usize>, x: usize)
    requires
        a.contains(x) || b.contains(x),
    ensures
        (a + b).contains(x),
{
    if a.contains(x) {
        let m = choose|m: int| 0 <= m < a.len() && a[m] == x;
        assert((a + b)[m] == x);
    } else {
        let m = choose|m: int| 0 <= m < b.len() && b[m] == x;
        assert((a + b)[a.len() + m] == x);
    }
}

/// What the `j`-th child contributes to flattening is part of the flattened form of the
/// first `k > j` children.
proof fn lemma_prefix_segment(h: Hierarchy, i: int, k: int, j: int, x: usize)
    requires
        hierarchy_wf(h),
        0 <= i < h.entities@.len(),
        0 <= j < k <= h.entities@[i].children@.len(),
        ({
            let c = h.entities@[i].children@[j];
            if is_expanded(h, c as int) {
                flattened(h, c as int).contains(x)
            } else {
                x == c
            }
        }),
    ensures
        flattened_prefix(h, i, k).contains(x),
    decreases k,
{
    let c = h.entities@[i].children@[k - 1];
    assert(i < c < h.entities@.len());
    let back = if is_expanded(h, c as int) {
        flattened(h, c as int)
    } else {
        seq![c]
    };
    assert(flattened_prefix(h, i, k) == flattened_prefix(h, i, k - 1) + back);
    if j == k - 1 {
        if !is_expanded(h, c as int) {
            assert(back[0] == x);
        }
        lemma_seq_concat_contains(flattened_prefix(h, i, k - 1), back, x);
    } else {
        lemma_prefix_segment(h, i, k - 1, j, x);
        lemma_seq_concat_contains(flattened_prefix(h, i, k - 1), back, x);
    }
}

proof fn lemma_flatten_climbs(h: Hierarchy, y: int, a: int, x: usize)
    requires
        hierarchy_wf(h),
        hier_children_listed(h),
        0 <= a < h.entities@.len(),
        spliced_under(h, y, a),
        if is_expanded(h, y) {
            flattened(h, y).contains(x)
        } else {
            x == y
        },
    ensures
        flattened(h, a).contains(x),
    decreases y,
{
    let p = h.entities@[y].parent.unwrap() as int;
    assert(0 <= p < y);
    let k = choose|k: int|
        0 <= k < h.entities@[p].children@.len() && #[trigger] h.entities@[p].children@[k] == y;
    lemma_prefix_segment(h, p, h.entities@[p].children@.len() as int, k, x);
    if p != a {
        lemma_flatten_climbs(h, p, a, x);
    }
}

/// Law: flattening misses nothing: every entity spliced under entity `a` (a child of `a`,
/// or a child of an expanded fragment spliced under `a`) that is not itself an expanded
/// fragment is among `a`'s real children.
pub proof fn law_flatten_keeps_every_real_child(h: Hierarchy, a: int, x: int)
    requires
        hierarchy_wf(h),
        hier_children_listed(h),
        0 <= a < h.entities@.len(),
        0 <= x < h.entities@.len(),
        spliced_under(h, x, a),
        !is_expanded(h, x),
    ensures
        flattened(h, a).contains(x as usize),
{
    lemma_flatten_climbs(h, x, a, x as usize);
}

proof fn lemma_spliced_trans(h: Hierarchy, x: int, c: int, a: int)
    requires
        spliced_under(h, x, c),
        is_expanded(h, c),
        spliced_under(h, c, a),
    ensures
        spliced_under(h, x, a),
    decreases x,
{
    let p = h.entities@[x].parent.unwrap() as int;
    if p != c {
        lemma_spliced_trans(h, p, c, a);
    }
}

/// Law: flattening adds nothing: every real child of entity `i` is spliced under `i`.
pub proof fn law_flatten_children_come_from_below(h: Hierarchy, i: int)
    requires
        hierarchy_wf(h),
        hier_tree_consistent(h),
        0 <= i < h.entities@.len(),
    ensures
        forall|m: int|
            0 <= m < flattened(h, i).len() ==> spliced_under(
                h,
                #[trigger] flattened(h, i)[m] as int,
                i,
            ),
    decreases h.entities@.len() - i, 1int, 0int,
{
    let n = h.entities@[i].children@.len() as int;
    lemma_prefix_from_below(h, i, n);
    assert(flattened(h, i) == flattened_prefix(h, i, n));
}

proof fn lemma_prefix_from_below(h: Hierarchy, i: int, k: int)
    requires
        hierarchy_wf(h),
        hier_tree_consistent(h),
        0 <= i < h.entities@.len(),
        0 <= k <= h.entities@[i].children@.len(),
    ensures
        forall|m: int|
            0 <= m < flattened_prefix(h, i, k).len() ==> spliced_under(
                h,
                #[trigger] flattened_prefix(h, i, k)[m] as int,
                i,
            ),
    decreases h.entities@.len() - i, 0int, k,
{
    if k > 0 {
        lemma_prefix_from_below(h, i, k - 1);
        let c = h.entities@[i].children@[k - 1];
        assert(i < c < h.entities@.len());
        assert(h.entities@.len() == h.entities.len());
        assert(h.entities@[c as int].parent == Some(i as usize));
        assert(spliced_under(h, c as int, i));
        let front = flattened_prefix(h, i, k - 1);
        let back = if is_expanded(h, c as int) {
            flattened(h, c as int)
        } else {
            seq![c]
        };
        assert(flattened_prefix(h, i, k) == front + back);
        if is_expanded(h, c as int) {
            law_flatten_children_come_from_below(h, c as int);
        }
        assert forall|m: int| 0 <= m < flattened_prefix(h, i, k).len() implies spliced_under(
            h,
            #[trigger] flattened_prefix(h, i, k)[m] as int,
            i,
        ) by {
            if m < front.len() {
                assert(flattened_prefix(h, i, k)[m] == front[m]);
            } else {
                let q = m - front.len();
                assert(flattened_prefix(h, i, k)[m] == back[q]);
                if is_expanded(h, c as int) {
                    assert(spliced_under(h, flattened(h, c as int)[q] as int, c as int));
                    lemma_spliced_trans(h, back[q] as int, c as int, i);
                }
            }
        }
    }
}

/// The entity whose real children must be recomputed when the children of entity `i`
/// change: searching upward from `i`'s parent, the first entity that has a children list
/// and is not a fragment, passing only through fragments that have a children list and a
/// parent.
pub open spec fn recompute_target(h: Hierarchy, i: int) -> Option<usize>
    decreases i, 0int,
{
    if 0 <= i < h.entities@.len() {
        match h.entities@[i].parent {
            Some(p) => if p < i {
                recompute_from(h, p as int)
            } else {
                None
            },
            None => None,
        }
    } else {
        None
    }
}

/// Upward search from entity `p` (see [`recompute_target`]).
pub open spec fn recompute_from(h: Hierarchy, p: int) -> Option<usize>
    decreases p, 1int,
{
    if 0 <= p < h.entities@.len() {
        if !h.entities@[p].fragment && h.entities@[p].has_children {
            Some(p as usize)
        } else if is_expanded(h, p) && h.entities@[p].parent is Some {
            recompute_target(h, p)
        } else {
            None
        }
    } else {
        None
    }
}

/// Finds the entity whose real children must be recomputed when the children of the
/// fragment `i` change (see [`recompute_target`]).
pub fn find_recompute_target(h: &Hierarchy, i: usize) -> (r: Option<usize>)
    requires
        hierarchy_wf(*h),
        i < h.entities@.len(),
    ensures
        r == recompute_target(*h, i as int),
        r matches Some(t) ==> t < i && !h.entities@[t as int].fragment
            && h.entities@[t as int].has_children,
{
    let mut cur = i;
    loop
        invariant
            hierarchy_wf(*h),
            cur <= i < h.entities@.len(),
            recompute_target(*h, i as int) == recompute_target(*h, cur as int),
        decreases cur,
    {
        let p = match h.entities[cur].parent {
            Some(p) => p,
            None => return None,
        };
        assert(p < cur);
        let pe = &h.entities[p];
        if !pe.fragment && pe.has_children {
            return Some(p);
        }
        if pe.fragment && pe.has_children && pe.parent.is_some() {
            cur = p;
        } else {
            return None;
        }
    }
}

/// Entity `a` is `e` or one of `e`'s ancestors (following parent links upward from `e`).
pub open spec fn is_self_or_ancestor(h: Hierarchy, a: int, e: int) -> bool
    decreases e,
{
    if a == e {
        true
    } else if 0 <= e < h.entities@.len() {
        match h.entities@[e].parent {
            Some(p) => p < e && is_self_or_ancestor(h, a, p as int),
            None => false,
        }
    } else {
        false
    }
}

fn self_or_ancestor(h: &Hierarchy, a: usize, e: usize) -> (r: bool)
    requires
        hierarchy_wf(*h),
        e < h.entities@.len(),
    ensures
        r == is_self_or_ancestor(*h, a as int, e as int),
{
    let mut cur = e;
    loop
        invariant
            hierarchy_wf(*h),
            cur < h.entities@.len(),
            is_self_or_ancestor(*h, a as int, e as int) == is_self_or_ancestor(
                *h,
                a as int,
                cur as int,
            ),
        decreases cur,
    {
        if cur == a {
            return true;
        }
        match h.entities[cur].parent {
            Some(p) => {
                assert(p < cur);
                cur = p;
            },
            None => return false,
        }
    }
}

/// An ancestor of an entity stands before it.
proof fn lemma_ancestor_before(h: Hierarchy, a: int, e: int)
    requires
        hierarchy_wf(h),
        is_self_or_ancestor(h, a, e),
    ensures
        a <= e,
    decreases e,
{
    if a != e {
        let p = h.entities@[e].parent.unwrap();
        lemma_ancestor_before(h, a, p as int);
    }
}

/// Law: the recompute target of entity `i` is the nearest qualifying ancestor. It is a
/// proper ancestor of `i` that is not a fragment and has a children list, and every
/// entity strictly between `i` and it on the parent chain is a fragment with a children
/// list and a parent; in particular, when `i`'s parent is not a fragment and has a
/// children list, the target is that parent.
pub proof fn law_recompute_target_is_nearest(h: Hierarchy, i: int)
    requires
        hierarchy_wf(h),
        0 <= i < h.entities@.len(),
    ensures
        recompute_target(h, i) matches Some(t) ==> {
            &&& t < i
            &&& !h.entities@[t as int].fragment && h.entities@[t as int].has_children
            &&& is_self_or_ancestor(h, t as int, i)
            &&& forall|a: int|
                a != i && a != t && #[trigger] is_self_or_ancestor(h, a, i) && is_self_or_ancestor(
                    h,
                    t as int,
                    a,
                ) ==> is_expanded(h, a) && h.entities@[a].parent is Some
        },
        h.entities@[i].parent matches Some(p) ==> (!h.entities@[p as int].fragment
            && h.entities@[p as int].has_children ==> recompute_target(h, i) == Some(p)),
    decreases i,
{
    match h.entities@[i].parent {
        Some(p) => {
            let p = p as int;
            assert(p < i);
            if !h.entities@[p].fragment && h.entities@[p].has_children {
                assert(is_self_or_ancestor(h, p, p));
                assert forall|a: int|
                    a != i && a != p && #[trigger] is_self_or_ancestor(h, a, i)
                        && is_self_or_ancestor(h, p, a) implies is_expanded(h, a)
                    && h.entities@[a].parent is Some by {
                    assert(is_self_or_ancestor(h, a, p));
                    lemma_ancestor_before(h, a, p);
                    lemma_ancestor_before(h, p, a);
                }
            } else if is_expanded(h, p) && h.entities@[p].parent is Some {
                law_recompute_target_is_nearest(h, p);
                match recompute_target(h, p) {
                    Some(t) => {
                        assert forall|a: int|
                            a != i && a != t && #[trigger] is_self_or_ancestor(h, a, i)
                                && is_self_or_ancestor(h, t as int, a) implies is_expanded(h, a)
                            && h.entities@[a].parent is Some by {
                            assert(is_self_or_ancestor(h, a, p));
                        }
                    },
                    None => {},
                }
            }
        },
        None => {},
    }
}

/// Law: the upward search does not stop early: if `t` is a proper ancestor of `i` that is
/// not a fragment and has a children list, and every entity strictly between `i` and `t`
/// on the parent chain is a fragment with a children list and a parent, then `t` is the
/// recompute target of `i`.
pub proof fn law_recompute_target_found(h: Hierarchy, i: int, t: int)
    requires
        hierarchy_wf(h),
        0 <= t < i < h.entities@.len(),
        !h.entities@[t].fragment && h.entities@[t].has_children,
        is_self_or_ancestor(h, t, i),
        forall|a: int|
            a != i && a != t && #[trigger] is_self_or_ancestor(h, a, i) && is_self_or_ancestor(
                h,
                t,
                a,
            ) ==> is_expanded(h, a) && h.entities@[a].parent is Some,
    ensures
        recompute_target(h, i) == Some(t as usize),
    decreases i,
{
    let p = h.entities@[i].parent.unwrap() as int;
    assert(p < i);
    assert(is_self_or_ancestor(h, t, p));
    if p != t {
        assert(is_self_or_ancestor(h, p, p));
        assert(is_self_or_ancestor(h, p, i));
        assert(is_expanded(h, p) && h.entities@[p].parent is Some);
        lemma_ancestor_before(h, t, p);
        assert forall|a: int|
            a != p && a != t && #[trigger] is_self_or_ancestor(h, a, p) && is_self_or_ancestor(
                h,
                t,
                a,
            ) implies is_expanded(h, a) && h.entities@[a].parent is Some by {
            lemma_ancestor_before(h, a, p);
            assert(is_self_or_ancestor(h, a, i));
        }
        law_recompute_target_found(h, p, t);
    }
}

/// Whether the pointer hovers entity `e`: some hovered entity is `e` or a descendant of it.
pub fn is_hovering(h: &Hierarchy, hovered: &Vec<usize>, e: usize) -> (r: bool)
    requires
        hierarchy_wf(*h),
        forall|k: int| 0 <= k < hovered@.len() ==> #[trigger] hovered@[k] < h.entities@.len(),
    ensures
        r == exists|k: int|
            0 <= k < hovered@.len() && is_self_or_ancestor(*h, e as int, #[trigger] hovered@[k] as int),
{
    let mut k: usize = 0;
    while k < hovered.len()
        invariant
            hierarchy_wf(*h),
            forall|t: int| 0 <= t < hovered@.len() ==> #[trigger] hovered@[t] < h.entities@.len(),
            k <= hovered@.len(),
            forall|t: int|
                0 <= t < k ==> !is_self_or_ancestor(*h, e as int, #[trigger] hovered@[t] as int),
        decreases hovered@.len() - k,
    {
        if self_or_ancestor(h, e, hovered[k]) {
            return true;
        }
        k = k + 1;
    }
    false
}

} // verus!
