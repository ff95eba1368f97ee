//! Longest common run (contiguous common substring) of two slices under a comparator.
use vstd::prelude::*;

verus! {

/// The comparator was called on `(a[i], b[j])` and may have answered `true`.
pub open spec fn observed_match<A, B, F: Fn(&A, &B) -> bool>(
    same: F,
    a: Seq<A>,
    b: Seq<B>,
    i: int,
    j: int,
) -> bool {
    call_ensures(same, (&a[i], &b[j]), true)
}

/// The comparator may answer `false` on `(a[i], b[j])`.
pub open spec fn observed_mismatch<A, B, F: Fn(&A, &B) -> bool>(
    same: F,
    a: Seq<A>,
    b: Seq<B>,
    i: int,
    j: int,
) -> bool {
    call_ensures(same, (&a[i], &b[j]), false)
}

/// Every comparison of the run of length `len` at `(i, j)` answered `true`.
pub open spec fn is_common_run<A, B, F: Fn(&A, &B) -> bool>(
    same: F,
    a: Seq<A>,
    b: Seq<B>,
    i: int,
    j: int,
    len: int,
) -> bool {
    &&& 0 <= i
    &&& 0 <= j
    &&& 0 <= len
    &&& i + len <= a.len()
    &&& j + len <= b.len()
    &&& forall|t: int| 0 <= t < len ==> #[trigger] observed_match(same, a, b, i + t, j + t)
}

/// The run starting at `(i, j)` stops at step `t`: it leaves `a[..a_hi]` or `b[..b_hi]`
/// there, or the comparator may answer `false` there.
pub open spec fn blocked_at<A, B, F: Fn(&A, &B) -> bool>(
    same: F,
    a: Seq<A>,
    b: Seq<B>,
    a_hi: int,
    b_hi: int,
    i: int,
    j: int,
    t: int,
) -> bool {
    i + t >= a_hi || j + t >= b_hi || observed_mismatch(same, a, b, i + t, j + t)
}

/// No run starting at `(i, j)` (restricted to `a[..a_hi]`, `b[..b_hi]`) is longer than `m`:
/// it stops within its first `m + 1` steps.
pub open spec fn run_bounded<A, B, F: Fn(&A, &B) -> bool>(
    same: F,
    a: Seq<A>,
    b: Seq<B>,
    a_hi: int,
    b_hi: int,
    i: int,
    j: int,
    m: int,
) -> bool {
    exists|t: int| 0 <= t <= m && #[trigger] blocked_at(same, a, b, a_hi, b_hi, i, j, t)
}

/// Specification of a longest common run between `a[a_lo..a_hi]` and `b[b_lo..b_hi]`:
/// `(i, j, len)` is a common run inside both ranges, and no run starting inside the ranges
/// is longer. An empty result is placed at the start of both ranges.
pub open spec fn is_longest_run<A, B, F: Fn(&A, &B) -> bool>(
    same: F,
    a: Seq<A>,
    b: Seq<B>,
    a_lo: int,
    a_hi: int,
    b_lo: int,
    b_hi: int,
    r: (usize, usize, usize),
) -> bool {
    &&& a_lo <= r.0 && r.0 + r.2 <= a_hi
    &&& b_lo <= r.1 && r.1 + r.2 <= b_hi
    &&& is_common_run(same, a, b, r.0 as int, r.1 as int, r.2 as int)
    &&& r.2 == 0 ==> r.0 == a_lo && r.1 == b_lo
    &&& forall|i: int, j: int|
        a_lo <= i < a_hi && b_lo <= j < b_hi ==> #[trigger] run_bounded(
            same,
            a,
            b,
            a_hi,
            b_hi,
            i,
            j,
            r.2 as int,
        )
}

/// Every start strictly before `(i, j)` in row-major order, inside the ranges, has a run
/// shorter than `len`: among several longest runs, the one at `(i, j)` comes first.
pub open spec fn first_of_length<A, B, F: Fn(&A, &B) -> bool>(
    same: F,
    a: Seq<A>,
    b: Seq<B>,
    a_lo: int,
    a_hi: int,
    b_lo: int,
    b_hi: int,
    i: int,
    j: int,
    len: int,
) -> bool {
    forall|i2: int, j2: int|
        a_lo <= i2 < a_hi && b_lo <= j2 < b_hi && (i2 < i || (i2 == i && j2 < j))
            ==> #[trigger] run_bounded(same, a, b, a_hi, b_hi, i2, j2, len - 1)
}

proof fn lemma_run_bounded_mono<A, B, F: Fn(&A, &B) -> bool>(
    same: F,
    a: Seq<A>,
    b: Seq<B>,
    a_hi: int,
    b_hi: int,
    i: int,
    j: int,
    m: int,
    m2: int,
)
    requires
        run_bounded(same, a, b, a_hi, b_hi, i, j, m),
        m <= m2,
    ensures
        run_bounded(same, a, b, a_hi, b_hi, i, j, m2),
{
    let t = choose|t: int| 0 <= t <= m && #[trigger] blocked_at(same, a, b, a_hi, b_hi, i, j, t);
    assert(0 <= t <= m2 && blocked_at(same, a, b, a_hi, b_hi, i, j, t));
}

/// Length of the common run that starts at `(i, j)` and stays inside `a[..a_hi]`, `b[..b_hi]`.
fn run_length<A, B, F: Fn(&A, &B) -> bool>(
    a: &[A],
    b: &[B],
    a_hi: usize,
    b_hi: usize,
    i: usize,
    j: usize,
    same: &F,
) -> (k: usize)
    requires
        a_hi <= a@.len(),
        b_hi <= b@.len(),
        i < a_hi,
        j < b_hi,
        forall|x: &A, y: &B| same.requires((x, y)),
    ensures
        i + k <= a_hi,
        j + k <= b_hi,
        is_common_run(*same, a@, b@, i as int, j as int, k as int),
        run_bounded(*same, a@, b@, a_hi as int, b_hi as int, i as int, j as int, k as int),
{
    let mut k: usize = 0;
    while i + k < a_hi && j + k < b_hi
        invariant
            a_hi <= a@.len(),
            b_hi <= b@.len(),
            i < a_hi,
            j < b_hi,
            i + k <= a_hi,
            j + k <= b_hi,
            forall|x: &A, y: &B| same.requires((x, y)),
            is_common_run(*same, a@, b@, i as int, j as int, k as int),
        decreases a_hi - (i + k),
    {
        let matched = same(&a[i + k], &b[j + k]);
        if !matched {
            assert(blocked_at(*same, a@, b@, a_hi as int, b_hi as int, i as int, j as int, k as int));
            return k;
        }
        proof {
            assert(observed_match(*same, a@, b@, (i + k) as int, (j + k) as int));
        }
        k = k + 1;
        assert forall|t: int| 0 <= t < k implies #[trigger] observed_match(
            *same,
            a@,
            b@,
            i + t,
            j + t,
        ) by {
            if t == k - 1 {
                assert(i + t == i + k - 1);
            }
        }
    }
    assert(blocked_at(*same, a@, b@, a_hi as int, b_hi as int, i as int, j as int, k as int));
    k
}

/// Finds a longest common run between `a[a_lo..a_hi]` and `b[b_lo..b_hi]`, returned as
/// absolute start positions and a length. Among several longest runs the first in
/// row-major order of start positions is taken.
pub fn lcs_in<A, B, F: Fn(&A, &B) -> bool>(
    a: &[A],
    a_lo: usize,
    a_hi: usize,
    b: &[B],
    b_lo: usize,
    b_hi: usize,
    same: &F,
) -> (r: (usize, usize, usize))
    requires
        a_lo <= a_hi <= a@.len(),
        b_lo <= b_hi <= b@.len(),
        forall|x: &A, y: &B| same.requires((x, y)),
    ensures
        is_longest_run(*same, a@, b@, a_lo as int, a_hi as int, b_lo as int, b_hi as int, r),
        first_of_length(
            *same,
            a@,
            b@,
            a_lo as int,
            a_hi as int,
            b_lo as int,
            b_hi as int,
            r.0 as int,
            r.1 as int,
            r.2 as int,
        ),
{
    let mut best: (usize, usize, usize) = (a_lo, b_lo, 0);
    let mut i = a_lo;
    while i < a_hi
        invariant
            a_lo <= i <= a_hi <= a@.len(),
            b_lo <= b_hi <= b@.len(),
            forall|x: &A, y: &B| same.requires((x, y)),
            a_lo <= best.0 && best.0 + best.2 <= a_hi,
            b_lo <= best.1 && best.1 + best.2 <= b_hi,
            is_common_run(*same, a@, b@, best.0 as int, best.1 as int, best.2 as int),
            best.2 == 0 ==> best.0 == a_lo && best.1 == b_lo,
            forall|i2: int, j2: int|
                a_lo <= i2 < i && b_lo <= j2 < b_hi ==> #[trigger] run_bounded(
                    *same,
                    a@,
                    b@,
                    a_hi as int,
                    b_hi as int,
                    i2,
                    j2,
                    best.2 as int,
                ),
            first_of_length(
                *same,
                a@,
                b@,
                a_lo as int,
                a_hi as int,
                b_lo as int,
                b_hi as int,
                best.0 as int,
                best.1 as int,
                best.2 as int,
            ),
        decreases a_hi - i,
    {
        let mut j = b_lo;
        while j < b_hi
            invariant
                a_lo <= i < a_hi <= a@.len(),
                b_lo <= j <= b_hi <= b@.len(),
                forall|x: &A, y: &B| same.requires((x, y)),
                a_lo <= best.0 && best.0 + best.2 <= a_hi,
                b_lo <= best.1 && best.1 + best.2 <= b_hi,
                is_common_run(*same, a@, b@, best.0 as int, best.1 as int, best.2 as int),
                best.2 == 0 ==> best.0 == a_lo && best.1 == b_lo,
                forall|i2: int, j2: int|
                    (a_lo <= i2 < i && b_lo <= j2 < b_hi) || (i2 == i && b_lo <= j2 < j)
                        ==> #[trigger] run_bounded(
                        *same,
                        a@,
                        b@,
                        a_hi as int,
                        b_hi as int,
                        i2,
                        j2,
                        best.2 as int,
                    ),
                first_of_length(
                    *same,
                    a@,
                    b@,
                    a_lo as int,
                    a_hi as int,
                    b_lo as int,
                    b_hi as int,
                    best.0 as int,
                    best.1 as int,
                    best.2 as int,
                ),
            decreases b_hi - j,
        {
            let k = run_length(a, b, a_hi, b_hi, i, j, same);
            if k > best.2 {
                let ghost old_best: int = best.2 as int;
                best = (i, j, k);
                proof {
                    assert forall|i2: int, j2: int|
                        (a_lo <= i2 < i && b_lo <= j2 < b_hi) || (i2 == i && b_lo <= j2 < j + 1)
                            implies #[trigger] run_bounded(
                            *same,
                            a@,
                            b@,
                            a_hi as int,
                            b_hi as int,
                            i2,
                            j2,
                            best.2 as int,
                        ) by {
                        if i2 == i && j2 == j {
                        } else {
                            lemma_run_bounded_mono(
                                *same,
                                a@,
                                b@,
                                a_hi as int,
                                b_hi as int,
                                i2,
                                j2,
                                old_best,
                                best.2 as int,
                            );
                        }
                    }
                    assert forall|i2: int, j2: int|
                        a_lo <= i2 < a_hi && b_lo <= j2 < b_hi && (i2 < i || (i2 == i && j2 < j))
                            implies #[trigger] run_bounded(
                            *same,
                            a@,
                            b@,
                            a_hi as int,
                            b_hi as int,
                            i2,
                            j2,
                            best.2 - 1,
                        ) by {
                        if !(i2 == i && j2 == j) {
                            lemma_run_bounded_mono(
                                *same,
                                a@,
                                b@,
                                a_hi as int,
                                b_hi as int,
                                i2,
                                j2,
                                old_best,
                                best.2 - 1,
                            );
                        }
                    }
                }
            } else {
                proof {
                    lemma_run_bounded_mono(
                        *same,
                        a@,
                        b@,
                        a_hi as int,
                        b_hi as int,
                        i as int,
                        j as int,
                        k as int,
                        best.2 as int,
                    );
                }
            }
            j = j + 1;
        }
        i = i + 1;
    }
    best
}

/// Longest common run of two whole slices: `(start in a, start in b, length)`; among
/// several longest runs, the first in row-major order of start positions.
pub fn lcs<A, B, F: Fn(&A, &B) -> bool>(a: &[A], b: &[B], same: F) -> (r: (usize, usize, usize))
    requires
        forall|x: &A, y: &B| same.requires((x, y)),
    ensures
        is_longest_run(same, a@, b@, 0, a@.len() as int, 0, b@.len() as int, r),
        first_of_length(
            same,
            a@,
            b@,
            0,
            a@.len() as int,
            0,
            b@.len() as int,
            r.0 as int,
            r.1 as int,
            r.2 as int,
        ),
{
    lcs_in(a, 0, a.len(), b, 0, b.len(), &same)
}

} // verus!
