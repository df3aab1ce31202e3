//! The partition laws of the two-phase pipeline.
//!
//! The central statement: after the containment pass and the proximity
//! pass, every input point index appears exactly once across the
//! per-region assigned sets and the unassigned list — never zero times,
//! never more than once. The proof counts occurrences through the
//! closed-form descriptions the aggregator's contracts give.

use vstd::prelude::*;

use crate::aggregate::{
    containment_set_upto, first_containing, first_containing_upto, pool_upto, proximity_added,
    proximity_remaining, Point,
};
use crate::geometry::Coord;
use crate::polygon::Polygon;
use crate::resolver::chosen_region;

verus! {

/// Region `r`'s assigned set once both passes are done, as the
/// aggregator's contracts describe it: the containment pass's set followed
/// by what the proximity pass appended.
pub open spec fn final_region_set(
    regions: Seq<Polygon>,
    points: Seq<Point>,
    dists: Seq<Vec<Option<u64>>>,
    threshold: u64,
    r: int,
) -> Seq<usize> {
    containment_set_upto(regions, points, r, points.len() as int) + proximity_added(
        pool_upto(regions, points, points.len() as int),
        dists,
        threshold,
        r,
        dists.len() as int,
    )
}

/// The permanently unassigned point indices once both passes are done.
pub open spec fn final_unassigned(
    regions: Seq<Polygon>,
    points: Seq<Point>,
    dists: Seq<Vec<Option<u64>>>,
    threshold: u64,
) -> Seq<usize> {
    proximity_remaining(
        pool_upto(regions, points, points.len() as int),
        dists,
        threshold,
        dists.len() as int,
    )
}

/// Number of occurrences of `x` in `s`.
pub open spec fn occurrences(s: Seq<usize>, x: usize) -> nat
    decreases s.len(),
{
    if s.len() == 0 {
        0
    } else {
        occurrences(s.drop_last(), x) + (if s.last() == x {
            1nat
        } else {
            0nat
        })
    }
}

proof fn lemma_occ_concat(a: Seq<usize>, b: Seq<usize>, x: usize)
    ensures
        occurrences(a + b, x) == occurrences(a, x) + occurrences(b, x),
    decreases b.len(),
{
    if b.len() == 0 {
        assert(a + b =~= a);
    } else {
        assert((a + b).drop_last() =~= a + b.drop_last());
        assert((a + b).last() == b.last());
        lemma_occ_concat(a, b.drop_last(), x);
    }
}

proof fn lemma_occ_single(v: usize, x: usize)
    ensures
        occurrences(seq![v], x) == (if v == x {
            1nat
        } else {
            0nat
        }),
{
    assert(seq![v].drop_last() =~= Seq::<usize>::empty());
    assert(occurrences(Seq::<usize>::empty(), x) == 0);
    assert(seq![v].last() == v);
}

proof fn lemma_occ_positive(s: Seq<usize>, j: int, x: usize)
    requires
        0 <= j < s.len(),
        s[j] == x,
    ensures
        occurrences(s, x) >= 1,
    decreases s.len(),
{
    if j == s.len() - 1 {
    } else {
        assert(s.drop_last()[j] == s[j]);
        lemma_occ_positive(s.drop_last(), j, x);
    }
}

proof fn lemma_occ_exists(s: Seq<usize>, x: usize)
    requires
        occurrences(s, x) >= 1,
    ensures
        exists|j: int| 0 <= j < s.len() && s[j] == x,
    decreases s.len(),
{
    if s.len() > 0 {
        if s.last() == x {
            assert(s[s.len() - 1] == x);
        } else {
            lemma_occ_exists(s.drop_last(), x);
            let j = choose|j: int| 0 <= j < s.drop_last().len() && s.drop_last()[j] == x;
            assert(s[j] == x);
        }
    }
}

/// How often point `i` occurs in the containment pass's set for region
/// `r`: once when that pass assigns `i` to `r`, never otherwise.
proof fn lemma_containment_set_occ(
    regions: Seq<Polygon>,
    points: Seq<Point>,
    r: int,
    k: int,
    i: int,
)
    requires
        0 <= k <= points.len() <= usize::MAX,
        0 <= i < points.len(),
    ensures
        occurrences(containment_set_upto(regions, points, r, k), i as usize) == (if i < k
            && (first_containing(regions, points[i].pos) matches Some(fr) && fr as int == r) {
            1nat
        } else {
            0nat
        }),
    decreases k,
{
    if k > 0 {
        lemma_containment_set_occ(regions, points, r, k - 1, i);
        let head = containment_set_upto(regions, points, r, k - 1);
        if first_containing(regions, points[k - 1].pos) matches Some(fr) && fr as int == r {
            lemma_occ_concat(head, seq![(k - 1) as usize], i as usize);
            lemma_occ_single((k - 1) as usize, i as usize);
        } else {
            lemma_occ_concat(head, seq![], i as usize);
        }
    }
}

/// How often point `i` occurs in the pool the containment pass leaves:
/// once when no region contains it, never otherwise.
proof fn lemma_pool_occ(regions: Seq<Polygon>, points: Seq<Point>, k: int, i: int)
    requires
        0 <= k <= points.len() <= usize::MAX,
        0 <= i < points.len(),
    ensures
        occurrences(pool_upto(regions, points, k), i as usize) == (if i < k && first_containing(
            regions,
            points[i].pos,
        ) is None {
            1nat
        } else {
            0nat
        }),
    decreases k,
{
    if k > 0 {
        lemma_pool_occ(regions, points, k - 1, i);
        let head = pool_upto(regions, points, k - 1);
        if first_containing(regions, points[k - 1].pos) is None {
            lemma_occ_concat(head, seq![(k - 1) as usize], i as usize);
            lemma_occ_single((k - 1) as usize, i as usize);
        } else {
            lemma_occ_concat(head, seq![], i as usize);
        }
    }
}

/// The pool is strictly increasing: every entry is under `k`, and entries
/// grow with their position — so a point index occurs at one position at
/// most.
proof fn lemma_pool_upto_sorted(regions: Seq<Polygon>, points: Seq<Point>, k: int)
    requires
        0 <= k <= points.len() <= usize::MAX,
    ensures
        forall|m: int|
            0 <= m < pool_upto(regions, points, k).len() ==> ((#[trigger] pool_upto(
                regions,
                points,
                k,
            )[m]) as int) < k,
        forall|m1: int, m2: int|
            0 <= m1 < m2 < pool_upto(regions, points, k).len() ==> pool_upto(
                regions,
                points,
                k,
            )[m1] < pool_upto(regions, points, k)[m2],
    decreases k,
{
    if k > 0 {
        lemma_pool_upto_sorted(regions, points, k - 1);
        let prev = pool_upto(regions, points, k - 1);
        let cur = pool_upto(regions, points, k);
        assert forall|m: int| 0 <= m < cur.len() implies ((cur[m]) as int) < k by {
            if m < prev.len() {
                assert(cur[m] == prev[m]);
            } else {
                assert(cur[m] == (k - 1) as usize);
            }
        }
        assert forall|m1: int, m2: int| 0 <= m1 < m2 < cur.len() implies cur[m1] < cur[m2] by {
            assert(cur[m1] == prev[m1]);
            if m2 < prev.len() {
                assert(cur[m2] == prev[m2]);
            } else {
                assert(cur[m2] == (k - 1) as usize);
                assert((prev[m1] as int) < k - 1);
            }
        }
    }
}

/// How often pool entry `x` occurs in what the proximity pass appends to
/// region `r`, when `x` stands nowhere in the pool: never.
proof fn lemma_proximity_added_occ_absent(
    pool: Seq<usize>,
    dists: Seq<Vec<Option<u64>>>,
    threshold: u64,
    r: int,
    k: int,
    x: usize,
)
    requires
        0 <= k <= pool.len(),
        forall|j: int| 0 <= j < pool.len() ==> (#[trigger] pool[j]) != x,
    ensures
        occurrences(proximity_added(pool, dists, threshold, r, k), x) == 0,
    decreases k,
{
    if k > 0 {
        lemma_proximity_added_occ_absent(pool, dists, threshold, r, k - 1, x);
        let head = proximity_added(pool, dists, threshold, r, k - 1);
        if chosen_region(dists[k - 1]@, threshold) matches Some(cr) && cr as int == r {
            lemma_occ_concat(head, seq![pool[k - 1]], x);
            lemma_occ_single(pool[k - 1], x);
        } else {
            lemma_occ_concat(head, seq![], x);
        }
    }
}

/// How often pool entry `x`, standing only at position `jx`, occurs in
/// what the proximity pass appends to region `r`: once when `x`'s row
/// picks `r`, never otherwise.
proof fn lemma_proximity_added_occ_at(
    pool: Seq<usize>,
    dists: Seq<Vec<Option<u64>>>,
    threshold: u64,
    r: int,
    k: int,
    jx: int,
    x: usize,
)
    requires
        0 <= k <= pool.len(),
        0 <= jx < pool.len(),
        pool[jx] == x,
        forall|j: int| 0 <= j < pool.len() && (#[trigger] pool[j]) == x ==> j == jx,
    ensures
        occurrences(proximity_added(pool, dists, threshold, r, k), x) == (if jx < k
            && (chosen_region(dists[jx]@, threshold) matches Some(cr) && cr as int == r) {
            1nat
        } else {
            0nat
        }),
    decreases k,
{
    if k > 0 {
        lemma_proximity_added_occ_at(pool, dists, threshold, r, k - 1, jx, x);
        let head = proximity_added(pool, dists, threshold, r, k - 1);
        if chosen_region(dists[k - 1]@, threshold) matches Some(cr) && cr as int == r {
            lemma_occ_concat(head, seq![pool[k - 1]], x);
            lemma_occ_single(pool[k - 1], x);
        } else {
            lemma_occ_concat(head, seq![], x);
        }
    }
}

/// The same occurrence counts for the unassigned list the proximity pass
/// leaves: `x` absent from the pool never occurs there.
proof fn lemma_proximity_remaining_occ_absent(
    pool: Seq<usize>,
    dists: Seq<Vec<Option<u64>>>,
    threshold: u64,
    k: int,
    x: usize,
)
    requires
        0 <= k <= pool.len(),
        forall|j: int| 0 <= j < pool.len() ==> (#[trigger] pool[j]) != x,
    ensures
        occurrences(proximity_remaining(pool, dists, threshold, k), x) == 0,
    decreases k,
{
    if k > 0 {
        lemma_proximity_remaining_occ_absent(pool, dists, threshold, k - 1, x);
        let head = proximity_remaining(pool, dists, threshold, k - 1);
        if chosen_region(dists[k - 1]@, threshold) is None {
            lemma_occ_concat(head, seq![pool[k - 1]], x);
            lemma_occ_single(pool[k - 1], x);
        } else {
            lemma_occ_concat(head, seq![], x);
        }
    }
}

/// `x` standing only at pool position `jx` stays unassigned exactly when
/// its row picks no region.
proof fn lemma_proximity_remaining_occ_at(
    pool: Seq<usize>,
    dists: Seq<Vec<Option<u64>>>,
    threshold: u64,
    k: int,
    jx: int,
    x: usize,
)
    requires
        0 <= k <= pool.len(),
        0 <= jx < pool.len(),
        pool[jx] == x,
        forall|j: int| 0 <= j < pool.len() && (#[trigger] pool[j]) == x ==> j == jx,
    ensures
        occurrences(proximity_remaining(pool, dists, threshold, k), x) == (if jx < k
            && chosen_region(dists[jx]@, threshold) is None {
            1nat
        } else {
            0nat
        }),
    decreases k,
{
    if k > 0 {
        lemma_proximity_remaining_occ_at(pool, dists, threshold, k - 1, jx, x);
        let head = proximity_remaining(pool, dists, threshold, k - 1);
        if chosen_region(dists[k - 1]@, threshold) is None {
            lemma_occ_concat(head, seq![pool[k - 1]], x);
            lemma_occ_single(pool[k - 1], x);
        } else {
            lemma_occ_concat(head, seq![], x);
        }
    }
}

/// Total number of occurrences of `x` across the final assigned sets of
/// the first `r` regions.
pub open spec fn assigned_occurrences_upto(
    regions: Seq<Polygon>,
    points: Seq<Point>,
    dists: Seq<Vec<Option<u64>>>,
    threshold: u64,
    x: usize,
    r: int,
) -> nat
    decreases r,
{
    if r <= 0 {
        0
    } else {
        assigned_occurrences_upto(regions, points, dists, threshold, x, r - 1) + occurrences(
            final_region_set(regions, points, dists, threshold, r - 1),
            x,
        )
    }
}

proof fn lemma_sum_zero(
    regions: Seq<Polygon>,
    points: Seq<Point>,
    dists: Seq<Vec<Option<u64>>>,
    threshold: u64,
    x: usize,
    r: int,
)
    requires
        forall|t: int|
            0 <= t < r ==> occurrences(final_region_set(regions, points, dists, threshold, t), x)
                == 0,
    ensures
        assigned_occurrences_upto(regions, points, dists, threshold, x, r) == 0,
    decreases r,
{
    if r > 0 {
        lemma_sum_zero(regions, points, dists, threshold, x, r - 1);
    }
}

proof fn lemma_sum_single_target(
    regions: Seq<Polygon>,
    points: Seq<Point>,
    dists: Seq<Vec<Option<u64>>>,
    threshold: u64,
    x: usize,
    r: int,
    target: int,
)
    requires
        0 <= target,
        occurrences(final_region_set(regions, points, dists, threshold, target), x) == 1,
        forall|t: int|
            0 <= t && t != target ==> occurrences(
                final_region_set(regions, points, dists, threshold, t),
                x,
            ) == 0,
    ensures
        assigned_occurrences_upto(regions, points, dists, threshold, x, r) == (if target < r {
            1nat
        } else {
            0nat
        }),
    decreases r,
{
    if r > 0 {
        lemma_sum_single_target(regions, points, dists, threshold, x, r - 1, target);
    }
}

/// A containing region's index is always under the number of regions.
proof fn lemma_first_containing_bound(regions: Seq<Polygon>, p: Coord, k: int)
    requires
        0 <= k <= regions.len() <= usize::MAX,
    ensures
        first_containing_upto(regions, p, k) matches Some(r) ==> (r as int) < k,
    decreases k,
{
    if k > 0 {
        lemma_first_containing_bound(regions, p, k - 1);
    }
}

/// Partition invariant: every input point index appears exactly once
/// across the final per-region assigned sets and the final unassigned
/// list, whatever the regions, the distance rows and the threshold.
pub proof fn lemma_partition_invariant(
    regions: Seq<Polygon>,
    points: Seq<Point>,
    dists: Seq<Vec<Option<u64>>>,
    threshold: u64,
    i: int,
)
    requires
        points.len() <= usize::MAX,
        regions.len() <= usize::MAX,
        dists.len() == pool_upto(regions, points, points.len() as int).len(),
        forall|j: int| 0 <= j < dists.len() ==> (#[trigger] dists[j])@.len() == regions.len(),
        0 <= i < points.len(),
    ensures
        assigned_occurrences_upto(regions, points, dists, threshold, i as usize, regions.len() as int)
            + occurrences(final_unassigned(regions, points, dists, threshold), i as usize) == 1,
{
    let n = points.len() as int;
    let nd = dists.len() as int;
    let pool = pool_upto(regions, points, n);
    let x = i as usize;
    lemma_pool_upto_sorted(regions, points, n);
    lemma_pool_occ(regions, points, n, i);
    match first_containing(regions, points[i].pos) {
        Some(r0) => {
            lemma_first_containing_bound(regions, points[i].pos, regions.len() as int);
            // i never entered the pool, so the proximity pass never touches it
            assert forall|j: int| 0 <= j < pool.len() implies (#[trigger] pool[j]) != x by {
                if pool[j] == x {
                    lemma_occ_positive(pool, j, x);
                }
            }
            assert forall|t: int|
                0 <= t && t != r0 as int implies occurrences(
                final_region_set(regions, points, dists, threshold, t),
                x,
            ) == 0 by {
                lemma_containment_set_occ(regions, points, t, n, i);
                lemma_proximity_added_occ_absent(pool, dists, threshold, t, nd, x);
                lemma_occ_concat(
                    containment_set_upto(regions, points, t, n),
                    proximity_added(pool, dists, threshold, t, nd),
                    x,
                );
            }
            lemma_containment_set_occ(regions, points, r0 as int, n, i);
            lemma_proximity_added_occ_absent(pool, dists, threshold, r0 as int, nd, x);
            lemma_occ_concat(
                containment_set_upto(regions, points, r0 as int, n),
                proximity_added(pool, dists, threshold, r0 as int, nd),
                x,
            );
            lemma_sum_single_target(
                regions,
                points,
                dists,
                threshold,
                x,
                regions.len() as int,
                r0 as int,
            );
            lemma_proximity_remaining_occ_absent(pool, dists, threshold, nd, x);
        },
        None => {
            // i sits at exactly one pool position
            lemma_occ_exists(pool, x);
            let jx = choose|j: int| 0 <= j < pool.len() && pool[j] == x;
            assert forall|j: int|
                0 <= j < pool.len() && (#[trigger] pool[j]) == x implies j == jx by {
                if j < jx {
                    assert(pool[j] < pool[jx]);
                } else if j > jx {
                    assert(pool[jx] < pool[j]);
                }
            }
            assert forall|t: int|
                0 <= t implies occurrences(
                containment_set_upto(regions, points, t, n),
                x,
            ) == 0 by {
                lemma_containment_set_occ(regions, points, t, n, i);
            }
            match chosen_region(dists[jx]@, threshold) {
                Some(cr) => {
                    crate::resolver::lemma_threshold_boundary(dists[jx]@, threshold);
                    assert((cr as int) < regions.len());
                    assert forall|t: int|
                        0 <= t && t != cr as int implies occurrences(
                        final_region_set(regions, points, dists, threshold, t),
                        x,
                    ) == 0 by {
                        lemma_proximity_added_occ_at(pool, dists, threshold, t, nd, jx, x);
                        lemma_occ_concat(
                            containment_set_upto(regions, points, t, n),
                            proximity_added(pool, dists, threshold, t, nd),
                            x,
                        );
                    }
                    lemma_proximity_added_occ_at(pool, dists, threshold, cr as int, nd, jx, x);
                    lemma_occ_concat(
                        containment_set_upto(regions, points, cr as int, n),
                        proximity_added(pool, dists, threshold, cr as int, nd),
                        x,
                    );
                    lemma_sum_single_target(
                        regions,
                        points,
                        dists,
                        threshold,
                        x,
                        regions.len() as int,
                        cr as int,
                    );
                    lemma_proximity_remaining_occ_at(pool, dists, threshold, nd, jx, x);
                },
                None => {
                    assert forall|t: int|
                        0 <= t implies occurrences(
                        final_region_set(regions, points, dists, threshold, t),
                        x,
                    ) == 0 by {
                        lemma_proximity_added_occ_at(pool, dists, threshold, t, nd, jx, x);
                        lemma_occ_concat(
                            containment_set_upto(regions, points, t, n),
                            proximity_added(pool, dists, threshold, t, nd),
                            x,
                        );
                    }
                    lemma_sum_zero(regions, points, dists, threshold, x, regions.len() as int);
                    lemma_proximity_remaining_occ_at(pool, dists, threshold, nd, jx, x);
                },
            }
        },
    }
}

/// Determinism: the final partition is a function of the inputs alone, so
/// two runs on identical input (same points, same regions in the same
/// order, same distance rows, same threshold) yield the identical
/// assignment output.
pub proof fn lemma_deterministic(
    regions1: Seq<Polygon>,
    points1: Seq<Point>,
    dists1: Seq<Vec<Option<u64>>>,
    threshold1: u64,
    regions2: Seq<Polygon>,
    points2: Seq<Point>,
    dists2: Seq<Vec<Option<u64>>>,
    threshold2: u64,
)
    requires
        regions1 == regions2,
        points1 == points2,
        dists1 == dists2,
        threshold1 == threshold2,
    ensures
        forall|r: int|
            final_region_set(regions1, points1, dists1, threshold1, r) == final_region_set(
                regions2,
                points2,
                dists2,
                threshold2,
                r,
            ),
        final_unassigned(regions1, points1, dists1, threshold1) == final_unassigned(
            regions2,
            points2,
            dists2,
            threshold2,
        ),
{
}

} // verus!
