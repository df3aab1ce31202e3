//! The assignment aggregator: owns the partition state and drives the
//! two-phase classification.
//!
//! The containment pass assigns every point to the first region in input
//! order whose polygon contains it; the proximity pass takes the points
//! that no region contained and assigns each to the region its distance
//! row picks, when any. The state machine is `Empty` (nothing classified),
//! `ContainmentDone` (containment pass finished, pool holds the unmatched
//! points) and `Finalized` (both passes finished, read-only).

use vstd::prelude::*;

use crate::geometry::{coord_ok, Coord};
use crate::polygon::Polygon;
use crate::resolver::{chosen_region, find_nearest_region};

verus! {

/// An identified point: a unique id and a position in fixed-point
/// coordinates.
pub struct Point {
    pub id: String,
    pub pos: Coord,
}

/// Where the aggregator stands in the two-phase pipeline. The running
/// states are transient inside the pass methods; between calls the state
/// is one of these.
#[derive(Clone, Copy, PartialEq, Eq, Structural, Debug)]
pub enum Phase {
    Empty,
    ContainmentDone,
    Finalized,
}

/// Every region's polygon is well-formed.
pub open spec fn regions_wf(regions: Seq<Polygon>) -> bool {
    forall|r: int| 0 <= r < regions.len() ==> (#[trigger] regions[r]).wf()
}

/// Every point's position lies within the coordinate bound.
pub open spec fn points_in_range(points: Seq<Point>) -> bool {
    forall|i: int| 0 <= i < points.len() ==> coord_ok((#[trigger] points[i]).pos)
}

/// Every entry of `s` is an index under `n`.
pub open spec fn indices_bounded(s: Seq<usize>, n: nat) -> bool {
    forall|m: int| 0 <= m < s.len() ==> (#[trigger] s[m]) < n
}

/// The first region among the first `k` whose polygon contains `p`.
pub open spec fn first_containing_upto(regions: Seq<Polygon>, p: Coord, k: int) -> Option<usize>
    decreases k,
{
    if k <= 0 {
        None
    } else {
        match first_containing_upto(regions, p, k - 1) {
            Some(r) => Some(r),
            None => if regions[k - 1].spec_contains(p) {
                Some((k - 1) as usize)
            } else {
                None
            },
        }
    }
}

/// The first region in input order whose polygon contains `p`, if any:
/// the region the containment pass assigns a point at `p` to.
pub open spec fn first_containing(regions: Seq<Polygon>, p: Coord) -> Option<usize> {
    first_containing_upto(regions, p, regions.len() as int)
}

/// Once some region among the first `k` contains `p`, looking further
/// never changes the answer.
proof fn lemma_first_containing_extend(regions: Seq<Polygon>, p: Coord, k: int, m: int)
    requires
        0 <= k <= m <= regions.len(),
        first_containing_upto(regions, p, k) is Some,
    ensures
        first_containing_upto(regions, p, m) == first_containing_upto(regions, p, k),
    decreases m - k,
{
    if m > k {
        lemma_first_containing_extend(regions, p, k, m - 1);
    }
}

/// Scans the regions in input order and returns the first one containing
/// `p`.
pub fn first_containing_region(regions: &Vec<Polygon>, p: Coord) -> (r: Option<usize>)
    requires
        regions_wf(regions@),
        coord_ok(p),
    ensures
        r == first_containing(regions@, p),
{
    let mut i: usize = 0;
    while i < regions.len()
        invariant
            regions_wf(regions@),
            coord_ok(p),
            i <= regions@.len(),
            first_containing_upto(regions@, p, i as int) is None,
        decreases regions@.len() - i,
    {
        if regions[i].contains(p) {
            proof {
                assert(first_containing_upto(regions@, p, i + 1) == Some(i));
                lemma_first_containing_extend(regions@, p, i + 1, regions@.len() as int);
            }
            return Some(i);
        }
        i += 1;
    }
    None
}

/// The indices among the first `k` points whose first containing region is
/// `r`, in input order: what the containment pass puts into region `r`'s
/// assigned set.
pub open spec fn containment_set_upto(
    regions: Seq<Polygon>,
    points: Seq<Point>,
    r: int,
    k: int,
) -> Seq<usize>
    decreases k,
{
    if k <= 0 {
        Seq::empty()
    } else {
        containment_set_upto(regions, points, r, k - 1) + (if first_containing(
            regions,
            points[k - 1].pos,
        ) matches Some(fr) && fr as int == r {
            seq![(k - 1) as usize]
        } else {
            seq![]
        })
    }
}

/// The indices among the first `k` points that no region contains, in
/// input order: the unassigned pool after the containment pass.
pub open spec fn pool_upto(regions: Seq<Polygon>, points: Seq<Point>, k: int) -> Seq<usize>
    decreases k,
{
    if k <= 0 {
        Seq::empty()
    } else {
        pool_upto(regions, points, k - 1) + (if first_containing(regions, points[k - 1].pos)
            is None {
            seq![(k - 1) as usize]
        } else {
            seq![]
        })
    }
}

/// The pool entries among the first `k` whose distance row picks region
/// `r`: what the proximity pass appends to region `r`'s assigned set.
pub open spec fn proximity_added(
    pool: Seq<usize>,
    dists: Seq<Vec<Option<u64>>>,
    threshold: u64,
    r: int,
    k: int,
) -> Seq<usize>
    decreases k,
{
    if k <= 0 {
        Seq::empty()
    } else {
        proximity_added(pool, dists, threshold, r, k - 1) + (if chosen_region(
            dists[k - 1]@,
            threshold,
        ) matches Some(cr) && cr as int == r {
            seq![pool[k - 1]]
        } else {
            seq![]
        })
    }
}

/// The pool entries among the first `k` whose distance row picks no
/// region: the permanently unassigned points.
pub open spec fn proximity_remaining(
    pool: Seq<usize>,
    dists: Seq<Vec<Option<u64>>>,
    threshold: u64,
    k: int,
) -> Seq<usize>
    decreases k,
{
    if k <= 0 {
        Seq::empty()
    } else {
        proximity_remaining(pool, dists, threshold, k - 1) + (if chosen_region(
            dists[k - 1]@,
            threshold,
        ) is None {
            seq![pool[k - 1]]
        } else {
            seq![]
        })
    }
}

/// The partition state: per-region assigned point indices, in assignment
/// order, and the pool of point indices not assigned so far.
pub struct Aggregator {
    pub phase: Phase,
    pub region_sets: Vec<Vec<usize>>,
    pub pool: Vec<usize>,
}

/// The finalized partition, with point indices replaced by point ids.
pub struct Classification {
    pub assignments: Vec<Vec<String>>,
    pub unassigned: Vec<String>,
}

impl Aggregator {
    /// A fresh aggregator: nothing classified yet.
    pub fn new() -> (a: Aggregator)
        ensures
            a.phase == Phase::Empty,
            a.region_sets@.len() == 0,
            a.pool@.len() == 0,
    {
        Aggregator { phase: Phase::Empty, region_sets: Vec::new(), pool: Vec::new() }
    }

    /// The containment pass: assigns each point to the first region in
    /// input order whose polygon contains it; points no region contains
    /// form the pool. Sets are in point input order.
    pub fn run_containment(&mut self, regions: &Vec<Polygon>, points: &Vec<Point>)
        requires
            old(self).phase == Phase::Empty,
            regions_wf(regions@),
            points_in_range(points@),
        ensures
            final(self).phase == Phase::ContainmentDone,
            final(self).region_sets@.len() == regions@.len(),
            forall|r: int|
                0 <= r < regions@.len() ==> #[trigger] final(self).region_sets@[r]@
                    == containment_set_upto(regions@, points@, r, points@.len() as int),
            final(self).pool@ == pool_upto(regions@, points@, points@.len() as int),
            forall|r: int|
                0 <= r < regions@.len() ==> indices_bounded(
                    #[trigger] final(self).region_sets@[r]@,
                    points@.len(),
                ),
            indices_bounded(final(self).pool@, points@.len()),
    {
        let n = points.len();
        let mut decisions: Vec<Option<usize>> = Vec::new();
        let mut i: usize = 0;
        while i < n
            invariant
                regions_wf(regions@),
                points_in_range(points@),
                n == points@.len(),
                i <= n,
                decisions@.len() == i,
                forall|j: int|
                    0 <= j < i ==> #[trigger] decisions@[j] == first_containing(
                        regions@,
                        points@[j].pos,
                    ),
            decreases n - i,
        {
            let d = first_containing_region(regions, points[i].pos);
            decisions.push(d);
            i += 1;
        }
        let mut sets: Vec<Vec<usize>> = Vec::new();
        let mut r: usize = 0;
        while r < regions.len()
            invariant
                n == points@.len(),
                decisions@.len() == n,
                forall|j: int|
                    0 <= j < n ==> #[trigger] decisions@[j] == first_containing(
                        regions@,
                        points@[j].pos,
                    ),
                r <= regions@.len(),
                sets@.len() == r,
                forall|t: int|
                    0 <= t < r ==> #[trigger] sets@[t]@ == containment_set_upto(
                        regions@,
                        points@,
                        t,
                        n as int,
                    ),
                forall|t: int| 0 <= t < r ==> indices_bounded(#[trigger] sets@[t]@, n as nat),
            decreases regions@.len() - r,
        {
            let mut s: Vec<usize> = Vec::new();
            let mut i: usize = 0;
            while i < n
                invariant
                    n == points@.len(),
                    decisions@.len() == n,
                    forall|j: int|
                        0 <= j < n ==> #[trigger] decisions@[j] == first_containing(
                            regions@,
                            points@[j].pos,
                        ),
                    i <= n,
                    s@ == containment_set_upto(regions@, points@, r as int, i as int),
                    indices_bounded(s@, n as nat),
                decreases n - i,
            {
                let take = match decisions[i] {
                    Some(d) => d == r,
                    None => false,
                };
                if take {
                    s.push(i);
                }
                i += 1;
                proof {
                    assert(s@ =~= containment_set_upto(regions@, points@, r as int, i as int));
                }
            }
            sets.push(s);
            r += 1;
        }
        let mut pool: Vec<usize> = Vec::new();
        let mut i: usize = 0;
        while i < n
            invariant
                n == points@.len(),
                decisions@.len() == n,
                forall|j: int|
                    0 <= j < n ==> #[trigger] decisions@[j] == first_containing(
                        regions@,
                        points@[j].pos,
                    ),
                i <= n,
                pool@ == pool_upto(regions@, points@, i as int),
                indices_bounded(pool@, n as nat),
            decreases n - i,
        {
            let take = match decisions[i] {
                Some(_) => false,
                None => true,
            };
            if take {
                pool.push(i);
            }
            i += 1;
            proof {
                assert(pool@ =~= pool_upto(regions@, points@, i as int));
            }
        }
        self.region_sets = sets;
        self.pool = pool;
        self.phase = Phase::ContainmentDone;
    }

    /// The proximity pass: every pool point whose distance row picks a
    /// region is appended to that region's set, in pool order; the others
    /// stay unassigned. `dists` holds one row per pool entry, one distance
    /// per region in input order (`None` for a skipped region).
    pub fn run_proximity(&mut self, dists: &Vec<Vec<Option<u64>>>, threshold: u64)
        requires
            old(self).phase == Phase::ContainmentDone,
            dists@.len() == old(self).pool@.len(),
            forall|j: int|
                0 <= j < dists@.len() ==> (#[trigger] dists@[j])@.len()
                    == old(self).region_sets@.len(),
        ensures
            final(self).phase == Phase::Finalized,
            final(self).region_sets@.len() == old(self).region_sets@.len(),
            forall|r: int|
                0 <= r < final(self).region_sets@.len() ==> #[trigger] final(self).region_sets@[r]@
                    == old(self).region_sets@[r]@ + proximity_added(
                    old(self).pool@,
                    dists@,
                    threshold,
                    r,
                    dists@.len() as int,
                ),
            final(self).pool@ == proximity_remaining(
                old(self).pool@,
                dists@,
                threshold,
                dists@.len() as int,
            ),
    {
        let n_pool = self.pool.len();
        let mut choices: Vec<Option<usize>> = Vec::new();
        let mut j: usize = 0;
        while j < n_pool
            invariant
                *self == *old(self),
                n_pool == self.pool@.len(),
                dists@.len() == n_pool,
                j <= n_pool,
                choices@.len() == j,
                forall|t: int|
                    0 <= t < j ==> #[trigger] choices@[t] == chosen_region(dists@[t]@, threshold),
            decreases n_pool - j,
        {
            let c = find_nearest_region(&dists[j], threshold);
            choices.push(c);
            j += 1;
        }
        let n_regions = self.region_sets.len();
        let mut new_sets: Vec<Vec<usize>> = Vec::new();
        let mut r: usize = 0;
        while r < n_regions
            invariant
                *self == *old(self),
                n_pool == self.pool@.len(),
                n_regions == self.region_sets@.len(),
                dists@.len() == n_pool,
                choices@.len() == n_pool,
                forall|t: int|
                    0 <= t < n_pool ==> #[trigger] choices@[t] == chosen_region(
                        dists@[t]@,
                        threshold,
                    ),
                r <= n_regions,
                new_sets@.len() == r,
                forall|t: int|
                    0 <= t < r ==> #[trigger] new_sets@[t]@ == self.region_sets@[t]@
                        + proximity_added(self.pool@, dists@, threshold, t, n_pool as int),
            decreases n_regions - r,
        {
            let mut s: Vec<usize> = Vec::new();
            let mut m: usize = 0;
            let set_len = self.region_sets[r].len();
            while m < set_len
                invariant
                    *self == *old(self),
                    r < self.region_sets@.len(),
                    set_len == self.region_sets@[r as int]@.len(),
                    m <= set_len,
                    s@ == self.region_sets@[r as int]@.subrange(0, m as int),
                decreases set_len - m,
            {
                let v = self.region_sets[r][m];
                s.push(v);
                m += 1;
                proof {
                    assert(s@ =~= self.region_sets@[r as int]@.subrange(0, m as int));
                }
            }
            proof {
                assert(s@ =~= self.region_sets@[r as int]@);
            }
            let mut j: usize = 0;
            while j < n_pool
                invariant
                    *self == *old(self),
                    r < self.region_sets@.len(),
                    n_pool == self.pool@.len(),
                    dists@.len() == n_pool,
                    choices@.len() == n_pool,
                    forall|t: int|
                        0 <= t < n_pool ==> #[trigger] choices@[t] == chosen_region(
                            dists@[t]@,
                            threshold,
                        ),
                    j <= n_pool,
                    s@ == self.region_sets@[r as int]@ + proximity_added(
                        self.pool@,
                        dists@,
                        threshold,
                        r as int,
                        j as int,
                    ),
                decreases n_pool - j,
            {
                let take = match choices[j] {
                    Some(c) => c == r,
                    None => false,
                };
                if take {
                    let v = self.pool[j];
                    s.push(v);
                }
                j += 1;
                proof {
                    assert(s@ =~= self.region_sets@[r as int]@ + proximity_added(
                        self.pool@,
                        dists@,
                        threshold,
                        r as int,
                        j as int,
                    ));
                }
            }
            new_sets.push(s);
            r += 1;
        }
        let mut new_pool: Vec<usize> = Vec::new();
        let mut j: usize = 0;
        while j < n_pool
            invariant
                *self == *old(self),
                n_pool == self.pool@.len(),
                dists@.len() == n_pool,
                choices@.len() == n_pool,
                forall|t: int|
                    0 <= t < n_pool ==> #[trigger] choices@[t] == chosen_region(
                        dists@[t]@,
                        threshold,
                    ),
                j <= n_pool,
                new_pool@ == proximity_remaining(self.pool@, dists@, threshold, j as int),
            decreases n_pool - j,
        {
            let take = match choices[j] {
                Some(_) => false,
                None => true,
            };
            if take {
                let v = self.pool[j];
                new_pool.push(v);
            }
            j += 1;
            proof {
                assert(new_pool@ =~= proximity_remaining(self.pool@, dists@, threshold, j as int));
            }
        }
        self.region_sets = new_sets;
        self.pool = new_pool;
        self.phase = Phase::Finalized;
    }

    /// Reads the finalized partition out as point ids: one id list per
    /// region, in assignment order, plus the unassigned ids.
    pub fn output(&self, points: &Vec<Point>) -> (out: Classification)
        requires
            self.phase == Phase::Finalized,
            forall|r: int|
                0 <= r < self.region_sets@.len() ==> indices_bounded(
                    #[trigger] self.region_sets@[r]@,
                    points@.len(),
                ),
            indices_bounded(self.pool@, points@.len()),
        ensures
            out.assignments@.len() == self.region_sets@.len(),
            forall|r: int|
                0 <= r < self.region_sets@.len() ==> (#[trigger] out.assignments@[r])@.len()
                    == self.region_sets@[r]@.len(),
            forall|r: int, m: int|
                0 <= r < self.region_sets@.len() && 0 <= m < self.region_sets@[r]@.len()
                    ==> (#[trigger] out.assignments@[r]@[m])@
                    == points@[self.region_sets@[r]@[m] as int].id@,
            out.unassigned@.len() == self.pool@.len(),
            forall|m: int|
                0 <= m < self.pool@.len() ==> (#[trigger] out.unassigned@[m])@
                    == points@[self.pool@[m] as int].id@,
    {
        let mut assignments: Vec<Vec<String>> = Vec::new();
        let mut r: usize = 0;
        while r < self.region_sets.len()
            invariant
                forall|t: int|
                    0 <= t < self.region_sets@.len() ==> indices_bounded(
                        #[trigger] self.region_sets@[t]@,
                        points@.len(),
                    ),
                r <= self.region_sets@.len(),
                assignments@.len() == r,
                forall|t: int|
                    0 <= t < r ==> (#[trigger] assignments@[t])@.len()
                        == self.region_sets@[t]@.len(),
                forall|t: int, m: int|
                    0 <= t < r && 0 <= m < self.region_sets@[t]@.len()
                        ==> (#[trigger] assignments@[t]@[m])@
                        == points@[self.region_sets@[t]@[m] as int].id@,
            decreases self.region_sets@.len() - r,
        {
            let mut ids: Vec<String> = Vec::new();
            let mut m: usize = 0;
            let set_len = self.region_sets[r].len();
            while m < set_len
                invariant
                    forall|t: int|
                        0 <= t < self.region_sets@.len() ==> indices_bounded(
                            #[trigger] self.region_sets@[t]@,
                            points@.len(),
                        ),
                    r < self.region_sets@.len(),
                    set_len == self.region_sets@[r as int]@.len(),
                    m <= set_len,
                    ids@.len() == m,
                    forall|q: int|
                        0 <= q < m ==> (#[trigger] ids@[q])@
                            == points@[self.region_sets@[r as int]@[q] as int].id@,
                decreases set_len - m,
            {
                let idx = self.region_sets[r][m];
                ids.push(points[idx].id.clone());
                m += 1;
            }
            assignments.push(ids);
            r += 1;
        }
        let mut unassigned: Vec<String> = Vec::new();
        let mut m: usize = 0;
        while m < self.pool.len()
            invariant
                indices_bounded(self.pool@, points@.len()),
                m <= self.pool@.len(),
                unassigned@.len() == m,
                forall|q: int|
                    0 <= q < m ==> (#[trigger] unassigned@[q])@
                        == points@[self.pool@[q] as int].id@,
            decreases self.pool@.len() - m,
        {
            let idx = self.pool[m];
            unassigned.push(points[idx].id.clone());
            m += 1;
        }
        Classification { assignments, unassigned }
    }
}

} // verus!
