//! Proximity resolution: picking the nearest region for an unmatched point.
//!
//! The resolver works on a row of per-region boundary distances in meters,
//! one entry per region in input order (`None` where a region was skipped).
//! It selects the first region attaining the minimum distance and matches
//! only when that distance is strictly under the threshold. The distances
//! themselves come from the caller, which measures them with whatever
//! surface metric it uses.

use vstd::prelude::*;

verus! {

/// Running best `(index, distance)` over the first `k` entries of a
/// distance row: smallest distance wins, the earliest index wins ties,
/// `None` entries are skipped.
pub open spec fn best_upto(row: Seq<Option<u64>>, k: int) -> Option<(usize, u64)>
    decreases k,
{
    if k <= 0 {
        None
    } else {
        let prev = best_upto(row, k - 1);
        match row[k - 1] {
            None => prev,
            Some(v) => match prev {
                None => Some(((k - 1) as usize, v)),
                Some((bi, bv)) => if v < bv {
                    Some(((k - 1) as usize, v))
                } else {
                    prev
                },
            },
        }
    }
}

/// The region the proximity pass picks from a distance row: the first index
/// attaining the minimum distance, provided that distance is strictly under
/// `threshold`; `None` when no region qualifies.
pub open spec fn chosen_region(row: Seq<Option<u64>>, threshold: u64) -> Option<usize> {
    match best_upto(row, row.len() as int) {
        None => None,
        Some((bi, bv)) => if bv < threshold {
            Some(bi)
        } else {
            None
        },
    }
}

/// Scans a distance row and returns the region `chosen_region` describes.
pub fn find_nearest_region(row: &Vec<Option<u64>>, threshold: u64) -> (r: Option<usize>)
    ensures
        r == chosen_region(row@, threshold),
{
    let mut best: Option<(usize, u64)> = None;
    let mut i: usize = 0;
    while i < row.len()
        invariant
            i <= row@.len(),
            best == best_upto(row@, i as int),
        decreases row@.len() - i,
    {
        match row[i] {
            None => {},
            Some(v) => {
                match best {
                    None => {
                        best = Some((i, v));
                    },
                    Some((_bi, bv)) => {
                        if v < bv {
                            best = Some((i, v));
                        }
                    },
                }
            },
        }
        i += 1;
        proof {
            assert(best_upto(row@, i as int) == (match row@[i - 1] {
                None => best_upto(row@, i - 1),
                Some(v) => match best_upto(row@, i - 1) {
                    None => Some(((i - 1) as usize, v)),
                    Some((bi, bv)) => if v < bv {
                        Some(((i - 1) as usize, v))
                    } else {
                        best_upto(row@, i - 1)
                    },
                },
            }));
        }
    }
    match best {
        None => None,
        Some((bi, bv)) => if bv < threshold {
            Some(bi)
        } else {
            None
        },
    }
}

/// When the running best is empty, every entry seen so far was missing.
pub proof fn lemma_best_upto_none(row: Seq<Option<u64>>, k: int)
    requires
        0 <= k <= row.len() <= usize::MAX,
        best_upto(row, k) is None,
    ensures
        forall|j: int| 0 <= j < k ==> row[j] is None,
    decreases k,
{
    if k > 0 {
        assert(row[k - 1] is None);
        assert(best_upto(row, k - 1) is None);
        lemma_best_upto_none(row, k - 1);
    }
}

/// What the running best guarantees: it indexes a real entry holding the
/// minimum distance seen, and every earlier entry is missing or strictly
/// larger.
pub proof fn lemma_best_upto_some(row: Seq<Option<u64>>, k: int, bi: usize, bv: u64)
    requires
        0 <= k <= row.len() <= usize::MAX,
        best_upto(row, k) == Some((bi, bv)),
    ensures
        0 <= bi < k,
        row[bi as int] == Some(bv),
        forall|j: int| 0 <= j < k ==> (#[trigger] row[j] matches Some(v) ==> v >= bv),
        forall|j: int| 0 <= j < bi ==> (#[trigger] row[j] matches Some(v) ==> v > bv),
    decreases k,
{
    if k > 0 {
        let prev = best_upto(row, k - 1);
        match row[k - 1] {
            None => {
                lemma_best_upto_some(row, k - 1, bi, bv);
            },
            Some(v) => {
                match prev {
                    None => {
                        lemma_best_upto_none(row, k - 1);
                        assert(bi as int == k - 1 && bv == v);
                    },
                    Some((pi, pv)) => {
                        lemma_best_upto_some(row, k - 1, pi, pv);
                        if v < pv {
                            assert(bi as int == k - 1 && bv == v);
                        } else {
                            assert(bi == pi && bv == pv);
                        }
                    },
                }
            },
        }
    }
}

/// Threshold policy: a chosen region's distance is strictly under the
/// threshold; a distance exactly at the threshold (or over it) never
/// matches; and a region strictly under the threshold guarantees a match.
pub proof fn lemma_threshold_boundary(row: Seq<Option<u64>>, threshold: u64)
    requires
        row.len() <= usize::MAX,
    ensures
        chosen_region(row, threshold) matches Some(r) ==> 0 <= r < row.len() && (row[r as int]
            matches Some(v) && v < threshold),
        (forall|j: int|
            0 <= j < row.len() ==> (#[trigger] row[j] matches Some(v) ==> v >= threshold))
            ==> chosen_region(row, threshold) is None,
        (exists|j: int|
            0 <= j < row.len() && (#[trigger] row[j] matches Some(v) && v < threshold))
            ==> chosen_region(row, threshold) is Some,
{
    match best_upto(row, row.len() as int) {
        None => {
            lemma_best_upto_none(row, row.len() as int);
        },
        Some((bi, bv)) => {
            lemma_best_upto_some(row, row.len() as int, bi, bv);
        },
    }
}

/// Tie-break determinism: of two regions at the same distance, the one
/// appearing later in input order is never the one chosen.
pub proof fn lemma_tie_break(row: Seq<Option<u64>>, threshold: u64, a: int, b: int, v: u64)
    requires
        row.len() <= usize::MAX,
        0 <= a < b < row.len(),
        row[a] == Some(v),
        row[b] == Some(v),
    ensures
        chosen_region(row, threshold) != Some(b as usize),
{
    match best_upto(row, row.len() as int) {
        None => {},
        Some((bi, bv)) => {
            lemma_best_upto_some(row, row.len() as int, bi, bv);
            if bi as int == b {
                assert(row[b] == Some(bv));
                assert(row[a] matches Some(w) ==> w > bv);
                assert(false);
            }
        },
    }
}

} // verus!
