//! Exact planar predicates on fixed-point integer coordinates.
//!
//! Coordinates are pairs of `i64` in an arbitrary fixed-point scale chosen by
//! the caller (for geographic data, e.g. ten-millionths of a degree). Every
//! predicate is computed exactly in `i128` intermediate arithmetic; the
//! magnitude bound `COORD_LIMIT` keeps all intermediates in range.

use vstd::prelude::*;

verus! {

/// Largest coordinate magnitude the geometric predicates accept; keeps every
/// intermediate product within `i128`.
pub const COORD_LIMIT: i64 = 1_000_000_000_000;

/// A point of the plane in fixed-point integer coordinates.
#[derive(Clone, Copy, PartialEq, Eq, Structural, Debug)]
pub struct Coord {
    pub x: i64,
    pub y: i64,
}

/// The coordinate lies within the magnitude bound of the exact arithmetic.
pub open spec fn coord_ok(c: Coord) -> bool {
    -COORD_LIMIT <= c.x <= COORD_LIMIT && -COORD_LIMIT <= c.y <= COORD_LIMIT
}

/// Twice the signed area of the triangle `(a, b, c)`: positive when `c` lies
/// to the left of the directed segment `a -> b`, zero when collinear.
pub open spec fn cross(a: Coord, b: Coord, c: Coord) -> int {
    (b.x - a.x) * (c.y - a.y) - (b.y - a.y) * (c.x - a.x)
}

proof fn lemma_mul_bound(a: int, b: int, m: int)
    by (nonlinear_arith)
    requires
        -m <= a <= m,
        -m <= b <= m,
        0 <= m,
    ensures
        -m * m <= a * b <= m * m,
{
}

/// Exact evaluation of `cross` in `i128` arithmetic.
fn cross_exec(a: Coord, b: Coord, c: Coord) -> (r: i128)
    requires
        coord_ok(a),
        coord_ok(b),
        coord_ok(c),
    ensures
        r as int == cross(a, b, c),
{
    let bax: i128 = b.x as i128 - a.x as i128;
    let bay: i128 = b.y as i128 - a.y as i128;
    let cax: i128 = c.x as i128 - a.x as i128;
    let cay: i128 = c.y as i128 - a.y as i128;
    proof {
        lemma_mul_bound(bax as int, cay as int, 2 * COORD_LIMIT);
        lemma_mul_bound(bay as int, cax as int, 2 * COORD_LIMIT);
    }
    bax * cay - bay * cax
}

/// `p` lies within the axis-aligned bounding box of `a` and `b`.
pub open spec fn in_box(p: Coord, a: Coord, b: Coord) -> bool {
    &&& (a.x <= p.x <= b.x || b.x <= p.x <= a.x)
    &&& (a.y <= p.y <= b.y || b.y <= p.y <= a.y)
}

/// `p` lies exactly on the closed segment from `a` to `b`.
pub open spec fn on_segment(p: Coord, a: Coord, b: Coord) -> bool {
    cross(a, b, p) == 0 && in_box(p, a, b)
}

fn on_segment_exec(p: Coord, a: Coord, b: Coord) -> (r: bool)
    requires
        coord_ok(p),
        coord_ok(a),
        coord_ok(b),
    ensures
        r == on_segment(p, a, b),
{
    cross_exec(a, b, p) == 0 && (a.x <= p.x && p.x <= b.x || b.x <= p.x && p.x <= a.x) && (a.y
        <= p.y && p.y <= b.y || b.y <= p.y && p.y <= a.y)
}

/// The horizontal ray from `p` towards increasing `x` crosses the edge from
/// `a` to `b`, under the half-open rule that counts an edge only where the
/// endpoints straddle the ray's height. Points exactly on an edge are
/// handled separately by the boundary test, so the parity count never
/// decides those.
pub open spec fn ray_crosses(a: Coord, b: Coord, p: Coord) -> bool {
    &&& ((a.y > p.y) != (b.y > p.y))
    &&& (if b.y > a.y {
        cross(a, b, p) > 0
    } else {
        cross(a, b, p) < 0
    })
}

fn ray_crosses_exec(a: Coord, b: Coord, p: Coord) -> (r: bool)
    requires
        coord_ok(p),
        coord_ok(a),
        coord_ok(b),
    ensures
        r == ray_crosses(a, b, p),
{
    if (a.y > p.y) == (b.y > p.y) {
        return false;
    }
    let d = cross_exec(a, b, p);
    if b.y > a.y {
        d > 0
    } else {
        d < 0
    }
}

/// A well-formed ring: at least three vertices, all within the coordinate
/// bound. The ring is closed implicitly: the edge from the last vertex back
/// to the first is part of the boundary.
pub open spec fn ring_wf(r: Seq<Coord>) -> bool {
    &&& r.len() >= 3
    &&& forall|i: int| 0 <= i < r.len() ==> coord_ok(#[trigger] r[i])
}

/// The vertex that follows vertex `i`, wrapping around to close the ring.
pub open spec fn ring_next(r: Seq<Coord>, i: int) -> Coord {
    if i + 1 == r.len() {
        r[0]
    } else {
        r[i + 1]
    }
}

/// `p` lies exactly on the boundary of the ring.
pub open spec fn on_ring(r: Seq<Coord>, p: Coord) -> bool {
    exists|i: int| 0 <= i < r.len() && on_segment(p, #[trigger] r[i], ring_next(r, i))
}

/// Number of ring edges among the first `k` that the horizontal ray from `p`
/// crosses.
pub open spec fn crossings_upto(r: Seq<Coord>, p: Coord, k: int) -> nat
    decreases k,
{
    if k <= 0 {
        0
    } else {
        crossings_upto(r, p, k - 1) + (if ray_crosses(r[k - 1], ring_next(r, k - 1), p) {
            1nat
        } else {
            0nat
        })
    }
}

/// `p` lies in the interior of the ring under the even-odd rule: the
/// horizontal ray from `p` crosses the boundary an odd number of times.
pub open spec fn eo_inside(r: Seq<Coord>, p: Coord) -> bool {
    crossings_upto(r, p, r.len() as int) % 2 == 1
}

/// Boundary-inclusive containment in a single ring: `p` is on the boundary
/// or in the even-odd interior. This is the convention the library
/// documents: a point exactly on an edge is treated as contained.
pub open spec fn ring_contains(r: Seq<Coord>, p: Coord) -> bool {
    on_ring(r, p) || eo_inside(r, p)
}

/// `p` lies exactly on the boundary of `ring`.
pub fn ring_on_boundary(ring: &Vec<Coord>, p: Coord) -> (b: bool)
    requires
        ring_wf(ring@),
        coord_ok(p),
    ensures
        b == on_ring(ring@, p),
{
    let n = ring.len();
    let mut i: usize = 0;
    while i < n
        invariant
            n == ring@.len(),
            ring_wf(ring@),
            coord_ok(p),
            i <= n,
            forall|j: int| 0 <= j < i ==> !on_segment(p, #[trigger] ring@[j], ring_next(ring@, j)),
        decreases n - i,
    {
        let a = ring[i];
        let b2 = if i + 1 == n {
            ring[0]
        } else {
            ring[i + 1]
        };
        if on_segment_exec(p, a, b2) {
            proof {
                assert(on_segment(p, ring@[i as int], ring_next(ring@, i as int)));
            }
            return true;
        }
        i += 1;
    }
    false
}

/// Even-odd interior test for `ring`, counting ray crossings edge by edge.
pub fn ring_even_odd_inside(ring: &Vec<Coord>, p: Coord) -> (b: bool)
    requires
        ring_wf(ring@),
        coord_ok(p),
    ensures
        b == eo_inside(ring@, p),
{
    let n = ring.len();
    let mut odd = false;
    let mut i: usize = 0;
    while i < n
        invariant
            n == ring@.len(),
            ring_wf(ring@),
            coord_ok(p),
            i <= n,
            odd == (crossings_upto(ring@, p, i as int) % 2 == 1),
        decreases n - i,
    {
        let a = ring[i];
        let b2 = if i + 1 == n {
            ring[0]
        } else {
            ring[i + 1]
        };
        if ray_crosses_exec(a, b2, p) {
            odd = !odd;
        }
        i += 1;
        proof {
            assert(crossings_upto(ring@, p, i as int) == crossings_upto(ring@, p, i as int - 1) + (
            if ray_crosses(ring@[i as int - 1], ring_next(ring@, i as int - 1), p) {
                1nat
            } else {
                0nat
            }));
        }
    }
    odd
}

/// Boundary-inclusive containment of `p` in `ring`.
pub fn ring_contains_point(ring: &Vec<Coord>, p: Coord) -> (b: bool)
    requires
        ring_wf(ring@),
        coord_ok(p),
    ensures
        b == ring_contains(ring@, p),
{
    if ring_on_boundary(ring, p) {
        true
    } else {
        ring_even_odd_inside(ring, p)
    }
}

} // verus!
