//! A region's geometry: one outer ring and zero or more hole rings.
//!
//! A polygon contains a point when the point lies in the outer ring
//! (boundary-inclusive even-odd rule) and is not strictly inside any hole.
//! The boundary convention is uniform: a point exactly on an edge — of the
//! outer ring or of a hole — counts as contained.

use vstd::prelude::*;

use crate::geometry::{
    coord_ok, eo_inside, on_ring, ring_contains, ring_contains_point, ring_even_odd_inside,
    ring_on_boundary, ring_wf, Coord,
};

verus! {

/// A region's ring sequence was empty or one of its rings has fewer than
/// three vertices. Raised at construction; geometry integrity is a
/// precondition of the whole classification run.
#[derive(Clone, Copy, PartialEq, Eq, Structural, Debug)]
pub struct InvalidGeometryError;

/// A polygon with holes: the outer boundary ring and the excluded interior
/// rings.
pub struct Polygon {
    pub outer: Vec<Coord>,
    pub holes: Vec<Vec<Coord>>,
}

/// A hole excludes exactly its strict interior: its even-odd interior minus
/// its own boundary, so that a point on a hole's edge stays contained.
pub open spec fn hole_excludes(h: Seq<Coord>, p: Coord) -> bool {
    eo_inside(h, p) && !on_ring(h, p)
}

/// Every coordinate of every ring lies within the bound of the exact
/// arithmetic.
pub open spec fn rings_in_range(rings: Seq<Vec<Coord>>) -> bool {
    forall|i: int, j: int|
        0 <= i < rings.len() && 0 <= j < rings[i]@.len() ==> coord_ok(#[trigger] rings[i]@[j])
}

impl Polygon {
    /// Well-formed geometry: every ring has at least three vertices, all
    /// within the coordinate bound.
    pub open spec fn wf(self) -> bool {
        &&& ring_wf(self.outer@)
        &&& forall|h: int| 0 <= h < self.holes@.len() ==> ring_wf(#[trigger] self.holes@[h]@)
    }

    /// The containment predicate of the region: inside the outer ring
    /// (boundary included) and not strictly inside any hole.
    pub open spec fn spec_contains(self, p: Coord) -> bool {
        &&& ring_contains(self.outer@, p)
        &&& forall|h: int| 0 <= h < self.holes@.len() ==> !hole_excludes(#[trigger] self.holes@[h]@, p)
    }

    /// Builds a polygon from a raw ring sequence: the first ring is the
    /// outer boundary, the rest are holes. Fails exactly when the sequence
    /// is empty or a ring has fewer than three vertices.
    pub fn try_new(rings: Vec<Vec<Coord>>) -> (r: Result<Polygon, InvalidGeometryError>)
        requires
            rings_in_range(rings@),
        ensures
            r is Ok <==> rings@.len() >= 1 && (forall|i: int|
                0 <= i < rings@.len() ==> #[trigger] rings@[i]@.len() >= 3),
            r is Ok ==> {
                &&& r->Ok_0.wf()
                &&& r->Ok_0.outer@ == rings@[0]@
                &&& r->Ok_0.holes@.len() == rings@.len() - 1
                &&& forall|h: int|
                    0 <= h < rings@.len() - 1 ==> #[trigger] r->Ok_0.holes@[h]@ == rings@[h + 1]@
            },
    {
        if rings.len() == 0 {
            return Err(InvalidGeometryError);
        }
        let mut i: usize = 0;
        while i < rings.len()
            invariant
                rings_in_range(rings@),
                i <= rings@.len(),
                forall|j: int| 0 <= j < i ==> #[trigger] rings@[j]@.len() >= 3,
            decreases rings@.len() - i,
        {
            if rings[i].len() < 3 {
                return Err(InvalidGeometryError);
            }
            i += 1;
        }
        let mut rings = rings;
        let outer = rings.remove(0);
        Ok(Polygon { outer, holes: rings })
    }

    /// Containment test for one point.
    pub fn contains(&self, p: Coord) -> (b: bool)
        requires
            self.wf(),
            coord_ok(p),
        ensures
            b == self.spec_contains(p),
    {
        if !ring_contains_point(&self.outer, p) {
            return false;
        }
        let mut h: usize = 0;
        while h < self.holes.len()
            invariant
                self.wf(),
                coord_ok(p),
                h <= self.holes@.len(),
                forall|j: int| 0 <= j < h ==> !hole_excludes(#[trigger] self.holes@[j]@, p),
            decreases self.holes@.len() - h,
        {
            if ring_even_odd_inside(&self.holes[h], p) && !ring_on_boundary(&self.holes[h], p) {
                return false;
            }
            h += 1;
        }
        true
    }
}

/// Hole exclusion: a point strictly inside one of a region's holes is never
/// contained by that region, whatever the outer ring says.
pub proof fn lemma_hole_exclusion(poly: Polygon, p: Coord, h: int)
    requires
        0 <= h < poly.holes@.len(),
        eo_inside(poly.holes@[h]@, p),
        !on_ring(poly.holes@[h]@, p),
    ensures
        !poly.spec_contains(p),
{
    assert(hole_excludes(poly.holes@[h]@, p));
}

/// Boundary inclusion: a point exactly on the outer ring's edge is
/// contained, provided no hole strictly encloses it (with well-nested
/// rings a hole's strict interior never meets the outer boundary).
pub proof fn lemma_boundary_inclusion(poly: Polygon, p: Coord)
    requires
        on_ring(poly.outer@, p),
        forall|h: int| 0 <= h < poly.holes@.len() ==> !hole_excludes(#[trigger] poly.holes@[h]@, p),
    ensures
        poly.spec_contains(p),
{
}

} // verus!
