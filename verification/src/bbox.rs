//! Axis-aligned bounding boxes.
use crate::mesh::triangle::{corners_of, Triangle};
use crate::mesh::Mesh;
use crate::scalar::{lemma_order_by_bits, Scalar, LARGEST_BITS, LOWEST_BITS};
use crate::vector::{same_point, Vector3};
use vstd::prelude::*;

verus! {

/// The least and the greatest corner of a box whose sides lie along the axes.
#[derive(Clone, Copy, Debug, PartialEq, Eq, Structural)]
pub struct Bbox {
    pub min: Vector3,
    pub max: Vector3,
}

impl Bbox {
    /// The box around no point at all: every point lowers its `min` and
    /// raises its `max`.
    pub open spec fn empty() -> Bbox {
        Bbox {
            min: Vector3::splat(Scalar { bits: LARGEST_BITS }),
            max: Vector3::splat(Scalar { bits: LOWEST_BITS }),
        }
    }

    /// The box grown to hold one more point.
    pub open spec fn grown(self, p: Vector3) -> Bbox {
        Bbox { min: self.min.lower(p), max: self.max.upper(p) }
    }

    /// The box around the given points, grown from the empty box point by
    /// point.
    pub open spec fn around(points: Seq<Vector3>) -> Bbox
        decreases points.len(),
    {
        if points.len() == 0 {
            Bbox::empty()
        } else {
            Bbox::around(points.drop_last()).grown(points.last())
        }
    }

    /// The point lies in the box, its sides included.
    pub open spec fn contains(self, p: Vector3) -> bool {
        &&& self.min.x.le(p.x) && p.x.le(self.max.x)
        &&& self.min.y.le(p.y) && p.y.le(self.max.y)
        &&& self.min.z.le(p.z) && p.z.le(self.max.z)
    }

    /// Each side of the box passes through one of the points.
    pub open spec fn touches(self, points: Seq<Vector3>) -> bool {
        &&& exists|i: int| 0 <= i < points.len() && self.min.x == #[trigger] points[i].x
        &&& exists|i: int| 0 <= i < points.len() && self.min.y == #[trigger] points[i].y
        &&& exists|i: int| 0 <= i < points.len() && self.min.z == #[trigger] points[i].z
        &&& exists|i: int| 0 <= i < points.len() && self.max.x == #[trigger] points[i].x
        &&& exists|i: int| 0 <= i < points.len() && self.max.y == #[trigger] points[i].y
        &&& exists|i: int| 0 <= i < points.len() && self.max.z == #[trigger] points[i].z
    }

    pub fn new(min: Vector3, max: Vector3) -> (b: Bbox)
        ensures
            b.min == min,
            b.max == max,
    {
        Bbox { min, max }
    }

    /// Grows the box to hold one more point.
    pub fn grow(&self, p: &Vector3) -> (b: Bbox)
        ensures
            b == self.grown(*p),
    {
        Bbox { min: self.min.inf(p), max: self.max.sup(p) }
    }

    /// The box around the corners of a mesh's triangles.
    pub fn from_mesh(mesh: &Mesh) -> (b: Bbox)
        ensures
            b == Bbox::around(mesh.corners()),
    {
        Bbox::from_triangles(mesh.triangles())
    }

    /// The box around the corners of the given triangles.
    pub fn from_triangles(triangles: &[Triangle]) -> (b: Bbox)
        ensures
            b == Bbox::around(corners_of(triangles@)),
    {
        let ghost corners = corners_of(triangles@);
        let mut acc = Bbox { min: Vector3::repeat(LARGEST_BITS), max: Vector3::repeat(LOWEST_BITS) };
        let mut i: usize = 0;
        while i < triangles.len()
            invariant
                i <= triangles.len(),
                corners == corners_of(triangles@),
                acc == Bbox::around(corners.take(3 * i)),
            decreases triangles.len() - i,
        {
            let triangle = triangles[i];
            proof {
                let seen = corners.take(3 * i);
                lemma_around_push(seen, triangle.position_a);
                lemma_around_push(seen.push(triangle.position_a), triangle.position_b);
                lemma_around_push(
                    seen.push(triangle.position_a).push(triangle.position_b),
                    triangle.position_c,
                );
                assert(corners[3 * i] == triangle.position_a);
                assert(corners[3 * i + 1] == triangle.position_b);
                assert(corners[3 * i + 2] == triangle.position_c);
                assert(seen.push(triangle.position_a).push(triangle.position_b).push(
                    triangle.position_c,
                ) =~= corners.take(3 * i + 3));
            }
            acc = acc.grow(&triangle.position_a).grow(&triangle.position_b).grow(
                &triangle.position_c,
            );
            i = i + 1;
        }
        proof {
            assert(corners.take(3 * i) =~= corners);
        }
        acc
    }

    /// The box around the given points.
    pub fn from_pcl(pcl: &[Vector3]) -> (b: Bbox)
        ensures
            b == Bbox::around(pcl@),
    {
        let mut acc = Bbox { min: Vector3::repeat(LARGEST_BITS), max: Vector3::repeat(LOWEST_BITS) };
        let mut i: usize = 0;
        while i < pcl.len()
            invariant
                i <= pcl.len(),
                acc == Bbox::around(pcl@.take(i as int)),
            decreases pcl.len() - i,
        {
            proof {
                lemma_around_push(pcl@.take(i as int), pcl[i as int]);
                assert(pcl@.take(i as int).push(pcl[i as int]) =~= pcl@.take(i + 1));
            }
            acc = acc.grow(&pcl[i]);
            i = i + 1;
        }
        proof {
            assert(pcl@.take(i as int) =~= pcl@);
        }
        acc
    }
}

/// One more point grows the box around the points before it.
pub proof fn lemma_around_push(points: Seq<Vector3>, p: Vector3)
    ensures
        Bbox::around(points.push(p)) == Bbox::around(points).grown(p),
{
    assert(points.push(p).drop_last() =~= points);
}

/// The first point makes the box a point.
proof fn lemma_first_point(p: Vector3)
    requires
        p.is_finite(),
    ensures
        Bbox::empty().grown(p) == (Bbox { min: p, max: p }),
{
    let largest = Scalar { bits: LARGEST_BITS };
    let lowest = Scalar { bits: LOWEST_BITS };
    lemma_order_by_bits(largest, p.x);
    lemma_order_by_bits(largest, p.y);
    lemma_order_by_bits(largest, p.z);
    lemma_order_by_bits(p.x, lowest);
    lemma_order_by_bits(p.y, lowest);
    lemma_order_by_bits(p.z, lowest);
}

/// A box with finite corners, grown by a finite point, holds the point and
/// whatever it held before, and each of its sides is a side it had or passes
/// through the point.
proof fn lemma_grown(b: Bbox, p: Vector3)
    requires
        p.is_finite(),
        b.min.is_finite(),
        b.max.is_finite(),
    ensures
        b.grown(p).contains(p),
        b.grown(p).min.is_finite(),
        b.grown(p).max.is_finite(),
        forall|q: Vector3| b.contains(q) ==> #[trigger] b.grown(p).contains(q),
        b.grown(p).min.x == b.min.x || b.grown(p).min.x == p.x,
        b.grown(p).min.y == b.min.y || b.grown(p).min.y == p.y,
        b.grown(p).min.z == b.min.z || b.grown(p).min.z == p.z,
        b.grown(p).max.x == b.max.x || b.grown(p).max.x == p.x,
        b.grown(p).max.y == b.max.y || b.grown(p).max.y == p.y,
        b.grown(p).max.z == b.max.z || b.grown(p).max.z == p.z,
{
}

/// The box around points that are finite is their tight box: it holds every
/// one of them, and where there is a point at all, each of its six sides
/// passes through one.
pub proof fn lemma_around_is_tight(points: Seq<Vector3>)
    requires
        forall|i: int| 0 <= i < points.len() ==> (#[trigger] points[i]).is_finite(),
    ensures
        forall|i: int| 0 <= i < points.len() ==> Bbox::around(points).contains(#[trigger] points[i]),
        points.len() > 0 ==> Bbox::around(points).touches(points),
        points.len() > 0 ==> Bbox::around(points).min.is_finite() && Bbox::around(
            points,
        ).max.is_finite(),
    decreases points.len(),
{
    if points.len() > 0 {
        let before = points.drop_last();
        let last = points.len() - 1;
        let p = points[last];
        let b = Bbox::around(before);
        let g = Bbox::around(points);
        assert(g == b.grown(p));
        lemma_around_is_tight(before);
        assert forall|i: int| 0 <= i < before.len() implies before[i] == points[i] by {}
        if before.len() == 0 {
            lemma_first_point(p);
            assert(g.contains(p));
        } else {
            lemma_grown(b, p);
            assert forall|i: int| 0 <= i < points.len() implies g.contains(#[trigger] points[i]) by {
                if i < before.len() {
                    assert(b.contains(before[i]));
                }
            }
            let ix = choose|i: int| 0 <= i < before.len() && b.min.x == #[trigger] before[i].x;
            let iy = choose|i: int| 0 <= i < before.len() && b.min.y == #[trigger] before[i].y;
            let iz = choose|i: int| 0 <= i < before.len() && b.min.z == #[trigger] before[i].z;
            let jx = choose|i: int| 0 <= i < before.len() && b.max.x == #[trigger] before[i].x;
            let jy = choose|i: int| 0 <= i < before.len() && b.max.y == #[trigger] before[i].y;
            let jz = choose|i: int| 0 <= i < before.len() && b.max.z == #[trigger] before[i].z;
            assert(g.min.x == points[ix].x || g.min.x == points[last].x);
            assert(g.min.y == points[iy].y || g.min.y == points[last].y);
            assert(g.min.z == points[iz].z || g.min.z == points[last].z);
            assert(g.max.x == points[jx].x || g.max.x == points[last].x);
            assert(g.max.y == points[jy].y || g.max.y == points[last].y);
            assert(g.max.z == points[jz].z || g.max.z == points[last].z);
        }
    }
}

/// Two boxes that are one box: their corners are the same positions.
pub open spec fn same_box(a: Bbox, b: Bbox) -> bool {
    same_point(a.min, b.min) && same_point(a.max, b.max)
}

/// The box around positions depends on the positions as numbers only:
/// the same positions, one by one, give the same box.
pub proof fn lemma_around_same(points: Seq<Vector3>, others: Seq<Vector3>)
    requires
        points.len() == others.len(),
        forall|i: int| 0 <= i < points.len() ==> same_point(#[trigger] points[i], others[i]),
    ensures
        same_box(Bbox::around(points), Bbox::around(others)),
    decreases points.len(),
{
    if points.len() > 0 {
        let last = points.len() - 1;
        assert(same_point(points[last], others[last]));
        assert forall|i: int| 0 <= i < last implies same_point(
            #[trigger] points.drop_last()[i],
            others.drop_last()[i],
        ) by {
            assert(same_point(points[i], others[i]));
        }
        lemma_around_same(points.drop_last(), others.drop_last());
    }
}

} // verus!
