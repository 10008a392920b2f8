//! Point clouds and their voxels.
use crate::dedup::{
    cell_map_contents, cell_map_insert, cell_map_into_vec, cell_map_new, cells_of, is_dedup_of,
    lemma_dedup_len, lemma_list_is_dedup, lemma_written_push, written,
};
use crate::grid::{cell_of, voxel, Voxel};
use crate::rotation::{lemma_no_rotation, no_rotation, Rotation3};
use crate::scalar::Scalar;
use crate::vector::{same_point, Vector3};
use vstd::prelude::*;

verus! {

/// Points in space, each with its colour.
pub struct PointCloud {
    points: Vec<(Vector3, [u8; 4])>,
}

/// The sample that a point of a cloud leaves at the given resolution: the
/// cell that the point falls into, with the point's colour.
pub open spec fn sample_of(point: (Vector3, [u8; 4]), resolution: Scalar) -> Voxel {
    (cell_of(point.0, resolution), point.1)
}

/// The points turned by a rotation, each with its colour.
pub open spec fn turned_points(points: Seq<(Vector3, [u8; 4])>, rotation: Rotation3) -> Seq<
    (Vector3, [u8; 4]),
> {
    Seq::new(points.len(), |i: int| (rotation.applied(points[i].0), points[i].1))
}

impl PointCloud {
    /// The points, in order.
    pub closed spec fn view(self) -> Seq<(Vector3, [u8; 4])> {
        self.points@
    }

    /// The samples that the points leave at the given resolution, in the
    /// order of the points.
    pub open spec fn samples(self, resolution: Scalar) -> Seq<Voxel> {
        Seq::new(self@.len(), |i: int| sample_of(self@[i], resolution))
    }

    pub fn new(points: Vec<(Vector3, [u8; 4])>) -> (cloud: PointCloud)
        ensures
            cloud@ == points@,
    {
        PointCloud { points }
    }

    /// The points, in order.
    pub fn points(&self) -> (slice: &[(Vector3, [u8; 4])])
        ensures
            slice@ == self@,
    {
        self.points.as_slice()
    }

    /// Turns the cloud: every point is turned by the rotation and keeps its
    /// colour.
    pub fn rotate(&mut self, rotation: &Rotation3)
        ensures
            final(self)@ == turned_points(old(self)@, *rotation),
    {
        let count = self.points.len();
        let mut points: Vec<(Vector3, [u8; 4])> = Vec::with_capacity(count);
        let mut i: usize = 0;
        while i < count
            invariant
                i <= count,
                count == self.points.len(),
                self == old(self),
                points@ == turned_points(self@, *rotation).take(i as int),
            decreases count - i,
        {
            let point = self.points[i];
            points.push((rotation.apply(&point.0), point.1));
            i = i + 1;
            assert(points@ =~= turned_points(self@, *rotation).take(i as int));
        }
        assert(turned_points(self@, *rotation).take(i as int) =~= turned_points(self@, *rotation));
        self.points = points;
    }

    /// Takes the points out of the cloud.
    pub fn into_points(self) -> (points: Vec<(Vector3, [u8; 4])>)
        ensures
            points@ == self@,
    {
        self.points
    }

    /// The voxels of the cloud at the given resolution: one for each cell that
    /// a point falls into, with the colour of the last point that does. The
    /// voxels come in no order that could be told beforehand.
    pub fn voxelize(&self, resolution: Scalar) -> (out: Vec<Voxel>)
        ensures
            is_dedup_of(out@, self.samples(resolution)),
            out@.len() == cells_of(self.samples(resolution)).len(),
            out@.len() <= self@.len(),
    {
        let ghost samples = self.samples(resolution);
        let mut cells = cell_map_new();
        let mut i: usize = 0;
        while i < self.points.len()
            invariant
                i <= self.points.len(),
                samples == self.samples(resolution),
                cell_map_contents(cells) == written(samples.take(i as int)),
            decreases self.points.len() - i,
        {
            let point = self.points[i];
            let cell = voxel(&point.0, resolution);
            proof {
                lemma_written_push(samples.take(i as int), (cell, point.1));
                assert(samples.take(i as int).push((cell, point.1)) =~= samples.take(i + 1));
            }
            cell_map_insert(&mut cells, cell, point.1);
            i = i + 1;
        }
        let out = cell_map_into_vec(cells);
        proof {
            assert(samples.take(i as int) =~= samples);
            lemma_list_is_dedup(out@, samples);
            lemma_dedup_len(out@, samples);
        }
        out
    }
}

/// No rotation leaves a cloud as it is: every finite point stays where it
/// was, with its colour.
pub proof fn lemma_no_rotation_of_cloud(points: Seq<(Vector3, [u8; 4])>)
    requires
        forall|i: int| 0 <= i < points.len() ==> (#[trigger] points[i]).0.is_finite(),
    ensures
        forall|i: int|
            0 <= i < points.len() ==> same_point(
                (#[trigger] turned_points(points, no_rotation())[i]).0,
                points[i].0,
            ) && turned_points(points, no_rotation())[i].1 == points[i].1,
{
    assert forall|i: int| 0 <= i < points.len() implies same_point(
        (#[trigger] turned_points(points, no_rotation())[i]).0,
        points[i].0,
    ) && turned_points(points, no_rotation())[i].1 == points[i].1 by {
        assert(points[i].0.is_finite());
        lemma_no_rotation(points[i].0);
    }
}

} // verus!
