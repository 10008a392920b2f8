//! Triangle meshes and their shell scan.
use crate::bbox::{lemma_around_same, same_box, Bbox};
use crate::grid::{cell_of, voxel, Voxel};
use crate::mesh::scan::{ScanBounds, ScanRay, ShellScan};
use crate::mesh::texture::{texel, texel_index, Raster, Texture};
use crate::mesh::triangle::{corners_of, resolved, Intersection, Triangle};
use crate::rotation::{lemma_no_rotation, no_rotation, Rotation3};
use crate::scalar::Scalar;
use crate::vector::{same_point, Vector2, Vector3};
use vstd::prelude::*;

pub mod scan;
pub mod texture;
pub mod triangle;

verus! {

/// Triangles with the box around their corners.
struct Geometry {
    triangles: Vec<Triangle>,
    bbox: Bbox,
}

impl Geometry {
    /// The box is the box around the corners.
    #[verifier::type_invariant]
    spec fn bounded(self) -> bool {
        self.bbox == Bbox::around(corners_of(self.triangles@))
    }

    fn new(triangles: Vec<Triangle>) -> (geometry: Geometry)
        ensures
            geometry.triangles == triangles,
    {
        let bbox = Bbox::from_triangles(triangles.as_slice());
        Geometry { triangles, bbox }
    }

    fn bbox(&self) -> (b: Bbox)
        ensures
            b == Bbox::around(corners_of(self.triangles@)),
    {
        proof {
            use_type_invariant(self);
        }
        self.bbox
    }
}

/// A triangle mesh with its bounding box and, where it has one, its texture.
pub struct Mesh {
    geometry: Geometry,
    texture: Option<Texture>,
}

/// The texture coordinate given to every corner of a mesh without texture
/// coordinates.
pub open spec fn no_coords() -> Vector2 {
    Vector2 { x: Scalar { bits: 0 }, y: Scalar { bits: 0 } }
}

/// The triangle that three consecutive indices stand for.
pub open spec fn indexed_triangle(
    vertices: Seq<Vector3>,
    coords: Option<Seq<Vector2>>,
    i0: int,
    i1: int,
    i2: int,
) -> Triangle {
    Triangle {
        position_a: vertices[i0],
        position_b: vertices[i1],
        position_c: vertices[i2],
        texture_a: match coords {
            Some(c) => c[i0],
            None => no_coords(),
        },
        texture_b: match coords {
            Some(c) => c[i1],
            None => no_coords(),
        },
        texture_c: match coords {
            Some(c) => c[i2],
            None => no_coords(),
        },
    }
}

/// The triangles of an indexed mesh: one for every three indices, in order.
pub open spec fn indexed_triangles(
    vertices: Seq<Vector3>,
    indices: Seq<usize>,
    coords: Option<Seq<Vector2>>,
) -> Seq<Triangle> {
    Seq::new(
        (indices.len() / 3) as nat,
        |t: int|
            indexed_triangle(
                vertices,
                coords,
                indices[3 * t] as int,
                indices[3 * t + 1] as int,
                indices[3 * t + 2] as int,
            ),
    )
}

/// The view of optional texture coordinates.
pub open spec fn coords_view(coords: Option<Vec<Vector2>>) -> Option<Seq<Vector2>> {
    match coords {
        Some(c) => Some(c@),
        None => None,
    }
}

/// The triangles turned by a rotation: the corners are turned, the texture
/// coordinates stay.
pub open spec fn turned_triangles(triangles: Seq<Triangle>, rotation: Rotation3) -> Seq<Triangle> {
    Seq::new(
        triangles.len(),
        |i: int|
            Triangle {
                position_a: rotation.applied(triangles[i].position_a),
                position_b: rotation.applied(triangles[i].position_b),
                position_c: rotation.applied(triangles[i].position_c),
                texture_a: triangles[i].texture_a,
                texture_b: triangles[i].texture_b,
                texture_c: triangles[i].texture_c,
            },
    )
}

impl Mesh {
    /// The triangles, in order.
    pub closed spec fn view(self) -> Seq<Triangle> {
        self.geometry.triangles@
    }

    /// The corners of the triangles, in order.
    pub open spec fn corners(self) -> Seq<Vector3> {
        corners_of(self@)
    }

    /// The bounding box of the mesh: the box around its corners.
    pub open spec fn bounds(self) -> Bbox {
        Bbox::around(self.corners())
    }

    /// The texture that the mesh holds.
    pub closed spec fn texture_of(self) -> Option<Texture> {
        self.texture
    }

    /// A mesh of the given triangles.
    pub fn from_triangles(triangles: Vec<Triangle>, texture: Option<Texture>) -> (mesh: Mesh)
        ensures
            mesh@ == triangles@,
            mesh.texture_of() == texture,
    {
        Mesh { geometry: Geometry::new(triangles), texture }
    }

    /// A mesh from a vertex buffer and an index buffer that names three
    /// vertices for each triangle. Without texture coordinates every corner
    /// gets the coordinate `(0, 0)`.
    pub fn new(
        vertices: Vec<Vector3>,
        indices: Vec<usize>,
        coords: Option<Vec<Vector2>>,
        texture: Option<Texture>,
    ) -> (mesh: Mesh)
        requires
            indices.len() % 3 == 0,
            forall|i: int| 0 <= i < indices.len() ==> indices[i] < vertices.len(),
            coords matches Some(c) ==> forall|i: int| 0 <= i < indices.len() ==> indices[i] < c.len(),
        ensures
            mesh@ == indexed_triangles(vertices@, indices@, coords_view(coords)),
            mesh.texture_of() == texture,
    {
        let count: usize = indices.len() / 3;
        let mut triangles: Vec<Triangle> = Vec::with_capacity(count);
        let mut t: usize = 0;
        while t < count
            invariant
                t <= count,
                count == indices.len() / 3,
                indices.len() % 3 == 0,
                forall|i: int| 0 <= i < indices.len() ==> indices[i] < vertices.len(),
                coords matches Some(c) ==> forall|i: int|
                    0 <= i < indices.len() ==> indices[i] < c.len(),
                triangles@ == indexed_triangles(vertices@, indices@, coords_view(coords)).take(
                    t as int,
                ),
            decreases count - t,
        {
            let i0: usize = indices[3 * t];
            let i1: usize = indices[3 * t + 1];
            let i2: usize = indices[3 * t + 2];
            let zero = Vector2 { x: Scalar { bits: 0 }, y: Scalar { bits: 0 } };
            let (texture_a, texture_b, texture_c) = match &coords {
                Some(c) => (c[i0], c[i1], c[i2]),
                None => (zero, zero, zero),
            };
            triangles.push(
                Triangle::new(vertices[i0], vertices[i1], vertices[i2], texture_a, texture_b, texture_c),
            );
            t = t + 1;
            proof {
                let all = indexed_triangles(vertices@, indices@, coords_view(coords));
                assert(triangles@ =~= all.take(t as int));
            }
        }
        proof {
            let all = indexed_triangles(vertices@, indices@, coords_view(coords));
            assert(all.take(t as int) =~= all);
        }
        Mesh::from_triangles(triangles, texture)
    }

    /// The triangles, in order.
    pub fn triangles(&self) -> (slice: &[Triangle])
        ensures
            slice@ == self@,
    {
        self.geometry.triangles.as_slice()
    }

    /// The bounding box: the box around the corners of the triangles.
    pub fn bbox(&self) -> (b: Bbox)
        ensures
            b == self.bounds(),
    {
        self.geometry.bbox()
    }

    /// The texture, where the mesh has one.
    pub fn texture(&self) -> (t: &Option<Texture>)
        ensures
            *t == self.texture_of(),
    {
        &self.texture
    }

    /// The shell scan of the mesh at the given resolution, with every step
    /// still to come.
    pub fn shell_scan(&self, resolution: Scalar) -> (scan: ShellScan)
        ensures
            scan.bounds() == ScanBounds::of(self.bounds(), resolution),
            scan.remaining() == ScanBounds::of(self.bounds(), resolution).steps(),
    {
        ShellScan::new(ScanBounds::around(&self.geometry.bbox(), resolution))
    }

    /// Turns the mesh: every corner of every triangle is turned by the
    /// rotation, and the bounding box is the box around the turned corners.
    pub fn rotate(&mut self, rotation: &Rotation3)
        ensures
            final(self)@ == turned_triangles(old(self)@, *rotation),
            final(self).texture_of() == old(self).texture_of(),
    {
        let count = self.geometry.triangles.len();
        let mut triangles: Vec<Triangle> = Vec::with_capacity(count);
        let mut i: usize = 0;
        while i < count
            invariant
                i <= count,
                count == self.geometry.triangles.len(),
                self == old(self),
                triangles@ == turned_triangles(self@, *rotation).take(i as int),
            decreases count - i,
        {
            let triangle = self.geometry.triangles[i];
            triangles.push(
                Triangle {
                    position_a: rotation.apply(&triangle.position_a),
                    position_b: rotation.apply(&triangle.position_b),
                    position_c: rotation.apply(&triangle.position_c),
                    texture_a: triangle.texture_a,
                    texture_b: triangle.texture_b,
                    texture_c: triangle.texture_c,
                },
            );
            i = i + 1;
            assert(triangles@ =~= turned_triangles(self@, *rotation).take(i as int));
        }
        assert(turned_triangles(self@, *rotation).take(i as int) =~= turned_triangles(
            self@,
            *rotation,
        ));
        self.geometry = Geometry::new(triangles);
    }

    /// Takes the mesh apart into its triangles and its texture.
    pub fn into_parts(self) -> (parts: (Vec<Triangle>, Option<Texture>))
        ensures
            parts.0@ == self@,
            parts.1 == self.texture_of(),
    {
        (self.geometry.triangles, self.texture)
    }
}

/// The colour of an image at a texture coordinate: that of the pixel that the
/// coordinate falls on, with no blending between pixels.
pub fn sample_texture(image: &Raster, u: Scalar, v: Scalar) -> (color: [u8; 4])
    ensures
        color == image.pixel(texel(u, image.columns() as u32), texel(v, image.rows() as u32)),
{
    image.get_pixel(texel_index(u, image.width()), texel_index(v, image.height()))
}

/// The colour of a hit: that of the texture at the hit's texture coordinate,
/// and opaque white where the mesh has no texture.
pub open spec fn hit_color(texture: Option<Raster>, uv: Vector2) -> [u8; 4] {
    match texture {
        Some(image) => image.pixel(
            texel(uv.x, image.columns() as u32),
            texel(uv.y, image.rows() as u32),
        ),
        None => [255u8, 255u8, 255u8, 255u8],
    }
}

/// The sample that a hit leaves: the cell of the point where the ray met the
/// triangle, with the colour of the triangle at that point.
pub open spec fn sample_of(
    ray: ScanRay,
    triangle: Triangle,
    hit: Intersection,
    texture: Option<Raster>,
    resolution: Scalar,
) -> Voxel {
    (
        cell_of(ray.reached(resolution, hit.distance), resolution),
        hit_color(texture, triangle.uv_at(hit)),
    )
}

/// The sample that a hit leaves.
pub fn shell_sample(
    ray: &ScanRay,
    triangle: &Triangle,
    hit: &Intersection,
    texture: &Option<Raster>,
    resolution: Scalar,
) -> (sample: Voxel)
    ensures
        sample == sample_of(*ray, *triangle, *hit, *texture, resolution),
{
    let color: [u8; 4] = match texture {
        Some(image) => {
            let coords = triangle.intersection_to_uv(hit);
            sample_texture(image, coords.x, coords.y)
        },
        None => [255u8, 255u8, 255u8, 255u8],
    };
    let point = ray.point_at(resolution, hit.distance);
    (voxel(&point, resolution), color)
}

/// What the ray test reports of one triangle of a mesh: the triangle by its
/// place in the mesh, the report of the test on the triangle as it stands,
/// and that of the test on the triangle with its second and third corner
/// exchanged.
#[derive(Clone, Copy, Debug, PartialEq, Eq, Structural)]
pub struct Report {
    pub triangle: usize,
    pub forward: Intersection,
    pub reversed: Intersection,
}

/// The samples that one ray leaves, given what the ray test reports of the
/// triangles near it: one sample for every report that holds a hit, in the
/// order of the reports. A ray that crosses the surface more than once leaves
/// a sample at each crossing.
pub open spec fn samples_of(
    triangles: Seq<Triangle>,
    ray: ScanRay,
    reports: Seq<Report>,
    texture: Option<Raster>,
    resolution: Scalar,
) -> Seq<Voxel>
    decreases reports.len(),
{
    if reports.len() == 0 {
        Seq::empty()
    } else {
        let before = samples_of(triangles, ray, reports.drop_last(), texture, resolution);
        match resolved(reports.last().forward, reports.last().reversed) {
            Some(hit) => before.push(
                sample_of(ray, triangles[reports.last().triangle as int], hit, texture, resolution),
            ),
            None => before,
        }
    }
}

impl Mesh {
    /// Adds the samples that one ray leaves to the samples gathered so far.
    pub fn cast(
        &self,
        ray: &ScanRay,
        reports: &[Report],
        texture: &Option<Raster>,
        resolution: Scalar,
        samples: &mut Vec<Voxel>,
    )
        requires
            forall|i: int| 0 <= i < reports.len() ==> (#[trigger] reports[i]).triangle < self@.len(),
        ensures
            final(samples)@ == old(samples)@ + samples_of(
                self@,
                *ray,
                reports@,
                *texture,
                resolution,
            ),
    {
        let ghost gathered = samples@;
        let mut i: usize = 0;
        assert(reports@.take(0) =~= Seq::<Report>::empty());
        assert(samples@ =~= gathered + Seq::<Voxel>::empty());
        while i < reports.len()
            invariant
                i <= reports.len(),
                forall|k: int|
                    0 <= k < reports.len() ==> (#[trigger] reports[k]).triangle < self@.len(),
                samples@ == gathered + samples_of(
                    self@,
                    *ray,
                    reports@.take(i as int),
                    *texture,
                    resolution,
                ),
            decreases reports.len() - i,
        {
            let report = reports[i];
            proof {
                assert(reports@.take(i + 1).drop_last() =~= reports@.take(i as int));
                assert(reports@.take(i + 1).last() == report);
            }
            let ghost before = samples_of(self@, *ray, reports@.take(i as int), *texture, resolution);
            match Triangle::intersects(&report.forward, &report.reversed) {
                Some(hit) => {
                    let triangle = &self.geometry.triangles[report.triangle];
                    samples.push(shell_sample(ray, triangle, &hit, texture, resolution));
                    assert(samples@ =~= gathered + before.push(
                        sample_of(*ray, *triangle, hit, *texture, resolution),
                    ));
                },
                None => {},
            }
            i = i + 1;
        }
        assert(reports@.take(i as int) =~= reports@);
    }
}

/// No rotation leaves a mesh as it is: every corner stays where it was, and
/// so does the bounding box, for a mesh whose corners are finite.
pub proof fn lemma_no_rotation_of_mesh(triangles: Seq<Triangle>)
    requires
        forall|i: int| 0 <= i < 3 * triangles.len() ==> (#[trigger] corners_of(triangles)[i]).is_finite(),
    ensures
        forall|i: int|
            0 <= i < 3 * triangles.len() ==> same_point(
                #[trigger] corners_of(turned_triangles(triangles, no_rotation()))[i],
                corners_of(triangles)[i],
            ),
        same_box(
            Bbox::around(corners_of(turned_triangles(triangles, no_rotation()))),
            Bbox::around(corners_of(triangles)),
        ),
{
    let turned = corners_of(turned_triangles(triangles, no_rotation()));
    let corners = corners_of(triangles);
    assert forall|i: int| 0 <= i < 3 * triangles.len() implies same_point(
        #[trigger] turned[i],
        corners[i],
    ) by {
        assert(corners[i].is_finite());
        lemma_no_rotation(corners[i]);
        assert(turned[i] == no_rotation().applied(corners[i]));
    }
    lemma_around_same(turned, corners);
}

} // verus!
