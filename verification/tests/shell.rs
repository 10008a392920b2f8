use bvh::aabb::{Aabb, Bounded};
use bvh::bounding_hierarchy::BHShape;
use bvh::bvh::Bvh;
use bvh::ray::Ray;
use nalgebra::{Point3, Vector3 as Direction};
use voxels::dedup::dedup;
use voxels::grid::{GridCoord, Voxel};
use voxels::mesh::scan::{Axis, ScanRay, ScanStep};
use voxels::mesh::texture::Raster;
use voxels::mesh::triangle::{Intersection, Triangle};
use voxels::mesh::{shell_sample, Mesh, Report};
use voxels::scalar::Scalar;
use voxels::vector::{Vector2, Vector3};

fn s(x: f32) -> Scalar {
    Scalar::from_bits(x.to_bits())
}

fn f(x: Scalar) -> f32 {
    f32::from_bits(x.to_bits())
}

fn p(x: f32, y: f32, z: f32) -> Vector3 {
    Vector3 { x: s(x), y: s(y), z: s(z) }
}

fn point_of(v: Vector3) -> Point3<f32> {
    Point3::new(f(v.x), f(v.y), f(v.z))
}

struct Shape {
    triangle: Triangle,
    at: usize,
    node: usize,
}

impl Bounded<f32, 3> for Shape {
    fn aabb(&self) -> Aabb<f32, 3> {
        let bounds = self.triangle.aabb();
        Aabb::with_bounds(point_of(bounds.min), point_of(bounds.max))
    }
}

impl BHShape<f32, 3> for Shape {
    fn set_bh_node_index(&mut self, index: usize) {
        self.node = index;
    }

    fn bh_node_index(&self) -> usize {
        self.node
    }
}

fn test(ray: &Ray<f32, 3>, a: &Point3<f32>, b: &Point3<f32>, c: &Point3<f32>) -> Intersection {
    let raw = ray.intersects_triangle(a, b, c);
    Intersection { distance: s(raw.distance), u: s(raw.u), v: s(raw.v) }
}

fn report(shape: &Shape, ray: &Ray<f32, 3>) -> Report {
    let t = &shape.triangle;
    let (a, b, c) = (point_of(t.position_a), point_of(t.position_b), point_of(t.position_c));
    Report { triangle: shape.at, forward: test(ray, &a, &b, &c), reversed: test(ray, &a, &c, &b) }
}

fn voxelize_shell(mesh: &Mesh, texture: &Option<Raster>, resolution: f32) -> Vec<Voxel> {
    let mut shapes: Vec<Shape> = mesh
        .triangles()
        .iter()
        .enumerate()
        .map(|(at, t)| Shape { triangle: *t, at, node: 0 })
        .collect();
    let bvh = Bvh::build(&mut shapes);
    let mut scan = mesh.shell_scan(s(resolution));
    let mut samples: Vec<Voxel> = Vec::new();
    while let Some(step) = scan.next() {
        let ray = match step {
            ScanStep::Cast(ray) => ray,
            ScanStep::LineDone => continue,
        };
        let origin = point_of(ray.origin_at(s(resolution)));
        let direction = point_of(ray.direction()).coords;
        let cast = Ray::new(origin, direction);
        let reports: Vec<Report> =
            bvh.traverse(&cast, &shapes).into_iter().map(|shape| report(shape, &cast)).collect();
        mesh.cast(&ray, &reports, texture, s(resolution), &mut samples);
    }
    dedup(&samples)
}

fn cube(side: f32) -> Mesh {
    let vertices = vec![
        p(0.0, 0.0, 0.0),
        p(side, 0.0, 0.0),
        p(side, side, 0.0),
        p(0.0, side, 0.0),
        p(0.0, 0.0, side),
        p(side, 0.0, side),
        p(side, side, side),
        p(0.0, side, side),
    ];
    let indices = vec![
        0, 2, 1, 0, 3, 2, 4, 5, 6, 4, 6, 7, 0, 1, 5, 0, 5, 4, 3, 6, 2, 3, 7, 6, 0, 4, 7, 0, 7, 3, 1, 2, 6, 1, 6, 5,
    ];
    Mesh::new(vertices, indices, None, None)
}

fn on_the_shell(cell: GridCoord, side: i32) -> bool {
    let inside = |c: i32| 0 <= c && c <= side;
    let on_a_face = |c: i32| c == 0 || c == side;
    inside(cell.x) && inside(cell.y) && inside(cell.z) && (on_a_face(cell.x) || on_a_face(cell.y) || on_a_face(cell.z))
}

#[test]
fn the_unit_cube_fills_the_cells_at_its_corners() {
    let mesh = cube(1.0);
    assert_eq!(mesh.bbox().min, p(0.0, 0.0, 0.0));
    assert_eq!(mesh.bbox().max, p(1.0, 1.0, 1.0));
    let voxels = voxelize_shell(&mesh, &None, 1.0);
    assert!(!voxels.is_empty());
    for (cell, color) in &voxels {
        assert!(on_the_shell(*cell, 1), "{cell:?}");
        assert_eq!(*color, [255, 255, 255, 255]);
    }
    let mut cells: Vec<(i32, i32, i32)> = voxels.iter().map(|v| (v.0.x, v.0.y, v.0.z)).collect();
    cells.sort();
    cells.dedup();
    assert_eq!(cells.len(), voxels.len());
}

#[test]
fn a_larger_cube_is_hollow() {
    let mesh = cube(4.0);
    let voxels = voxelize_shell(&mesh, &None, 1.0);
    assert!(voxels.len() >= 6 * 9);
    for (cell, _) in &voxels {
        assert!(on_the_shell(*cell, 4), "{cell:?}");
    }
    for x in 1..4 {
        for y in 1..4 {
            for z in 1..4 {
                assert!(voxels.iter().all(|v| v.0 != GridCoord { x, y, z }));
            }
        }
    }
    for a in 1..4 {
        for b in 1..4 {
            for cell in [
                GridCoord { x: 0, y: a, z: b },
                GridCoord { x: 4, y: a, z: b },
                GridCoord { x: a, y: 0, z: b },
                GridCoord { x: a, y: 4, z: b },
                GridCoord { x: a, y: b, z: 0 },
                GridCoord { x: a, y: b, z: 4 },
            ] {
                assert!(voxels.iter().any(|v| v.0 == cell), "{cell:?}");
            }
        }
    }
}

#[test]
fn a_textured_triangle_is_coloured_by_its_texture() {
    let vertices = vec![p(0.0, 0.0, 0.5), p(8.0, 0.0, 0.5), p(0.0, 8.0, 0.5)];
    let coords = vec![
        Vector2 { x: s(0.0), y: s(0.0) },
        Vector2 { x: s(1.0), y: s(0.0) },
        Vector2 { x: s(0.0), y: s(1.0) },
    ];
    let mesh = Mesh::new(vertices, vec![0, 1, 2], Some(coords), None);
    let texture =
        Some(Raster::new(2, 2, vec![10, 0, 0, 255, 20, 0, 0, 255, 30, 0, 0, 255, 40, 0, 0, 255]).unwrap());
    let voxels = voxelize_shell(&mesh, &texture, 1.0);
    let color_at = |x: i32, y: i32| voxels.iter().find(|v| v.0 == GridCoord { x, y, z: 1 }).map(|v| v.1);
    assert_eq!(color_at(1, 1), Some([10, 0, 0, 255]));
    assert_eq!(color_at(5, 1), Some([20, 0, 0, 255]));
    assert_eq!(color_at(1, 5), Some([30, 0, 0, 255]));
    assert_eq!(color_at(7, 7), None);
    for (cell, _) in &voxels {
        assert_eq!(cell.z, 1);
    }
}

#[test]
fn a_ray_starts_at_its_grid_point_times_the_resolution() {
    let ray = ScanRay { axis: Axis::Y, origin: GridCoord { x: 3, y: -7, z: 0 } };
    let r = 0.3f32;
    assert_eq!(point_of(ray.origin_at(s(r))), Point3::new(3.0 * r, -7.0 * r, 0.0 * r));
    assert_eq!(point_of(ray.direction()), Point3::new(0.0, 1.0, 0.0));
    let d = 12.7f32;
    let expected = Direction::new(3.0 * r, -7.0 * r, 0.0 * r) + Direction::y_axis().scale(d);
    assert_eq!(point_of(ray.point_at(s(r), s(d))).coords, expected);
    for axis in [Axis::X, Axis::Y, Axis::Z] {
        let ray = ScanRay { axis, origin: GridCoord { x: -1000001, y: 77, z: i32::MAX } };
        let origin = Direction::new(-1000001i32 as f32 * r, 77i32 as f32 * r, i32::MAX as f32 * r);
        let unit = match axis {
            Axis::X => Direction::x_axis(),
            Axis::Y => Direction::y_axis(),
            Axis::Z => Direction::z_axis(),
        };
        assert_eq!(point_of(ray.point_at(s(r), s(d))).coords, origin + unit.scale(d));
    }
}

#[test]
fn a_sample_lies_where_the_ray_met_the_triangle() {
    let ray = ScanRay { axis: Axis::X, origin: GridCoord { x: -1, y: 2, z: 3 } };
    let triangle = Triangle::new(
        p(0.0, 0.0, 0.0),
        p(0.0, 8.0, 0.0),
        p(0.0, 0.0, 8.0),
        Vector2 { x: s(0.0), y: s(0.0) },
        Vector2 { x: s(1.0), y: s(0.0) },
        Vector2 { x: s(0.0), y: s(1.0) },
    );
    let hit = Intersection { distance: s(1.4), u: s(0.75), v: s(0.125) };
    let white = shell_sample(&ray, &triangle, &hit, &None, s(1.0));
    assert_eq!(white, (GridCoord { x: 0, y: 2, z: 3 }, [255, 255, 255, 255]));
    let texture =
        Some(Raster::new(2, 2, vec![10, 0, 0, 255, 20, 0, 0, 255, 30, 0, 0, 255, 40, 0, 0, 255]).unwrap());
    let coloured = shell_sample(&ray, &triangle, &hit, &texture, s(0.5));
    assert_eq!(coloured, (GridCoord { x: 2, y: 2, z: 3 }, [20, 0, 0, 255]));
}

#[test]
fn the_texture_coordinate_of_a_hit_is_the_weighted_sum_of_the_corners() {
    let mut state: u64 = 0x7e57_c0de;
    let mut next = move || {
        state = state.wrapping_mul(6364136223846793005).wrapping_add(1442695040888963407);
        f32::from_bits((((state >> 32) as u32) & 0x807f_ffff) | ((110 + ((state >> 40) as u32) % 20) << 23))
    };
    for _ in 0..200_000 {
        let ta = (next(), next());
        let tb = (next(), next());
        let tc = (next(), next());
        let (u, v) = (next().abs().fract(), next().abs().fract());
        let triangle = Triangle::new(
            p(0.0, 0.0, 0.0),
            p(1.0, 0.0, 0.0),
            p(0.0, 1.0, 0.0),
            Vector2 { x: s(ta.0), y: s(ta.1) },
            Vector2 { x: s(tb.0), y: s(tb.1) },
            Vector2 { x: s(tc.0), y: s(tc.1) },
        );
        let uv = triangle.intersection_to_uv(&Intersection { distance: s(1.0), u: s(u), v: s(v) });
        let alpha = 1.0 - u - v;
        let expected = (alpha * ta.0 + u * tb.0 + v * tc.0, alpha * ta.1 + u * tb.1 + v * tc.1);
        assert_eq!((f(uv.x), f(uv.y)), expected);
    }
}

#[test]
fn the_box_of_a_triangle_is_widened_by_the_margin() {
    let triangle = Triangle::new(
        p(1.0, -2.0, 3.0),
        p(-1.5, 4.0, 0.5),
        p(0.25, 0.0, -7.0),
        Vector2 { x: s(0.0), y: s(0.0) },
        Vector2 { x: s(0.0), y: s(0.0) },
        Vector2 { x: s(0.0), y: s(0.0) },
    );
    let bounds = triangle.aabb();
    assert_eq!(point_of(bounds.min), Point3::new(-1.5f32 - 0.001, -2.0f32 - 0.001, -7.0f32 - 0.001));
    assert_eq!(point_of(bounds.max), Point3::new(1.0f32 + 0.001, 4.0f32 + 0.001, 3.0f32 + 0.001));
}

#[test]
fn a_ray_leaves_a_sample_for_every_report_that_holds_a_hit() {
    let mesh = cube(4.0);
    let ray = ScanRay { axis: Axis::Z, origin: GridCoord { x: 1, y: 2, z: -1 } };
    let miss = Intersection { distance: s(f32::INFINITY), u: s(0.0), v: s(0.0) };
    let near = Intersection { distance: s(1.0), u: s(0.25), v: s(0.25) };
    let far = Intersection { distance: s(5.0), u: s(0.5), v: s(0.5) };
    let beyond = Intersection { distance: s(2.0), u: s(0.75), v: s(0.75) };
    let reports = vec![
        Report { triangle: 0, forward: miss, reversed: near },
        Report { triangle: 1, forward: miss, reversed: miss },
        Report { triangle: 2, forward: far, reversed: miss },
        Report { triangle: 3, forward: beyond, reversed: miss },
        Report { triangle: 11, forward: near, reversed: far },
    ];
    let mut samples: Vec<Voxel> = vec![(GridCoord { x: 9, y: 9, z: 9 }, [1, 2, 3, 4])];
    mesh.cast(&ray, &reports, &None, s(1.0), &mut samples);
    assert_eq!(
        samples,
        vec![
            (GridCoord { x: 9, y: 9, z: 9 }, [1, 2, 3, 4]),
            (GridCoord { x: 1, y: 2, z: 0 }, [255, 255, 255, 255]),
            (GridCoord { x: 1, y: 2, z: 4 }, [255, 255, 255, 255]),
            (GridCoord { x: 1, y: 2, z: 0 }, [255, 255, 255, 255]),
        ]
    );
    mesh.cast(&ray, &[], &None, s(1.0), &mut samples);
    assert_eq!(samples.len(), 4);
}
