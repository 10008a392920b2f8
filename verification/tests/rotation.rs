use nalgebra::SimdComplexField;
use voxels::mesh::Mesh;
use voxels::pointcloud::PointCloud;
use voxels::rotation::{Rotation3, SinCos};
use voxels::scalar::Scalar;
use voxels::vector::Vector3;

fn s(x: f32) -> Scalar {
    Scalar::from_bits(x.to_bits())
}

fn f(x: Scalar) -> f32 {
    f32::from_bits(x.to_bits())
}

fn p(x: f32, y: f32, z: f32) -> Vector3 {
    Vector3 { x: s(x), y: s(y), z: s(z) }
}

fn angle(radians: f32) -> SinCos {
    let (sin, cos) = radians.simd_sin_cos();
    SinCos { sin: s(sin), cos: s(cos) }
}

fn rotation(roll: f32, pitch: f32, yaw: f32) -> Rotation3 {
    Rotation3::from_euler_angles(angle(roll), angle(pitch), angle(yaw))
}

fn same(ours: Scalar, theirs: f32) -> bool {
    if theirs.is_nan() {
        ours.nan()
    } else {
        ours.to_bits() == theirs.to_bits()
    }
}

struct Random(u64);

impl Random {
    fn next(&mut self) -> u32 {
        self.0 = self.0.wrapping_mul(6364136223846793005).wrapping_add(1442695040888963407);
        (self.0 >> 32) as u32
    }

    fn number(&mut self) -> f32 {
        f32::from_bits((self.next() & 0x807f_ffff) | ((110 + self.next() % 40) << 23))
    }
}

fn entries(r: &Rotation3) -> [f32; 9] {
    [f(r.m11), f(r.m12), f(r.m13), f(r.m21), f(r.m22), f(r.m23), f(r.m31), f(r.m32), f(r.m33)]
}

/// The turn about x, then about the turned y, then about the turned z, as
/// the vector crate composes it.
fn composed(roll: f32, pitch: f32, yaw: f32) -> nalgebra::Rotation3<f32> {
    nalgebra::Rotation3::from_axis_angle(&nalgebra::Vector3::x_axis(), roll)
        * nalgebra::Rotation3::from_axis_angle(&nalgebra::Vector3::y_axis(), pitch)
        * nalgebra::Rotation3::from_axis_angle(&nalgebra::Vector3::z_axis(), yaw)
}

#[test]
fn a_rotation_is_the_matrix_of_its_angles() {
    let mut random = Random(0x0707_a7e5);
    for _ in 0..100_000 {
        let (roll, pitch, yaw) = (random.number(), random.number(), random.number());
        let (sr, cr) = roll.simd_sin_cos();
        let (sp, cp) = pitch.simd_sin_cos();
        let (sy, cy) = yaw.simd_sin_cos();
        let expected = [
            cp * cy,
            -(cp * sy),
            sp,
            cr * sy + sr * sp * cy,
            cr * cy - sr * sp * sy,
            -(sr * cp),
            sr * sy - cr * sp * cy,
            sr * cy + cr * sp * sy,
            cr * cp,
        ];
        let ours = entries(&rotation(roll, pitch, yaw));
        for (a, b) in ours.iter().zip(expected.iter()) {
            assert_eq!(a.to_bits(), b.to_bits(), "{roll:e} {pitch:e} {yaw:e}");
        }
    }
}

#[test]
fn a_rotation_turns_about_x_then_about_y_then_about_z() {
    let mut random = Random(0x0707_a7e4);
    for _ in 0..100_000 {
        let turn = |r: &mut Random| (r.next() % 62832) as f32 / 10000.0 - 3.1416;
        let (roll, pitch, yaw) = (turn(&mut random), turn(&mut random), turn(&mut random));
        let ours = entries(&rotation(roll, pitch, yaw));
        let theirs = composed(roll, pitch, yaw);
        let m = theirs.matrix();
        let expected = [
            m[(0, 0)], m[(0, 1)], m[(0, 2)], m[(1, 0)], m[(1, 1)], m[(1, 2)], m[(2, 0)], m[(2, 1)], m[(2, 2)],
        ];
        for (a, b) in ours.iter().zip(expected.iter()) {
            assert!((a - b).abs() < 1e-5, "{roll} {pitch} {yaw}: {a} {b}");
        }
    }
}

#[test]
fn a_roll_and_a_yaw_of_a_right_angle_bring_y_to_minus_x() {
    let right = std::f32::consts::FRAC_PI_2;
    let turned = rotation(right, 0.0, right).apply(&p(0.0, 1.0, 0.0));
    assert!((f(turned.x) + 1.0).abs() < 1e-6, "{}", f(turned.x));
    assert!(f(turned.y).abs() < 1e-6, "{}", f(turned.y));
    assert!(f(turned.z).abs() < 1e-6, "{}", f(turned.z));
    let vertices = vec![p(0.0, 1.0, 0.0), p(0.0, 0.0, 0.0), p(1.0, 0.0, 0.0)];
    let mut mesh = Mesh::new(vertices, vec![0, 1, 2], None, None);
    mesh.rotate(&rotation(right, 0.0, right));
    let a = mesh.triangles()[0].position_a;
    assert!((f(a.x) + 1.0).abs() < 1e-6 && f(a.y).abs() < 1e-6 && f(a.z).abs() < 1e-6);
    let c = mesh.triangles()[0].position_c;
    assert!(f(c.x).abs() < 1e-6 && f(c.y).abs() < 1e-6 && (f(c.z) - 1.0).abs() < 1e-6);
}

#[test]
fn a_sole_turn_is_a_turn_about_its_axis() {
    let right = std::f32::consts::FRAC_PI_2;
    let near = |v: Vector3, x: f32, y: f32, z: f32| {
        (f(v.x) - x).abs() < 1e-6 && (f(v.y) - y).abs() < 1e-6 && (f(v.z) - z).abs() < 1e-6
    };
    assert!(near(rotation(right, 0.0, 0.0).apply(&p(0.0, 1.0, 0.0)), 0.0, 0.0, 1.0));
    assert!(near(rotation(right, 0.0, 0.0).apply(&p(1.0, 0.0, 0.0)), 1.0, 0.0, 0.0));
    assert!(near(rotation(0.0, right, 0.0).apply(&p(0.0, 0.0, 1.0)), 1.0, 0.0, 0.0));
    assert!(near(rotation(0.0, right, 0.0).apply(&p(0.0, 1.0, 0.0)), 0.0, 1.0, 0.0));
    assert!(near(rotation(0.0, 0.0, right).apply(&p(1.0, 0.0, 0.0)), 0.0, 1.0, 0.0));
    assert!(near(rotation(0.0, 0.0, right).apply(&p(0.0, 0.0, 1.0)), 0.0, 0.0, 1.0));
}

#[test]
fn a_position_is_turned_as_the_matrix_turns_it() {
    let mut random = Random(0x0707_a7e6);
    for round in 0..300_000 {
        let (roll, pitch, yaw) = (random.number(), random.number(), random.number());
        let v = if round % 10 == 0 {
            (f32::from_bits(random.next()), f32::from_bits(random.next()), f32::from_bits(random.next()))
        } else {
            (random.number(), random.number(), random.number())
        };
        let matrix = rotation(roll, pitch, yaw);
        let ours = matrix.apply(&p(v.0, v.1, v.2));
        let m = entries(&matrix);
        let theirs = nalgebra::Matrix3::new(m[0], m[1], m[2], m[3], m[4], m[5], m[6], m[7], m[8])
            * nalgebra::Vector3::new(v.0, v.1, v.2);
        assert!(same(ours.x, theirs.x) && same(ours.y, theirs.y) && same(ours.z, theirs.z), "{v:?}");
    }
}

#[test]
fn no_rotation_leaves_every_position_where_it_is() {
    let none = rotation(0.0, 0.0, 0.0);
    let mut random = Random(0x0707_a7e7);
    for _ in 0..100_000 {
        let v = (random.number(), random.number(), random.number());
        let turned = none.apply(&p(v.0, v.1, v.2));
        assert_eq!((f(turned.x), f(turned.y), f(turned.z)), v);
    }
    let zero = none.apply(&p(0.0, -0.0, 0.0));
    assert_eq!((f(zero.x), f(zero.y), f(zero.z)), (0.0, 0.0, 0.0));
}

#[test]
fn a_quarter_turn_about_z_brings_x_to_y() {
    let quarter = rotation(0.0, 0.0, std::f32::consts::FRAC_PI_2);
    let turned = quarter.apply(&p(1.0, 0.0, 0.0));
    assert!(f(turned.x).abs() < 1e-6);
    assert!((f(turned.y) - 1.0).abs() < 1e-6);
    assert_eq!(f(turned.z), 0.0);
}

fn cube(side: f32) -> Mesh {
    let vertices = vec![
        p(0.0, 0.0, 0.0),
        p(side, 0.0, 0.0),
        p(side, side, 0.0),
        p(0.0, side, 0.0),
        p(0.0, 0.0, side),
        p(side, 0.0, side),
        p(side, side, side),
        p(0.0, side, side),
    ];
    let indices = vec![
        0, 2, 1, 0, 3, 2, 4, 5, 6, 4, 6, 7, 0, 1, 5, 0, 5, 4, 3, 6, 2, 3, 7, 6, 0, 4, 7, 0, 7, 3, 1, 2, 6, 1, 6, 5,
    ];
    Mesh::new(vertices, indices, None, None)
}

#[test]
fn a_mesh_that_is_not_turned_keeps_its_corners_and_its_box() {
    let mut mesh = cube(3.0);
    let corners: Vec<_> = mesh.triangles().to_vec();
    let bbox = mesh.bbox();
    mesh.rotate(&rotation(0.0, 0.0, 0.0));
    for (turned, was) in mesh.triangles().iter().zip(corners.iter()) {
        for (a, b) in [
            (turned.position_a, was.position_a),
            (turned.position_b, was.position_b),
            (turned.position_c, was.position_c),
        ] {
            assert_eq!((f(a.x), f(a.y), f(a.z)), (f(b.x), f(b.y), f(b.z)));
        }
        assert_eq!(turned.texture_a, was.texture_a);
    }
    let after = mesh.bbox();
    assert_eq!((f(after.min.x), f(after.min.y), f(after.min.z)), (f(bbox.min.x), f(bbox.min.y), f(bbox.min.z)));
    assert_eq!((f(after.max.x), f(after.max.y), f(after.max.z)), (f(bbox.max.x), f(bbox.max.y), f(bbox.max.z)));
}

#[test]
fn a_turned_mesh_is_bounded_anew() {
    let mut mesh = cube(2.0);
    mesh.rotate(&rotation(0.0, 0.0, std::f32::consts::FRAC_PI_2));
    let bbox = mesh.bbox();
    assert!((f(bbox.min.x) + 2.0).abs() < 1e-5 && f(bbox.max.x).abs() < 1e-5);
    assert!(f(bbox.min.y).abs() < 1e-5 && (f(bbox.max.y) - 2.0).abs() < 1e-5);
    assert_eq!((f(bbox.min.z), f(bbox.max.z)), (0.0, 2.0));
    assert_eq!(mesh.triangles().len(), 12);
}

#[test]
fn a_cloud_is_turned_point_by_point() {
    let mut cloud = PointCloud::new(vec![(p(1.0, 2.0, 3.0), [1, 2, 3, 4]), (p(-4.0, 5.0, 0.5), [5, 6, 7, 8])]);
    let (roll, pitch, yaw) = (0.3f32, -1.1f32, 2.5f32);
    cloud.rotate(&rotation(roll, pitch, yaw));
    let theirs = composed(roll, pitch, yaw);
    let points = cloud.into_points();
    let first = theirs * nalgebra::Vector3::new(1.0f32, 2.0, 3.0);
    let second = theirs * nalgebra::Vector3::new(-4.0f32, 5.0, 0.5);
    let near = |ours: Vector3, theirs: nalgebra::Vector3<f32>| {
        (f(ours.x) - theirs.x).abs() < 1e-5
            && (f(ours.y) - theirs.y).abs() < 1e-5
            && (f(ours.z) - theirs.z).abs() < 1e-5
    };
    assert!(near(points[0].0, first));
    assert!(near(points[1].0, second));
    let matrix = rotation(roll, pitch, yaw);
    assert_eq!(points[0].0, matrix.apply(&p(1.0, 2.0, 3.0)));
    assert_eq!(points[1].0, matrix.apply(&p(-4.0, 5.0, 0.5)));
    assert_eq!(points[0].1, [1, 2, 3, 4]);
    assert_eq!(points[1].1, [5, 6, 7, 8]);
}

#[test]
fn the_corners_of_a_box_are_taken_as_the_vector_crate_takes_them() {
    let mut random = Random(0x0b0b_0b0b);
    for round in 0..300_000 {
        let mut number = |r: &mut Random| {
            if round % 5 == 0 {
                f32::from_bits(r.next())
            } else {
                r.number()
            }
        };
        let a = (number(&mut random), number(&mut random), number(&mut random));
        let b = (number(&mut random), number(&mut random), number(&mut random));
        let ours_low = p(a.0, a.1, a.2).inf(&p(b.0, b.1, b.2));
        let ours_high = p(a.0, a.1, a.2).sup(&p(b.0, b.1, b.2));
        let theirs_low = nalgebra::Vector3::new(a.0, a.1, a.2).inf(&nalgebra::Vector3::new(b.0, b.1, b.2));
        let theirs_high = nalgebra::Vector3::new(a.0, a.1, a.2).sup(&nalgebra::Vector3::new(b.0, b.1, b.2));
        assert_eq!(
            (ours_low.x.to_bits(), ours_low.y.to_bits(), ours_low.z.to_bits()),
            (theirs_low.x.to_bits(), theirs_low.y.to_bits(), theirs_low.z.to_bits())
        );
        assert_eq!(
            (ours_high.x.to_bits(), ours_high.y.to_bits(), ours_high.z.to_bits()),
            (theirs_high.x.to_bits(), theirs_high.y.to_bits(), theirs_high.z.to_bits())
        );
    }
}

#[test]
fn a_box_is_grown_point_by_point_from_the_largest_and_the_lowest_number() {
    let mut random = Random(0x0b0b_b0b0);
    for round in 0..2_000 {
        let count = (random.next() % 40) as usize;
        let mut ours = Vec::new();
        let mut min = nalgebra::Vector3::new(f32::MAX, f32::MAX, f32::MAX);
        let mut max = nalgebra::Vector3::new(f32::MIN, f32::MIN, f32::MIN);
        for _ in 0..count {
            let mut number = |r: &mut Random| {
                if round % 3 == 0 {
                    f32::from_bits(r.next())
                } else {
                    r.number()
                }
            };
            let v = (number(&mut random), number(&mut random), number(&mut random));
            ours.push(p(v.0, v.1, v.2));
            let theirs = nalgebra::Vector3::new(v.0, v.1, v.2);
            min = min.inf(&theirs);
            max = max.sup(&theirs);
        }
        let bounds = voxels::bbox::Bbox::from_pcl(&ours);
        assert_eq!(
            (bounds.min.x.to_bits(), bounds.min.y.to_bits(), bounds.min.z.to_bits()),
            (min.x.to_bits(), min.y.to_bits(), min.z.to_bits())
        );
        assert_eq!(
            (bounds.max.x.to_bits(), bounds.max.y.to_bits(), bounds.max.z.to_bits()),
            (max.x.to_bits(), max.y.to_bits(), max.z.to_bits())
        );
    }
}
