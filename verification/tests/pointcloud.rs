use voxels::grid::{GridCoord, Voxel};
use voxels::pointcloud::PointCloud;
use voxels::scalar::Scalar;
use voxels::vector::Vector3;

fn s(x: f32) -> Scalar {
    Scalar::from_bits(x.to_bits())
}

fn p(x: f32, y: f32, z: f32) -> Vector3 {
    Vector3 { x: s(x), y: s(y), z: s(z) }
}

fn sorted(mut voxels: Vec<Voxel>) -> Vec<Voxel> {
    voxels.sort_by_key(|v| (v.0.x, v.0.y, v.0.z));
    voxels
}

#[test]
fn two_points_of_one_cell_give_one_voxel() {
    let cloud = PointCloud::new(vec![(p(0.4, 0.0, 0.0), [1, 2, 3, 4]), (p(-0.4, 0.2, 0.49), [5, 6, 7, 8])]);
    let out = cloud.voxelize(s(1.0));
    assert_eq!(out, vec![(GridCoord { x: 0, y: 0, z: 0 }, [5, 6, 7, 8])]);
}

#[test]
fn points_on_both_sides_of_one_half_fall_into_neighbouring_cells() {
    let cloud = PointCloud::new(vec![(p(0.4, 0.0, 0.0), [255; 4]), (p(0.6, 0.0, 0.0), [255; 4])]);
    let out = sorted(cloud.voxelize(s(1.0)));
    assert_eq!(
        out,
        vec![(GridCoord { x: 0, y: 0, z: 0 }, [255; 4]), (GridCoord { x: 1, y: 0, z: 0 }, [255; 4])]
    );
}

#[test]
fn a_coarser_grid_brings_points_together() {
    let cloud = PointCloud::new(vec![(p(0.4, 0.0, 0.0), [9, 9, 9, 9]), (p(0.6, 0.0, 0.0), [7, 7, 7, 7])]);
    let out = cloud.voxelize(s(2.0));
    assert_eq!(out, vec![(GridCoord { x: 0, y: 0, z: 0 }, [7, 7, 7, 7])]);
}

#[test]
fn voxelize_of_no_point_is_empty() {
    assert!(PointCloud::new(Vec::new()).voxelize(s(0.5)).is_empty());
}

#[test]
fn voxelize_rounds_each_point() {
    let cloud = PointCloud::new(vec![
        (p(1.0, 2.0, 3.0), [1, 0, 0, 255]),
        (p(-1.0, -2.0, -3.0), [2, 0, 0, 255]),
        (p(0.125, 0.375, -0.125), [3, 0, 0, 255]),
    ]);
    let out = sorted(cloud.voxelize(s(0.25)));
    assert_eq!(
        out,
        vec![
            (GridCoord { x: -4, y: -8, z: -12 }, [2, 0, 0, 255]),
            (GridCoord { x: 1, y: 2, z: -1 }, [3, 0, 0, 255]),
            (GridCoord { x: 4, y: 8, z: 12 }, [1, 0, 0, 255]),
        ]
    );
}

#[test]
fn a_cloud_gives_its_points_back() {
    let points = vec![(p(1.0, 2.0, 3.0), [1, 2, 3, 4]), (p(4.0, 5.0, 6.0), [5, 6, 7, 8])];
    let cloud = PointCloud::new(points.clone());
    assert_eq!(cloud.points(), points.as_slice());
    assert_eq!(cloud.into_points(), points);
}
