use voxels::formats::{input_format, InputFormat};

#[test]
fn scenes_and_point_clouds_are_told_by_their_extension() {
    assert_eq!(input_format("gltf"), Some(InputFormat::Scene));
    assert_eq!(input_format("glb"), Some(InputFormat::Scene));
    assert_eq!(input_format("ply"), Some(InputFormat::PointCloud));
}

#[test]
fn other_extensions_are_not_known() {
    for extension in ["", "obj", "GLTF", "Ply", "gltf2", "gl", "plyy", "glb ", ".ply", "stl"] {
        assert_eq!(input_format(extension), None, "{extension:?}");
    }
}
