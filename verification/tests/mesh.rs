use model_viewer::mesh::{
    format_for_extension, material_name, mesh_list, model_format, primitive_label, GltfMesh, GltfPrimitive,
    ModelFormat,
};

fn gltf_prim(vertex_count: usize, index_count: usize, material_name: Option<&str>, material: Option<usize>) -> GltfPrimitive {
    GltfPrimitive { vertex_count, index_count, material_name: material_name.map(str::to_string), material }
}

#[test]
fn mesh_list_numbers_primitives_across_meshes() {
    let meshes = vec![
        GltfMesh { name: Some("Body".to_string()), primitives: vec![gltf_prim(24, 36, Some("Skin"), Some(0)), gltf_prim(8, 12, None, None)] },
        GltfMesh { name: None, primitives: vec![] },
        GltfMesh { name: Some("Hat".to_string()), primitives: vec![gltf_prim(3, 4, None, Some(2))] },
    ];
    let infos = mesh_list(&meshes);
    assert_eq!(infos.len(), 3);
    assert_eq!(infos[0].name, "Body");
    let p = &infos[0].primitives;
    assert_eq!((p[0].global_index, p[0].name.as_str(), p[0].vertex_count, p[0].triangle_count, p[0].material), (0, "Skin", 24, 12, Some(0)));
    assert_eq!((p[1].global_index, p[1].name.as_str(), p[1].vertex_count, p[1].triangle_count, p[1].material), (1, "Primitive 1", 8, 4, None));
    assert_eq!(infos[1].name, "Mesh");
    assert!(infos[1].primitives.is_empty());
    let h = &infos[2].primitives[0];
    assert_eq!((h.global_index, h.name.as_str(), h.triangle_count, h.material), (2, "Primitive 0", 1, Some(2)));
}

#[test]
fn material_and_primitive_names_default() {
    assert_eq!(material_name(&None, 4), "Material 4");
    assert_eq!(material_name(&Some("Gold".to_string()), 4), "Gold");
    assert_eq!(primitive_label(&None, 0), "Primitive 0");
    assert_eq!(primitive_label(&Some("Gold".to_string()), 9), "Gold");
}

#[test]
fn fbx_extension_in_any_case() {
    assert_eq!(format_for_extension("fbx"), ModelFormat::Fbx);
    assert_eq!(format_for_extension("FbX"), ModelFormat::Fbx);
    assert_eq!(format_for_extension("glb"), ModelFormat::Gltf);
    assert_eq!(format_for_extension("fbxx"), ModelFormat::Gltf);
    assert_eq!(format_for_extension(""), ModelFormat::Gltf);
}

#[test]
fn model_format_by_path() {
    assert_eq!(model_format("scenes/purah.fbx"), ModelFormat::Fbx);
    assert_eq!(model_format("scenes/PURAH.FBX"), ModelFormat::Fbx);
    assert_eq!(model_format("scenes/lumine.glb"), ModelFormat::Gltf);
    assert_eq!(model_format("scenes/fbx"), ModelFormat::Gltf);
    assert_eq!(model_format(".fbx"), ModelFormat::Gltf);
    assert_eq!(model_format("a.fbx.glb"), ModelFormat::Gltf);
}

#[test]
fn model_format_of_windows_paths() {
    assert_eq!(model_format("C:\\models\\x.fbx"), ModelFormat::Fbx);
    assert_eq!(model_format("C:\\models\\x.glb"), ModelFormat::Gltf);
}

#[test]
fn model_format_ignores_trailing_separators() {
    assert_eq!(model_format("models/a.fbx/"), ModelFormat::Fbx);
    assert_eq!(model_format("models/a.glb//"), ModelFormat::Gltf);
}
