use model_viewer::mesh::{MeshInfo, MeshPrimInfo};
use model_viewer::state::{hidden_primitive_keys, primitive_visible, restore_visibility, state_path, STATE_FILE};

fn prim(global_index: usize, name: &str) -> MeshPrimInfo {
    MeshPrimInfo { global_index, name: name.to_string(), vertex_count: 3, triangle_count: 1, material: None }
}

fn sample_meshes() -> Vec<MeshInfo> {
    vec![
        MeshInfo { name: "Body".to_string(), primitives: vec![prim(0, "Skin"), prim(1, "Cloth")] },
        MeshInfo { name: "Hair".to_string(), primitives: vec![prim(2, "Strands")] },
    ]
}

#[test]
fn state_path_without_config_dir_is_the_file_name() {
    assert_eq!(state_path(None), "viewer_state.json");
    assert_eq!(STATE_FILE, "viewer_state.json");
}

#[test]
fn state_path_joins_the_config_dir() {
    let path = state_path(Some("/home/user/.config/model_viewer".to_string()));
    let expected = std::path::Path::new("/home/user/.config/model_viewer").join("viewer_state.json");
    assert_eq!(path, expected.to_string_lossy());
    assert!(path.starts_with("/home/user/.config/model_viewer"));
    assert!(path.ends_with("viewer_state.json"));
}

#[test]
fn primitive_visible_defaults_to_visible() {
    let visible = vec![true, false];
    assert!(primitive_visible(&visible, 0));
    assert!(!primitive_visible(&visible, 1));
    assert!(primitive_visible(&visible, 2));
}

#[test]
fn hidden_primitive_keys_lists_hidden_ones_in_order() {
    let meshes = sample_meshes();
    assert_eq!(hidden_primitive_keys(&meshes, &vec![false, true, false]), vec!["Body/Skin", "Hair/Strands"]);
    assert!(hidden_primitive_keys(&meshes, &vec![true, true, true]).is_empty());
}

#[test]
fn hidden_primitive_keys_treats_missing_entries_as_visible() {
    let meshes = sample_meshes();
    assert_eq!(hidden_primitive_keys(&meshes, &vec![true, false]), vec!["Body/Cloth"]);
}

#[test]
fn restore_visibility_hides_saved_keys() {
    let meshes = sample_meshes();
    let hidden = vec!["Hair/Strands".to_string(), "Gone/Mesh".to_string()];
    assert_eq!(restore_visibility(3, &meshes, &hidden), vec![true, true, false]);
}

#[test]
fn restore_visibility_ignores_out_of_range_indices() {
    let meshes = sample_meshes();
    let hidden = vec!["Hair/Strands".to_string()];
    assert_eq!(restore_visibility(2, &meshes, &hidden), vec![true, true]);
}

#[test]
fn visibility_survives_save_and_restore() {
    let meshes = sample_meshes();
    for visible in [vec![true, true, true], vec![false, true, false], vec![false, false, false], vec![true, false, true]] {
        let saved = hidden_primitive_keys(&meshes, &visible);
        assert_eq!(restore_visibility(3, &meshes, &saved), visible);
    }
}

#[test]
fn saving_after_restoring_gives_back_the_keys() {
    let meshes = sample_meshes();
    let saved = vec!["Hair/Strands".to_string(), "Body/Skin".to_string()];
    let visible = restore_visibility(3, &meshes, &saved);
    let mut again = hidden_primitive_keys(&meshes, &visible);
    again.sort();
    let mut expected = saved.clone();
    expected.sort();
    assert_eq!(again, expected);
}

#[test]
fn state_path_puts_a_separator_after_a_plain_directory() {
    let path = state_path(Some("cfg".to_string()));
    assert!(path == "cfg/viewer_state.json" || path == "cfg\\viewer_state.json");
}

#[test]
fn state_path_after_an_empty_or_slash_terminated_directory() {
    assert_eq!(state_path(Some(String::new())), "viewer_state.json");
    assert_eq!(state_path(Some("cfg/".to_string())), "cfg/viewer_state.json");
}

#[test]
fn restoring_then_saving_with_a_shared_index_on_unsaved_primitives() {
    // "Hair/Strands" and "Hair/Tips" share a global index; only "Body/Skin" is saved.
    let meshes = vec![
        MeshInfo { name: "Body".to_string(), primitives: vec![prim(0, "Skin"), prim(1, "Cloth")] },
        MeshInfo { name: "Hair".to_string(), primitives: vec![prim(1, "Strands"), prim(5, "Tips")] },
    ];
    let saved = vec!["Body/Skin".to_string()];
    let visible = restore_visibility(2, &meshes, &saved);
    assert_eq!(visible, vec![false, true]);
    assert_eq!(hidden_primitive_keys(&meshes, &visible), saved);
}
