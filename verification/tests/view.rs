use model_viewer::mesh::{MeshInfo, MeshPrimInfo};
use model_viewer::view::{find_primitive, material_binding, set_all_visible};

fn prim(global_index: usize) -> MeshPrimInfo {
    MeshPrimInfo { global_index, name: format!("p{global_index}"), vertex_count: 0, triangle_count: 0, material: None }
}

#[test]
fn material_binding_falls_back_to_default() {
    assert_eq!(material_binding(Some(1), 3), Some(1));
    assert_eq!(material_binding(Some(3), 3), None);
    assert_eq!(material_binding(None, 3), None);
}

#[test]
fn show_all_and_hide_all() {
    let mut visible = vec![true, false, true];
    set_all_visible(&mut visible, false);
    assert_eq!(visible, vec![false, false, false]);
    set_all_visible(&mut visible, true);
    assert_eq!(visible, vec![true, true, true]);
}

#[test]
fn find_primitive_finds_the_first_match() {
    let meshes = vec![
        MeshInfo { name: "a".to_string(), primitives: vec![prim(0), prim(1)] },
        MeshInfo { name: "b".to_string(), primitives: vec![prim(2), prim(1)] },
    ];
    assert_eq!(find_primitive(&meshes, 0), Some((0, 0)));
    assert_eq!(find_primitive(&meshes, 1), Some((0, 1)));
    assert_eq!(find_primitive(&meshes, 2), Some((1, 0)));
    assert_eq!(find_primitive(&meshes, 5), None);
}
