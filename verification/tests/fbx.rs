use std::collections::HashMap;

use model_viewer::fbx::{
    build_material_index, choose_layers, collect_meshes, compact_indices, group_by_material, material_slots,
    triangle_materials, triangulator, FbxMesh, LayerEntry, LayerKind,
};

#[test]
fn triangulator_fans_around_the_first_corner() {
    let mut out = Vec::new();
    triangulator(&[10, 11, 12, 13, 14], &mut out);
    assert_eq!(out, vec![(10, 11, 12), (10, 12, 13), (10, 13, 14)]);
}

#[test]
fn triangulator_keeps_a_triangle_and_appends() {
    let mut out = vec![(0, 0, 0)];
    triangulator(&[3, 4, 5], &mut out);
    assert_eq!(out, vec![(0, 0, 0), (3, 4, 5)]);
}

#[test]
fn triangulator_skips_degenerate_polygons() {
    let mut out = Vec::new();
    triangulator(&[], &mut out);
    triangulator(&[1], &mut out);
    triangulator(&[1, 2], &mut out);
    assert!(out.is_empty());
}

#[test]
fn material_index_numbers_materials_in_order() {
    let map = build_material_index(&vec![501, 77, 9000]);
    assert_eq!(map.len(), 3);
    assert_eq!(map[&501], 0);
    assert_eq!(map[&77], 1);
    assert_eq!(map[&9000], 2);
}

#[test]
fn material_index_keeps_the_last_of_a_repeated_id() {
    let map = build_material_index(&vec![5, 6, 5]);
    assert_eq!(map.len(), 2);
    assert_eq!(map[&5], 2);
    assert_eq!(map[&6], 1);
}

#[test]
fn material_slots_map_unknown_ids_to_zero() {
    let mut index = HashMap::new();
    index.insert(100i64, 3usize);
    index.insert(200i64, 7usize);
    assert_eq!(material_slots(&vec![200, 999, 100], &index), vec![7, 0, 3]);
}

#[test]
fn triangle_materials_cover_each_case() {
    let slots = vec![4, 9];
    assert_eq!(triangle_materials(&vec![], &Some(vec![Some(0)]), 1), vec![None]);
    assert_eq!(triangle_materials(&slots, &None, 2), vec![Some(4), Some(4)]);
    assert_eq!(
        triangle_materials(&slots, &Some(vec![Some(1), None, Some(5), Some(0)]), 4),
        vec![Some(9), None, None, Some(4)]
    );
}

#[test]
fn group_by_material_orders_groups_with_none_last() {
    let groups = group_by_material(&vec![Some(2), None, Some(0), Some(2)]);
    let keys: Vec<Option<usize>> = groups.iter().map(|g| g.material).collect();
    assert_eq!(keys, vec![Some(0), Some(2), None]);
    assert_eq!(groups[0].corners, vec![6, 7, 8]);
    assert_eq!(groups[1].corners, vec![0, 1, 2, 9, 10, 11]);
    assert_eq!(groups[2].corners, vec![3, 4, 5]);
}

#[test]
fn group_by_material_of_no_triangles_is_empty() {
    assert!(group_by_material(&vec![]).is_empty());
}

#[test]
fn compact_indices_deduplicates_in_first_use_order() {
    let (sources, indices) = compact_indices(&vec![7, 3, 7, 9, 3]);
    assert_eq!(sources, vec![7, 3, 9]);
    assert_eq!(indices, vec![0, 1, 0, 2, 1]);
}

#[test]
fn compact_indices_of_distinct_corners_is_identity() {
    let (sources, indices) = compact_indices(&vec![6, 7, 8]);
    assert_eq!(sources, vec![6, 7, 8]);
    assert_eq!(indices, vec![0, 1, 2]);
}

#[test]
fn collect_meshes_builds_primitives_and_mesh_list() {
    let index = build_material_index(&vec![10, 20]);
    let names = vec![Some("Red".to_string()), None];
    let meshes = vec![
        FbxMesh {
            name: Some("Cube".to_string()),
            material_ids: vec![20, 10],
            triangle_count: 3,
            layer_materials: Some(vec![Some(1), Some(0), Some(1)]),
        },
        FbxMesh { name: None, material_ids: vec![], triangle_count: 1, layer_materials: None },
    ];
    let (prims, infos) = collect_meshes(&meshes, &index, &names);
    assert_eq!(prims.len(), 3);
    assert_eq!(infos.len(), 2);

    assert_eq!(infos[0].name, "Cube");
    assert_eq!(infos[0].primitives.len(), 2);
    let first = &infos[0].primitives[0];
    assert_eq!((first.global_index, first.material), (0, Some(0)));
    assert_eq!(first.name, "Red");
    assert_eq!((first.vertex_count, first.triangle_count), (6, 2));
    assert_eq!(prims[0].vertices, vec![0, 1, 2, 6, 7, 8]);
    assert_eq!(prims[0].indices, vec![0, 1, 2, 3, 4, 5]);
    let second = &infos[0].primitives[1];
    assert_eq!((second.global_index, second.material), (1, Some(1)));
    assert_eq!(second.name, "Primitive 1");
    assert_eq!((second.vertex_count, second.triangle_count), (3, 1));
    assert_eq!(prims[1].vertices, vec![3, 4, 5]);

    assert_eq!(infos[1].name, "Mesh");
    let only = &infos[1].primitives[0];
    assert_eq!((only.global_index, only.material), (2, None));
    assert_eq!(only.name, "Primitive 0");
    assert_eq!(prims[2].vertices, vec![0, 1, 2]);
    assert_eq!(prims[2].material, None);
}

#[test]
fn collect_meshes_of_an_empty_document() {
    let (prims, infos) = collect_meshes(&vec![], &HashMap::new(), &vec![]);
    assert!(prims.is_empty());
    assert!(infos.is_empty());
}

#[test]
fn primitive_triangle_counts_add_up_to_the_mesh() {
    let index = build_material_index(&vec![1, 2, 3]);
    let meshes = vec![FbxMesh {
        name: None,
        material_ids: vec![3, 1],
        triangle_count: 5,
        layer_materials: Some(vec![Some(0), Some(1), None, Some(7), Some(0)]),
    }];
    let (_, infos) = collect_meshes(&meshes, &index, &vec![None, None, None]);
    let total: usize = infos[0].primitives.iter().map(|p| p.triangle_count).sum();
    assert_eq!(total, 5);
}

fn layer(kind: LayerKind, usable: bool) -> LayerEntry {
    LayerEntry { kind, usable }
}

#[test]
fn choose_layers_takes_the_first_readable_entry_of_each_kind() {
    let entries = vec![
        layer(LayerKind::Other, false),
        layer(LayerKind::Normal, false),
        layer(LayerKind::Uv, true),
        layer(LayerKind::Normal, true),
        layer(LayerKind::Material, true),
        layer(LayerKind::Normal, true),
        layer(LayerKind::Uv, true),
    ];
    let choice = choose_layers(&entries);
    assert_eq!(choice.normals, Some(3));
    assert_eq!(choice.uvs, Some(2));
    assert_eq!(choice.materials, Some(4));
}

#[test]
fn choose_layers_without_readable_entries_takes_none() {
    let choice = choose_layers(&vec![layer(LayerKind::Material, false), layer(LayerKind::Other, false)]);
    assert_eq!(choice.normals, None);
    assert_eq!(choice.uvs, None);
    assert_eq!(choice.materials, None);
    let none = choose_layers(&vec![]);
    assert_eq!(none.materials, None);
}

#[test]
fn group_by_material_keeps_the_triangle_order_within_a_group() {
    let groups = group_by_material(&vec![None, Some(1), None, None, Some(1)]);
    let keys: Vec<Option<usize>> = groups.iter().map(|g| g.material).collect();
    assert_eq!(keys, vec![Some(1), None]);
    assert_eq!(groups[0].corners, vec![3, 4, 5, 12, 13, 14]);
    assert_eq!(groups[1].corners, vec![0, 1, 2, 6, 7, 8, 9, 10, 11]);
}
