use model_viewer::mesh::SceneNode;
use model_viewer::scene::{convert_node, scene_tree, NodeMesh, NodeSource};

fn leaf(name: Option<&str>) -> NodeSource {
    NodeSource { name: name.map(str::to_string), children: vec![], mesh: None }
}

fn names(node: &SceneNode) -> Vec<String> {
    node.children.iter().map(|c| c.name.clone()).collect()
}

#[test]
fn convert_node_names_unnamed_nodes() {
    let node = convert_node(&leaf(None));
    assert_eq!(node.name, "Node");
    assert!(node.children.is_empty());
}

#[test]
fn convert_node_puts_the_mesh_after_the_children() {
    let src = NodeSource {
        name: Some("Root".to_string()),
        children: vec![leaf(Some("Arm")), leaf(None)],
        mesh: Some(NodeMesh {
            name: None,
            primitive_material_names: vec![Some("Steel".to_string()), None],
        }),
    };
    let node = convert_node(&src);
    assert_eq!(node.name, "Root");
    assert_eq!(names(&node), vec!["Arm", "Node", "Mesh"]);
    let mesh = &node.children[2];
    assert_eq!(names(mesh), vec!["Steel", "Primitive 1"]);
    assert!(mesh.children.iter().all(|p| p.children.is_empty()));
}

#[test]
fn convert_node_recurses() {
    let src = NodeSource {
        name: Some("A".to_string()),
        children: vec![NodeSource { name: Some("B".to_string()), children: vec![leaf(Some("C"))], mesh: None }],
        mesh: None,
    };
    let node = convert_node(&src);
    assert_eq!(node.children[0].name, "B");
    assert_eq!(node.children[0].children[0].name, "C");
}

#[test]
fn scene_tree_defaults_the_scene_name() {
    let tree = scene_tree(&None, &vec![leaf(Some("X")), leaf(None)]);
    assert_eq!(tree.scene_name, "Scene");
    let roots: Vec<String> = tree.roots.iter().map(|r| r.name.clone()).collect();
    assert_eq!(roots, vec!["X", "Node"]);
    let named = scene_tree(&Some("Level 1".to_string()), &vec![]);
    assert_eq!(named.scene_name, "Level 1");
    assert!(named.roots.is_empty());
}
