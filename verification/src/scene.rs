//! The scene hierarchy that the scene panel shows, built from the nodes of
//! a glTF scene or the models of an FBX document.

use vstd::prelude::*;

use crate::mesh::{name_or, name_or_default, primitive_label, SceneNode, SceneTree};
use crate::text::decimal;

verus! {

/// A mesh attached to a node: its name and, per primitive, the name of the
/// primitive's material.
pub struct NodeMesh {
    pub name: Option<String>,
    pub primitive_material_names: Vec<Option<String>>,
}

/// A node of a model's hierarchy as the document gives it.
pub struct NodeSource {
    pub name: Option<String>,
    pub children: Vec<NodeSource>,
    pub mesh: Option<NodeMesh>,
}

/// `out` is the entry of the scene panel for the mesh `mesh`: the mesh's
/// name (`Mesh` where it has none) with one leaf per primitive, named after
/// its material or `Primitive i`.
pub open spec fn mesh_node(mesh: NodeMesh, out: SceneNode) -> bool {
    &&& out.name@ == name_or(mesh.name, "Mesh"@)
    &&& out.children@.len() == mesh.primitive_material_names@.len()
    &&& forall|i: int|
        #![trigger out.children@[i]]
        0 <= i < out.children@.len() ==> out.children@[i].name@ == name_or(
            mesh.primitive_material_names@[i],
            "Primitive "@ + decimal(i as nat),
        ) && out.children@[i].children@.len() == 0
}

/// `out` is the scene node of `src`: its name (`Node` where it has none),
/// then its children in order, then, where it has a mesh, the mesh's entry.
pub open spec fn converted(src: NodeSource, out: SceneNode) -> bool
    decreases src,
{
    let n = src.children@.len();
    &&& out.name@ == name_or(src.name, "Node"@)
    &&& out.children@.len() == n + (if src.mesh is Some { 1int } else { 0int })
    &&& forall|i: int|
        #![trigger src.children@[i]]
        0 <= i < n ==> converted(src.children@[i], out.children@[i])
    &&& src.mesh matches Some(mesh) ==> mesh_node(mesh, out.children@[n as int])
}

/// The scene node of a node lists the node's children and then, whether or
/// not it has children, one entry for its mesh where it has one: the mesh's
/// name (`Mesh` where it has none) over one leaf per primitive, named after
/// the primitive's material or `Primitive i`.
pub proof fn lemma_node_children(src: NodeSource, out: SceneNode)
    requires
        converted(src, out),
    ensures
        out.name@ == name_or(src.name, "Node"@),
        src.mesh is None ==> out.children@.len() == src.children@.len(),
        src.mesh matches Some(mesh) ==> {
            &&& out.children@.len() == src.children@.len() + 1
            &&& out.children@.last().name@ == name_or(mesh.name, "Mesh"@)
            &&& out.children@.last().children@.len() == mesh.primitive_material_names@.len()
            &&& forall|i: int|
                0 <= i < mesh.primitive_material_names@.len() ==> {
                    &&& (#[trigger] out.children@.last().children@[i]).name@ == name_or(
                        mesh.primitive_material_names@[i],
                        "Primitive "@ + decimal(i as nat),
                    )
                    &&& out.children@.last().children@[i].children@.len() == 0
                }
        },
        forall|i: int|
            0 <= i < src.children@.len() ==> (#[trigger] out.children@[i]).name@ == name_or(
                src.children@[i].name,
                "Node"@,
            ),
{
    assert forall|i: int| 0 <= i < src.children@.len() implies (#[trigger] out.children@[i]).name@ == name_or(
        src.children@[i].name,
        "Node"@,
    ) by {
        assert(converted(src.children@[i], out.children@[i]));
    }
    if let Some(mesh) = src.mesh {
        let last = out.children@.last();
        assert(last == out.children@[src.children@.len() as int]);
        assert(mesh_node(mesh, last));
        assert forall|i: int| 0 <= i < mesh.primitive_material_names@.len() implies {
            &&& (#[trigger] last.children@[i]).name@ == name_or(
                mesh.primitive_material_names@[i],
                "Primitive "@ + decimal(i as nat),
            )
            &&& last.children@[i].children@.len() == 0
        } by {
            assert(0 <= i < last.children@.len());
        }
    }
}

/// The scene panel's entry for a mesh.
fn mesh_entry(mesh: &NodeMesh) -> (out: SceneNode)
    ensures
        mesh_node(*mesh, out),
{
    let mut prims: Vec<SceneNode> = Vec::new();
    let mut i: usize = 0;
    while i < mesh.primitive_material_names.len()
        invariant
            i <= mesh.primitive_material_names@.len(),
            prims@.len() == i,
            forall|k: int|
                #![trigger prims@[k]]
                0 <= k < i ==> prims@[k].name@ == name_or(
                    mesh.primitive_material_names@[k],
                    "Primitive "@ + decimal(k as nat),
                ) && prims@[k].children@.len() == 0,
        decreases mesh.primitive_material_names.len() - i,
    {
        let name = primitive_label(&mesh.primitive_material_names[i], i);
        prims.push(SceneNode { name, children: Vec::new() });
        i += 1;
    }
    SceneNode { name: name_or_default(&mesh.name, "Mesh"), children: prims }
}

/// The scene node of a node of the document, with all that lies below it.
pub fn convert_node(src: &NodeSource) -> (out: SceneNode)
    ensures
        converted(*src, out),
        out.name@ == name_or(src.name, "Node"@),
        src.mesh is None ==> out.children@.len() == src.children@.len(),
        src.mesh matches Some(mesh) ==> {
            &&& out.children@.len() == src.children@.len() + 1
            &&& out.children@.last().name@ == name_or(mesh.name, "Mesh"@)
            &&& out.children@.last().children@.len() == mesh.primitive_material_names@.len()
            &&& forall|i: int|
                0 <= i < mesh.primitive_material_names@.len() ==> {
                    &&& (#[trigger] out.children@.last().children@[i]).name@ == name_or(
                        mesh.primitive_material_names@[i],
                        "Primitive "@ + decimal(i as nat),
                    )
                    &&& out.children@.last().children@[i].children@.len() == 0
                }
        },
        forall|i: int|
            0 <= i < src.children@.len() ==> (#[trigger] out.children@[i]).name@ == name_or(
                src.children@[i].name,
                "Node"@,
            ),
    decreases src,
{
    let mut children: Vec<SceneNode> = Vec::new();
    let mut i: usize = 0;
    while i < src.children.len()
        invariant
            i <= src.children@.len(),
            children@.len() == i,
            forall|k: int|
                #![trigger src.children@[k]]
                0 <= k < i ==> converted(src.children@[k], children@[k]),
        decreases src.children.len() - i,
    {
        proof {
            assert(decreases_to!(src => src.children@[i as int]));
        }
        let child = convert_node(&src.children[i]);
        children.push(child);
        i += 1;
    }
    match &src.mesh {
        Some(mesh) => {
            let entry = mesh_entry(mesh);
            children.push(entry);
        },
        None => {},
    }
    let out = SceneNode { name: name_or_default(&src.name, "Node"), children };
    proof {
        lemma_node_children(*src, out);
    }
    out
}

/// The scene hierarchy of a model: the scene's name (`Scene` where it has
/// none) and the scene nodes of its root nodes, in order.
pub fn scene_tree(scene_name: &Option<String>, roots: &Vec<NodeSource>) -> (tree: SceneTree)
    ensures
        tree.scene_name@ == name_or(*scene_name, "Scene"@),
        tree.roots@.len() == roots@.len(),
        forall|k: int| #![trigger roots@[k]] 0 <= k < roots@.len() ==> converted(roots@[k], tree.roots@[k]),
{
    let mut nodes: Vec<SceneNode> = Vec::new();
    let mut i: usize = 0;
    while i < roots.len()
        invariant
            i <= roots@.len(),
            nodes@.len() == i,
            forall|k: int| #![trigger roots@[k]] 0 <= k < i ==> converted(roots@[k], nodes@[k]),
        decreases roots.len() - i,
    {
        nodes.push(convert_node(&roots[i]));
        i += 1;
    }
    SceneTree { scene_name: name_or_default(scene_name, "Scene"), roots: nodes }
}

} // verus!
