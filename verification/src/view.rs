//! Decisions of the viewer's panels and viewport that do not depend on
//! drawing: which material a primitive is drawn with, which primitive the
//! inspector shows, and the "show all" / "hide all" buttons.

use vstd::prelude::*;

use crate::mesh::MeshInfo;

verus! {

/// The material a primitive is drawn with: its own where the model has a
/// material with that index, else none (the default material).
pub open spec fn binding(material: Option<usize>, material_count: int) -> Option<usize> {
    match material {
        Some(i) => if (i as int) < material_count { Some(i) } else { None },
        None => None,
    }
}

/// Every material of the model is drawn as itself: a primitive whose
/// material index is below the number of materials gets that material; one
/// with an index at or beyond it, or with no material, gets the default.
pub proof fn lemma_binding(material: Option<usize>, material_count: int)
    ensures
        forall|i: usize| material == Some(i) && i < material_count ==> binding(material, material_count) == Some(i),
        forall|i: usize| material == Some(i) && i >= material_count ==> binding(material, material_count) is None,
        material is None ==> binding(material, material_count) is None,
{
}

/// The material a primitive is drawn with, and that the mesh inspector
/// links to; `None` stands for the default material.
pub fn material_binding(material: Option<usize>, material_count: usize) -> (b: Option<usize>)
    ensures
        b == binding(material, material_count as int),
        forall|i: usize| material == Some(i) && i < material_count ==> b == Some(i),
        b is Some <==> (material matches Some(i) && i < material_count),
{
    proof {
        lemma_binding(material, material_count as int);
    }
    match material {
        Some(i) => if i < material_count { Some(i) } else { None },
        None => None,
    }
}

/// Shows or hides every primitive at once.
pub fn set_all_visible(visible: &mut Vec<bool>, value: bool)
    ensures
        final(visible)@.len() == old(visible)@.len(),
        forall|g: int| 0 <= g < final(visible)@.len() ==> #[trigger] final(visible)@[g] == value,
{
    let mut g: usize = 0;
    while g < visible.len()
        invariant
            g <= visible@.len(),
            visible@.len() == old(visible)@.len(),
            forall|k: int| 0 <= k < g ==> #[trigger] visible@[k] == value,
        decreases visible.len() - g,
    {
        visible.set(g, value);
        g += 1;
    }
}

/// Mesh `m` has a primitive with global index `global`.
pub open spec fn mesh_has(meshes: Seq<MeshInfo>, m: int, global: usize) -> bool {
    exists|j: int| 0 <= j < meshes[m].primitives@.len() && #[trigger] meshes[m].primitives@[j].global_index == global
}

/// The primitive with global index `global` that the mesh inspector shows,
/// as (mesh, position in the mesh): the first such primitive of the first
/// mesh that has one, or `None` where no primitive has that index.
pub fn find_primitive(meshes: &Vec<MeshInfo>, global: usize) -> (found: Option<(usize, usize)>)
    ensures
        match found {
            Some((m, j)) => {
                &&& m < meshes@.len()
                &&& j < meshes@[m as int].primitives@.len()
                &&& meshes@[m as int].primitives@[j as int].global_index == global
                &&& forall|k: int| 0 <= k < j ==> #[trigger] meshes@[m as int].primitives@[k].global_index != global
                &&& forall|n: int| 0 <= n < m ==> !#[trigger] mesh_has(meshes@, n, global)
            },
            None => forall|n: int| 0 <= n < meshes@.len() ==> !#[trigger] mesh_has(meshes@, n, global),
        },
{
    let mut m: usize = 0;
    while m < meshes.len()
        invariant
            m <= meshes@.len(),
            forall|n: int| 0 <= n < m ==> !#[trigger] mesh_has(meshes@, n, global),
        decreases meshes.len() - m,
    {
        let prims = &meshes[m].primitives;
        let mut j: usize = 0;
        while j < prims.len()
            invariant
                m < meshes@.len(),
                *prims == meshes@[m as int].primitives,
                j <= prims@.len(),
                forall|k: int| 0 <= k < j ==> #[trigger] prims@[k].global_index != global,
                forall|n: int| 0 <= n < m ==> !#[trigger] mesh_has(meshes@, n, global),
            decreases prims.len() - j,
        {
            if prims[j].global_index == global {
                return Some((m, j));
            }
            j += 1;
        }
        m += 1;
    }
    None
}

} // verus!
