//! What the viewer knows about a loaded model apart from its vertex data:
//! the meshes and their primitives, the scene hierarchy and the materials'
//! alpha modes.

use vstd::prelude::*;

use crate::text::{decimal, numbered};

verus! {

/// How a material's alpha channel is used.
#[derive(Clone, Copy, Debug, PartialEq, Eq)]
pub enum AlphaMode {
    Opaque,
    Mask,
    Blend,
}

/// One drawable primitive of a mesh, as the meshes panel lists it.
pub struct MeshPrimInfo {
    /// Index of the primitive among all primitives of the model.
    pub global_index: usize,
    pub name: String,
    pub vertex_count: usize,
    pub triangle_count: usize,
    /// Global index of the primitive's material, if it has one.
    pub material: Option<usize>,
}

/// A mesh and its primitives.
pub struct MeshInfo {
    pub name: String,
    pub primitives: Vec<MeshPrimInfo>,
}

/// A node of the scene hierarchy.
pub struct SceneNode {
    pub name: String,
    pub children: Vec<SceneNode>,
}

/// The scene hierarchy of a model.
pub struct SceneTree {
    pub scene_name: String,
    pub roots: Vec<SceneNode>,
}

/// The name, or `default` where there is none.
pub open spec fn name_or(name: Option<String>, default: Seq<char>) -> Seq<char> {
    match name {
        Some(n) => n@,
        None => default,
    }
}

/// The name, or `default` where there is none.
pub fn name_or_default(name: &Option<String>, default: &str) -> (s: String)
    ensures
        s@ == name_or(*name, default@),
{
    match name {
        Some(n) => n.clone(),
        None => String::from_str(default),
    }
}

/// The number of primitives of the meshes before mesh `m`: the global index
/// of the first primitive of mesh `m`.
pub open spec fn primitive_offset(meshes: Seq<MeshInfo>, m: int) -> int
    decreases m,
{
    if m <= 0 {
        0
    } else {
        primitive_offset(meshes, m - 1) + meshes[m - 1].primitives@.len()
    }
}


/// The name of the `i`-th material of a model: its own, or `Material i`.
pub fn material_name(name: &Option<String>, i: usize) -> (s: String)
    ensures
        s@ == name_or(*name, "Material "@ + decimal(i as nat)),
{
    match name {
        Some(n) => n.clone(),
        None => numbered("Material ", i),
    }
}

/// The name shown for the `i`-th primitive of a mesh: the name of its
/// material, or `Primitive i`.
pub fn primitive_label(material_name: &Option<String>, i: usize) -> (s: String)
    ensures
        s@ == name_or(*material_name, "Primitive "@ + decimal(i as nat)),
{
    match material_name {
        Some(n) => n.clone(),
        None => numbered("Primitive ", i),
    }
}

/// A primitive of a glTF mesh, as the mesh list needs it.
pub struct GltfPrimitive {
    /// The number of positions (0 where the primitive has none).
    pub vertex_count: usize,
    /// The number of indices (0 where the primitive has none).
    pub index_count: usize,
    /// The name of the primitive's material, if it has one.
    pub material_name: Option<String>,
    /// The index of the primitive's material, if it has one.
    pub material: Option<usize>,
}

/// A mesh of a glTF document, as the mesh list needs it.
pub struct GltfMesh {
    pub name: Option<String>,
    pub primitives: Vec<GltfPrimitive>,
}

/// The number of primitives of the first `m` meshes.
pub open spec fn gltf_primitive_offset(meshes: Seq<GltfMesh>, m: int) -> int
    decreases m,
{
    if m <= 0 {
        0
    } else {
        gltf_primitive_offset(meshes, m - 1) + meshes[m - 1].primitives@.len()
    }
}

/// `info` lists `src`, whose first primitive has global index `offset`.
pub open spec fn gltf_mesh_listed(src: GltfMesh, info: MeshInfo, offset: int) -> bool {
    &&& info.name@ == name_or(src.name, "Mesh"@)
    &&& info.primitives@.len() == src.primitives@.len()
    &&& forall|j: int|
        #![trigger info.primitives@[j]]
        0 <= j < src.primitives@.len() ==> {
            let p = src.primitives@[j];
            let q = info.primitives@[j];
            &&& q.global_index == offset + j
            &&& q.name@ == name_or(p.material_name, "Primitive "@ + decimal(j as nat))
            &&& q.vertex_count == p.vertex_count
            &&& q.triangle_count == p.index_count / 3
            &&& q.material == p.material
        }
}

/// The mesh list of a glTF document: the meshes in order, each with its
/// primitives, numbered across all meshes in order.
pub fn mesh_list(meshes: &Vec<GltfMesh>) -> (infos: Vec<MeshInfo>)
    requires
        gltf_primitive_offset(meshes@, meshes@.len() as int) <= usize::MAX,
    ensures
        infos@.len() == meshes@.len(),
        forall|m: int|
            #![trigger infos@[m]]
            0 <= m < meshes@.len() ==> gltf_mesh_listed(meshes@[m], infos@[m], gltf_primitive_offset(meshes@, m)),
{
    let mut infos: Vec<MeshInfo> = Vec::new();
    let mut global: usize = 0;
    let mut m: usize = 0;
    while m < meshes.len()
        invariant
            m <= meshes@.len(),
            infos@.len() == m,
            global == gltf_primitive_offset(meshes@, m as int),
            gltf_primitive_offset(meshes@, meshes@.len() as int) <= usize::MAX,
            forall|k: int|
                #![trigger infos@[k]]
                0 <= k < m ==> gltf_mesh_listed(meshes@[k], infos@[k], gltf_primitive_offset(meshes@, k)),
        decreases meshes.len() - m,
    {
        let mesh = &meshes[m];
        proof {
            lemma_gltf_offset_monotone(meshes@, m + 1, meshes@.len() as int);
        }
        let mut prims: Vec<MeshPrimInfo> = Vec::new();
        let mut j: usize = 0;
        while j < mesh.primitives.len()
            invariant
                m < meshes@.len(),
                *mesh == meshes@[m as int],
                j <= mesh.primitives@.len(),
                prims@.len() == j,
                global == gltf_primitive_offset(meshes@, m as int) + j,
                gltf_primitive_offset(meshes@, m as int) + mesh.primitives@.len() <= usize::MAX,
                forall|i: int|
                    #![trigger prims@[i]]
                    0 <= i < j ==> {
                        let p = mesh.primitives@[i];
                        let q = prims@[i];
                        &&& q.global_index == gltf_primitive_offset(meshes@, m as int) + i
                        &&& q.name@ == name_or(p.material_name, "Primitive "@ + decimal(i as nat))
                        &&& q.vertex_count == p.vertex_count
                        &&& q.triangle_count == p.index_count / 3
                        &&& q.material == p.material
                    },
            decreases mesh.primitives.len() - j,
        {
            let p = &mesh.primitives[j];
            let name = primitive_label(&p.material_name, j);
            prims.push(
                MeshPrimInfo {
                    global_index: global,
                    name,
                    vertex_count: p.vertex_count,
                    triangle_count: p.index_count / 3,
                    material: p.material,
                },
            );
            global += 1;
            j += 1;
        }
        let name = name_or_default(&mesh.name, "Mesh");
        infos.push(MeshInfo { name, primitives: prims });
        m += 1;
    }
    infos
}

/// The mesh list numbers the primitives `0, 1, ...` across the meshes:
/// every global index below the number of primitives belongs to exactly one
/// primitive of the list.
pub proof fn lemma_mesh_list_numbering(srcs: Seq<GltfMesh>, infos: Seq<MeshInfo>, g: int)
    requires
        infos.len() == srcs.len(),
        forall|m: int|
            #![trigger infos[m]]
            0 <= m < srcs.len() ==> gltf_mesh_listed(srcs[m], infos[m], gltf_primitive_offset(srcs, m)),
        0 <= g < gltf_primitive_offset(srcs, srcs.len() as int),
    ensures
        exists|m: int, j: int|
            0 <= m < infos.len() && 0 <= j < infos[m].primitives@.len() && #[trigger] infos[m].primitives@[j].global_index
                == g,
        forall|m1: int, j1: int, m2: int, j2: int|
            0 <= m1 < infos.len() && 0 <= j1 < infos[m1].primitives@.len() && 0 <= m2 < infos.len() && 0 <= j2
                < infos[m2].primitives@.len() && #[trigger] infos[m1].primitives@[j1].global_index
                == #[trigger] infos[m2].primitives@[j2].global_index ==> m1 == m2 && j1 == j2,
{
    lemma_offsets_agree(srcs, infos, srcs.len() as int);
    let m = lemma_find_mesh(infos, g, infos.len() as int);
    lemma_offsets_agree(srcs, infos, m);
    let j = g - primitive_offset(infos, m);
    assert(gltf_mesh_listed(srcs[m], infos[m], gltf_primitive_offset(srcs, m)));
    assert(infos[m].primitives@[j].global_index == g);
    assert forall|m1: int, j1: int, m2: int, j2: int|
        0 <= m1 < infos.len() && 0 <= j1 < infos[m1].primitives@.len() && 0 <= m2 < infos.len() && 0 <= j2
            < infos[m2].primitives@.len() && #[trigger] infos[m1].primitives@[j1].global_index
            == #[trigger] infos[m2].primitives@[j2].global_index implies m1 == m2 && j1 == j2 by {
        assert(gltf_mesh_listed(srcs[m1], infos[m1], gltf_primitive_offset(srcs, m1)));
        assert(gltf_mesh_listed(srcs[m2], infos[m2], gltf_primitive_offset(srcs, m2)));
        lemma_offsets_agree(srcs, infos, m1);
        lemma_offsets_agree(srcs, infos, m2);
        lemma_offsets_agree(srcs, infos, m1 + 1);
        lemma_offsets_agree(srcs, infos, m2 + 1);
        if m1 < m2 {
            lemma_offset_monotone(infos, m1 + 1, m2);
        } else if m2 < m1 {
            lemma_offset_monotone(infos, m2 + 1, m1);
        }
    }
}

/// A listed mesh has as many primitives as its source, so the offsets of
/// the sources and of the list agree.
proof fn lemma_offsets_agree(srcs: Seq<GltfMesh>, infos: Seq<MeshInfo>, m: int)
    requires
        infos.len() == srcs.len(),
        forall|k: int|
            #![trigger infos[k]]
            0 <= k < srcs.len() ==> gltf_mesh_listed(srcs[k], infos[k], gltf_primitive_offset(srcs, k)),
        0 <= m <= srcs.len(),
    ensures
        gltf_primitive_offset(srcs, m) == primitive_offset(infos, m),
    decreases m,
{
    if m > 0 {
        lemma_offsets_agree(srcs, infos, m - 1);
        assert(gltf_mesh_listed(srcs[m - 1], infos[m - 1], gltf_primitive_offset(srcs, m - 1)));
    }
}

/// The mesh whose primitives hold list entry `g`.
pub(crate) proof fn lemma_find_mesh(infos: Seq<MeshInfo>, g: int, n: int) -> (m: int)
    requires
        0 <= n <= infos.len(),
        0 <= g < primitive_offset(infos, n),
    ensures
        0 <= m < n,
        primitive_offset(infos, m) <= g < primitive_offset(infos, m) + infos[m].primitives@.len(),
    decreases n,
{
    if g >= primitive_offset(infos, n - 1) {
        n - 1
    } else {
        lemma_find_mesh(infos, g, n - 1)
    }
}

/// The primitives of mesh `k` end at or before the offset of the end.
pub(crate) proof fn lemma_offset_bounded(infos: Seq<MeshInfo>, k: int)
    requires
        0 <= k < infos.len(),
    ensures
        primitive_offset(infos, k) + infos[k].primitives@.len() <= primitive_offset(infos, infos.len() as int),
        primitive_offset(infos, k) >= 0,
    decreases infos.len() - k,
{
    lemma_offset_monotone(infos, k + 1, infos.len() as int);
    lemma_offset_nonneg(infos, k);
}

pub(crate) proof fn lemma_offset_monotone(infos: Seq<MeshInfo>, a: int, b: int)
    requires
        0 <= a <= b,
    ensures
        primitive_offset(infos, a) <= primitive_offset(infos, b),
    decreases b - a,
{
    if a < b {
        lemma_offset_monotone(infos, a, b - 1);
    }
}

pub(crate) proof fn lemma_offset_nonneg(infos: Seq<MeshInfo>, a: int)
    ensures
        primitive_offset(infos, a) >= 0,
    decreases a,
{
    if a > 0 {
        lemma_offset_nonneg(infos, a - 1);
    }
}


proof fn lemma_gltf_offset_monotone(meshes: Seq<GltfMesh>, a: int, b: int)
    requires
        0 <= a <= b,
    ensures
        gltf_primitive_offset(meshes, a) <= gltf_primitive_offset(meshes, b),
    decreases b - a,
{
    if a < b {
        lemma_gltf_offset_monotone(meshes, a, b - 1);
    }
}


/// The file formats the viewer loads.
#[derive(Clone, Copy, Debug, PartialEq, Eq)]
pub enum ModelFormat {
    Fbx,
    Gltf,
}

/// The extension names FBX: `fbx` in any ASCII case.
pub open spec fn is_fbx_extension(e: Seq<char>) -> bool {
    &&& e.len() == 3
    &&& e[0] == 'f' || e[0] == 'F'
    &&& e[1] == 'b' || e[1] == 'B'
    &&& e[2] == 'x' || e[2] == 'X'
}

/// The format of a file with extension `ext`: FBX for `fbx` in any ASCII
/// case, glTF for anything else (no extension included).
pub fn format_for_extension(ext: &str) -> (f: ModelFormat)
    ensures
        f == (if is_fbx_extension(ext@) { ModelFormat::Fbx } else { ModelFormat::Gltf }),
{
    if ext.unicode_len() != 3 {
        return ModelFormat::Gltf;
    }
    let a = ext.get_char(0);
    let b = ext.get_char(1);
    let c = ext.get_char(2);
    if (a == 'f' || a == 'F') && (b == 'b' || b == 'B') && (c == 'x' || c == 'X') {
        ModelFormat::Fbx
    } else {
        ModelFormat::Gltf
    }
}

/// The part of `p` after its last `/`.
pub open spec fn last_component(p: Seq<char>) -> Seq<char>
    decreases p.len(),
{
    if p.len() == 0 {
        Seq::empty()
    } else if p.last() == '/' {
        Seq::empty()
    } else {
        last_component(p.drop_last()).push(p.last())
    }
}

/// What follows the last `.` of `n`, if `n` has a `.`.
pub open spec fn after_last_dot(n: Seq<char>) -> Option<Seq<char>>
    decreases n.len(),
{
    if n.len() == 0 {
        None
    } else if n.last() == '.' {
        Some(Seq::empty())
    } else {
        match after_last_dot(n.drop_last()) {
            Some(s) => Some(s.push(n.last())),
            None => None,
        }
    }
}

/// The extension of a file name: what follows its last `.`, where that `.`
/// is not its first character; else empty.
pub open spec fn name_extension(n: Seq<char>) -> Seq<char> {
    match after_last_dot(n) {
        Some(s) => if s.len() + 1 < n.len() { s } else { Seq::empty() },
        None => Seq::empty(),
    }
}

/// `p` without the `/`s at its end.
pub open spec fn trim_trailing_slashes(p: Seq<char>) -> Seq<char>
    decreases p.len(),
{
    if p.len() > 0 && p.last() == '/' {
        trim_trailing_slashes(p.drop_last())
    } else {
        p
    }
}

/// The last component of `p`, trailing `/`s aside.
pub open spec fn final_component(p: Seq<char>) -> Seq<char> {
    last_component(trim_trailing_slashes(p))
}

/// A path that every platform splits alike: no `\`, no `:`, not starting
/// with `//`, and, trailing `/`s aside, ending in a component other than
/// `.`, so that its file name is that final component (none where it is
/// `..`).
pub open spec fn plain_path(p: Seq<char>) -> bool {
    &&& !p.contains('\\')
    &&& !p.contains(':')
    &&& !(p.len() >= 2 && p[0] == '/' && p[1] == '/')
    &&& final_component(p).len() > 0
    &&& final_component(p) != seq!['.']
}

/// A path separator on some platform.
pub open spec fn is_separator(c: char) -> bool {
    c == '/' || c == '\\'
}

/// `p` ends in `c.e`, where `e` holds no `.` and no separator and `c` is no
/// separator and no `:`, and `p` does not start with two separators (the
/// start of a Windows network, device or verbatim prefix). The file name of
/// such a path ends in `c.e` on every platform, so its extension is `e`.
pub open spec fn ends_with_extension(p: Seq<char>, e: Seq<char>) -> bool {
    let n = p.len();
    &&& n >= e.len() + 2
    &&& p.subrange(n - e.len(), n as int) == e
    &&& p[n - e.len() - 1] == '.'
    &&& !is_separator(p[n - e.len() - 2])
    &&& p[n - e.len() - 2] != ':'
    &&& !e.contains('.')
    &&& !e.contains('/')
    &&& !e.contains('\\')
    &&& !(is_separator(p[0]) && is_separator(p[1]))
}

/// `Path::extension` from std, as a string: what follows the last `.` of
/// the path's file name, or the empty string where the path has no
/// extension or it is not valid UTF-8.
///
/// How a path splits into components depends on the platform; this states
/// that a nonempty extension holds no `.` and stands in the path right after
/// a `.`; that for a path that all platforms split alike (`plain_path`) the
/// extension is that of the path's final component, trailing `/`s aside; and that a path ending
/// in `c.e` as `ends_with_extension` describes has extension `e`.
#[verifier::external_body]
fn path_extension(path: &str) -> (ext: String)
    ensures
        plain_path(path@) ==> ext@ == name_extension(final_component(path@)),
        forall|e: Seq<char>| #[trigger] ends_with_extension(path@, e) ==> ext@ == e,
        ext@.len() == 0 || (!ext@.contains('.') && exists|k: int|
            0 <= k && k + 1 + ext@.len() <= path@.len() && #[trigger] path@.subrange(k, k + 1 + ext@.len())
                == seq!['.'] + ext@),
{
    match std::path::Path::new(path).extension() {
        Some(e) => match e.to_str() {
            Some(s) => s.to_string(),
            None => String::new(),
        },
        None => String::new(),
    }
}

/// The format of the model file at `path`, by its extension: FBX for an
/// `.fbx` file (in any ASCII case), glTF otherwise.
pub fn model_format(path: &str) -> (f: ModelFormat)
    ensures
        plain_path(path@) ==> f == (if is_fbx_extension(name_extension(final_component(path@))) {
            ModelFormat::Fbx
        } else {
            ModelFormat::Gltf
        }),
        forall|e: Seq<char>|
            #[trigger] ends_with_extension(path@, e) ==> f == (if is_fbx_extension(e) {
                ModelFormat::Fbx
            } else {
                ModelFormat::Gltf
            }),
        !path@.contains('.') ==> f == ModelFormat::Gltf,
        f == ModelFormat::Fbx ==> exists|k: int|
            0 <= k && k + 4 <= path@.len() && path@[k] == '.' && #[trigger] is_fbx_extension(
                path@.subrange(k + 1, k + 4),
            ),
{
    let ext = path_extension(path);
    let f = format_for_extension(ext.as_str());
    proof {
        if ext@.len() != 0 {
            let k = choose|k: int|
                0 <= k && k + 1 + ext@.len() <= path@.len() && #[trigger] path@.subrange(k, k + 1 + ext@.len())
                    == seq!['.'] + ext@;
            assert(path@[k] == path@.subrange(k, k + 1 + ext@.len())[0]);
        }
        if f == ModelFormat::Fbx {
            let k = choose|k: int|
                0 <= k && k + 1 + ext@.len() <= path@.len() && #[trigger] path@.subrange(k, k + 1 + ext@.len())
                    == seq!['.'] + ext@;
            let sub = path@.subrange(k, k + 4);
            assert(sub == seq!['.'] + ext@);
            assert(path@[k] == sub[0]);
            assert(path@.subrange(k + 1, k + 4) =~= ext@) by {
                assert forall|i: int| 0 <= i < 3 implies path@.subrange(k + 1, k + 4)[i] == ext@[i] by {
                    assert(sub[i + 1] == ext@[i]);
                }
            }
        }
    }
    f
}

} // verus!
