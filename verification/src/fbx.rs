//! Turning the polygons and material assignments of FBX meshes into indexed
//! triangle primitives, one per material, and the mesh list that describes
//! them.
//!
//! The FBX document itself is read elsewhere; this module sees of it only
//! integers: material object ids, polygon vertex indices and, per triangle,
//! the material slot that the mesh's material layer gives it.

use std::collections::HashMap;
use vstd::prelude::*;

use crate::mesh::{
    lemma_find_mesh, lemma_offset_bounded, lemma_offset_monotone, name_or, name_or_default, primitive_offset, MeshInfo,
    MeshPrimInfo,
};
use crate::text::{decimal, numbered};

verus! {

broadcast use vstd::std_specs::hash::group_hash_axioms;

/// The fan of triangles that splits a convex polygon: `(p0, p[i], p[i+1])`
/// for each `i` from 1 to `len - 2`. A polygon of fewer than three corners
/// gives no triangle.
pub open spec fn fan(poly: Seq<usize>) -> Seq<(usize, usize, usize)> {
    if poly.len() < 3 {
        Seq::empty()
    } else {
        Seq::new((poly.len() - 2) as nat, |i: int| (poly[0], poly[i + 1], poly[i + 2]))
    }
}

/// A polygon of `n >= 3` corners splits into exactly `n - 2` triangles,
/// triangle `k` being `(p0, p[k+1], p[k+2])`; one of fewer corners into none.
pub proof fn lemma_fan(poly: Seq<usize>)
    ensures
        fan(poly).len() == (if poly.len() >= 3 { poly.len() - 2 } else { 0int }),
        forall|k: int| 0 <= k < poly.len() - 2 ==> #[trigger] fan(poly)[k] == (poly[0], poly[k + 1], poly[k + 2]),
{
}

/// Splits one polygon into a fan of triangles around its first corner and
/// appends them to `out`.
pub fn triangulator(poly: &[usize], out: &mut Vec<(usize, usize, usize)>)
    ensures
        final(out)@ == old(out)@ + fan(poly@),
        final(out)@.len() == old(out)@.len() + (if poly@.len() >= 3 { poly@.len() - 2 } else { 0int }),
        final(out)@.take(old(out)@.len() as int) == old(out)@,
        forall|k: int|
            0 <= k < poly@.len() - 2 ==> #[trigger] final(out)@[old(out)@.len() + k] == (poly@[0], poly@[k + 1], poly@[k + 2]),
{
    proof {
        lemma_fan(poly@);
    }
    if poly.len() < 3 {
        assert(old(out)@ + fan(poly@) =~= old(out)@);
        return;
    }
    let ghost start = out@;
    let mut i: usize = 1;
    while i < poly.len() - 1
        invariant
            poly@.len() >= 3,
            1 <= i <= poly@.len() - 1,
            out@ == start + fan(poly@).take(i - 1),
        decreases poly.len() - 1 - i,
    {
        out.push((poly[0], poly[i], poly[i + 1]));
        i += 1;
        assert(fan(poly@).take(i - 1) =~= fan(poly@).take(i - 2).push(fan(poly@)[i - 2]));
    }
    assert(fan(poly@).take(i - 1) =~= fan(poly@));
}

/// The global index of each material object: the position of its last
/// occurrence in `ids`, the material objects of the document in order.
pub open spec fn material_positions(ids: Seq<i64>) -> Map<i64, usize>
    decreases ids.len(),
{
    if ids.len() == 0 {
        Map::empty()
    } else {
        material_positions(ids.drop_last()).insert(ids.last(), (ids.len() - 1) as usize)
    }
}

/// Numbers the material objects of a document in the order in which they
/// come: the `k`-th material object gets global material index `k`.
pub fn build_material_index(material_ids: &Vec<i64>) -> (map: HashMap<i64, usize>)
    ensures
        map@ == material_positions(material_ids@),
{
    let mut map: HashMap<i64, usize> = HashMap::new();
    let mut idx: usize = 0;
    while idx < material_ids.len()
        invariant
            idx <= material_ids@.len(),
            map@ == material_positions(material_ids@.take(idx as int)),
        decreases material_ids.len() - idx,
    {
        map.insert(material_ids[idx], idx);
        idx += 1;
        assert(material_ids@.take(idx as int).drop_last() =~= material_ids@.take(idx - 1));
    }
    assert(material_ids@.take(idx as int) =~= material_ids@);
    map
}

/// The global material index of a material object id: its position, or 0
/// for an id that is no material object of the document.
pub open spec fn global_material(positions: Map<i64, usize>, id: i64) -> usize {
    if positions.contains_key(id) { positions[id] } else { 0 }
}

/// Maps each material slot of a mesh (given by the material object's id) to
/// the global index of that material, 0 where the id is not a known
/// material.
pub fn material_slots(mesh_material_ids: &Vec<i64>, index: &HashMap<i64, usize>) -> (slots: Vec<usize>)
    ensures
        slots@.len() == mesh_material_ids@.len(),
        forall|k: int|
            0 <= k < slots@.len() ==> slots@[k] == global_material(index@, #[trigger] mesh_material_ids@[k]),
{
    let mut slots: Vec<usize> = Vec::new();
    let mut k: usize = 0;
    while k < mesh_material_ids.len()
        invariant
            k <= mesh_material_ids@.len(),
            slots@.len() == k,
            forall|j: int|
                0 <= j < k ==> slots@[j] == global_material(index@, #[trigger] mesh_material_ids@[j]),
        decreases mesh_material_ids.len() - k,
    {
        let id = mesh_material_ids[k];
        let g = match index.get(&id) {
            Some(g) => *g,
            None => 0,
        };
        slots.push(g);
        k += 1;
    }
    slots
}


/// The global material of triangle `t` of a mesh. A mesh without material
/// slots has none; one without a material layer uses its first slot; else
/// the layer's slot for the triangle picks it, and a slot that the layer
/// could not give, or that the mesh does not have, leaves it without one.
pub open spec fn triangle_material(slots: Seq<usize>, layer: Option<Seq<Option<u32>>>, t: int) -> Option<usize> {
    if slots.len() == 0 {
        None
    } else {
        match layer {
            None => Some(slots[0]),
            Some(l) => match l[t] {
                Some(m) => if (m as int) < slots.len() { Some(slots[m as int]) } else { None },
                None => None,
            },
        }
    }
}

/// The global material of each triangle of a mesh, see `triangle_material`.
pub fn triangle_materials(
    slots: &Vec<usize>,
    layer: &Option<Vec<Option<u32>>>,
    triangle_count: usize,
) -> (keys: Vec<Option<usize>>)
    requires
        layer matches Some(l) ==> l@.len() == triangle_count,
    ensures
        keys@.len() == triangle_count,
        forall|t: int|
            0 <= t < triangle_count ==> #[trigger] keys@[t] == triangle_material(
                slots@,
                match layer { Some(l) => Some(l@), None => None },
                t,
            ),
{
    let ghost layer_view = match layer { Some(l) => Some(l@), None => None };
    let mut keys: Vec<Option<usize>> = Vec::new();
    let mut t: usize = 0;
    while t < triangle_count
        invariant
            t <= triangle_count,
            keys@.len() == t,
            layer matches Some(l) ==> l@.len() == triangle_count,
            layer_view == match layer { Some(l) => Some(l@), None => None },
            forall|j: int| 0 <= j < t ==> #[trigger] keys@[j] == triangle_material(slots@, layer_view, j),
        decreases triangle_count - t,
    {
        let key = if slots.len() == 0 {
            None
        } else {
            match layer {
                None => Some(slots[0]),
                Some(l) => match l[t] {
                    Some(m) => {
                        if (m as usize) < slots.len() {
                            Some(slots[m as usize])
                        } else {
                            None
                        }
                    },
                    None => None,
                },
            }
        };
        keys.push(key);
        t += 1;
    }
    keys
}

/// The position of a material key in the order of the primitives: by
/// material index, the primitive without a material last.
pub open spec fn key_rank(k: Option<usize>) -> int {
    match k {
        Some(v) => v as int,
        None => usize::MAX as int + 1,
    }
}

/// Whether `a` comes before `b` in the order of the primitives.
fn key_before(a: Option<usize>, b: Option<usize>) -> (r: bool)
    ensures
        r == (key_rank(a) < key_rank(b)),
{
    match (a, b) {
        (Some(x), Some(y)) => x < y,
        (Some(_), None) => true,
        (None, _) => false,
    }
}

/// The vertex numbers of the corners of the triangles among the first
/// `keys.len()` whose material is `k`, in order: triangle `t` owns the
/// vertices `3t`, `3t + 1` and `3t + 2`.
pub open spec fn corner_indices(keys: Seq<Option<usize>>, k: Option<usize>) -> Seq<u32>
    decreases keys.len(),
{
    if keys.len() == 0 {
        Seq::empty()
    } else {
        let t = keys.len() - 1;
        let rest = corner_indices(keys.drop_last(), k);
        if keys.last() == k {
            rest + seq![(3 * t) as u32, (3 * t + 1) as u32, (3 * t + 2) as u32]
        } else {
            rest
        }
    }
}

/// The triangles of one material, as the vertex numbers of their corners.
pub struct MaterialGroup {
    pub material: Option<usize>,
    pub corners: Vec<u32>,
}

/// `keys` holds each of its values once, in the order of the primitives.
pub open spec fn strictly_ordered(keys: Seq<Option<usize>>) -> bool {
    forall|i: int, j: int| 0 <= i < j < keys.len() ==> key_rank(keys[i]) < key_rank(keys[j])
}

/// The number under which the triangles of material `k` are gathered: its
/// position in the order of the primitives.
pub open spec fn group_code(k: Option<usize>) -> u128 {
    key_rank(k) as u128
}

/// Two materials are gathered under one number only if they are the same.
proof fn lemma_group_code_injective(a: Option<usize>, b: Option<usize>)
    ensures
        (group_code(a) == group_code(b)) == (a == b),
{
    assert(0 <= key_rank(a) <= usize::MAX as int + 1);
    assert(0 <= key_rank(b) <= usize::MAX as int + 1);
    assert(group_code(a) as int == key_rank(a));
    assert(group_code(b) as int == key_rank(b));
}

/// `m` holds, under the number of material `k`, the corners of the
/// triangles of `seen` whose material is `k`.
spec fn gathered(m: Map<u128, Vec<u32>>, seen: Seq<Option<usize>>, k: Option<usize>) -> bool {
    m.contains_key(group_code(k)) && m[group_code(k)]@ == corner_indices(seen, k)
}

/// Computes `group_code`.
fn key_code(k: Option<usize>) -> (c: u128)
    ensures
        c == group_code(k),
{
    match k {
        Some(v) => v as u128,
        None => usize::MAX as u128 + 1,
    }
}

/// Puts a material that an ordered list of distinct materials lacks into
/// its place in the list.
fn insert_key(keys: &mut Vec<Option<usize>>, k: Option<usize>)
    requires
        strictly_ordered(old(keys)@),
        !old(keys)@.contains(k),
    ensures
        strictly_ordered(final(keys)@),
        forall|x: Option<usize>| #[trigger] final(keys)@.contains(x) <==> old(keys)@.contains(x) || x == k,
{
    let mut p: usize = 0;
    while p < keys.len() && key_before(keys[p], k)
        invariant
            p <= keys@.len(),
            forall|i: int| 0 <= i < p ==> key_rank(#[trigger] keys@[i]) < key_rank(k),
        decreases keys.len() - p,
    {
        p += 1;
    }
    let ghost old_keys = keys@;
    keys.insert(p, k);
    proof {
        if p < old_keys.len() {
            assert(key_rank(k) <= key_rank(old_keys[p as int]));
            assert(old_keys[p as int] != k);
        }
        assert forall|i: int, j: int| 0 <= i < j < keys@.len() implies key_rank(keys@[i]) < key_rank(keys@[j]) by {
            if i < p {
                assert(keys@[i] == old_keys[i]);
            } else if i > p {
                assert(keys@[i] == old_keys[i - 1]);
            }
            if j < p {
                assert(keys@[j] == old_keys[j]);
            } else if j > p {
                assert(keys@[j] == old_keys[j - 1]);
                if j - 1 > p {
                    assert(key_rank(old_keys[p as int]) < key_rank(old_keys[j - 1]));
                }
            }
        }
        assert forall|x: Option<usize>| #[trigger] keys@.contains(x) <==> old_keys.contains(x) || x == k by {
            if keys@.contains(x) {
                let q = choose|q: int| 0 <= q < keys@.len() && keys@[q] == x;
                if q < p {
                    assert(old_keys[q] == x);
                } else if q > p {
                    assert(old_keys[q - 1] == x);
                }
            }
            if old_keys.contains(x) {
                let q = choose|q: int| 0 <= q < old_keys.len() && old_keys[q] == x;
                if q < p {
                    assert(keys@[q] == x);
                } else {
                    assert(keys@[q + 1] == x);
                }
            }
            if x == k {
                assert(keys@[p as int] == k);
            }
        }
    }
}

/// A material that none of the triangles has owns no corners.
proof fn lemma_corners_of_absent(keys: Seq<Option<usize>>, k: Option<usize>)
    requires
        !keys.contains(k),
    ensures
        corner_indices(keys, k) == Seq::<u32>::empty(),
{
    lemma_corner_len(keys, k);
    lemma_count_absent(keys, k);
}

/// Groups the triangles of a mesh by their material: one group per distinct
/// material, in the order of the primitives (by material index, the group
/// without a material last), each holding the corners of its triangles in
/// the order of the triangles. The triangles are gathered in a map keyed by
/// the material's position in that order.
pub fn group_by_material(tri_keys: &Vec<Option<usize>>) -> (groups: Vec<MaterialGroup>)
    requires
        3 * tri_keys@.len() <= u32::MAX as int + 1,
    ensures
        forall|i: int, j: int|
            0 <= i < j < groups@.len() ==> key_rank(groups@[i].material) < key_rank(groups@[j].material),
        forall|i: int| 0 <= i < groups@.len() ==> tri_keys@.contains(#[trigger] groups@[i].material),
        forall|k: Option<usize>|
            tri_keys@.contains(k) ==> exists|i: int| 0 <= i < groups@.len() && #[trigger] groups@[i].material == k,
        forall|i: int|
            0 <= i < groups@.len() ==> #[trigger] groups@[i].corners@ == corner_indices(tri_keys@, groups@[i].material),
{
    let mut map: HashMap<u128, Vec<u32>> = HashMap::new();
    let mut keys: Vec<Option<usize>> = Vec::new();
    let mut t: usize = 0;
    while t < tri_keys.len()
        invariant
            t <= tri_keys@.len(),
            3 * tri_keys@.len() <= u32::MAX as int + 1,
            strictly_ordered(keys@),
            forall|i: int| 0 <= i < keys@.len() ==> tri_keys@.take(t as int).contains(#[trigger] keys@[i]),
            forall|j: int| 0 <= j < t ==> keys@.contains(#[trigger] tri_keys@[j]),
            forall|r: u128|
                #[trigger] map@.contains_key(r) ==> exists|i: int|
                    0 <= i < keys@.len() && group_code(#[trigger] keys@[i]) == r,
            forall|i: int| 0 <= i < keys@.len() ==> #[trigger] gathered(map@, tri_keys@.take(t as int), keys@[i]),
        decreases tri_keys.len() - t,
    {
        let k = tri_keys[t];
        let code = key_code(k);
        let ghost old_keys = keys@;
        let ghost old_map = map@;
        let ghost before = tri_keys@.take(t as int);
        let ghost after = tri_keys@.take(t + 1);
        assert(after.drop_last() =~= before);
        assert(after.last() == k);
        let mut corners = match map.remove(&code) {
            Some(c) => {
                proof {
                    let i = choose|i: int| 0 <= i < old_keys.len() && group_code(#[trigger] old_keys[i]) == code;
                    lemma_group_code_injective(old_keys[i], k);
                    assert(old_keys.contains(k));
                    let q = choose|q: int| 0 <= q < old_keys.len() && old_keys[q] == k;
                    assert(gathered(old_map, before, old_keys[q]));
                    assert(c@ == corner_indices(before, k));
                }
                c
            },
            None => {
                proof {
                    if old_keys.contains(k) {
                        let q = choose|q: int| 0 <= q < old_keys.len() && old_keys[q] == k;
                        assert(gathered(old_map, before, old_keys[q]));
                    }
                    assert(!before.contains(k)) by {
                        if before.contains(k) {
                            let j = choose|j: int| 0 <= j < before.len() && before[j] == k;
                            assert(tri_keys@[j] == k);
                            assert(old_keys.contains(tri_keys@[j]));
                        }
                    }
                    lemma_corners_of_absent(before, k);
                }
                insert_key(&mut keys, k);
                Vec::new()
            },
        };
        let ghost mid_map = map@;
        proof {
            assert(mid_map == old_map.remove(code));
            assert(corners@ == corner_indices(before, k));
            assert(forall|x: Option<usize>| #[trigger] keys@.contains(x) <==> old_keys.contains(x) || x == k);
        }
        let base = (3 * t) as u32;
        corners.push(base);
        corners.push(base + 1);
        corners.push(base + 2);
        map.insert(code, corners);
        proof {
            assert(map@ == mid_map.insert(code, corners));
            assert(map@[code]@ =~= corner_indices(after, k));
            assert forall|i: int| 0 <= i < keys@.len() implies after.contains(#[trigger] keys@[i]) by {
                let x = keys@[i];
                assert(keys@.contains(x));
                if x == k {
                    assert(after[t as int] == k);
                } else {
                    assert(old_keys.contains(x));
                    let q = choose|q: int| 0 <= q < old_keys.len() && old_keys[q] == x;
                    assert(before.contains(old_keys[q]));
                    let j = choose|j: int| 0 <= j < before.len() && before[j] == x;
                    assert(after[j] == x);
                }
            }
            assert forall|j: int| 0 <= j < t + 1 implies keys@.contains(#[trigger] tri_keys@[j]) by {
                if j < t {
                    assert(old_keys.contains(tri_keys@[j]));
                }
            }
            assert forall|r: u128| #[trigger] map@.contains_key(r) implies exists|i: int|
                0 <= i < keys@.len() && group_code(#[trigger] keys@[i]) == r by {
                if r == code {
                    assert(keys@.contains(k));
                    let i = choose|i: int| 0 <= i < keys@.len() && keys@[i] == k;
                    assert(group_code(keys@[i]) == r);
                } else {
                    assert(old_map.contains_key(r));
                    let q = choose|q: int| 0 <= q < old_keys.len() && group_code(#[trigger] old_keys[q]) == r;
                    assert(keys@.contains(old_keys[q]));
                    let i = choose|i: int| 0 <= i < keys@.len() && keys@[i] == old_keys[q];
                    assert(group_code(keys@[i]) == r);
                }
            }
            assert forall|i: int| 0 <= i < keys@.len() implies #[trigger] gathered(map@, after, keys@[i]) by {
                let x = keys@[i];
                assert(keys@.contains(x));
                if x != k {
                    lemma_group_code_injective(x, k);
                    assert(old_keys.contains(x));
                    let q = choose|q: int| 0 <= q < old_keys.len() && old_keys[q] == x;
                    assert(gathered(old_map, before, old_keys[q]));
                    assert(map@[group_code(x)] == old_map[group_code(x)]);
                    assert(corner_indices(after, x) == corner_indices(before, x));
                } else {
                    assert(group_code(x) == code);
                }
            }
        }
        t += 1;
        assert(tri_keys@.take(t as int) == after);
    }
    assert(tri_keys@.take(t as int) =~= tri_keys@);
    let mut groups: Vec<MaterialGroup> = Vec::new();
    let mut g: usize = 0;
    while g < keys.len()
        invariant
            g <= keys@.len(),
            groups@.len() == g,
            strictly_ordered(keys@),
            forall|i: int| g <= i < keys@.len() ==> #[trigger] gathered(map@, tri_keys@, keys@[i]),
            forall|i: int| 0 <= i < g ==> #[trigger] groups@[i].material == keys@[i],
            forall|i: int|
                0 <= i < g ==> #[trigger] groups@[i].corners@ == corner_indices(tri_keys@, groups@[i].material),
        decreases keys.len() - g,
    {
        let k = keys[g];
        let code = key_code(k);
        let ghost old_map = map@;
        assert(gathered(old_map, tri_keys@, keys@[g as int]));
        let corners = match map.remove(&code) {
            Some(c) => c,
            None => Vec::new(),
        };
        proof {
            assert(map@ == old_map.remove(code));
        }
        groups.push(MaterialGroup { material: k, corners });
        proof {
            assert forall|i: int| g + 1 <= i < keys@.len() implies #[trigger] gathered(map@, tri_keys@, keys@[i]) by {
                assert(key_rank(keys@[g as int]) < key_rank(keys@[i]));
                lemma_group_code_injective(keys@[g as int], keys@[i]);
                assert(gathered(old_map, tri_keys@, keys@[i]));
            }
        }
        g += 1;
    }
    assert forall|k: Option<usize>| tri_keys@.contains(k) implies exists|i: int|
        0 <= i < groups@.len() && #[trigger] groups@[i].material == k by {
        let j = choose|j: int| 0 <= j < tri_keys@.len() && tri_keys@[j] == k;
        assert(keys@.contains(tri_keys@[j]));
        let i = choose|i: int| 0 <= i < keys@.len() && keys@[i] == k;
        assert(groups@[i].material == k);
    }
    assert forall|i: int, j: int| 0 <= i < j < groups@.len() implies key_rank(groups@[i].material) < key_rank(
        groups@[j].material,
    ) by {
        assert(groups@[i].material == keys@[i]);
        assert(groups@[j].material == keys@[j]);
    }
    assert forall|i: int| 0 <= i < groups@.len() implies tri_keys@.contains(#[trigger] groups@[i].material) by {
        assert(groups@[i].material == keys@[i]);
        assert(tri_keys@.take(t as int).contains(keys@[i]));
    }
    groups
}

/// The values of `s` in the order of their first occurrence, each once.
pub open spec fn first_occurrences(s: Seq<u32>) -> Seq<u32>
    decreases s.len(),
{
    if s.len() == 0 {
        Seq::empty()
    } else {
        let before = first_occurrences(s.drop_last());
        if before.contains(s.last()) { before } else { before.push(s.last()) }
    }
}

/// Rebuilds an index list over a compact vertex list. Returns the source
/// vertices, each vertex of `indices` once in the order of its first use,
/// and the new index list, which draws the same vertices in the same order:
/// `sources[new_indices[k]] == indices[k]` for every `k`.
pub fn compact_indices(indices: &Vec<u32>) -> (res: (Vec<u32>, Vec<u32>))
    requires
        indices@.len() <= u32::MAX,
    ensures
        res.0@ == first_occurrences(indices@),
        res.0@.no_duplicates(),
        res.1@.len() == indices@.len(),
        forall|k: int|
            0 <= k < indices@.len() ==> #[trigger] res.1@[k] < res.0@.len() && res.0@[res.1@[k] as int]
                == indices@[k],
{
    let mut remap: HashMap<u32, u32> = HashMap::new();
    let mut sources: Vec<u32> = Vec::with_capacity(indices.len());
    let mut new_indices: Vec<u32> = Vec::with_capacity(indices.len());
    let mut k: usize = 0;
    while k < indices.len()
        invariant
            k <= indices@.len(),
            indices@.len() <= u32::MAX,
            sources@ == first_occurrences(indices@.take(k as int)),
            sources@.len() <= k,
            sources@.no_duplicates(),
            forall|v: u32| #[trigger] remap@.contains_key(v) <==> sources@.contains(v),
            forall|v: u32|
                #[trigger] remap@.contains_key(v) ==> remap@[v] < sources@.len() && sources@[remap@[v] as int] == v,
            new_indices@.len() == k,
            forall|j: int|
                0 <= j < k ==> #[trigger] new_indices@[j] < sources@.len() && sources@[new_indices@[j] as int]
                    == indices@[j],
        decreases indices.len() - k,
    {
        let old = indices[k];
        assert(indices@.take(k + 1).drop_last() =~= indices@.take(k as int));
        let ghost before = sources@;
        let idx = match remap.get(&old) {
            Some(i) => *i,
            None => {
                let i = sources.len() as u32;
                sources.push(old);
                remap.insert(old, i);
                assert forall|a: int, b: int| 0 <= a < b < sources@.len() implies sources@[a] != sources@[b] by {
                    if b == before.len() {
                        assert(before[a] == sources@[a]);
                    }
                }
                assert forall|v: u32| #[trigger] remap@.contains_key(v) <==> sources@.contains(v) by {
                    if v == old {
                        assert(sources@[before.len() as int] == old);
                    } else if before.contains(v) {
                        let q = choose|q: int| 0 <= q < before.len() && before[q] == v;
                        assert(sources@[q] == v);
                    } else if sources@.contains(v) {
                        let q = choose|q: int| 0 <= q < sources@.len() && sources@[q] == v;
                        assert(q < before.len());
                        assert(before[q] == v);
                    }
                }
                i
            },
        };
        new_indices.push(idx);
        k += 1;
    }
    assert(indices@.take(k as int) =~= indices@);
    (sources, new_indices)
}


/// The corners of one material's triangles number at most three per
/// triangle.
proof fn lemma_corner_count(keys: Seq<Option<usize>>, k: Option<usize>)
    ensures
        corner_indices(keys, k).len() <= 3 * keys.len(),
    decreases keys.len(),
{
    if keys.len() > 0 {
        lemma_corner_count(keys.drop_last(), k);
    }
}

/// What a layer element entry of an FBX geometry holds, as far as building
/// the primitives reads it.
#[derive(PartialEq, Eq, Structural, Clone, Copy, Debug)]
pub enum LayerKind {
    Normal,
    Uv,
    Material,
    /// An entry of another kind, or one whose kind could not be read.
    Other,
}

/// One layer element entry of a geometry: its kind, and whether its data
/// (the normals, the UVs or the material indices) could be read.
#[derive(Clone, Copy, Debug)]
pub struct LayerEntry {
    pub kind: LayerKind,
    pub usable: bool,
}

/// The entries whose data a mesh takes, by position in the geometry's
/// entries (layer by layer, in order): at most one of each kind.
#[derive(Clone, Copy, Debug)]
pub struct LayerChoice {
    pub normals: Option<usize>,
    pub uvs: Option<usize>,
    pub materials: Option<usize>,
}

/// Entry `i` is of `kind` and its data could be read.
pub open spec fn serves(entries: Seq<LayerEntry>, kind: LayerKind, i: int) -> bool {
    entries[i].kind == kind && entries[i].usable
}

/// `r` is the first entry of `kind` whose data could be read, or `None`
/// where there is none.
pub open spec fn is_first_serving(entries: Seq<LayerEntry>, kind: LayerKind, r: Option<usize>) -> bool {
    match r {
        Some(i) => i < entries.len() && serves(entries, kind, i as int) && forall|j: int|
            0 <= j < i ==> !#[trigger] serves(entries, kind, j),
        None => forall|j: int| 0 <= j < entries.len() ==> !#[trigger] serves(entries, kind, j),
    }
}

/// The first entry of `kind` whose data could be read.
fn first_serving(entries: &Vec<LayerEntry>, kind: LayerKind) -> (r: Option<usize>)
    ensures
        is_first_serving(entries@, kind, r),
{
    let mut i: usize = 0;
    while i < entries.len()
        invariant
            i <= entries@.len(),
            forall|j: int| 0 <= j < i ==> !#[trigger] serves(entries@, kind, j),
        decreases entries.len() - i,
    {
        let e = entries[i];
        if e.usable && e.kind == kind {
            return Some(i);
        }
        i += 1;
    }
    None
}

/// Picks the layers of a geometry that a mesh reads: of each of the normals,
/// the UVs and the material indices, the first entry whose data could be
/// read; an entry whose data could not be read is passed over for a later
/// one of its kind.
pub fn choose_layers(entries: &Vec<LayerEntry>) -> (choice: LayerChoice)
    ensures
        is_first_serving(entries@, LayerKind::Normal, choice.normals),
        is_first_serving(entries@, LayerKind::Uv, choice.uvs),
        is_first_serving(entries@, LayerKind::Material, choice.materials),
{
    LayerChoice {
        normals: first_serving(entries, LayerKind::Normal),
        uvs: first_serving(entries, LayerKind::Uv),
        materials: first_serving(entries, LayerKind::Material),
    }
}

/// A mesh of an FBX document, as far as building its primitives needs it.
pub struct FbxMesh {
    pub name: Option<String>,
    /// The object ids of the mesh's materials, in slot order.
    pub material_ids: Vec<i64>,
    /// The number of triangles after triangulation.
    pub triangle_count: usize,
    /// Per triangle, the material slot that the mesh's material layer gives
    /// it (`None` where the layer gives none); `None` for a mesh without a
    /// material layer.
    pub layer_materials: Option<Vec<Option<u32>>>,
}

impl FbxMesh {
    /// The layer has one entry per triangle, and the corners of the mesh can
    /// be numbered with `u32`.
    pub open spec fn well_formed(self) -> bool {
        &&& self.layer_materials matches Some(l) ==> l@.len() == self.triangle_count
        &&& 3 * self.triangle_count <= u32::MAX
    }
}

/// The indexed triangles of one material of a mesh. Vertex `v` of the
/// primitive is corner `vertices[v]` of the mesh (corner `3t + c` is corner
/// `c` of triangle `t`).
pub struct PrimitiveIndices {
    pub material: Option<usize>,
    pub vertices: Vec<u32>,
    pub indices: Vec<u32>,
}

/// The global material of each slot of a mesh.
pub open spec fn mesh_slots(mesh: FbxMesh, positions: Map<i64, usize>) -> Seq<usize> {
    mesh.material_ids@.map_values(|id: i64| global_material(positions, id))
}

/// The material layer of a mesh, by its view.
pub open spec fn layer_view(mesh: FbxMesh) -> Option<Seq<Option<u32>>> {
    match mesh.layer_materials {
        Some(l) => Some(l@),
        None => None,
    }
}

/// The global material of each triangle of a mesh.
pub open spec fn mesh_triangle_materials(mesh: FbxMesh, positions: Map<i64, usize>) -> Seq<Option<usize>> {
    Seq::new(
        mesh.triangle_count as nat,
        |t: int| triangle_material(mesh_slots(mesh, positions), layer_view(mesh), t),
    )
}

/// The name of the `j`-th primitive of a mesh: the name of its material
/// where that material has one, else `Primitive j`.
pub open spec fn fbx_primitive_name(material: Option<usize>, names: Seq<Option<String>>, j: int) -> Seq<char> {
    if material is Some && (material->0 as int) < names.len() && names[material->0 as int] is Some {
        names[material->0 as int]->0@
    } else {
        "Primitive "@ + decimal(j as nat)
    }
}

/// `info` describes `prim`, the `j`-th primitive of a mesh whose triangles
/// have the materials `keys`, with global index `global`.
pub open spec fn primitive_matches(
    keys: Seq<Option<usize>>,
    names: Seq<Option<String>>,
    info: MeshPrimInfo,
    prim: PrimitiveIndices,
    global: int,
    j: int,
) -> bool {
    let corners = corner_indices(keys, prim.material);
    &&& info.global_index == global
    &&& info.material == prim.material
    &&& keys.contains(prim.material)
    &&& prim.vertices@ == first_occurrences(corners)
    &&& prim.indices@.len() == corners.len()
    &&& forall|k: int|
        0 <= k < corners.len() ==> #[trigger] prim.indices@[k] < prim.vertices@.len()
            && prim.vertices@[prim.indices@[k] as int] == corners[k]
    &&& info.vertex_count == prim.vertices@.len()
    &&& info.triangle_count == prim.indices@.len() / 3
    &&& info.name@ == fbx_primitive_name(prim.material, names, j)
}

/// `info` and `prims` are what a mesh gives: one primitive per distinct
/// material of its triangles, in the order of the primitives, numbered from
/// `offset` on.
pub open spec fn mesh_collected(
    mesh: FbxMesh,
    positions: Map<i64, usize>,
    names: Seq<Option<String>>,
    info: MeshInfo,
    prims: Seq<PrimitiveIndices>,
    offset: int,
) -> bool {
    let keys = mesh_triangle_materials(mesh, positions);
    &&& info.name@ == name_or(mesh.name, "Mesh"@)
    &&& prims.len() == info.primitives@.len()
    &&& forall|j: int|
        #![trigger prims[j]]
        0 <= j < prims.len() ==> primitive_matches(keys, names, info.primitives@[j], prims[j], offset + j, j)
    &&& forall|i: int, j: int|
        0 <= i < j < prims.len() ==> key_rank(prims[i].material) < key_rank(prims[j].material)
    &&& forall|k: Option<usize>|
        keys.contains(k) ==> exists|j: int| 0 <= j < prims.len() && #[trigger] prims[j].material == k
}

/// The name of the `j`-th primitive of a mesh, see `fbx_primitive_name`.
fn primitive_name(material: Option<usize>, names: &Vec<Option<String>>, j: usize) -> (s: String)
    ensures
        s@ == fbx_primitive_name(material, names@, j as int),
{
    match material {
        Some(i) => {
            if i < names.len() {
                match &names[i] {
                    Some(n) => n.clone(),
                    None => numbered("Primitive ", j),
                }
            } else {
                numbered("Primitive ", j)
            }
        },
        None => numbered("Primitive ", j),
    }
}

/// Builds the primitives of one mesh, appends them to `primitives`, and
/// returns the mesh's entry for the mesh list.
fn collect_mesh(
    mesh: &FbxMesh,
    index: &HashMap<i64, usize>,
    material_names: &Vec<Option<String>>,
    primitives: &mut Vec<PrimitiveIndices>,
) -> (info: MeshInfo)
    requires
        mesh.well_formed(),
    ensures
        final(primitives)@.len() == old(primitives)@.len() + info.primitives@.len(),
        final(primitives)@.take(old(primitives)@.len() as int) == old(primitives)@,
        mesh_collected(
            *mesh,
            index@,
            material_names@,
            info,
            final(primitives)@.skip(old(primitives)@.len() as int),
            old(primitives)@.len() as int,
        ),
{
    let ghost start = primitives@;
    let ghost positions = index@;
    let slots = material_slots(&mesh.material_ids, index);
    let tri_keys = triangle_materials(&slots, &mesh.layer_materials, mesh.triangle_count);
    let ghost keys = mesh_triangle_materials(*mesh, positions);
    assert(slots@ =~= mesh_slots(*mesh, positions));
    assert(tri_keys@ =~= keys);
    let groups = group_by_material(&tri_keys);
    let mut infos: Vec<MeshPrimInfo> = Vec::new();
    let mut g: usize = 0;
    while g < groups.len()
        invariant
            g <= groups@.len(),
            tri_keys@ == keys,
            3 * keys.len() <= u32::MAX,
            infos@.len() == g,
            primitives@.len() == start.len() + g,
            primitives@.take(start.len() as int) == start,
            forall|i: int, j: int|
                0 <= i < j < groups@.len() ==> key_rank(groups@[i].material) < key_rank(groups@[j].material),
            forall|i: int| 0 <= i < groups@.len() ==> keys.contains(#[trigger] groups@[i].material),
            forall|i: int|
                0 <= i < groups@.len() ==> #[trigger] groups@[i].corners@ == corner_indices(keys, groups@[i].material),
            forall|j: int| 0 <= j < g ==> #[trigger] primitives@[start.len() + j].material == groups@[j].material,
            forall|j: int|
                #![trigger primitives@[start.len() + j]]
                0 <= j < g ==> primitive_matches(
                    keys,
                    material_names@,
                    infos@[j],
                    primitives@[start.len() + j],
                    start.len() + j,
                    j,
                ),
        decreases groups.len() - g,
    {
        let group = &groups[g];
        proof {
            lemma_corner_count(keys, group.material);
        }
        let (vertices, indices) = compact_indices(&group.corners);
        let name = primitive_name(group.material, material_names, g);
        let global = primitives.len();
        let vertex_count = vertices.len();
        let triangle_count = indices.len() / 3;
        infos.push(MeshPrimInfo { global_index: global, name, vertex_count, triangle_count, material: group.material });
        primitives.push(PrimitiveIndices { material: group.material, vertices, indices });
        proof {
            assert(primitives@.take(start.len() as int) =~= start);
            let p = primitives@[start.len() + g];
            assert(p.material == groups@[g as int].material);
            assert(primitive_matches(keys, material_names@, infos@[g as int], p, start.len() + g, g as int));
        }
        g += 1;
    }
    let name = name_or_default(&mesh.name, "Mesh");
    let info = MeshInfo { name, primitives: infos };
    proof {
        let prims = primitives@.skip(start.len() as int);
        assert forall|j: int| 0 <= j < prims.len() implies #[trigger] prims[j] == primitives@[start.len() + j] by {}
        assert forall|k: Option<usize>| keys.contains(k) implies exists|j: int|
            0 <= j < prims.len() && #[trigger] prims[j].material == k by {
            let i = choose|i: int| 0 <= i < groups@.len() && #[trigger] groups@[i].material == k;
            assert(prims[i] == primitives@[start.len() + i]);
        }
        assert forall|i: int, j: int| 0 <= i < j < prims.len() implies key_rank(prims[i].material) < key_rank(
            prims[j].material,
        ) by {
            assert(prims[i] == primitives@[start.len() + i]);
            assert(prims[j] == primitives@[start.len() + j]);
        }
        assert forall|j: int|
            #![trigger prims[j]]
            0 <= j < prims.len() implies primitive_matches(
            keys,
            material_names@,
            info.primitives@[j],
            prims[j],
            start.len() + j,
            j,
        ) by {
            assert(prims[j] == primitives@[start.len() + j]);
        }
    }
    info
}

/// Builds the primitives of all meshes of an FBX document, numbering them
/// across the meshes in order, and the mesh list that describes them.
/// `index` numbers the document's materials (see `build_material_index`)
/// and `material_names[i]` is the name of material `i`, if it has one.
pub fn collect_meshes(
    meshes: &Vec<FbxMesh>,
    index: &HashMap<i64, usize>,
    material_names: &Vec<Option<String>>,
) -> (res: (Vec<PrimitiveIndices>, Vec<MeshInfo>))
    requires
        forall|m: int| 0 <= m < meshes@.len() ==> #[trigger] meshes@[m].well_formed(),
    ensures
        res.1@.len() == meshes@.len(),
        res.0@.len() == primitive_offset(res.1@, res.1@.len() as int),
        forall|m: int|
            #![trigger res.1@[m]]
            0 <= m < meshes@.len() ==> mesh_collected(
                meshes@[m],
                index@,
                material_names@,
                res.1@[m],
                res.0@.subrange(
                    primitive_offset(res.1@, m),
                    primitive_offset(res.1@, m) + res.1@[m].primitives@.len(),
                ),
                primitive_offset(res.1@, m),
            ),
{
    let mut primitives: Vec<PrimitiveIndices> = Vec::new();
    let mut infos: Vec<MeshInfo> = Vec::new();
    let mut m: usize = 0;
    while m < meshes.len()
        invariant
            m <= meshes@.len(),
            infos@.len() == m,
            forall|k: int| 0 <= k < meshes@.len() ==> #[trigger] meshes@[k].well_formed(),
            primitives@.len() == primitive_offset(infos@, m as int),
            forall|k: int|
                #![trigger infos@[k]]
                0 <= k < m ==> mesh_collected(
                    meshes@[k],
                    index@,
                    material_names@,
                    infos@[k],
                    primitives@.subrange(
                        primitive_offset(infos@, k),
                        primitive_offset(infos@, k) + infos@[k].primitives@.len(),
                    ),
                    primitive_offset(infos@, k),
                ),
        decreases meshes.len() - m,
    {
        let ghost before = primitives@;
        let ghost infos_before = infos@;
        let info = collect_mesh(&meshes[m], index, material_names, &mut primitives);
        infos.push(info);
        proof {
            lemma_offsets_extend(infos_before, infos@);
            assert forall|k: int|
                #![trigger infos@[k]]
                0 <= k < m + 1 implies mesh_collected(
                meshes@[k],
                index@,
                material_names@,
                infos@[k],
                primitives@.subrange(
                    primitive_offset(infos@, k),
                    primitive_offset(infos@, k) + infos@[k].primitives@.len(),
                ),
                primitive_offset(infos@, k),
            ) by {
                if k < m {
                    assert(infos@[k] == infos_before[k]);
                    lemma_offset_bounded(infos_before, k);
                    assert(primitives@.subrange(
                        primitive_offset(infos@, k),
                        primitive_offset(infos@, k) + infos@[k].primitives@.len(),
                    ) =~= before.subrange(
                        primitive_offset(infos_before, k),
                        primitive_offset(infos_before, k) + infos_before[k].primitives@.len(),
                    ));
                } else {
                    assert(primitives@.subrange(
                        primitive_offset(infos@, k),
                        primitive_offset(infos@, k) + infos@[k].primitives@.len(),
                    ) =~= primitives@.skip(before.len() as int));
                }
            }
        }
        m += 1;
    }
    (primitives, infos)
}

/// The primitives that `collect_meshes` builds are numbered `0, 1, ...`
/// across the meshes, in the order of the primitive list: the primitive
/// with global index `g` is entry `g` of the list, and no two primitives of
/// the mesh list share a global index.
pub proof fn lemma_fbx_numbering(
    meshes: Seq<FbxMesh>,
    positions: Map<i64, usize>,
    names: Seq<Option<String>>,
    prims: Seq<PrimitiveIndices>,
    infos: Seq<MeshInfo>,
    g: int,
)
    requires
        infos.len() == meshes.len(),
        prims.len() == primitive_offset(infos, infos.len() as int),
        forall|m: int|
            #![trigger infos[m]]
            0 <= m < meshes.len() ==> mesh_collected(
                meshes[m],
                positions,
                names,
                infos[m],
                prims.subrange(primitive_offset(infos, m), primitive_offset(infos, m) + infos[m].primitives@.len()),
                primitive_offset(infos, m),
            ),
        0 <= g < prims.len(),
    ensures
        exists|m: int, j: int|
            0 <= m < infos.len() && 0 <= j < infos[m].primitives@.len() && #[trigger] infos[m].primitives@[j].global_index
                == g && infos[m].primitives@[j].material == prims[g].material,
        forall|m1: int, j1: int, m2: int, j2: int|
            0 <= m1 < infos.len() && 0 <= j1 < infos[m1].primitives@.len() && 0 <= m2 < infos.len() && 0 <= j2
                < infos[m2].primitives@.len() && #[trigger] infos[m1].primitives@[j1].global_index
                == #[trigger] infos[m2].primitives@[j2].global_index ==> m1 == m2 && j1 == j2,
{
    let m = lemma_find_mesh(infos, g, infos.len() as int);
    let j = g - primitive_offset(infos, m);
    let off = primitive_offset(infos, m);
    let sub = prims.subrange(off, off + infos[m].primitives@.len());
    assert(mesh_collected(meshes[m], positions, names, infos[m], sub, off));
    lemma_offset_bounded(infos, m);
    assert(sub[j] == prims[g]);
    assert(primitive_matches(
        mesh_triangle_materials(meshes[m], positions),
        names,
        infos[m].primitives@[j],
        sub[j],
        off + j,
        j,
    ));
    assert forall|m1: int, j1: int, m2: int, j2: int|
        0 <= m1 < infos.len() && 0 <= j1 < infos[m1].primitives@.len() && 0 <= m2 < infos.len() && 0 <= j2
            < infos[m2].primitives@.len() && #[trigger] infos[m1].primitives@[j1].global_index
            == #[trigger] infos[m2].primitives@[j2].global_index implies m1 == m2 && j1 == j2 by {
        lemma_global_index(meshes, positions, names, prims, infos, m1, j1);
        lemma_global_index(meshes, positions, names, prims, infos, m2, j2);
        if m1 < m2 {
            lemma_offset_monotone(infos, m1 + 1, m2);
        } else if m2 < m1 {
            lemma_offset_monotone(infos, m2 + 1, m1);
        }
    }
}

/// Primitive `j` of mesh `m` has global index `offset(m) + j`.
proof fn lemma_global_index(
    meshes: Seq<FbxMesh>,
    positions: Map<i64, usize>,
    names: Seq<Option<String>>,
    prims: Seq<PrimitiveIndices>,
    infos: Seq<MeshInfo>,
    m: int,
    j: int,
)
    requires
        infos.len() == meshes.len(),
        prims.len() == primitive_offset(infos, infos.len() as int),
        forall|k: int|
            #![trigger infos[k]]
            0 <= k < meshes.len() ==> mesh_collected(
                meshes[k],
                positions,
                names,
                infos[k],
                prims.subrange(primitive_offset(infos, k), primitive_offset(infos, k) + infos[k].primitives@.len()),
                primitive_offset(infos, k),
            ),
        0 <= m < infos.len(),
        0 <= j < infos[m].primitives@.len(),
    ensures
        infos[m].primitives@[j].global_index == primitive_offset(infos, m) + j,
{
    let off = primitive_offset(infos, m);
    let sub = prims.subrange(off, off + infos[m].primitives@.len());
    assert(mesh_collected(meshes[m], positions, names, infos[m], sub, off));
    lemma_offset_bounded(infos, m);
    assert(sub[j] == prims[off + j]);
    assert(primitive_matches(
        mesh_triangle_materials(meshes[m], positions),
        names,
        infos[m].primitives@[j],
        sub[j],
        off + j,
        j,
    ));
}

/// Appending a mesh keeps the offsets of the meshes before it.
proof fn lemma_offsets_extend(before: Seq<MeshInfo>, after: Seq<MeshInfo>)
    requires
        after.len() == before.len() + 1,
        forall|k: int| 0 <= k < before.len() ==> after[k] == before[k],
    ensures
        forall|k: int| 0 <= k <= before.len() ==> #[trigger] primitive_offset(after, k) == primitive_offset(before, k),
        primitive_offset(after, after.len() as int) == primitive_offset(before, before.len() as int)
            + after[before.len() as int].primitives@.len(),
{
    assert forall|k: int| 0 <= k <= before.len() implies #[trigger] primitive_offset(after, k) == primitive_offset(
        before,
        k,
    ) by {
        lemma_offset_prefix(before, after, k);
    }
    lemma_offset_prefix(before, after, before.len() as int);
    assert(primitive_offset(after, after.len() as int) == primitive_offset(after, before.len() as int)
        + after[before.len() as int].primitives@.len());
}

/// Offsets depend only on the meshes before.
proof fn lemma_offset_prefix(before: Seq<MeshInfo>, after: Seq<MeshInfo>, k: int)
    requires
        0 <= k <= before.len(),
        k <= after.len(),
        forall|i: int| 0 <= i < k ==> after[i] == before[i],
    ensures
        primitive_offset(after, k) == primitive_offset(before, k),
    decreases k,
{
    if k > 0 {
        lemma_offset_prefix(before, after, k - 1);
    }
}

/// Every corner of a mesh's triangles lands in exactly one primitive: the
/// one of the material of its triangle.
pub proof fn lemma_corners_partition(keys: Seq<Option<usize>>, c: int, k: Option<usize>)
    requires
        0 <= c < 3 * keys.len(),
        3 * keys.len() <= u32::MAX as int + 1,
    ensures
        corner_indices(keys, k).contains(c as u32) <==> k == keys[c / 3],
    decreases keys.len(),
{
    let t = keys.len() - 1;
    let rest = corner_indices(keys.drop_last(), k);
    lemma_corners_below(keys.drop_last(), k);
    if c < 3 * t {
        lemma_corners_partition(keys.drop_last(), c, k);
        assert(keys.drop_last()[c / 3] == keys[c / 3]);
        if keys.last() == k {
            let tail = seq![(3 * t) as u32, (3 * t + 1) as u32, (3 * t + 2) as u32];
            assert(corner_indices(keys, k) == rest + tail);
            if corner_indices(keys, k).contains(c as u32) {
                let i = choose|i: int| 0 <= i < (rest + tail).len() && (rest + tail)[i] == c as u32;
                if i >= rest.len() {
                    assert((rest + tail)[i] >= 3 * t);
                } else {
                    assert(rest[i] == c as u32);
                }
            }
            if rest.contains(c as u32) {
                let i = choose|i: int| 0 <= i < rest.len() && rest[i] == c as u32;
                assert((rest + tail)[i] == c as u32);
            }
        }
    } else {
        assert(c / 3 == t);
        assert(!rest.contains(c as u32));
        if keys.last() == k {
            let tail = seq![(3 * t) as u32, (3 * t + 1) as u32, (3 * t + 2) as u32];
            assert((rest + tail)[rest.len() + (c - 3 * t)] == c as u32);
        } else {
            assert(corner_indices(keys, k) == rest);
        }
    }
}

/// The corners of one material's triangles are below three times the number
/// of triangles and strictly increasing.
proof fn lemma_corners_below(keys: Seq<Option<usize>>, k: Option<usize>)
    requires
        3 * keys.len() <= u32::MAX as int + 1,
    ensures
        forall|i: int| 0 <= i < corner_indices(keys, k).len() ==> corner_indices(keys, k)[i] < 3 * keys.len(),
        forall|i: int, j: int|
            0 <= i < j < corner_indices(keys, k).len() ==> corner_indices(keys, k)[i] < corner_indices(keys, k)[j],
    decreases keys.len(),
{
    if keys.len() > 0 {
        let t = keys.len() - 1;
        let rest = corner_indices(keys.drop_last(), k);
        lemma_corners_below(keys.drop_last(), k);
        if keys.last() == k {
            let tail = seq![(3 * t) as u32, (3 * t + 1) as u32, (3 * t + 2) as u32];
            let all = rest + tail;
            assert(corner_indices(keys, k) == all);
            assert(tail[0] == 3 * t && tail[1] == 3 * t + 1 && tail[2] == 3 * t + 2);
            assert forall|i: int| 0 <= i < all.len() implies all[i] < 3 * keys.len() by {
                if i >= rest.len() {
                    assert(all[i] == tail[i - rest.len()]);
                } else {
                    assert(all[i] == rest[i]);
                }
            }
            assert forall|i: int, j: int| 0 <= i < j < all.len() implies all[i] < all[j] by {
                if j >= rest.len() {
                    assert(all[j] == tail[j - rest.len()]);
                    if i >= rest.len() {
                        assert(all[i] == tail[i - rest.len()]);
                    } else {
                        assert(all[i] == rest[i]);
                    }
                } else {
                    assert(all[i] == rest[i] && all[j] == rest[j]);
                }
            }
        }
    }
}

/// Compacting keeps exactly the values of the list: each value of `s`
/// occurs once in `first_occurrences(s)`, and nothing else does.
pub proof fn lemma_first_occurrences(s: Seq<u32>)
    ensures
        first_occurrences(s).no_duplicates(),
        forall|v: u32| first_occurrences(s).contains(v) <==> s.contains(v),
    decreases s.len(),
{
    if s.len() > 0 {
        let before = first_occurrences(s.drop_last());
        lemma_first_occurrences(s.drop_last());
        assert forall|v: u32| first_occurrences(s).contains(v) <==> s.contains(v) by {
            if s.contains(v) && v != s.last() {
                let i = choose|i: int| 0 <= i < s.len() && s[i] == v;
                assert(s.drop_last()[i] == v);
            }
            if s.drop_last().contains(v) {
                let i = choose|i: int| 0 <= i < s.drop_last().len() && s.drop_last()[i] == v;
                assert(s[i] == v);
            }
            if !before.contains(s.last()) {
                assert(first_occurrences(s) == before.push(s.last()));
                if first_occurrences(s).contains(v) && v != s.last() {
                    let i = choose|i: int| 0 <= i < before.len() + 1 && before.push(s.last())[i] == v;
                    assert(before[i] == v);
                }
                if before.contains(v) {
                    let i = choose|i: int| 0 <= i < before.len() && before[i] == v;
                    assert(before.push(s.last())[i] == v);
                }
                assert(before.push(s.last())[before.len() as int] == s.last());
            }
        }
        if !before.contains(s.last()) {
            assert forall|a: int, b: int| 0 <= a < b < before.len() + 1 implies before.push(s.last())[a]
                != before.push(s.last())[b] by {
                if b == before.len() {
                    assert(before.push(s.last())[a] == before[a]);
                }
            }
        }
    }
}

/// A list without repeated values is its own compaction.
pub proof fn lemma_first_occurrences_of_distinct(s: Seq<u32>)
    requires
        s.no_duplicates(),
    ensures
        first_occurrences(s) == s,
    decreases s.len(),
{
    if s.len() > 0 {
        let init = s.drop_last();
        assert(init.no_duplicates()) by {
            assert forall|a: int, b: int| 0 <= a < b < init.len() implies init[a] != init[b] by {
                assert(init[a] == s[a] && init[b] == s[b]);
            }
        }
        lemma_first_occurrences_of_distinct(init);
        if init.contains(s.last()) {
            let i = choose|i: int| 0 <= i < init.len() && init[i] == s.last();
            assert(s[i] == s[s.len() - 1]);
        }
        assert(init.push(s.last()) =~= s);
    }
}

/// Within one primitive of an FBX mesh no corner repeats, so compacting
/// keeps the corners as they are: the primitive's vertices are its
/// triangles' corners in order, and its index list counts up from zero.
pub proof fn lemma_primitive_is_identity(keys: Seq<Option<usize>>, prim: PrimitiveIndices)
    requires
        3 * keys.len() <= u32::MAX as int + 1,
        prim.vertices@ == first_occurrences(corner_indices(keys, prim.material)),
        prim.indices@.len() == corner_indices(keys, prim.material).len(),
        forall|k: int|
            0 <= k < prim.indices@.len() ==> #[trigger] prim.indices@[k] < prim.vertices@.len()
                && prim.vertices@[prim.indices@[k] as int] == corner_indices(keys, prim.material)[k],
    ensures
        prim.vertices@ == corner_indices(keys, prim.material),
        forall|k: int| 0 <= k < prim.indices@.len() ==> #[trigger] prim.indices@[k] == k,
{
    let corners = corner_indices(keys, prim.material);
    lemma_corners_below(keys, prim.material);
    assert(corners.no_duplicates());
    lemma_first_occurrences_of_distinct(corners);
    assert forall|k: int| 0 <= k < prim.indices@.len() implies #[trigger] prim.indices@[k] == k by {
        let v = prim.indices@[k] as int;
        if v != k {
            assert(corners[v] == corners[k]);
        }
    }
}


/// How many of `keys` are `k`.
pub open spec fn count_key(keys: Seq<Option<usize>>, k: Option<usize>) -> nat
    decreases keys.len(),
{
    if keys.len() == 0 {
        0
    } else {
        count_key(keys.drop_last(), k) + (if keys.last() == k { 1nat } else { 0nat })
    }
}

/// The sum over `ks` of how many of `keys` are each.
pub open spec fn sum_counts(keys: Seq<Option<usize>>, ks: Seq<Option<usize>>) -> nat
    decreases ks.len(),
{
    if ks.len() == 0 {
        0
    } else {
        sum_counts(keys, ks.drop_last()) + count_key(keys, ks.last())
    }
}

/// The number of triangles of the first `n` primitives.
pub open spec fn total_triangles(prims: Seq<MeshPrimInfo>, n: int) -> int
    decreases n,
{
    if n <= 0 {
        0
    } else {
        total_triangles(prims, n - 1) + prims[n - 1].triangle_count
    }
}

proof fn lemma_corner_len(keys: Seq<Option<usize>>, k: Option<usize>)
    ensures
        corner_indices(keys, k).len() == 3 * count_key(keys, k),
    decreases keys.len(),
{
    if keys.len() > 0 {
        lemma_corner_len(keys.drop_last(), k);
    }
}

proof fn lemma_count_absent(s: Seq<Option<usize>>, x: Option<usize>)
    requires
        !s.contains(x),
    ensures
        count_key(s, x) == 0,
    decreases s.len(),
{
    if s.len() > 0 {
        assert(s[s.len() - 1] != x);
        assert(!s.drop_last().contains(x)) by {
            if s.drop_last().contains(x) {
                let i = choose|i: int| 0 <= i < s.drop_last().len() && s.drop_last()[i] == x;
                assert(s[i] == x);
            }
        }
        lemma_count_absent(s.drop_last(), x);
    }
}

proof fn lemma_count_once(s: Seq<Option<usize>>, x: Option<usize>)
    requires
        s.no_duplicates(),
        s.contains(x),
    ensures
        count_key(s, x) == 1,
    decreases s.len(),
{
    let init = s.drop_last();
    assert(init.no_duplicates()) by {
        assert forall|a: int, b: int| 0 <= a < b < init.len() implies init[a] != init[b] by {
            assert(init[a] == s[a] && init[b] == s[b]);
        }
    }
    if s.last() == x {
        assert(!init.contains(x)) by {
            if init.contains(x) {
                let i = choose|i: int| 0 <= i < init.len() && init[i] == x;
                assert(s[i] == s[s.len() - 1]);
            }
        }
        lemma_count_absent(init, x);
    } else {
        let i = choose|i: int| 0 <= i < s.len() && s[i] == x;
        assert(init[i] == x);
        lemma_count_once(init, x);
    }
}

proof fn lemma_sum_counts_empty(ks: Seq<Option<usize>>)
    ensures
        sum_counts(Seq::empty(), ks) == 0,
    decreases ks.len(),
{
    if ks.len() > 0 {
        lemma_sum_counts_empty(ks.drop_last());
    }
}

proof fn lemma_sum_counts_step(keys: Seq<Option<usize>>, ks: Seq<Option<usize>>)
    requires
        keys.len() > 0,
    ensures
        sum_counts(keys, ks) == sum_counts(keys.drop_last(), ks) + count_key(ks, keys.last()),
    decreases ks.len(),
{
    if ks.len() > 0 {
        lemma_sum_counts_step(keys, ks.drop_last());
    }
}

/// Counting the triangles of each of a list of distinct materials that
/// covers all triangles' materials counts every triangle once.
proof fn lemma_sum_counts_all(keys: Seq<Option<usize>>, ks: Seq<Option<usize>>)
    requires
        ks.no_duplicates(),
        forall|t: int| 0 <= t < keys.len() ==> ks.contains(#[trigger] keys[t]),
    ensures
        sum_counts(keys, ks) == keys.len(),
    decreases keys.len(),
{
    if keys.len() == 0 {
        assert(keys =~= Seq::<Option<usize>>::empty());
        lemma_sum_counts_empty(ks);
    } else {
        let init = keys.drop_last();
        assert forall|t: int| 0 <= t < init.len() implies ks.contains(#[trigger] init[t]) by {
            assert(init[t] == keys[t]);
        }
        lemma_sum_counts_all(init, ks);
        lemma_sum_counts_step(keys, ks);
        assert(ks.contains(keys[keys.len() - 1]));
        lemma_count_once(ks, keys.last());
    }
}

/// The primitives that a mesh gives hold all its triangles between them:
/// their triangle counts add up to the number of triangles of the mesh.
pub proof fn lemma_mesh_triangles_add_up(
    mesh: FbxMesh,
    positions: Map<i64, usize>,
    names: Seq<Option<String>>,
    info: MeshInfo,
    prims: Seq<PrimitiveIndices>,
    offset: int,
)
    requires
        mesh_collected(mesh, positions, names, info, prims, offset),
    ensures
        total_triangles(info.primitives@, info.primitives@.len() as int) == mesh.triangle_count,
{
    let keys = mesh_triangle_materials(mesh, positions);
    let n = prims.len();
    let ks = Seq::new(n, |j: int| prims[j].material);
    assert(ks.no_duplicates()) by {
        assert forall|a: int, b: int| 0 <= a < b < ks.len() implies ks[a] != ks[b] by {
            assert(key_rank(prims[a].material) < key_rank(prims[b].material));
        }
    }
    assert forall|t: int| 0 <= t < keys.len() implies ks.contains(#[trigger] keys[t]) by {
        assert(keys.contains(keys[t]));
        let j = choose|j: int| 0 <= j < prims.len() && #[trigger] prims[j].material == keys[t];
        assert(ks[j] == keys[t]);
    }
    lemma_sum_counts_all(keys, ks);
    lemma_total_is_sum(keys, names, info, prims, offset, ks, n as int);
    assert(ks.take(n as int) =~= ks);
}

proof fn lemma_total_is_sum(
    keys: Seq<Option<usize>>,
    names: Seq<Option<String>>,
    info: MeshInfo,
    prims: Seq<PrimitiveIndices>,
    offset: int,
    ks: Seq<Option<usize>>,
    n: int,
)
    requires
        prims.len() == info.primitives@.len(),
        ks.len() == prims.len(),
        forall|j: int| 0 <= j < ks.len() ==> #[trigger] ks[j] == prims[j].material,
        forall|j: int|
            #![trigger prims[j]]
            0 <= j < prims.len() ==> primitive_matches(keys, names, info.primitives@[j], prims[j], offset + j, j),
        0 <= n <= prims.len(),
    ensures
        total_triangles(info.primitives@, n) == sum_counts(keys, ks.take(n)),
    decreases n,
{
    if n > 0 {
        lemma_total_is_sum(keys, names, info, prims, offset, ks, n - 1);
        assert(ks.take(n).drop_last() =~= ks.take(n - 1));
        let j = n - 1;
        assert(primitive_matches(keys, names, info.primitives@[j], prims[j], offset + j, j));
        lemma_corner_len(keys, prims[j].material);
        assert(ks.take(n).last() == prims[j].material);
    }
}

} // verus!
