//! The viewer state that persists between runs: where it is kept, and how
//! the hidden primitives are written down and restored.

use vstd::prelude::*;

use crate::mesh::{MeshInfo, MeshPrimInfo};
use crate::text::primitive_key;

verus! {

/// The name of the file that holds the viewer state.
pub const STATE_FILE: &'static str = "viewer_state.json";

/// `dir` starts with the Windows verbatim prefix `\\?\`.
pub open spec fn is_verbatim(dir: Seq<char>) -> bool {
    dir.len() >= 4 && dir[0] == '\\' && dir[1] == '\\' && dir[2] == '?' && dir[3] == '\\'
}

/// `dir` is nonempty and ends in something other than a separator or a
/// drive's `:`, so that every platform puts a separator after it.
pub open spec fn needs_separator(dir: Seq<char>) -> bool {
    dir.len() > 0 && dir.last() != '/' && dir.last() != '\\' && dir.last() != ':'
}

/// `joined` is `dir` and `file`, with or without a separator (`/` or `\`)
/// between them.
pub open spec fn joined_either(dir: Seq<char>, file: Seq<char>, joined: Seq<char>) -> bool {
    ||| joined == dir + file
    ||| joined == dir + seq!['/'] + file
    ||| joined == dir + seq!['\\'] + file
}

/// `joined` is `dir` and `file` with a separator (`/` or `\`) between them.
pub open spec fn joined_with_separator(dir: Seq<char>, file: Seq<char>, joined: Seq<char>) -> bool {
    ||| joined == dir + seq!['/'] + file
    ||| joined == dir + seq!['\\'] + file
}

/// `Path::join` from std, for a relative file name: `dir` and `file`, with
/// a separator between them where the platform puts one.
///
/// `file` is a single plain file name: no separator, no drive, not `.` or
/// `..`, so it never replaces `dir`. Which separator is put (`/` on Unix,
/// `\` on Windows) depends on the platform, and none is put after an empty
/// directory, after a trailing separator or after a Windows drive such as
/// `C:` (where Unix puts `/`); after any other end of `dir` one is put.
/// After an empty directory or a trailing `/`, no platform puts one. For a `dir` with the
/// Windows verbatim prefix `\\?\`, std normalises the joined path (removing
/// `.` and `..`), and nothing is stated of the result.
#[verifier::external_body]
fn join_path(dir: &str, file: &str) -> (joined: String)
    requires
        file@.len() > 0,
        !file@.contains('/'),
        !file@.contains('\\'),
        !file@.contains(':'),
        file@ != seq!['.'],
        file@ != seq!['.', '.'],
    ensures
        !is_verbatim(dir@) ==> joined_either(dir@, file@, joined@),
        !is_verbatim(dir@) && needs_separator(dir@) ==> joined_with_separator(dir@, file@, joined@),
        !is_verbatim(dir@) && (dir@.len() == 0 || dir@.last() == '/') ==> joined@ == dir@ + file@,
{
    std::path::Path::new(dir).join(file).to_string_lossy().into_owned()
}

/// Where the viewer state is kept: `viewer_state.json` in the configuration
/// directory where there is one, else in the working directory. The file
/// name follows the directory with a separator where every platform puts
/// one, directly after an empty directory or a trailing `/`, and with or
/// without one otherwise; of a Windows verbatim directory
/// (`\\?\...`), which std normalises, nothing is stated.
pub fn state_path(config_dir: Option<String>) -> (path: String)
    ensures
        match config_dir {
            Some(dir) => {
                &&& !is_verbatim(dir@) ==> joined_either(dir@, STATE_FILE@, path@)
                &&& !is_verbatim(dir@) && needs_separator(dir@) ==> joined_with_separator(
                    dir@,
                    STATE_FILE@,
                    path@,
                )
                &&& !is_verbatim(dir@) && (dir@.len() == 0 || dir@.last() == '/') ==> path@ == dir@
                    + STATE_FILE@
            },
            None => path@ == STATE_FILE@,
        },
{
    proof {
        reveal_strlit("viewer_state.json");
    }
    match config_dir {
        Some(dir) => join_path(dir.as_str(), STATE_FILE),
        None => String::from_str(STATE_FILE),
    }
}

/// Whether the primitive with global index `g` is visible: positions that
/// the list does not cover count as visible.
pub open spec fn visible_at(visible: Seq<bool>, g: int) -> bool {
    if 0 <= g < visible.len() {
        visible[g]
    } else {
        true
    }
}

/// Whether the primitive with global index `g` is visible.
pub fn primitive_visible(visible: &Vec<bool>, g: usize) -> (v: bool)
    ensures
        v == visible_at(visible@, g as int),
{
    if g < visible.len() {
        visible[g]
    } else {
        true
    }
}

/// The key of a primitive of a mesh, by view: `mesh/primitive`.
pub open spec fn key_of(mesh: MeshInfo, prim: MeshPrimInfo) -> Seq<char> {
    mesh.name@ + seq!['/'] + prim.name@
}

/// The keys of the hidden primitives among the first `n` of a mesh.
pub open spec fn mesh_hidden_keys(mesh: MeshInfo, visible: Seq<bool>, n: int) -> Seq<Seq<char>>
    decreases n,
{
    if n <= 0 {
        Seq::empty()
    } else {
        let p = mesh.primitives@[n - 1];
        let before = mesh_hidden_keys(mesh, visible, n - 1);
        if visible_at(visible, p.global_index as int) {
            before
        } else {
            before.push(key_of(mesh, p))
        }
    }
}

/// The keys of the hidden primitives, mesh by mesh and primitive by
/// primitive.
pub open spec fn hidden_keys(meshes: Seq<MeshInfo>, visible: Seq<bool>) -> Seq<Seq<char>>
    decreases meshes.len(),
{
    if meshes.len() == 0 {
        Seq::empty()
    } else {
        hidden_keys(meshes.drop_last(), visible) + mesh_hidden_keys(
            meshes.last(),
            visible,
            meshes.last().primitives@.len() as int,
        )
    }
}

/// The views of a list of strings.
pub open spec fn string_views(v: Seq<String>) -> Seq<Seq<char>> {
    v.map_values(|s: String| s@)
}

/// The keys (`mesh/primitive`) of the primitives that are hidden, as the
/// viewer state records them when the viewer closes.
pub fn hidden_primitive_keys(meshes: &Vec<MeshInfo>, visible: &Vec<bool>) -> (keys: Vec<String>)
    ensures
        string_views(keys@) == hidden_keys(meshes@, visible@),
{
    let mut keys: Vec<String> = Vec::new();
    let mut m: usize = 0;
    while m < meshes.len()
        invariant
            m <= meshes@.len(),
            string_views(keys@) == hidden_keys(meshes@.take(m as int), visible@),
        decreases meshes.len() - m,
    {
        let mesh = &meshes[m];
        let ghost start = string_views(keys@);
        let mut j: usize = 0;
        while j < mesh.primitives.len()
            invariant
                j <= mesh.primitives@.len(),
                m < meshes@.len(),
                *mesh == meshes@[m as int],
                string_views(keys@) == start + mesh_hidden_keys(*mesh, visible@, j as int),
            decreases mesh.primitives.len() - j,
        {
            let prim = &mesh.primitives[j];
            if !primitive_visible(visible, prim.global_index) {
                let key = primitive_key(mesh.name.as_str(), prim.name.as_str());
                let ghost before = keys@;
                keys.push(key);
                assert(string_views(keys@) =~= string_views(before).push(key@));
            }
            j += 1;
            assert(string_views(keys@) =~= start + mesh_hidden_keys(*mesh, visible@, j as int));
        }
        assert(meshes@.take(m + 1).drop_last() =~= meshes@.take(m as int));
        m += 1;
    }
    assert(meshes@.take(m as int) =~= meshes@);
    keys
}


/// Some primitive with global index `g` has its key in `hidden`.
pub open spec fn is_hidden(meshes: Seq<MeshInfo>, hidden: Seq<Seq<char>>, g: int) -> bool {
    exists|m: int, j: int|
        0 <= m < meshes.len() && 0 <= j < meshes[m].primitives@.len() && #[trigger] meshes[m].primitives@[j].global_index
            == g && hidden.contains(key_of(meshes[m], meshes[m].primitives@[j]))
}

/// Some primitive before primitive `j` of mesh `m` has global index `g` and
/// its key in `hidden`.
pub open spec fn hidden_before(meshes: Seq<MeshInfo>, hidden: Seq<Seq<char>>, m: int, j: int, g: int) -> bool {
    exists|a: int, b: int|
        0 <= a < meshes.len() && 0 <= b < meshes[a].primitives@.len() && (a < m || (a == m && b < j))
            && #[trigger] meshes[a].primitives@[b].global_index == g && hidden.contains(
            key_of(meshes[a], meshes[a].primitives@[b]),
        )
}

/// The visibility of `n` primitives restored from the saved keys `hidden`:
/// position `g` is hidden exactly when some primitive with global index `g`
/// has its key among them.
pub open spec fn restored(meshes: Seq<MeshInfo>, hidden: Seq<Seq<char>>, n: nat) -> Seq<bool> {
    Seq::new(n, |g: int| !is_hidden(meshes, hidden, g))
}

/// Whether `list` holds a string equal to `s`.
fn contains_string(list: &Vec<String>, s: &String) -> (r: bool)
    ensures
        r == string_views(list@).contains(s@),
{
    let mut i: usize = 0;
    while i < list.len()
        invariant
            i <= list@.len(),
            forall|k: int| 0 <= k < i ==> list@[k]@ != s@,
        decreases list.len() - i,
    {
        if list[i] == *s {
            assert(string_views(list@)[i as int] == s@);
            return true;
        }
        i += 1;
    }
    assert forall|k: int| 0 <= k < string_views(list@).len() implies string_views(list@)[k] != s@ by {
        assert(string_views(list@)[k] == list@[k]@);
    }
    false
}

/// The visibility of each of `primitive_count` primitives when the viewer
/// starts from a saved state: hidden where some primitive with that global
/// index has its key (`mesh/primitive`) among the saved `hidden` keys,
/// visible otherwise.
pub fn restore_visibility(primitive_count: usize, meshes: &Vec<MeshInfo>, hidden: &Vec<String>) -> (visible: Vec<bool>)
    ensures
        visible@ == restored(meshes@, string_views(hidden@), primitive_count as nat),
{
    let ghost hv = string_views(hidden@);
    let mut visible: Vec<bool> = vec![true; primitive_count];
    let mut m: usize = 0;
    while m < meshes.len()
        invariant
            m <= meshes@.len(),
            hv == string_views(hidden@),
            visible@.len() == primitive_count,
            forall|g: int|
                0 <= g < primitive_count ==> #[trigger] visible@[g] == !hidden_before(meshes@, hv, m as int, 0, g),
        decreases meshes.len() - m,
    {
        let mesh = &meshes[m];
        let mut j: usize = 0;
        while j < mesh.primitives.len()
            invariant
                m < meshes@.len(),
                *mesh == meshes@[m as int],
                j <= mesh.primitives@.len(),
                hv == string_views(hidden@),
                visible@.len() == primitive_count,
                forall|g: int|
                    0 <= g < primitive_count ==> #[trigger] visible@[g] == !hidden_before(
                        meshes@,
                        hv,
                        m as int,
                        j as int,
                        g,
                    ),
            decreases mesh.primitives.len() - j,
        {
            let prim = &mesh.primitives[j];
            let key = primitive_key(mesh.name.as_str(), prim.name.as_str());
            let hit = contains_string(hidden, &key);
            let ghost before = visible@;
            if hit && prim.global_index < visible.len() {
                visible.set(prim.global_index, false);
            }
            proof {
                assert(meshes@[m as int].primitives@[j as int] == *prim);
                assert forall|g: int| 0 <= g < primitive_count implies #[trigger] visible@[g] == !hidden_before(
                    meshes@,
                    hv,
                    m as int,
                    j + 1,
                    g,
                ) by {
                    if hidden_before(meshes@, hv, m as int, j as int, g) {
                        let (a, b) = choose|a: int, b: int|
                            0 <= a < meshes@.len() && 0 <= b < meshes@[a].primitives@.len() && (a < m || (a == m
                                && b < j)) && #[trigger] meshes@[a].primitives@[b].global_index == g
                                && hv.contains(key_of(meshes@[a], meshes@[a].primitives@[b]));
                        assert(hidden_before(meshes@, hv, m as int, j + 1, g));
                    }
                    if hit && g == prim.global_index {
                        assert(meshes@[m as int].primitives@[j as int].global_index == g);
                        assert(hidden_before(meshes@, hv, m as int, j + 1, g));
                    }
                    if hidden_before(meshes@, hv, m as int, j + 1, g) && !hidden_before(
                        meshes@,
                        hv,
                        m as int,
                        j as int,
                        g,
                    ) {
                        let (a, b) = choose|a: int, b: int|
                            0 <= a < meshes@.len() && 0 <= b < meshes@[a].primitives@.len() && (a < m || (a == m
                                && b < j + 1)) && #[trigger] meshes@[a].primitives@[b].global_index == g
                                && hv.contains(key_of(meshes@[a], meshes@[a].primitives@[b]));
                        assert(a == m && b == j);
                    }
                }
            }
            j += 1;
        }
        proof {
            assert forall|g: int| 0 <= g < primitive_count implies #[trigger] visible@[g] == !hidden_before(
                meshes@,
                hv,
                m + 1,
                0,
                g,
            ) by {
                if hidden_before(meshes@, hv, m + 1, 0, g) {
                    let (a, b) = choose|a: int, b: int|
                        0 <= a < meshes@.len() && 0 <= b < meshes@[a].primitives@.len() && (a < m + 1 || (a == m
                            + 1 && b < 0)) && #[trigger] meshes@[a].primitives@[b].global_index == g && hv.contains(
                            key_of(meshes@[a], meshes@[a].primitives@[b]),
                        );
                    assert(hidden_before(meshes@, hv, m as int, j as int, g));
                }
                if hidden_before(meshes@, hv, m as int, j as int, g) {
                    let (a, b) = choose|a: int, b: int|
                        0 <= a < meshes@.len() && 0 <= b < meshes@[a].primitives@.len() && (a < m || (a == m
                            && b < j)) && #[trigger] meshes@[a].primitives@[b].global_index == g && hv.contains(
                            key_of(meshes@[a], meshes@[a].primitives@[b]),
                        );
                    assert(hidden_before(meshes@, hv, m + 1, 0, g));
                }
            }
        }
        m += 1;
    }
    proof {
        assert forall|g: int| 0 <= g < primitive_count implies #[trigger] visible@[g] == !is_hidden(
            meshes@,
            hv,
            g,
        ) by {
            if is_hidden(meshes@, hv, g) {
                let (a, b) = choose|a: int, b: int|
                    0 <= a < meshes@.len() && 0 <= b < meshes@[a].primitives@.len()
                        && #[trigger] meshes@[a].primitives@[b].global_index == g && hv.contains(
                        key_of(meshes@[a], meshes@[a].primitives@[b]),
                    );
                assert(hidden_before(meshes@, hv, m as int, 0, g));
            }
        }
        assert(visible@ =~= restored(meshes@, hv, primitive_count as nat));
    }
    visible
}


/// No two primitives share a key.
pub open spec fn keys_distinct(meshes: Seq<MeshInfo>) -> bool {
    forall|m1: int, j1: int, m2: int, j2: int|
        0 <= m1 < meshes.len() && 0 <= j1 < meshes[m1].primitives@.len() && 0 <= m2 < meshes.len() && 0 <= j2
            < meshes[m2].primitives@.len() && (m1 != m2 || j1 != j2) ==> #[trigger] key_of(
            meshes[m1],
            meshes[m1].primitives@[j1],
        ) != #[trigger] key_of(meshes[m2], meshes[m2].primitives@[j2])
}

/// Some primitive has global index `g`.
pub open spec fn has_primitive(meshes: Seq<MeshInfo>, g: int) -> bool {
    exists|m: int, j: int|
        0 <= m < meshes.len() && 0 <= j < meshes[m].primitives@.len() && #[trigger] meshes[m].primitives@[j].global_index
            == g
}

/// A key is among the hidden keys of the first `n` primitives of a mesh
/// exactly when one of them has that key and is hidden.
proof fn lemma_mesh_hidden_keys(mesh: MeshInfo, visible: Seq<bool>, n: int, k: Seq<char>)
    requires
        0 <= n <= mesh.primitives@.len(),
    ensures
        mesh_hidden_keys(mesh, visible, n).contains(k) <==> exists|j: int|
            0 <= j < n && key_of(mesh, #[trigger] mesh.primitives@[j]) == k && !visible_at(
                visible,
                mesh.primitives@[j].global_index as int,
            ),
    decreases n,
{
    if n > 0 {
        lemma_mesh_hidden_keys(mesh, visible, n - 1, k);
        let p = mesh.primitives@[n - 1];
        let before = mesh_hidden_keys(mesh, visible, n - 1);
        if mesh_hidden_keys(mesh, visible, n).contains(k) && !before.contains(k) {
            assert(!visible_at(visible, p.global_index as int));
            assert(before.push(key_of(mesh, p)).contains(k));
            let i = choose|i: int| 0 <= i < before.len() + 1 && before.push(key_of(mesh, p))[i] == k;
            if i < before.len() {
                assert(before[i] == k);
            }
            assert(key_of(mesh, mesh.primitives@[n - 1]) == k);
        }
        if exists|j: int|
            0 <= j < n && key_of(mesh, #[trigger] mesh.primitives@[j]) == k && !visible_at(
                visible,
                mesh.primitives@[j].global_index as int,
            ) {
            let j = choose|j: int|
                0 <= j < n && key_of(mesh, #[trigger] mesh.primitives@[j]) == k && !visible_at(
                    visible,
                    mesh.primitives@[j].global_index as int,
                );
            if j == n - 1 {
                assert(mesh_hidden_keys(mesh, visible, n) == before.push(k));
                assert(before.push(k)[before.len() as int] == k);
            } else {
                assert(before.contains(k));
                let i = choose|i: int| 0 <= i < before.len() && before[i] == k;
                if !visible_at(visible, p.global_index as int) {
                    assert(before.push(key_of(mesh, p))[i] == k);
                }
            }
        }
        if before.contains(k) {
            let i = choose|i: int| 0 <= i < before.len() && before[i] == k;
            if !visible_at(visible, p.global_index as int) {
                assert(before.push(key_of(mesh, p))[i] == k);
            }
        }
    }
}

/// A key is among the hidden keys exactly when some primitive has that key
/// and is hidden.
pub proof fn lemma_hidden_keys(meshes: Seq<MeshInfo>, visible: Seq<bool>, k: Seq<char>)
    ensures
        hidden_keys(meshes, visible).contains(k) <==> exists|m: int, j: int|
            0 <= m < meshes.len() && 0 <= j < meshes[m].primitives@.len() && key_of(
                meshes[m],
                #[trigger] meshes[m].primitives@[j],
            ) == k && !visible_at(visible, meshes[m].primitives@[j].global_index as int),
    decreases meshes.len(),
{
    if meshes.len() > 0 {
        let init = meshes.drop_last();
        let last = meshes.last();
        let n = last.primitives@.len() as int;
        let a = hidden_keys(init, visible);
        let b = mesh_hidden_keys(last, visible, n);
        lemma_hidden_keys(init, visible, k);
        lemma_mesh_hidden_keys(last, visible, n, k);
        assert(hidden_keys(meshes, visible) == a + b);
        if (a + b).contains(k) {
            let i = choose|i: int| 0 <= i < (a + b).len() && (a + b)[i] == k;
            if i < a.len() {
                assert(a[i] == k);
                let (m, j) = choose|m: int, j: int|
                    0 <= m < init.len() && 0 <= j < init[m].primitives@.len() && key_of(
                        init[m],
                        #[trigger] init[m].primitives@[j],
                    ) == k && !visible_at(visible, init[m].primitives@[j].global_index as int);
                assert(meshes[m] == init[m]);
                assert(key_of(meshes[m], meshes[m].primitives@[j]) == k);
            } else {
                assert(b[i - a.len()] == k);
                let j = choose|j: int|
                    0 <= j < n && key_of(last, #[trigger] last.primitives@[j]) == k && !visible_at(
                        visible,
                        last.primitives@[j].global_index as int,
                    );
                assert(meshes[meshes.len() - 1] == last);
                assert(key_of(meshes[meshes.len() - 1], meshes[meshes.len() - 1].primitives@[j]) == k);
            }
        }
        if exists|m: int, j: int|
            0 <= m < meshes.len() && 0 <= j < meshes[m].primitives@.len() && key_of(
                meshes[m],
                #[trigger] meshes[m].primitives@[j],
            ) == k && !visible_at(visible, meshes[m].primitives@[j].global_index as int) {
            let (m, j) = choose|m: int, j: int|
                0 <= m < meshes.len() && 0 <= j < meshes[m].primitives@.len() && key_of(
                    meshes[m],
                    #[trigger] meshes[m].primitives@[j],
                ) == k && !visible_at(visible, meshes[m].primitives@[j].global_index as int);
            if m < init.len() {
                assert(init[m] == meshes[m]);
                assert(key_of(init[m], init[m].primitives@[j]) == k);
                let i = choose|i: int| 0 <= i < a.len() && a[i] == k;
                assert((a + b)[i] == k);
            } else {
                assert(key_of(last, last.primitives@[j]) == k);
                let i = choose|i: int| 0 <= i < b.len() && b[i] == k;
                assert((a + b)[a.len() + i] == k);
            }
        }
    }
}

/// Saving and restoring the visibility gives it back: restoring from the
/// keys that `hidden_primitive_keys` records leaves a global index hidden
/// exactly when some primitive has it and it was hidden. This needs the
/// primitives' keys (`mesh/primitive`) to differ; two primitives with the
/// same key are restored alike.
pub proof fn lemma_visibility_round_trip(meshes: Seq<MeshInfo>, visible: Seq<bool>, g: int)
    requires
        keys_distinct(meshes),
    ensures
        is_hidden(meshes, hidden_keys(meshes, visible), g) <==> has_primitive(meshes, g) && !visible_at(
            visible,
            g,
        ),
{
    let hk = hidden_keys(meshes, visible);
    if is_hidden(meshes, hk, g) {
        let (m, j) = choose|m: int, j: int|
            0 <= m < meshes.len() && 0 <= j < meshes[m].primitives@.len()
                && #[trigger] meshes[m].primitives@[j].global_index == g && hk.contains(
                key_of(meshes[m], meshes[m].primitives@[j]),
            );
        let k = key_of(meshes[m], meshes[m].primitives@[j]);
        lemma_hidden_keys(meshes, visible, k);
        let (m2, j2) = choose|m2: int, j2: int|
            0 <= m2 < meshes.len() && 0 <= j2 < meshes[m2].primitives@.len() && key_of(
                meshes[m2],
                #[trigger] meshes[m2].primitives@[j2],
            ) == k && !visible_at(visible, meshes[m2].primitives@[j2].global_index as int);
        assert(m2 == m && j2 == j);
    }
    if has_primitive(meshes, g) && !visible_at(visible, g) {
        let (m, j) = choose|m: int, j: int|
            0 <= m < meshes.len() && 0 <= j < meshes[m].primitives@.len()
                && #[trigger] meshes[m].primitives@[j].global_index == g;
        let k = key_of(meshes[m], meshes[m].primitives@[j]);
        lemma_hidden_keys(meshes, visible, k);
        assert(hk.contains(k));
    }
}


/// Every primitive whose key is among `hidden` has a global index below
/// `n` that no other primitive has.
pub open spec fn saved_primitives_apart(meshes: Seq<MeshInfo>, hidden: Seq<Seq<char>>, n: int) -> bool {
    forall|m: int, j: int|
        0 <= m < meshes.len() && 0 <= j < meshes[m].primitives@.len() && hidden.contains(
            key_of(meshes[m], #[trigger] meshes[m].primitives@[j]),
        ) ==> {
            &&& meshes[m].primitives@[j].global_index < n
            &&& forall|m2: int, j2: int|
                0 <= m2 < meshes.len() && 0 <= j2 < meshes[m2].primitives@.len()
                    && #[trigger] meshes[m2].primitives@[j2].global_index == meshes[m].primitives@[j].global_index
                    ==> m2 == m && j2 == j
        }
}

/// Every saved key names a primitive.
pub open spec fn keys_name_primitives(meshes: Seq<MeshInfo>, hidden: Seq<Seq<char>>) -> bool {
    forall|k: Seq<char>|
        #[trigger] hidden.contains(k) ==> exists|m: int, j: int|
            0 <= m < meshes.len() && 0 <= j < meshes[m].primitives@.len() && key_of(
                meshes[m],
                #[trigger] meshes[m].primitives@[j],
            ) == k
}

/// Restoring the visibility from saved keys and saving it again gives back
/// the same keys, as a set: a key is saved again exactly when it was among
/// the restored ones. This needs every saved key to name a primitive, and
/// each primitive with a saved key to have a global index below the number
/// of primitives restored that it shares with no other primitive.
pub proof fn lemma_restore_then_save(meshes: Seq<MeshInfo>, hidden: Seq<Seq<char>>, n: nat, k: Seq<char>)
    requires
        saved_primitives_apart(meshes, hidden, n as int),
        keys_name_primitives(meshes, hidden),
    ensures
        hidden_keys(meshes, restored(meshes, hidden, n)).contains(k) <==> hidden.contains(k),
{
    let v = restored(meshes, hidden, n);
    lemma_hidden_keys(meshes, v, k);
    if hidden_keys(meshes, v).contains(k) {
        let (m, j) = choose|m: int, j: int|
            0 <= m < meshes.len() && 0 <= j < meshes[m].primitives@.len() && key_of(
                meshes[m],
                #[trigger] meshes[m].primitives@[j],
            ) == k && !visible_at(v, meshes[m].primitives@[j].global_index as int);
        let g = meshes[m].primitives@[j].global_index as int;
        assert(g < n);
        assert(is_hidden(meshes, hidden, g));
        let (m2, j2) = choose|m2: int, j2: int|
            0 <= m2 < meshes.len() && 0 <= j2 < meshes[m2].primitives@.len()
                && #[trigger] meshes[m2].primitives@[j2].global_index == g && hidden.contains(
                key_of(meshes[m2], meshes[m2].primitives@[j2]),
            );
        assert(m2 == m && j2 == j);
    }
    if hidden.contains(k) {
        let (m, j) = choose|m: int, j: int|
            0 <= m < meshes.len() && 0 <= j < meshes[m].primitives@.len() && key_of(
                meshes[m],
                #[trigger] meshes[m].primitives@[j],
            ) == k;
        let g = meshes[m].primitives@[j].global_index as int;
        assert(g < n);
        assert(is_hidden(meshes, hidden, g));
        assert(!visible_at(v, g));
    }
}

} // verus!
