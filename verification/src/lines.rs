//! The line overlays of the viewport: the ground grid and the bones of the
//! model's skins. This module decides which lines there are; their
//! positions in space and colours are given to them where they are drawn.

use std::collections::HashSet;
use vstd::prelude::*;

verus! {

broadcast use vstd::std_specs::hash::group_hash_axioms;

/// What a grid line is: an ordinary line of the grid, or one of the two
/// axes, which are drawn in their own colours.
#[derive(Clone, Copy, Debug, PartialEq, Eq)]
pub enum GridLineKind {
    Grid,
    XAxis,
    ZAxis,
}

/// A line of the ground plane `y = 0`, from `start` to `end`, each given as
/// `(x, z)`.
#[derive(Clone, Copy, Debug, PartialEq, Eq)]
pub struct GridSegment {
    pub start: (i32, i32),
    pub end: (i32, i32),
    pub kind: GridLineKind,
}

/// The grid lines through the first `n` of the positions `-e, -e + 1, ...`:
/// at each position `t` other than 0, the line parallel to X at `z = t`,
/// then the line parallel to Z at `x = t`, both from `-e` to `e`.
pub open spec fn grid_lines(e: int, n: nat) -> Seq<GridSegment>
    decreases n,
{
    if n == 0 {
        Seq::empty()
    } else {
        let t = -e + (n - 1);
        let before = grid_lines(e, (n - 1) as nat);
        if t != 0 {
            before + seq![
                GridSegment { start: ((-e) as i32, t as i32), end: (e as i32, t as i32), kind: GridLineKind::Grid },
                GridSegment { start: (t as i32, (-e) as i32), end: (t as i32, e as i32), kind: GridLineKind::Grid },
            ]
        } else {
            before
        }
    }
}

/// The two axes through the origin, from `-e` to `e`: X, then Z.
pub open spec fn grid_axes(e: int) -> Seq<GridSegment> {
    seq![
        GridSegment { start: ((-e) as i32, 0), end: (e as i32, 0), kind: GridLineKind::XAxis },
        GridSegment { start: (0, (-e) as i32), end: (0, e as i32), kind: GridLineKind::ZAxis },
    ]
}

/// The number of grid positions from `-e` to `e`.
pub open spec fn grid_positions(e: int) -> nat {
    if e >= 0 { (2 * e + 1) as nat } else { 0 }
}

/// `seg` is a line of the grid across the whole extent `-e..e`: parallel to
/// X at some `z` or parallel to Z at some `x`, that position lying in
/// `-e..=e` and not being 0.
pub open spec fn spans_grid(seg: GridSegment, e: int) -> bool {
    &&& seg.kind == GridLineKind::Grid
    &&& {
        ||| seg.start.0 == -e && seg.end.0 == e && seg.start.1 == seg.end.1 && -e <= seg.start.1 <= e
            && seg.start.1 != 0
        ||| seg.start.1 == -e && seg.end.1 == e && seg.start.0 == seg.end.0 && -e <= seg.start.0 <= e
            && seg.start.0 != 0
    }
}

/// Where the two lines through position `t` stand among the grid lines:
/// positions are taken from `-e` upwards, 0 being skipped.
pub open spec fn grid_slot(e: int, t: int) -> int {
    if t > 0 { t + e - 1 } else { t + e }
}

/// The line of the grid parallel to X at `z = t`.
pub open spec fn x_line(e: int, t: int) -> GridSegment {
    GridSegment { start: ((-e) as i32, t as i32), end: (e as i32, t as i32), kind: GridLineKind::Grid }
}

/// The line of the grid parallel to Z at `x = t`.
pub open spec fn z_line(e: int, t: int) -> GridSegment {
    GridSegment { start: (t as i32, (-e) as i32), end: (t as i32, e as i32), kind: GridLineKind::Grid }
}

/// Every line of the grid runs across the whole extent, from `-e` to `e`
/// along its own axis, at a position of `-e..=e` other than 0; and through
/// every such position the grid has both its line parallel to X and its
/// line parallel to Z.
pub proof fn lemma_grid_spans(e: int)
    requires
        -(i32::MAX as int) <= e <= i32::MAX,
    ensures
        forall|i: int|
            0 <= i < grid_lines(e, grid_positions(e)).len() ==> spans_grid(
                #[trigger] grid_lines(e, grid_positions(e))[i],
                e,
            ),
        forall|t: int|
            -e <= t <= e && t != 0 ==> grid_lines(e, grid_positions(e)).contains(#[trigger] x_line(e, t))
                && grid_lines(e, grid_positions(e)).contains(z_line(e, t)),
        forall|t: int|
            -e <= t <= e && t != 0 ==> grid_lines(e, grid_positions(e))[2 * grid_slot(e, t)] == #[trigger] x_line(e, t)
                && grid_lines(e, grid_positions(e))[2 * grid_slot(e, t) + 1] == z_line(e, t),
{
    lemma_grid_lines_shape(e, grid_positions(e));
}

proof fn lemma_grid_lines_shape(e: int, n: nat)
    requires
        -(i32::MAX as int) <= e <= i32::MAX,
        n <= grid_positions(e),
    ensures
        forall|i: int| 0 <= i < grid_lines(e, n).len() ==> spans_grid(#[trigger] grid_lines(e, n)[i], e),
        forall|t: int|
            -e <= t < -e + n && t != 0 ==> grid_lines(e, n).contains(#[trigger] x_line(e, t))
                && grid_lines(e, n).contains(z_line(e, t)),
        forall|t: int|
            -e <= t < -e + n && t != 0 ==> grid_lines(e, n)[2 * grid_slot(e, t)] == #[trigger] x_line(e, t)
                && grid_lines(e, n)[2 * grid_slot(e, t) + 1] == z_line(e, t),
    decreases n,
{
    if n > 0 {
        let t = -e + (n - 1);
        let before = grid_lines(e, (n - 1) as nat);
        lemma_grid_lines_shape(e, (n - 1) as nat);
        let lines = grid_lines(e, n);
        lemma_grid_lines_len(e, (n - 1) as nat);
        if t != 0 {
            assert(lines == before + seq![x_line(e, t), z_line(e, t)]);
            assert(before.len() == 2 * grid_slot(e, t));
            assert forall|u: int| -e <= u < -e + n && u != 0 implies lines[2 * grid_slot(e, u)] == #[trigger] x_line(e, u)
                && lines[2 * grid_slot(e, u) + 1] == z_line(e, u) by {
                if u < t {
                    assert(before[2 * grid_slot(e, u)] == x_line(e, u));
                }
            }
            assert(lines[before.len() as int] == x_line(e, t));
            assert(lines[before.len() + 1int] == z_line(e, t));
            assert forall|i: int| 0 <= i < lines.len() implies spans_grid(#[trigger] lines[i], e) by {
                if i < before.len() {
                    assert(lines[i] == before[i]);
                }
            }
            assert forall|u: int| -e <= u < -e + n && u != 0 implies lines.contains(#[trigger] x_line(e, u))
                && lines.contains(z_line(e, u)) by {
                if u < t {
                    let a = choose|a: int| 0 <= a < before.len() && before[a] == x_line(e, u);
                    let b = choose|b: int| 0 <= b < before.len() && before[b] == z_line(e, u);
                    assert(lines[a] == x_line(e, u));
                    assert(lines[b] == z_line(e, u));
                }
            }
        } else {
            assert(lines == before);
        }
    }
}

/// The ground grid from `-half_extent` to `half_extent` on both axes: two
/// lines through each whole position but 0, then the X and Z axes.
pub fn grid_segments(half_extent: i32) -> (lines: Vec<GridSegment>)
    requires
        half_extent > i32::MIN,
    ensures
        lines@ == grid_lines(half_extent as int, grid_positions(half_extent as int)) + grid_axes(half_extent as int),
        lines@.len() == 2 + (if half_extent >= 0 { 4 * half_extent } else { 0int }),
        forall|i: int| 0 <= i < lines@.len() - 2 ==> spans_grid(#[trigger] lines@[i], half_extent as int),
        forall|t: int|
            -half_extent <= t <= half_extent && t != 0 ==> lines@.contains(#[trigger] x_line(half_extent as int, t))
                && lines@.contains(z_line(half_extent as int, t)),
        forall|t: int|
            -half_extent <= t <= half_extent && t != 0 ==> lines@[2 * grid_slot(half_extent as int, t)] == #[trigger] x_line(
                half_extent as int,
                t,
            ) && lines@[2 * grid_slot(half_extent as int, t) + 1] == z_line(half_extent as int, t),
        lines@[lines@.len() - 2] == (GridSegment { start: ((-half_extent) as i32, 0), end: (half_extent, 0), kind: GridLineKind::XAxis }),
        lines@[lines@.len() - 1] == (GridSegment { start: (0, (-half_extent) as i32), end: (0, half_extent), kind: GridLineKind::ZAxis }),
{
    let e = half_extent;
    let mut lines: Vec<GridSegment> = Vec::new();
    let mut t: i64 = -(e as i64);
    while t <= e as i64
        invariant
            e > i32::MIN,
            -(e as int) <= t,
            t <= e as int + 1 || (e < 0 && t == -(e as int)),
            lines@ == grid_lines(e as int, (t + e) as nat),
        decreases e as int + 1 - t,
    {
        let i = t as i32;
        if i != 0 {
            lines.push(GridSegment { start: (-e, i), end: (e, i), kind: GridLineKind::Grid });
            lines.push(GridSegment { start: (i, -e), end: (i, e), kind: GridLineKind::Grid });
        }
        t += 1;
    }
    proof {
        if e >= 0 {
            assert((t + e) as nat == grid_positions(e as int));
        } else {
            assert(grid_lines(e as int, (t + e) as nat) == grid_lines(e as int, 0));
        }
    }
    lines.push(GridSegment { start: (-e, 0), end: (e, 0), kind: GridLineKind::XAxis });
    lines.push(GridSegment { start: (0, -e), end: (0, e), kind: GridLineKind::ZAxis });
    proof {
        let ei = e as int;
        let grid = grid_lines(ei, grid_positions(ei));
        lemma_grid_spans(ei);
        if ei >= 0 {
            lemma_grid_line_count(ei);
        }
        assert(lines@ == grid + grid_axes(ei));
        assert forall|i: int| 0 <= i < lines@.len() - 2 implies spans_grid(#[trigger] lines@[i], ei) by {
            assert(lines@[i] == grid[i]);
        }
        assert forall|t: int| -ei <= t <= ei && t != 0 implies lines@.contains(#[trigger] x_line(ei, t))
            && lines@.contains(z_line(ei, t)) by {
            let a = choose|a: int| 0 <= a < grid.len() && grid[a] == x_line(ei, t);
            let b = choose|b: int| 0 <= b < grid.len() && grid[b] == z_line(ei, t);
            assert(lines@[a] == x_line(ei, t));
            assert(lines@[b] == z_line(ei, t));
        }
        assert forall|t: int| -ei <= t <= ei && t != 0 implies lines@[2 * grid_slot(ei, t)] == #[trigger] x_line(ei, t)
            && lines@[2 * grid_slot(ei, t) + 1] == z_line(ei, t) by {
            assert(grid[2 * grid_slot(ei, t)] == x_line(ei, t));
        }
    }
    lines
}


/// The grid has two lines through each position from `-e` to `e` but the
/// origin: `4e` lines, besides the two axes.
pub proof fn lemma_grid_line_count(e: int)
    requires
        e >= 0,
    ensures
        grid_lines(e, grid_positions(e)).len() == 4 * e,
{
    lemma_grid_lines_len(e, grid_positions(e));
}

proof fn lemma_grid_lines_len(e: int, n: nat)
    requires
        e >= 0,
        n <= 2 * e + 1,
    ensures
        grid_lines(e, n).len() == 2 * n - (if n >= e + 1 { 2int } else { 0int }),
    decreases n,
{
    if n > 0 {
        lemma_grid_lines_len(e, (n - 1) as nat);
    }
}

/// The bones to the children of `joint` among the first `n` of `kids`: one
/// to each child that is a joint of the skin and has a world transform.
pub open spec fn child_bones(joints: Seq<usize>, kids: Seq<usize>, has_world: Seq<bool>, joint: usize, n: int) -> Seq<(usize, usize)>
    decreases n,
{
    if n <= 0 {
        Seq::empty()
    } else {
        let c = kids[n - 1];
        let before = child_bones(joints, kids, has_world, joint, n - 1);
        if joints.contains(c) && has_world[c as int] {
            before.push((joint, c))
        } else {
            before
        }
    }
}

/// The bones of the first `n` joints of a skin: for each joint that has a
/// world transform, its bones to its children in order.
pub open spec fn skin_bones(joints: Seq<usize>, children: Seq<Vec<usize>>, has_world: Seq<bool>, n: int) -> Seq<(usize, usize)>
    decreases n,
{
    if n <= 0 {
        Seq::empty()
    } else {
        let j = joints[n - 1];
        let before = skin_bones(joints, children, has_world, n - 1);
        if has_world[j as int] {
            before + child_bones(joints, children[j as int]@, has_world, j, children[j as int]@.len() as int)
        } else {
            before
        }
    }
}

/// The bones of the first `n` skins, skin by skin.
pub open spec fn all_bones(skins: Seq<Vec<usize>>, children: Seq<Vec<usize>>, has_world: Seq<bool>, n: int) -> Seq<(usize, usize)>
    decreases n,
{
    if n <= 0 {
        Seq::empty()
    } else {
        all_bones(skins, children, has_world, n - 1) + skin_bones(
            skins[n - 1]@,
            children,
            has_world,
            skins[n - 1]@.len() as int,
        )
    }
}

/// `c` gets a bone from its parent joint in a skin of joints `joints`: it is
/// itself a joint of the skin and has a world transform.
pub open spec fn bone_child(joints: Seq<usize>, has_world: Seq<bool>) -> spec_fn(usize) -> bool {
    |c: usize| joints.contains(c) && has_world[c as int]
}

/// The bone from `joint` to a child `c`.
pub open spec fn bone_from(joint: usize) -> spec_fn(usize) -> (usize, usize) {
    |c: usize| (joint, c)
}

/// The bones from `joint` to the children `kids` of its node: one to each
/// child that is a joint of the skin and has a world transform, in the
/// order of the children, and no other.
pub proof fn lemma_child_bones_exact(joints: Seq<usize>, kids: Seq<usize>, has_world: Seq<bool>, joint: usize)
    ensures
        child_bones(joints, kids, has_world, joint, kids.len() as int) == kids.filter(
            bone_child(joints, has_world),
        ).map_values(bone_from(joint)),
{
    lemma_child_bones_prefix(joints, kids, has_world, joint, kids.len() as int);
    assert(kids.take(kids.len() as int) =~= kids);
}

proof fn lemma_child_bones_prefix(joints: Seq<usize>, kids: Seq<usize>, has_world: Seq<bool>, joint: usize, n: int)
    requires
        0 <= n <= kids.len(),
    ensures
        child_bones(joints, kids, has_world, joint, n) == kids.take(n).filter(bone_child(joints, has_world)).map_values(
            bone_from(joint),
        ),
    decreases n,
{
    let f = bone_from(joint);
    let p = bone_child(joints, has_world);
    if n == 0 {
        reveal(Seq::filter);
        assert(kids.take(0).filter(p) =~= Seq::<usize>::empty());
        assert(kids.take(0).filter(p).map_values(f) =~= Seq::<(usize, usize)>::empty());
    } else {
        lemma_child_bones_prefix(joints, kids, has_world, joint, n - 1);
        let t = kids.take(n);
        assert(t =~= kids.take(n - 1).push(kids[n - 1]));
        kids.take(n - 1).lemma_filter_push(kids[n - 1], p);
        let sub = kids.take(n - 1).filter(p);
        if p(kids[n - 1]) {
            assert(t.filter(p) == sub.push(kids[n - 1]));
            assert(sub.push(kids[n - 1]).map_values(f) =~= sub.map_values(f).push(f(kids[n - 1])));
        } else {
            assert(t.filter(p) == sub);
        }
    }
}

proof fn lemma_concat_contains<A>(a: Seq<A>, b: Seq<A>, x: A)
    ensures
        (a + b).contains(x) <==> a.contains(x) || b.contains(x),
{
    if (a + b).contains(x) {
        let i = choose|i: int| 0 <= i < (a + b).len() && (a + b)[i] == x;
        if i >= a.len() {
            assert(b[i - a.len()] == x);
        }
    }
    if a.contains(x) {
        let i = choose|i: int| 0 <= i < a.len() && a[i] == x;
        assert((a + b)[i] == x);
    }
    if b.contains(x) {
        let i = choose|i: int| 0 <= i < b.len() && b[i] == x;
        assert((a + b)[a.len() + i] == x);
    }
}

proof fn lemma_child_bones_members(joints: Seq<usize>, kids: Seq<usize>, has_world: Seq<bool>, joint: usize, n: int)
    requires
        0 <= n <= kids.len(),
    ensures
        forall|r: int|
            0 <= r < n && joints.contains(#[trigger] kids[r]) && has_world[kids[r] as int] ==> child_bones(
                joints,
                kids,
                has_world,
                joint,
                n,
            ).contains((joint, kids[r])),
        forall|x: (usize, usize)|
            #[trigger] child_bones(joints, kids, has_world, joint, n).contains(x) ==> x.0 == joint && kids.contains(x.1)
                && joints.contains(x.1) && has_world[x.1 as int],
    decreases n,
{
    if n > 0 {
        lemma_child_bones_members(joints, kids, has_world, joint, n - 1);
        let before = child_bones(joints, kids, has_world, joint, n - 1);
        let c = kids[n - 1];
        let now = child_bones(joints, kids, has_world, joint, n);
        if joints.contains(c) && has_world[c as int] {
            assert(now == before.push((joint, c)));
            assert(now[before.len() as int] == (joint, c));
            assert forall|r: int|
                0 <= r < n && joints.contains(#[trigger] kids[r]) && has_world[kids[r] as int] implies now.contains(
                (joint, kids[r]),
            ) by {
                if r < n - 1 {
                    let i = choose|i: int| 0 <= i < before.len() && before[i] == (joint, kids[r]);
                    assert(now[i] == (joint, kids[r]));
                }
            }
            assert forall|x: (usize, usize)| #[trigger] now.contains(x) implies x.0 == joint && kids.contains(x.1)
                && joints.contains(x.1) && has_world[x.1 as int] by {
                let i = choose|i: int| 0 <= i < now.len() && now[i] == x;
                if i < before.len() {
                    assert(before[i] == x);
                    assert(before.contains(x));
                } else {
                    assert(kids[n - 1] == x.1);
                }
            }
        } else {
            assert(now == before);
            assert forall|r: int|
                0 <= r < n && joints.contains(#[trigger] kids[r]) && has_world[kids[r] as int] implies now.contains(
                (joint, kids[r]),
            ) by {
                if r == n - 1 {
                    assert(false);
                }
            }
        }
    }
}

proof fn lemma_skin_bones_members(joints: Seq<usize>, children: Seq<Vec<usize>>, has_world: Seq<bool>, n: int)
    requires
        0 <= n <= joints.len(),
    ensures
        forall|q: int, r: int|
            0 <= q < n && has_world[joints[q] as int] && 0 <= r < children[joints[q] as int]@.len() && joints.contains(
                #[trigger] children[#[trigger] joints[q] as int]@[r],
            ) && has_world[children[joints[q] as int]@[r] as int] ==> skin_bones(joints, children, has_world, n).contains(
                (joints[q], children[joints[q] as int]@[r]),
            ),
        forall|x: (usize, usize)|
            #[trigger] skin_bones(joints, children, has_world, n).contains(x) ==> joints.contains(x.0) && has_world[x.0 as int]
                && children[x.0 as int]@.contains(x.1) && joints.contains(x.1) && has_world[x.1 as int],
    decreases n,
{
    if n > 0 {
        lemma_skin_bones_members(joints, children, has_world, n - 1);
        let j = joints[n - 1];
        let before = skin_bones(joints, children, has_world, n - 1);
        let now = skin_bones(joints, children, has_world, n);
        let kids = children[j as int]@;
        if has_world[j as int] {
            let mine = child_bones(joints, kids, has_world, j, kids.len() as int);
            lemma_child_bones_members(joints, kids, has_world, j, kids.len() as int);
            assert(now == before + mine);
            assert forall|q: int, r: int|
                0 <= q < n && has_world[joints[q] as int] && 0 <= r < children[joints[q] as int]@.len()
                    && joints.contains(#[trigger] children[#[trigger] joints[q] as int]@[r]) && has_world[children[joints[q] as int]@[r] as int]
                implies now.contains((joints[q], children[joints[q] as int]@[r])) by {
                lemma_concat_contains(before, mine, (joints[q], children[joints[q] as int]@[r]));
                if q == n - 1 {
                    assert(joints.contains(kids[r]));
                }
            }
            assert forall|x: (usize, usize)| #[trigger] now.contains(x) implies joints.contains(x.0) && has_world[x.0 as int]
                && children[x.0 as int]@.contains(x.1) && joints.contains(x.1) && has_world[x.1 as int] by {
                lemma_concat_contains(before, mine, x);
                if mine.contains(x) {
                    assert(joints[n - 1] == j);
                }
            }
        } else {
            assert(now == before);
        }
    }
}

proof fn lemma_all_bones_members(skins: Seq<Vec<usize>>, children: Seq<Vec<usize>>, has_world: Seq<bool>, n: int)
    requires
        0 <= n <= skins.len(),
    ensures
        forall|s: int, q: int, r: int|
            0 <= s < n && 0 <= q < skins[s]@.len() && has_world[skins[s]@[q] as int] && 0 <= r
                < children[skins[s]@[q] as int]@.len() && skins[s]@.contains(
                #[trigger] children[#[trigger] skins[s]@[q] as int]@[r],
            ) && has_world[children[skins[s]@[q] as int]@[r] as int] ==> all_bones(skins, children, has_world, n).contains(
                (skins[s]@[q], children[skins[s]@[q] as int]@[r]),
            ),
        forall|x: (usize, usize)|
            #[trigger] all_bones(skins, children, has_world, n).contains(x) ==> exists|s: int|
                0 <= s < n && #[trigger] skins[s]@.contains(x.0) && skins[s]@.contains(x.1) && has_world[x.0 as int]
                    && has_world[x.1 as int] && children[x.0 as int]@.contains(x.1),
    decreases n,
{
    if n > 0 {
        lemma_all_bones_members(skins, children, has_world, n - 1);
        let before = all_bones(skins, children, has_world, n - 1);
        let joints = skins[n - 1]@;
        let mine = skin_bones(joints, children, has_world, joints.len() as int);
        lemma_skin_bones_members(joints, children, has_world, joints.len() as int);
        let now = all_bones(skins, children, has_world, n);
        assert(now == before + mine);
        assert forall|s: int, q: int, r: int|
            0 <= s < n && 0 <= q < skins[s]@.len() && has_world[skins[s]@[q] as int] && 0 <= r
                < children[skins[s]@[q] as int]@.len() && skins[s]@.contains(
                #[trigger] children[#[trigger] skins[s]@[q] as int]@[r],
            ) && has_world[children[skins[s]@[q] as int]@[r] as int] implies now.contains(
            (skins[s]@[q], children[skins[s]@[q] as int]@[r]),
        ) by {
            lemma_concat_contains(before, mine, (skins[s]@[q], children[skins[s]@[q] as int]@[r]));
        }
        assert forall|x: (usize, usize)| #[trigger] now.contains(x) implies exists|s: int|
            0 <= s < n && #[trigger] skins[s]@.contains(x.0) && skins[s]@.contains(x.1) && has_world[x.0 as int]
                && has_world[x.1 as int] && children[x.0 as int]@.contains(x.1) by {
            lemma_concat_contains(before, mine, x);
            if mine.contains(x) {
                assert(skins[n - 1]@.contains(x.0));
            }
        }
    }
}

/// Whether node `j` has a world transform.
pub open spec fn in_world(has_world: Seq<bool>) -> spec_fn(usize) -> bool {
    |j: usize| has_world[j as int]
}

/// The bones of joint `j` of a skin: to each child of its node that is a
/// joint of the skin and has a world transform, in the children's order.
pub open spec fn joint_bones(joints: Seq<usize>, children: Seq<Vec<usize>>, has_world: Seq<bool>) -> spec_fn(usize) -> Seq<(usize, usize)> {
    |j: usize| children[j as int]@.filter(bone_child(joints, has_world)).map_values(bone_from(j))
}

/// The bones of a skin: those of each of its joints that has a world
/// transform, joint after joint.
pub open spec fn skin_bone_list(children: Seq<Vec<usize>>, has_world: Seq<bool>) -> spec_fn(Vec<usize>) -> Seq<(usize, usize)> {
    |joints: Vec<usize>|
        joints@.filter(in_world(has_world)).map_values(joint_bones(joints@, children, has_world)).flatten()
}

proof fn lemma_skin_bones_closed(joints: Seq<usize>, children: Seq<Vec<usize>>, has_world: Seq<bool>, n: int)
    requires
        0 <= n <= joints.len(),
    ensures
        skin_bones(joints, children, has_world, n) == joints.take(n).filter(in_world(has_world)).map_values(
            joint_bones(joints, children, has_world),
        ).flatten(),
    decreases n,
{
    let w = in_world(has_world);
    let jb = joint_bones(joints, children, has_world);
    if n == 0 {
        reveal(Seq::filter);
        assert(joints.take(0).filter(w) =~= Seq::<usize>::empty());
        assert(joints.take(0).filter(w).map_values(jb) =~= Seq::<Seq<(usize, usize)>>::empty());
    } else {
        lemma_skin_bones_closed(joints, children, has_world, n - 1);
        let j = joints[n - 1];
        assert(joints.take(n) =~= joints.take(n - 1).push(j));
        joints.take(n - 1).lemma_filter_push(j, w);
        let sub = joints.take(n - 1).filter(w);
        if has_world[j as int] {
            assert(sub.push(j).map_values(jb) =~= sub.map_values(jb).push(jb(j)));
            sub.map_values(jb).lemma_flatten_push(jb(j));
            lemma_child_bones_exact(joints, children[j as int]@, has_world, j);
        }
    }
}

proof fn lemma_all_bones_closed(skins: Seq<Vec<usize>>, children: Seq<Vec<usize>>, has_world: Seq<bool>, n: int)
    requires
        0 <= n <= skins.len(),
    ensures
        all_bones(skins, children, has_world, n) == skins.take(n).map_values(skin_bone_list(children, has_world)).flatten(),
    decreases n,
{
    let sb = skin_bone_list(children, has_world);
    if n == 0 {
        assert(skins.take(0).map_values(sb) =~= Seq::<Seq<(usize, usize)>>::empty());
    } else {
        lemma_all_bones_closed(skins, children, has_world, n - 1);
        let sk = skins[n - 1];
        assert(skins.take(n) =~= skins.take(n - 1).push(sk));
        assert(skins.take(n).map_values(sb) =~= skins.take(n - 1).map_values(sb).push(sb(sk)));
        skins.take(n - 1).map_values(sb).lemma_flatten_push(sb(sk));
        lemma_skin_bones_closed(sk@, children, has_world, sk@.len() as int);
        assert(sk@.take(sk@.len() as int) =~= sk@);
    }
}

/// The bones, in full: skin after skin, for each joint of the skin that has
/// a world transform, one bone to each child of its node that is a joint
/// of the same skin and has a world transform, in the children's order.
/// So a joint has exactly as many bones as it has such children.
pub proof fn lemma_bones_closed_form(skins: Seq<Vec<usize>>, children: Seq<Vec<usize>>, has_world: Seq<bool>)
    ensures
        all_bones(skins, children, has_world, skins.len() as int) == skins.map_values(
            skin_bone_list(children, has_world),
        ).flatten(),
{
    lemma_all_bones_closed(skins, children, has_world, skins.len() as int);
    assert(skins.take(skins.len() as int) =~= skins);
}

/// The bones are exactly the pairs (joint, child) of a skin: for every
/// joint of a skin that has a world transform and every child of its node
/// that is a joint of the same skin and has a world transform, the bone
/// from the joint to that child is drawn; and every bone drawn is such a
/// pair.
pub proof fn lemma_bones_are_joint_child_pairs(skins: Seq<Vec<usize>>, children: Seq<Vec<usize>>, has_world: Seq<bool>)
    ensures
        forall|s: int, q: int, r: int|
            0 <= s < skins.len() && 0 <= q < skins[s]@.len() && has_world[skins[s]@[q] as int] && 0 <= r
                < children[skins[s]@[q] as int]@.len() && skins[s]@.contains(
                #[trigger] children[#[trigger] skins[s]@[q] as int]@[r],
            ) && has_world[children[skins[s]@[q] as int]@[r] as int] ==> all_bones(
                skins,
                children,
                has_world,
                skins.len() as int,
            ).contains((skins[s]@[q], children[skins[s]@[q] as int]@[r])),
        forall|x: (usize, usize)|
            #[trigger] all_bones(skins, children, has_world, skins.len() as int).contains(x) ==> exists|s: int|
                0 <= s < skins.len() && #[trigger] skins[s]@.contains(x.0) && skins[s]@.contains(x.1) && has_world[x.0 as int]
                    && has_world[x.1 as int] && children[x.0 as int]@.contains(x.1),
{
    lemma_all_bones_members(skins, children, has_world, skins.len() as int);
}

/// Every joint of every skin names a node of the document.
pub open spec fn skins_well_formed(skins: Seq<Vec<usize>>, node_count: int) -> bool {
    forall|s: int, j: int|
        0 <= s < skins.len() && 0 <= j < skins[s]@.len() ==> #[trigger] skins[s]@[j] < node_count
}

/// The bones that the viewport draws: for each skin, for each of its
/// joints that has a world transform, one bone (joint, child) to each
/// child node that is a joint of the same skin and has a world transform.
/// `children[n]` are the children of node `n`, `has_world[n]` whether node
/// `n` lies in the drawn scene.
pub fn bone_segments(skins: &Vec<Vec<usize>>, children: &Vec<Vec<usize>>, has_world: &Vec<bool>) -> (bones: Vec<(usize, usize)>)
    requires
        children@.len() == has_world@.len(),
        skins_well_formed(skins@, has_world@.len() as int),
    ensures
        bones@ == all_bones(skins@, children@, has_world@, skins@.len() as int),
        bones@ == skins@.map_values(skin_bone_list(children@, has_world@)).flatten(),
        forall|s: int, q: int, r: int|
            0 <= s < skins@.len() && 0 <= q < skins@[s]@.len() && has_world@[skins@[s]@[q] as int] && 0 <= r
                < children@[skins@[s]@[q] as int]@.len() && skins@[s]@.contains(
                #[trigger] children@[#[trigger] skins@[s]@[q] as int]@[r],
            ) && has_world@[children@[skins@[s]@[q] as int]@[r] as int] ==> bones@.contains(
                (skins@[s]@[q], children@[skins@[s]@[q] as int]@[r]),
            ),
        forall|x: (usize, usize)|
            #[trigger] bones@.contains(x) ==> exists|s: int|
                0 <= s < skins@.len() && #[trigger] skins@[s]@.contains(x.0) && skins@[s]@.contains(x.1)
                    && has_world@[x.0 as int] && has_world@[x.1 as int] && children@[x.0 as int]@.contains(x.1),
{
    proof {
        lemma_bones_are_joint_child_pairs(skins@, children@, has_world@);
        lemma_bones_closed_form(skins@, children@, has_world@);
    }
    let mut bones: Vec<(usize, usize)> = Vec::new();
    let mut s: usize = 0;
    while s < skins.len()
        invariant
            s <= skins@.len(),
            children@.len() == has_world@.len(),
            skins_well_formed(skins@, has_world@.len() as int),
            bones@ == all_bones(skins@, children@, has_world@, s as int),
        decreases skins.len() - s,
    {
        let joints = &skins[s];
        let mut joint_set: HashSet<usize> = HashSet::new();
        let mut k: usize = 0;
        while k < joints.len()
            invariant
                k <= joints@.len(),
                forall|v: usize| #[trigger] joint_set@.contains(v) <==> joints@.take(k as int).contains(v),
            decreases joints.len() - k,
        {
            joint_set.insert(joints[k]);
            proof {
                let t = joints@.take(k + 1);
                assert(t == joints@.take(k as int).push(joints@[k as int]));
                assert forall|v: usize| #[trigger] joint_set@.contains(v) <==> t.contains(v) by {
                    if joints@.take(k as int).contains(v) {
                        let q = choose|q: int| 0 <= q < k && joints@.take(k as int)[q] == v;
                        assert(t[q] == v);
                    }
                    if t.contains(v) && v != joints@[k as int] {
                        let q = choose|q: int| 0 <= q < k + 1 && t[q] == v;
                        assert(joints@.take(k as int)[q] == v);
                    }
                    if v == joints@[k as int] {
                        assert(t[k as int] == v);
                    }
                }
            }
            k += 1;
        }
        assert(joints@.take(k as int) =~= joints@);
        let ghost start = bones@;
        let mut j: usize = 0;
        while j < joints.len()
            invariant
                s < skins@.len(),
                *joints == skins@[s as int],
                j <= joints@.len(),
                children@.len() == has_world@.len(),
                skins_well_formed(skins@, has_world@.len() as int),
                forall|v: usize| #[trigger] joint_set@.contains(v) <==> joints@.contains(v),
                bones@ == start + skin_bones(joints@, children@, has_world@, j as int),
            decreases joints.len() - j,
        {
            let joint = joints[j];
            assert(skins@[s as int]@[j as int] == joint);
            if has_world[joint] {
                let kids = &children[joint];
                let ghost mid = bones@;
                let mut c: usize = 0;
                while c < kids.len()
                    invariant
                        c <= kids@.len(),
                        s < skins@.len(),
                        *joints == skins@[s as int],
                        skins_well_formed(skins@, has_world@.len() as int),
                        *kids == children@[joint as int],
                        children@.len() == has_world@.len(),
                        forall|v: usize| #[trigger] joint_set@.contains(v) <==> joints@.contains(v),
                        bones@ == mid + child_bones(joints@, kids@, has_world@, joint, c as int),
                    decreases kids.len() - c,
                {
                    let child = kids[c];
                    if joint_set.contains(&child) {
                        proof {
                            assert(joints@.contains(child));
                            let q = choose|q: int| 0 <= q < joints@.len() && joints@[q] == child;
                            assert(skins@[s as int]@[q] == child);
                        }
                        if has_world[child] {
                            bones.push((joint, child));
                        }
                    }
                    c += 1;
                }
            }
            j += 1;
        }
        s += 1;
    }
    bones
}

} // verus!
