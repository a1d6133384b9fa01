use model_viewer::lines::{bone_segments, grid_segments, GridLineKind, GridSegment};

fn seg(start: (i32, i32), end: (i32, i32), kind: GridLineKind) -> GridSegment {
    GridSegment { start, end, kind }
}

#[test]
fn grid_of_extent_one() {
    let g = GridLineKind::Grid;
    assert_eq!(
        grid_segments(1),
        vec![
            seg((-1, -1), (1, -1), g),
            seg((-1, -1), (-1, 1), g),
            seg((-1, 1), (1, 1), g),
            seg((1, -1), (1, 1), g),
            seg((-1, 0), (1, 0), GridLineKind::XAxis),
            seg((0, -1), (0, 1), GridLineKind::ZAxis),
        ]
    );
}

#[test]
fn grid_of_extent_zero_has_only_axes() {
    assert_eq!(
        grid_segments(0),
        vec![seg((0, 0), (0, 0), GridLineKind::XAxis), seg((0, 0), (0, 0), GridLineKind::ZAxis)]
    );
}

#[test]
fn grid_line_count_is_four_per_unit_plus_axes() {
    for e in [2, 5, 20] {
        let lines = grid_segments(e);
        assert_eq!(lines.len(), 4 * e as usize + 2);
        assert_eq!(lines.iter().filter(|l| l.kind == GridLineKind::Grid).count(), 4 * e as usize);
    }
}

#[test]
fn grid_of_negative_extent_has_flipped_axes_only() {
    assert_eq!(
        grid_segments(-3),
        vec![seg((3, 0), (-3, 0), GridLineKind::XAxis), seg((0, 3), (0, -3), GridLineKind::ZAxis)]
    );
}

#[test]
fn bones_link_joints_to_joint_children() {
    // node 0 -> 1 -> 2, node 1 -> 3 (3 is no joint), node 4 has no world transform
    let children = vec![vec![1], vec![2, 3], vec![], vec![], vec![0]];
    let has_world = vec![true, true, true, true, false];
    let skins = vec![vec![0, 1, 2, 4]];
    assert_eq!(bone_segments(&skins, &children, &has_world), vec![(0, 1), (1, 2)]);
}

#[test]
fn bones_skip_children_without_world_transform() {
    let children = vec![vec![1, 2], vec![], vec![]];
    let has_world = vec![true, false, true];
    let skins = vec![vec![0, 1, 2], vec![2, 0]];
    assert_eq!(bone_segments(&skins, &children, &has_world), vec![(0, 2), (0, 2)]);
}

#[test]
fn no_skins_no_bones() {
    assert!(bone_segments(&vec![], &vec![vec![]], &vec![true]).is_empty());
}
