use hypervox::color::pack_color;
use hypervox::voxel::{fill_voxel_range, fill_voxels_composing, plan_voxel_grid, AxisMappingError, GridPlan};

/// A sign grid on a lattice `nd` nodes a side, set where `f(x, y, z)` holds.
fn signs(nd: usize, f: impl Fn(usize, usize, usize) -> bool) -> Vec<bool> {
    let mut g = Vec::new();
    for z in 0..nd {
        for y in 0..nd {
            for x in 0..nd {
                g.push(f(x, y, z));
            }
        }
    }
    g
}

#[test]
fn single_voxel_with_mixed_corners_is_filled() {
    let red = pack_color((0xFF, 0, 0));
    let grids = vec![(signs(2, |x, y, z| x == 0 && y == 0 && z == 0), red)];
    let (cells, count) = fill_voxels_composing(&grids, 2);
    assert_eq!(cells, vec![red]);
    assert_eq!(count, 1);
}

#[test]
fn uniform_signs_fill_nothing() {
    let red = pack_color((0xFF, 0, 0));
    for value in [true, false] {
        let grids = vec![(signs(3, |_, _, _| value), red)];
        let (cells, count) = fill_voxels_composing(&grids, 3);
        assert_eq!(cells, vec![0; 8]);
        assert_eq!(count, 0);
    }
}

#[test]
fn first_crossing_grid_gives_the_color() {
    let a = pack_color((1, 0, 0));
    let b = pack_color((0, 2, 0));
    let c = pack_color((0, 0, 3));
    let grids = vec![
        (signs(2, |_, _, _| true), a),
        (signs(2, |x, _, _| x == 1), b),
        (signs(2, |_, y, _| y == 1), c),
    ];
    let (cells, count) = fill_voxels_composing(&grids, 2);
    assert_eq!(cells, vec![b]);
    assert_eq!(count, 1);
}

#[test]
fn plane_fills_one_layer_of_voxels() {
    let green = pack_color((0, 0xFF, 0));
    let grids = vec![(signs(3, |x, _, _| x == 0), green)];
    let (cells, count) = fill_voxels_composing(&grids, 3);
    assert_eq!(cells, vec![green, 0, green, 0, green, 0, green, 0]);
    assert_eq!(count, 4);
}

#[test]
fn voxel_index_is_x_then_y_then_z() {
    let blue = pack_color((0, 0, 0xFF));
    // Only the node (2, 2, 2) is set: only voxel (1, 1, 1) has it as a corner.
    let grids = vec![(signs(3, |x, y, z| x == 2 && y == 2 && z == 2), blue)];
    let (cells, count) = fill_voxels_composing(&grids, 3);
    let mut expected = vec![0; 8];
    expected[1 + 2 + 4] = blue;
    assert_eq!(cells, expected);
    assert_eq!(count, 1);
}

#[test]
fn no_grids_no_voxels_filled() {
    let grids: Vec<(Vec<bool>, u32)> = vec![];
    let (cells, count) = fill_voxels_composing(&grids, 4);
    assert_eq!(cells, vec![0; 27]);
    assert_eq!(count, 0);
}

#[test]
fn lattice_of_one_or_no_node_has_no_voxel() {
    let grids: Vec<(Vec<bool>, u32)> = vec![(vec![true], 5)];
    assert_eq!(fill_voxels_composing(&grids, 1), (vec![], 0));
    let grids: Vec<(Vec<bool>, u32)> = vec![(vec![], 5)];
    assert_eq!(fill_voxels_composing(&grids, 0), (vec![], 0));
}

#[test]
fn range_fill_matches_whole_fill() {
    let c1 = pack_color((9, 9, 9));
    let c2 = pack_color((8, 8, 8));
    let grids = vec![
        (signs(4, |x, y, z| x + y + z <= 3), c1),
        (signs(4, |x, _, z| x == z), c2),
    ];
    let (whole, count) = fill_voxels_composing(&grids, 4);
    assert_eq!(whole.len(), 27);
    let mut joined = Vec::new();
    let mut total = 0;
    for (start, len) in [(0, 5), (5, 0), (5, 13), (18, 9)] {
        let (part, n) = fill_voxel_range(&grids, 4, start, len);
        assert_eq!(part.len(), len);
        assert_eq!(&part[..], &whole[start..start + len]);
        joined.extend(part);
        total += n;
    }
    assert_eq!(joined, whole);
    assert_eq!(total, count);
}

#[test]
fn plan_of_empty_grid() {
    assert_eq!(plan_voxel_grid(0, 0, 5, 6, 7), Ok(GridPlan::Empty));
}

#[test]
fn plan_rejects_axis_out_of_range() {
    assert_eq!(
        plan_voxel_grid(4, 3, 0, 1, 3),
        Err(AxisMappingError { x_dim: 0, y_dim: 1, z_dim: 3, ndim: 3 })
    );
    assert_eq!(
        plan_voxel_grid(4, 2, 2, 0, 1),
        Err(AxisMappingError { x_dim: 2, y_dim: 0, z_dim: 1, ndim: 2 })
    );
}

#[test]
fn plan_samples_one_node_more_than_voxels() {
    assert_eq!(plan_voxel_grid(16, 4, 1, 2, 3), Ok(GridPlan::Sample { node_dim: 17 }));
    assert_eq!(plan_voxel_grid(usize::MAX, 3, 0, 1, 2), Ok(GridPlan::Sample { node_dim: usize::MAX }));
}
