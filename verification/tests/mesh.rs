use hypervox::color::pack_color;
use hypervox::mesh::{face_corner, face_offset, merge_face_meshes, process_z_range_multi, FaceMesh};

fn grid(size: usize, filled: &[(usize, usize, usize)], color: u32) -> Vec<u32> {
    let mut g = vec![0; size * size * size];
    for &(x, y, z) in filled {
        g[x + y * size + z * size * size] = color;
    }
    g
}

#[test]
fn face_tables() {
    assert_eq!(face_offset(0), (1, 0, 0));
    assert_eq!(face_offset(1), (-1, 0, 0));
    assert_eq!(face_offset(3), (0, -1, 0));
    assert_eq!(face_offset(5), (0, 0, -1));
    assert_eq!(face_corner(0, 0), (1, 0, 0));
    assert_eq!(face_corner(1, 0), (0, 0, 1));
    assert_eq!(face_corner(2, 2), (1, 1, 1));
    assert_eq!(face_corner(5, 3), (1, 0, 0));
}

#[test]
fn lone_voxel_draws_six_faces() {
    let c = pack_color((10, 20, 30));
    let g = grid(1, &[(0, 0, 0)], c);
    let m = process_z_range_multi(0, 1, &g, 1);
    assert_eq!(m.faces.len(), 6);
    for (d, f) in m.faces.iter().enumerate() {
        assert_eq!((f.x, f.y, f.z, f.dir as usize, f.color), (0, 0, 0, d, c));
    }
    let occ: Vec<(u8, u8, u8, u8)> = m.faces.iter().map(|f| f.occlusion).collect();
    assert_eq!(
        occ,
        vec![(1, 0, 0, 0), (1, 0, 1, 0), (1, 0, 0, 0), (0, 1, 0, 1), (1, 0, 0, 0), (0, 1, 0, 1)]
    );
    assert_eq!(
        m.indices,
        vec![
            0, 1, 3, 1, 2, 3, 4, 5, 7, 5, 6, 7, 8, 9, 11, 9, 10, 11, 12, 13, 14, 12, 14, 15, 16,
            17, 19, 17, 18, 19, 20, 21, 22, 20, 22, 23
        ]
    );
}

#[test]
fn touching_voxels_hide_shared_faces() {
    let c = pack_color((1, 1, 1));
    let g = grid(2, &[(0, 0, 0), (1, 0, 0)], c);
    let m = process_z_range_multi(0, 2, &g, 2);
    let keys: Vec<(u16, u8)> = m.faces.iter().map(|f| (f.x, f.dir)).collect();
    assert_eq!(
        keys,
        vec![(0, 1), (0, 2), (0, 3), (0, 4), (0, 5), (1, 0), (1, 2), (1, 3), (1, 4), (1, 5)]
    );
    assert_eq!(m.indices.len(), 60);
}

#[test]
fn buried_voxel_draws_nothing() {
    let c = pack_color((3, 3, 3));
    let mut all = Vec::new();
    for z in 0..3 {
        for y in 0..3 {
            for x in 0..3 {
                all.push((x, y, z));
            }
        }
    }
    let g = grid(3, &all, c);
    let m = process_z_range_multi(0, 3, &g, 3);
    assert_eq!(m.faces.len(), 54);
    assert!(m.faces.iter().all(|f| (f.x, f.y, f.z) != (1, 1, 1)));
    assert_eq!(m.indices.len(), 6 * 54);
}

#[test]
fn empty_ranges_draw_nothing() {
    let g = grid(2, &[(0, 0, 0)], 7);
    let m = process_z_range_multi(1, 1, &g, 2);
    assert!(m.faces.is_empty() && m.indices.is_empty());
    let m = process_z_range_multi(2, 1, &g, 2);
    assert!(m.faces.is_empty() && m.indices.is_empty());
}

#[test]
fn corner_occlusion_counts_neighbours() {
    // An L of three voxels in the bottom layer.
    let c = pack_color((5, 5, 5));
    let g = grid(2, &[(0, 0, 0), (1, 0, 0), (0, 1, 0)], c);
    let m = process_z_range_multi(0, 2, &g, 2);
    let top = m.faces.iter().find(|f| (f.x, f.y, f.z, f.dir) == (0, 0, 0, 4)).unwrap();
    // corners of +Z: (0,0,1), (1,0,1), (1,1,1), (0,1,1); each sees the voxel
    // below it at z = 0 when that one is filled.
    assert_eq!(top.occlusion, (1, 1, 0, 1));
}

#[test]
fn merged_chunks_equal_whole_mesh() {
    let c = pack_color((200, 100, 50));
    let g = grid(4, &[(0, 0, 0), (1, 1, 1), (2, 1, 1), (3, 3, 3), (1, 2, 2), (1, 2, 3)], c);
    let whole = process_z_range_multi(0, 4, &g, 4);
    let parts: Vec<FaceMesh> = vec![
        process_z_range_multi(0, 1, &g, 4),
        process_z_range_multi(1, 3, &g, 4),
        process_z_range_multi(3, 3, &g, 4),
        process_z_range_multi(3, 4, &g, 4),
    ];
    let merged = merge_face_meshes(&parts);
    assert_eq!(merged.faces, whole.faces);
    assert_eq!(merged.indices, whole.indices);
}
