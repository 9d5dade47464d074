//! Which faces of a voxel grid are drawn, how dark each of their corners is,
//! and how each face is cut into two triangles.
//!
//! A grid of `s` voxels a side stores voxel `(x, y, z)` at
//! `x + y * s + z * s * s`; a nonzero cell is filled. A face of a filled voxel
//! is drawn when the voxel next to it across that face is not filled (outside
//! the grid nothing is). Each drawn face has four corners; a corner is darker
//! the more of three voxels around it are filled (its ambient occlusion).
//! Vertex `4 * j + k` is corner `k` of the `j`-th drawn face, and every face
//! adds six vertex indices, two triangles, cut along the diagonal whose
//! corners are lighter.
use vstd::prelude::*;
use crate::color::PackedColor;

verus! {

/// Index numbers wrap around at `2^32`.
pub open spec fn wrap32(n: nat) -> u32 {
    (n % 0x1_0000_0000) as u32
}

/// The unit step from a voxel across face `d`: faces `0..6` are
/// `+X, -X, +Y, -Y, +Z, -Z`.
pub open spec fn dir_offset(d: nat) -> (int, int, int) {
    if d == 0 {
        (1, 0, 0)
    } else if d == 1 {
        (-1, 0, 0)
    } else if d == 2 {
        (0, 1, 0)
    } else if d == 3 {
        (0, -1, 0)
    } else if d == 4 {
        (0, 0, 1)
    } else {
        (0, 0, -1)
    }
}

/// Corner `i` of face `d` of the unit cube, each coordinate `0` or `1`, in
/// the order the face's vertices are listed.
pub open spec fn dir_corner(d: nat, i: nat) -> (nat, nat, nat) {
    if d == 0 {
        if i == 0 {
            (1, 0, 0)
        } else if i == 1 {
            (1, 1, 0)
        } else if i == 2 {
            (1, 1, 1)
        } else {
            (1, 0, 1)
        }
    } else if d == 1 {
        if i == 0 {
            (0, 0, 1)
        } else if i == 1 {
            (0, 1, 1)
        } else if i == 2 {
            (0, 1, 0)
        } else {
            (0, 0, 0)
        }
    } else if d == 2 {
        if i == 0 {
            (0, 1, 0)
        } else if i == 1 {
            (0, 1, 1)
        } else if i == 2 {
            (1, 1, 1)
        } else {
            (1, 1, 0)
        }
    } else if d == 3 {
        if i == 0 {
            (0, 0, 0)
        } else if i == 1 {
            (1, 0, 0)
        } else if i == 2 {
            (1, 0, 1)
        } else {
            (0, 0, 1)
        }
    } else if d == 4 {
        if i == 0 {
            (0, 0, 1)
        } else if i == 1 {
            (1, 0, 1)
        } else if i == 2 {
            (1, 1, 1)
        } else {
            (0, 1, 1)
        }
    } else {
        if i == 0 {
            (0, 0, 0)
        } else if i == 1 {
            (0, 1, 0)
        } else if i == 2 {
            (1, 1, 0)
        } else {
            (1, 0, 0)
        }
    }
}

/// The voxel `(x, y, z)` lies in the grid and is filled.
pub open spec fn occupied(c: Seq<PackedColor>, s: int, x: int, y: int, z: int) -> bool {
    &&& 0 <= x < s
    &&& 0 <= y < s
    &&& 0 <= z < s
    &&& x + y * s + z * (s * s) < c.len()
    &&& c[x + y * s + z * (s * s)] != 0
}

/// `1` for a filled voxel, `0` otherwise.
pub open spec fn occupied_count(c: Seq<PackedColor>, s: int, x: int, y: int, z: int) -> nat {
    if occupied(c, s, x, y, z) {
        1
    } else {
        0
    }
}

/// How many of the three voxels below the lattice point `(px, py, pz)` along
/// each axis are filled: the occlusion of a face corner at that point.
pub open spec fn point_occlusion(c: Seq<PackedColor>, s: int, px: int, py: int, pz: int) -> nat {
    occupied_count(c, s, px - 1, py, pz) + occupied_count(c, s, px, py - 1, pz) + occupied_count(
        c,
        s,
        px,
        py,
        pz - 1,
    )
}

/// The occlusion of corner `i` of face `d` of voxel `(x, y, z)`.
pub open spec fn corner_occlusion(
    c: Seq<PackedColor>,
    s: int,
    x: int,
    y: int,
    z: int,
    d: nat,
    i: nat,
) -> nat {
    let k = dir_corner(d, i);
    point_occlusion(c, s, x + k.0, y + k.1, z + k.2)
}

/// Face `d` of voxel `(x, y, z)` is drawn.
pub open spec fn face_visible(c: Seq<PackedColor>, s: int, x: int, y: int, z: int, d: nat) -> bool {
    let o = dir_offset(d);
    occupied(c, s, x, y, z) && !occupied(c, s, x + o.0, y + o.1, z + o.2)
}

/// The drawn faces `(x, y, z, d)` of voxel `(x, y, z)` among faces `0..n`.
pub open spec fn voxel_faces(c: Seq<PackedColor>, s: int, x: nat, y: nat, z: nat, n: nat) -> Seq<
    (nat, nat, nat, nat),
>
    decreases n,
{
    if n == 0 {
        Seq::empty()
    } else {
        voxel_faces(c, s, x, y, z, (n - 1) as nat) + if face_visible(
            c,
            s,
            x as int,
            y as int,
            z as int,
            (n - 1) as nat,
        ) {
            seq![(x, y, z, (n - 1) as nat)]
        } else {
            Seq::empty()
        }
    }
}

/// The drawn faces of voxels `0..n` of row `y` of layer `z`.
pub open spec fn row_faces(c: Seq<PackedColor>, s: int, y: nat, z: nat, n: nat) -> Seq<
    (nat, nat, nat, nat),
>
    decreases n,
{
    if n == 0 {
        Seq::empty()
    } else {
        row_faces(c, s, y, z, (n - 1) as nat) + voxel_faces(c, s, (n - 1) as nat, y, z, 6)
    }
}

/// The drawn faces of rows `0..n` of layer `z`.
pub open spec fn layer_faces(c: Seq<PackedColor>, s: int, z: nat, n: nat) -> Seq<
    (nat, nat, nat, nat),
>
    decreases n,
{
    if n == 0 {
        Seq::empty()
    } else {
        layer_faces(c, s, z, (n - 1) as nat) + row_faces(c, s, (n - 1) as nat, z, s as nat)
    }
}

/// The drawn faces of layers `lo..hi`, layer after layer, row after row,
/// voxel after voxel, face after face.
pub open spec fn range_faces(c: Seq<PackedColor>, s: int, lo: nat, hi: nat) -> Seq<
    (nat, nat, nat, nat),
>
    decreases hi,
{
    if hi <= lo {
        Seq::empty()
    } else {
        range_faces(c, s, lo, (hi - 1) as nat) + layer_faces(c, s, (hi - 1) as nat, s as nat)
    }
}

/// A drawn face: its voxel, its direction (`0..6` as in [`face_offset`]), the
/// voxel's color, and the occlusion (`0..=3`) of its four corners.
#[derive(Debug, Clone, Copy, PartialEq, Eq)]
pub struct Face {
    pub x: u16,
    pub y: u16,
    pub z: u16,
    pub dir: u8,
    pub color: PackedColor,
    pub occlusion: (u8, u8, u8, u8),
}

/// `f` is face `key = (x, y, z, d)` of the grid `c`, `s` voxels a side.
pub open spec fn describes(
    f: Face,
    c: Seq<PackedColor>,
    s: int,
    key: (nat, nat, nat, nat),
) -> bool {
    let (x, y, z, d) = key;
    &&& f.x == x
    &&& f.y == y
    &&& f.z == z
    &&& f.dir == d
    &&& f.color == c[x + y * s + z * (s * s)]
    &&& f.occlusion.0 == corner_occlusion(c, s, x as int, y as int, z as int, d, 0)
    &&& f.occlusion.1 == corner_occlusion(c, s, x as int, y as int, z as int, d, 1)
    &&& f.occlusion.2 == corner_occlusion(c, s, x as int, y as int, z as int, d, 2)
    &&& f.occlusion.3 == corner_occlusion(c, s, x as int, y as int, z as int, d, 3)
}

/// `faces` are the faces `keys` of the grid `c`, one for one, in order.
pub open spec fn lists_faces(
    faces: Seq<Face>,
    c: Seq<PackedColor>,
    s: int,
    keys: Seq<(nat, nat, nat, nat)>,
) -> bool {
    &&& faces.len() == keys.len()
    &&& forall|j: int| 0 <= j < faces.len() ==> describes(#[trigger] faces[j], c, s, keys[j])
}

/// How much light a corner with occlusion `o` keeps, in twentieths: the
/// shading factors `1`, `3/4`, `1/2` and `3/10`.
pub open spec fn light(o: u8) -> nat {
    if o == 0 {
        20
    } else if o == 1 {
        15
    } else if o == 2 {
        10
    } else {
        6
    }
}

/// The face is cut along the diagonal through corners 0 and 2 when those two
/// corners are together lighter than corners 1 and 3.
pub open spec fn cut_through_first(o: (u8, u8, u8, u8)) -> bool {
    light(o.0) + light(o.2) > light(o.1) + light(o.3)
}

/// The six vertex indices of the `j`-th drawn face.
pub open spec fn quad_indices(j: nat, o: (u8, u8, u8, u8)) -> Seq<u32> {
    let v0 = wrap32(4 * j);
    let v1 = wrap32(4 * j + 1);
    let v2 = wrap32(4 * j + 2);
    let v3 = wrap32(4 * j + 3);
    if cut_through_first(o) {
        seq![v0, v1, v2, v0, v2, v3]
    } else {
        seq![v0, v1, v3, v1, v2, v3]
    }
}

/// The vertex indices of a list of drawn faces, six per face.
pub open spec fn mesh_indices(faces: Seq<Face>) -> Seq<u32>
    decreases faces.len(),
{
    if faces.len() == 0 {
        Seq::empty()
    } else {
        mesh_indices(faces.drop_last()) + quad_indices(
            (faces.len() - 1) as nat,
            faces.last().occlusion,
        )
    }
}

/// The faces of a range of layers, with their vertex indices.
pub struct FaceMesh {
    pub faces: Vec<Face>,
    pub indices: Vec<u32>,
}

/// The step across face `d` (`0..6`: `+X, -X, +Y, -Y, +Z, -Z`).
pub fn face_offset(d: u8) -> (r: (i32, i32, i32))
    requires
        d < 6,
    ensures
        r.0 == dir_offset(d as nat).0,
        r.1 == dir_offset(d as nat).1,
        r.2 == dir_offset(d as nat).2,
{
    if d == 0 {
        (1, 0, 0)
    } else if d == 1 {
        (-1, 0, 0)
    } else if d == 2 {
        (0, 1, 0)
    } else if d == 3 {
        (0, -1, 0)
    } else if d == 4 {
        (0, 0, 1)
    } else {
        (0, 0, -1)
    }
}

/// Corner `i` (`0..4`) of face `d` (`0..6`) of the unit cube.
pub fn face_corner(d: u8, i: u8) -> (r: (u8, u8, u8))
    requires
        d < 6,
        i < 4,
    ensures
        r.0 == dir_corner(d as nat, i as nat).0,
        r.1 == dir_corner(d as nat, i as nat).1,
        r.2 == dir_corner(d as nat, i as nat).2,
{
    if d == 0 {
        if i == 0 {
            (1, 0, 0)
        } else if i == 1 {
            (1, 1, 0)
        } else if i == 2 {
            (1, 1, 1)
        } else {
            (1, 0, 1)
        }
    } else if d == 1 {
        if i == 0 {
            (0, 0, 1)
        } else if i == 1 {
            (0, 1, 1)
        } else if i == 2 {
            (0, 1, 0)
        } else {
            (0, 0, 0)
        }
    } else if d == 2 {
        if i == 0 {
            (0, 1, 0)
        } else if i == 1 {
            (0, 1, 1)
        } else if i == 2 {
            (1, 1, 1)
        } else {
            (1, 1, 0)
        }
    } else if d == 3 {
        if i == 0 {
            (0, 0, 0)
        } else if i == 1 {
            (1, 0, 0)
        } else if i == 2 {
            (1, 0, 1)
        } else {
            (0, 0, 1)
        }
    } else if d == 4 {
        if i == 0 {
            (0, 0, 1)
        } else if i == 1 {
            (1, 0, 1)
        } else if i == 2 {
            (1, 1, 1)
        } else {
            (0, 1, 1)
        }
    } else {
        if i == 0 {
            (0, 0, 0)
        } else if i == 1 {
            (0, 1, 0)
        } else if i == 2 {
            (1, 1, 0)
        } else {
            (1, 0, 0)
        }
    }
}

/// Index of voxel `(x, y, z)` in a grid `grid_size` voxels a side.
fn grid_index(x: usize, y: usize, z: usize, grid_size: usize) -> (r: usize)
    requires
        x < grid_size,
        y < grid_size,
        z < grid_size,
        grid_size * grid_size * grid_size <= usize::MAX,
    ensures
        r == x + y * grid_size + z * (grid_size * grid_size),
        r < grid_size * grid_size * grid_size,
{
    assert(x + y * grid_size + z * (grid_size * grid_size) < grid_size * grid_size * grid_size)
        by (nonlinear_arith)
        requires
            x < grid_size,
            y < grid_size,
            z < grid_size,
    ;
    assert(y * grid_size <= grid_size * grid_size && z * (grid_size * grid_size) <= grid_size
        * grid_size * grid_size && grid_size * grid_size <= grid_size * grid_size * grid_size)
        by (nonlinear_arith)
        requires
            x < grid_size,
            y < grid_size,
            z < grid_size,
    ;
    x + y * grid_size + z * (grid_size * grid_size)
}

/// Whether voxel `(x, y, z)` lies in the grid and is filled.
fn is_occupied(
    composite: &[PackedColor],
    x: i32,
    y: i32,
    z: i32,
    grid_size: i32,
    grid_size_usize: usize,
) -> (r: bool)
    requires
        grid_size == grid_size_usize,
        grid_size_usize * grid_size_usize * grid_size_usize <= usize::MAX,
    ensures
        r == occupied(composite@, grid_size as int, x as int, y as int, z as int),
{
    if !(0 <= x && x < grid_size) || !(0 <= y && y < grid_size) || !(0 <= z && z < grid_size) {
        return false;
    }
    let idx = grid_index(x as usize, y as usize, z as usize, grid_size_usize);
    idx < composite.len() && composite[idx] != 0
}


/// The occlusion at the lattice point `(px, py, pz)`.
fn occlusion_at(
    composite: &[PackedColor],
    px: i32,
    py: i32,
    pz: i32,
    grid_size: i32,
    grid_size_usize: usize,
) -> (r: u8)
    requires
        grid_size == grid_size_usize,
        grid_size_usize * grid_size_usize * grid_size_usize <= usize::MAX,
        0 <= px <= grid_size,
        0 <= py <= grid_size,
        0 <= pz <= grid_size,
        grid_size <= u16::MAX,
    ensures
        r == point_occlusion(composite@, grid_size as int, px as int, py as int, pz as int),
        r <= 3,
{
    let mut occlusion: u8 = 0;
    if is_occupied(composite, px - 1, py, pz, grid_size, grid_size_usize) {
        occlusion = occlusion + 1;
    }
    if is_occupied(composite, px, py - 1, pz, grid_size, grid_size_usize) {
        occlusion = occlusion + 1;
    }
    if is_occupied(composite, px, py, pz - 1, grid_size, grid_size_usize) {
        occlusion = occlusion + 1;
    }
    occlusion
}

/// The lattice point at corner `k` (`0..8`) of voxel `(x, y, z)`: bit 0 of
/// `k` steps along X, bit 1 along Y, bit 2 along Z.
pub open spec fn corner_point_occlusion(
    c: Seq<PackedColor>,
    s: int,
    x: int,
    y: int,
    z: int,
    k: nat,
) -> nat {
    point_occlusion(c, s, x + k % 2, y + (k / 2) % 2, z + k / 4)
}

/// Bit `k` of the mask is set.
pub open spec fn mask_has(mask: u8, k: u8) -> bool {
    mask & (1u8 << k) != 0
}

/// The cache holds the occlusion of every corner of voxel `(x, y, z)` whose
/// bit is set in the mask.
pub open spec fn cache_holds(
    mask: u8,
    cache: Seq<u8>,
    c: Seq<PackedColor>,
    s: int,
    x: int,
    y: int,
    z: int,
) -> bool {
    &&& cache.len() == 8
    &&& forall|k: u8| k < 8 && #[trigger] mask_has(mask, k) ==> cache[k as int]
        == corner_point_occlusion(c, s, x, y, z, k as nat)
}

proof fn bv_mask(m: u8, k: u8, j: u8)
    by (bit_vector)
    requires
        k < 8,
        j < 8,
    ensures
        ((m | (1u8 << k)) & (1u8 << j) != 0) == ((m & (1u8 << j) != 0) || k == j),
        (m | (1u8 << k)) & (1u8 << k) != 0,
        0u8 & (1u8 << j) == 0,
{
}

/// The occlusion of corner `i` of face `d` of voxel `(x, y, z)`, computed
/// once per corner of the voxel and kept in `cache`.
fn corner_occlusion_cached(
    composite: &[PackedColor],
    x: i32,
    y: i32,
    z: i32,
    d: u8,
    i: u8,
    grid_size: i32,
    grid_size_usize: usize,
    mask: &mut u8,
    cache: &mut Vec<u8>,
) -> (r: u8)
    requires
        grid_size == grid_size_usize,
        grid_size_usize * grid_size_usize * grid_size_usize <= usize::MAX,
        grid_size <= u16::MAX,
        0 <= x < grid_size,
        0 <= y < grid_size,
        0 <= z < grid_size,
        d < 6,
        i < 4,
        cache_holds(
            *old(mask),
            old(cache)@,
            composite@,
            grid_size as int,
            x as int,
            y as int,
            z as int,
        ),
    ensures
        r == corner_occlusion(
            composite@,
            grid_size as int,
            x as int,
            y as int,
            z as int,
            d as nat,
            i as nat,
        ),
        r <= 3,
        cache_holds(
            *final(mask),
            final(cache)@,
            composite@,
            grid_size as int,
            x as int,
            y as int,
            z as int,
        ),
{
    let ghost c = composite@;
    let ghost s = grid_size as int;
    let (cx, cy, cz) = face_corner(d, i);
    let k: u8 = cx + 2 * cy + 4 * cz;
    assert(k % 2 == cx && (k / 2) % 2 == cy && k / 4 == cz);
    let kk = k as usize;
    let bit: u8 = 1u8 << k;
    let cur: u8 = *mask;
    assert(mask_has(cur, k) == (cur & bit != 0));
    if cur & bit == 0 {
        let occlusion = occlusion_at(
            composite,
            x + cx as i32,
            y + cy as i32,
            z + cz as i32,
            grid_size,
            grid_size_usize,
        );
        let ghost old_mask = *mask;
        *mask = cur | bit;
        cache.set(kk, occlusion);
        proof {
            assert forall|j: u8| j < 8 && #[trigger] mask_has(*mask, j) implies cache@[j as int]
                == corner_point_occlusion(c, s, x as int, y as int, z as int, j as nat) by {
                bv_mask(old_mask, k, j);
                if j != k {
                    assert(mask_has(old_mask, j));
                }
            }
            bv_mask(cur, k, k);
            assert(mask_has(*mask, k));
        }
    } else {
        assert(mask_has(*mask, k));
    }
    let r = cache[kk];
    r
}

/// How much light a corner with occlusion `o` keeps, in twentieths.
fn light_of(o: u8) -> (r: u8)
    ensures
        r == light(o),
{
    if o == 0 {
        20
    } else if o == 1 {
        15
    } else if o == 2 {
        10
    } else {
        6
    }
}

/// Adding up to four to a wrapped index number wraps the sum.
proof fn lemma_wrap_step(n: nat, k: nat)
    requires
        k <= 4,
    ensures
        vstd::wrapping::u32_specs::wrapping_add(wrap32(n), k as u32) == wrap32(n + k),
{
    let m: int = 0x1_0000_0000;
    let ni = n as int;
    let a: int = ni % m;
    vstd::arithmetic::div_mod::lemma_fundamental_div_mod(ni, m);
    let q: int = ni / m;
    assert(n == q * m + a);
    if a + k < m {
        vstd::arithmetic::div_mod::lemma_fundamental_div_mod_converse(
            (n + k) as int,
            m,
            q,
            a + k as int,
        );
    } else {
        vstd::arithmetic::div_mod::lemma_fundamental_div_mod_converse(
            (n + k) as int,
            m,
            q + 1,
            a + k as int - m,
        );
    }
}

/// A voxel none of whose faces is drawn contributes no face; in particular
/// an empty voxel, and a filled one whose six neighbours are all filled.
pub proof fn lemma_voxel_faces_none(c: Seq<PackedColor>, s: int, x: nat, y: nat, z: nat, n: nat)
    requires
        forall|d: nat| d < n ==> !#[trigger] face_visible(c, s, x as int, y as int, z as int, d),
    ensures
        voxel_faces(c, s, x, y, z, n) == Seq::<(nat, nat, nat, nat)>::empty(),
    decreases n,
{
    if n > 0 {
        lemma_voxel_faces_none(c, s, x, y, z, (n - 1) as nat);
        assert(!face_visible(c, s, x as int, y as int, z as int, (n - 1) as nat));
        assert(Seq::<(nat, nat, nat, nat)>::empty() + Seq::<(nat, nat, nat, nat)>::empty()
            == Seq::<(nat, nat, nat, nat)>::empty());
    }
}

proof fn lemma_mesh_indices_push(faces: Seq<Face>, f: Face)
    ensures
        mesh_indices(faces.push(f)) == mesh_indices(faces) + quad_indices(
            faces.len(),
            f.occlusion,
        ),
{
    assert(faces.push(f).drop_last() == faces);
}

/// Appends a drawn face and the six vertex indices of its two triangles.
fn push_face(faces: &mut Vec<Face>, indices: &mut Vec<u32>, vtx: &mut u32, face: Face)
    requires
        old(indices)@ == mesh_indices(old(faces)@),
        *old(vtx) == wrap32(4 * old(faces)@.len()),
    ensures
        final(faces)@ == old(faces)@.push(face),
        final(indices)@ == mesh_indices(final(faces)@),
        *final(vtx) == wrap32(4 * final(faces)@.len()),
{
    let ghost j = faces@.len();
    proof {
        lemma_mesh_indices_push(faces@, face);
        lemma_wrap_step(4 * j, 0);
        lemma_wrap_step(4 * j, 1);
        lemma_wrap_step(4 * j, 2);
        lemma_wrap_step(4 * j, 3);
        lemma_wrap_step(4 * j, 4);
    }
    faces.push(face);
    let start_idx = *vtx;
    let (o0, o1, o2, o3) = face.occlusion;
    if light_of(o0) + light_of(o2) > light_of(o1) + light_of(o3) {
        indices.push(start_idx);
        indices.push(start_idx.wrapping_add(1));
        indices.push(start_idx.wrapping_add(2));
        indices.push(start_idx);
        indices.push(start_idx.wrapping_add(2));
        indices.push(start_idx.wrapping_add(3));
    } else {
        indices.push(start_idx);
        indices.push(start_idx.wrapping_add(1));
        indices.push(start_idx.wrapping_add(3));
        indices.push(start_idx.wrapping_add(1));
        indices.push(start_idx.wrapping_add(2));
        indices.push(start_idx.wrapping_add(3));
    }
    *vtx = vtx.wrapping_add(4);
    assert(wrap32(4 * j + 0) == wrap32(4 * j));
    assert(4 * faces@.len() == 4 * j + 4);
}

/// The mesh built so far lists the faces `keys` of the grid `c`, with the
/// vertex indices of their triangles, and `vtx` numbers the next vertex.
pub open spec fn builds(
    faces: Seq<Face>,
    indices: Seq<u32>,
    vtx: u32,
    c: Seq<PackedColor>,
    s: int,
    keys: Seq<(nat, nat, nat, nat)>,
) -> bool {
    &&& lists_faces(faces, c, s, keys)
    &&& indices == mesh_indices(faces)
    &&& vtx == wrap32(4 * faces.len())
}

/// Appends the drawn faces of voxel `(x, y, z)`, in the order of their
/// directions, with their triangles.
fn add_voxel_faces(
    composite: &[PackedColor],
    x: u16,
    y: u16,
    z: u16,
    size: u16,
    faces: &mut Vec<Face>,
    indices: &mut Vec<u32>,
    vtx: &mut u32,
    Ghost(keys): Ghost<Seq<(nat, nat, nat, nat)>>,
)
    requires
        x < size,
        y < size,
        z < size,
        size * size * size <= usize::MAX,
        builds(old(faces)@, old(indices)@, *old(vtx), composite@, size as int, keys),
    ensures
        builds(
            final(faces)@,
            final(indices)@,
            *final(vtx),
            composite@,
            size as int,
            keys + voxel_faces(composite@, size as int, x as nat, y as nat, z as nat, 6),
        ),
{
    let ghost c = composite@;
    let ghost s = size as int;
    let ghost (xn, yn, zn) = (x as nat, y as nat, z as nat);
    let size_i32 = size as i32;
    let size_usize = size as usize;
    let idx = grid_index(x as usize, y as usize, z as usize, size_usize);
    if !(idx < composite.len() && composite[idx] != 0) {
        proof {
            lemma_voxel_faces_none(c, s, xn, yn, zn, 6);
            assert(keys + voxel_faces(c, s, xn, yn, zn, 6) == keys);
        }
        return;
    }
    let voxel_val = composite[idx];
    let xi = x as i32;
    let yi = y as i32;
    let zi = z as i32;
    // A voxel buried on all six sides draws nothing.
    let all_occluded = is_occupied(composite, xi + 1, yi, zi, size_i32, size_usize)
        && is_occupied(composite, xi - 1, yi, zi, size_i32, size_usize)
        && is_occupied(composite, xi, yi + 1, zi, size_i32, size_usize)
        && is_occupied(composite, xi, yi - 1, zi, size_i32, size_usize)
        && is_occupied(composite, xi, yi, zi + 1, size_i32, size_usize)
        && is_occupied(composite, xi, yi, zi - 1, size_i32, size_usize);
    if all_occluded {
        proof {
            lemma_voxel_faces_none(c, s, xn, yn, zn, 6);
            assert(keys + voxel_faces(c, s, xn, yn, zn, 6) == keys);
        }
        return;
    }
    // The occlusion of each of the voxel's eight corners, computed once.
    let mut mask: u8 = 0;
    let mut cache: Vec<u8> = Vec::new();
    let mut n: usize = 0;
    while n < 8
        invariant
            n <= 8,
            cache@.len() == n,
        decreases 8 - n,
    {
        cache.push(0);
        n = n + 1;
    }
    proof {
        assert forall|k: u8| k < 8 && #[trigger] mask_has(mask, k) implies false by {
            bv_mask(0, 0, k);
        }
    }
    let ghost mut done = keys;
    assert(keys + voxel_faces(c, s, xn, yn, zn, 0) == keys);
    let mut d: u8 = 0;
    while d < 6
        invariant
            c == composite@,
            s == size,
            size_i32 == size,
            size_usize == size,
            size * size * size <= usize::MAX,
            x < size,
            y < size,
            z < size,
            xi == x,
            yi == y,
            zi == z,
            (xn, yn, zn) == (x as nat, y as nat, z as nat),
            d <= 6,
            voxel_val == c[x + y * s + z * (s * s)],
            occupied(c, s, x as int, y as int, z as int),
            cache_holds(mask, cache@, c, s, x as int, y as int, z as int),
            done == keys + voxel_faces(c, s, xn, yn, zn, d as nat),
            builds(faces@, indices@, *vtx, c, s, done),
        decreases 6 - d,
    {
        let (dx, dy, dz) = face_offset(d);
        let ghost step = voxel_faces(c, s, xn, yn, zn, (d + 1) as nat);
        if !is_occupied(composite, xi + dx, yi + dy, zi + dz, size_i32, size_usize) {
            let o0 = corner_occlusion_cached(
                composite,
                xi,
                yi,
                zi,
                d,
                0,
                size_i32,
                size_usize,
                &mut mask,
                &mut cache,
            );
            let o1 = corner_occlusion_cached(
                composite,
                xi,
                yi,
                zi,
                d,
                1,
                size_i32,
                size_usize,
                &mut mask,
                &mut cache,
            );
            let o2 = corner_occlusion_cached(
                composite,
                xi,
                yi,
                zi,
                d,
                2,
                size_i32,
                size_usize,
                &mut mask,
                &mut cache,
            );
            let o3 = corner_occlusion_cached(
                composite,
                xi,
                yi,
                zi,
                d,
                3,
                size_i32,
                size_usize,
                &mut mask,
                &mut cache,
            );
            let face = Face { x, y, z, dir: d, color: voxel_val, occlusion: (o0, o1, o2, o3) };
            push_face(faces, indices, vtx, face);
            proof {
                let key = (xn, yn, zn, d as nat);
                assert(describes(face, c, s, key));
                assert(step == voxel_faces(c, s, xn, yn, zn, d as nat) + seq![key]);
                done = done.push(key);
                assert(done == keys + step);
            }
        } else {
            proof {
                assert(!face_visible(c, s, x as int, y as int, z as int, d as nat));
                assert(step == voxel_faces(c, s, xn, yn, zn, d as nat) + Seq::<
                    (nat, nat, nat, nat),
                >::empty());
                assert(done == keys + step);
            }
        }
        d = d + 1;
    }
}

/// The drawn faces of the voxels in layers `z_start..z_end` of the grid
/// `composite`, `size` voxels a side, in order, with the vertex indices of
/// their triangles.
pub fn process_z_range_multi(
    z_start: u16,
    z_end: u16,
    composite: &[PackedColor],
    size: u16,
) -> (r: FaceMesh)
    requires
        z_end <= size,
        size * size * size <= usize::MAX,
    ensures
        lists_faces(
            r.faces@,
            composite@,
            size as int,
            range_faces(composite@, size as int, z_start as nat, z_end as nat),
        ),
        r.indices@ == mesh_indices(r.faces@),
{
    let ghost c = composite@;
    let ghost s = size as int;
    let mut faces: Vec<Face> = Vec::new();
    let mut indices: Vec<u32> = Vec::new();
    let mut vtx: u32 = 0;
    let ghost mut keys: Seq<(nat, nat, nat, nat)> = Seq::empty();
    assert(range_faces(c, s, z_start as nat, z_start as nat) == keys);
    let mut z: u16 = z_start;
    while z < z_end
        invariant
            c == composite@,
            s == size,
            z_end <= size,
            size * size * size <= usize::MAX,
            z_start <= z,
            z_start < z_end ==> z <= z_end,
            z_start >= z_end ==> z == z_start,
            keys == range_faces(c, s, z_start as nat, z as nat),
            builds(faces@, indices@, vtx, c, s, keys),
        decreases z_end - z,
    {
        let ghost zkeys = keys;
        assert(zkeys + layer_faces(c, s, z as nat, 0) == zkeys);
        let mut y: u16 = 0;
        while y < size
            invariant
                c == composite@,
                s == size,
                z_end <= size,
                size * size * size <= usize::MAX,
                z_start <= z < z_end,
                y <= size,
                keys == zkeys + layer_faces(c, s, z as nat, y as nat),
                builds(faces@, indices@, vtx, c, s, keys),
            decreases size - y,
        {
            let ghost ykeys = keys;
            assert(ykeys + row_faces(c, s, y as nat, z as nat, 0) == ykeys);
            let mut x: u16 = 0;
            while x < size
                invariant
                    c == composite@,
                    s == size,
                    z_end <= size,
                    size * size * size <= usize::MAX,
                    z_start <= z < z_end,
                    y < size,
                    x <= size,
                    keys == ykeys + row_faces(c, s, y as nat, z as nat, x as nat),
                    builds(faces@, indices@, vtx, c, s, keys),
                decreases size - x,
            {
                add_voxel_faces(
                    composite,
                    x,
                    y,
                    z,
                    size,
                    &mut faces,
                    &mut indices,
                    &mut vtx,
                    Ghost(keys),
                );
                proof {
                    let vf = voxel_faces(c, s, x as nat, y as nat, z as nat, 6);
                    assert(row_faces(c, s, y as nat, z as nat, (x + 1) as nat) == row_faces(
                        c,
                        s,
                        y as nat,
                        z as nat,
                        x as nat,
                    ) + vf);
                    keys = keys + vf;
                    assert(keys == ykeys + row_faces(c, s, y as nat, z as nat, (x + 1) as nat));
                }
                x = x + 1;
            }
            proof {
                assert(layer_faces(c, s, z as nat, (y + 1) as nat) == layer_faces(
                    c,
                    s,
                    z as nat,
                    y as nat,
                ) + row_faces(c, s, y as nat, z as nat, s as nat));
                assert(keys == zkeys + layer_faces(c, s, z as nat, (y + 1) as nat));
            }
            y = y + 1;
        }
        proof {
            assert(range_faces(c, s, z_start as nat, (z + 1) as nat) == range_faces(
                c,
                s,
                z_start as nat,
                z as nat,
            ) + layer_faces(c, s, z as nat, s as nat));
        }
        z = z + 1;
    }
    assert(keys == range_faces(c, s, z_start as nat, z_end as nat));
    FaceMesh { faces, indices }
}

/// The faces of several meshes, one mesh after the other.
pub open spec fn merged_faces(parts: Seq<FaceMesh>) -> Seq<Face>
    decreases parts.len(),
{
    if parts.len() == 0 {
        Seq::empty()
    } else {
        merged_faces(parts.drop_last()) + parts.last().faces@
    }
}

/// Vertex indices moved up by `off`, wrapping at `2^32`.
pub open spec fn shifted(idx: Seq<u32>, off: nat) -> Seq<u32> {
    Seq::new(idx.len(), |i: int| wrap32(idx[i] as nat + off))
}

/// The vertex indices of several meshes, each moved past the vertices of
/// the meshes before it.
pub open spec fn merged_indices(parts: Seq<FaceMesh>) -> Seq<u32>
    decreases parts.len(),
{
    if parts.len() == 0 {
        Seq::empty()
    } else {
        merged_indices(parts.drop_last()) + shifted(
            parts.last().indices@,
            4 * merged_faces(parts.drop_last()).len(),
        )
    }
}

/// Puts meshes built apart into one: their faces one after the other, and
/// each mesh's vertex indices moved past the vertices of the meshes before.
pub fn merge_face_meshes(parts: &[FaceMesh]) -> (r: FaceMesh)
    ensures
        r.faces@ == merged_faces(parts@),
        r.indices@ == merged_indices(parts@),
{
    let mut faces: Vec<Face> = Vec::new();
    let mut indices: Vec<u32> = Vec::new();
    let mut v_off: u32 = 0;
    let mut p: usize = 0;
    while p < parts.len()
        invariant
            0 <= p <= parts@.len(),
            faces@ == merged_faces(parts@.subrange(0, p as int)),
            indices@ == merged_indices(parts@.subrange(0, p as int)),
            v_off == wrap32(4 * faces@.len()),
        decreases parts@.len() - p,
    {
        let part = &parts[p];
        let ghost before_faces = faces@;
        let ghost before_indices = indices@;
        let mut i: usize = 0;
        while i < part.indices.len()
            invariant
                0 <= i <= part.indices@.len(),
                v_off == wrap32(4 * before_faces.len()),
                indices@ == before_indices + shifted(
                    part.indices@,
                    4 * before_faces.len(),
                ).subrange(
                    0,
                    i as int,
                ),
            decreases part.indices@.len() - i,
        {
            let v = part.indices[i];
            proof {
                lemma_wrap_sum(v as nat, 4 * before_faces.len());
            }
            indices.push(v.wrapping_add(v_off));
            proof {
                assert(shifted(part.indices@, 4 * before_faces.len()).subrange(0, i + 1)
                    == shifted(part.indices@, 4 * before_faces.len()).subrange(0, i as int).push(
                    wrap32(v as nat + 4 * before_faces.len()),
                ));
            }
            i = i + 1;
        }
        let mut f: usize = 0;
        while f < part.faces.len()
            invariant
                0 <= f <= part.faces@.len(),
                faces@ == before_faces + part.faces@.subrange(0, f as int),
                v_off == wrap32(4 * faces@.len()),
            decreases part.faces@.len() - f,
        {
            let face = part.faces[f];
            proof {
                lemma_wrap_step(4 * faces@.len(), 4);
            }
            faces.push(face);
            v_off = v_off.wrapping_add(4);
            proof {
                assert(part.faces@.subrange(0, f + 1) == part.faces@.subrange(0, f as int).push(
                    face,
                ));
            }
            f = f + 1;
        }
        proof {
            let ps = parts@.subrange(0, p + 1);
            assert(ps.drop_last() == parts@.subrange(0, p as int));
            assert(ps.last() == *part);
            assert(part.faces@.subrange(0, part.faces@.len() as int) == part.faces@);
            assert(shifted(part.indices@, 4 * before_faces.len()).subrange(
                0,
                part.indices@.len() as int,
            ) == shifted(part.indices@, 4 * before_faces.len()));
        }
        p = p + 1;
    }
    assert(parts@.subrange(0, parts@.len() as int) == parts@);
    FaceMesh { faces, indices }
}

/// Adding an offset to a wrapped index wraps the sum.
proof fn lemma_wrap_sum(v: nat, off: nat)
    requires
        v < 0x1_0000_0000,
    ensures
        vstd::wrapping::u32_specs::wrapping_add(v as u32, wrap32(off)) == wrap32(v + off),
{
    let m: int = 0x1_0000_0000;
    let oi = off as int;
    let a: int = oi % m;
    vstd::arithmetic::div_mod::lemma_fundamental_div_mod(oi, m);
    let q: int = oi / m;
    assert(oi == q * m + a);
    if v + a < m {
        vstd::arithmetic::div_mod::lemma_fundamental_div_mod_converse(
            (v + off) as int,
            m,
            q,
            v + a,
        );
    } else {
        vstd::arithmetic::div_mod::lemma_fundamental_div_mod_converse(
            (v + off) as int,
            m,
            q + 1,
            v + a - m,
        );
    }
}

/// Wrapping twice is wrapping once.
proof fn lemma_wrap_wrap(n: nat, off: nat)
    ensures
        wrap32(wrap32(n) as nat + off) == wrap32(n + off),
{
    let m: int = 0x1_0000_0000;
    vstd::arithmetic::div_mod::lemma_fundamental_div_mod(n as int, m);
    let q: int = (n as int) / m;
    let r: int = (n as int) % m;
    assert(n + off == m * q + (r + off));
    vstd::arithmetic::div_mod::lemma_mod_multiples_vanish(q, r + off, m);
}

/// The indices of one face moved past `a` faces are those of the face `a` places later.
proof fn lemma_quad_shift(j: nat, a: nat, o: (u8, u8, u8, u8))
    ensures
        shifted(quad_indices(j, o), 4 * a) == quad_indices(a + j, o),
{
    let qa = quad_indices(a + j, o);
    let qb = quad_indices(j, o);
    lemma_wrap_wrap(4 * j, 4 * a);
    lemma_wrap_wrap(4 * j + 1, 4 * a);
    lemma_wrap_wrap(4 * j + 2, 4 * a);
    lemma_wrap_wrap(4 * j + 3, 4 * a);
    assert(4 * j + 4 * a == 4 * (a + j));
    assert(shifted(qb, 4 * a) =~= qa);
}

/// Moving indices distributes over concatenation.
proof fn lemma_shifted_concat(x: Seq<u32>, y: Seq<u32>, off: nat)
    ensures
        shifted(x + y, off) == shifted(x, off) + shifted(y, off),
{
    assert(shifted(x + y, off) =~= shifted(x, off) + shifted(y, off));
}

/// The indices of faces listed after others are those of the faces alone,
/// moved past the vertices of the others.
pub proof fn lemma_mesh_indices_concat(a: Seq<Face>, b: Seq<Face>)
    ensures
        mesh_indices(a + b) == mesh_indices(a) + shifted(mesh_indices(b), 4 * a.len()),
    decreases b.len(),
{
    if b.len() == 0 {
        assert(a + b == a);
        assert(shifted(mesh_indices(b), 4 * a.len()) =~= Seq::<u32>::empty());
        assert(mesh_indices(a) + Seq::<u32>::empty() == mesh_indices(a));
    } else {
        let bl = b.drop_last();
        let j = (b.len() - 1) as nat;
        let o = b.last().occlusion;
        lemma_mesh_indices_concat(a, bl);
        assert((a + b).drop_last() == a + bl);
        assert((a + b).last() == b.last());
        lemma_quad_shift(j, a.len(), o);
        lemma_shifted_concat(mesh_indices(bl), quad_indices(j, o), 4 * a.len());
        let ma = mesh_indices(a);
        let sb = shifted(mesh_indices(bl), 4 * a.len());
        let q = quad_indices(a.len() + j, o);
        assert(mesh_indices(a + b) == ma + sb + q);
        assert(ma + sb + q == ma + (sb + q));
    }
}

/// Every drawn face adds six vertex indices: two triangles.
pub proof fn lemma_mesh_indices_len(faces: Seq<Face>)
    ensures
        mesh_indices(faces).len() == 6 * faces.len(),
    decreases faces.len(),
{
    if faces.len() > 0 {
        lemma_mesh_indices_len(faces.drop_last());
    }
}

/// The faces of layers `lo..hi` are those of `lo..mid` followed by those of
/// `mid..hi`.
pub proof fn lemma_range_faces_split(c: Seq<PackedColor>, s: int, lo: nat, mid: nat, hi: nat)
    requires
        lo <= mid <= hi,
    ensures
        range_faces(c, s, lo, hi) == range_faces(c, s, lo, mid) + range_faces(c, s, mid, hi),
    decreases hi,
{
    if hi == mid {
        assert(range_faces(c, s, mid, hi) == Seq::<(nat, nat, nat, nat)>::empty());
        assert(range_faces(c, s, lo, mid) + Seq::<(nat, nat, nat, nat)>::empty() == range_faces(
            c,
            s,
            lo,
            mid,
        ));
    } else {
        lemma_range_faces_split(c, s, lo, mid, (hi - 1) as nat);
        let last = layer_faces(c, s, (hi - 1) as nat, s as nat);
        assert(range_faces(c, s, lo, mid) + (range_faces(c, s, mid, (hi - 1) as nat) + last) == (
        range_faces(c, s, lo, mid) + range_faces(c, s, mid, (hi - 1) as nat)) + last);
    }
}

/// Building the meshes of consecutive ranges of layers apart and merging
/// them gives the mesh of the whole range: the same faces in the same order,
/// and the same vertex indices.
pub proof fn lemma_merged_ranges(
    c: Seq<PackedColor>,
    s: int,
    bounds: Seq<nat>,
    parts: Seq<FaceMesh>,
)
    requires
        bounds.len() == parts.len() + 1,
        forall|i: int| 0 <= i < parts.len() ==> #[trigger] bounds[i] <= bounds[i + 1],
        forall|i: int|
            0 <= i < parts.len() ==> lists_faces(
                (#[trigger] parts[i]).faces@,
                c,
                s,
                range_faces(c, s, bounds[i], bounds[i + 1]),
            ) && parts[i].indices@ == mesh_indices(parts[i].faces@),
    ensures
        lists_faces(merged_faces(parts), c, s, range_faces(c, s, bounds[0], bounds.last())),
        merged_indices(parts) == mesh_indices(merged_faces(parts)),
    decreases parts.len(),
{
    if parts.len() == 0 {
        assert(range_faces(c, s, bounds[0], bounds[0]) == Seq::<(nat, nat, nat, nat)>::empty());
    } else {
        let n = parts.len() - 1;
        let pl = parts.drop_last();
        let bl = bounds.drop_last();
        assert forall|i: int| 0 <= i < pl.len() implies #[trigger] bl[i] <= bl[i + 1] by {
            assert(bounds[i] <= bounds[i + 1]);
        }
        assert forall|i: int|
            0 <= i < pl.len() implies lists_faces(
            (#[trigger] pl[i]).faces@,
            c,
            s,
            range_faces(c, s, bl[i], bl[i + 1]),
        ) && pl[i].indices@ == mesh_indices(pl[i].faces@) by {
            assert(pl[i] == parts[i]);
        }
        lemma_merged_ranges(c, s, bl, pl);
        let lo = bounds[0];
        let mid = bounds[n];
        let hi = bounds.last();
        assert(bl.last() == mid);
        assert(bounds[n] <= bounds[n + 1]);
        lemma_bounds_ordered(bounds, n);
        lemma_range_faces_split(c, s, lo, mid, hi);
        let a = merged_faces(pl);
        let b = parts.last().faces@;
        let ka = range_faces(c, s, lo, mid);
        let kb = range_faces(c, s, mid, hi);
        assert(parts[n] == parts.last());
        assert(lists_faces(b, c, s, kb));
        assert forall|j: int| 0 <= j < (a + b).len() implies describes(
            #[trigger] (a + b)[j],
            c,
            s,
            (ka + kb)[j],
        ) by {
            if j < a.len() {
                assert((a + b)[j] == a[j]);
                assert((ka + kb)[j] == ka[j]);
            } else {
                assert((a + b)[j] == b[j - a.len()]);
                assert((ka + kb)[j] == kb[j - ka.len()]);
            }
        }
        lemma_mesh_indices_concat(a, b);
    }
}

proof fn lemma_bounds_ordered(bounds: Seq<nat>, n: int)
    requires
        0 <= n < bounds.len(),
        forall|i: int| 0 <= i < bounds.len() - 1 ==> #[trigger] bounds[i] <= bounds[i + 1],
    ensures
        bounds[0] <= bounds[n],
    decreases n,
{
    if n > 0 {
        lemma_bounds_ordered(bounds, n - 1);
        assert(bounds[n - 1] <= bounds[n]);
    }
}

/// The step across each face is a unit step along one axis, the six faces
/// step in six different directions, and every corner of a face lies on the
/// side of the cube that its step leaves through: where the step is `+1` the
/// corner's coordinate is `1`, where it is `-1` it is `0`. So the voxel
/// checked before drawing a face is the one that face touches.
pub proof fn lemma_face_steps()
    ensures
        forall|d: nat|
            d < 6 ==> {
                let o = #[trigger] dir_offset(d);
                &&& -1 <= o.0 <= 1 && -1 <= o.1 <= 1 && -1 <= o.2 <= 1
                &&& (o.0 != 0) as int + (o.1 != 0) as int + (o.2 != 0) as int == 1
            },
        forall|d: nat, e: nat| d < 6 && e < 6 && d != e ==> #[trigger] dir_offset(d) != #[trigger] dir_offset(e),
        forall|d: nat, i: nat|
            d < 6 && i < 4 ==> {
                let o = dir_offset(d);
                let c = #[trigger] dir_corner(d, i);
                &&& (o.0 == 1 ==> c.0 == 1) && (o.0 == -1 ==> c.0 == 0)
                &&& (o.1 == 1 ==> c.1 == 1) && (o.1 == -1 ==> c.1 == 0)
                &&& (o.2 == 1 ==> c.2 == 1) && (o.2 == -1 ==> c.2 == 0)
            },
{
    assert forall|d: nat, i: nat| d < 6 && i < 4 implies {
        let o = dir_offset(d);
        let c = #[trigger] dir_corner(d, i);
        &&& (o.0 == 1 ==> c.0 == 1) && (o.0 == -1 ==> c.0 == 0)
        &&& (o.1 == 1 ==> c.1 == 1) && (o.1 == -1 ==> c.1 == 0)
        &&& (o.2 == 1 ==> c.2 == 1) && (o.2 == -1 ==> c.2 == 0)
    } by {
        assert(d == 0 || d == 1 || d == 2 || d == 3 || d == 4 || d == 5);
        assert(i == 0 || i == 1 || i == 2 || i == 3);
    }
}

/// The light a corner keeps falls strictly with its occlusion, in the
/// ratios `1 : 3/4 : 1/2 : 3/10`; so a face is cut through corners 0 and 2
/// exactly when those two are together less occluded, as weighed by these
/// factors (in hundredths), than corners 1 and 3.
pub proof fn lemma_light_order(o: (u8, u8, u8, u8))
    requires
        o.0 <= 3 && o.1 <= 3 && o.2 <= 3 && o.3 <= 3,
    ensures
        light(0) > light(1) > light(2) > light(3) > 0,
        4 * light(1) == 3 * light(0),
        2 * light(2) == light(0),
        10 * light(3) == 3 * light(0),
        cut_through_first(o) == (shade_percent(o.0) + shade_percent(o.2) > shade_percent(o.1)
            + shade_percent(o.3)),
{
}

/// The shading factor of occlusion `o` (`0..=3`), in hundredths.
pub open spec fn shade_percent(o: u8) -> int {
    if o == 0 {
        100
    } else if o == 1 {
        75
    } else if o == 2 {
        50
    } else {
        30
    }
}


/// The four corners of each face go round it: each is one step along one
/// axis from the one before (the fourth back to the first), they form a
/// parallelogram, and they turn counterclockwise seen from outside the cube:
/// the cross product of the first two edges is the face's outward step.
pub proof fn lemma_face_winding()
    ensures
        forall|d: nat, i: nat|
            d < 6 && i < 4 ==> {
                let a = #[trigger] dir_corner(d, i);
                let b = dir_corner(d, (i + 1) % 4);
                abs_diff(a.0, b.0) + abs_diff(a.1, b.1) + abs_diff(a.2, b.2) == 1
            },
        forall|d: nat| d < 6 ==> #[trigger] face_turns(d),
{
    assert forall|d: nat, i: nat| d < 6 && i < 4 implies {
        let a = #[trigger] dir_corner(d, i);
        let b = dir_corner(d, (i + 1) % 4);
        abs_diff(a.0, b.0) + abs_diff(a.1, b.1) + abs_diff(a.2, b.2) == 1
    } by {
        assert(d == 0 || d == 1 || d == 2 || d == 3 || d == 4 || d == 5);
        assert(i == 0 || i == 1 || i == 2 || i == 3);
    }
    assert forall|d: nat| d < 6 implies #[trigger] face_turns(d) by {
        let c0 = dir_corner(d, 0);
        let c1 = dir_corner(d, 1);
        let c2 = dir_corner(d, 2);
        let u = (c1.0 - c0.0, c1.1 - c0.1, c1.2 - c0.2);
        let v = (c2.0 - c1.0, c2.1 - c1.1, c2.2 - c1.2);
        if d == 0 {
            assert(dir_corner(0, 0) == (1nat, 0nat, 0nat));
            assert(dir_corner(0, 1) == (1nat, 1nat, 0nat));
            assert(dir_corner(0, 2) == (1nat, 1nat, 1nat));
            assert(dir_corner(0, 3) == (1nat, 0nat, 1nat));
            assert(dir_offset(0) == (1int, 0int, 0int));
        } else if d == 1 {
            assert(dir_corner(1, 0) == (0nat, 0nat, 1nat));
            assert(dir_corner(1, 1) == (0nat, 1nat, 1nat));
            assert(dir_corner(1, 2) == (0nat, 1nat, 0nat));
            assert(dir_corner(1, 3) == (0nat, 0nat, 0nat));
            assert(dir_offset(1) == (-1int, 0int, 0int));
        } else if d == 2 {
            assert(dir_corner(2, 0) == (0nat, 1nat, 0nat));
            assert(dir_corner(2, 1) == (0nat, 1nat, 1nat));
            assert(dir_corner(2, 2) == (1nat, 1nat, 1nat));
            assert(dir_corner(2, 3) == (1nat, 1nat, 0nat));
            assert(dir_offset(2) == (0int, 1int, 0int));
        } else if d == 3 {
            assert(dir_corner(3, 0) == (0nat, 0nat, 0nat));
            assert(dir_corner(3, 1) == (1nat, 0nat, 0nat));
            assert(dir_corner(3, 2) == (1nat, 0nat, 1nat));
            assert(dir_corner(3, 3) == (0nat, 0nat, 1nat));
            assert(dir_offset(3) == (0int, -1int, 0int));
        } else if d == 4 {
            assert(dir_corner(4, 0) == (0nat, 0nat, 1nat));
            assert(dir_corner(4, 1) == (1nat, 0nat, 1nat));
            assert(dir_corner(4, 2) == (1nat, 1nat, 1nat));
            assert(dir_corner(4, 3) == (0nat, 1nat, 1nat));
            assert(dir_offset(4) == (0int, 0int, 1int));
        } else {
            assert(dir_corner(5, 0) == (0nat, 0nat, 0nat));
            assert(dir_corner(5, 1) == (0nat, 1nat, 0nat));
            assert(dir_corner(5, 2) == (1nat, 1nat, 0nat));
            assert(dir_corner(5, 3) == (1nat, 0nat, 0nat));
            assert(dir_offset(5) == (0int, 0int, -1int));
        }
        lemma_unit_product(u.1, v.2);
        lemma_unit_product(u.2, v.1);
        lemma_unit_product(u.2, v.0);
        lemma_unit_product(u.0, v.2);
        lemma_unit_product(u.0, v.1);
        lemma_unit_product(u.1, v.0);
    }
}

/// Products of `-1`, `0` and `1`.
proof fn lemma_unit_product(a: int, b: int)
    requires
        -1 <= a <= 1,
        -1 <= b <= 1,
    ensures
        a * b == if a == 0 || b == 0 {
            0
        } else if a == b {
            1
        } else {
            -1
        },
{
    assert(a * b == if a == 0 || b == 0 {
        0
    } else if a == b {
        1
    } else {
        -1
    }) by (nonlinear_arith)
        requires
            -1 <= a <= 1,
            -1 <= b <= 1,
    ;
}

/// The corners of face `d` form a parallelogram turning counterclockwise
/// around the face's outward step.
pub open spec fn face_turns(d: nat) -> bool {
    let c0 = dir_corner(d, 0);
    let c1 = dir_corner(d, 1);
    let c2 = dir_corner(d, 2);
    let c3 = dir_corner(d, 3);
    let u0 = c1.0 - c0.0;
    let u1 = c1.1 - c0.1;
    let u2 = c1.2 - c0.2;
    let v0 = c2.0 - c1.0;
    let v1 = c2.1 - c1.1;
    let v2 = c2.2 - c1.2;
    &&& c3.0 == c0.0 + c2.0 - c1.0 && c3.1 == c0.1 + c2.1 - c1.1 && c3.2 == c0.2 + c2.2 - c1.2
    &&& (u1 * v2 - u2 * v1, u2 * v0 - u0 * v2, u0 * v1 - u1 * v0) == dir_offset(d)
}

/// The distance between two whole numbers.
pub open spec fn abs_diff(a: nat, b: nat) -> nat {
    if a >= b {
        (a - b) as nat
    } else {
        (b - a) as nat
    }
}

/// Index `t` of the `j`-th face's indices, counted from the face's first
/// vertex.
pub open spec fn local_index(q: Seq<u32>, j: nat, t: int) -> int {
    q[t] - 4 * j
}

/// One of the six indices `q` of the `j`-th face names its corner `c`.
pub open spec fn names_corner(q: Seq<u32>, j: nat, c: int) -> bool {
    exists|t: int| 0 <= t < 6 && #[trigger] local_index(q, j, t) == c
}

/// Each drawn face gives two triangles over its own four vertices: both
/// list their corners in the face's own turning order, together they use
/// all four, and they share the diagonal through the two lighter opposite
/// corners (corners 0 and 2 when those are together lighter, else 1 and 3).
pub proof fn lemma_quad_triangles(j: nat, o: (u8, u8, u8, u8))
    requires
        4 * j + 3 < 0x1_0000_0000,
    ensures
        ({
            let q = quad_indices(j, o);
            let k0 = local_index(q, j, 0);
            let k1 = local_index(q, j, 1);
            let k2 = local_index(q, j, 2);
            let k3 = local_index(q, j, 3);
            let k4 = local_index(q, j, 4);
            let k5 = local_index(q, j, 5);
            &&& q.len() == 6
            &&& forall|t: int| 0 <= t < 6 ==> 0 <= #[trigger] local_index(q, j, t) <= 3
            &&& (k1 - k0 + 4) % 4 + (k2 - k1 + 4) % 4 + (k0 - k2 + 4) % 4 == 4
            &&& (k4 - k3 + 4) % 4 + (k5 - k4 + 4) % 4 + (k3 - k5 + 4) % 4 == 4
            &&& names_corner(q, j, 0) && names_corner(q, j, 1) && names_corner(q, j, 2)
                && names_corner(q, j, 3)
            &&& if light(o.0) + light(o.2) > light(o.1) + light(o.3) {
                (k0 == 0 || k1 == 0 || k2 == 0) && (k0 == 2 || k1 == 2 || k2 == 2) && (k3 == 0
                    || k4 == 0 || k5 == 0) && (k3 == 2 || k4 == 2 || k5 == 2)
            } else {
                (k0 == 1 || k1 == 1 || k2 == 1) && (k0 == 3 || k1 == 3 || k2 == 3) && (k3 == 1
                    || k4 == 1 || k5 == 1) && (k3 == 3 || k4 == 3 || k5 == 3)
            }
        }),
{
    let q = quad_indices(j, o);
    vstd::arithmetic::div_mod::lemma_small_mod(4 * j, 0x1_0000_0000);
    vstd::arithmetic::div_mod::lemma_small_mod(4 * j + 1, 0x1_0000_0000);
    vstd::arithmetic::div_mod::lemma_small_mod(4 * j + 2, 0x1_0000_0000);
    vstd::arithmetic::div_mod::lemma_small_mod(4 * j + 3, 0x1_0000_0000);
    assert(local_index(q, j, 0) == 0);
    assert(local_index(q, j, 1) == 1);
    if cut_through_first(o) {
        assert(local_index(q, j, 2) == 2);
        assert(local_index(q, j, 5) == 3);
    } else {
        assert(local_index(q, j, 4) == 2);
        assert(local_index(q, j, 2) == 3);
    }
}

/// The occlusion of a corner point counts filled voxels that touch the
/// point, at most three of them: it depends only on the eight voxels around
/// the point, is `0` when none of them is filled and `3` when all are.
pub proof fn lemma_point_occlusion_local(
    c1: Seq<PackedColor>,
    c2: Seq<PackedColor>,
    s: int,
    px: int,
    py: int,
    pz: int,
)
    requires
        forall|x: int, y: int, z: int|
            px - 1 <= x <= px && py - 1 <= y <= py && pz - 1 <= z <= pz ==> #[trigger] occupied(
                c1,
                s,
                x,
                y,
                z,
            ) == occupied(c2, s, x, y, z),
    ensures
        point_occlusion(c1, s, px, py, pz) == point_occlusion(c2, s, px, py, pz),
        point_occlusion(c1, s, px, py, pz) <= 3,
        (forall|x: int, y: int, z: int|
            px - 1 <= x <= px && py - 1 <= y <= py && pz - 1 <= z <= pz ==> #[trigger] occupied(
                c1,
                s,
                x,
                y,
                z,
            )) ==> point_occlusion(c1, s, px, py, pz) == 3,
        (forall|x: int, y: int, z: int|
            px - 1 <= x <= px && py - 1 <= y <= py && pz - 1 <= z <= pz ==> !#[trigger] occupied(
                c1,
                s,
                x,
                y,
                z,
            )) ==> point_occlusion(c1, s, px, py, pz) == 0,
{
    assert(occupied(c1, s, px - 1, py, pz) == occupied(c2, s, px - 1, py, pz));
    assert(occupied(c1, s, px, py - 1, pz) == occupied(c2, s, px, py - 1, pz));
    assert(occupied(c1, s, px, py, pz - 1) == occupied(c2, s, px, py, pz - 1));
}

} // verus!
