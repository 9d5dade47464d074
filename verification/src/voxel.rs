//! Turning sign grids into a colored voxel grid.
//!
//! Each expression is sampled on the `nd * nd * nd` nodes of a lattice; its
//! sign grid holds, for node `x + y * nd + z * nd * nd`, whether the
//! expression is non-negative there. Voxel `(x, y, z)`, for `x, y, z < nd - 1`,
//! is the cube between node `(x, y, z)` and node `(x + 1, y + 1, z + 1)`. The
//! surface of an expression passes through a voxel when the eight corners of
//! its cube do not all have the same sign; the voxel then takes the color of
//! the first expression, in order, whose surface passes through it.
use vstd::prelude::*;
use crate::color::PackedColor;

verus! {

/// Some of the eight corner signs are set and some are not.
pub open spec fn mixed_signs(
    s000: bool,
    s100: bool,
    s010: bool,
    s110: bool,
    s001: bool,
    s101: bool,
    s011: bool,
    s111: bool,
) -> bool {
    &&& (s000 || s100 || s010 || s110 || s001 || s101 || s011 || s111)
    &&& !(s000 && s100 && s010 && s110 && s001 && s101 && s011 && s111)
}

/// The surface of the sign grid `g` passes through the cube whose lowest
/// node is `base`, on a lattice `nd` nodes a side.
pub open spec fn cube_mixed(g: Seq<bool>, nd: nat, base: nat) -> bool {
    let b = base as int;
    let n = nd as int;
    let d2 = n * n;
    mixed_signs(
        g[b],
        g[b + 1],
        g[b + n],
        g[b + n + 1],
        g[b + d2],
        g[b + d2 + 1],
        g[b + d2 + n],
        g[b + d2 + n + 1],
    )
}

/// The color of the first of `grids`, from the `i`-th on, whose surface
/// passes through the cube at `base`.
pub open spec fn first_hit(
    grids: Seq<(Vec<bool>, PackedColor)>,
    nd: nat,
    base: nat,
    i: nat,
) -> Option<PackedColor>
    decreases grids.len() - i,
{
    if i >= grids.len() {
        None
    } else if cube_mixed(grids[i as int].0@, nd, base) {
        Some(grids[i as int].1)
    } else {
        first_hit(grids, nd, base, i + 1)
    }
}

/// The color voxel `(x, y, z)` takes, if any surface passes through it.
pub open spec fn voxel_cell(
    grids: Seq<(Vec<bool>, PackedColor)>,
    nd: nat,
    x: nat,
    y: nat,
    z: nat,
) -> Option<PackedColor> {
    first_hit(grids, nd, x + y * nd + z * (nd * nd), 0)
}

/// The value a grid cell stores: the color, or `0` for an empty cell.
pub open spec fn cell_word(c: Option<PackedColor>) -> PackedColor {
    match c {
        Some(v) => v,
        None => 0,
    }
}

/// Number of filled cells in a sequence of cells.
pub open spec fn count_hits(s: Seq<Option<PackedColor>>) -> nat
    decreases s.len(),
{
    if s.len() == 0 {
        0
    } else {
        count_hits(s.drop_last()) + if s.last() is Some {
            1nat
        } else {
            0nat
        }
    }
}

/// Voxels `0..n` of row `y` of layer `z`.
pub open spec fn row_cells(
    grids: Seq<(Vec<bool>, PackedColor)>,
    nd: nat,
    y: nat,
    z: nat,
    n: nat,
) -> Seq<Option<PackedColor>>
    decreases n,
{
    if n == 0 {
        Seq::empty()
    } else {
        row_cells(grids, nd, y, z, (n - 1) as nat).push(voxel_cell(grids, nd, (n - 1) as nat, y, z))
    }
}

/// Rows `0..n` of layer `z`, each `s` voxels long.
pub open spec fn layer_cells(
    grids: Seq<(Vec<bool>, PackedColor)>,
    nd: nat,
    s: nat,
    z: nat,
    n: nat,
) -> Seq<Option<PackedColor>>
    decreases n,
{
    if n == 0 {
        Seq::empty()
    } else {
        layer_cells(grids, nd, s, z, (n - 1) as nat) + row_cells(grids, nd, (n - 1) as nat, z, s)
    }
}

/// Layers `0..n` of a grid `s` voxels a side, layer after layer, row after
/// row: voxel `(x, y, z)` at `x + y * s + z * s * s`.
pub open spec fn grid_cells(
    grids: Seq<(Vec<bool>, PackedColor)>,
    nd: nat,
    s: nat,
    n: nat,
) -> Seq<Option<PackedColor>>
    decreases n,
{
    if n == 0 {
        Seq::empty()
    } else {
        grid_cells(grids, nd, s, (n - 1) as nat) + layer_cells(grids, nd, s, (n - 1) as nat, s)
    }
}

/// Number of voxels a side of a lattice of `nd` nodes a side.
pub open spec fn voxels_per_side(nd: nat) -> nat {
    if nd == 0 {
        0
    } else {
        (nd - 1) as nat
    }
}

/// All voxels of the grid, in the order of their index `x + y * s + z * s * s`.
pub open spec fn voxel_grid_cells(grids: Seq<(Vec<bool>, PackedColor)>, nd: nat) -> Seq<
    Option<PackedColor>,
> {
    let s = voxels_per_side(nd);
    grid_cells(grids, nd, s, s)
}

/// Every grid of `grids` holds one sign per node of the lattice.
pub open spec fn grids_sized(grids: Seq<(Vec<bool>, PackedColor)>, nd: nat) -> bool {
    forall|i: int| 0 <= i < grids.len() ==> (#[trigger] grids[i]).0@.len() == nd * nd * nd
}

proof fn lemma_count_hits_push(s: Seq<Option<PackedColor>>, c: Option<PackedColor>)
    ensures
        count_hits(s.push(c)) == count_hits(s) + if c is Some {
            1nat
        } else {
            0nat
        },
{
    assert(s.push(c).drop_last() == s);
}

proof fn lemma_count_hits_bound(s: Seq<Option<PackedColor>>)
    ensures
        count_hits(s) <= s.len(),
    decreases s.len(),
{
    if s.len() > 0 {
        lemma_count_hits_bound(s.drop_last());
    }
}

proof fn lemma_row_cells(grids: Seq<(Vec<bool>, PackedColor)>, nd: nat, y: nat, z: nat, n: nat)
    ensures
        row_cells(grids, nd, y, z, n).len() == n,
        forall|x: nat| x < n ==> #[trigger] row_cells(grids, nd, y, z, n)[x as int] == voxel_cell(
            grids,
            nd,
            x,
            y,
            z,
        ),
    decreases n,
{
    if n > 0 {
        lemma_row_cells(grids, nd, y, z, (n - 1) as nat);
    }
}

proof fn lemma_layer_cells(
    grids: Seq<(Vec<bool>, PackedColor)>,
    nd: nat,
    s: nat,
    z: nat,
    n: nat,
)
    ensures
        layer_cells(grids, nd, s, z, n).len() == n * s,
        forall|x: nat, y: nat|
            x < s && y < n ==> #[trigger] layer_cells(grids, nd, s, z, n)[(y * s + x) as int]
                == voxel_cell(grids, nd, x, y, z),
    decreases n,
{
    if n > 0 {
        let m = (n - 1) as nat;
        lemma_layer_cells(grids, nd, s, z, m);
        lemma_row_cells(grids, nd, m, z, s);
        assert(n * s == m * s + s) by (nonlinear_arith)
            requires
                m + 1 == n,
        ;
        assert forall|x: nat, y: nat| x < s && y < n implies #[trigger] layer_cells(
            grids,
            nd,
            s,
            z,
            n,
        )[(y * s + x) as int] == voxel_cell(grids, nd, x, y, z) by {
            if y < m {
                assert(y * s + x < m * s) by (nonlinear_arith)
                    requires
                        x < s,
                        y < m,
                ;
            } else {
                assert(y * s == m * s);
            }
        }
    }
 else {
        assert(n * s == 0) by (nonlinear_arith)
            requires
                n == 0,
        ;
    }
}

proof fn lemma_grid_cells(grids: Seq<(Vec<bool>, PackedColor)>, nd: nat, s: nat, n: nat)
    ensures
        grid_cells(grids, nd, s, n).len() == n * (s * s),
        forall|x: nat, y: nat, z: nat|
            x < s && y < s && z < n ==> #[trigger] grid_cells(grids, nd, s, n)[(x + y * s + z * (s
                * s)) as int] == voxel_cell(grids, nd, x, y, z),
    decreases n,
{
    if n > 0 {
        let m = (n - 1) as nat;
        lemma_grid_cells(grids, nd, s, m);
        lemma_layer_cells(grids, nd, s, m, s);
        assert(n * (s * s) == m * (s * s) + s * s) by (nonlinear_arith)
            requires
                m + 1 == n,
        ;
        assert forall|x: nat, y: nat, z: nat| x < s && y < s && z < n implies #[trigger] grid_cells(
            grids,
            nd,
            s,
            n,
        )[(x + y * s + z * (s * s)) as int] == voxel_cell(grids, nd, x, y, z) by {
            assert(y * s + x < s * s) by (nonlinear_arith)
                requires
                    x < s,
                    y < s,
            ;
            if z < m {
                assert(x + y * s + z * (s * s) < m * (s * s)) by (nonlinear_arith)
                    requires
                        y * s + x < s * s,
                        z < m,
                ;
                lemma_layer_cells(grids, nd, s, z, s);
            } else {
                assert(z * (s * s) == m * (s * s));
                assert(layer_cells(grids, nd, s, z, s)[(y * s + x) as int] == voxel_cell(
                    grids,
                    nd,
                    x,
                    y,
                    z,
                ));
            }
        }
    }
 else {
        assert(n * (s * s) == 0) by (nonlinear_arith)
            requires
                n == 0,
        ;
    }
}

/// The grid cells in index form: `s * s * s` cells, voxel `(x, y, z)` at
/// `x + y * s + z * s * s`.
pub proof fn lemma_voxel_grid_cells(grids: Seq<(Vec<bool>, PackedColor)>, nd: nat)
    ensures
        voxel_grid_cells(grids, nd).len() == voxels_per_side(nd) * (voxels_per_side(nd)
            * voxels_per_side(nd)),
        forall|x: nat, y: nat, z: nat|
            x < voxels_per_side(nd) && y < voxels_per_side(nd) && z < voxels_per_side(nd)
                ==> #[trigger] voxel_cell(grids, nd, x, y, z) == voxel_grid_cells(grids, nd)[(x + y
                * voxels_per_side(nd) + z * (voxels_per_side(nd) * voxels_per_side(nd))) as int],
{
    let s = voxels_per_side(nd);
    lemma_grid_cells(grids, nd, s, s);
}

/// The corners of every voxel's cube are nodes of the lattice.
proof fn lemma_cube_in_bounds(nd: nat, x: nat, y: nat, z: nat)
    requires
        x + 1 < nd,
        y + 1 < nd,
        z + 1 < nd,
    ensures
        x + y * nd + z * (nd * nd) + nd * nd + nd + 1 < nd * nd * nd,
        z * (nd * nd) + y * nd + x + nd * nd + nd + 1 < nd * nd * nd,
        z * (nd * nd) <= nd * nd * nd,
        y * nd <= nd * nd,
{
    assert(x + y * nd + z * (nd * nd) + nd * nd + nd + 1 <= (nd - 1) * (1 + nd + nd * nd))
        by (nonlinear_arith)
        requires
            x + 1 < nd,
            y + 1 < nd,
            z + 1 < nd,
    ;
    assert((nd - 1) * (1 + nd + nd * nd) == nd * nd * nd - 1) by (nonlinear_arith);
    assert(z * (nd * nd) <= nd * nd * nd) by (nonlinear_arith)
        requires
            z + 1 < nd,
    ;
    assert(y * nd <= nd * nd) by (nonlinear_arith)
        requires
            y + 1 < nd,
    ;
}

/// Whether the surface passes through a cube, from its eight corner signs:
/// they are neither all set nor all clear.
fn should_fill_voxel(
    s000: bool,
    s100: bool,
    s010: bool,
    s110: bool,
    s001: bool,
    s101: bool,
    s011: bool,
    s111: bool,
) -> (r: bool)
    ensures
        r == mixed_signs(s000, s100, s010, s110, s001, s101, s011, s111),
{
    let sum: u8 = (if s000 { 1u8 } else { 0u8 }) + (if s100 { 1u8 } else { 0u8 }) + (if s010 {
        1u8
    } else {
        0u8
    }) + (if s110 { 1u8 } else { 0u8 }) + (if s001 { 1u8 } else { 0u8 }) + (if s101 {
        1u8
    } else {
        0u8
    }) + (if s011 { 1u8 } else { 0u8 }) + (if s111 { 1u8 } else { 0u8 });
    sum != 8 && sum != 0
}

/// Colors `cell` with the first grid whose surface passes through the cube
/// at `base`, and counts it; leaves both unchanged when there is none.
fn fill_voxel(
    sign_grids: &[(Vec<bool>, PackedColor)],
    cell: &mut PackedColor,
    base: usize,
    node_dim: usize,
    node_dim_sq: usize,
    count: &mut usize,
)
    requires
        node_dim_sq == node_dim * node_dim,
        forall|i: int|
            0 <= i < sign_grids@.len() ==> base + node_dim_sq + node_dim + 1 < (
            #[trigger] sign_grids@[i]).0@.len(),
        *old(count) < usize::MAX,
    ensures
        match first_hit(sign_grids@, node_dim as nat, base as nat, 0) {
            Some(c) => *final(cell) == c && *final(count) == *old(count) + 1,
            None => *final(cell) == *old(cell) && *final(count) == *old(count),
        },
{
    let mut i: usize = 0;
    while i < sign_grids.len()
        invariant
            0 <= i <= sign_grids@.len(),
            node_dim_sq == node_dim * node_dim,
            forall|j: int|
                0 <= j < sign_grids@.len() ==> base + node_dim_sq + node_dim + 1 < (
                #[trigger] sign_grids@[j]).0@.len(),
            first_hit(sign_grids@, node_dim as nat, base as nat, 0) == first_hit(
                sign_grids@,
                node_dim as nat,
                base as nat,
                i as nat,
            ),
            *cell == *old(cell),
            *count == *old(count),
            *old(count) < usize::MAX,
        decreases sign_grids@.len() - i,
    {
        let (sign_grid, packed_color) = &sign_grids[i];
        let grid_len = sign_grid.len();
        assert(base + node_dim_sq + node_dim + 1 < grid_len);
        let s000 = sign_grid[base];
        let s100 = sign_grid[base + 1];
        let s010 = sign_grid[base + node_dim];
        let s110 = sign_grid[base + node_dim + 1];
        let s001 = sign_grid[base + node_dim_sq];
        let s101 = sign_grid[base + node_dim_sq + 1];
        let s011 = sign_grid[base + node_dim_sq + node_dim];
        let s111 = sign_grid[base + node_dim_sq + node_dim + 1];
        if should_fill_voxel(s000, s100, s010, s110, s001, s101, s011, s111) {
            *cell = *packed_color;
            *count = *count + 1;
            return;
        }
        i = i + 1;
    }
}

/// Builds the voxel grid from the sign grids: `s * s * s` cells for
/// `s = node_dim - 1`, voxel `(x, y, z)` at `x + y * s + z * s * s` holding
/// the color of the first grid whose surface passes through it, or `0`;
/// and the number of filled voxels.
pub fn fill_voxels_composing(sign_grids: &[(Vec<bool>, PackedColor)], node_dim: usize) -> (r: (
    Vec<PackedColor>,
    usize,
))
    requires
        grids_sized(sign_grids@, node_dim as nat),
        node_dim * node_dim * node_dim <= usize::MAX,
    ensures
        r.0@ == voxel_grid_cells(sign_grids@, node_dim as nat).map_values(
            |c: Option<PackedColor>| cell_word(c),
        ),
        r.1 == count_hits(voxel_grid_cells(sign_grids@, node_dim as nat)),
        r.0@.len() == voxels_per_side(node_dim as nat) * (voxels_per_side(node_dim as nat)
            * voxels_per_side(node_dim as nat)),
        forall|x: nat, y: nat, z: nat|
            x < voxels_per_side(node_dim as nat) && y < voxels_per_side(node_dim as nat) && z
                < voxels_per_side(node_dim as nat) ==> r.0@[(x + y * voxels_per_side(
                node_dim as nat,
            ) + z * (voxels_per_side(node_dim as nat) * voxels_per_side(node_dim as nat))) as int]
                == cell_word(#[trigger] voxel_cell(sign_grids@, node_dim as nat, x, y, z)),
{
    let ghost grids = sign_grids@;
    let ghost nd = node_dim as nat;
    let size: usize = if node_dim == 0 {
        0
    } else {
        node_dim - 1
    };
    let ghost s = size as nat;
    assert(node_dim * node_dim <= node_dim * node_dim * node_dim) by (nonlinear_arith)
        requires
            node_dim * node_dim * node_dim <= usize::MAX,
    ;
    let node_dim_sq = node_dim * node_dim;
    let mut voxel_grid: Vec<PackedColor> = Vec::new();
    let mut count: usize = 0;
    let ghost mut cells: Seq<Option<PackedColor>> = Seq::empty();
    proof {
        lemma_grid_cells(grids, nd, s, 0);
    }
    let mut vz: usize = 0;
    while vz < size
        invariant
            grids == sign_grids@,
            nd == node_dim,
            s == size,
            s == voxels_per_side(nd),
            grids_sized(grids, nd),
            node_dim * node_dim * node_dim <= usize::MAX,
            node_dim_sq == node_dim * node_dim,
            vz <= size,
            cells == grid_cells(grids, nd, s, vz as nat),
            cells.len() == vz * (s * s),
            voxel_grid@ == cells.map_values(|c: Option<PackedColor>| cell_word(c)),
            count == count_hits(cells),
        decreases size - vz,
    {
        assert(node_dim == size + 1);
        proof {
            lemma_cube_in_bounds(nd, 0, 0, vz as nat);
        }
        let base_z = vz * node_dim_sq;
        let ghost zcells_start = cells;
        let mut vy: usize = 0;
        proof {
            lemma_layer_cells(grids, nd, s, vz as nat, 0);
            assert(cells + layer_cells(grids, nd, s, vz as nat, 0) == cells);
        }
        while vy < size
            invariant
                grids == sign_grids@,
                nd == node_dim,
                s == size,
                s == voxels_per_side(nd),
                grids_sized(grids, nd),
                node_dim * node_dim * node_dim <= usize::MAX,
                node_dim_sq == node_dim * node_dim,
                vz < size,
                vy <= size,
                node_dim == size + 1,
                base_z == vz * node_dim_sq,
                zcells_start == grid_cells(grids, nd, s, vz as nat),
                zcells_start.len() == vz * (s * s),
                cells == zcells_start + layer_cells(grids, nd, s, vz as nat, vy as nat),
                voxel_grid@ == cells.map_values(|c: Option<PackedColor>| cell_word(c)),
                count == count_hits(cells),
            decreases size - vy,
        {
            proof {
                lemma_cube_in_bounds(nd, 0, vy as nat, vz as nat);
            }
            let base_y = base_z + vy * node_dim;
            let ghost ycells_start = cells;
            proof {
                lemma_layer_cells(grids, nd, s, vz as nat, vy as nat);
                assert(cells.len() == vz * (s * s) + vy * s);
            }
            let mut vx: usize = 0;
            while vx < size
                invariant
                    grids == sign_grids@,
                    nd == node_dim,
                    s == size,
                    grids_sized(grids, nd),
                    node_dim * node_dim * node_dim <= usize::MAX,
                    node_dim_sq == node_dim * node_dim,
                    vz < size,
                    vy < size,
                    vx <= size,
                    node_dim == size + 1,
                    base_y == vz * node_dim_sq + vy * node_dim,
                    ycells_start.len() == vz * (s * s) + vy * s,
                    cells == ycells_start + row_cells(grids, nd, vy as nat, vz as nat, vx as nat),
                    voxel_grid@ == cells.map_values(|c: Option<PackedColor>| cell_word(c)),
                    count == count_hits(cells),
                decreases size - vx,
            {
                proof {
                    lemma_cube_in_bounds(nd, vx as nat, vy as nat, vz as nat);
                    lemma_row_cells(grids, nd, vy as nat, vz as nat, vx as nat);
                    lemma_count_hits_bound(cells);
                    assert(vz * (s * s) + vy * s + vx < s * s * s) by (nonlinear_arith)
                        requires
                            vx < s,
                            vy < s,
                            vz < s,
                    ;
                    assert(s * s * s <= nd * nd * nd) by (nonlinear_arith)
                        requires
                            s < nd,
                    ;
                    assert forall|j: int| 0 <= j < grids.len() implies base_y + vx
                        + node_dim_sq + node_dim + 1 < (#[trigger] grids[j]).0@.len() by {}
                }
                let base = base_y + vx;
                let mut cell: PackedColor = 0;
                fill_voxel(sign_grids, &mut cell, base, node_dim, node_dim_sq, &mut count);
                voxel_grid.push(cell);
                proof {
                    let c = voxel_cell(grids, nd, vx as nat, vy as nat, vz as nat);
                    assert(base == vx + vy * nd + vz * (nd * nd));
                    assert(c == first_hit(grids, nd, base as nat, 0));
                    lemma_count_hits_push(cells, c);
                    let old_cells = cells;
                    cells = cells.push(c);
                    assert(row_cells(grids, nd, vy as nat, vz as nat, (vx + 1) as nat) == row_cells(
                        grids,
                        nd,
                        vy as nat,
                        vz as nat,
                        vx as nat,
                    ).push(c));
                    assert(cells == ycells_start + row_cells(
                        grids,
                        nd,
                        vy as nat,
                        vz as nat,
                        (vx + 1) as nat,
                    ));
                    assert(voxel_grid@ == cells.map_values(|c: Option<PackedColor>| cell_word(c)));
                }
                vx = vx + 1;
            }
            proof {
                assert(layer_cells(grids, nd, s, vz as nat, (vy + 1) as nat) == layer_cells(
                    grids,
                    nd,
                    s,
                    vz as nat,
                    vy as nat,
                ) + row_cells(grids, nd, vy as nat, vz as nat, s));
                assert(cells == zcells_start + layer_cells(
                    grids,
                    nd,
                    s,
                    vz as nat,
                    (vy + 1) as nat,
                ));
            }
            vy = vy + 1;
        }
        proof {
            lemma_layer_cells(grids, nd, s, vz as nat, s);
            assert(grid_cells(grids, nd, s, (vz + 1) as nat) == grid_cells(grids, nd, s, vz as nat)
                + layer_cells(grids, nd, s, vz as nat, s));
            assert((vz + 1) * (s * s) == vz * (s * s) + s * s) by (nonlinear_arith);
        }
        vz = vz + 1;
    }
    proof {
        lemma_voxel_grid_cells(grids, nd);
        assert(cells == voxel_grid_cells(grids, nd));
        assert forall|x: nat, y: nat, z: nat|
            x < s && y < s && z < s implies voxel_grid@[(x + y * s + z * (s * s)) as int]
            == cell_word(#[trigger] voxel_cell(grids, nd, x, y, z)) by {
            assert(x + y * s + z * (s * s) < s * (s * s)) by (nonlinear_arith)
                requires
                    x < s,
                    y < s,
                    z < s,
            ;
        }
    }
    (voxel_grid, count)
}


/// Number of filled cells is additive over concatenation.
pub proof fn lemma_count_hits_concat(a: Seq<Option<PackedColor>>, b: Seq<Option<PackedColor>>)
    ensures
        count_hits(a + b) == count_hits(a) + count_hits(b),
    decreases b.len(),
{
    if b.len() == 0 {
        assert(a + b == a);
    } else {
        lemma_count_hits_concat(a, b.drop_last());
        assert((a + b).drop_last() == a + b.drop_last());
        assert((a + b).last() == b.last());
    }
}

/// Filling consecutive ranges of voxels one after the other gives the cells
/// and the count of filling their union at once.
pub proof fn lemma_fill_ranges_compose(
    grids: Seq<(Vec<bool>, PackedColor)>,
    nd: nat,
    a: int,
    b: int,
    c: int,
)
    requires
        0 <= a <= b <= c <= voxel_grid_cells(grids, nd).len(),
    ensures
        voxel_grid_cells(grids, nd).subrange(a, b) + voxel_grid_cells(grids, nd).subrange(b, c)
            == voxel_grid_cells(grids, nd).subrange(a, c),
        count_hits(voxel_grid_cells(grids, nd).subrange(a, b)) + count_hits(
            voxel_grid_cells(grids, nd).subrange(b, c),
        ) == count_hits(voxel_grid_cells(grids, nd).subrange(a, c)),
{
    let cells = voxel_grid_cells(grids, nd);
    assert(cells.subrange(a, b) + cells.subrange(b, c) == cells.subrange(a, c));
    lemma_count_hits_concat(cells.subrange(a, b), cells.subrange(b, c));
}

/// Where voxel number `p` of a grid `s` voxels a side lies.
proof fn lemma_decode(p: nat, s: nat)
    requires
        s > 0,
        p < s * (s * s),
    ensures
        p == p % s + ((p % (s * s)) / s) * s + (p / (s * s)) * (s * s),
        p % s < s,
        (p % (s * s)) / s < s,
        p / (s * s) < s,
{
    let d2 = s * s;
    assert(d2 > 0) by (nonlinear_arith)
        requires
            s > 0,
            d2 == s * s,
    ;
    let q = p / d2;
    let r2 = p % d2;
    let y = r2 / s;
    let x = r2 % s;
    vstd::arithmetic::div_mod::lemma_fundamental_div_mod(p as int, d2 as int);
    vstd::arithmetic::div_mod::lemma_fundamental_div_mod(r2 as int, s as int);
    assert(p == q * d2 + r2) by (nonlinear_arith)
        requires
            p == d2 * q + r2,
    ;
    assert(r2 == y * s + x) by (nonlinear_arith)
        requires
            r2 == s * y + x,
    ;
    assert(0 <= r2 < d2);
    assert(0 <= x < s);
    assert(y < s) by (nonlinear_arith)
        requires
            r2 == y * s + x,
            r2 < s * s,
            0 <= x,
            s > 0,
    ;
    assert(q < s) by (nonlinear_arith)
        requires
            p == q * d2 + r2,
            p < s * d2,
            0 <= r2,
            d2 > 0,
            d2 == s * s,
    ;
    assert(p == (q * s + y) * s + x) by (nonlinear_arith)
        requires
            p == q * d2 + r2,
            r2 == y * s + x,
            d2 == s * s,
    ;
    vstd::arithmetic::div_mod::lemma_fundamental_div_mod_converse(
        p as int,
        s as int,
        (q * s + y) as int,
        x as int,
    );
}

/// Fills the voxels numbered `start..start + len` of the grid, in order;
/// gives their cells as [`fill_voxels_composing`] would, and how many of them
/// are filled. Ranges filled apart can be put together (see
/// [`lemma_fill_ranges_compose`]).
pub fn fill_voxel_range(
    sign_grids: &[(Vec<bool>, PackedColor)],
    node_dim: usize,
    start: usize,
    len: usize,
) -> (r: (Vec<PackedColor>, usize))
    requires
        grids_sized(sign_grids@, node_dim as nat),
        node_dim * node_dim * node_dim <= usize::MAX,
        start + len <= voxel_grid_cells(sign_grids@, node_dim as nat).len(),
    ensures
        r.0@ == voxel_grid_cells(sign_grids@, node_dim as nat).subrange(
            start as int,
            start + len,
        ).map_values(|c: Option<PackedColor>| cell_word(c)),
        r.1 == count_hits(
            voxel_grid_cells(sign_grids@, node_dim as nat).subrange(start as int, start + len),
        ),
{
    let ghost grids = sign_grids@;
    let ghost nd = node_dim as nat;
    let ghost all = voxel_grid_cells(grids, nd);
    proof {
        lemma_voxel_grid_cells(grids, nd);
    }
    let mut out: Vec<PackedColor> = Vec::new();
    let mut count: usize = 0;
    if len == 0 {
        assert(all.subrange(start as int, start as int) == Seq::<Option<PackedColor>>::empty());
        return (out, count);
    }
    let size: usize = node_dim - 1;
    let ghost s = size as nat;
    assert(s > 0) by (nonlinear_arith)
        requires
            start + len <= s * (s * s),
            len > 0,
    ;
    assert(s * s <= s * (s * s) && s * (s * s) <= nd * nd * nd) by (nonlinear_arith)
        requires
            s > 0,
            s + 1 == nd,
    ;
    assert(nd * nd <= nd * nd * nd) by (nonlinear_arith)
        requires
            nd > 0,
    ;
    let size_sq = size * size;
    let node_dim_sq = node_dim * node_dim;
    proof {
        lemma_decode(start as nat, s);
    }
    let mut vz = start / size_sq;
    let mut vy = (start % size_sq) / size;
    let mut vx = start % size;
    let mut k: usize = 0;
    let ghost mut done: Seq<Option<PackedColor>> = Seq::empty();
    while k < len
        invariant
            grids == sign_grids@,
            nd == node_dim,
            s == size,
            node_dim == size + 1,
            s > 0,
            grids_sized(grids, nd),
            node_dim * node_dim * node_dim <= usize::MAX,
            node_dim_sq == node_dim * node_dim,
            size_sq == size * size,
            all == voxel_grid_cells(grids, nd),
            all.len() == s * (s * s),
            forall|x: nat, y: nat, z: nat|
                x < s && y < s && z < s ==> #[trigger] voxel_cell(grids, nd, x, y, z) == all[(x + y
                    * s + z * (s * s)) as int],
            start + len <= s * (s * s),
            k <= len,
            k < len ==> vx < s && vy < s && vz < s && start + k == vx + vy * s + vz * (s * s),
            done == all.subrange(start as int, start + k),
            out@ == done.map_values(|c: Option<PackedColor>| cell_word(c)),
            count == count_hits(done),
            count <= k,
        decreases len - k,
    {
        proof {
            lemma_cube_in_bounds(nd, vx as nat, vy as nat, vz as nat);
            assert forall|j: int| 0 <= j < grids.len() implies vx + vy * node_dim + vz
                * node_dim_sq + node_dim_sq + node_dim + 1 < (#[trigger] grids[j]).0@.len() by {}
        }
        let base = vx + vy * node_dim + vz * node_dim_sq;
        let mut cell: PackedColor = 0;
        fill_voxel(sign_grids, &mut cell, base, node_dim, node_dim_sq, &mut count);
        out.push(cell);
        proof {
            let c = voxel_cell(grids, nd, vx as nat, vy as nat, vz as nat);
            assert(c == all[start + k]);
            lemma_count_hits_push(done, c);
            done = done.push(c);
            assert(done == all.subrange(start as int, start + k + 1));
        }
        k = k + 1;
        if k < len {
            vx = vx + 1;
            if vx == size {
                vx = 0;
                vy = vy + 1;
                if vy == size {
                    vy = 0;
                    vz = vz + 1;
                    proof {
                        assert(start + k == vz * (s * s)) by (nonlinear_arith)
                            requires
                                start + k == s + (s - 1) * s + (vz - 1) * (s * s),
                                vz >= 1,
                        ;
                        assert(vz < s) by (nonlinear_arith)
                            requires
                                start + k == vz * (s * s),
                                start + k < s * (s * s),
                                s > 0,
                        ;
                    }
                } else {
                    proof {
                        assert(start + k == vy * s + vz * (s * s)) by (nonlinear_arith)
                            requires
                                start + k == s + (vy - 1) * s + vz * (s * s),
                                vy >= 1,
                        ;
                    }
                }
            }
        }
    }
    (out, count)
}

/// Two axis indices that name no dimension: the mapping and the number of
/// dimensions it was checked against.
#[derive(Debug, Clone, Copy, PartialEq, Eq)]
pub struct AxisMappingError {
    pub x_dim: usize,
    pub y_dim: usize,
    pub z_dim: usize,
    pub ndim: usize,
}

/// What a request for a voxel grid comes to before any sampling.
#[derive(Debug, Clone, Copy, PartialEq, Eq)]
pub enum GridPlan {
    /// A grid of size zero: no voxels, nothing to sample.
    Empty,
    /// Sample every expression on a lattice `node_dim` nodes a side.
    Sample { node_dim: usize },
}

/// Checks a voxel-grid request of `size` voxels a side over `ndim`
/// dimensions, three of which are laid along the axes: a grid of size zero
/// needs nothing; otherwise each axis must name a dimension, and the lattice
/// has one node more than the grid has voxels a side (saturating).
pub fn plan_voxel_grid(
    size: usize,
    ndim: usize,
    x_dim: usize,
    y_dim: usize,
    z_dim: usize,
) -> (r: Result<GridPlan, AxisMappingError>)
    ensures
        size == 0 ==> r == Ok::<GridPlan, AxisMappingError>(GridPlan::Empty),
        size != 0 && (x_dim >= ndim || y_dim >= ndim || z_dim >= ndim) ==> r == Err::<
            GridPlan,
            AxisMappingError,
        >(AxisMappingError { x_dim, y_dim, z_dim, ndim }),
        size != 0 && x_dim < ndim && y_dim < ndim && z_dim < ndim ==> r == Ok::<
            GridPlan,
            AxisMappingError,
        >(
            GridPlan::Sample {
                node_dim: if size == usize::MAX {
                    size
                } else {
                    (size + 1) as usize
                },
            },
        ),
{
    if size == 0 {
        return Ok(GridPlan::Empty);
    }
    if x_dim >= ndim || y_dim >= ndim || z_dim >= ndim {
        return Err(AxisMappingError { x_dim, y_dim, z_dim, ndim });
    }
    Ok(GridPlan::Sample { node_dim: size.saturating_add(1) })
}


/// The surface crosses a cube exactly when its eight corner signs are not
/// all the same: each of the eight corners counts, and one corner differing
/// from the other seven is enough.
pub proof fn lemma_mixed_signs_differ(
    s000: bool,
    s100: bool,
    s010: bool,
    s110: bool,
    s001: bool,
    s101: bool,
    s011: bool,
    s111: bool,
)
    ensures
        mixed_signs(s000, s100, s010, s110, s001, s101, s011, s111) == !(s100 == s000 && s010
            == s000 && s110 == s000 && s001 == s000 && s101 == s000 && s011 == s000 && s111
            == s000),
{
}


/// The sign of the lattice node `(dx, dy, dz)` steps from `base`.
pub open spec fn node_sign(g: Seq<bool>, nd: nat, base: nat, dx: int, dy: int, dz: int) -> bool {
    g[base + dx + dy * nd + dz * (nd * nd)]
}

/// The surface passes through the cube at `base` exactly when one of the
/// eight lattice nodes of that cube (one step or none along each axis) has
/// a sign other than that of `base` itself.
pub proof fn lemma_cube_mixed_nodes(g: Seq<bool>, nd: nat, base: nat)
    requires
        base + nd * nd + nd + 1 < g.len(),
    ensures
        cube_mixed(g, nd, base) == exists|dx: int, dy: int, dz: int|
            0 <= dx <= 1 && 0 <= dy <= 1 && 0 <= dz <= 1 && #[trigger] node_sign(
                g,
                nd,
                base,
                dx,
                dy,
                dz,
            ) != g[base as int],
{
    let b = base as int;
    let n = nd as int;
    let d2 = n * n;
    assert(node_sign(g, nd, base, 0, 0, 0) == g[b]);
    assert(node_sign(g, nd, base, 1, 0, 0) == g[b + 1]);
    assert(node_sign(g, nd, base, 0, 1, 0) == g[b + n]);
    assert(node_sign(g, nd, base, 1, 1, 0) == g[b + n + 1]);
    assert(node_sign(g, nd, base, 0, 0, 1) == g[b + d2]);
    assert(node_sign(g, nd, base, 1, 0, 1) == g[b + d2 + 1]);
    assert(node_sign(g, nd, base, 0, 1, 1) == g[b + d2 + n]);
    assert(node_sign(g, nd, base, 1, 1, 1) == g[b + d2 + n + 1]);
    lemma_mixed_signs_differ(
        g[b],
        g[b + 1],
        g[b + n],
        g[b + n + 1],
        g[b + d2],
        g[b + d2 + 1],
        g[b + d2 + n],
        g[b + d2 + n + 1],
    );
    if exists|dx: int, dy: int, dz: int|
        0 <= dx <= 1 && 0 <= dy <= 1 && 0 <= dz <= 1 && #[trigger] node_sign(g, nd, base, dx, dy, dz)
            != g[b] {
        let (dx, dy, dz) = choose|dx: int, dy: int, dz: int|
            0 <= dx <= 1 && 0 <= dy <= 1 && 0 <= dz <= 1 && #[trigger] node_sign(
                g,
                nd,
                base,
                dx,
                dy,
                dz,
            ) != g[b];
        assert(dx == 0 || dx == 1);
        assert(dy == 0 || dy == 1);
        assert(dz == 0 || dz == 1);
    }
}

} // verus!
