//! Voxelization: maps a maze's occupancy grid into a padded, linearized
//! voxel volume suitable for surface extraction, and emits one unit box
//! collider per solid cell in the same pass.
//!
//! The volume is padded by one empty voxel on every side of the maze's
//! physical extent, so the mesher can close the outer boundary with
//! visible faces. A 2D maze becomes a one-voxel-tall slab.

use vstd::prelude::*;
use crate::maze2d::Maze2D;
use crate::maze3d::Maze3D;

verus! {

/// A dense boolean voxel volume with shape `(sx, sy, sz)`,
/// linearized x-fastest: voxel `(x, y, z)` is at `(z*sy + y)*sx + x`.
/// `true` = solid, `false` = empty.
pub struct VoxelGrid {
    voxels: Vec<bool>,
    sx: usize,
    sy: usize,
    sz: usize,
}

/// One axis-aligned unit box collider: the cube spanning
/// `[x, x+1] x [y, y+1] x [z, z+1]` in voxel coordinates, i.e. with center
/// `(x + 1/2, y + 1/2, z + 1/2)` and half-extents of one half on each axis.
#[derive(Clone, Copy, PartialEq, Eq, Structural, Debug)]
pub struct BoxCollider {
    /// Minimum corner, x.
    pub x: usize,
    /// Minimum corner, y.
    pub y: usize,
    /// Minimum corner, z.
    pub z: usize,
}

impl View for BoxCollider {
    type V = (int, int, int);

    open spec fn view(&self) -> (int, int, int) {
        (self.x as int, self.y as int, self.z as int)
    }
}

impl VoxelGrid {
    /// Shape along x.
    pub closed spec fn sx(&self) -> int {
        self.sx as int
    }

    /// Shape along y.
    pub closed spec fn sy(&self) -> int {
        self.sy as int
    }

    /// Shape along z.
    pub closed spec fn sz(&self) -> int {
        self.sz as int
    }

    /// The voxel at `(x, y, z)`: `true` = solid.
    pub closed spec fn voxel(&self, x: int, y: int, z: int) -> bool {
        self.voxels@[(z * self.sy() + y) * self.sx() + x]
    }

    /// The volume covers exactly its shape.
    pub closed spec fn wf(&self) -> bool {
        &&& 1 <= self.sx
        &&& 1 <= self.sy
        &&& 1 <= self.sz
        &&& self.sx() * self.sy() * self.sz() <= usize::MAX
        &&& self.voxels@.len() == self.sx() * self.sy() * self.sz()
    }

    /// Bounds a well-formed volume's shape gives on machine arithmetic.
    pub proof fn lemma_wf_bounds(&self)
        requires
            self.wf(),
        ensures
            1 <= self.sx(),
            1 <= self.sy(),
            1 <= self.sz(),
            self.sx() * self.sy() * self.sz() <= usize::MAX,
    {
    }

    /// Shape along x.
    pub fn shape_x(&self) -> (r: usize)
        ensures
            r as int == self.sx(),
    {
        self.sx
    }

    /// Shape along y.
    pub fn shape_y(&self) -> (r: usize)
        ensures
            r as int == self.sy(),
    {
        self.sy
    }

    /// Shape along z.
    pub fn shape_z(&self) -> (r: usize)
        ensures
            r as int == self.sz(),
    {
        self.sz
    }

    /// The flat index of an in-range voxel is in range.
    proof fn lemma_index_in_bounds(&self, x: int, y: int, z: int)
        requires
            self.wf(),
            0 <= x < self.sx(),
            0 <= y < self.sy(),
            0 <= z < self.sz(),
        ensures
            0 <= (z * self.sy() + y) * self.sx() + x < self.voxels@.len(),
            self.sx() <= self.voxels@.len(),
            self.sy() <= self.voxels@.len(),
            self.sz() <= self.voxels@.len(),
            z * self.sy() + y < self.sy() * self.sz(),
            self.sy() * self.sz() <= self.voxels@.len(),
    {
        let sx = self.sx();
        let sy = self.sy();
        let sz = self.sz();
        assert(0 <= z * sy + y < sy * sz) by (nonlinear_arith)
            requires sy > 0 && sz > 0 && 0 <= y < sy && 0 <= z < sz;
        assert((z * sy + y) * sx + x < sx * sy * sz && sx <= sx * sy * sz
            && sy <= sx * sy * sz && sz <= sx * sy * sz && sy * sz <= sx * sy * sz)
            by (nonlinear_arith)
            requires sx > 0 && sy > 0 && sz > 0 && 0 <= x < sx && 0 <= z * sy + y < sy * sz;
        assert((z * sy + y) * sx + x >= 0) by (nonlinear_arith)
            requires sx > 0 && 0 <= x && 0 <= z * sy + y;
    }

    /// Distinct in-range voxel coordinates have distinct flat indices.
    proof fn lemma_index_injective(
        &self, x1: int, y1: int, z1: int, x2: int, y2: int, z2: int,
    )
        requires
            self.wf(),
            0 <= x1 < self.sx(),
            0 <= y1 < self.sy(),
            0 <= z1 < self.sz(),
            0 <= x2 < self.sx(),
            0 <= y2 < self.sy(),
            0 <= z2 < self.sz(),
            !(x1 == x2 && y1 == y2 && z1 == z2),
        ensures
            (z1 * self.sy() + y1) * self.sx() + x1 != (z2 * self.sy() + y2) * self.sx() + x2,
    {
        let sx = self.sx();
        let sy = self.sy();
        let r1 = z1 * sy + y1;
        let r2 = z2 * sy + y2;
        assert(!(y1 == y2 && z1 == z2) ==> r1 != r2) by (nonlinear_arith)
            requires
                sy > 0 && 0 <= y1 < sy && 0 <= y2 < sy && r1 == z1 * sy + y1 && r2 == z2 * sy + y2;
        assert(r1 * sx + x1 != r2 * sx + x2) by (nonlinear_arith)
            requires sx > 0 && 0 <= x1 < sx && 0 <= x2 < sx && !(x1 == x2 && r1 == r2);
    }

    /// Whether the voxel at `(x, y, z)` is solid.
    pub fn get(&self, x: usize, y: usize, z: usize) -> (r: bool)
        requires
            self.wf(),
            x < self.sx(),
            y < self.sy(),
            z < self.sz(),
        ensures
            r == self.voxel(x as int, y as int, z as int),
    {
        proof {
            self.lemma_index_in_bounds(x as int, y as int, z as int);
        }
        self.voxels[(z * self.sy + y) * self.sx + x]
    }

    /// An all-empty volume of the given shape.
    pub fn empty(sx: usize, sy: usize, sz: usize) -> (v: VoxelGrid)
        requires
            1 <= sx,
            1 <= sy,
            1 <= sz,
            sx * sy * sz <= usize::MAX,
        ensures
            v.wf(),
            v.sx() == sx,
            v.sy() == sy,
            v.sz() == sz,
            forall|x: int, y: int, z: int|
                0 <= x < sx && 0 <= y < sy && 0 <= z < sz ==> !#[trigger] v.voxel(x, y, z),
    {
        proof {
            assert(sx * sy <= usize::MAX) by (nonlinear_arith)
                requires sz >= 1 && sx * sy * sz <= usize::MAX && sx > 0 && sy > 0;
        }
        let n = sx * sy * sz;
        let mut voxels: Vec<bool> = Vec::new();
        let mut t: usize = 0;
        while t < n
            invariant
                t <= n,
                voxels@.len() == t,
                forall|q: int| 0 <= q < t ==> !voxels@[q],
            decreases n - t,
        {
            voxels.push(false);
            t = t + 1;
        }
        let v = VoxelGrid { voxels, sx, sy, sz };
        proof {
            assert forall|x: int, y: int, z: int|
                0 <= x < sx && 0 <= y < sy && 0 <= z < sz
                implies !#[trigger] v.voxel(x, y, z) by {
                v.lemma_index_in_bounds(x, y, z);
            }
        }
        v
    }

    /// Mark the voxel at `(x, y, z)` solid.
    pub fn set_solid(&mut self, x: usize, y: usize, z: usize)
        requires
            old(self).wf(),
            x < old(self).sx(),
            y < old(self).sy(),
            z < old(self).sz(),
        ensures
            final(self).wf(),
            final(self).sx() == old(self).sx(),
            final(self).sy() == old(self).sy(),
            final(self).sz() == old(self).sz(),
            final(self).voxel(x as int, y as int, z as int),
            forall|a: int, b: int, c: int|
                0 <= a < old(self).sx() && 0 <= b < old(self).sy() && 0 <= c < old(self).sz()
                    && !(a == x && b == y && c == z)
                    ==> #[trigger] final(self).voxel(a, b, c) == old(self).voxel(a, b, c),
    {
        proof {
            self.lemma_index_in_bounds(x as int, y as int, z as int);
        }
        let i = (z * self.sy + y) * self.sx + x;
        self.voxels[i] = true;
        proof {
            assert forall|a: int, b: int, c: int|
                0 <= a < old(self).sx() && 0 <= b < old(self).sy() && 0 <= c < old(self).sz()
                    && !(a == x && b == y && c == z)
                implies #[trigger] self.voxel(a, b, c) == old(self).voxel(a, b, c) by {
                old(self).lemma_index_injective(a, b, c, x as int, y as int, z as int);
                old(self).lemma_index_in_bounds(a, b, c);
            }
        }
    }
}

/// The colliders emitted for physical row `y` of a 2D maze, for cells
/// `0 <= x < upto`, in scan order.
pub open spec fn colliders2_row(m: &Maze2D, y: int, upto: int) -> Seq<(int, int, int)>
    decreases upto,
{
    if upto <= 0 {
        Seq::empty()
    } else {
        colliders2_row(m, y, upto - 1) + if m.cell(upto - 1, y) {
            seq![(upto, 1int, y + 1)]
        } else {
            Seq::empty()
        }
    }
}

/// The colliders emitted for the first `upto` physical rows of a 2D maze,
/// in scan order (rows outer, cells inner).
pub open spec fn colliders2_upto(m: &Maze2D, upto: int) -> Seq<(int, int, int)>
    decreases upto,
{
    if upto <= 0 {
        Seq::empty()
    } else {
        colliders2_upto(m, upto - 1) + colliders2_row(m, upto - 1, m.pw())
    }
}

/// All colliders of a 2D maze: one per solid physical cell, at that cell's
/// padded voxel position, in scan order.
pub open spec fn collider_seq2(m: &Maze2D) -> Seq<(int, int, int)> {
    colliders2_upto(m, m.ph())
}

/// Voxelize a 2D maze into a one-voxel-tall slab, padded by one empty
/// voxel on every side, and emit one unit box collider per solid cell.
///
/// The solid cell at physical `(x, y)` becomes the solid voxel
/// `(x + 1, 1, y + 1)`; everything else stays empty.
pub fn voxelize2d(maze: &Maze2D) -> (r: (VoxelGrid, Vec<BoxCollider>))
    requires
        maze.wf(),
        (maze.pw() + 2) * 3 * (maze.ph() + 2) <= usize::MAX,
    ensures
        r.0.wf(),
        r.0.sx() == maze.pw() + 2,
        r.0.sy() == 3,
        r.0.sz() == maze.ph() + 2,
        forall|x: int, y: int, z: int|
            0 <= x < r.0.sx() && 0 <= y < r.0.sy() && 0 <= z < r.0.sz()
                ==> #[trigger] r.0.voxel(x, y, z)
                    == (y == 1 && 1 <= x <= maze.pw() && 1 <= z <= maze.ph()
                        && maze.cell(x - 1, z - 1)),
        r.1@.map_values(|c: BoxCollider| c@) == collider_seq2(maze),
{
    proof {
        maze.lemma_wf_bounds();
        assert(maze.pw() + 2 <= usize::MAX && maze.ph() + 2 <= usize::MAX) by (nonlinear_arith)
            requires
                (maze.pw() + 2) * 3 * (maze.ph() + 2) <= usize::MAX,
                maze.pw() >= 3,
                maze.ph() >= 3;
    }
    let pw = 2 * maze.width() + 1;
    let ph = 2 * maze.height() + 1;
    let mut vox = VoxelGrid::empty(pw + 2, 3, ph + 2);
    let mut cubes: Vec<BoxCollider> = Vec::new();
    proof {
        assert(cubes@.map_values(|cc: BoxCollider| cc@) =~= Seq::<(int, int, int)>::empty());
    }
    let mut y: usize = 0;
    while y < ph
        invariant
            maze.wf(),
            pw == maze.pw(),
            ph == maze.ph(),
            y <= ph,
            vox.wf(),
            vox.sx() == maze.pw() + 2,
            vox.sy() == 3,
            vox.sz() == maze.ph() + 2,
            forall|a: int, b: int, c: int|
                0 <= a < vox.sx() && 0 <= b < vox.sy() && 0 <= c < vox.sz()
                    ==> #[trigger] vox.voxel(a, b, c)
                        == (b == 1 && 1 <= a <= maze.pw() && 1 <= c <= y
                            && maze.cell(a - 1, c - 1)),
            cubes@.map_values(|cc: BoxCollider| cc@) == colliders2_upto(maze, y as int),
        decreases ph - y,
    {
        let mut x: usize = 0;
        while x < pw
            invariant
                maze.wf(),
                pw == maze.pw(),
                ph == maze.ph(),
                y < ph,
                x <= pw,
                vox.wf(),
                vox.sx() == maze.pw() + 2,
                vox.sy() == 3,
                vox.sz() == maze.ph() + 2,
                forall|a: int, b: int, c: int|
                    0 <= a < vox.sx() && 0 <= b < vox.sy() && 0 <= c < vox.sz()
                        ==> #[trigger] vox.voxel(a, b, c)
                            == (b == 1 && 1 <= a <= maze.pw()
                                && (1 <= c <= y || (c == y + 1 && a <= x))
                                && maze.cell(a - 1, c - 1)),
                cubes@.map_values(|cc: BoxCollider| cc@)
                    == colliders2_upto(maze, y as int) + colliders2_row(maze, y as int, x as int),
            decreases pw - x,
        {
            let ghost cubes0 = cubes@;
            let ghost vox0 = vox;
            if maze.is_solid(x, y) {
                vox.set_solid(x + 1, 1, y + 1);
                cubes.push(BoxCollider { x: x + 1, y: 1, z: y + 1 });
            }
            proof {
                assert(cubes@.map_values(|cc: BoxCollider| cc@)
                    == colliders2_upto(maze, y as int)
                        + colliders2_row(maze, y as int, x as int + 1)) by {
                    if maze.cell(x as int, y as int) {
                        assert(cubes@ == cubes0.push(
                            BoxCollider { x: (x + 1) as usize, y: 1, z: (y + 1) as usize },
                        ));
                        assert(cubes@.map_values(|cc: BoxCollider| cc@)
                            =~= cubes0.map_values(|cc: BoxCollider| cc@)
                                + seq![(x as int + 1, 1int, y as int + 1)]);
                    } else {
                        assert(colliders2_row(maze, y as int, x as int + 1)
                            == colliders2_row(maze, y as int, x as int));
                    }
                }
                assert forall|a: int, b: int, c: int|
                    0 <= a < vox.sx() && 0 <= b < vox.sy() && 0 <= c < vox.sz()
                    implies #[trigger] vox.voxel(a, b, c)
                        == (b == 1 && 1 <= a <= maze.pw()
                            && (1 <= c <= y || (c == y + 1 && a <= x + 1))
                            && maze.cell(a - 1, c - 1)) by {
                    if maze.cell(x as int, y as int) {
                        if !(a == x + 1 && b == 1 && c == y + 1) {
                            assert(vox.voxel(a, b, c) == vox0.voxel(a, b, c));
                        }
                    }
                }
            }
            x = x + 1;
        }
        proof {
            assert(colliders2_upto(maze, y as int + 1)
                == colliders2_upto(maze, y as int) + colliders2_row(maze, y as int, maze.pw()));
        }
        y = y + 1;
    }
    proof {
        assert forall|a: int, b: int, c: int|
            0 <= a < vox.sx() && 0 <= b < vox.sy() && 0 <= c < vox.sz()
            implies #[trigger] vox.voxel(a, b, c)
                == (b == 1 && 1 <= a <= maze.pw() && 1 <= c <= maze.ph()
                    && maze.cell(a - 1, c - 1)) by {}
    }
    (vox, cubes)
}

/// The number of solid cells in physical row `y` of a 2D maze, among cells
/// `0 <= x < upto`.
pub open spec fn solid_count2_row(m: &Maze2D, y: int, upto: int) -> nat
    decreases upto,
{
    if upto <= 0 {
        0
    } else {
        solid_count2_row(m, y, upto - 1) + if m.cell(upto - 1, y) {
            1nat
        } else {
            0
        }
    }
}

/// The number of solid cells in the first `upto` physical rows of a 2D maze.
pub open spec fn solid_count2_upto(m: &Maze2D, upto: int) -> nat
    decreases upto,
{
    if upto <= 0 {
        0
    } else {
        solid_count2_upto(m, upto - 1) + solid_count2_row(m, upto - 1, m.pw())
    }
}

/// The number of solid physical cells of a 2D maze.
pub open spec fn solid_cell_count2(m: &Maze2D) -> nat {
    solid_count2_upto(m, m.ph())
}

/// A collider entry of a 2D maze is well-placed: it sits one unit of
/// padding inside the voxel volume, on the single slab layer, over a solid
/// cell of the maze.
pub open spec fn collider_ok2(m: &Maze2D, c: (int, int, int)) -> bool {
    1 <= c.0 <= m.pw() && c.1 == 1 && 1 <= c.2 <= m.ph() && m.cell(c.0 - 1, c.2 - 1)
}

proof fn lemma_colliders2_row_exact(m: &Maze2D, y: int, upto: int)
    requires
        m.wf(),
        0 <= upto,
    ensures
        colliders2_row(m, y, upto).len() == solid_count2_row(m, y, upto),
        forall|n: int|
            0 <= n < colliders2_row(m, y, upto).len()
                ==> 1 <= #[trigger] colliders2_row(m, y, upto)[n].0 <= upto
                    && colliders2_row(m, y, upto)[n].1 == 1
                    && colliders2_row(m, y, upto)[n].2 == y + 1
                    && m.cell(colliders2_row(m, y, upto)[n].0 - 1, y),
        forall|t: int|
            0 <= t < upto && #[trigger] m.cell(t, y)
                ==> colliders2_row(m, y, upto).contains((t + 1, 1int, y + 1)),
        colliders2_row(m, y, upto).no_duplicates(),
    decreases upto,
{
    m.lemma_wf_bounds();
    if upto > 0 {
        lemma_colliders2_row_exact(m, y, upto - 1);
        let prev = colliders2_row(m, y, upto - 1);
        let cur = colliders2_row(m, y, upto);
        if m.cell(upto - 1, y) {
            assert(cur == prev + seq![(upto, 1int, y + 1)]);
            assert forall|t: int| 0 <= t < upto && #[trigger] m.cell(t, y)
                implies cur.contains((t + 1, 1int, y + 1)) by {
                if t < upto - 1 {
                    let n = choose|n: int| 0 <= n < prev.len() && prev[n] == (t + 1, 1int, y + 1);
                    assert(cur[n] == (t + 1, 1int, y + 1));
                } else {
                    assert(cur[cur.len() - 1] == (t + 1, 1int, y + 1));
                }
            }
            assert(cur.no_duplicates()) by {
                assert forall|n1: int, n2: int| 0 <= n1 < n2 < cur.len()
                    implies cur[n1] != cur[n2] by {
                    if n2 == cur.len() - 1 {
                        assert(cur[n1].0 <= upto - 1 && cur[n2].0 == upto);
                    }
                }
            }
        } else {
            assert(cur == prev + Seq::<(int, int, int)>::empty());
            assert(cur =~= prev);
            assert forall|t: int| 0 <= t < upto && #[trigger] m.cell(t, y)
                implies cur.contains((t + 1, 1int, y + 1)) by {
                assert(t != upto - 1);
            }
        }
    }
}

proof fn lemma_colliders2_upto_exact(m: &Maze2D, upto: int)
    requires
        m.wf(),
        0 <= upto,
    ensures
        colliders2_upto(m, upto).len() == solid_count2_upto(m, upto),
        forall|n: int|
            0 <= n < colliders2_upto(m, upto).len()
                ==> 1 <= #[trigger] colliders2_upto(m, upto)[n].0 <= m.pw()
                    && colliders2_upto(m, upto)[n].1 == 1
                    && 1 <= colliders2_upto(m, upto)[n].2 <= upto
                    && m.cell(colliders2_upto(m, upto)[n].0 - 1, colliders2_upto(m, upto)[n].2 - 1),
        forall|x: int, t: int|
            0 <= x < m.pw() && 0 <= t < upto && #[trigger] m.cell(x, t)
                ==> colliders2_upto(m, upto).contains((x + 1, 1int, t + 1)),
        colliders2_upto(m, upto).no_duplicates(),
    decreases upto,
{
    m.lemma_wf_bounds();
    if upto > 0 {
        lemma_colliders2_upto_exact(m, upto - 1);
        lemma_colliders2_row_exact(m, upto - 1, m.pw());
        let prev = colliders2_upto(m, upto - 1);
        let row = colliders2_row(m, upto - 1, m.pw());
        let cur = colliders2_upto(m, upto);
        assert(cur == prev + row);
        assert forall|x: int, t: int|
            0 <= x < m.pw() && 0 <= t < upto && #[trigger] m.cell(x, t)
            implies cur.contains((x + 1, 1int, t + 1)) by {
            if t < upto - 1 {
                let n = choose|n: int| 0 <= n < prev.len() && prev[n] == (x + 1, 1int, t + 1);
                assert(cur[n] == (x + 1, 1int, t + 1));
            } else {
                let n = choose|n: int| 0 <= n < row.len() && row[n] == (x + 1, 1int, t + 1);
                assert(cur[prev.len() + n] == (x + 1, 1int, t + 1));
            }
        }
        assert(cur.no_duplicates()) by {
            assert forall|n1: int, n2: int| 0 <= n1 < n2 < cur.len()
                implies cur[n1] != cur[n2] by {
                if n1 < prev.len() && n2 >= prev.len() {
                    assert(cur[n1] == prev[n1]);
                    assert(cur[n2] == row[n2 - prev.len()]);
                    assert(1 <= prev[n1].0);
                    assert(1 <= row[n2 - prev.len()].0);
                    assert(cur[n1].2 <= upto - 1 && cur[n2].2 == upto);
                }
            }
        }
    }
}

/// One collider per solid cell: the collider list of a 2D maze enumerates,
/// without repetition, exactly the solid cells (shifted by the one-voxel
/// padding), so its length is exactly the number of solid cells, and each
/// collider's position maps back to exactly one solid cell of the grid.
pub proof fn lemma_collider_correspondence2(m: &Maze2D)
    requires
        m.wf(),
    ensures
        collider_seq2(m).len() == solid_cell_count2(m),
        collider_seq2(m).no_duplicates(),
        forall|n: int|
            0 <= n < collider_seq2(m).len() ==> collider_ok2(m, #[trigger] collider_seq2(m)[n]),
        forall|x: int, y: int|
            0 <= x < m.pw() && 0 <= y < m.ph() && #[trigger] m.cell(x, y)
                ==> collider_seq2(m).contains((x + 1, 1int, y + 1)),
{
    m.lemma_wf_bounds();
    lemma_colliders2_upto_exact(m, m.ph());
}

/// The colliders emitted for physical row `(y, z)` of a 3D maze, for cells
/// `0 <= x < upto`, in scan order.
pub open spec fn colliders3_row(m: &Maze3D, y: int, z: int, upto: int) -> Seq<(int, int, int)>
    decreases upto,
{
    if upto <= 0 {
        Seq::empty()
    } else {
        colliders3_row(m, y, z, upto - 1) + if m.cell(upto - 1, y, z) {
            seq![(upto, y + 1, z + 1)]
        } else {
            Seq::empty()
        }
    }
}

/// The colliders emitted for the first `upto` rows of physical plane `z`
/// of a 3D maze, in scan order.
pub open spec fn colliders3_plane(m: &Maze3D, z: int, upto: int) -> Seq<(int, int, int)>
    decreases upto,
{
    if upto <= 0 {
        Seq::empty()
    } else {
        colliders3_plane(m, z, upto - 1) + colliders3_row(m, upto - 1, z, m.pw())
    }
}

/// The colliders emitted for the first `upto` physical planes of a 3D
/// maze, in scan order (planes outer, rows middle, cells inner).
pub open spec fn colliders3_upto(m: &Maze3D, upto: int) -> Seq<(int, int, int)>
    decreases upto,
{
    if upto <= 0 {
        Seq::empty()
    } else {
        colliders3_upto(m, upto - 1) + colliders3_plane(m, upto - 1, m.ph())
    }
}

/// All colliders of a 3D maze: one per solid physical cell, at that cell's
/// padded voxel position, in scan order.
pub open spec fn collider_seq3(m: &Maze3D) -> Seq<(int, int, int)> {
    colliders3_upto(m, m.pd())
}

/// The number of solid cells in physical row `(y, z)` of a 3D maze, among
/// cells `0 <= x < upto`.
pub open spec fn solid_count3_row(m: &Maze3D, y: int, z: int, upto: int) -> nat
    decreases upto,
{
    if upto <= 0 {
        0
    } else {
        solid_count3_row(m, y, z, upto - 1) + if m.cell(upto - 1, y, z) {
            1nat
        } else {
            0
        }
    }
}

/// The number of solid cells in the first `upto` rows of physical plane
/// `z` of a 3D maze.
pub open spec fn solid_count3_plane(m: &Maze3D, z: int, upto: int) -> nat
    decreases upto,
{
    if upto <= 0 {
        0
    } else {
        solid_count3_plane(m, z, upto - 1) + solid_count3_row(m, upto - 1, z, m.pw())
    }
}

/// The number of solid cells in the first `upto` physical planes of a
/// 3D maze.
pub open spec fn solid_count3_upto(m: &Maze3D, upto: int) -> nat
    decreases upto,
{
    if upto <= 0 {
        0
    } else {
        solid_count3_upto(m, upto - 1) + solid_count3_plane(m, upto - 1, m.ph())
    }
}

/// The number of solid physical cells of a 3D maze.
pub open spec fn solid_cell_count3(m: &Maze3D) -> nat {
    solid_count3_upto(m, m.pd())
}

/// A collider entry of a 3D maze is well-placed: it sits one unit of
/// padding inside the voxel volume, over a solid cell of the maze.
pub open spec fn collider_ok3(m: &Maze3D, c: (int, int, int)) -> bool {
    1 <= c.0 <= m.pw() && 1 <= c.1 <= m.ph() && 1 <= c.2 <= m.pd()
        && m.cell(c.0 - 1, c.1 - 1, c.2 - 1)
}

proof fn lemma_colliders3_row_exact(m: &Maze3D, y: int, z: int, upto: int)
    requires
        m.wf(),
        0 <= upto,
    ensures
        colliders3_row(m, y, z, upto).len() == solid_count3_row(m, y, z, upto),
        forall|n: int|
            0 <= n < colliders3_row(m, y, z, upto).len()
                ==> 1 <= #[trigger] colliders3_row(m, y, z, upto)[n].0 <= upto
                    && colliders3_row(m, y, z, upto)[n].1 == y + 1
                    && colliders3_row(m, y, z, upto)[n].2 == z + 1
                    && m.cell(colliders3_row(m, y, z, upto)[n].0 - 1, y, z),
        forall|t: int|
            0 <= t < upto && #[trigger] m.cell(t, y, z)
                ==> colliders3_row(m, y, z, upto).contains((t + 1, y + 1, z + 1)),
        colliders3_row(m, y, z, upto).no_duplicates(),
    decreases upto,
{
    m.lemma_wf_bounds();
    if upto > 0 {
        lemma_colliders3_row_exact(m, y, z, upto - 1);
        let prev = colliders3_row(m, y, z, upto - 1);
        let cur = colliders3_row(m, y, z, upto);
        if m.cell(upto - 1, y, z) {
            assert(cur == prev + seq![(upto, y + 1, z + 1)]);
            assert forall|t: int| 0 <= t < upto && #[trigger] m.cell(t, y, z)
                implies cur.contains((t + 1, y + 1, z + 1)) by {
                if t < upto - 1 {
                    let n = choose|n: int| 0 <= n < prev.len() && prev[n] == (t + 1, y + 1, z + 1);
                    assert(cur[n] == (t + 1, y + 1, z + 1));
                } else {
                    assert(cur[cur.len() - 1] == (t + 1, y + 1, z + 1));
                }
            }
            assert(cur.no_duplicates()) by {
                assert forall|n1: int, n2: int| 0 <= n1 < n2 < cur.len()
                    implies cur[n1] != cur[n2] by {
                    if n2 == cur.len() - 1 {
                        assert(cur[n1].0 <= upto - 1 && cur[n2].0 == upto);
                    }
                }
            }
        } else {
            assert(cur == prev + Seq::<(int, int, int)>::empty());
            assert(cur =~= prev);
            assert forall|t: int| 0 <= t < upto && #[trigger] m.cell(t, y, z)
                implies cur.contains((t + 1, y + 1, z + 1)) by {
                assert(t != upto - 1);
            }
        }
    }
}

proof fn lemma_colliders3_plane_exact(m: &Maze3D, z: int, upto: int)
    requires
        m.wf(),
        0 <= upto,
    ensures
        colliders3_plane(m, z, upto).len() == solid_count3_plane(m, z, upto),
        forall|n: int|
            0 <= n < colliders3_plane(m, z, upto).len()
                ==> 1 <= #[trigger] colliders3_plane(m, z, upto)[n].0 <= m.pw()
                    && 1 <= colliders3_plane(m, z, upto)[n].1 <= upto
                    && colliders3_plane(m, z, upto)[n].2 == z + 1
                    && m.cell(
                        colliders3_plane(m, z, upto)[n].0 - 1,
                        colliders3_plane(m, z, upto)[n].1 - 1,
                        z,
                    ),
        forall|x: int, t: int|
            0 <= x < m.pw() && 0 <= t < upto && #[trigger] m.cell(x, t, z)
                ==> colliders3_plane(m, z, upto).contains((x + 1, t + 1, z + 1)),
        colliders3_plane(m, z, upto).no_duplicates(),
    decreases upto,
{
    m.lemma_wf_bounds();
    if upto > 0 {
        lemma_colliders3_plane_exact(m, z, upto - 1);
        lemma_colliders3_row_exact(m, upto - 1, z, m.pw());
        let prev = colliders3_plane(m, z, upto - 1);
        let row = colliders3_row(m, upto - 1, z, m.pw());
        let cur = colliders3_plane(m, z, upto);
        assert(cur == prev + row);
        assert forall|x: int, t: int|
            0 <= x < m.pw() && 0 <= t < upto && #[trigger] m.cell(x, t, z)
            implies cur.contains((x + 1, t + 1, z + 1)) by {
            if t < upto - 1 {
                let n = choose|n: int| 0 <= n < prev.len() && prev[n] == (x + 1, t + 1, z + 1);
                assert(cur[n] == (x + 1, t + 1, z + 1));
            } else {
                let n = choose|n: int| 0 <= n < row.len() && row[n] == (x + 1, t + 1, z + 1);
                assert(cur[prev.len() + n] == (x + 1, t + 1, z + 1));
            }
        }
        assert(cur.no_duplicates()) by {
            assert forall|n1: int, n2: int| 0 <= n1 < n2 < cur.len()
                implies cur[n1] != cur[n2] by {
                if n1 < prev.len() && n2 >= prev.len() {
                    assert(cur[n1] == prev[n1]);
                    assert(cur[n2] == row[n2 - prev.len()]);
                    assert(1 <= prev[n1].0);
                    assert(1 <= row[n2 - prev.len()].0);
                    assert(cur[n1].1 <= upto - 1 && cur[n2].1 == upto);
                }
            }
        }
    }
}

proof fn lemma_colliders3_upto_exact(m: &Maze3D, upto: int)
    requires
        m.wf(),
        0 <= upto,
    ensures
        colliders3_upto(m, upto).len() == solid_count3_upto(m, upto),
        forall|n: int|
            0 <= n < colliders3_upto(m, upto).len()
                ==> 1 <= #[trigger] colliders3_upto(m, upto)[n].0 <= m.pw()
                    && 1 <= colliders3_upto(m, upto)[n].1 <= m.ph()
                    && 1 <= colliders3_upto(m, upto)[n].2 <= upto
                    && m.cell(
                        colliders3_upto(m, upto)[n].0 - 1,
                        colliders3_upto(m, upto)[n].1 - 1,
                        colliders3_upto(m, upto)[n].2 - 1,
                    ),
        forall|x: int, t: int, u: int|
            0 <= x < m.pw() && 0 <= t < m.ph() && 0 <= u < upto && #[trigger] m.cell(x, t, u)
                ==> colliders3_upto(m, upto).contains((x + 1, t + 1, u + 1)),
        colliders3_upto(m, upto).no_duplicates(),
    decreases upto,
{
    m.lemma_wf_bounds();
    if upto > 0 {
        lemma_colliders3_upto_exact(m, upto - 1);
        lemma_colliders3_plane_exact(m, upto - 1, m.ph());
        let prev = colliders3_upto(m, upto - 1);
        let plane = colliders3_plane(m, upto - 1, m.ph());
        let cur = colliders3_upto(m, upto);
        assert(cur == prev + plane);
        assert forall|x: int, t: int, u: int|
            0 <= x < m.pw() && 0 <= t < m.ph() && 0 <= u < upto && #[trigger] m.cell(x, t, u)
            implies cur.contains((x + 1, t + 1, u + 1)) by {
            if u < upto - 1 {
                let n = choose|n: int| 0 <= n < prev.len() && prev[n] == (x + 1, t + 1, u + 1);
                assert(cur[n] == (x + 1, t + 1, u + 1));
            } else {
                let n = choose|n: int| 0 <= n < plane.len() && plane[n] == (x + 1, t + 1, u + 1);
                assert(cur[prev.len() + n] == (x + 1, t + 1, u + 1));
            }
        }
        assert(cur.no_duplicates()) by {
            assert forall|n1: int, n2: int| 0 <= n1 < n2 < cur.len()
                implies cur[n1] != cur[n2] by {
                if n1 < prev.len() && n2 >= prev.len() {
                    assert(cur[n1] == prev[n1]);
                    assert(cur[n2] == plane[n2 - prev.len()]);
                    assert(1 <= prev[n1].0);
                    assert(1 <= plane[n2 - prev.len()].0);
                    assert(cur[n1].2 <= upto - 1 && cur[n2].2 == upto);
                }
            }
        }
    }
}

/// One collider per solid cell: the collider list of a 3D maze enumerates,
/// without repetition, exactly the solid cells (shifted by the one-voxel
/// padding), so its length is exactly the number of solid cells, and each
/// collider's position maps back to exactly one solid cell of the grid.
pub proof fn lemma_collider_correspondence3(m: &Maze3D)
    requires
        m.wf(),
    ensures
        collider_seq3(m).len() == solid_cell_count3(m),
        collider_seq3(m).no_duplicates(),
        forall|n: int|
            0 <= n < collider_seq3(m).len() ==> collider_ok3(m, #[trigger] collider_seq3(m)[n]),
        forall|x: int, y: int, z: int|
            0 <= x < m.pw() && 0 <= y < m.ph() && 0 <= z < m.pd() && #[trigger] m.cell(x, y, z)
                ==> collider_seq3(m).contains((x + 1, y + 1, z + 1)),
{
    m.lemma_wf_bounds();
    lemma_colliders3_upto_exact(m, m.pd());
}

/// Voxelize a 3D maze, padded by one empty voxel on every side, and emit
/// one unit box collider per solid cell.
///
/// The solid cell at physical `(x, y, z)` becomes the solid voxel
/// `(x + 1, y + 1, z + 1)`; everything else stays empty.
pub fn voxelize3d(maze: &Maze3D) -> (r: (VoxelGrid, Vec<BoxCollider>))
    requires
        maze.wf(),
        (maze.pw() + 2) * (maze.ph() + 2) * (maze.pd() + 2) <= usize::MAX,
    ensures
        r.0.wf(),
        r.0.sx() == maze.pw() + 2,
        r.0.sy() == maze.ph() + 2,
        r.0.sz() == maze.pd() + 2,
        forall|x: int, y: int, z: int|
            0 <= x < r.0.sx() && 0 <= y < r.0.sy() && 0 <= z < r.0.sz()
                ==> #[trigger] r.0.voxel(x, y, z)
                    == (1 <= x <= maze.pw() && 1 <= y <= maze.ph() && 1 <= z <= maze.pd()
                        && maze.cell(x - 1, y - 1, z - 1)),
        r.1@.map_values(|c: BoxCollider| c@) == collider_seq3(maze),
{
    proof {
        maze.lemma_wf_bounds();
        assert(maze.pw() + 2 <= usize::MAX && maze.ph() + 2 <= usize::MAX
            && maze.pd() + 2 <= usize::MAX) by (nonlinear_arith)
            requires
                (maze.pw() + 2) * (maze.ph() + 2) * (maze.pd() + 2) <= usize::MAX,
                maze.pw() >= 3,
                maze.ph() >= 3,
                maze.pd() >= 3;
    }
    let pw = 2 * maze.width() + 1;
    let ph = 2 * maze.height() + 1;
    let pd = 2 * maze.depth() + 1;
    let mut vox = VoxelGrid::empty(pw + 2, ph + 2, pd + 2);
    let mut cubes: Vec<BoxCollider> = Vec::new();
    proof {
        assert(cubes@.map_values(|cc: BoxCollider| cc@) =~= Seq::<(int, int, int)>::empty());
    }
    let mut z: usize = 0;
    while z < pd
        invariant
            maze.wf(),
            pw == maze.pw(),
            ph == maze.ph(),
            pd == maze.pd(),
            z <= pd,
            vox.wf(),
            vox.sx() == maze.pw() + 2,
            vox.sy() == maze.ph() + 2,
            vox.sz() == maze.pd() + 2,
            forall|a: int, b: int, c: int|
                0 <= a < vox.sx() && 0 <= b < vox.sy() && 0 <= c < vox.sz()
                    ==> #[trigger] vox.voxel(a, b, c)
                        == (1 <= a <= maze.pw() && 1 <= b <= maze.ph() && 1 <= c <= z
                            && maze.cell(a - 1, b - 1, c - 1)),
            cubes@.map_values(|cc: BoxCollider| cc@) == colliders3_upto(maze, z as int),
        decreases pd - z,
    {
        let mut y: usize = 0;
        while y < ph
            invariant
                maze.wf(),
                pw == maze.pw(),
                ph == maze.ph(),
                pd == maze.pd(),
                z < pd,
                y <= ph,
                vox.wf(),
                vox.sx() == maze.pw() + 2,
                vox.sy() == maze.ph() + 2,
                vox.sz() == maze.pd() + 2,
                forall|a: int, b: int, c: int|
                    0 <= a < vox.sx() && 0 <= b < vox.sy() && 0 <= c < vox.sz()
                        ==> #[trigger] vox.voxel(a, b, c)
                            == (1 <= a <= maze.pw()
                                && ((1 <= c <= z && 1 <= b <= maze.ph())
                                    || (c == z + 1 && 1 <= b <= y))
                                && maze.cell(a - 1, b - 1, c - 1)),
                cubes@.map_values(|cc: BoxCollider| cc@)
                    == colliders3_upto(maze, z as int)
                        + colliders3_plane(maze, z as int, y as int),
            decreases ph - y,
        {
            let mut x: usize = 0;
            while x < pw
                invariant
                    maze.wf(),
                    pw == maze.pw(),
                    ph == maze.ph(),
                    pd == maze.pd(),
                    z < pd,
                    y < ph,
                    x <= pw,
                    vox.wf(),
                    vox.sx() == maze.pw() + 2,
                    vox.sy() == maze.ph() + 2,
                    vox.sz() == maze.pd() + 2,
                    forall|a: int, b: int, c: int|
                        0 <= a < vox.sx() && 0 <= b < vox.sy() && 0 <= c < vox.sz()
                            ==> #[trigger] vox.voxel(a, b, c)
                                == (((1 <= c <= z && 1 <= b <= maze.ph())
                                    || (c == z + 1 && 1 <= b <= y)
                                    || (c == z + 1 && b == y + 1 && a <= x))
                                    && 1 <= a <= maze.pw()
                                    && maze.cell(a - 1, b - 1, c - 1)),
                    cubes@.map_values(|cc: BoxCollider| cc@)
                        == colliders3_upto(maze, z as int)
                            + colliders3_plane(maze, z as int, y as int)
                            + colliders3_row(maze, y as int, z as int, x as int),
                decreases pw - x,
            {
                let ghost cubes0 = cubes@;
                let ghost vox0 = vox;
                if maze.is_solid(x, y, z) {
                    vox.set_solid(x + 1, y + 1, z + 1);
                    cubes.push(BoxCollider { x: x + 1, y: y + 1, z: z + 1 });
                }
                proof {
                    assert(cubes@.map_values(|cc: BoxCollider| cc@)
                        == colliders3_upto(maze, z as int)
                            + colliders3_plane(maze, z as int, y as int)
                            + colliders3_row(maze, y as int, z as int, x as int + 1)) by {
                        if maze.cell(x as int, y as int, z as int) {
                            assert(cubes@ == cubes0.push(
                                BoxCollider {
                                    x: (x + 1) as usize,
                                    y: (y + 1) as usize,
                                    z: (z + 1) as usize,
                                },
                            ));
                            assert(cubes@.map_values(|cc: BoxCollider| cc@)
                                =~= cubes0.map_values(|cc: BoxCollider| cc@)
                                    + seq![(x as int + 1, y as int + 1, z as int + 1)]);
                            assert(colliders3_row(maze, y as int, z as int, x as int + 1)
                                =~= colliders3_row(maze, y as int, z as int, x as int)
                                    + seq![(x as int + 1, y as int + 1, z as int + 1)]);
                            assert(colliders3_upto(maze, z as int)
                                    + colliders3_plane(maze, z as int, y as int)
                                    + (colliders3_row(maze, y as int, z as int, x as int)
                                        + seq![(x as int + 1, y as int + 1, z as int + 1)])
                                =~= (colliders3_upto(maze, z as int)
                                    + colliders3_plane(maze, z as int, y as int)
                                    + colliders3_row(maze, y as int, z as int, x as int))
                                    + seq![(x as int + 1, y as int + 1, z as int + 1)]);
                        } else {
                            assert(colliders3_row(maze, y as int, z as int, x as int + 1)
                                == colliders3_row(maze, y as int, z as int, x as int));
                        }
                    }
                    assert forall|a: int, b: int, c: int|
                        0 <= a < vox.sx() && 0 <= b < vox.sy() && 0 <= c < vox.sz()
                        implies #[trigger] vox.voxel(a, b, c)
                            == (((1 <= c <= z && 1 <= b <= maze.ph())
                                || (c == z + 1 && 1 <= b <= y)
                                || (c == z + 1 && b == y + 1 && a <= x + 1))
                                && 1 <= a <= maze.pw()
                                && maze.cell(a - 1, b - 1, c - 1)) by {
                        if maze.cell(x as int, y as int, z as int) {
                            if !(a == x + 1 && b == y + 1 && c == z + 1) {
                                assert(vox.voxel(a, b, c) == vox0.voxel(a, b, c));
                            }
                        }
                    }
                }
                x = x + 1;
            }
            proof {
                assert(colliders3_plane(maze, z as int, y as int + 1)
                    == colliders3_plane(maze, z as int, y as int)
                        + colliders3_row(maze, y as int, z as int, maze.pw()));
                assert(colliders3_upto(maze, z as int)
                        + (colliders3_plane(maze, z as int, y as int)
                            + colliders3_row(maze, y as int, z as int, maze.pw()))
                    =~= colliders3_upto(maze, z as int)
                        + colliders3_plane(maze, z as int, y as int)
                        + colliders3_row(maze, y as int, z as int, maze.pw()));
            }
            y = y + 1;
        }
        proof {
            assert(colliders3_upto(maze, z as int + 1)
                == colliders3_upto(maze, z as int) + colliders3_plane(maze, z as int, maze.ph()));
        }
        z = z + 1;
    }
    (vox, cubes)
}

} // verus!
