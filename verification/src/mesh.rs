//! Greedy surface meshing: scans a padded voxel volume and merges adjacent
//! coplanar exposed faces into quads, one sweep per face direction, then
//! emits vertex/normal/UV/index buffers with a fixed winding per direction.
//!
//! A face is exposed when its voxel is solid and the neighbor on the
//! face's side is empty. Only the interior of the volume is scanned: the
//! one-voxel padding added by the voxelizer guarantees that boundary faces
//! of the maze close correctly while never being treated as face cells
//! themselves.

use vstd::prelude::*;
use crate::voxel::VoxelGrid;

verus! {

/// One of the six axis-aligned face directions.
#[derive(Clone, Copy, PartialEq, Eq, Structural, Debug)]
pub enum FaceDir {
    /// Face normal `(-1, 0, 0)`.
    XNeg,
    /// Face normal `(1, 0, 0)`.
    XPos,
    /// Face normal `(0, -1, 0)`.
    YNeg,
    /// Face normal `(0, 1, 0)`.
    YPos,
    /// Face normal `(0, 0, -1)`.
    ZNeg,
    /// Face normal `(0, 0, 1)`.
    ZPos,
}

impl FaceDir {
    /// Normal vector, x component.
    pub open spec fn nx(&self) -> int {
        match *self {
            FaceDir::XNeg => -1,
            FaceDir::XPos => 1,
            _ => 0,
        }
    }

    /// Normal vector, y component.
    pub open spec fn ny(&self) -> int {
        match *self {
            FaceDir::YNeg => -1,
            FaceDir::YPos => 1,
            _ => 0,
        }
    }

    /// Normal vector, z component.
    pub open spec fn nz(&self) -> int {
        match *self {
            FaceDir::ZNeg => -1,
            FaceDir::ZPos => 1,
            _ => 0,
        }
    }

    /// Whether the normal axis is x, y or z.
    pub open spec fn axis(&self) -> int {
        match *self {
            FaceDir::XNeg | FaceDir::XPos => 0,
            FaceDir::YNeg | FaceDir::YPos => 1,
            FaceDir::ZNeg | FaceDir::ZPos => 2,
        }
    }
}

/// The coordinate of a cell along the normal axis of `d`.
pub open spec fn plane_coord(d: FaceDir, x: int, y: int, z: int) -> int {
    if d.axis() == 0 {
        x
    } else if d.axis() == 1 {
        y
    } else {
        z
    }
}

/// The coordinate of a cell along the first tangent axis of `d`
/// (the first of the remaining axes in x, y, z order).
pub open spec fn u_coord(d: FaceDir, x: int, y: int, z: int) -> int {
    if d.axis() == 0 {
        y
    } else {
        x
    }
}

/// The coordinate of a cell along the second tangent axis of `d`
/// (the second of the remaining axes in x, y, z order).
pub open spec fn v_coord(d: FaceDir, x: int, y: int, z: int) -> int {
    if d.axis() == 2 {
        y
    } else {
        z
    }
}

/// The cell with plane coordinate `p` and tangent coordinates `(a, b)`,
/// as an `(x, y, z)` triple.
pub open spec fn cell_at(d: FaceDir, p: int, a: int, b: int) -> (int, int, int) {
    if d.axis() == 0 {
        (p, a, b)
    } else if d.axis() == 1 {
        (a, p, b)
    } else {
        (a, b, p)
    }
}

/// The volume's extent along the normal axis of `d`.
pub open spec fn extent_n(g: &VoxelGrid, d: FaceDir) -> int {
    if d.axis() == 0 {
        g.sx()
    } else if d.axis() == 1 {
        g.sy()
    } else {
        g.sz()
    }
}

/// The volume's extent along the first tangent axis of `d`.
pub open spec fn extent_u(g: &VoxelGrid, d: FaceDir) -> int {
    if d.axis() == 0 {
        g.sy()
    } else {
        g.sx()
    }
}

/// The volume's extent along the second tangent axis of `d`.
pub open spec fn extent_v(g: &VoxelGrid, d: FaceDir) -> int {
    if d.axis() == 2 {
        g.sy()
    } else {
        g.sz()
    }
}

/// The face of the interior voxel `(x, y, z)` toward `d` is exposed:
/// the voxel is solid and its neighbor on that side is empty.
pub open spec fn face_exposed(g: &VoxelGrid, d: FaceDir, x: int, y: int, z: int) -> bool {
    &&& 1 <= x < g.sx() - 1
    &&& 1 <= y < g.sy() - 1
    &&& 1 <= z < g.sz() - 1
    &&& g.voxel(x, y, z)
    &&& !g.voxel(x + d.nx(), y + d.ny(), z + d.nz())
}

/// `face_exposed` in the plane/tangent coordinates of `d`.
pub open spec fn exposed_uv(g: &VoxelGrid, d: FaceDir, p: int, a: int, b: int) -> bool {
    face_exposed(g, d, cell_at(d, p, a, b).0, cell_at(d, p, a, b).1, cell_at(d, p, a, b).2)
}

/// One merged rectangle of coplanar exposed faces: it spans tangent
/// coordinates `[u, u+w) x [v, v+h)` in the plane `p` along the normal
/// axis of `dir`.
#[derive(Clone, Copy, PartialEq, Eq, Structural, Debug)]
pub struct Quad {
    /// The face direction this quad belongs to.
    pub dir: FaceDir,
    /// The cell coordinate of the quad's plane along the normal axis.
    pub p: usize,
    /// Minimum cell coordinate along the first tangent axis.
    pub u: usize,
    /// Minimum cell coordinate along the second tangent axis.
    pub v: usize,
    /// Extent along the first tangent axis; at least 1.
    pub w: usize,
    /// Extent along the second tangent axis; at least 1.
    pub h: usize,
}

/// The quad's footprint covers the face cell `(x, y, z)`.
pub open spec fn quad_covers(q: Quad, x: int, y: int, z: int) -> bool {
    &&& plane_coord(q.dir, x, y, z) == q.p
    &&& q.u <= u_coord(q.dir, x, y, z) < q.u + q.w
    &&& q.v <= v_coord(q.dir, x, y, z) < q.v + q.h
}

/// The quad's rectangle lies inside the interior of the volume.
pub open spec fn quad_wf(g: &VoxelGrid, q: Quad) -> bool {
    &&& 1 <= q.p && q.p < extent_n(g, q.dir) - 1
    &&& 1 <= q.u && q.u + q.w <= extent_u(g, q.dir) - 1
    &&& 1 <= q.v && q.v + q.h <= extent_v(g, q.dir) - 1
    &&& 1 <= q.w
    &&& 1 <= q.h
}

/// Reading the plane/tangent coordinates of a cell and mapping them back
/// gives the cell.
proof fn lemma_cell_roundtrip(d: FaceDir, x: int, y: int, z: int)
    ensures
        cell_at(d, plane_coord(d, x, y, z), u_coord(d, x, y, z), v_coord(d, x, y, z))
            == (x, y, z),
{
}

/// The mask entry for tangent position `(a, b)`.
pub open spec fn mask_at(mask: Seq<bool>, su: int, a: int, b: int) -> bool {
    mask[b * su + a]
}

/// The flat mask index of an in-range tangent position is in range, and
/// distinct positions have distinct indices.
proof fn lemma_mask_index(su: int, sv: int, a1: int, b1: int, a2: int, b2: int)
    requires
        0 < su,
        0 < sv,
        0 <= a1 < su,
        0 <= b1 < sv,
        0 <= a2 < su,
        0 <= b2 < sv,
    ensures
        0 <= b1 * su + a1 < su * sv,
        !(a1 == a2 && b1 == b2) ==> b1 * su + a1 != b2 * su + a2,
{
    assert(0 <= b1 * su + a1 < su * sv) by (nonlinear_arith)
        requires su > 0 && sv > 0 && 0 <= a1 < su && 0 <= b1 < sv;
    assert(!(a1 == a2 && b1 == b2) ==> b1 * su + a1 != b2 * su + a2) by (nonlinear_arith)
        requires su > 0 && 0 <= a1 < su && 0 <= a2 < su;
}

/// Mark the rectangle `[u0, u0+w) x [v0, v0+h)` in the visited mask.
fn mark_rect(mask: &mut Vec<bool>, su: usize, sv: usize, u0: usize, v0: usize, w: usize, h: usize)
    requires
        old(mask)@.len() == su * sv,
        su * sv <= usize::MAX,
        u0 + w <= su,
        v0 + h <= sv,
        1 <= su,
        1 <= sv,
    ensures
        final(mask)@.len() == su * sv,
        forall|a: int, b: int|
            0 <= a < su && 0 <= b < sv
                ==> #[trigger] mask_at(final(mask)@, su as int, a, b)
                    == (mask_at(old(mask)@, su as int, a, b)
                        || (u0 <= a < u0 + w && v0 <= b < v0 + h)),
{
    let mut dv: usize = 0;
    while dv < h
        invariant
            mask@.len() == su * sv,
            su * sv <= usize::MAX,
            u0 + w <= su,
            v0 + h <= sv,
            1 <= su,
            1 <= sv,
            dv <= h,
            forall|a: int, b: int|
                0 <= a < su && 0 <= b < sv
                    ==> #[trigger] mask_at(mask@, su as int, a, b)
                        == (mask_at(old(mask)@, su as int, a, b)
                            || (u0 <= a < u0 + w && v0 <= b < v0 + dv)),
        decreases h - dv,
    {
        let mut du: usize = 0;
        while du < w
            invariant
                mask@.len() == su * sv,
                su * sv <= usize::MAX,
                u0 + w <= su,
                v0 + h <= sv,
                1 <= su,
                1 <= sv,
                dv < h,
                du <= w,
                forall|a: int, b: int|
                    0 <= a < su && 0 <= b < sv
                        ==> #[trigger] mask_at(mask@, su as int, a, b)
                            == (mask_at(old(mask)@, su as int, a, b)
                                || (u0 <= a < u0 + w && v0 <= b < v0 + dv)
                                || (b == v0 + dv && u0 <= a < u0 + du)),
            decreases w - du,
        {
            proof {
                lemma_mask_index(
                    su as int, sv as int,
                    u0 + du, v0 + dv,
                    0, 0,
                );
            }
            let ghost before = mask@;
            let idx = (v0 + dv) * su + (u0 + du);
            mask[idx] = true;
            proof {
                assert forall|a: int, b: int| 0 <= a < su && 0 <= b < sv
                    implies #[trigger] mask_at(mask@, su as int, a, b)
                        == (mask_at(old(mask)@, su as int, a, b)
                            || (u0 <= a < u0 + w && v0 <= b < v0 + dv)
                            || (b == v0 + dv && u0 <= a < u0 + du + 1)) by {
                    lemma_mask_index(su as int, sv as int, a, b, u0 + du, v0 + dv);
                    if !(a == u0 + du && b == v0 + dv) {
                        assert(mask_at(mask@, su as int, a, b)
                            == mask_at(before, su as int, a, b));
                    }
                }
            }
            du = du + 1;
        }
        dv = dv + 1;
    }
}

/// The quad covers tangent position `(a, b)` of its own plane.
pub open spec fn covers_uv(q: Quad, a: int, b: int) -> bool {
    q.u <= a < q.u + q.w && q.v <= b < q.v + q.h
}

/// Quad `n` of the list is greedily maximal sideways: the face cells just
/// left and right of its first row cannot be merged into it, because each
/// is out of the interior, not exposed, or already merged into an earlier
/// quad of the same direction and plane.
pub open spec fn quad_run_maximal(g: &VoxelGrid, qs: Seq<Quad>, n: int) -> bool {
    let q = qs[n];
    &&& (q.u == 1 || !exposed_uv(g, q.dir, q.p as int, q.u - 1, q.v as int) || exists|m: int|
        0 <= m < n && (#[trigger] qs[m]).dir == q.dir && qs[m].p == q.p
            && covers_uv(qs[m], q.u - 1, q.v as int))
    &&& (q.u + q.w == extent_u(g, q.dir) - 1
        || !exposed_uv(g, q.dir, q.p as int, q.u + q.w, q.v as int) || exists|m: int|
        0 <= m < n && (#[trigger] qs[m]).dir == q.dir && qs[m].p == q.p
            && covers_uv(qs[m], q.u + q.w, q.v as int))
}

/// Some quad before `n`, of the same direction and plane, already covers
/// the tangent position `(a, b)`.
pub open spec fn covered_before(qs: Seq<Quad>, n: int, a: int, b: int) -> bool {
    exists|m: int|
        0 <= m < n && (#[trigger] qs[m]).dir == qs[n].dir && qs[m].p == qs[n].p
            && covers_uv(qs[m], a, b)
}

/// Column `t` of the row just below quad `n` blocks downward growth:
/// the face cell there is not exposed, or an earlier quad of the same
/// direction and plane already merged it.
pub open spec fn row_below_blocked(g: &VoxelGrid, qs: Seq<Quad>, n: int, t: int) -> bool {
    qs[n].u <= t < qs[n].u + qs[n].w
        && (!exposed_uv(g, qs[n].dir, qs[n].p as int, t, qs[n].v + qs[n].h)
            || covered_before(qs, n, t, qs[n].v + qs[n].h))
}

/// Quad `n` of the list is greedily maximal in the second tangent
/// direction: the face cell just above its minimum corner cannot be merged
/// into it, and in the row just below it some cell cannot: each such cell
/// is out of the interior, not exposed, or already merged into an earlier
/// quad of the same direction and plane.
pub open spec fn quad_column_maximal(g: &VoxelGrid, qs: Seq<Quad>, n: int) -> bool {
    let q = qs[n];
    &&& (q.v == 1 || !exposed_uv(g, q.dir, q.p as int, q.u as int, q.v - 1)
        || covered_before(qs, n, q.u as int, q.v - 1))
    &&& (q.v + q.h == extent_v(g, q.dir) - 1 || exists|t: int|
        #[trigger] row_below_blocked(g, qs, n, t))
}

/// Maximality of a quad carries over to any list that embeds its segment
/// at an offset, keeping everything up to the quad in place.
proof fn lemma_column_maximal_embed(
    g: &VoxelGrid,
    seg: Seq<Quad>,
    all: Seq<Quad>,
    off: int,
    n: int,
)
    requires
        0 <= n < seg.len(),
        0 <= off,
        off + seg.len() <= all.len(),
        forall|m: int| 0 <= m <= n ==> #[trigger] all[off + m] == seg[m],
        quad_column_maximal(g, seg, n),
    ensures
        quad_column_maximal(g, all, off + n),
{
    let q = seg[n];
    assert(all[off + n] == q);
    if q.v != 1 && exposed_uv(g, q.dir, q.p as int, q.u as int, q.v - 1) {
        let m = choose|m: int|
            0 <= m < n && (#[trigger] seg[m]).dir == seg[n].dir && seg[m].p == seg[n].p
                && covers_uv(seg[m], q.u as int, q.v - 1);
        assert(all[off + m] == seg[m]);
        assert(0 <= off + m < off + n && all[off + m].dir == all[off + n].dir
            && all[off + m].p == all[off + n].p && covers_uv(all[off + m], q.u as int, q.v - 1));
        assert(covered_before(all, off + n, q.u as int, q.v - 1));
    }
    if q.v + q.h != extent_v(g, q.dir) - 1 {
        let t = choose|t: int| #[trigger] row_below_blocked(g, seg, n, t);
        assert(row_below_blocked(g, seg, n, t));
        if exposed_uv(g, q.dir, q.p as int, t, q.v + q.h) {
            let m = choose|m: int|
                0 <= m < n && (#[trigger] seg[m]).dir == seg[n].dir && seg[m].p == seg[n].p
                    && covers_uv(seg[m], t, q.v + q.h);
            assert(all[off + m] == seg[m]);
            assert(0 <= off + m < off + n && all[off + m].dir == all[off + n].dir
                && all[off + m].p == all[off + n].p && covers_uv(all[off + m], t, q.v + q.h));
            assert(covered_before(all, off + n, t, q.v + q.h));
        }
        assert(row_below_blocked(g, all, off + n, t));
    }
}

/// The same embedding argument for sideways maximality.
proof fn lemma_run_maximal_embed(
    g: &VoxelGrid,
    seg: Seq<Quad>,
    all: Seq<Quad>,
    off: int,
    n: int,
)
    requires
        0 <= n < seg.len(),
        0 <= off,
        off + seg.len() <= all.len(),
        forall|m: int| 0 <= m <= n ==> #[trigger] all[off + m] == seg[m],
        quad_run_maximal(g, seg, n),
    ensures
        quad_run_maximal(g, all, off + n),
{
    let q = seg[n];
    assert(all[off + n] == q);
    if q.u != 1 && exposed_uv(g, q.dir, q.p as int, q.u - 1, q.v as int) {
        let m = choose|m: int|
            0 <= m < n && (#[trigger] seg[m]).dir == q.dir && seg[m].p == q.p
                && covers_uv(seg[m], q.u - 1, q.v as int);
        assert(all[off + m] == seg[m]);
        assert(0 <= off + m < off + n && all[off + m].dir == q.dir && all[off + m].p == q.p
            && covers_uv(all[off + m], q.u - 1, q.v as int));
    }
    if q.u + q.w != extent_u(g, q.dir) - 1
        && exposed_uv(g, q.dir, q.p as int, q.u + q.w, q.v as int) {
        let m = choose|m: int|
            0 <= m < n && (#[trigger] seg[m]).dir == q.dir && seg[m].p == q.p
                && covers_uv(seg[m], q.u + q.w, q.v as int);
        assert(all[off + m] == seg[m]);
        assert(0 <= off + m < off + n && all[off + m].dir == q.dir && all[off + m].p == q.p
            && covers_uv(all[off + m], q.u + q.w, q.v as int));
    }
}

/// The volume's extent along the normal axis of `d`.
fn extent_n_exec(g: &VoxelGrid, d: FaceDir) -> (r: usize)
    ensures
        r as int == extent_n(g, d),
{
    match d {
        FaceDir::XNeg | FaceDir::XPos => g.shape_x(),
        FaceDir::YNeg | FaceDir::YPos => g.shape_y(),
        FaceDir::ZNeg | FaceDir::ZPos => g.shape_z(),
    }
}

/// The volume's extent along the first tangent axis of `d`.
fn extent_u_exec(g: &VoxelGrid, d: FaceDir) -> (r: usize)
    ensures
        r as int == extent_u(g, d),
{
    match d {
        FaceDir::XNeg | FaceDir::XPos => g.shape_y(),
        _ => g.shape_x(),
    }
}

/// The volume's extent along the second tangent axis of `d`.
fn extent_v_exec(g: &VoxelGrid, d: FaceDir) -> (r: usize)
    ensures
        r as int == extent_v(g, d),
{
    match d {
        FaceDir::ZNeg | FaceDir::ZPos => g.shape_y(),
        _ => g.shape_z(),
    }
}

/// Whether the face at plane `p`, tangent position `(a, b)` is exposed
/// toward `d`.
fn exposed_exec(g: &VoxelGrid, d: FaceDir, p: usize, a: usize, b: usize) -> (r: bool)
    requires
        g.wf(),
    ensures
        r == exposed_uv(g, d, p as int, a as int, b as int),
{
    proof {
        g.lemma_wf_bounds();
    }
    let (x, y, z) = match d {
        FaceDir::XNeg | FaceDir::XPos => (p, a, b),
        FaceDir::YNeg | FaceDir::YPos => (a, p, b),
        FaceDir::ZNeg | FaceDir::ZPos => (a, b, p),
    };
    let sx = g.shape_x();
    let sy = g.shape_y();
    let sz = g.shape_z();
    if x < 1 || y < 1 || z < 1 || x >= sx - 1 || y >= sy - 1 || z >= sz - 1 {
        return false;
    }
    if !g.get(x, y, z) {
        return false;
    }
    match d {
        FaceDir::XNeg => !g.get(x - 1, y, z),
        FaceDir::XPos => !g.get(x + 1, y, z),
        FaceDir::YNeg => !g.get(x, y - 1, z),
        FaceDir::YPos => !g.get(x, y + 1, z),
        FaceDir::ZNeg => !g.get(x, y, z - 1),
        FaceDir::ZPos => !g.get(x, y, z + 1),
    }
}

/// Merge the exposed faces toward `d` in the plane `p` into quads, greedily:
/// scan in tangent order, grow each new quad as wide as the exposed run
/// allows, then as tall as full rows allow, and mark what was merged. The
/// appended quads tile the plane's exposed faces exactly: they cover only
/// exposed faces, cover every exposed face of this plane, and no face twice.
#[verifier::loop_isolation(false)]
#[verifier::rlimit(100)]
fn mesh_plane(g: &VoxelGrid, d: FaceDir, p: usize, quads: &mut Vec<Quad>)
    requires
        g.wf(),
        1 <= p,
        p + 1 < extent_n(g, d),
    ensures
        final(quads)@.len() >= old(quads)@.len(),
        final(quads)@.subrange(0, old(quads)@.len() as int) == old(quads)@,
        forall|n: int|
            old(quads)@.len() <= n < final(quads)@.len()
                ==> (#[trigger] final(quads)@[n]).dir == d && final(quads)@[n].p == p
                    && quad_wf(g, final(quads)@[n]),
        forall|n: int, a: int, b: int|
            old(quads)@.len() <= n < final(quads)@.len() && #[trigger] covers_uv(final(quads)@[n], a, b)
                ==> exposed_uv(g, d, p as int, a, b),
        forall|n1: int, n2: int, a: int, b: int|
            #![trigger covers_uv(final(quads)@[n1], a, b), covers_uv(final(quads)@[n2], a, b)]
            old(quads)@.len() <= n1 < n2 < final(quads)@.len() && covers_uv(final(quads)@[n1], a, b)
                ==> !covers_uv(final(quads)@[n2], a, b),
        forall|a: int, b: int|
            #[trigger] exposed_uv(g, d, p as int, a, b)
                ==> exists|n: int|
                    old(quads)@.len() <= n < final(quads)@.len()
                        && covers_uv(#[trigger] final(quads)@[n], a, b),
        forall|n: int|
            old(quads)@.len() <= n < final(quads)@.len()
                ==> #[trigger] quad_run_maximal(g, final(quads)@, n),
        forall|n: int|
            old(quads)@.len() <= n < final(quads)@.len()
                ==> #[trigger] quad_column_maximal(g, final(quads)@, n),
        forall|n1: int, n2: int|
            old(quads)@.len() <= n1 < n2 < final(quads)@.len()
                ==> (#[trigger] final(quads)@[n1]).v < (#[trigger] final(quads)@[n2]).v
                    || (final(quads)@[n1].v == final(quads)@[n2].v
                        && final(quads)@[n1].u < final(quads)@[n2].u),
{
    let ghost base = old(quads)@.len() as int;
    proof {
        g.lemma_wf_bounds();
    }
    let su_: usize = extent_u_exec(g, d);
    let sv_: usize = extent_v_exec(g, d);
    proof {
        assert(extent_u(g, d) * extent_v(g, d) <= usize::MAX) by (nonlinear_arith)
            requires
                g.sx() * g.sy() * g.sz() <= usize::MAX,
                g.sx() >= 1,
                g.sy() >= 1,
                g.sz() >= 1,
                (extent_u(g, d) == g.sx() || extent_u(g, d) == g.sy()),
                (extent_v(g, d) == g.sy() || extent_v(g, d) == g.sz()),
                extent_u(g, d) * extent_v(g, d) == g.sx() * g.sy()
                    || extent_u(g, d) * extent_v(g, d) == g.sy() * g.sz()
                    || extent_u(g, d) * extent_v(g, d) == g.sx() * g.sz();
    }
    let nmask = su_ * sv_;
    let mut visited: Vec<bool> = Vec::new();
    let mut t0: usize = 0;
    while t0 < nmask
        invariant
            t0 <= nmask,
            visited@.len() == t0,
            forall|q: int| 0 <= q < t0 ==> !visited@[q],
        decreases nmask - t0,
    {
        visited.push(false);
        t0 = t0 + 1;
    }
    proof {
        assert forall|a: int, b: int| 0 <= a < su_ && 0 <= b < sv_
            implies !#[trigger] mask_at(visited@, su_ as int, a, b) by {
            lemma_mask_index(su_ as int, sv_ as int, a, b, 0, 0);
        }
    }
    let mut vv: usize = 1;
    while vv < sv_ - 1
        invariant
            1 <= vv <= sv_,
            visited@.len() == su_ * sv_,
            quads@.len() >= base,
            quads@.subrange(0, base) == old(quads)@,
            forall|n: int|
                base <= n < quads@.len()
                    ==> (#[trigger] quads@[n]).dir == d && quads@[n].p == p
                        && quad_wf(g, quads@[n]),
            forall|n: int, a: int, b: int|
                base <= n < quads@.len() && #[trigger] covers_uv(quads@[n], a, b)
                    ==> exposed_uv(g, d, p as int, a, b),
            forall|n1: int, n2: int, a: int, b: int|
                #![trigger covers_uv(quads@[n1], a, b), covers_uv(quads@[n2], a, b)]
                base <= n1 < n2 < quads@.len() && covers_uv(quads@[n1], a, b)
                    ==> !covers_uv(quads@[n2], a, b),
            forall|a: int, b: int|
                0 <= a < su_ && 0 <= b < sv_
                    ==> (#[trigger] mask_at(visited@, su_ as int, a, b) <==> exists|n: int|
                        base <= n < quads@.len() && covers_uv(#[trigger] quads@[n], a, b)),
            forall|a: int, b: int|
                #[trigger] exposed_uv(g, d, p as int, a, b) && b < vv
                    ==> mask_at(visited@, su_ as int, a, b),
            forall|n: int|
                base <= n < quads@.len() ==> #[trigger] quad_run_maximal(g, quads@, n),
            forall|n: int|
                base <= n < quads@.len() ==> #[trigger] quad_column_maximal(g, quads@, n),
            forall|n: int| base <= n < quads@.len() ==> (#[trigger] quads@[n]).v < vv,
            forall|n1: int, n2: int|
                base <= n1 < n2 < quads@.len()
                    ==> (#[trigger] quads@[n1]).v < (#[trigger] quads@[n2]).v
                        || (quads@[n1].v == quads@[n2].v && quads@[n1].u < quads@[n2].u),
        decreases sv_ - vv,
    {
        let mut uu: usize = 1;
        while uu < su_ - 1
            invariant
                1 <= uu <= su_,
                1 <= vv < sv_,
                visited@.len() == su_ * sv_,
                quads@.len() >= base,
                quads@.subrange(0, base) == old(quads)@,
                forall|n: int|
                    base <= n < quads@.len()
                        ==> (#[trigger] quads@[n]).dir == d && quads@[n].p == p
                            && quad_wf(g, quads@[n]),
                forall|n: int, a: int, b: int|
                    base <= n < quads@.len() && #[trigger] covers_uv(quads@[n], a, b)
                        ==> exposed_uv(g, d, p as int, a, b),
                forall|n1: int, n2: int, a: int, b: int|
                    #![trigger covers_uv(quads@[n1], a, b), covers_uv(quads@[n2], a, b)]
                    base <= n1 < n2 < quads@.len() && covers_uv(quads@[n1], a, b)
                        ==> !covers_uv(quads@[n2], a, b),
                forall|a: int, b: int|
                    0 <= a < su_ && 0 <= b < sv_
                        ==> (#[trigger] mask_at(visited@, su_ as int, a, b) <==> exists|n: int|
                            base <= n < quads@.len() && covers_uv(#[trigger] quads@[n], a, b)),
                forall|a: int, b: int|
                    #[trigger] exposed_uv(g, d, p as int, a, b)
                        && (b < vv || (b == vv && a < uu))
                        ==> mask_at(visited@, su_ as int, a, b),
                forall|n: int|
                    base <= n < quads@.len() ==> #[trigger] quad_run_maximal(g, quads@, n),
                forall|n: int|
                    base <= n < quads@.len() ==> #[trigger] quad_column_maximal(g, quads@, n),
                forall|n: int|
                    base <= n < quads@.len()
                        ==> (#[trigger] quads@[n]).v < vv
                            || (quads@[n].v == vv && quads@[n].u < uu),
                forall|n1: int, n2: int|
                    base <= n1 < n2 < quads@.len()
                        ==> (#[trigger] quads@[n1]).v < (#[trigger] quads@[n2]).v
                            || (quads@[n1].v == quads@[n2].v && quads@[n1].u < quads@[n2].u),
            decreases su_ - uu,
        {
            proof {
                lemma_mask_index(su_ as int, sv_ as int, uu as int, vv as int, 0, 0);
            }
            let vis = visited[vv * su_ + uu];
            let exp = exposed_exec(g, d, p, uu, vv);
            if !vis && exp {
                // grow the quad as wide as the exposed, unmerged run allows
                let mut w: usize = 1;
                let mut grow = true;
                while grow
                    invariant
                        1 <= w,
                        uu + w <= su_ - 1,
                        forall|t: int|
                            uu <= t < uu + w
                                ==> #[trigger] exposed_uv(g, d, p as int, t, vv as int)
                                    && !mask_at(visited@, su_ as int, t, vv as int),
                        !grow ==> (uu + w == su_ - 1
                            || mask_at(visited@, su_ as int, uu + w, vv as int)
                            || !exposed_uv(g, d, p as int, uu + w, vv as int)),
                    decreases su_ - 1 - uu - w, (if grow { 1int } else { 0int }),
                {
                    if uu + w >= su_ - 1 {
                        grow = false;
                    } else {
                        proof {
                            lemma_mask_index(su_ as int, sv_ as int, uu + w, vv as int, 0, 0);
                        }
                        if visited[vv * su_ + (uu + w)] {
                            grow = false;
                        } else if !exposed_exec(g, d, p, uu + w, vv) {
                            grow = false;
                        } else {
                            w = w + 1;
                        }
                    }
                }
                // grow the quad down as long as whole rows stay exposed
                // and unmerged
                let mut h: usize = 1;
                let mut growh = true;
                let ghost mut hblock: int = 0;
                while growh
                    invariant
                        1 <= h,
                        vv + h <= sv_ - 1,
                        forall|t: int, s: int|
                            uu <= t < uu + w && vv <= s < vv + h
                                ==> #[trigger] exposed_uv(g, d, p as int, t, s)
                                    && !mask_at(visited@, su_ as int, t, s),
                        !growh ==> (vv + h == sv_ - 1
                            || (uu <= hblock < uu + w
                                && (!exposed_uv(g, d, p as int, hblock, vv + h)
                                    || mask_at(visited@, su_ as int, hblock, vv + h)))),
                    decreases sv_ - 1 - vv - h, (if growh { 1int } else { 0int }),
                {
                    if vv + h >= sv_ - 1 {
                        growh = false;
                    } else {
                        let mut t: usize = 0;
                        let mut ok = true;
                        while t < w
                            invariant
                                t <= w,
                                vv + h < sv_ - 1,
                                ok ==> forall|s: int|
                                    uu <= s < uu + t
                                        ==> #[trigger] exposed_uv(g, d, p as int, s, vv + h)
                                            && !mask_at(visited@, su_ as int, s, vv + h),
                                !ok ==> (uu <= hblock < uu + w
                                    && (!exposed_uv(g, d, p as int, hblock, vv + h)
                                        || mask_at(visited@, su_ as int, hblock, vv + h))),
                            decreases w - t,
                        {
                            proof {
                                lemma_mask_index(su_ as int, sv_ as int, uu + t, vv + h, 0, 0);
                            }
                            if visited[(vv + h) * su_ + (uu + t)]
                                || !exposed_exec(g, d, p, uu + t, vv + h) {
                                proof {
                                    hblock = uu + t;
                                }
                                ok = false;
                            }
                            t = t + 1;
                        }
                        if !ok {
                            growh = false;
                        } else {
                            h = h + 1;
                        }
                    }
                }
                let ghost vis_before = visited@;
                let ghost quads_before = quads@;
                mark_rect(&mut visited, su_, sv_, uu, vv, w, h);
                let q = Quad { dir: d, p, u: uu, v: vv, w, h };
                quads.push(q);
                proof {
                    let sui = su_ as int;
                    assert(quads@ == quads_before.push(q));
                    assert(quads@.subrange(0, base) =~= old(quads)@);
                    let last = quads@.len() - 1;
                    // the mask now holds exactly the merged footprints
                    assert forall|a: int, b: int| 0 <= a < su_ && 0 <= b < sv_
                        implies (#[trigger] mask_at(visited@, sui, a, b) <==> exists|n: int|
                            base <= n < quads@.len() && covers_uv(#[trigger] quads@[n], a, b)) by {
                        if mask_at(visited@, sui, a, b) {
                            if mask_at(vis_before, sui, a, b) {
                                let n = choose|n: int|
                                    base <= n < quads_before.len()
                                        && covers_uv(quads_before[n], a, b);
                                assert(quads@[n] == quads_before[n]);
                                assert(covers_uv(quads@[n], a, b));
                            } else {
                                assert(covers_uv(quads@[last], a, b));
                            }
                        }
                        if exists|n: int|
                            base <= n < quads@.len() && covers_uv(#[trigger] quads@[n], a, b) {
                            let n = choose|n: int|
                                base <= n < quads@.len() && covers_uv(#[trigger] quads@[n], a, b);
                            if n < last {
                                assert(quads@[n] == quads_before[n]);
                                assert(mask_at(vis_before, sui, a, b));
                            }
                        }
                    }
                    // the new quad's footprint was unmerged, so it overlaps
                    // no earlier quad
                    assert forall|n1: int, a: int, b: int|
                        base <= n1 < last && #[trigger] covers_uv(quads@[n1], a, b)
                        implies !covers_uv(quads@[last], a, b) by {
                        if covers_uv(quads@[last], a, b) {
                            assert(quads@[n1] == quads_before[n1]);
                            assert(mask_at(vis_before, sui, a, b));
                        }
                    }
                    assert forall|n1: int, n2: int, a: int, b: int|
                        #![trigger covers_uv(quads@[n1], a, b), covers_uv(quads@[n2], a, b)]
                        base <= n1 < n2 < quads@.len() && covers_uv(quads@[n1], a, b)
                        implies !covers_uv(quads@[n2], a, b) by {
                        if n2 < last {
                            assert(quads@[n1] == quads_before[n1]);
                            assert(quads@[n2] == quads_before[n2]);
                            assert(covers_uv(quads_before[n1], a, b));
                        }
                    }
                    // the new quad's row cannot extend sideways, and the
                    // old quads keep their witnesses
                    assert forall|n: int| base <= n < quads@.len()
                        implies #[trigger] quad_run_maximal(g, quads@, n) by {
                        if n < last {
                            assert(quad_run_maximal(g, quads_before, n));
                            let qo = quads_before[n];
                            assert(quads@[n] == qo);
                            if qo.u != 1 && exposed_uv(g, qo.dir, qo.p as int, qo.u - 1, qo.v as int) {
                                let m = choose|m: int|
                                    0 <= m < n && (#[trigger] quads_before[m]).dir == qo.dir
                                        && quads_before[m].p == qo.p
                                        && covers_uv(quads_before[m], qo.u - 1, qo.v as int);
                                assert(quads@[m] == quads_before[m]);
                            }
                            if qo.u + qo.w != extent_u(g, qo.dir) - 1
                                && exposed_uv(g, qo.dir, qo.p as int, qo.u + qo.w, qo.v as int) {
                                let m = choose|m: int|
                                    0 <= m < n && (#[trigger] quads_before[m]).dir == qo.dir
                                        && quads_before[m].p == qo.p
                                        && covers_uv(quads_before[m], qo.u + qo.w, qo.v as int);
                                assert(quads@[m] == quads_before[m]);
                            }
                        } else {
                            if uu > 1 && exposed_uv(g, d, p as int, uu - 1, vv as int) {
                                assert(mask_at(vis_before, sui, uu - 1, vv as int));
                                let m = choose|m: int|
                                    base <= m < quads_before.len()
                                        && covers_uv(#[trigger] quads_before[m], uu - 1, vv as int);
                                assert(quads@[m] == quads_before[m]);
                                assert(covers_uv(quads@[m], q.u - 1, q.v as int));
                            }
                            if uu + w != su_ - 1
                                && exposed_uv(g, d, p as int, uu + w, vv as int) {
                                assert(mask_at(vis_before, sui, uu + w, vv as int));
                                let m = choose|m: int|
                                    base <= m < quads_before.len()
                                        && covers_uv(#[trigger] quads_before[m], uu + w, vv as int);
                                assert(quads@[m] == quads_before[m]);
                                assert(covers_uv(quads@[m], q.u + q.w, q.v as int));
                            }
                        }
                    }
                    // the new quad sits later in scan order than all
                    // appended before it
                    assert forall|n: int| base <= n < quads@.len()
                        implies (#[trigger] quads@[n]).v < vv
                            || (quads@[n].v == vv && quads@[n].u < uu + 1) by {
                        if n < last {
                            assert(quads@[n] == quads_before[n]);
                        }
                    }
                    assert forall|n1: int, n2: int| base <= n1 < n2 < quads@.len()
                        implies (#[trigger] quads@[n1]).v < (#[trigger] quads@[n2]).v
                            || (quads@[n1].v == quads@[n2].v && quads@[n1].u < quads@[n2].u) by {
                        if n2 < last {
                            assert(quads@[n1] == quads_before[n1]);
                            assert(quads@[n2] == quads_before[n2]);
                        } else {
                            assert(quads@[n1] == quads_before[n1]);
                            assert(quads_before[n1].v < vv
                                || (quads_before[n1].v == vv && quads_before[n1].u < uu));
                        }
                    }
                    // nor can its column extend up or down
                    assert forall|n: int| base <= n < quads@.len()
                        implies #[trigger] quad_column_maximal(g, quads@, n) by {
                        if n < last {
                            assert(quad_column_maximal(g, quads_before, n));
                            assert forall|m2: int| 0 <= m2 <= n
                                implies #[trigger] quads@[0 + m2] == quads_before[m2] by {}
                            lemma_column_maximal_embed(g, quads_before, quads@, 0, n);
                            assert(quad_column_maximal(g, quads@, 0 + n));
                        } else {
                            assert(n == last);
                            assert(quads@[last] == q);
                            // top: the cell above the corner was scanned
                            // earlier, so if exposed it is already merged
                            if vv > 1 && exposed_uv(g, d, p as int, uu as int, vv - 1) {
                                assert(mask_at(vis_before, sui, uu as int, vv - 1));
                                let m = choose|m: int|
                                    base <= m < quads_before.len()
                                        && covers_uv(#[trigger] quads_before[m], uu as int, vv - 1);
                                assert(quads@[m] == quads_before[m]);
                                assert(0 <= m < last && quads@[m].dir == quads@[last].dir
                                    && quads@[m].p == quads@[last].p
                                    && covers_uv(quads@[m], uu as int, vv - 1));
                                assert(covered_before(quads@, last, uu as int, vv - 1));
                            }
                            // bottom: the height growth stopped at the
                            // boundary or at a blocked cell of the next row
                            if vv + h != sv_ - 1 {
                                if mask_at(vis_before, sui, hblock, vv + h) {
                                    let m = choose|m: int|
                                        base <= m < quads_before.len()
                                            && covers_uv(
                                            #[trigger] quads_before[m],
                                            hblock,
                                            vv + h,
                                        );
                                    assert(quads@[m] == quads_before[m]);
                                    assert(0 <= m < last && quads@[m].dir == quads@[last].dir
                                        && quads@[m].p == quads@[last].p
                                        && covers_uv(quads@[m], hblock, vv + h));
                                    assert(covered_before(quads@, last, hblock, vv + h));
                                }
                                assert(uu <= hblock < uu + w
                                    && (!exposed_uv(g, d, p as int, hblock, vv + h)
                                        || covered_before(quads@, last, hblock, vv + h)));
                                assert(row_below_blocked(g, quads@, last, hblock));
                            }
                            assert(quad_column_maximal(g, quads@, last));
                        }
                    }
                }
            }
            uu = uu + 1;
        }
        vv = vv + 1;
    }
    proof {
        assert forall|a: int, b: int| #[trigger] exposed_uv(g, d, p as int, a, b)
            implies mask_at(visited@, su_ as int, a, b) by {
            assert(1 <= b < sv_ - 1);
        }
    }
}

/// The fixed output order of the six face directions.
pub open spec fn dir_rank(d: FaceDir) -> int {
    match d {
        FaceDir::XNeg => 0,
        FaceDir::YNeg => 1,
        FaceDir::ZNeg => 2,
        FaceDir::XPos => 3,
        FaceDir::YPos => 4,
        FaceDir::ZPos => 5,
    }
}

/// Merge all exposed faces toward `d` into quads, sweeping the planes
/// along the normal axis in ascending order. The appended quads cover the
/// exposed faces toward `d` exactly once each, and nothing else.
#[verifier::loop_isolation(false)]
#[verifier::rlimit(100)]
fn mesh_direction(g: &VoxelGrid, d: FaceDir, quads: &mut Vec<Quad>)
    requires
        g.wf(),
    ensures
        final(quads)@.len() >= old(quads)@.len(),
        final(quads)@.subrange(0, old(quads)@.len() as int) == old(quads)@,
        forall|n: int|
            old(quads)@.len() <= n < final(quads)@.len()
                ==> (#[trigger] final(quads)@[n]).dir == d && quad_wf(g, final(quads)@[n]),
        forall|n: int, x: int, y: int, z: int|
            old(quads)@.len() <= n < final(quads)@.len()
                && #[trigger] quad_covers(final(quads)@[n], x, y, z)
                ==> face_exposed(g, d, x, y, z),
        forall|n1: int, n2: int, x: int, y: int, z: int|
            #![trigger quad_covers(final(quads)@[n1], x, y, z), quad_covers(final(quads)@[n2], x, y, z)]
            old(quads)@.len() <= n1 < n2 < final(quads)@.len()
                && quad_covers(final(quads)@[n1], x, y, z)
                ==> !quad_covers(final(quads)@[n2], x, y, z),
        forall|x: int, y: int, z: int|
            #[trigger] face_exposed(g, d, x, y, z)
                ==> exists|n: int|
                    old(quads)@.len() <= n < final(quads)@.len()
                        && quad_covers(#[trigger] final(quads)@[n], x, y, z),
        forall|n: int|
            old(quads)@.len() <= n < final(quads)@.len()
                ==> #[trigger] quad_run_maximal(g, final(quads)@, n),
        forall|n: int|
            old(quads)@.len() <= n < final(quads)@.len()
                ==> #[trigger] quad_column_maximal(g, final(quads)@, n),
        forall|n1: int, n2: int|
            old(quads)@.len() <= n1 < n2 < final(quads)@.len()
                ==> (#[trigger] final(quads)@[n1]).p < (#[trigger] final(quads)@[n2]).p
                    || (final(quads)@[n1].p == final(quads)@[n2].p
                        && (final(quads)@[n1].v < final(quads)@[n2].v
                            || (final(quads)@[n1].v == final(quads)@[n2].v
                                && final(quads)@[n1].u < final(quads)@[n2].u))),
{
    let ghost base = old(quads)@.len() as int;
    proof {
        g.lemma_wf_bounds();
    }
    let sn_: usize = extent_n_exec(g, d);
    let mut p: usize = 1;
    while p < sn_ - 1
        invariant
            1 <= p <= sn_,
            quads@.len() >= base,
            quads@.subrange(0, base) == old(quads)@,
            forall|n: int|
                base <= n < quads@.len()
                    ==> (#[trigger] quads@[n]).dir == d && quads@[n].p < p
                        && quad_wf(g, quads@[n]),
            forall|n: int, x: int, y: int, z: int|
                base <= n < quads@.len() && #[trigger] quad_covers(quads@[n], x, y, z)
                    ==> face_exposed(g, d, x, y, z),
            forall|n1: int, n2: int, x: int, y: int, z: int|
                #![trigger quad_covers(quads@[n1], x, y, z), quad_covers(quads@[n2], x, y, z)]
                base <= n1 < n2 < quads@.len() && quad_covers(quads@[n1], x, y, z)
                    ==> !quad_covers(quads@[n2], x, y, z),
            forall|x: int, y: int, z: int|
                #[trigger] face_exposed(g, d, x, y, z) && plane_coord(d, x, y, z) < p
                    ==> exists|n: int|
                        base <= n < quads@.len()
                            && quad_covers(#[trigger] quads@[n], x, y, z),
            forall|n: int|
                base <= n < quads@.len() ==> #[trigger] quad_run_maximal(g, quads@, n),
            forall|n: int|
                base <= n < quads@.len() ==> #[trigger] quad_column_maximal(g, quads@, n),
            forall|n1: int, n2: int|
                base <= n1 < n2 < quads@.len()
                    ==> (#[trigger] quads@[n1]).p < (#[trigger] quads@[n2]).p
                        || (quads@[n1].p == quads@[n2].p
                            && (quads@[n1].v < quads@[n2].v
                                || (quads@[n1].v == quads@[n2].v
                                    && quads@[n1].u < quads@[n2].u))),
        decreases sn_ - p,
    {
        let ghost qpre = quads@;
        mesh_plane(g, d, p, quads);
        proof {
            let pi = p as int;
            assert forall|n: int| 0 <= n < qpre.len()
                implies quads@[n] == qpre[n] by {
                assert(quads@.subrange(0, qpre.len() as int)[n] == quads@[n]);
            }
            assert(quads@.subrange(0, base) =~= old(quads)@);
            // earlier quads are unchanged, so their invariants carry over
            assert forall|n: int| base <= n < quads@.len()
                implies (#[trigger] quads@[n]).dir == d && quads@[n].p < pi + 1
                    && quad_wf(g, quads@[n]) by {
                if n < qpre.len() {
                    assert(quads@[n] == qpre[n]);
                    assert(qpre[n].dir == d && qpre[n].p < pi && quad_wf(g, qpre[n]));
                }
            }
            // soundness of the plane's quads, in volume coordinates
            assert forall|n: int, x: int, y: int, z: int|
                base <= n < quads@.len() && #[trigger] quad_covers(quads@[n], x, y, z)
                implies face_exposed(g, d, x, y, z) by {
                if n < qpre.len() {
                    assert(quads@[n] == qpre[n]);
                    assert(quad_covers(qpre[n], x, y, z));
                } else {
                    let a = u_coord(d, x, y, z);
                    let b = v_coord(d, x, y, z);
                    assert(covers_uv(quads@[n], a, b));
                    assert(exposed_uv(g, d, pi, a, b));
                    lemma_cell_roundtrip(d, x, y, z);
                }
            }
            // disjointness: same plane by the plane's contract, across
            // planes by the plane coordinate
            assert forall|n1: int, n2: int, x: int, y: int, z: int|
                #![trigger quad_covers(quads@[n1], x, y, z), quad_covers(quads@[n2], x, y, z)]
                base <= n1 < n2 < quads@.len() && quad_covers(quads@[n1], x, y, z)
                implies !quad_covers(quads@[n2], x, y, z) by {
                if n2 < qpre.len() {
                    assert(quads@[n1] == qpre[n1]);
                    assert(quads@[n2] == qpre[n2]);
                    assert(quad_covers(qpre[n1], x, y, z));
                    assert(!quad_covers(qpre[n2], x, y, z));
                } else if n1 < qpre.len() {
                    assert(quads@[n1] == qpre[n1]);
                    assert(qpre[n1].p < pi);
                    assert(quads@[n2].p == pi);
                    assert(plane_coord(d, x, y, z) == qpre[n1].p);
                } else {
                    if quad_covers(quads@[n2], x, y, z) {
                        let a = u_coord(d, x, y, z);
                        let b = v_coord(d, x, y, z);
                        assert(covers_uv(quads@[n1], a, b));
                        assert(!covers_uv(quads@[n2], a, b));
                    }
                }
            }
            // coverage up to and including this plane
            assert forall|x: int, y: int, z: int|
                #[trigger] face_exposed(g, d, x, y, z) && plane_coord(d, x, y, z) < pi + 1
                implies exists|n: int|
                    base <= n < quads@.len() && quad_covers(#[trigger] quads@[n], x, y, z) by {
                if plane_coord(d, x, y, z) < pi {
                    let n = choose|n: int|
                        base <= n < qpre.len() && quad_covers(#[trigger] qpre[n], x, y, z);
                    assert(quads@[n] == qpre[n]);
                    assert(quad_covers(quads@[n], x, y, z));
                } else {
                    let a = u_coord(d, x, y, z);
                    let b = v_coord(d, x, y, z);
                    lemma_cell_roundtrip(d, x, y, z);
                    assert(exposed_uv(g, d, pi, a, b));
                    let n = choose|n: int|
                        qpre.len() <= n < quads@.len() && covers_uv(#[trigger] quads@[n], a, b);
                    assert(quad_covers(quads@[n], x, y, z));
                }
            }
            // the earlier quads keep their sideways-maximality witnesses
            assert forall|n: int| base <= n < quads@.len()
                implies #[trigger] quad_run_maximal(g, quads@, n) by {
                if n < qpre.len() {
                    assert(quad_run_maximal(g, qpre, n));
                    let qo = qpre[n];
                    assert(quads@[n] == qo);
                    if qo.u != 1 && exposed_uv(g, qo.dir, qo.p as int, qo.u - 1, qo.v as int) {
                        let m = choose|m: int|
                            0 <= m < n && (#[trigger] qpre[m]).dir == qo.dir
                                && qpre[m].p == qo.p && covers_uv(qpre[m], qo.u - 1, qo.v as int);
                        assert(quads@[m] == qpre[m]);
                    }
                    if qo.u + qo.w != extent_u(g, qo.dir) - 1
                        && exposed_uv(g, qo.dir, qo.p as int, qo.u + qo.w, qo.v as int) {
                        let m = choose|m: int|
                            0 <= m < n && (#[trigger] qpre[m]).dir == qo.dir
                                && qpre[m].p == qo.p
                                && covers_uv(qpre[m], qo.u + qo.w, qo.v as int);
                        assert(quads@[m] == qpre[m]);
                    }
                }
            }
            // and their column-maximality witnesses
            assert forall|n: int| base <= n < quads@.len()
                implies #[trigger] quad_column_maximal(g, quads@, n) by {
                if n < qpre.len() {
                    assert(quad_column_maximal(g, qpre, n));
                    assert forall|m2: int| 0 <= m2 <= n
                        implies #[trigger] quads@[0 + m2] == qpre[m2] by {}
                    lemma_column_maximal_embed(g, qpre, quads@, 0, n);
                    assert(quad_column_maximal(g, quads@, 0 + n));
                }
            }
            // the plane's quads extend the scan order: earlier planes come
            // first, and within this plane the scan position grows
            assert forall|n1: int, n2: int| base <= n1 < n2 < quads@.len()
                implies (#[trigger] quads@[n1]).p < (#[trigger] quads@[n2]).p
                    || (quads@[n1].p == quads@[n2].p
                        && (quads@[n1].v < quads@[n2].v
                            || (quads@[n1].v == quads@[n2].v
                                && quads@[n1].u < quads@[n2].u))) by {
                if n2 < qpre.len() {
                    assert(quads@[n1] == qpre[n1]);
                    assert(quads@[n2] == qpre[n2]);
                    assert(qpre[n1].p < qpre[n2].p
                        || (qpre[n1].p == qpre[n2].p
                            && (qpre[n1].v < qpre[n2].v
                                || (qpre[n1].v == qpre[n2].v && qpre[n1].u < qpre[n2].u))));
                } else if n1 < qpre.len() {
                    assert(quads@[n1] == qpre[n1]);
                    assert(qpre[n1].p < pi && quads@[n2].p == pi);
                }
            }
        }
        p = p + 1;
    }
    proof {
        assert forall|x: int, y: int, z: int| #[trigger] face_exposed(g, d, x, y, z)
            implies plane_coord(d, x, y, z) < p by {}
    }
}

/// Disjoint well-formed quads of one direction are no more numerous than
/// the volume's cells: each quad is pinned down by its minimum corner.
proof fn lemma_direction_quads_bound(g: &VoxelGrid, d: FaceDir, qs: Seq<Quad>)
    requires
        g.wf(),
        forall|n: int| 0 <= n < qs.len() ==> (#[trigger] qs[n]).dir == d && quad_wf(g, qs[n]),
        forall|n1: int, n2: int, x: int, y: int, z: int|
            #![trigger quad_covers(qs[n1], x, y, z), quad_covers(qs[n2], x, y, z)]
            0 <= n1 < n2 < qs.len() && quad_covers(qs[n1], x, y, z)
                ==> !quad_covers(qs[n2], x, y, z),
    ensures
        qs.len() <= g.sx() * g.sy() * g.sz(),
{
    g.lemma_wf_bounds();
    let sn = extent_n(g, d);
    let su = extent_u(g, d);
    let sv = extent_v(g, d);
    let reps = Seq::new(qs.len(), |n: int| (qs[n].p as int, qs[n].u as int, qs[n].v as int));
    assert(reps.no_duplicates()) by {
        assert forall|n1: int, n2: int| 0 <= n1 < n2 < reps.len()
            implies reps[n1] != reps[n2] by {
            if reps[n1] == reps[n2] {
                let c = cell_at(d, qs[n1].p as int, qs[n1].u as int, qs[n1].v as int);
                lemma_cell_roundtrip(d, c.0, c.1, c.2);
                assert(quad_covers(qs[n1], c.0, c.1, c.2));
                assert(quad_covers(qs[n2], c.0, c.1, c.2));
            }
        }
    }
    reps.unique_seq_to_set();
    assert(reps.to_set().subset_of(crate::maze3d::grid_triples(sn, su, sv))) by {
        assert forall|e: (int, int, int)| reps.to_set().contains(e)
            implies crate::maze3d::grid_triples(sn, su, sv).contains(e) by {
            let n = choose|n: int| 0 <= n < reps.len() && reps[n] == e;
            assert(quad_wf(g, qs[n]));
        }
    }
    crate::maze3d::lemma_grid_triples_len(sn, su, sv);
    vstd::set_lib::lemma_len_subset(reps.to_set(), crate::maze3d::grid_triples(sn, su, sv));
    assert(sn * su * sv == g.sx() * g.sy() * g.sz()) by (nonlinear_arith)
        requires
            (sn == g.sx() && su == g.sy() && sv == g.sz())
                || (sn == g.sy() && su == g.sx() && sv == g.sz())
                || (sn == g.sz() && su == g.sx() && sv == g.sy());
}

/// The quad list is an exact greedy meshing of the volume: every quad's
/// footprint holds only faces exposed toward its own direction, every
/// exposed face is covered by exactly one quad of its direction, no quad
/// can be merged further sideways or vertically, and the quads come
/// grouped by direction in the fixed output order, in scan order (plane,
/// then row, then column) within each direction.
pub open spec fn mesh_quads_ok(g: &VoxelGrid, qs: Seq<Quad>) -> bool {
    &&& forall|n: int| 0 <= n < qs.len() ==> quad_wf(g, #[trigger] qs[n])
    &&& forall|n: int, x: int, y: int, z: int|
        0 <= n < qs.len() && #[trigger] quad_covers(qs[n], x, y, z)
            ==> face_exposed(g, qs[n].dir, x, y, z)
    &&& forall|n1: int, n2: int, x: int, y: int, z: int|
        #![trigger quad_covers(qs[n1], x, y, z), quad_covers(qs[n2], x, y, z)]
        0 <= n1 < n2 < qs.len() && qs[n1].dir == qs[n2].dir && quad_covers(qs[n1], x, y, z)
            ==> !quad_covers(qs[n2], x, y, z)
    &&& forall|d: FaceDir, x: int, y: int, z: int|
        #[trigger] face_exposed(g, d, x, y, z)
            ==> exists|n: int|
                0 <= n < qs.len() && (#[trigger] qs[n]).dir == d && quad_covers(qs[n], x, y, z)
    &&& forall|n1: int, n2: int|
        0 <= n1 < n2 < qs.len()
            ==> dir_rank((#[trigger] qs[n1]).dir) <= dir_rank((#[trigger] qs[n2]).dir)
    &&& forall|n: int| 0 <= n < qs.len() ==> #[trigger] quad_run_maximal(g, qs, n)
    &&& forall|n: int| 0 <= n < qs.len() ==> #[trigger] quad_column_maximal(g, qs, n)
    &&& forall|n1: int, n2: int|
        0 <= n1 < n2 < qs.len() && (#[trigger] qs[n1]).dir == (#[trigger] qs[n2]).dir
            ==> (qs[n1].p < qs[n2].p
                || (qs[n1].p == qs[n2].p
                    && (qs[n1].v < qs[n2].v
                        || (qs[n1].v == qs[n2].v && qs[n1].u < qs[n2].u))))
}

/// Greedy-mesh the whole volume: merge the exposed faces of each of the
/// six directions into quads, in the fixed direction order. The result
/// covers every exposed face of the volume exactly once.
#[verifier::rlimit(100)]
pub fn greedy_quads(g: &VoxelGrid) -> (qs: Vec<Quad>)
    requires
        g.wf(),
    ensures
        mesh_quads_ok(g, qs@),
        qs@.len() <= 6 * (g.sx() * g.sy() * g.sz()),
{
    let mut q0: Vec<Quad> = Vec::new();
    let mut q1: Vec<Quad> = Vec::new();
    let mut q2: Vec<Quad> = Vec::new();
    let mut q3: Vec<Quad> = Vec::new();
    let mut q4: Vec<Quad> = Vec::new();
    let mut q5: Vec<Quad> = Vec::new();
    mesh_direction(g, FaceDir::XNeg, &mut q0);
    mesh_direction(g, FaceDir::YNeg, &mut q1);
    mesh_direction(g, FaceDir::ZNeg, &mut q2);
    mesh_direction(g, FaceDir::XPos, &mut q3);
    mesh_direction(g, FaceDir::YPos, &mut q4);
    mesh_direction(g, FaceDir::ZPos, &mut q5);
    proof {
        lemma_direction_quads_bound(g, FaceDir::XNeg, q0@);
        lemma_direction_quads_bound(g, FaceDir::YNeg, q1@);
        lemma_direction_quads_bound(g, FaceDir::ZNeg, q2@);
        lemma_direction_quads_bound(g, FaceDir::XPos, q3@);
        lemma_direction_quads_bound(g, FaceDir::YPos, q4@);
        lemma_direction_quads_bound(g, FaceDir::ZPos, q5@);
    }
    let ghost s0 = q0@;
    let ghost s1 = q1@;
    let ghost s2 = q2@;
    let ghost s3 = q3@;
    let ghost s4 = q4@;
    let ghost s5 = q5@;
    let mut qs = q0;
    qs.append(&mut q1);
    qs.append(&mut q2);
    qs.append(&mut q3);
    qs.append(&mut q4);
    qs.append(&mut q5);
    proof {
        let all = qs@;
        let l0 = s0.len() as int;
        let l1 = l0 + s1.len();
        let l2 = l1 + s2.len();
        let l3 = l2 + s3.len();
        let l4 = l3 + s4.len();
        let l5 = l4 + s5.len();
        assert(all == s0 + s1 + s2 + s3 + s4 + s5);
        assert(all.len() == l5);
        // where each entry of the combined list comes from
        assert forall|n: int| 0 <= n < all.len()
            implies #[trigger] all[n] == if n < l0 {
                s0[n]
            } else if n < l1 {
                s1[n - l0]
            } else if n < l2 {
                s2[n - l1]
            } else if n < l3 {
                s3[n - l2]
            } else if n < l4 {
                s4[n - l3]
            } else {
                s5[n - l4]
            } by {}
        assert forall|n: int| 0 <= n < all.len()
            implies quad_wf(g, #[trigger] all[n]) && dir_rank(all[n].dir) == if n < l0 {
                0int
            } else if n < l1 {
                1int
            } else if n < l2 {
                2int
            } else if n < l3 {
                3int
            } else if n < l4 {
                4int
            } else {
                5int
            } by {}
        assert forall|n: int, x: int, y: int, z: int|
            0 <= n < all.len() && #[trigger] quad_covers(all[n], x, y, z)
            implies face_exposed(g, all[n].dir, x, y, z) by {
            if n < l0 {
                assert(quad_covers(s0[n], x, y, z));
            } else if n < l1 {
                assert(quad_covers(s1[n - l0], x, y, z));
            } else if n < l2 {
                assert(quad_covers(s2[n - l1], x, y, z));
            } else if n < l3 {
                assert(quad_covers(s3[n - l2], x, y, z));
            } else if n < l4 {
                assert(quad_covers(s4[n - l3], x, y, z));
            } else {
                assert(quad_covers(s5[n - l4], x, y, z));
            }
        }
        assert forall|n1: int, n2: int, x: int, y: int, z: int|
            #![trigger quad_covers(all[n1], x, y, z), quad_covers(all[n2], x, y, z)]
            0 <= n1 < n2 < all.len() && all[n1].dir == all[n2].dir
                && quad_covers(all[n1], x, y, z)
            implies !quad_covers(all[n2], x, y, z) by {
            // equal directions put both quads in the same segment
            if n2 < l0 {
                assert(quad_covers(s0[n1], x, y, z));
                assert(!quad_covers(s0[n2], x, y, z));
            } else if n2 < l1 {
                assert(quad_covers(s1[n1 - l0], x, y, z));
                assert(!quad_covers(s1[n2 - l0], x, y, z));
            } else if n2 < l2 {
                assert(quad_covers(s2[n1 - l1], x, y, z));
                assert(!quad_covers(s2[n2 - l1], x, y, z));
            } else if n2 < l3 {
                assert(quad_covers(s3[n1 - l2], x, y, z));
                assert(!quad_covers(s3[n2 - l2], x, y, z));
            } else if n2 < l4 {
                assert(quad_covers(s4[n1 - l3], x, y, z));
                assert(!quad_covers(s4[n2 - l3], x, y, z));
            } else {
                assert(quad_covers(s5[n1 - l4], x, y, z));
                assert(!quad_covers(s5[n2 - l4], x, y, z));
            }
        }
        assert forall|d: FaceDir, x: int, y: int, z: int|
            #[trigger] face_exposed(g, d, x, y, z)
            implies exists|n: int|
                0 <= n < all.len() && (#[trigger] all[n]).dir == d
                    && quad_covers(all[n], x, y, z) by {
            if d == FaceDir::XNeg {
                let n = choose|n: int| 0 <= n < s0.len() && quad_covers(#[trigger] s0[n], x, y, z);
                assert(all[n] == s0[n] && all[n].dir == d && quad_covers(all[n], x, y, z));
            } else if d == FaceDir::YNeg {
                let n = choose|n: int| 0 <= n < s1.len() && quad_covers(#[trigger] s1[n], x, y, z);
                assert(all[l0 + n] == s1[n] && all[l0 + n].dir == d
                    && quad_covers(all[l0 + n], x, y, z));
            } else if d == FaceDir::ZNeg {
                let n = choose|n: int| 0 <= n < s2.len() && quad_covers(#[trigger] s2[n], x, y, z);
                assert(all[l1 + n] == s2[n] && all[l1 + n].dir == d
                    && quad_covers(all[l1 + n], x, y, z));
            } else if d == FaceDir::XPos {
                let n = choose|n: int| 0 <= n < s3.len() && quad_covers(#[trigger] s3[n], x, y, z);
                assert(all[l2 + n] == s3[n] && all[l2 + n].dir == d
                    && quad_covers(all[l2 + n], x, y, z));
            } else if d == FaceDir::YPos {
                let n = choose|n: int| 0 <= n < s4.len() && quad_covers(#[trigger] s4[n], x, y, z);
                assert(all[l3 + n] == s4[n] && all[l3 + n].dir == d
                    && quad_covers(all[l3 + n], x, y, z));
            } else {
                let n = choose|n: int| 0 <= n < s5.len() && quad_covers(#[trigger] s5[n], x, y, z);
                assert(all[l4 + n] == s5[n] && all[l4 + n].dir == d
                    && quad_covers(all[l4 + n], x, y, z));
            }
        }
        // each quad keeps its sideways-maximality witnesses under the
        // concatenation: witnesses live in the same segment, at the same
        // offset before the quad
        assert forall|n: int| 0 <= n < all.len()
            implies #[trigger] quad_run_maximal(g, all, n) by {
            let off = if n < l0 {
                0int
            } else if n < l1 {
                l0
            } else if n < l2 {
                l1
            } else if n < l3 {
                l2
            } else if n < l4 {
                l3
            } else {
                l4
            };
            let seg = if n < l0 {
                s0
            } else if n < l1 {
                s1
            } else if n < l2 {
                s2
            } else if n < l3 {
                s3
            } else if n < l4 {
                s4
            } else {
                s5
            };
            assert(all[n] == seg[n - off]);
            assert(quad_run_maximal(g, seg, n - off));
            let qo = seg[n - off];
            if qo.u != 1 && exposed_uv(g, qo.dir, qo.p as int, qo.u - 1, qo.v as int) {
                let m = choose|m: int|
                    0 <= m < n - off && (#[trigger] seg[m]).dir == qo.dir && seg[m].p == qo.p
                        && covers_uv(seg[m], qo.u - 1, qo.v as int);
                assert(all[off + m] == seg[m]);
                assert(0 <= off + m < n && all[off + m].dir == qo.dir && all[off + m].p == qo.p
                    && covers_uv(all[off + m], qo.u - 1, qo.v as int));
            }
            if qo.u + qo.w != extent_u(g, qo.dir) - 1
                && exposed_uv(g, qo.dir, qo.p as int, qo.u + qo.w, qo.v as int) {
                let m = choose|m: int|
                    0 <= m < n - off && (#[trigger] seg[m]).dir == qo.dir && seg[m].p == qo.p
                        && covers_uv(seg[m], qo.u + qo.w, qo.v as int);
                assert(all[off + m] == seg[m]);
                assert(0 <= off + m < n && all[off + m].dir == qo.dir && all[off + m].p == qo.p
                    && covers_uv(all[off + m], qo.u + qo.w, qo.v as int));
            }
        }
        // quads of one direction all live in one segment, whose scan
        // order carries over to the concatenation
        assert forall|n1: int, n2: int|
            0 <= n1 < n2 < all.len() && (#[trigger] all[n1]).dir == (#[trigger] all[n2]).dir
            implies (all[n1].p < all[n2].p
                || (all[n1].p == all[n2].p
                    && (all[n1].v < all[n2].v
                        || (all[n1].v == all[n2].v && all[n1].u < all[n2].u)))) by {
            if n2 < l0 {
                assert(all[n1] == s0[n1] && all[n2] == s0[n2]);
            } else if n2 < l1 {
                assert(all[n2] == s1[n2 - l0] && all[n2].dir == FaceDir::YNeg);
                assert(n1 >= l0);
                assert(all[n1] == s1[n1 - l0]);
            } else if n2 < l2 {
                assert(all[n2] == s2[n2 - l1] && all[n2].dir == FaceDir::ZNeg);
                assert(n1 >= l1);
                assert(all[n1] == s2[n1 - l1]);
            } else if n2 < l3 {
                assert(all[n2] == s3[n2 - l2] && all[n2].dir == FaceDir::XPos);
                assert(n1 >= l2);
                assert(all[n1] == s3[n1 - l2]);
            } else if n2 < l4 {
                assert(all[n2] == s4[n2 - l3] && all[n2].dir == FaceDir::YPos);
                assert(n1 >= l3);
                assert(all[n1] == s4[n1 - l3]);
            } else {
                assert(all[n2] == s5[n2 - l4] && all[n2].dir == FaceDir::ZPos);
                assert(n1 >= l4);
                assert(all[n1] == s5[n1 - l4]);
            }
        }
        // column maximality embeds segment by segment the same way
        assert forall|n: int| 0 <= n < all.len()
            implies #[trigger] quad_column_maximal(g, all, n) by {
            let off = if n < l0 {
                0int
            } else if n < l1 {
                l0
            } else if n < l2 {
                l1
            } else if n < l3 {
                l2
            } else if n < l4 {
                l3
            } else {
                l4
            };
            let seg = if n < l0 {
                s0
            } else if n < l1 {
                s1
            } else if n < l2 {
                s2
            } else if n < l3 {
                s3
            } else if n < l4 {
                s4
            } else {
                s5
            };
            assert forall|m2: int| 0 <= m2 <= n - off
                implies #[trigger] all[off + m2] == seg[m2] by {}
            assert(quad_column_maximal(g, seg, n - off));
            lemma_column_maximal_embed(g, seg, all, off, n - off);
            assert(quad_column_maximal(g, all, off + (n - off)));
        }
    }
    qs
}

/// The render-ready mesh buffers: four vertices and one normal per vertex
/// for each quad, a zero UV per vertex, and six indices (two triangles)
/// per quad with a fixed winding per face direction.
pub struct MeshBuffers {
    /// Vertex positions, in voxel coordinates; 4 per quad.
    pub positions: Vec<(usize, usize, usize)>,
    /// Per-vertex unit normals; 4 per quad, all equal to the quad's
    /// face normal.
    pub normals: Vec<(i32, i32, i32)>,
    /// Per-vertex texture coordinates; all zero.
    pub uvs: Vec<(u32, u32)>,
    /// Triangle indices into `positions`; 6 per quad.
    pub indices: Vec<u32>,
}

/// Whether the face plane of `d` sits on the high side of its voxels.
pub open spec fn is_pos(d: FaceDir) -> bool {
    d == FaceDir::XPos || d == FaceDir::YPos || d == FaceDir::ZPos
}

/// Corner `t` of the quad, in voxel coordinates: corner 0 is the minimum
/// corner of the face rectangle, corner 1 adds the width, corner 2 adds
/// the height, corner 3 adds both.
pub open spec fn quad_corner(q: Quad, t: int) -> (int, int, int) {
    cell_at(
        q.dir,
        if is_pos(q.dir) {
            q.p + 1
        } else {
            q.p as int
        },
        if t == 1 || t == 3 {
            q.u + q.w
        } else {
            q.u as int
        },
        if t == 2 || t == 3 {
            q.v + q.h
        } else {
            q.v as int
        },
    )
}

/// Which directions use the first winding: those whose normal equals the
/// cross product of their first and second tangent axes, so that the
/// triangles `(0, 1, 2)` and `(2, 1, 3)` wind counterclockwise seen from
/// outside the solid. The other directions use the mirrored triangles
/// `(0, 2, 1)` and `(2, 3, 1)`.
pub open spec fn winding_first(d: FaceDir) -> bool {
    d == FaceDir::XPos || d == FaceDir::YNeg || d == FaceDir::ZPos
}

/// Entry `t` of the index pattern of direction `d`, as an offset into the
/// quad's four vertices.
pub open spec fn quad_index_pattern(d: FaceDir, t: int) -> int {
    if winding_first(d) {
        seq![0int, 1, 2, 2, 1, 3][t]
    } else {
        seq![0int, 2, 1, 2, 3, 1][t]
    }
}

/// Vertex `t` of quad `m` in a position buffer, as integers.
pub open spec fn pos_entry(s: Seq<(usize, usize, usize)>, m: int, t: int) -> (int, int, int) {
    (s[4 * m + t].0 as int, s[4 * m + t].1 as int, s[4 * m + t].2 as int)
}

/// Vertex `t` of quad `m` in a normal buffer, as integers.
pub open spec fn norm_entry(s: Seq<(i32, i32, i32)>, m: int, t: int) -> (int, int, int) {
    (s[4 * m + t].0 as int, s[4 * m + t].1 as int, s[4 * m + t].2 as int)
}

/// Vertex `t` of quad `m` in a UV buffer, as integers.
pub open spec fn uv_entry(s: Seq<(u32, u32)>, m: int, t: int) -> (int, int) {
    (s[4 * m + t].0 as int, s[4 * m + t].1 as int)
}

/// Entry `t` of quad `m` in an index buffer, as an integer.
pub open spec fn idx_entry(s: Seq<u32>, m: int, t: int) -> int {
    s[6 * m + t] as int
}

/// The buffers are exactly the emission of the quad list: four corner
/// vertices, four copies of the face normal and four zero UVs per quad,
/// and six indices per quad forming two triangles with the direction's
/// fixed winding.
pub open spec fn buffers_match(qs: Seq<Quad>, b: &MeshBuffers) -> bool {
    &&& b.positions@.len() == 4 * qs.len()
    &&& b.normals@.len() == 4 * qs.len()
    &&& b.uvs@.len() == 4 * qs.len()
    &&& b.indices@.len() == 6 * qs.len()
    &&& forall|m: int, t: int|
        0 <= m < qs.len() && 0 <= t < 4
            ==> #[trigger] pos_entry(b.positions@, m, t) == quad_corner(qs[m], t)
    &&& forall|m: int, t: int|
        0 <= m < qs.len() && 0 <= t < 4
            ==> #[trigger] norm_entry(b.normals@, m, t)
                == ((qs[m].dir.nx(), qs[m].dir.ny(), qs[m].dir.nz()))
    &&& forall|m: int, t: int|
        0 <= m < qs.len() && 0 <= t < 4 ==> #[trigger] uv_entry(b.uvs@, m, t) == ((0int, 0int))
    &&& forall|m: int, t: int|
        0 <= m < qs.len() && 0 <= t < 6
            ==> #[trigger] idx_entry(b.indices@, m, t)
                == 4 * m + quad_index_pattern(qs[m].dir, t)
    &&& forall|k: int| 0 <= k < b.indices@.len() ==> (#[trigger] b.indices@[k]) < b.positions@.len()
}

/// Corner `t` of the quad, computed.
fn corner_of(q: &Quad, t: usize) -> (c: (usize, usize, usize))
    requires
        t < 4,
        q.u + q.w <= usize::MAX,
        q.v + q.h <= usize::MAX,
        q.p + 1 <= usize::MAX,
    ensures
        (c.0 as int, c.1 as int, c.2 as int) == quad_corner(*q, t as int),
{
    let pp = match q.dir {
        FaceDir::XPos | FaceDir::YPos | FaceDir::ZPos => q.p + 1,
        _ => q.p,
    };
    let a = if t == 1 || t == 3 {
        q.u + q.w
    } else {
        q.u
    };
    let b = if t == 2 || t == 3 {
        q.v + q.h
    } else {
        q.v
    };
    match q.dir {
        FaceDir::XNeg | FaceDir::XPos => (pp, a, b),
        FaceDir::YNeg | FaceDir::YPos => (a, pp, b),
        FaceDir::ZNeg | FaceDir::ZPos => (a, b, pp),
    }
}

/// The unit normal of `d`, computed.
fn normal_of(d: FaceDir) -> (r: (i32, i32, i32))
    ensures
        r.0 as int == d.nx(),
        r.1 as int == d.ny(),
        r.2 as int == d.nz(),
{
    match d {
        FaceDir::XNeg => (-1, 0, 0),
        FaceDir::XPos => (1, 0, 0),
        FaceDir::YNeg => (0, -1, 0),
        FaceDir::YPos => (0, 1, 0),
        FaceDir::ZNeg => (0, 0, -1),
        FaceDir::ZPos => (0, 0, 1),
    }
}

/// Emit the vertex, normal, UV and index buffers for a quad list: for each
/// quad in order, its four corners, four copies of its face normal, four
/// zero UVs, and the six indices of its two triangles.
#[verifier::loop_isolation(false)]
#[verifier::rlimit(100)]
pub fn quads_to_buffers(qs: &Vec<Quad>) -> (b: MeshBuffers)
    requires
        4 * qs@.len() <= u32::MAX,
        forall|n: int|
            0 <= n < qs@.len()
                ==> (#[trigger] qs@[n]).u + qs@[n].w <= usize::MAX
                    && qs@[n].v + qs@[n].h <= usize::MAX && qs@[n].p + 1 <= usize::MAX,
    ensures
        buffers_match(qs@, &b),
{
    let mut positions: Vec<(usize, usize, usize)> = Vec::new();
    let mut normals: Vec<(i32, i32, i32)> = Vec::new();
    let mut uvs: Vec<(u32, u32)> = Vec::new();
    let mut indices: Vec<u32> = Vec::new();
    let mut n: usize = 0;
    while n < qs.len()
        invariant
            n <= qs@.len(),
            positions@.len() == 4 * n,
            normals@.len() == 4 * n,
            uvs@.len() == 4 * n,
            indices@.len() == 6 * n,
            forall|m: int, t: int|
                0 <= m < n && 0 <= t < 4
                    ==> #[trigger] pos_entry(positions@, m, t) == quad_corner(qs@[m], t),
            forall|m: int, t: int|
                0 <= m < n && 0 <= t < 4
                    ==> #[trigger] norm_entry(normals@, m, t)
                        == ((qs@[m].dir.nx(), qs@[m].dir.ny(), qs@[m].dir.nz())),
            forall|m: int, t: int|
                0 <= m < n && 0 <= t < 4 ==> #[trigger] uv_entry(uvs@, m, t) == ((0int, 0int)),
            forall|m: int, t: int|
                0 <= m < n && 0 <= t < 6
                    ==> #[trigger] idx_entry(indices@, m, t)
                        == 4 * m + quad_index_pattern(qs@[m].dir, t),
            forall|k: int| 0 <= k < indices@.len() ==> (#[trigger] indices@[k]) < 4 * n,
        decreases qs@.len() - n,
    {
        let q = qs[n];
        let c0 = corner_of(&q, 0);
        let c1 = corner_of(&q, 1);
        let c2 = corner_of(&q, 2);
        let c3 = corner_of(&q, 3);
        let nv = normal_of(q.dir);
        let ghost positions0 = positions@;
        let ghost normals0 = normals@;
        let ghost uvs0 = uvs@;
        let ghost indices0 = indices@;
        positions.push(c0);
        positions.push(c1);
        positions.push(c2);
        positions.push(c3);
        normals.push(nv);
        normals.push(nv);
        normals.push(nv);
        normals.push(nv);
        uvs.push((0, 0));
        uvs.push((0, 0));
        uvs.push((0, 0));
        uvs.push((0, 0));
        let s = 4 * n;
        let i0 = s as u32;
        let i1 = (s + 1) as u32;
        let i2 = (s + 2) as u32;
        let i3 = (s + 3) as u32;
        match q.dir {
            FaceDir::XPos | FaceDir::YNeg | FaceDir::ZPos => {
                indices.push(i0);
                indices.push(i1);
                indices.push(i2);
                indices.push(i2);
                indices.push(i1);
                indices.push(i3);
            },
            _ => {
                indices.push(i0);
                indices.push(i2);
                indices.push(i1);
                indices.push(i2);
                indices.push(i3);
                indices.push(i1);
            },
        }
        proof {
            let ni = n as int;
            assert forall|m: int, t: int| 0 <= m < ni + 1 && 0 <= t < 4
                implies #[trigger] pos_entry(positions@, m, t) == quad_corner(qs@[m], t) by {
                if m < ni {
                    assert(positions@[4 * m + t] == positions0[4 * m + t]);
                    assert(pos_entry(positions0, m, t) == quad_corner(qs@[m], t));
                } else {
                    assert(positions@[4 * ni + 0] == c0);
                    assert(positions@[4 * ni + 1] == c1);
                    assert(positions@[4 * ni + 2] == c2);
                    assert(positions@[4 * ni + 3] == c3);
                }
            }
            assert forall|m: int, t: int| 0 <= m < ni + 1 && 0 <= t < 4
                implies #[trigger] norm_entry(normals@, m, t)
                    == ((qs@[m].dir.nx(), qs@[m].dir.ny(), qs@[m].dir.nz())) by {
                if m < ni {
                    assert(normals@[4 * m + t] == normals0[4 * m + t]);
                    assert(norm_entry(normals0, m, t)
                        == ((qs@[m].dir.nx(), qs@[m].dir.ny(), qs@[m].dir.nz())));
                } else {
                    assert(normals@[4 * ni + t] == nv);
                }
            }
            assert forall|m: int, t: int| 0 <= m < ni + 1 && 0 <= t < 4
                implies #[trigger] uv_entry(uvs@, m, t) == ((0int, 0int)) by {
                if m < ni {
                    assert(uvs@[4 * m + t] == uvs0[4 * m + t]);
                    assert(uv_entry(uvs0, m, t) == ((0int, 0int)));
                } else {
                    assert(uvs@[4 * ni + t] == (0u32, 0u32));
                }
            }
            assert forall|m: int, t: int| 0 <= m < ni + 1 && 0 <= t < 6
                implies #[trigger] idx_entry(indices@, m, t)
                    == 4 * m + quad_index_pattern(qs@[m].dir, t) by {
                if m < ni {
                    assert(indices@[6 * m + t] == indices0[6 * m + t]);
                    assert(idx_entry(indices0, m, t) == 4 * m + quad_index_pattern(qs@[m].dir, t));
                } else {
                    if winding_first(qs@[ni].dir) {
                        assert(indices@[6 * ni + 0] == i0);
                        assert(indices@[6 * ni + 1] == i1);
                        assert(indices@[6 * ni + 2] == i2);
                        assert(indices@[6 * ni + 3] == i2);
                        assert(indices@[6 * ni + 4] == i1);
                        assert(indices@[6 * ni + 5] == i3);
                    } else {
                        assert(indices@[6 * ni + 0] == i0);
                        assert(indices@[6 * ni + 1] == i2);
                        assert(indices@[6 * ni + 2] == i1);
                        assert(indices@[6 * ni + 3] == i2);
                        assert(indices@[6 * ni + 4] == i3);
                        assert(indices@[6 * ni + 5] == i1);
                    }
                }
            }
        }
        n = n + 1;
    }
    MeshBuffers { positions, normals, uvs, indices }
}

/// An exposed face's tangent and plane coordinates lie strictly inside
/// the volume.
proof fn lemma_exposed_uv_bounds(g: &VoxelGrid, d: FaceDir, p: int, a: int, b: int)
    requires
        exposed_uv(g, d, p, a, b),
    ensures
        1 <= a < extent_u(g, d) - 1,
        1 <= b < extent_v(g, d) - 1,
        1 <= p < extent_n(g, d) - 1,
{
}

/// Every quad of direction `d` in a plane whose exposed faces form the
/// single run `[u0, u0+run) x {v0}` spans that run exactly: a narrower
/// quad would have a mergeable neighbor, against greedy maximality.
proof fn lemma_quad_spans_run(
    g: &VoxelGrid,
    qs: Seq<Quad>,
    d: FaceDir,
    p: int,
    u0: int,
    run: int,
    v0: int,
    n: int,
)
    requires
        mesh_quads_ok(g, qs),
        run >= 1,
        forall|a: int, b: int|
            #[trigger] exposed_uv(g, d, p, a, b) <==> (u0 <= a < u0 + run && b == v0),
        0 <= n < qs.len(),
        qs[n].dir == d,
        qs[n].p == p,
    ensures
        qs[n].u == u0,
        qs[n].w == run,
        qs[n].v == v0,
        qs[n].h == 1,
    decreases n,
{
    let q = qs[n];
    assert(quad_wf(g, q));
    // the quad's whole footprint lies inside the run
    assert forall|a: int, b: int| #[trigger] covers_uv(q, a, b)
        implies u0 <= a < u0 + run && b == v0 by {
        let c = cell_at(d, p, a, b);
        assert(quad_covers(q, c.0, c.1, c.2));
        assert(face_exposed(g, d, c.0, c.1, c.2));
        assert(exposed_uv(g, d, p, a, b));
    }
    assert(covers_uv(q, q.u as int, q.v as int));
    assert(covers_uv(q, q.u + q.w - 1, q.v + q.h - 1));
    assert(q.v == v0 && q.h == 1);
    assert(u0 <= q.u && q.u + q.w <= u0 + run);
    assert(quad_run_maximal(g, qs, n));
    assert(exposed_uv(g, d, p, u0, v0));
    lemma_exposed_uv_bounds(g, d, p, u0, v0);
    if q.u > u0 {
        // the face just left of the quad is exposed, so an earlier quad of
        // this plane merged it; by induction that quad spans the run and
        // overlaps this one
        assert(exposed_uv(g, d, p, q.u - 1, v0));
        assert(q.u != 1);
        let m = choose|m: int|
            0 <= m < n && (#[trigger] qs[m]).dir == q.dir && qs[m].p == q.p
                && covers_uv(qs[m], q.u - 1, q.v as int);
        lemma_quad_spans_run(g, qs, d, p, u0, run, v0, m);
        assert(covers_uv(qs[m], q.u as int, v0));
        let c = cell_at(d, p, q.u as int, v0);
        assert(quad_covers(qs[m], c.0, c.1, c.2));
        assert(quad_covers(qs[n], c.0, c.1, c.2));
        assert(false);
    }
    if q.u + q.w < u0 + run {
        assert(exposed_uv(g, d, p, q.u + q.w, v0));
        lemma_exposed_uv_bounds(g, d, p, q.u + q.w, v0);
        assert(q.u + q.w != extent_u(g, d) - 1);
        let m = choose|m: int|
            0 <= m < n && (#[trigger] qs[m]).dir == q.dir && qs[m].p == q.p
                && covers_uv(qs[m], q.u + q.w, q.v as int);
        lemma_quad_spans_run(g, qs, d, p, u0, run, v0, m);
        assert(covers_uv(qs[m], q.u as int, v0));
        let c = cell_at(d, p, q.u as int, v0);
        assert(quad_covers(qs[m], c.0, c.1, c.2));
        assert(quad_covers(qs[n], c.0, c.1, c.2));
        assert(false);
    }
}

/// Quad minimality along corridors: when the exposed faces of one plane
/// form a single unbroken run of length `run`, the greedy mesh holds
/// exactly one quad in that plane, spanning the whole run — never `run`
/// separate quads.
pub proof fn lemma_run_merges_into_one_quad(
    g: &VoxelGrid,
    qs: Seq<Quad>,
    d: FaceDir,
    p: int,
    u0: int,
    run: int,
    v0: int,
)
    requires
        mesh_quads_ok(g, qs),
        run >= 1,
        forall|a: int, b: int|
            #[trigger] exposed_uv(g, d, p, a, b) <==> (u0 <= a < u0 + run && b == v0),
    ensures
        exists|n: int|
            0 <= n < qs.len() && (#[trigger] qs[n]).dir == d && qs[n].p == p && qs[n].u == u0
                && qs[n].w == run && qs[n].v == v0 && qs[n].h == 1,
        forall|n1: int, n2: int|
            0 <= n1 < qs.len() && 0 <= n2 < qs.len() && (#[trigger] qs[n1]).dir == d
                && qs[n1].p == p && (#[trigger] qs[n2]).dir == d && qs[n2].p == p
                ==> n1 == n2,
{
    assert(exposed_uv(g, d, p, u0, v0));
    let c0 = cell_at(d, p, u0, v0);
    assert(face_exposed(g, d, c0.0, c0.1, c0.2));
    let n = choose|n: int|
        0 <= n < qs.len() && (#[trigger] qs[n]).dir == d && quad_covers(qs[n], c0.0, c0.1, c0.2);
    assert(qs[n].p == p);
    lemma_quad_spans_run(g, qs, d, p, u0, run, v0, n);
    assert forall|n1: int, n2: int|
        0 <= n1 < qs.len() && 0 <= n2 < qs.len() && (#[trigger] qs[n1]).dir == d
            && qs[n1].p == p && (#[trigger] qs[n2]).dir == d && qs[n2].p == p
        implies n1 == n2 by {
        if n1 != n2 {
            lemma_quad_spans_run(g, qs, d, p, u0, run, v0, n1);
            lemma_quad_spans_run(g, qs, d, p, u0, run, v0, n2);
            assert(covers_uv(qs[n1], u0, v0));
            assert(covers_uv(qs[n2], u0, v0));
            assert(quad_covers(qs[n1], c0.0, c0.1, c0.2));
            assert(quad_covers(qs[n2], c0.0, c0.1, c0.2));
        }
    }
}

/// For a volume holding exactly one solid voxel, each direction's mesh is
/// a single unit quad on that voxel's face toward the direction.
pub proof fn lemma_single_voxel_face(
    g: &VoxelGrid,
    qs: Seq<Quad>,
    x: int,
    y: int,
    z: int,
    d: FaceDir,
)
    requires
        mesh_quads_ok(g, qs),
        1 <= x < g.sx() - 1,
        1 <= y < g.sy() - 1,
        1 <= z < g.sz() - 1,
        forall|a: int, b: int, c: int|
            0 <= a < g.sx() && 0 <= b < g.sy() && 0 <= c < g.sz()
                ==> (#[trigger] g.voxel(a, b, c) <==> (a == x && b == y && c == z)),
    ensures
        exists|n: int|
            0 <= n < qs.len() && (#[trigger] qs[n]).dir == d && qs[n].p == plane_coord(d, x, y, z)
                && qs[n].u == u_coord(d, x, y, z) && qs[n].v == v_coord(d, x, y, z)
                && qs[n].w == 1 && qs[n].h == 1,
        forall|n1: int, n2: int|
            0 <= n1 < qs.len() && 0 <= n2 < qs.len() && (#[trigger] qs[n1]).dir == d
                && (#[trigger] qs[n2]).dir == d
                ==> n1 == n2,
{
    let p = plane_coord(d, x, y, z);
    let u0 = u_coord(d, x, y, z);
    let v0 = v_coord(d, x, y, z);
    lemma_cell_roundtrip(d, x, y, z);
    // the cube's face toward `d` is the only exposed face of this plane
    assert forall|a: int, b: int|
        #[trigger] exposed_uv(g, d, p, a, b) <==> (u0 <= a < u0 + 1 && b == v0) by {
        let c = cell_at(d, p, a, b);
        if exposed_uv(g, d, p, a, b) {
            assert(g.voxel(c.0, c.1, c.2));
            assert(c == (x, y, z));
        }
        if u0 <= a < u0 + 1 && b == v0 {
            assert(c == (x, y, z));
            assert(g.voxel(x, y, z));
            assert(!(x + d.nx() == x && y + d.ny() == y && z + d.nz() == z));
            assert(!g.voxel(x + d.nx(), y + d.ny(), z + d.nz()));
            assert(exposed_uv(g, d, p, a, b));
        }
    }
    lemma_run_merges_into_one_quad(g, qs, d, p, u0, 1, v0);
    // every quad of direction `d` lies in this plane: its corner covers an
    // exposed face, and the only exposed faces of `d` are in plane `p`
    assert forall|n: int|
        0 <= n < qs.len() && (#[trigger] qs[n]).dir == d implies qs[n].p == p by {
        let q = qs[n];
        assert(quad_wf(g, q));
        assert(covers_uv(q, q.u as int, q.v as int));
        let c = cell_at(d, q.p as int, q.u as int, q.v as int);
        assert(quad_covers(q, c.0, c.1, c.2));
        assert(face_exposed(g, d, c.0, c.1, c.2));
        assert(g.voxel(c.0, c.1, c.2));
        assert(c == (x, y, z));
        assert(plane_coord(d, c.0, c.1, c.2) == q.p);
    }
}

/// A quad list with at least one quad of every direction, no two quads of
/// the same direction, and the fixed direction grouping holds exactly six
/// quads.
proof fn lemma_one_quad_per_direction_count(qs: Seq<Quad>)
    requires
        forall|n1: int, n2: int|
            0 <= n1 < n2 < qs.len()
                ==> dir_rank((#[trigger] qs[n1]).dir) <= dir_rank((#[trigger] qs[n2]).dir),
        forall|n1: int, n2: int|
            0 <= n1 < qs.len() && 0 <= n2 < qs.len()
                && (#[trigger] qs[n1]).dir == (#[trigger] qs[n2]).dir
                ==> n1 == n2,
        exists|n: int| 0 <= n < qs.len() && (#[trigger] qs[n]).dir == FaceDir::XNeg,
        exists|n: int| 0 <= n < qs.len() && (#[trigger] qs[n]).dir == FaceDir::XPos,
        exists|n: int| 0 <= n < qs.len() && (#[trigger] qs[n]).dir == FaceDir::YNeg,
        exists|n: int| 0 <= n < qs.len() && (#[trigger] qs[n]).dir == FaceDir::YPos,
        exists|n: int| 0 <= n < qs.len() && (#[trigger] qs[n]).dir == FaceDir::ZNeg,
        exists|n: int| 0 <= n < qs.len() && (#[trigger] qs[n]).dir == FaceDir::ZPos,
    ensures
        qs.len() == 6,
{
    let n0 = choose|n: int| 0 <= n < qs.len() && (#[trigger] qs[n]).dir == FaceDir::XNeg;
    let n1 = choose|n: int| 0 <= n < qs.len() && (#[trigger] qs[n]).dir == FaceDir::YNeg;
    let n2 = choose|n: int| 0 <= n < qs.len() && (#[trigger] qs[n]).dir == FaceDir::ZNeg;
    let n3 = choose|n: int| 0 <= n < qs.len() && (#[trigger] qs[n]).dir == FaceDir::XPos;
    let n4 = choose|n: int| 0 <= n < qs.len() && (#[trigger] qs[n]).dir == FaceDir::YPos;
    let n5 = choose|n: int| 0 <= n < qs.len() && (#[trigger] qs[n]).dir == FaceDir::ZPos;
    // the six face quads come in the fixed direction order
    assert(n0 < n1 && n1 < n2 && n2 < n3 && n3 < n4 && n4 < n5) by {
        assert(dir_rank(qs[n0].dir) == 0 && dir_rank(qs[n1].dir) == 1
            && dir_rank(qs[n2].dir) == 2 && dir_rank(qs[n3].dir) == 3
            && dir_rank(qs[n4].dir) == 4 && dir_rank(qs[n5].dir) == 5);
    }
    // they are consecutive: a quad between two of them, before the first,
    // or after the last, would repeat a direction
    assert(n0 == 0) by {
        if n0 > 0 {
            assert(dir_rank(qs[0].dir) <= dir_rank(qs[n0].dir));
            assert(qs[0].dir == FaceDir::XNeg);
        }
    }
    assert(n1 == n0 + 1) by {
        if n1 > n0 + 1 {
            let n = n0 + 1;
            assert(dir_rank(qs[n0].dir) <= dir_rank(qs[n].dir));
            assert(dir_rank(qs[n].dir) <= dir_rank(qs[n1].dir));
            if qs[n].dir == FaceDir::XNeg {
                assert(n == n0);
            } else {
                assert(qs[n].dir == FaceDir::YNeg);
                assert(n == n1);
            }
        }
    }
    assert(n2 == n1 + 1) by {
        if n2 > n1 + 1 {
            let n = n1 + 1;
            assert(dir_rank(qs[n1].dir) <= dir_rank(qs[n].dir));
            assert(dir_rank(qs[n].dir) <= dir_rank(qs[n2].dir));
            if qs[n].dir == FaceDir::YNeg {
                assert(n == n1);
            } else {
                assert(qs[n].dir == FaceDir::ZNeg);
                assert(n == n2);
            }
        }
    }
    assert(n3 == n2 + 1) by {
        if n3 > n2 + 1 {
            let n = n2 + 1;
            assert(dir_rank(qs[n2].dir) <= dir_rank(qs[n].dir));
            assert(dir_rank(qs[n].dir) <= dir_rank(qs[n3].dir));
            if qs[n].dir == FaceDir::ZNeg {
                assert(n == n2);
            } else {
                assert(qs[n].dir == FaceDir::XPos);
                assert(n == n3);
            }
        }
    }
    assert(n4 == n3 + 1) by {
        if n4 > n3 + 1 {
            let n = n3 + 1;
            assert(dir_rank(qs[n3].dir) <= dir_rank(qs[n].dir));
            assert(dir_rank(qs[n].dir) <= dir_rank(qs[n4].dir));
            if qs[n].dir == FaceDir::XPos {
                assert(n == n3);
            } else {
                assert(qs[n].dir == FaceDir::YPos);
                assert(n == n4);
            }
        }
    }
    assert(n5 == n4 + 1) by {
        if n5 > n4 + 1 {
            let n = n4 + 1;
            assert(dir_rank(qs[n4].dir) <= dir_rank(qs[n].dir));
            assert(dir_rank(qs[n].dir) <= dir_rank(qs[n5].dir));
            if qs[n].dir == FaceDir::YPos {
                assert(n == n4);
            } else {
                assert(qs[n].dir == FaceDir::ZPos);
                assert(n == n5);
            }
        }
    }
    assert(qs.len() == n5 + 1) by {
        if qs.len() > n5 + 1 {
            let n = n5 + 1;
            assert(dir_rank(qs[n5].dir) <= dir_rank(qs[n].dir));
            assert(qs[n].dir == FaceDir::ZPos);
            assert(n == n5);
        }
    }
}

/// Mesh closure: a volume holding exactly one solid voxel meshes to
/// exactly six quads, one per face direction — a closed unit cube.
pub proof fn lemma_single_voxel_closed_cube(g: &VoxelGrid, qs: Seq<Quad>, x: int, y: int, z: int)
    requires
        mesh_quads_ok(g, qs),
        1 <= x < g.sx() - 1,
        1 <= y < g.sy() - 1,
        1 <= z < g.sz() - 1,
        forall|a: int, b: int, c: int|
            0 <= a < g.sx() && 0 <= b < g.sy() && 0 <= c < g.sz()
                ==> (#[trigger] g.voxel(a, b, c) <==> (a == x && b == y && c == z)),
    ensures
        qs.len() == 6,
{
    lemma_single_voxel_face(g, qs, x, y, z, FaceDir::XNeg);
    lemma_single_voxel_face(g, qs, x, y, z, FaceDir::XPos);
    lemma_single_voxel_face(g, qs, x, y, z, FaceDir::YNeg);
    lemma_single_voxel_face(g, qs, x, y, z, FaceDir::YPos);
    lemma_single_voxel_face(g, qs, x, y, z, FaceDir::ZNeg);
    lemma_single_voxel_face(g, qs, x, y, z, FaceDir::ZPos);
    lemma_one_quad_per_direction_count(qs);
}

/// Every quad of direction `d` in a plane whose exposed faces form the
/// full rectangle `[u0, u0+wu) x [v0, v0+hv)` spans that rectangle
/// exactly: a smaller quad would have a mergeable neighboring run or row,
/// against greedy maximality.
proof fn lemma_quad_spans_rect(
    g: &VoxelGrid,
    qs: Seq<Quad>,
    d: FaceDir,
    p: int,
    u0: int,
    wu: int,
    v0: int,
    hv: int,
    n: int,
)
    requires
        mesh_quads_ok(g, qs),
        wu >= 1,
        hv >= 1,
        forall|a: int, b: int|
            #[trigger] exposed_uv(g, d, p, a, b)
                <==> (u0 <= a < u0 + wu && v0 <= b < v0 + hv),
        0 <= n < qs.len(),
        qs[n].dir == d,
        qs[n].p == p,
    ensures
        qs[n].u == u0,
        qs[n].w == wu,
        qs[n].v == v0,
        qs[n].h == hv,
    decreases n,
{
    let q = qs[n];
    assert(quad_wf(g, q));
    // the quad's whole footprint lies inside the rectangle
    assert forall|a: int, b: int| #[trigger] covers_uv(q, a, b)
        implies u0 <= a < u0 + wu && v0 <= b < v0 + hv by {
        let c = cell_at(d, p, a, b);
        assert(quad_covers(q, c.0, c.1, c.2));
        assert(face_exposed(g, d, c.0, c.1, c.2));
        assert(exposed_uv(g, d, p, a, b));
    }
    assert(covers_uv(q, q.u as int, q.v as int));
    assert(covers_uv(q, q.u + q.w - 1, q.v + q.h - 1));
    assert(u0 <= q.u && q.u + q.w <= u0 + wu);
    assert(v0 <= q.v && q.v + q.h <= v0 + hv);
    assert(quad_run_maximal(g, qs, n));
    assert(quad_column_maximal(g, qs, n));
    assert(exposed_uv(g, d, p, u0, v0));
    lemma_exposed_uv_bounds(g, d, p, u0, v0);
    if q.u > u0 {
        // the face left of the quad's first row is exposed, so an earlier
        // quad merged it; by induction that quad spans the rectangle and
        // overlaps this one
        assert(exposed_uv(g, d, p, q.u - 1, q.v as int));
        assert(q.u != 1);
        let m = choose|m: int|
            0 <= m < n && (#[trigger] qs[m]).dir == q.dir && qs[m].p == q.p
                && covers_uv(qs[m], q.u - 1, q.v as int);
        lemma_quad_spans_rect(g, qs, d, p, u0, wu, v0, hv, m);
        assert(covers_uv(qs[m], q.u as int, q.v as int));
        let c = cell_at(d, p, q.u as int, q.v as int);
        assert(quad_covers(qs[m], c.0, c.1, c.2));
        assert(quad_covers(qs[n], c.0, c.1, c.2));
        assert(false);
    }
    if q.u + q.w < u0 + wu {
        assert(exposed_uv(g, d, p, q.u + q.w, q.v as int));
        lemma_exposed_uv_bounds(g, d, p, q.u + q.w, q.v as int);
        assert(q.u + q.w != extent_u(g, d) - 1);
        let m = choose|m: int|
            0 <= m < n && (#[trigger] qs[m]).dir == q.dir && qs[m].p == q.p
                && covers_uv(qs[m], q.u + q.w, q.v as int);
        lemma_quad_spans_rect(g, qs, d, p, u0, wu, v0, hv, m);
        assert(covers_uv(qs[m], q.u as int, q.v as int));
        let c = cell_at(d, p, q.u as int, q.v as int);
        assert(quad_covers(qs[m], c.0, c.1, c.2));
        assert(quad_covers(qs[n], c.0, c.1, c.2));
        assert(false);
    }
    if q.v > v0 {
        // the face above the quad's corner is exposed, so an earlier quad
        // merged it; by induction it spans the rectangle and overlaps
        assert(exposed_uv(g, d, p, q.u as int, q.v - 1));
        assert(q.v != 1);
        assert(covered_before(qs, n, q.u as int, q.v - 1));
        let m = choose|m: int|
            0 <= m < n && (#[trigger] qs[m]).dir == qs[n].dir && qs[m].p == qs[n].p
                && covers_uv(qs[m], q.u as int, q.v - 1);
        lemma_quad_spans_rect(g, qs, d, p, u0, wu, v0, hv, m);
        assert(covers_uv(qs[m], q.u as int, q.v as int));
        let c = cell_at(d, p, q.u as int, q.v as int);
        assert(quad_covers(qs[m], c.0, c.1, c.2));
        assert(quad_covers(qs[n], c.0, c.1, c.2));
        assert(false);
    }
    if q.v + q.h < v0 + hv {
        // the whole row below the quad is exposed, so the blocked cell of
        // the column-maximality clause was merged by an earlier quad
        assert(exposed_uv(g, d, p, q.u as int, q.v + q.h));
        lemma_exposed_uv_bounds(g, d, p, q.u as int, q.v + q.h);
        assert(q.v + q.h != extent_v(g, d) - 1);
        let t = choose|t: int| #[trigger] row_below_blocked(g, qs, n, t);
        assert(row_below_blocked(g, qs, n, t));
        assert(covers_uv(q, t, q.v as int));
        assert(exposed_uv(g, d, p, t, q.v + q.h));
        assert(covered_before(qs, n, t, q.v + q.h));
        let m = choose|m: int|
            0 <= m < n && (#[trigger] qs[m]).dir == qs[n].dir && qs[m].p == qs[n].p
                && covers_uv(qs[m], t, q.v + q.h);
        lemma_quad_spans_rect(g, qs, d, p, u0, wu, v0, hv, m);
        assert(covers_uv(qs[m], q.u as int, q.v as int));
        let c = cell_at(d, p, q.u as int, q.v as int);
        assert(quad_covers(qs[m], c.0, c.1, c.2));
        assert(quad_covers(qs[n], c.0, c.1, c.2));
        assert(false);
    }
}

/// When the exposed faces of one plane form a full rectangle, the greedy
/// mesh holds exactly one quad in that plane, spanning the rectangle.
pub proof fn lemma_rect_merges_into_one_quad(
    g: &VoxelGrid,
    qs: Seq<Quad>,
    d: FaceDir,
    p: int,
    u0: int,
    wu: int,
    v0: int,
    hv: int,
)
    requires
        mesh_quads_ok(g, qs),
        wu >= 1,
        hv >= 1,
        forall|a: int, b: int|
            #[trigger] exposed_uv(g, d, p, a, b)
                <==> (u0 <= a < u0 + wu && v0 <= b < v0 + hv),
    ensures
        exists|n: int|
            0 <= n < qs.len() && (#[trigger] qs[n]).dir == d && qs[n].p == p && qs[n].u == u0
                && qs[n].w == wu && qs[n].v == v0 && qs[n].h == hv,
        forall|n1: int, n2: int|
            0 <= n1 < qs.len() && 0 <= n2 < qs.len() && (#[trigger] qs[n1]).dir == d
                && qs[n1].p == p && (#[trigger] qs[n2]).dir == d && qs[n2].p == p
                ==> n1 == n2,
{
    assert(exposed_uv(g, d, p, u0, v0));
    let c0 = cell_at(d, p, u0, v0);
    assert(face_exposed(g, d, c0.0, c0.1, c0.2));
    let n = choose|n: int|
        0 <= n < qs.len() && (#[trigger] qs[n]).dir == d && quad_covers(qs[n], c0.0, c0.1, c0.2);
    assert(qs[n].p == p);
    lemma_quad_spans_rect(g, qs, d, p, u0, wu, v0, hv, n);
    assert forall|n1: int, n2: int|
        0 <= n1 < qs.len() && 0 <= n2 < qs.len() && (#[trigger] qs[n1]).dir == d
            && qs[n1].p == p && (#[trigger] qs[n2]).dir == d && qs[n2].p == p
        implies n1 == n2 by {
        if n1 != n2 {
            lemma_quad_spans_rect(g, qs, d, p, u0, wu, v0, hv, n1);
            lemma_quad_spans_rect(g, qs, d, p, u0, wu, v0, hv, n2);
            assert(covers_uv(qs[n1], u0, v0));
            assert(covers_uv(qs[n2], u0, v0));
            assert(quad_covers(qs[n1], c0.0, c0.1, c0.2));
            assert(quad_covers(qs[n2], c0.0, c0.1, c0.2));
        }
    }
}

/// For a volume whose solid voxels form exactly one axis-aligned box,
/// each direction's mesh is a single quad spanning the box's whole face
/// toward the direction.
pub proof fn lemma_solid_box_face(
    g: &VoxelGrid,
    qs: Seq<Quad>,
    x0: int,
    x1: int,
    y0: int,
    y1: int,
    z0: int,
    z1: int,
    d: FaceDir,
)
    requires
        mesh_quads_ok(g, qs),
        1 <= x0 <= x1 < g.sx() - 1,
        1 <= y0 <= y1 < g.sy() - 1,
        1 <= z0 <= z1 < g.sz() - 1,
        forall|a: int, b: int, c: int|
            0 <= a < g.sx() && 0 <= b < g.sy() && 0 <= c < g.sz()
                ==> (#[trigger] g.voxel(a, b, c)
                    <==> (x0 <= a <= x1 && y0 <= b <= y1 && z0 <= c <= z1)),
    ensures
        exists|n: int|
            0 <= n < qs.len() && (#[trigger] qs[n]).dir == d
                && qs[n].p == (if is_pos(d) {
                    plane_coord(d, x1, y1, z1)
                } else {
                    plane_coord(d, x0, y0, z0)
                })
                && qs[n].u == u_coord(d, x0, y0, z0)
                && qs[n].u + qs[n].w == u_coord(d, x1, y1, z1) + 1
                && qs[n].v == v_coord(d, x0, y0, z0)
                && qs[n].v + qs[n].h == v_coord(d, x1, y1, z1) + 1,
        forall|n1: int, n2: int|
            0 <= n1 < qs.len() && 0 <= n2 < qs.len() && (#[trigger] qs[n1]).dir == d
                && (#[trigger] qs[n2]).dir == d
                ==> n1 == n2,
{
    let p = if is_pos(d) {
        plane_coord(d, x1, y1, z1)
    } else {
        plane_coord(d, x0, y0, z0)
    };
    let u0 = u_coord(d, x0, y0, z0);
    let u1 = u_coord(d, x1, y1, z1);
    let v0 = v_coord(d, x0, y0, z0);
    let v1 = v_coord(d, x1, y1, z1);
    // the box's face toward `d` is the plane's full exposed rectangle
    assert forall|a: int, b: int|
        #[trigger] exposed_uv(g, d, p, a, b)
            <==> (u0 <= a < u0 + (u1 - u0 + 1) && v0 <= b < v0 + (v1 - v0 + 1)) by {
        let c = cell_at(d, p, a, b);
        if exposed_uv(g, d, p, a, b) {
            assert(g.voxel(c.0, c.1, c.2));
            assert(!g.voxel(c.0 + d.nx(), c.1 + d.ny(), c.2 + d.nz()));
        }
        if u0 <= a <= u1 && v0 <= b <= v1 {
            assert(g.voxel(c.0, c.1, c.2));
            assert(!g.voxel(c.0 + d.nx(), c.1 + d.ny(), c.2 + d.nz()));
            assert(exposed_uv(g, d, p, a, b));
        }
    }
    lemma_rect_merges_into_one_quad(g, qs, d, p, u0, u1 - u0 + 1, v0, v1 - v0 + 1);
    // every quad of direction `d` lies in this plane: its corner covers an
    // exposed face, and the box exposes faces toward `d` only there
    assert forall|n: int|
        0 <= n < qs.len() && (#[trigger] qs[n]).dir == d implies qs[n].p == p by {
        let q = qs[n];
        assert(quad_wf(g, q));
        assert(covers_uv(q, q.u as int, q.v as int));
        let c = cell_at(d, q.p as int, q.u as int, q.v as int);
        assert(quad_covers(q, c.0, c.1, c.2));
        assert(face_exposed(g, d, c.0, c.1, c.2));
        assert(g.voxel(c.0, c.1, c.2));
        assert(!g.voxel(c.0 + d.nx(), c.1 + d.ny(), c.2 + d.nz()));
        assert(plane_coord(d, c.0, c.1, c.2) == q.p);
    }
}

/// Mesh closure: a volume whose solid voxels form exactly one axis-aligned
/// box meshes to exactly six quads, one per face direction, each spanning
/// the box's whole face — a closed cuboid. The fully solid degenerate maze
/// (nothing carved) is the slab or cube case of this law.
pub proof fn lemma_solid_box_closed(
    g: &VoxelGrid,
    qs: Seq<Quad>,
    x0: int,
    x1: int,
    y0: int,
    y1: int,
    z0: int,
    z1: int,
)
    requires
        mesh_quads_ok(g, qs),
        1 <= x0 <= x1 < g.sx() - 1,
        1 <= y0 <= y1 < g.sy() - 1,
        1 <= z0 <= z1 < g.sz() - 1,
        forall|a: int, b: int, c: int|
            0 <= a < g.sx() && 0 <= b < g.sy() && 0 <= c < g.sz()
                ==> (#[trigger] g.voxel(a, b, c)
                    <==> (x0 <= a <= x1 && y0 <= b <= y1 && z0 <= c <= z1)),
    ensures
        qs.len() == 6,
{
    lemma_solid_box_face(g, qs, x0, x1, y0, y1, z0, z1, FaceDir::XNeg);
    lemma_solid_box_face(g, qs, x0, x1, y0, y1, z0, z1, FaceDir::XPos);
    lemma_solid_box_face(g, qs, x0, x1, y0, y1, z0, z1, FaceDir::YNeg);
    lemma_solid_box_face(g, qs, x0, x1, y0, y1, z0, z1, FaceDir::YPos);
    lemma_solid_box_face(g, qs, x0, x1, y0, y1, z0, z1, FaceDir::ZNeg);
    lemma_solid_box_face(g, qs, x0, x1, y0, y1, z0, z1, FaceDir::ZPos);
    lemma_one_quad_per_direction_count(qs);
}

/// Componentwise difference of two integer vectors.
pub open spec fn vec_sub(a: (int, int, int), b: (int, int, int)) -> (int, int, int) {
    (a.0 - b.0, a.1 - b.1, a.2 - b.2)
}

/// Cross product of two integer vectors.
pub open spec fn vec_cross(a: (int, int, int), b: (int, int, int)) -> (int, int, int) {
    (a.1 * b.2 - a.2 * b.1, a.2 * b.0 - a.0 * b.2, a.0 * b.1 - a.1 * b.0)
}

/// Scale an integer vector.
pub open spec fn vec_scale(s: int, a: (int, int, int)) -> (int, int, int) {
    (s * a.0, s * a.1, s * a.2)
}

/// The triangle `t` (0 or 1) of quad `m`, as its three corner positions in
/// index order.
pub open spec fn triangle_of(qs: Seq<Quad>, b: &MeshBuffers, m: int, t: int) -> (
    (int, int, int),
    (int, int, int),
    (int, int, int),
) {
    (
        pos_entry(b.positions@, m, quad_index_pattern(qs[m].dir, 3 * t)),
        pos_entry(b.positions@, m, quad_index_pattern(qs[m].dir, 3 * t + 1)),
        pos_entry(b.positions@, m, quad_index_pattern(qs[m].dir, 3 * t + 2)),
    )
}

/// The emitted triangles face outward: for both triangles of every quad,
/// the cross product of the edge vectors taken in winding order equals
/// the quad's face normal scaled by `w*h`, which is twice each triangle's
/// area. The winding is therefore counterclockwise seen from the empty
/// side of the face, the side the normal points to.
pub proof fn lemma_triangles_face_outward(qs: Seq<Quad>, b: &MeshBuffers, m: int, t: int)
    requires
        buffers_match(qs, b),
        0 <= m < qs.len(),
        0 <= t < 2,
    ensures
        vec_cross(
            vec_sub(triangle_of(qs, b, m, t).1, triangle_of(qs, b, m, t).0),
            vec_sub(triangle_of(qs, b, m, t).2, triangle_of(qs, b, m, t).0),
        ) == vec_scale(
            qs[m].w * qs[m].h,
            (qs[m].dir.nx(), qs[m].dir.ny(), qs[m].dir.nz()),
        ),
{
    let q = qs[m];
    assert(pos_entry(b.positions@, m, 0) == quad_corner(q, 0));
    assert(pos_entry(b.positions@, m, 1) == quad_corner(q, 1));
    assert(pos_entry(b.positions@, m, 2) == quad_corner(q, 2));
    assert(pos_entry(b.positions@, m, 3) == quad_corner(q, 3));
    let c0 = quad_corner(q, 0);
    let c1 = quad_corner(q, 1);
    let c2 = quad_corner(q, 2);
    let c3 = quad_corner(q, 3);
    let w = q.w as int;
    let h = q.h as int;
    if winding_first(q.dir) {
        if t == 0 {
            assert(vec_cross(vec_sub(c1, c0), vec_sub(c2, c0))
                == vec_scale(w * h, (q.dir.nx(), q.dir.ny(), q.dir.nz()))) by (nonlinear_arith)
                requires
                    winding_first(q.dir),
                    c0 == quad_corner(q, 0) && c1 == quad_corner(q, 1)
                        && c2 == quad_corner(q, 2),
                    w == q.w && h == q.h;
        } else {
            assert(vec_cross(vec_sub(c1, c2), vec_sub(c3, c2))
                == vec_scale(w * h, (q.dir.nx(), q.dir.ny(), q.dir.nz()))) by (nonlinear_arith)
                requires
                    winding_first(q.dir),
                    c1 == quad_corner(q, 1) && c2 == quad_corner(q, 2)
                        && c3 == quad_corner(q, 3),
                    w == q.w && h == q.h;
        }
    } else {
        if t == 0 {
            assert(vec_cross(vec_sub(c2, c0), vec_sub(c1, c0))
                == vec_scale(w * h, (q.dir.nx(), q.dir.ny(), q.dir.nz()))) by (nonlinear_arith)
                requires
                    !winding_first(q.dir),
                    c0 == quad_corner(q, 0) && c1 == quad_corner(q, 1)
                        && c2 == quad_corner(q, 2),
                    w == q.w && h == q.h;
        } else {
            assert(vec_cross(vec_sub(c3, c2), vec_sub(c1, c2))
                == vec_scale(w * h, (q.dir.nx(), q.dir.ny(), q.dir.nz()))) by (nonlinear_arith)
                requires
                    !winding_first(q.dir),
                    c1 == quad_corner(q, 1) && c2 == quad_corner(q, 2)
                        && c3 == quad_corner(q, 3),
                    w == q.w && h == q.h;
        }
    }
}

/// Emission is a pure function of the quad list: any two buffer sets that
/// match the same quads are identical. Together with the voxelizers'
/// exact contracts, re-running voxelization and meshing on an unchanged
/// grid re-derives the same data.
pub proof fn lemma_buffers_determined(qs: Seq<Quad>, b1: &MeshBuffers, b2: &MeshBuffers)
    requires
        buffers_match(qs, b1),
        buffers_match(qs, b2),
    ensures
        b1.positions@ == b2.positions@,
        b1.normals@ == b2.normals@,
        b1.uvs@ == b2.uvs@,
        b1.indices@ == b2.indices@,
{
    assert forall|k: int| 0 <= k < 4 * qs.len()
        implies b1.positions@[k] == b2.positions@[k] && b1.normals@[k] == b2.normals@[k]
            && b1.uvs@[k] == b2.uvs@[k] by {
        let m = k / 4;
        let t = k % 4;
        vstd::arithmetic::div_mod::lemma_fundamental_div_mod(k, 4);
        vstd::arithmetic::div_mod::lemma_mod_division_less_than_divisor(k, 4);
        assert(0 <= m < qs.len());
        assert(pos_entry(b1.positions@, m, t) == quad_corner(qs[m], t));
        assert(pos_entry(b2.positions@, m, t) == quad_corner(qs[m], t));
        assert(norm_entry(b1.normals@, m, t) == norm_entry(b2.normals@, m, t));
        assert(uv_entry(b1.uvs@, m, t) == uv_entry(b2.uvs@, m, t));
    }
    assert forall|k: int| 0 <= k < 6 * qs.len()
        implies b1.indices@[k] == b2.indices@[k] by {
        let m = k / 6;
        let t = k % 6;
        vstd::arithmetic::div_mod::lemma_fundamental_div_mod(k, 6);
        vstd::arithmetic::div_mod::lemma_mod_division_less_than_divisor(k, 6);
        assert(0 <= m < qs.len());
        assert(idx_entry(b1.indices@, m, t) == idx_entry(b2.indices@, m, t));
    }
    assert(b1.positions@ =~= b2.positions@);
    assert(b1.normals@ =~= b2.normals@);
    assert(b1.uvs@ =~= b2.uvs@);
    assert(b1.indices@ =~= b2.indices@);
}

/// Every extent of a well-formed volume fits machine arithmetic.
proof fn lemma_extent_bound(g: &VoxelGrid, d: FaceDir)
    requires
        g.wf(),
    ensures
        extent_n(g, d) <= usize::MAX,
        extent_u(g, d) <= usize::MAX,
        extent_v(g, d) <= usize::MAX,
{
    g.lemma_wf_bounds();
    assert(g.sx() <= g.sx() * g.sy() * g.sz() && g.sy() <= g.sx() * g.sy() * g.sz()
        && g.sz() <= g.sx() * g.sy() * g.sz()) by (nonlinear_arith)
        requires g.sx() >= 1 && g.sy() >= 1 && g.sz() >= 1;
}

/// Greedy-mesh the volume and emit its render buffers: the quads tile the
/// exposed faces of each direction exactly once, and the buffers are the
/// quads' exact emission.
pub fn build_mesh(g: &VoxelGrid) -> (r: (Vec<Quad>, MeshBuffers))
    requires
        g.wf(),
        24 * (g.sx() * g.sy() * g.sz()) <= u32::MAX,
    ensures
        mesh_quads_ok(g, r.0@),
        buffers_match(r.0@, &r.1),
        r.0@.len() <= 6 * (g.sx() * g.sy() * g.sz()),
{
    let qs = greedy_quads(g);
    proof {
        assert forall|n: int| 0 <= n < qs@.len()
            implies (#[trigger] qs@[n]).u + qs@[n].w <= usize::MAX
                && qs@[n].v + qs@[n].h <= usize::MAX && qs@[n].p + 1 <= usize::MAX by {
            lemma_extent_bound(g, qs@[n].dir);
            assert(quad_wf(g, qs@[n]));
        }
    }
    let b = quads_to_buffers(&qs);
    (qs, b)
}

} // verus!
