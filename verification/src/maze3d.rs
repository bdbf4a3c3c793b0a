//! A perfect maze on a 3D grid of rooms, generated by a randomized
//! hunt-and-kill walk.
//!
//! Rooms live on a doubled-plus-one physical grid: the physical cell
//! `(2*i + 1, 2*j + 1, 2*k + 1)` is the room at logical `(i, j, k)`;
//! physical cells with exactly one even coordinate are walls that may be
//! carved to join two adjacent rooms; cells with two or three even
//! coordinates, and the outermost shell, are never carved.
//! `true` means solid (not walkable), `false` means carved.

use vstd::prelude::*;
use vstd::arithmetic::div_mod::lemma_fundamental_div_mod;
use vstd::arithmetic::div_mod::lemma_fundamental_div_mod_converse;
use vstd::arithmetic::div_mod::lemma_mod_division_less_than_divisor;
use vstd::set_lib::lemma_len_subset;
use vstd::set_lib::lemma_map_size;
use vstd::set_lib::lemma_int_range;
use vstd::set_lib::set_int_range;
use vstd::relations::injective_on;
use crate::direction::Direction3D;
use crate::MazeError;

verus! {

/// The set of integer triples inside an `a`-by-`b`-by-`c` box.
pub open spec fn grid_triples(a: int, b: int, c: int) -> Set<(int, int, int)> {
    Set::new(|p: (int, int, int)| 0 <= p.0 < a && 0 <= p.1 < b && 0 <= p.2 < c)
}

/// An `a`-by-`b`-by-`c` box holds exactly `a*b*c` triples.
pub proof fn lemma_grid_triples_len(a: int, b: int, c: int)
    requires
        a >= 0,
        b >= 0,
        c >= 0,
    ensures
        grid_triples(a, b, c).finite(),
        grid_triples(a, b, c).len() == a * b * c,
{
    if a == 0 || b == 0 || c == 0 {
        assert(grid_triples(a, b, c) =~= Set::<(int, int, int)>::empty());
        assert(a * b * c == 0) by (nonlinear_arith)
            requires a == 0 || b == 0 || c == 0;
    } else {
        let ab = a * b;
        assert(ab > 0 && ab * c > 0) by (nonlinear_arith)
            requires a > 0 && b > 0 && c > 0 && ab == a * b;
        let f = |r: int| ((r % ab) % a, (r % ab) / a, r / ab);
        let rng = set_int_range(0, ab * c);
        lemma_int_range(0, ab * c);
        assert(injective_on(f, rng)) by {
            assert forall|r1: int, r2: int|
                rng.contains(r1) && rng.contains(r2) && #[trigger] f(r1) == #[trigger] f(r2)
                implies r1 == r2 by {
                lemma_fundamental_div_mod(r1, ab);
                lemma_fundamental_div_mod(r2, ab);
                lemma_fundamental_div_mod(r1 % ab, a);
                lemma_fundamental_div_mod(r2 % ab, a);
            }
        }
        assert(rng.map(f) =~= grid_triples(a, b, c)) by {
            assert forall|p: (int, int, int)| rng.map(f).contains(p)
                implies grid_triples(a, b, c).contains(p) by {
                let r = choose|r: int| rng.contains(r) && f(r) == p;
                let s = r % ab;
                lemma_mod_division_less_than_divisor(r, ab);
                lemma_fundamental_div_mod(r, ab);
                lemma_mod_division_less_than_divisor(s, a);
                lemma_fundamental_div_mod(s, a);
                assert(s / a < b) by (nonlinear_arith)
                    requires a > 0 && b > 0 && 0 <= s < a * b && s == a * (s / a) + s % a
                        && s % a >= 0;
                assert(s / a >= 0) by (nonlinear_arith)
                    requires a > 0 && s >= 0 && s == a * (s / a) + s % a && s % a < a;
                assert(r / ab < c) by (nonlinear_arith)
                    requires ab > 0 && c > 0 && r < ab * c && r == ab * (r / ab) + r % ab
                        && r % ab >= 0;
                assert(r / ab >= 0) by (nonlinear_arith)
                    requires ab > 0 && r >= 0 && r == ab * (r / ab) + r % ab && r % ab < ab;
            }
            assert forall|p: (int, int, int)| grid_triples(a, b, c).contains(p)
                implies rng.map(f).contains(p) by {
                let s = p.1 * a + p.0;
                let r = p.2 * ab + s;
                assert(0 <= s < ab) by (nonlinear_arith)
                    requires a > 0 && b > 0 && ab == a * b && 0 <= p.0 < a && 0 <= p.1 < b
                        && s == p.1 * a + p.0;
                assert(0 <= r < ab * c) by (nonlinear_arith)
                    requires ab > 0 && c > 0 && 0 <= s < ab && 0 <= p.2 < c
                        && r == p.2 * ab + s;
                lemma_fundamental_div_mod_converse(r, ab, p.2, s);
                lemma_fundamental_div_mod_converse(s, a, p.1, p.0);
                assert(rng.contains(r) && f(r) == p);
            }
        }
        lemma_map_size(rng, grid_triples(a, b, c), f);
        assert(ab * c == a * b * c);
    }
}

/// A 3D maze: a dense boolean occupancy grid over the doubled physical
/// coordinate space, plus the logical room counts.
pub struct Maze3D {
    /// Flattened physical grid: cell `(x, y, z)` is at
    /// `(z*(2*height+1) + y) * (2*width+1) + x`.
    /// `true` = solid, `false` = carved.
    cells: Vec<bool>,
    /// Logical number of rooms along the x axis.
    width: usize,
    /// Logical number of rooms along the y axis.
    height: usize,
    /// Logical number of rooms along the z axis.
    depth: usize,
}

/// Two logical rooms share an edge of the room graph: they differ by one
/// in exactly one coordinate.
pub open spec fn adjacent3(i1: int, j1: int, k1: int, i2: int, j2: int, k2: int) -> bool {
    ||| (j1 == j2 && k1 == k2 && (i2 == i1 + 1 || i2 == i1 - 1))
    ||| (i1 == i2 && k1 == k2 && (j2 == j1 + 1 || j2 == j1 - 1))
    ||| (i1 == i2 && j1 == j2 && (k2 == k1 + 1 || k2 == k1 - 1))
}

impl Maze3D {
    /// Logical width (rooms along x).
    pub closed spec fn spec_width(&self) -> int {
        self.width as int
    }

    /// Logical height (rooms along y).
    pub closed spec fn spec_height(&self) -> int {
        self.height as int
    }

    /// Logical depth (rooms along z).
    pub closed spec fn spec_depth(&self) -> int {
        self.depth as int
    }

    /// Physical grid extent along x.
    pub open spec fn pw(&self) -> int {
        2 * self.spec_width() + 1
    }

    /// Physical grid extent along y.
    pub open spec fn ph(&self) -> int {
        2 * self.spec_height() + 1
    }

    /// Physical grid extent along z.
    pub open spec fn pd(&self) -> int {
        2 * self.spec_depth() + 1
    }

    /// The physical cell at `(x, y, z)`: `true` = solid, `false` = carved.
    pub closed spec fn cell(&self, x: int, y: int, z: int) -> bool {
        self.cells@[(z * self.ph() + y) * self.pw() + x]
    }

    /// The grid is well-formed: positive room counts, and the occupancy
    /// array covers exactly the physical coordinate space.
    pub closed spec fn wf(&self) -> bool {
        &&& 1 <= self.width
        &&& 1 <= self.height
        &&& 1 <= self.depth
        &&& self.pw() * self.ph() * self.pd() <= usize::MAX
        &&& self.cells@.len() == self.pw() * self.ph() * self.pd()
    }

    /// `(i, j, k)` is a logical room coordinate.
    pub open spec fn valid_room(&self, i: int, j: int, k: int) -> bool {
        0 <= i < self.spec_width() && 0 <= j < self.spec_height() && 0 <= k < self.spec_depth()
    }

    /// The room at logical `(i, j, k)` has been carved (is walkable).
    pub open spec fn room_carved(&self, i: int, j: int, k: int) -> bool {
        !self.cell(2 * i + 1, 2 * j + 1, 2 * k + 1)
    }

    /// The wall between two adjacent rooms has been carved.
    pub open spec fn passage_open(
        &self, i1: int, j1: int, k1: int, i2: int, j2: int, k2: int,
    ) -> bool {
        !self.cell(i1 + i2 + 1, j1 + j2 + 1, k1 + k2 + 1)
    }

    /// Boundary cells, and cells with at most one odd physical coordinate,
    /// are solid: no carve ever targets a coordinate outside
    /// `[1, 2*dim - 1]`, nor an edge or corner cell of the lattice.
    pub open spec fn structure_ok(&self) -> bool {
        &&& forall|x: int, y: int, z: int|
            0 <= x < self.pw() && 0 <= y < self.ph() && 0 <= z < self.pd()
                && (x == 0 || y == 0 || z == 0
                    || x == self.pw() - 1 || y == self.ph() - 1 || z == self.pd() - 1)
                ==> #[trigger] self.cell(x, y, z)
        &&& forall|x: int, y: int, z: int|
            0 <= x < self.pw() && 0 <= y < self.ph() && 0 <= z < self.pd()
                && x % 2 + y % 2 + z % 2 <= 1
                ==> #[trigger] self.cell(x, y, z)
    }

    /// Every open passage joins two carved rooms.
    pub open spec fn walls_ok(&self) -> bool {
        forall|i1: int, j1: int, k1: int, i2: int, j2: int, k2: int|
            self.valid_room(i1, j1, k1) && self.valid_room(i2, j2, k2)
                && adjacent3(i1, j1, k1, i2, j2, k2)
                && #[trigger] self.passage_open(i1, j1, k1, i2, j2, k2)
                ==> self.room_carved(i1, j1, k1) && self.room_carved(i2, j2, k2)
    }

    /// `p` is a walk through carved rooms, each consecutive pair adjacent
    /// with the wall between them carved.
    pub open spec fn is_path(&self, p: Seq<(int, int, int)>) -> bool {
        &&& p.len() >= 1
        &&& forall|n: int| 0 <= n < p.len()
            ==> self.valid_room(#[trigger] p[n].0, p[n].1, p[n].2)
                && self.room_carved(p[n].0, p[n].1, p[n].2)
        &&& forall|n: int| 0 <= n < p.len() - 1
            ==> adjacent3(#[trigger] p[n].0, p[n].1, p[n].2, p[n + 1].0, p[n + 1].1, p[n + 1].2)
                && self.passage_open(p[n].0, p[n].1, p[n].2, p[n + 1].0, p[n + 1].1, p[n + 1].2)
    }

    /// The room at `(i, j, k)` is reachable from the start room `(0, 0, 0)`
    /// through carved passages.
    pub open spec fn reached(&self, i: int, j: int, k: int) -> bool {
        exists|p: Seq<(int, int, int)>|
            #[trigger] self.is_path(p) && p.first() == (0int, 0int, 0int) && p.last() == (i, j, k)
    }

    /// Every carved room is reachable from the start room.
    pub open spec fn carved_reached(&self) -> bool {
        forall|i: int, j: int, k: int|
            self.valid_room(i, j, k) && #[trigger] self.room_carved(i, j, k)
                ==> self.reached(i, j, k)
    }

    /// Every room of the maze is reachable from the start room: the carved
    /// graph is connected and spans all rooms.
    pub open spec fn connected(&self) -> bool {
        forall|i: int, j: int, k: int|
            self.valid_room(i, j, k) ==> #[trigger] self.reached(i, j, k)
    }

    /// The set of carved logical rooms.
    pub open spec fn carved_rooms(&self) -> Set<(int, int, int)> {
        Set::new(
            |p: (int, int, int)| self.valid_room(p.0, p.1, p.2) && self.room_carved(p.0, p.1, p.2),
        )
    }

    /// The set of carved wall cells, by physical coordinate.
    pub open spec fn carved_walls(&self) -> Set<(int, int, int)> {
        Set::new(
            |p: (int, int, int)|
                0 <= p.0 < self.pw() && 0 <= p.1 < self.ph() && 0 <= p.2 < self.pd()
                    && p.0 % 2 + p.1 % 2 + p.2 % 2 == 2 && !self.cell(p.0, p.1, p.2),
        )
    }

    /// The carved graph has exactly one more room than carved walls
    /// (with connectivity: a spanning tree).
    pub open spec fn tree_count_ok(&self) -> bool {
        self.carved_rooms().len() == self.carved_walls().len() + 1
    }

    /// All generation invariants together.
    pub open spec fn inv(&self) -> bool {
        &&& self.wf()
        &&& self.structure_ok()
        &&& self.walls_ok()
        &&& self.carved_reached()
        &&& self.tree_count_ok()
    }

    /// Every room has been carved.
    pub open spec fn all_rooms_carved(&self) -> bool {
        forall|i: int, j: int, k: int|
            self.valid_room(i, j, k) ==> #[trigger] self.room_carved(i, j, k)
    }

    /// Same logical dimensions.
    pub open spec fn same_dims(&self, other: &Maze3D) -> bool {
        self.spec_width() == other.spec_width() && self.spec_height() == other.spec_height()
            && self.spec_depth() == other.spec_depth()
    }

    /// `g2` carves at least what `g1` carves; nothing is ever un-carved.
    pub open spec fn carve_extends(g1: &Maze3D, g2: &Maze3D) -> bool {
        &&& g1.same_dims(g2)
        &&& forall|x: int, y: int, z: int|
            0 <= x < g1.pw() && 0 <= y < g1.ph() && 0 <= z < g1.pd()
                && !#[trigger] g1.cell(x, y, z)
                ==> !#[trigger] g2.cell(x, y, z)
    }

    /// Bounds a well-formed grid's dimensions give on machine arithmetic.
    pub proof fn lemma_wf_bounds(&self)
        requires
            self.wf(),
        ensures
            1 <= self.spec_width(),
            1 <= self.spec_height(),
            1 <= self.spec_depth(),
            self.pw() * self.ph() * self.pd() <= usize::MAX,
    {
    }

    /// Both carved sets are finite (they live inside a finite grid).
    pub proof fn lemma_sets_finite(&self)
        requires
            self.wf(),
        ensures
            self.carved_rooms().finite(),
            self.carved_rooms().len()
                <= self.spec_width() * self.spec_height() * self.spec_depth(),
            self.carved_walls().finite(),
            grid_triples(self.spec_width(), self.spec_height(), self.spec_depth()).finite(),
            grid_triples(self.spec_width(), self.spec_height(), self.spec_depth()).len()
                == self.spec_width() * self.spec_height() * self.spec_depth(),
    {
        lemma_grid_triples_len(self.spec_width(), self.spec_height(), self.spec_depth());
        lemma_len_subset(
            self.carved_rooms(),
            grid_triples(self.spec_width(), self.spec_height(), self.spec_depth()),
        );
        lemma_grid_triples_len(self.pw(), self.ph(), self.pd());
        lemma_len_subset(self.carved_walls(), grid_triples(self.pw(), self.ph(), self.pd()));
    }

    /// Logical width (rooms along x).
    pub fn width(&self) -> (w: usize)
        ensures
            w as int == self.spec_width(),
    {
        self.width
    }

    /// Logical height (rooms along y).
    pub fn height(&self) -> (h: usize)
        ensures
            h as int == self.spec_height(),
    {
        self.height
    }

    /// Logical depth (rooms along z).
    pub fn depth(&self) -> (d: usize)
        ensures
            d as int == self.spec_depth(),
    {
        self.depth
    }

    /// Whether the physical cell at `(x, y, z)` is solid.
    pub fn is_solid(&self, x: usize, y: usize, z: usize) -> (r: bool)
        requires
            self.wf(),
            x < self.pw(),
            y < self.ph(),
            z < self.pd(),
        ensures
            r == self.cell(x as int, y as int, z as int),
    {
        proof {
            self.lemma_index_in_bounds(x as int, y as int, z as int);
        }
        self.cells[(z * (2 * self.height + 1) + y) * (2 * self.width + 1) + x]
    }

    /// The flat index of an in-range physical cell is in range.
    proof fn lemma_index_in_bounds(&self, x: int, y: int, z: int)
        requires
            self.wf(),
            0 <= x < self.pw(),
            0 <= y < self.ph(),
            0 <= z < self.pd(),
        ensures
            0 <= (z * self.ph() + y) * self.pw() + x < self.cells@.len(),
            z * self.ph() + y < self.ph() * self.pd(),
            self.pw() <= self.cells@.len(),
            self.ph() <= self.cells@.len(),
            self.pd() <= self.cells@.len(),
            self.ph() * self.pd() <= self.cells@.len(),
    {
        let pw = self.pw();
        let ph = self.ph();
        let pd = self.pd();
        assert(0 <= z * ph + y < ph * pd) by (nonlinear_arith)
            requires ph > 0 && pd > 0 && 0 <= y < ph && 0 <= z < pd;
        assert((z * ph + y) * pw + x < pw * ph * pd && pw <= pw * ph * pd
            && ph <= pw * ph * pd && pd <= pw * ph * pd && ph * pd <= pw * ph * pd)
            by (nonlinear_arith)
            requires
                pw > 0 && ph > 0 && pd > 0 && 0 <= x < pw && 0 <= z * ph + y < ph * pd;
        assert((z * self.ph() + y) * self.pw() + x >= 0) by (nonlinear_arith)
            requires self.pw() > 0 && 0 <= x && 0 <= z * self.ph() + y;
    }

    /// Distinct in-range physical coordinates have distinct flat indices.
    proof fn lemma_index_injective(
        &self, x1: int, y1: int, z1: int, x2: int, y2: int, z2: int,
    )
        requires
            self.wf(),
            0 <= x1 < self.pw(),
            0 <= y1 < self.ph(),
            0 <= z1 < self.pd(),
            0 <= x2 < self.pw(),
            0 <= y2 < self.ph(),
            0 <= z2 < self.pd(),
            !(x1 == x2 && y1 == y2 && z1 == z2),
        ensures
            (z1 * self.ph() + y1) * self.pw() + x1 != (z2 * self.ph() + y2) * self.pw() + x2,
    {
        let pw = self.pw();
        let ph = self.ph();
        let r1 = z1 * ph + y1;
        let r2 = z2 * ph + y2;
        assert(!(y1 == y2 && z1 == z2) ==> r1 != r2) by (nonlinear_arith)
            requires
                ph > 0 && 0 <= y1 < ph && 0 <= y2 < ph && r1 == z1 * ph + y1
                    && r2 == z2 * ph + y2;
        assert(r1 * pw + x1 != r2 * pw + x2) by (nonlinear_arith)
            requires
                pw > 0 && 0 <= x1 < pw && 0 <= x2 < pw && !(x1 == x2 && r1 == r2);
    }

    /// Carve the physical cell at `(x, y, z)`: set it to walkable.
    fn carve(&mut self, x: usize, y: usize, z: usize)
        requires
            old(self).wf(),
            x < old(self).pw(),
            y < old(self).ph(),
            z < old(self).pd(),
        ensures
            final(self).wf(),
            final(self).same_dims(old(self)),
            !final(self).cell(x as int, y as int, z as int),
            forall|a: int, b: int, c: int|
                0 <= a < old(self).pw() && 0 <= b < old(self).ph() && 0 <= c < old(self).pd()
                    && !(a == x && b == y && c == z)
                    ==> #[trigger] final(self).cell(a, b, c) == old(self).cell(a, b, c),
    {
        proof {
            self.lemma_index_in_bounds(x as int, y as int, z as int);
        }
        let i = (z * (2 * self.height + 1) + y) * (2 * self.width + 1) + x;
        self.cells[i] = false;
        proof {
            assert forall|a: int, b: int, c: int|
                0 <= a < old(self).pw() && 0 <= b < old(self).ph() && 0 <= c < old(self).pd()
                    && !(a == x && b == y && c == z)
                implies #[trigger] self.cell(a, b, c) == old(self).cell(a, b, c) by {
                old(self).lemma_index_injective(a, b, c, x as int, y as int, z as int);
                old(self).lemma_index_in_bounds(a, b, c);
            }
        }
    }

    /// A path through carved rooms stays a path when more cells are carved.
    proof fn lemma_path_preserved(g1: &Maze3D, g2: &Maze3D, p: Seq<(int, int, int)>)
        requires
            g1.wf(),
            g2.wf(),
            Maze3D::carve_extends(g1, g2),
            g1.is_path(p),
        ensures
            g2.is_path(p),
    {
        assert forall|n: int| 0 <= n < p.len()
            implies g2.valid_room(#[trigger] p[n].0, p[n].1, p[n].2)
                && g2.room_carved(p[n].0, p[n].1, p[n].2) by {
            assert(g1.valid_room(p[n].0, p[n].1, p[n].2)
                && g1.room_carved(p[n].0, p[n].1, p[n].2));
        }
        assert forall|n: int| 0 <= n < p.len() - 1
            implies adjacent3(
                #[trigger] p[n].0, p[n].1, p[n].2, p[n + 1].0, p[n + 1].1, p[n + 1].2,
            ) && g2.passage_open(p[n].0, p[n].1, p[n].2, p[n + 1].0, p[n + 1].1, p[n + 1].2) by {
            assert(adjacent3(p[n].0, p[n].1, p[n].2, p[n + 1].0, p[n + 1].1, p[n + 1].2)
                && g1.passage_open(p[n].0, p[n].1, p[n].2, p[n + 1].0, p[n + 1].1, p[n + 1].2));
            assert(g1.valid_room(p[n].0, p[n].1, p[n].2)
                && g1.valid_room(p[n + 1].0, p[n + 1].1, p[n + 1].2));
        }
    }

    /// Reachability from the start is preserved when more cells are carved.
    proof fn lemma_reached_preserved(g1: &Maze3D, g2: &Maze3D, i: int, j: int, k: int)
        requires
            g1.wf(),
            g2.wf(),
            Maze3D::carve_extends(g1, g2),
            g1.reached(i, j, k),
        ensures
            g2.reached(i, j, k),
    {
        let p = choose|p: Seq<(int, int, int)>|
            #[trigger] g1.is_path(p) && p.first() == (0int, 0int, 0int) && p.last() == (i, j, k);
        Self::lemma_path_preserved(g1, g2, p);
    }

    /// If no new room was carved, every carved room stays reachable.
    proof fn lemma_carved_reached_preserved(g1: &Maze3D, g2: &Maze3D)
        requires
            g1.wf(),
            g2.wf(),
            Maze3D::carve_extends(g1, g2),
            g1.carved_reached(),
            forall|i: int, j: int, k: int|
                g2.valid_room(i, j, k) && #[trigger] g2.room_carved(i, j, k)
                    ==> g1.room_carved(i, j, k),
        ensures
            g2.carved_reached(),
    {
        assert forall|i: int, j: int, k: int|
            g2.valid_room(i, j, k) && #[trigger] g2.room_carved(i, j, k)
            implies g2.reached(i, j, k) by {
            Self::lemma_reached_preserved(g1, g2, i, j, k);
        }
    }

    /// A reachable room extends reachability to a carved neighbor whose
    /// connecting wall is open.
    proof fn lemma_reached_step(g: &Maze3D, c: (int, int, int), a: (int, int, int))
        requires
            g.wf(),
            g.reached(c.0, c.1, c.2),
            g.valid_room(a.0, a.1, a.2),
            adjacent3(a.0, a.1, a.2, c.0, c.1, c.2),
            g.room_carved(a.0, a.1, a.2),
            g.passage_open(a.0, a.1, a.2, c.0, c.1, c.2),
        ensures
            g.reached(a.0, a.1, a.2),
    {
        let p = choose|p: Seq<(int, int, int)>|
            #[trigger] g.is_path(p) && p.first() == (0int, 0int, 0int)
                && p.last() == (c.0, c.1, c.2);
        let p2 = p.push(a);
        assert(g.is_path(p2)) by {
            assert(forall|n: int| 0 <= n < p.len() ==> p2[n] == #[trigger] p[n]);
            assert(p2[p2.len() - 1] == a);
            assert(p2[p2.len() - 2] == p.last());
        }
        assert(p2.first() == (0int, 0int, 0int) && p2.last() == a);
    }

    /// Carve the wall between the solid room `a` and the already carved
    /// adjacent room `c`, then carve the room `a` itself. This is the one
    /// carving step of both generation phases; it adds one leaf to the
    /// carved spanning tree.
    #[verifier::rlimit(100)]
    fn carve_link(&mut self, ai: usize, aj: usize, ak: usize, ci: usize, cj: usize, ck: usize)
        requires
            old(self).inv(),
            old(self).valid_room(ai as int, aj as int, ak as int),
            old(self).valid_room(ci as int, cj as int, ck as int),
            adjacent3(ai as int, aj as int, ak as int, ci as int, cj as int, ck as int),
            !old(self).room_carved(ai as int, aj as int, ak as int),
            old(self).room_carved(ci as int, cj as int, ck as int),
        ensures
            final(self).inv(),
            final(self).same_dims(old(self)),
            Maze3D::carve_extends(old(self), final(self)),
            final(self).room_carved(ai as int, aj as int, ak as int),
            forall|i: int, j: int, k: int|
                old(self).valid_room(i, j, k) && !(i == ai && j == aj && k == ak)
                    ==> #[trigger] final(self).room_carved(i, j, k)
                        == old(self).room_carved(i, j, k),
    {
        proof {
            self.lemma_index_in_bounds(0, 0, 0);
        }
        let wx = ai + ci + 1;
        let wy = aj + cj + 1;
        let wz = ak + ck + 1;
        let ghost g0 = *self;
        let ghost wxi = wx as int;
        let ghost wyi = wy as int;
        let ghost wzi = wz as int;
        proof {
            assert(1 <= wxi <= g0.pw() - 2 && 1 <= wyi <= g0.ph() - 2 && 1 <= wzi <= g0.pd() - 2);
            assert(wxi % 2 + wyi % 2 + wzi % 2 == 2);
            assert(g0.cell(wxi, wyi, wzi)) by {
                if !g0.cell(wxi, wyi, wzi) {
                    assert(g0.passage_open(
                        ai as int, aj as int, ak as int, ci as int, cj as int, ck as int,
                    ));
                }
            }
        }
        self.carve(wx, wy, wz);
        let ghost g1 = *self;
        proof {
            assert forall|i: int, j: int, k: int| g1.valid_room(i, j, k)
                implies #[trigger] g1.room_carved(i, j, k) == g0.room_carved(i, j, k) by {
                assert(2 * i + 1 != wxi || 2 * j + 1 != wyi || 2 * k + 1 != wzi);
            }
            assert(g1.carved_rooms() =~= g0.carved_rooms());
            assert(g1.carved_walls() =~= g0.carved_walls().insert((wxi, wyi, wzi)));
            g0.lemma_sets_finite();
            vstd::set::axiom_set_insert_len(g0.carved_walls(), (wxi, wyi, wzi));
            assert(g1.carved_walls().len() == g0.carved_walls().len() + 1);
            assert(Maze3D::carve_extends(&g0, &g1));
            Self::lemma_carved_reached_preserved(&g0, &g1);
        }
        let rx = 2 * ai + 1;
        let ry = 2 * aj + 1;
        let rz = 2 * ak + 1;
        self.carve(rx, ry, rz);
        let ghost g2 = *self;
        proof {
            let a0 = ai as int;
            let a1 = aj as int;
            let a2 = ak as int;
            let c0 = ci as int;
            let c1 = cj as int;
            let c2 = ck as int;
            assert(Maze3D::carve_extends(&g1, &g2));
            assert(Maze3D::carve_extends(&g0, &g2));
            // the room carve touches no wall cell
            assert(g2.carved_walls() =~= g1.carved_walls()) by {
                assert forall|p: (int, int, int)| #![all_triggers]
                    0 <= p.0 < g1.pw() && 0 <= p.1 < g1.ph() && 0 <= p.2 < g1.pd()
                        && p.0 % 2 + p.1 % 2 + p.2 % 2 == 2
                    implies g2.cell(p.0, p.1, p.2) == g1.cell(p.0, p.1, p.2) by {
                    assert(!(p.0 == 2 * a0 + 1 && p.1 == 2 * a1 + 1 && p.2 == 2 * a2 + 1));
                }
            }
            // exactly the room `a` is newly carved
            assert forall|i: int, j: int, k: int|
                g2.valid_room(i, j, k) && !(i == a0 && j == a1 && k == a2)
                implies #[trigger] g2.room_carved(i, j, k) == g1.room_carved(i, j, k) by {
                assert(2 * i + 1 != 2 * a0 + 1 || 2 * j + 1 != 2 * a1 + 1
                    || 2 * k + 1 != 2 * a2 + 1);
            }
            assert(g2.carved_rooms() =~= g1.carved_rooms().insert((a0, a1, a2)));
            g1.lemma_sets_finite();
            vstd::set::axiom_set_insert_len(g1.carved_rooms(), (a0, a1, a2));
            assert(!g1.carved_rooms().contains((a0, a1, a2)));
            assert(g2.tree_count_ok());
            // structure: both carved cells are interior cells with at least
            // two odd coordinates
            assert(g2.structure_ok()) by {
                assert forall|x: int, y: int, z: int|
                    0 <= x < g2.pw() && 0 <= y < g2.ph() && 0 <= z < g2.pd()
                        && (x == 0 || y == 0 || z == 0
                            || x == g2.pw() - 1 || y == g2.ph() - 1 || z == g2.pd() - 1
                            || x % 2 + y % 2 + z % 2 <= 1)
                    implies #[trigger] g2.cell(x, y, z) by {
                    assert(!(x == wxi && y == wyi && z == wzi));
                    assert(!(x == 2 * a0 + 1 && y == 2 * a1 + 1 && z == 2 * a2 + 1));
                    assert(g0.cell(x, y, z));
                }
            }
            // connectivity: old rooms keep their paths; the new room hangs
            // off the carved neighbor through the newly opened wall
            assert(g2.carved_reached()) by {
                assert forall|i: int, j: int, k: int|
                    g2.valid_room(i, j, k) && #[trigger] g2.room_carved(i, j, k)
                    implies g2.reached(i, j, k) by {
                    if i == a0 && j == a1 && k == a2 {
                        assert(g1.room_carved(c0, c1, c2));
                        assert(g1.valid_room(c0, c1, c2));
                        assert(g1.reached(c0, c1, c2));
                        Self::lemma_reached_preserved(&g1, &g2, c0, c1, c2);
                        assert(g2.passage_open(a0, a1, a2, c0, c1, c2));
                        Self::lemma_reached_step(&g2, (c0, c1, c2), (a0, a1, a2));
                    } else {
                        Self::lemma_reached_preserved(&g1, &g2, i, j, k);
                    }
                }
            }
            // every open passage still joins two carved rooms
            assert(g2.walls_ok()) by {
                assert forall|i1: int, j1: int, k1: int, i2: int, j2: int, k2: int|
                    g2.valid_room(i1, j1, k1) && g2.valid_room(i2, j2, k2)
                        && adjacent3(i1, j1, k1, i2, j2, k2)
                        && #[trigger] g2.passage_open(i1, j1, k1, i2, j2, k2)
                    implies g2.room_carved(i1, j1, k1) && g2.room_carved(i2, j2, k2) by {
                    let mx = i1 + i2 + 1;
                    let my = j1 + j2 + 1;
                    let mz = k1 + k2 + 1;
                    if mx == wxi && my == wyi && mz == wzi {
                        // the wall cell determines its two rooms: this is
                        // the pair just linked
                        assert((i1 == a0 && j1 == a1 && k1 == a2
                                && i2 == c0 && j2 == c1 && k2 == c2)
                            || (i1 == c0 && j1 == c1 && k1 == c2
                                && i2 == a0 && j2 == a1 && k2 == a2));
                    } else {
                        assert(!(mx == 2 * a0 + 1 && my == 2 * a1 + 1 && mz == 2 * a2 + 1));
                        assert(g2.cell(mx, my, mz) == g0.cell(mx, my, mz));
                        assert(g0.passage_open(i1, j1, k1, i2, j2, k2));
                    }
                }
            }
        }
    }

    /// The number of rooms not yet carved.
    pub open spec fn uncarved_count(&self) -> nat {
        grid_triples(self.spec_width(), self.spec_height(), self.spec_depth()).difference(
            self.carved_rooms(),
        ).len()
    }

    /// A carved room stays carved when more cells are carved.
    proof fn lemma_room_monotone(g1: &Maze3D, g2: &Maze3D, i: int, j: int, k: int)
        requires
            g1.wf(),
            Maze3D::carve_extends(g1, g2),
            g1.valid_room(i, j, k),
            g1.room_carved(i, j, k),
        ensures
            g2.room_carved(i, j, k),
    {
        assert(!g1.cell(2 * i + 1, 2 * j + 1, 2 * k + 1));
    }

    /// Carving a previously solid room strictly shrinks the uncarved set.
    proof fn lemma_uncarved_decreases(g1: &Maze3D, g2: &Maze3D, ni: int, nj: int, nk: int)
        requires
            g1.wf(),
            g2.wf(),
            Maze3D::carve_extends(g1, g2),
            g1.valid_room(ni, nj, nk),
            !g1.room_carved(ni, nj, nk),
            g2.room_carved(ni, nj, nk),
        ensures
            g2.uncarved_count() < g1.uncarved_count(),
    {
        let all = grid_triples(g1.spec_width(), g1.spec_height(), g1.spec_depth());
        lemma_grid_triples_len(g1.spec_width(), g1.spec_height(), g1.spec_depth());
        let d1 = all.difference(g1.carved_rooms());
        let d2 = all.difference(g2.carved_rooms());
        lemma_len_subset(d1, all);
        assert forall|p: (int, int, int)| d2.contains(p)
            implies #[trigger] d1.remove((ni, nj, nk)).contains(p) by {
            if g1.room_carved(p.0, p.1, p.2) {
                Self::lemma_room_monotone(g1, g2, p.0, p.1, p.2);
            }
            assert(!(p.0 == ni && p.1 == nj && p.2 == nk));
        }
        assert(d1.contains((ni, nj, nk)));
        vstd::set::axiom_set_remove_len(d1, (ni, nj, nk));
        lemma_len_subset(d2, d1.remove((ni, nj, nk)));
    }

    /// Some in-bounds room next to `(i, j, k)` is still solid (unvisited).
    pub open spec fn has_uncarved_neighbor(&self, i: int, j: int, k: int) -> bool {
        exists|i2: int, j2: int, k2: int|
            self.valid_room(i2, j2, k2) && adjacent3(i, j, k, i2, j2, k2)
                && !#[trigger] self.room_carved(i2, j2, k2)
    }

    /// The direction `d` out of room `(i, j, k)` leads to an in-bounds,
    /// still solid neighboring room.
    spec fn eligible_solid(&self, i: int, j: int, k: int, d: Direction3D) -> bool {
        match d {
            Direction3D::Up => j > 0 && !self.room_carved(i, j - 1, k),
            Direction3D::Down => j < self.spec_height() - 1 && !self.room_carved(i, j + 1, k),
            Direction3D::Left => i > 0 && !self.room_carved(i - 1, j, k),
            Direction3D::Right => i < self.spec_width() - 1 && !self.room_carved(i + 1, j, k),
            Direction3D::In => k > 0 && !self.room_carved(i, j, k - 1),
            Direction3D::Out => k < self.spec_depth() - 1 && !self.room_carved(i, j, k + 1),
        }
    }

    /// One kill-phase step from the carved room `(i, j, k)`: draw a random
    /// direction order and take the first direction whose neighboring room
    /// is in bounds and still solid, carving the wall and that room; `None`
    /// only when no direction is eligible (the walk has hit a dead end,
    /// every in-bounds neighbor already carved).
    fn walk_step(&mut self, i: usize, j: usize, k: usize) -> (r: Option<(usize, usize, usize)>)
        requires
            old(self).inv(),
            old(self).valid_room(i as int, j as int, k as int),
            old(self).room_carved(i as int, j as int, k as int),
        ensures
            final(self).inv(),
            final(self).same_dims(old(self)),
            Maze3D::carve_extends(old(self), final(self)),
            match r {
                None => *final(self) == *old(self)
                    && !old(self).has_uncarved_neighbor(i as int, j as int, k as int),
                Some((ni, nj, nk)) => final(self).valid_room(ni as int, nj as int, nk as int)
                    && adjacent3(i as int, j as int, k as int, ni as int, nj as int, nk as int)
                    && !old(self).room_carved(ni as int, nj as int, nk as int)
                    && final(self).room_carved(ni as int, nj as int, nk as int),
            },
    {
        let ghost g0 = *self;
        proof {
            self.lemma_index_in_bounds(0, 0, 0);
        }
        let order = Direction3D::random_order();
        let mut m: usize = 0;
        while m < 6
            invariant
                *self == g0,
                g0 == *old(self),
                g0.inv(),
                g0.valid_room(i as int, j as int, k as int),
                g0.room_carved(i as int, j as int, k as int),
                g0.pw() <= usize::MAX,
                g0.ph() <= usize::MAX,
                g0.pd() <= usize::MAX,
                m <= 6,
                order@.len() == 6,
                forall|d: Direction3D| order@.contains(d),
                forall|n: int| 0 <= n < m
                    ==> !g0.eligible_solid(i as int, j as int, k as int, #[trigger] order@[n]),
            decreases 6 - m,
        {
            match order[m] {
                Direction3D::Up => {
                    if j > 0 && self.is_solid(2 * i + 1, 2 * (j - 1) + 1, 2 * k + 1) {
                        self.carve_link(i, j - 1, k, i, j, k);
                        return Some((i, j - 1, k));
                    }
                },
                Direction3D::Down => {
                    if j < self.height - 1 && self.is_solid(2 * i + 1, 2 * (j + 1) + 1, 2 * k + 1) {
                        self.carve_link(i, j + 1, k, i, j, k);
                        return Some((i, j + 1, k));
                    }
                },
                Direction3D::Left => {
                    if i > 0 && self.is_solid(2 * (i - 1) + 1, 2 * j + 1, 2 * k + 1) {
                        self.carve_link(i - 1, j, k, i, j, k);
                        return Some((i - 1, j, k));
                    }
                },
                Direction3D::Right => {
                    if i < self.width - 1 && self.is_solid(2 * (i + 1) + 1, 2 * j + 1, 2 * k + 1) {
                        self.carve_link(i + 1, j, k, i, j, k);
                        return Some((i + 1, j, k));
                    }
                },
                Direction3D::In => {
                    if k > 0 && self.is_solid(2 * i + 1, 2 * j + 1, 2 * (k - 1) + 1) {
                        self.carve_link(i, j, k - 1, i, j, k);
                        return Some((i, j, k - 1));
                    }
                },
                Direction3D::Out => {
                    if k < self.depth - 1 && self.is_solid(2 * i + 1, 2 * j + 1, 2 * (k + 1) + 1) {
                        self.carve_link(i, j, k + 1, i, j, k);
                        return Some((i, j, k + 1));
                    }
                },
            }
            m = m + 1;
        }
        proof {
            // every direction was tried and none led to a solid neighbor,
            // so every in-bounds neighbor is already carved
            assert(!g0.has_uncarved_neighbor(i as int, j as int, k as int)) by {
                if g0.has_uncarved_neighbor(i as int, j as int, k as int) {
                    let (i2, j2, k2) = choose|i2: int, j2: int, k2: int|
                        g0.valid_room(i2, j2, k2)
                            && adjacent3(i as int, j as int, k as int, i2, j2, k2)
                            && !#[trigger] g0.room_carved(i2, j2, k2);
                    let d2 = if j2 == j - 1 {
                        Direction3D::Up
                    } else if j2 == j + 1 {
                        Direction3D::Down
                    } else if i2 == i - 1 {
                        Direction3D::Left
                    } else if i2 == i + 1 {
                        Direction3D::Right
                    } else if k2 == k - 1 {
                        Direction3D::In
                    } else {
                        Direction3D::Out
                    };
                    assert(g0.eligible_solid(i as int, j as int, k as int, d2));
                    assert(order@.contains(d2));
                    let n = choose|n: int| 0 <= n < order@.len() && order@[n] == d2;
                    assert(!g0.eligible_solid(i as int, j as int, k as int, order@[n]));
                }
            }
        }
        None
    }

    /// The direction `d` out of room `(i, j, k)` leads to an in-bounds,
    /// already carved neighboring room.
    spec fn eligible_carved(&self, i: int, j: int, k: int, d: Direction3D) -> bool {
        match d {
            Direction3D::Up => j > 0 && self.room_carved(i, j - 1, k),
            Direction3D::Down => j < self.spec_height() - 1 && self.room_carved(i, j + 1, k),
            Direction3D::Left => i > 0 && self.room_carved(i - 1, j, k),
            Direction3D::Right => i < self.spec_width() - 1 && self.room_carved(i + 1, j, k),
            Direction3D::In => k > 0 && self.room_carved(i, j, k - 1),
            Direction3D::Out => k < self.spec_depth() - 1 && self.room_carved(i, j, k + 1),
        }
    }

    /// One hunt-phase carve at the solid room `(i, j, k)`: draw a random
    /// direction order and join `(i, j, k)` to the first already-visited
    /// neighbor found, carving the connecting wall and the room itself.
    fn hunt_step(&mut self, i: usize, j: usize, k: usize)
        requires
            old(self).inv(),
            old(self).valid_room(i as int, j as int, k as int),
            !old(self).room_carved(i as int, j as int, k as int),
            exists|i2: int, j2: int, k2: int|
                old(self).valid_room(i2, j2, k2)
                    && adjacent3(i as int, j as int, k as int, i2, j2, k2)
                    && #[trigger] old(self).room_carved(i2, j2, k2),
        ensures
            final(self).inv(),
            final(self).same_dims(old(self)),
            Maze3D::carve_extends(old(self), final(self)),
            final(self).room_carved(i as int, j as int, k as int),
    {
        let ghost g0 = *self;
        proof {
            self.lemma_index_in_bounds(0, 0, 0);
        }
        let order = Direction3D::random_order();
        let mut m: usize = 0;
        while m < 6
            invariant
                *self == g0,
                g0 == *old(self),
                g0.inv(),
                g0.valid_room(i as int, j as int, k as int),
                !g0.room_carved(i as int, j as int, k as int),
                g0.pw() <= usize::MAX,
                g0.ph() <= usize::MAX,
                g0.pd() <= usize::MAX,
                m <= 6,
                order@.len() == 6,
                forall|d: Direction3D| order@.contains(d),
                forall|n: int| 0 <= n < m
                    ==> !g0.eligible_carved(i as int, j as int, k as int, #[trigger] order@[n]),
            decreases 6 - m,
        {
            match order[m] {
                Direction3D::Up => {
                    if j > 0 && !self.is_solid(2 * i + 1, 2 * (j - 1) + 1, 2 * k + 1) {
                        self.carve_link(i, j, k, i, j - 1, k);
                        return;
                    }
                },
                Direction3D::Down => {
                    if j < self.height - 1
                        && !self.is_solid(2 * i + 1, 2 * (j + 1) + 1, 2 * k + 1) {
                        self.carve_link(i, j, k, i, j + 1, k);
                        return;
                    }
                },
                Direction3D::Left => {
                    if i > 0 && !self.is_solid(2 * (i - 1) + 1, 2 * j + 1, 2 * k + 1) {
                        self.carve_link(i, j, k, i - 1, j, k);
                        return;
                    }
                },
                Direction3D::Right => {
                    if i < self.width - 1
                        && !self.is_solid(2 * (i + 1) + 1, 2 * j + 1, 2 * k + 1) {
                        self.carve_link(i, j, k, i + 1, j, k);
                        return;
                    }
                },
                Direction3D::In => {
                    if k > 0 && !self.is_solid(2 * i + 1, 2 * j + 1, 2 * (k - 1) + 1) {
                        self.carve_link(i, j, k, i, j, k - 1);
                        return;
                    }
                },
                Direction3D::Out => {
                    if k < self.depth - 1
                        && !self.is_solid(2 * i + 1, 2 * j + 1, 2 * (k + 1) + 1) {
                        self.carve_link(i, j, k, i, j, k + 1);
                        return;
                    }
                },
            }
            m = m + 1;
        }
        proof {
            // a visited neighbor exists, so its direction was in the order
            // and would have been taken: this point is unreachable
            let (i2, j2, k2) = choose|i2: int, j2: int, k2: int|
                g0.valid_room(i2, j2, k2) && adjacent3(i as int, j as int, k as int, i2, j2, k2)
                    && #[trigger] g0.room_carved(i2, j2, k2);
            let d2 = if j2 == j - 1 {
                Direction3D::Up
            } else if j2 == j + 1 {
                Direction3D::Down
            } else if i2 == i - 1 {
                Direction3D::Left
            } else if i2 == i + 1 {
                Direction3D::Right
            } else if k2 == k - 1 {
                Direction3D::In
            } else {
                Direction3D::Out
            };
            assert(g0.eligible_carved(i as int, j as int, k as int, d2));
            assert(order@.contains(d2));
            let n = choose|n: int| 0 <= n < order@.len() && order@[n] == d2;
            assert(!g0.eligible_carved(i as int, j as int, k as int, order@[n]));
            assert(false);
        }
    }

    /// The kill phase: a random walk from the carved room `(i, j, k)` that
    /// repeatedly moves to (and carves) a random unvisited neighbor until
    /// it dead-ends. If any neighbor of the starting room is unvisited,
    /// the walk carves at least one room.
    fn random_walk(&mut self, i: usize, j: usize, k: usize)
        requires
            old(self).inv(),
            old(self).valid_room(i as int, j as int, k as int),
            old(self).room_carved(i as int, j as int, k as int),
        ensures
            final(self).inv(),
            final(self).same_dims(old(self)),
            Maze3D::carve_extends(old(self), final(self)),
            old(self).has_uncarved_neighbor(i as int, j as int, k as int)
                ==> final(self).uncarved_count() < old(self).uncarved_count(),
    {
        let ghost g0 = *self;
        let mut ci = i;
        let mut cj = j;
        let mut ck = k;
        loop
            invariant
                self.inv(),
                self.valid_room(ci as int, cj as int, ck as int),
                self.room_carved(ci as int, cj as int, ck as int),
                self.same_dims(&g0),
                Maze3D::carve_extends(&g0, self),
                self.uncarved_count() < g0.uncarved_count()
                    || (*self == g0 && ci == i && cj == j && ck == k),
            ensures
                self.inv(),
                self.same_dims(&g0),
                Maze3D::carve_extends(&g0, self),
                g0.has_uncarved_neighbor(i as int, j as int, k as int)
                    ==> self.uncarved_count() < g0.uncarved_count(),
            decreases self.uncarved_count(),
        {
            let ghost s1 = *self;
            match self.walk_step(ci, cj, ck) {
                Some((ni, nj, nk)) => {
                    proof {
                        Self::lemma_uncarved_decreases(&s1, self, ni as int, nj as int, nk as int);
                        assert forall|x: int, y: int, z: int|
                            0 <= x < g0.pw() && 0 <= y < g0.ph() && 0 <= z < g0.pd()
                                && !g0.cell(x, y, z)
                            implies !self.cell(x, y, z) by {
                            assert(!s1.cell(x, y, z));
                        }
                    }
                    ci = ni;
                    cj = nj;
                    ck = nk;
                },
                None => {
                    break;
                },
            }
        }
    }

    /// Generate a perfect maze with `width * height * depth` rooms by
    /// hunt-and-kill: a random walk carves unvisited rooms until it
    /// dead-ends, then a plane-major hunt joins the next unvisited room to
    /// the visited region and walks again, until no unvisited room remains.
    ///
    /// The result is a spanning tree over the rooms: every room is carved
    /// and reachable from the start room `(0, 0, 0)`, exactly `rooms - 1`
    /// walls are carved, and no carve ever touches the boundary shell or a
    /// lattice cell with two or more even coordinates. Zero dimensions are
    /// rejected.
    pub fn hunt_and_kill(width: usize, height: usize, depth: usize) -> (r: Result<
        Maze3D,
        MazeError,
    >)
        requires
            (2 * width + 1) * (2 * height + 1) * (2 * depth + 1) <= usize::MAX,
        ensures
            r is Err <==> (width == 0 || height == 0 || depth == 0),
            match r {
                Ok(m) => {
                    &&& m.wf()
                    &&& m.spec_width() == width
                    &&& m.spec_height() == height
                    &&& m.spec_depth() == depth
                    &&& m.structure_ok()
                    &&& m.walls_ok()
                    &&& m.all_rooms_carved()
                    &&& m.connected()
                    &&& m.carved_rooms().len() == width * height * depth
                    &&& m.carved_walls().len() == width * height * depth - 1
                },
                Err(e) => e == MazeError::ZeroDimension,
            },
    {
        if width == 0 || height == 0 || depth == 0 {
            return Err(MazeError::ZeroDimension);
        }
        let mut maze = Maze3D::solid_grid(width, height, depth);
        let ghost gs = maze;
        // carve the start room by hand; the first walk begins there
        maze.carve(1, 1, 1);
        proof {
            let g1 = maze;
            assert forall|i: int, j: int, k: int|
                g1.valid_room(i, j, k) && !(i == 0 && j == 0 && k == 0)
                implies #[trigger] g1.room_carved(i, j, k) == gs.room_carved(i, j, k) by {
                assert(2 * i + 1 != 1 || 2 * j + 1 != 1 || 2 * k + 1 != 1);
            }
            assert(g1.carved_rooms() =~= Set::empty().insert((0int, 0int, 0int)));
            broadcast use vstd::set::axiom_set_empty_len;
            broadcast use vstd::set::axiom_set_empty_finite;
            vstd::set::axiom_set_insert_len(Set::<(int, int, int)>::empty(), (0int, 0int, 0int));
            assert(g1.carved_walls() =~= Set::<(int, int, int)>::empty()) by {
                assert forall|p: (int, int, int)| #![all_triggers]
                    0 <= p.0 < g1.pw() && 0 <= p.1 < g1.ph() && 0 <= p.2 < g1.pd()
                        && p.0 % 2 + p.1 % 2 + p.2 % 2 == 2
                    implies g1.cell(p.0, p.1, p.2) by {
                    assert(!(p.0 == 1 && p.1 == 1 && p.2 == 1));
                }
            }
            assert(g1.tree_count_ok());
            let p0: Seq<(int, int, int)> = seq![(0int, 0int, 0int)];
            assert(g1.room_carved(0, 0, 0));
            assert(g1.is_path(p0));
            assert(g1.reached(0, 0, 0));
            assert(g1.carved_reached());
            assert(g1.walls_ok()) by {
                assert forall|i1: int, j1: int, k1: int, i2: int, j2: int, k2: int|
                    g1.valid_room(i1, j1, k1) && g1.valid_room(i2, j2, k2)
                        && adjacent3(i1, j1, k1, i2, j2, k2)
                    implies !#[trigger] g1.passage_open(i1, j1, k1, i2, j2, k2) by {
                    assert(!(i1 + i2 + 1 == 1 && j1 + j2 + 1 == 1 && k1 + k2 + 1 == 1));
                    assert(gs.cell(i1 + i2 + 1, j1 + j2 + 1, k1 + k2 + 1));
                }
            }
            assert(g1.structure_ok()) by {
                assert forall|x: int, y: int, z: int|
                    0 <= x < g1.pw() && 0 <= y < g1.ph() && 0 <= z < g1.pd()
                        && !(x == 1 && y == 1 && z == 1)
                    implies #[trigger] g1.cell(x, y, z) by {
                    assert(gs.cell(x, y, z));
                }
            }
        }
        maze.random_walk(0, 0, 0);
        let mut k: usize = 0;
        while k < depth
            invariant
                maze.inv(),
                maze.spec_width() == width,
                maze.spec_height() == height,
                maze.spec_depth() == depth,
                maze.room_carved(0, 0, 0),
                k <= depth,
                forall|i2: int, j2: int, k2: int|
                    maze.valid_room(i2, j2, k2) && k2 < k
                        ==> #[trigger] maze.room_carved(i2, j2, k2),
            decreases depth - k,
        {
            let mut j: usize = 0;
            while j < height
                invariant
                    maze.inv(),
                    maze.spec_width() == width,
                    maze.spec_height() == height,
                    maze.spec_depth() == depth,
                    maze.room_carved(0, 0, 0),
                    k < depth,
                    j <= height,
                    forall|i2: int, j2: int, k2: int|
                        maze.valid_room(i2, j2, k2) && (k2 < k || (k2 == k && j2 < j))
                            ==> #[trigger] maze.room_carved(i2, j2, k2),
                decreases height - j,
            {
                let mut i: usize = 0;
                while i < width
                    invariant
                        maze.inv(),
                        maze.spec_width() == width,
                        maze.spec_height() == height,
                        maze.spec_depth() == depth,
                        maze.room_carved(0, 0, 0),
                        k < depth,
                        j < height,
                        i <= width,
                        forall|i2: int, j2: int, k2: int|
                            maze.valid_room(i2, j2, k2)
                                && (k2 < k || (k2 == k && j2 < j)
                                    || (k2 == k && j2 == j && i2 < i))
                                ==> #[trigger] maze.room_carved(i2, j2, k2),
                    decreases width - i,
                {
                    let ghost gpre = maze;
                    proof {
                        maze.lemma_index_in_bounds(0, 0, 0);
                    }
                    if maze.is_solid(2 * i + 1, 2 * j + 1, 2 * k + 1) {
                        proof {
                            // some already scanned neighbor is carved
                            assert(!maze.room_carved(i as int, j as int, k as int));
                            if i > 0 {
                                assert(maze.room_carved(i as int - 1, j as int, k as int));
                                assert(adjacent3(
                                    i as int, j as int, k as int,
                                    i as int - 1, j as int, k as int,
                                ));
                            } else if j > 0 {
                                assert(maze.room_carved(i as int, j as int - 1, k as int));
                                assert(adjacent3(
                                    i as int, j as int, k as int,
                                    i as int, j as int - 1, k as int,
                                ));
                            } else {
                                assert(k > 0) by {
                                    assert(maze.room_carved(0, 0, 0));
                                }
                                assert(maze.room_carved(i as int, j as int, k as int - 1));
                                assert(adjacent3(
                                    i as int, j as int, k as int,
                                    i as int, j as int, k as int - 1,
                                ));
                            }
                        }
                        maze.hunt_step(i, j, k);
                        let ghost gmid = maze;
                        maze.random_walk(i, j, k);
                        proof {
                            Self::lemma_room_monotone(&gmid, &maze, i as int, j as int, k as int);
                            assert forall|x: int, y: int, z: int|
                                0 <= x < gpre.pw() && 0 <= y < gpre.ph() && 0 <= z < gpre.pd()
                                    && !gpre.cell(x, y, z)
                                implies !maze.cell(x, y, z) by {
                                assert(!gmid.cell(x, y, z));
                            }
                            assert(Maze3D::carve_extends(&gpre, &maze));
                        }
                    }
                    proof {
                        assert(Maze3D::carve_extends(&gpre, &maze));
                    }
                    i = i + 1;
                    proof {
                        assert forall|i2: int, j2: int, k2: int|
                            maze.valid_room(i2, j2, k2)
                                && (k2 < k || (k2 == k && j2 < j)
                                    || (k2 == k && j2 == j && i2 < i))
                            implies #[trigger] maze.room_carved(i2, j2, k2) by {
                            if k2 < k || (k2 == k && j2 < j) || (k2 == k && j2 == j && i2 < i - 1) {
                                Self::lemma_room_monotone(&gpre, &maze, i2, j2, k2);
                            }
                        }
                        Self::lemma_room_monotone(&gpre, &maze, 0, 0, 0);
                    }
                }
                j = j + 1;
            }
            k = k + 1;
        }
        proof {
            assert(maze.all_rooms_carved());
            assert(maze.connected()) by {
                assert forall|i: int, j2: int, k2: int| maze.valid_room(i, j2, k2)
                    implies #[trigger] maze.reached(i, j2, k2) by {
                    assert(maze.room_carved(i, j2, k2));
                }
            }
            maze.lemma_sets_finite();
            lemma_grid_triples_len(width as int, height as int, depth as int);
            assert(maze.carved_rooms() =~= grid_triples(width as int, height as int, depth as int));
        }
        Ok(maze)
    }

    /// A fully solid grid for the given logical dimensions.
    fn solid_grid(width: usize, height: usize, depth: usize) -> (m: Maze3D)
        requires
            1 <= width,
            1 <= height,
            1 <= depth,
            (2 * width + 1) * (2 * height + 1) * (2 * depth + 1) <= usize::MAX,
        ensures
            m.wf(),
            m.spec_width() == width,
            m.spec_height() == height,
            m.spec_depth() == depth,
            forall|x: int, y: int, z: int|
                0 <= x < m.pw() && 0 <= y < m.ph() && 0 <= z < m.pd()
                    ==> #[trigger] m.cell(x, y, z),
    {
        proof {
            assert(2 * width + 1 <= usize::MAX && 2 * height + 1 <= usize::MAX
                && 2 * depth + 1 <= usize::MAX
                && (2 * width + 1) * (2 * height + 1) <= usize::MAX) by (nonlinear_arith)
                requires
                    1 <= width,
                    1 <= height,
                    1 <= depth,
                    (2 * width + 1) * (2 * height + 1) * (2 * depth + 1) <= usize::MAX;
        }
        let pw = 2 * width + 1;
        let ph = 2 * height + 1;
        let pd = 2 * depth + 1;
        let n = pw * ph * pd;
        let mut cells: Vec<bool> = Vec::new();
        let mut t: usize = 0;
        while t < n
            invariant
                t <= n,
                cells@.len() == t,
                forall|q: int| 0 <= q < t ==> cells@[q],
            decreases n - t,
        {
            cells.push(true);
            t = t + 1;
        }
        let m = Maze3D { cells, width, height, depth };
        proof {
            assert forall|x: int, y: int, z: int|
                0 <= x < m.pw() && 0 <= y < m.ph() && 0 <= z < m.pd()
                implies #[trigger] m.cell(x, y, z) by {
                m.lemma_index_in_bounds(x, y, z);
            }
        }
        m
    }
}

} // verus!
