//! A perfect maze on a 2D grid of rooms, generated by a randomized
//! hunt-and-kill walk.
//!
//! Rooms live on a doubled-plus-one physical grid: the physical cell
//! `(2*i + 1, 2*j + 1)` is the room at logical `(i, j)`; physical cells with
//! exactly one odd coordinate are walls that may be carved to join two
//! adjacent rooms; cells with two even coordinates are pillars and the
//! outermost ring is the boundary, neither of which is ever carved.
//! `true` means solid (not walkable), `false` means carved.

use vstd::prelude::*;
use vstd::arithmetic::div_mod::lemma_fundamental_div_mod;
use vstd::arithmetic::div_mod::lemma_fundamental_div_mod_converse;
use vstd::arithmetic::div_mod::lemma_mod_division_less_than_divisor;
use vstd::set_lib::lemma_len_subset;
use vstd::set_lib::lemma_map_size;
use vstd::set_lib::lemma_int_range;
use vstd::set_lib::set_int_range;
use vstd::relations::injective_on;
use crate::direction::Direction2D;
use crate::MazeError;

verus! {

/// The set of integer pairs `(i, j)` with `0 <= i < a` and `0 <= j < b`.
pub open spec fn grid_pairs(a: int, b: int) -> Set<(int, int)> {
    Set::new(|p: (int, int)| 0 <= p.0 < a && 0 <= p.1 < b)
}

/// An `a`-by-`b` grid holds exactly `a*b` pairs.
pub proof fn lemma_grid_pairs_len(a: int, b: int)
    requires
        a >= 0,
        b >= 0,
    ensures
        grid_pairs(a, b).finite(),
        grid_pairs(a, b).len() == a * b,
{
    if a == 0 || b == 0 {
        assert(grid_pairs(a, b) =~= Set::<(int, int)>::empty());
        assert(a * b == 0);
    } else {
        let f = |r: int| (r % a, r / a);
        let rng = set_int_range(0, a * b);
        lemma_int_range(0, a * b);
        assert(a * b >= 0) by (nonlinear_arith)
            requires a >= 0 && b >= 0;
        assert(injective_on(f, rng)) by {
            assert forall|r1: int, r2: int|
                rng.contains(r1) && rng.contains(r2) && #[trigger] f(r1) == #[trigger] f(r2)
                implies r1 == r2 by {
                lemma_fundamental_div_mod(r1, a);
                lemma_fundamental_div_mod(r2, a);
            }
        }
        assert(rng.map(f) =~= grid_pairs(a, b)) by {
            assert forall|p: (int, int)| rng.map(f).contains(p)
                implies grid_pairs(a, b).contains(p) by {
                let r = choose|r: int| rng.contains(r) && f(r) == p;
                lemma_mod_division_less_than_divisor(r, a);
                lemma_fundamental_div_mod(r, a);
                assert(r / a < b) by (nonlinear_arith)
                    requires a > 0 && b > 0 && r < a * b && r == a * (r / a) + r % a && r % a >= 0;
                assert(r / a >= 0) by (nonlinear_arith)
                    requires a > 0 && r >= 0 && r == a * (r / a) + r % a && r % a < a;
            }
            assert forall|p: (int, int)| grid_pairs(a, b).contains(p)
                implies rng.map(f).contains(p) by {
                let r = p.1 * a + p.0;
                assert(0 <= r < a * b) by (nonlinear_arith)
                    requires a > 0 && b > 0 && 0 <= p.0 < a && 0 <= p.1 < b && r == p.1 * a + p.0;
                lemma_fundamental_div_mod_converse(r, a, p.1, p.0);
                assert(rng.contains(r) && f(r) == p);
            }
        }
        lemma_map_size(rng, grid_pairs(a, b), f);
    }
}

/// A 2D maze: a dense boolean occupancy grid over the doubled physical
/// coordinate space, plus the logical room counts.
pub struct Maze2D {
    /// Flattened row-major physical grid: cell `(x, y)` is at `y*(2*width+1) + x`.
    /// `true` = solid, `false` = carved.
    cells: Vec<bool>,
    /// Logical number of rooms along the x axis.
    width: usize,
    /// Logical number of rooms along the y axis.
    height: usize,
}

/// Two logical rooms share an edge of the room graph.
pub open spec fn adjacent(i1: int, j1: int, i2: int, j2: int) -> bool {
    (i1 == i2 && (j2 == j1 + 1 || j2 == j1 - 1)) || (j1 == j2 && (i2 == i1 + 1 || i2 == i1 - 1))
}

impl Maze2D {
    /// Logical width (rooms along x).
    pub closed spec fn spec_width(&self) -> int {
        self.width as int
    }

    /// Logical height (rooms along y).
    pub closed spec fn spec_height(&self) -> int {
        self.height as int
    }

    /// Physical grid width.
    pub open spec fn pw(&self) -> int {
        2 * self.spec_width() + 1
    }

    /// Physical grid height.
    pub open spec fn ph(&self) -> int {
        2 * self.spec_height() + 1
    }

    /// The physical cell at `(x, y)`: `true` = solid, `false` = carved.
    pub closed spec fn cell(&self, x: int, y: int) -> bool {
        self.cells@[y * self.pw() + x]
    }

    /// The grid is well-formed: positive room counts, and the occupancy
    /// array covers exactly the physical coordinate space.
    pub closed spec fn wf(&self) -> bool {
        &&& 1 <= self.width
        &&& 1 <= self.height
        &&& self.pw() * self.ph() <= usize::MAX
        &&& self.cells@.len() == self.pw() * self.ph()
    }

    /// `(i, j)` is a logical room coordinate.
    pub open spec fn valid_room(&self, i: int, j: int) -> bool {
        0 <= i < self.spec_width() && 0 <= j < self.spec_height()
    }

    /// The room at logical `(i, j)` has been carved (is walkable).
    pub open spec fn room_carved(&self, i: int, j: int) -> bool {
        !self.cell(2 * i + 1, 2 * j + 1)
    }

    /// The wall between two adjacent rooms has been carved.
    pub open spec fn passage_open(&self, i1: int, j1: int, i2: int, j2: int) -> bool {
        !self.cell(i1 + i2 + 1, j1 + j2 + 1)
    }

    /// Boundary cells and pillar cells (both physical coordinates even) are
    /// solid: no carve ever targets a physical coordinate outside
    /// `[1, 2*dim - 1]`, nor a pillar.
    pub open spec fn structure_ok(&self) -> bool {
        &&& forall|x: int, y: int|
            0 <= x < self.pw() && 0 <= y < self.ph()
                && (x == 0 || y == 0 || x == self.pw() - 1 || y == self.ph() - 1)
                ==> #[trigger] self.cell(x, y)
        &&& forall|x: int, y: int|
            0 <= x < self.pw() && 0 <= y < self.ph() && x % 2 == 0 && y % 2 == 0
                ==> #[trigger] self.cell(x, y)
    }

    /// Every open passage joins two carved rooms.
    pub open spec fn walls_ok(&self) -> bool {
        forall|i1: int, j1: int, i2: int, j2: int|
            self.valid_room(i1, j1) && self.valid_room(i2, j2) && adjacent(i1, j1, i2, j2)
                && #[trigger] self.passage_open(i1, j1, i2, j2)
                ==> self.room_carved(i1, j1) && self.room_carved(i2, j2)
    }

    /// `p` is a walk through carved rooms, each consecutive pair adjacent
    /// with the wall between them carved.
    pub open spec fn is_path(&self, p: Seq<(int, int)>) -> bool {
        &&& p.len() >= 1
        &&& forall|k: int| 0 <= k < p.len()
            ==> self.valid_room(#[trigger] p[k].0, p[k].1) && self.room_carved(p[k].0, p[k].1)
        &&& forall|k: int| 0 <= k < p.len() - 1
            ==> adjacent(#[trigger] p[k].0, p[k].1, p[k + 1].0, p[k + 1].1)
                && self.passage_open(p[k].0, p[k].1, p[k + 1].0, p[k + 1].1)
    }

    /// The room at `(i, j)` is reachable from the start room `(0, 0)`
    /// through carved passages.
    pub open spec fn reached(&self, i: int, j: int) -> bool {
        exists|p: Seq<(int, int)>|
            #[trigger] self.is_path(p) && p.first() == (0int, 0int) && p.last() == (i, j)
    }

    /// Every carved room is reachable from the start room.
    pub open spec fn carved_reached(&self) -> bool {
        forall|i: int, j: int|
            self.valid_room(i, j) && #[trigger] self.room_carved(i, j) ==> self.reached(i, j)
    }

    /// Every room of the maze is reachable from the start room: the carved
    /// graph is connected and spans all `width*height` rooms.
    pub open spec fn connected(&self) -> bool {
        forall|i: int, j: int| self.valid_room(i, j) ==> #[trigger] self.reached(i, j)
    }

    /// The set of carved logical rooms.
    pub open spec fn carved_rooms(&self) -> Set<(int, int)> {
        Set::new(|p: (int, int)| self.valid_room(p.0, p.1) && self.room_carved(p.0, p.1))
    }

    /// The set of carved wall cells, by physical coordinate.
    pub open spec fn carved_walls(&self) -> Set<(int, int)> {
        Set::new(
            |p: (int, int)|
                0 <= p.0 < self.pw() && 0 <= p.1 < self.ph()
                    && p.0 % 2 + p.1 % 2 == 1 && !self.cell(p.0, p.1),
        )
    }

    /// The carved graph has exactly one more room than carved walls
    /// (with connectivity: a spanning tree).
    pub open spec fn tree_count_ok(&self) -> bool {
        self.carved_rooms().len() == self.carved_walls().len() + 1
    }

    /// All generation invariants together.
    pub open spec fn inv(&self) -> bool {
        &&& self.wf()
        &&& self.structure_ok()
        &&& self.walls_ok()
        &&& self.carved_reached()
        &&& self.tree_count_ok()
    }

    /// Every room has been carved.
    pub open spec fn all_rooms_carved(&self) -> bool {
        forall|i: int, j: int|
            self.valid_room(i, j) ==> #[trigger] self.room_carved(i, j)
    }

    /// Same logical dimensions.
    pub open spec fn same_dims(&self, other: &Maze2D) -> bool {
        self.spec_width() == other.spec_width() && self.spec_height() == other.spec_height()
    }

    /// `g2` carves at least what `g1` carves; nothing is ever un-carved.
    pub open spec fn carve_extends(g1: &Maze2D, g2: &Maze2D) -> bool {
        &&& g1.same_dims(g2)
        &&& forall|x: int, y: int|
            0 <= x < g1.pw() && 0 <= y < g1.ph() && !#[trigger] g1.cell(x, y)
                ==> !#[trigger] g2.cell(x, y)
    }

    /// Bounds a well-formed grid's dimensions give on machine arithmetic.
    pub proof fn lemma_wf_bounds(&self)
        requires
            self.wf(),
        ensures
            1 <= self.spec_width(),
            1 <= self.spec_height(),
            self.pw() * self.ph() <= usize::MAX,
    {
    }

    /// Both carved sets are finite (they live inside a finite grid).
    pub proof fn lemma_sets_finite(&self)
        requires
            self.wf(),
        ensures
            self.carved_rooms().finite(),
            self.carved_rooms().len() <= self.spec_width() * self.spec_height(),
            self.carved_walls().finite(),
            grid_pairs(self.spec_width(), self.spec_height()).finite(),
            grid_pairs(self.spec_width(), self.spec_height()).len()
                == self.spec_width() * self.spec_height(),
    {
        lemma_grid_pairs_len(self.spec_width(), self.spec_height());
        lemma_len_subset(
            self.carved_rooms(),
            grid_pairs(self.spec_width(), self.spec_height()),
        );
        lemma_grid_pairs_len(self.pw(), self.ph());
        lemma_len_subset(self.carved_walls(), grid_pairs(self.pw(), self.ph()));
    }

    /// Logical width (rooms along x).
    pub fn width(&self) -> (w: usize)
        ensures
            w as int == self.spec_width(),
    {
        self.width
    }

    /// Logical height (rooms along y).
    pub fn height(&self) -> (h: usize)
        ensures
            h as int == self.spec_height(),
    {
        self.height
    }

    /// Whether the physical cell at `(x, y)` is solid.
    pub fn is_solid(&self, x: usize, y: usize) -> (r: bool)
        requires
            self.wf(),
            x < self.pw(),
            y < self.ph(),
        ensures
            r == self.cell(x as int, y as int),
    {
        proof {
            self.lemma_index_in_bounds(x as int, y as int);
        }
        self.cells[y * (2 * self.width + 1) + x]
    }

    /// The flat index of an in-range physical cell is in range.
    proof fn lemma_index_in_bounds(&self, x: int, y: int)
        requires
            self.wf(),
            0 <= x < self.pw(),
            0 <= y < self.ph(),
        ensures
            0 <= y * self.pw() + x < self.cells@.len(),
            self.pw() <= self.cells@.len(),
            self.ph() <= self.cells@.len(),
    {
        let pw = self.pw();
        let ph = self.ph();
        assert(0 <= y * pw + x < pw * ph) by (nonlinear_arith)
            requires pw > 0 && ph > 0 && 0 <= x < pw && 0 <= y < ph;
        assert(pw <= pw * ph && ph <= pw * ph) by (nonlinear_arith)
            requires pw > 0 && ph > 0;
    }

    /// Distinct in-range physical coordinates have distinct flat indices.
    proof fn lemma_index_injective(&self, x1: int, y1: int, x2: int, y2: int)
        requires
            self.wf(),
            0 <= x1 < self.pw(),
            0 <= y1 < self.ph(),
            0 <= x2 < self.pw(),
            0 <= y2 < self.ph(),
            !(x1 == x2 && y1 == y2),
        ensures
            y1 * self.pw() + x1 != y2 * self.pw() + x2,
    {
        let pw = self.pw();
        assert(y1 * pw + x1 != y2 * pw + x2) by (nonlinear_arith)
            requires
                pw > 0 && 0 <= x1 < pw && 0 <= x2 < pw && !(x1 == x2 && y1 == y2);
    }

    /// Carve the physical cell at `(x, y)`: set it to walkable.
    fn carve(&mut self, x: usize, y: usize)
        requires
            old(self).wf(),
            x < old(self).pw(),
            y < old(self).ph(),
        ensures
            final(self).wf(),
            final(self).same_dims(old(self)),
            !final(self).cell(x as int, y as int),
            forall|a: int, b: int|
                0 <= a < old(self).pw() && 0 <= b < old(self).ph() && !(a == x && b == y)
                    ==> #[trigger] final(self).cell(a, b) == old(self).cell(a, b),
    {
        proof {
            self.lemma_index_in_bounds(x as int, y as int);
        }
        let i = y * (2 * self.width + 1) + x;
        self.cells[i] = false;
        proof {
            assert forall|a: int, b: int|
                0 <= a < old(self).pw() && 0 <= b < old(self).ph() && !(a == x && b == y)
                implies #[trigger] self.cell(a, b) == old(self).cell(a, b) by {
                old(self).lemma_index_injective(a, b, x as int, y as int);
                old(self).lemma_index_in_bounds(a, b);
            }
        }
    }

    /// A path through carved rooms stays a path when more cells are carved.
    proof fn lemma_path_preserved(g1: &Maze2D, g2: &Maze2D, p: Seq<(int, int)>)
        requires
            g1.wf(),
            g2.wf(),
            Maze2D::carve_extends(g1, g2),
            g1.is_path(p),
        ensures
            g2.is_path(p),
    {
        assert forall|k: int| 0 <= k < p.len()
            implies g2.valid_room(#[trigger] p[k].0, p[k].1) && g2.room_carved(p[k].0, p[k].1) by {
            assert(g1.valid_room(p[k].0, p[k].1) && g1.room_carved(p[k].0, p[k].1));
        }
        assert forall|k: int| 0 <= k < p.len() - 1
            implies adjacent(#[trigger] p[k].0, p[k].1, p[k + 1].0, p[k + 1].1)
                && g2.passage_open(p[k].0, p[k].1, p[k + 1].0, p[k + 1].1) by {
            assert(adjacent(p[k].0, p[k].1, p[k + 1].0, p[k + 1].1)
                && g1.passage_open(p[k].0, p[k].1, p[k + 1].0, p[k + 1].1));
            assert(g1.valid_room(p[k].0, p[k].1) && g1.valid_room(p[k + 1].0, p[k + 1].1));
        }
    }

    /// Reachability from the start is preserved when more cells are carved.
    proof fn lemma_reached_preserved(g1: &Maze2D, g2: &Maze2D, i: int, j: int)
        requires
            g1.wf(),
            g2.wf(),
            Maze2D::carve_extends(g1, g2),
            g1.reached(i, j),
        ensures
            g2.reached(i, j),
    {
        let p = choose|p: Seq<(int, int)>|
            #[trigger] g1.is_path(p) && p.first() == (0int, 0int) && p.last() == (i, j);
        Self::lemma_path_preserved(g1, g2, p);
    }

    /// If no new room was carved, every carved room stays reachable.
    proof fn lemma_carved_reached_preserved(g1: &Maze2D, g2: &Maze2D)
        requires
            g1.wf(),
            g2.wf(),
            Maze2D::carve_extends(g1, g2),
            g1.carved_reached(),
            forall|i: int, j: int|
                g2.valid_room(i, j) && #[trigger] g2.room_carved(i, j) ==> g1.room_carved(i, j),
        ensures
            g2.carved_reached(),
    {
        assert forall|i: int, j: int|
            g2.valid_room(i, j) && #[trigger] g2.room_carved(i, j)
            implies g2.reached(i, j) by {
            Self::lemma_reached_preserved(g1, g2, i, j);
        }
    }

    /// A reachable room extends reachability to a carved neighbor whose
    /// connecting wall is open.
    proof fn lemma_reached_step(g: &Maze2D, c: int, d: int, a: int, b: int)
        requires
            g.wf(),
            g.reached(c, d),
            g.valid_room(a, b),
            adjacent(a, b, c, d),
            g.room_carved(a, b),
            g.passage_open(a, b, c, d),
        ensures
            g.reached(a, b),
    {
        let p = choose|p: Seq<(int, int)>|
            #[trigger] g.is_path(p) && p.first() == (0int, 0int) && p.last() == (c, d);
        let p2 = p.push((a, b));
        assert(g.is_path(p2)) by {
            assert(forall|k: int| 0 <= k < p.len() ==> p2[k] == #[trigger] p[k]);
            assert(p2[p2.len() - 1] == (a, b));
            assert(p2[p2.len() - 2] == p.last());
        }
        assert(p2.first() == (0int, 0int) && p2.last() == (a, b));
    }

    /// Carve the wall between the solid room `(a, b)` and the already carved
    /// adjacent room `(c, d)`, then carve the room `(a, b)` itself. This is
    /// the one carving step of both generation phases; it adds one leaf to
    /// the carved spanning tree.
    fn carve_link(&mut self, a: usize, b: usize, c: usize, d: usize)
        requires
            old(self).inv(),
            old(self).valid_room(a as int, b as int),
            old(self).valid_room(c as int, d as int),
            adjacent(a as int, b as int, c as int, d as int),
            !old(self).room_carved(a as int, b as int),
            old(self).room_carved(c as int, d as int),
        ensures
            final(self).inv(),
            final(self).same_dims(old(self)),
            Maze2D::carve_extends(old(self), final(self)),
            final(self).room_carved(a as int, b as int),
            forall|i: int, j: int|
                old(self).valid_room(i, j) && !(i == a && j == b)
                    ==> #[trigger] final(self).room_carved(i, j)
                        == old(self).room_carved(i, j),
    {
        proof {
            self.lemma_index_in_bounds(0, 0);
        }
        let wx = a + c + 1;
        let wy = b + d + 1;
        let ghost g0 = *self;
        let ghost wxi = wx as int;
        let ghost wyi = wy as int;
        proof {
            // the wall cell lies strictly inside the grid and has wall parity
            assert(1 <= wxi <= g0.pw() - 2 && 1 <= wyi <= g0.ph() - 2);
            assert(wxi % 2 + wyi % 2 == 1);
            // the wall is still solid, else walls_ok would carve room (a, b)
            assert(g0.cell(wxi, wyi)) by {
                if !g0.cell(wxi, wyi) {
                    assert(g0.passage_open(a as int, b as int, c as int, d as int));
                }
            }
        }
        self.carve(wx, wy);
        let ghost g1 = *self;
        proof {
            // rooms are untouched by a wall carve
            assert forall|i: int, j: int| g1.valid_room(i, j)
                implies #[trigger] g1.room_carved(i, j) == g0.room_carved(i, j) by {
                assert(2 * i + 1 != wxi || 2 * j + 1 != wyi);
            }
            assert(g1.carved_rooms() =~= g0.carved_rooms());
            assert(g1.carved_walls() =~= g0.carved_walls().insert((wxi, wyi)));
            g0.lemma_sets_finite();
            vstd::set::axiom_set_insert_len(g0.carved_walls(), (wxi, wyi));
            assert(g1.carved_walls().len() == g0.carved_walls().len() + 1);
            assert(Maze2D::carve_extends(&g0, &g1));
            Self::lemma_carved_reached_preserved(&g0, &g1);
        }
        let rx = 2 * a + 1;
        let ry = 2 * b + 1;
        self.carve(rx, ry);
        let ghost g2 = *self;
        proof {
            let ai = a as int;
            let bi = b as int;
            let ci = c as int;
            let di = d as int;
            assert(Maze2D::carve_extends(&g1, &g2));
            assert(Maze2D::carve_extends(&g0, &g2));
            // the room carve touches no wall cell
            assert(g2.carved_walls() =~= g1.carved_walls()) by {
                assert forall|p: (int, int)| #![all_triggers]
                    0 <= p.0 < g1.pw() && 0 <= p.1 < g1.ph() && p.0 % 2 + p.1 % 2 == 1
                    implies g2.cell(p.0, p.1) == g1.cell(p.0, p.1) by {
                    assert(!(p.0 == 2 * ai + 1 && p.1 == 2 * bi + 1));
                }
            }
            // exactly the room (a, b) is newly carved
            assert forall|i: int, j: int|
                g2.valid_room(i, j) && !(i == ai && j == bi)
                implies #[trigger] g2.room_carved(i, j) == g1.room_carved(i, j) by {
                assert(2 * i + 1 != 2 * ai + 1 || 2 * j + 1 != 2 * bi + 1);
            }
            assert(g2.carved_rooms() =~= g1.carved_rooms().insert((ai, bi)));
            g1.lemma_sets_finite();
            vstd::set::axiom_set_insert_len(g1.carved_rooms(), (ai, bi));
            assert(!g1.carved_rooms().contains((ai, bi)));
            assert(g2.tree_count_ok());
            // structure: both carved cells are interior non-pillar cells
            assert(g2.structure_ok()) by {
                assert forall|x: int, y: int|
                    0 <= x < g2.pw() && 0 <= y < g2.ph()
                        && (x == 0 || y == 0 || x == g2.pw() - 1 || y == g2.ph() - 1
                            || (x % 2 == 0 && y % 2 == 0))
                    implies #[trigger] g2.cell(x, y) by {
                    assert(!(x == wxi && y == wyi));
                    assert(!(x == 2 * ai + 1 && y == 2 * bi + 1));
                    assert(g0.cell(x, y));
                }
            }
            // connectivity: old rooms keep their paths; the new room hangs
            // off the carved neighbor through the newly opened wall
            assert(g2.carved_reached()) by {
                assert forall|i: int, j: int|
                    g2.valid_room(i, j) && #[trigger] g2.room_carved(i, j)
                    implies g2.reached(i, j) by {
                    if i == ai && j == bi {
                        assert(g1.room_carved(ci, di));
                        assert(g1.valid_room(ci, di));
                        assert(g1.reached(ci, di));
                        Self::lemma_reached_preserved(&g1, &g2, ci, di);
                        assert(g2.passage_open(ai, bi, ci, di));
                        Self::lemma_reached_step(&g2, ci, di, ai, bi);
                    } else {
                        Self::lemma_reached_preserved(&g1, &g2, i, j);
                    }
                }
            }
            // every open passage still joins two carved rooms
            assert(g2.walls_ok()) by {
                assert forall|i1: int, j1: int, i2: int, j2: int|
                    g2.valid_room(i1, j1) && g2.valid_room(i2, j2)
                        && adjacent(i1, j1, i2, j2)
                        && #[trigger] g2.passage_open(i1, j1, i2, j2)
                    implies g2.room_carved(i1, j1) && g2.room_carved(i2, j2) by {
                    let mx = i1 + i2 + 1;
                    let my = j1 + j2 + 1;
                    if mx == wxi && my == wyi {
                        // the wall cell determines its two rooms: this is the
                        // pair just linked
                        assert((i1 == ai && j1 == bi && i2 == ci && j2 == di)
                            || (i1 == ci && j1 == di && i2 == ai && j2 == bi));
                    } else {
                        assert(!(mx == 2 * ai + 1 && my == 2 * bi + 1));
                        assert(g2.cell(mx, my) == g0.cell(mx, my));
                        assert(g0.passage_open(i1, j1, i2, j2));
                    }
                }
            }
        }
    }

    /// The number of rooms not yet carved.
    pub open spec fn uncarved_count(&self) -> nat {
        grid_pairs(self.spec_width(), self.spec_height()).difference(self.carved_rooms()).len()
    }

    /// A carved room stays carved when more cells are carved.
    proof fn lemma_room_monotone(g1: &Maze2D, g2: &Maze2D, i: int, j: int)
        requires
            g1.wf(),
            Maze2D::carve_extends(g1, g2),
            g1.valid_room(i, j),
            g1.room_carved(i, j),
        ensures
            g2.room_carved(i, j),
    {
        assert(!g1.cell(2 * i + 1, 2 * j + 1));
    }

    /// Carving a previously solid room strictly shrinks the uncarved set.
    proof fn lemma_uncarved_decreases(g1: &Maze2D, g2: &Maze2D, ni: int, nj: int)
        requires
            g1.wf(),
            g2.wf(),
            Maze2D::carve_extends(g1, g2),
            g1.valid_room(ni, nj),
            !g1.room_carved(ni, nj),
            g2.room_carved(ni, nj),
        ensures
            g2.uncarved_count() < g1.uncarved_count(),
    {
        let all = grid_pairs(g1.spec_width(), g1.spec_height());
        lemma_grid_pairs_len(g1.spec_width(), g1.spec_height());
        let d1 = all.difference(g1.carved_rooms());
        let d2 = all.difference(g2.carved_rooms());
        lemma_len_subset(d1, all);
        assert forall|p: (int, int)| d2.contains(p)
            implies #[trigger] d1.remove((ni, nj)).contains(p) by {
            if g1.room_carved(p.0, p.1) {
                Self::lemma_room_monotone(g1, g2, p.0, p.1);
            }
            assert(!(p.0 == ni && p.1 == nj));
        }
        assert(d1.contains((ni, nj)));
        vstd::set::axiom_set_remove_len(d1, (ni, nj));
        lemma_len_subset(d2, d1.remove((ni, nj)));
    }

    /// Some in-bounds room next to `(i, j)` is still solid (unvisited).
    pub open spec fn has_uncarved_neighbor(&self, i: int, j: int) -> bool {
        exists|i2: int, j2: int|
            self.valid_room(i2, j2) && adjacent(i, j, i2, j2)
                && !#[trigger] self.room_carved(i2, j2)
    }

    /// The direction `d` out of room `(i, j)` leads to an in-bounds,
    /// still solid neighboring room.
    spec fn eligible_solid(&self, i: int, j: int, d: Direction2D) -> bool {
        match d {
            Direction2D::Up => j > 0 && !self.room_carved(i, j - 1),
            Direction2D::Down => j < self.spec_height() - 1 && !self.room_carved(i, j + 1),
            Direction2D::Left => i > 0 && !self.room_carved(i - 1, j),
            Direction2D::Right => i < self.spec_width() - 1 && !self.room_carved(i + 1, j),
        }
    }

    /// One kill-phase step from the carved room `(i, j)`: draw a random
    /// direction order and take the first direction whose neighboring room
    /// is in bounds and still solid, carving the wall and that room; `None`
    /// only when no direction is eligible (the walk has hit a dead end,
    /// every in-bounds neighbor already carved).
    fn walk_step(&mut self, i: usize, j: usize) -> (r: Option<(usize, usize)>)
        requires
            old(self).inv(),
            old(self).valid_room(i as int, j as int),
            old(self).room_carved(i as int, j as int),
        ensures
            final(self).inv(),
            final(self).same_dims(old(self)),
            Maze2D::carve_extends(old(self), final(self)),
            match r {
                None => *final(self) == *old(self)
                    && !old(self).has_uncarved_neighbor(i as int, j as int),
                Some((ni, nj)) => final(self).valid_room(ni as int, nj as int)
                    && adjacent(i as int, j as int, ni as int, nj as int)
                    && !old(self).room_carved(ni as int, nj as int)
                    && final(self).room_carved(ni as int, nj as int),
            },
    {
        let ghost g0 = *self;
        proof {
            self.lemma_index_in_bounds(0, 0);
        }
        let order = Direction2D::random_order();
        let mut k: usize = 0;
        while k < 4
            invariant
                *self == g0,
                g0 == *old(self),
                g0.inv(),
                g0.valid_room(i as int, j as int),
                g0.room_carved(i as int, j as int),
                g0.pw() <= usize::MAX,
                g0.ph() <= usize::MAX,
                k <= 4,
                order@.len() == 4,
                forall|d: Direction2D| order@.contains(d),
                forall|m: int| 0 <= m < k
                    ==> !g0.eligible_solid(i as int, j as int, #[trigger] order@[m]),
            decreases 4 - k,
        {
            match order[k] {
                Direction2D::Up => {
                    if j > 0 && self.is_solid(2 * i + 1, 2 * (j - 1) + 1) {
                        self.carve_link(i, j - 1, i, j);
                        return Some((i, j - 1));
                    }
                },
                Direction2D::Down => {
                    if j < self.height - 1 && self.is_solid(2 * i + 1, 2 * (j + 1) + 1) {
                        self.carve_link(i, j + 1, i, j);
                        return Some((i, j + 1));
                    }
                },
                Direction2D::Left => {
                    if i > 0 && self.is_solid(2 * (i - 1) + 1, 2 * j + 1) {
                        self.carve_link(i - 1, j, i, j);
                        return Some((i - 1, j));
                    }
                },
                Direction2D::Right => {
                    if i < self.width - 1 && self.is_solid(2 * (i + 1) + 1, 2 * j + 1) {
                        self.carve_link(i + 1, j, i, j);
                        return Some((i + 1, j));
                    }
                },
            }
            k = k + 1;
        }
        proof {
            // every direction was tried and none led to a solid neighbor,
            // so every in-bounds neighbor is already carved
            assert(!g0.has_uncarved_neighbor(i as int, j as int)) by {
                if g0.has_uncarved_neighbor(i as int, j as int) {
                    let (i2, j2) = choose|i2: int, j2: int|
                        g0.valid_room(i2, j2) && adjacent(i as int, j as int, i2, j2)
                            && !#[trigger] g0.room_carved(i2, j2);
                    let d2 = if j2 == j - 1 {
                        Direction2D::Up
                    } else if j2 == j + 1 {
                        Direction2D::Down
                    } else if i2 == i - 1 {
                        Direction2D::Left
                    } else {
                        Direction2D::Right
                    };
                    assert(g0.eligible_solid(i as int, j as int, d2));
                    assert(order@.contains(d2));
                    let m = choose|m: int| 0 <= m < order@.len() && order@[m] == d2;
                    assert(!g0.eligible_solid(i as int, j as int, order@[m]));
                }
            }
        }
        None
    }

    /// The direction `d` out of room `(i, j)` leads to an in-bounds,
    /// already carved neighboring room.
    spec fn eligible_carved(&self, i: int, j: int, d: Direction2D) -> bool {
        match d {
            Direction2D::Up => j > 0 && self.room_carved(i, j - 1),
            Direction2D::Down => j < self.spec_height() - 1 && self.room_carved(i, j + 1),
            Direction2D::Left => i > 0 && self.room_carved(i - 1, j),
            Direction2D::Right => i < self.spec_width() - 1 && self.room_carved(i + 1, j),
        }
    }

    /// One hunt-phase carve at the solid room `(i, j)`: draw a random
    /// direction order and join `(i, j)` to the first already-visited
    /// neighbor found, carving the connecting wall and the room itself.
    fn hunt_step(&mut self, i: usize, j: usize)
        requires
            old(self).inv(),
            old(self).valid_room(i as int, j as int),
            !old(self).room_carved(i as int, j as int),
            exists|i2: int, j2: int|
                old(self).valid_room(i2, j2) && adjacent(i as int, j as int, i2, j2)
                    && #[trigger] old(self).room_carved(i2, j2),
        ensures
            final(self).inv(),
            final(self).same_dims(old(self)),
            Maze2D::carve_extends(old(self), final(self)),
            final(self).room_carved(i as int, j as int),
    {
        let ghost g0 = *self;
        proof {
            self.lemma_index_in_bounds(0, 0);
        }
        let order = Direction2D::random_order();
        let mut k: usize = 0;
        while k < 4
            invariant
                *self == g0,
                g0 == *old(self),
                g0.inv(),
                g0.valid_room(i as int, j as int),
                !g0.room_carved(i as int, j as int),
                g0.pw() <= usize::MAX,
                g0.ph() <= usize::MAX,
                k <= 4,
                order@.len() == 4,
                order@.no_duplicates(),
                forall|d: Direction2D| order@.contains(d),
                forall|m: int| 0 <= m < k ==> !g0.eligible_carved(i as int, j as int, #[trigger] order@[m]),
            decreases 4 - k,
        {
            match order[k] {
                Direction2D::Up => {
                    if j > 0 && !self.is_solid(2 * i + 1, 2 * (j - 1) + 1) {
                        self.carve_link(i, j, i, j - 1);
                        return;
                    }
                },
                Direction2D::Down => {
                    if j < self.height - 1 && !self.is_solid(2 * i + 1, 2 * (j + 1) + 1) {
                        self.carve_link(i, j, i, j + 1);
                        return;
                    }
                },
                Direction2D::Left => {
                    if i > 0 && !self.is_solid(2 * (i - 1) + 1, 2 * j + 1) {
                        self.carve_link(i, j, i - 1, j);
                        return;
                    }
                },
                Direction2D::Right => {
                    if i < self.width - 1 && !self.is_solid(2 * (i + 1) + 1, 2 * j + 1) {
                        self.carve_link(i, j, i + 1, j);
                        return;
                    }
                },
            }
            k = k + 1;
        }
        proof {
            // a visited neighbor exists, so its direction was in the order
            // and would have been taken: this point is unreachable
            let (i2, j2) = choose|i2: int, j2: int|
                g0.valid_room(i2, j2) && adjacent(i as int, j as int, i2, j2)
                    && #[trigger] g0.room_carved(i2, j2);
            let d2 = if j2 == j - 1 {
                Direction2D::Up
            } else if j2 == j + 1 {
                Direction2D::Down
            } else if i2 == i - 1 {
                Direction2D::Left
            } else {
                Direction2D::Right
            };
            assert(g0.eligible_carved(i as int, j as int, d2));
            assert(order@.contains(d2));
            let m = choose|m: int| 0 <= m < order@.len() && order@[m] == d2;
            assert(!g0.eligible_carved(i as int, j as int, order@[m]));
            assert(false);
        }
    }

    /// The kill phase: a random walk from the carved room `(i, j)` that
    /// repeatedly moves to (and carves) a random unvisited neighbor until
    /// it dead-ends. If any neighbor of the starting room is unvisited,
    /// the walk carves at least one room.
    fn random_walk(&mut self, i: usize, j: usize)
        requires
            old(self).inv(),
            old(self).valid_room(i as int, j as int),
            old(self).room_carved(i as int, j as int),
        ensures
            final(self).inv(),
            final(self).same_dims(old(self)),
            Maze2D::carve_extends(old(self), final(self)),
            old(self).has_uncarved_neighbor(i as int, j as int)
                ==> final(self).uncarved_count() < old(self).uncarved_count(),
    {
        let ghost g0 = *self;
        let mut ci = i;
        let mut cj = j;
        loop
            invariant
                self.inv(),
                self.valid_room(ci as int, cj as int),
                self.room_carved(ci as int, cj as int),
                self.same_dims(&g0),
                Maze2D::carve_extends(&g0, self),
                self.uncarved_count() < g0.uncarved_count()
                    || (*self == g0 && ci == i && cj == j),
            ensures
                self.inv(),
                self.same_dims(&g0),
                Maze2D::carve_extends(&g0, self),
                g0.has_uncarved_neighbor(i as int, j as int)
                    ==> self.uncarved_count() < g0.uncarved_count(),
            decreases self.uncarved_count(),
        {
            let ghost s1 = *self;
            match self.walk_step(ci, cj) {
                Some((ni, nj)) => {
                    proof {
                        Self::lemma_uncarved_decreases(&s1, self, ni as int, nj as int);
                        assert forall|x: int, y: int|
                            0 <= x < g0.pw() && 0 <= y < g0.ph() && !g0.cell(x, y)
                            implies !self.cell(x, y) by {
                            assert(!s1.cell(x, y));
                        }
                    }
                    ci = ni;
                    cj = nj;
                },
                None => {
                    break;
                },
            }
        }
    }

    /// Generate a perfect maze with `width * height` rooms by hunt-and-kill:
    /// a random walk carves unvisited rooms until it dead-ends, then a
    /// row-major hunt joins the next unvisited room to the visited region
    /// and walks again, until no unvisited room remains.
    ///
    /// The result is a spanning tree over the rooms: every room is carved
    /// and reachable from the start room `(0, 0)`, exactly `rooms - 1`
    /// walls are carved, and no carve ever touches the boundary ring or a
    /// pillar cell. Zero dimensions are rejected.
    pub fn hunt_and_kill(width: usize, height: usize) -> (r: Result<Maze2D, MazeError>)
        requires
            (2 * width + 1) * (2 * height + 1) <= usize::MAX,
        ensures
            r is Err <==> (width == 0 || height == 0),
            match r {
                Ok(m) => {
                    &&& m.wf()
                    &&& m.spec_width() == width
                    &&& m.spec_height() == height
                    &&& m.structure_ok()
                    &&& m.walls_ok()
                    &&& m.all_rooms_carved()
                    &&& m.connected()
                    &&& m.carved_rooms().len() == width * height
                    &&& m.carved_walls().len() == width * height - 1
                },
                Err(e) => e == MazeError::ZeroDimension,
            },
    {
        if width == 0 || height == 0 {
            return Err(MazeError::ZeroDimension);
        }
        let mut maze = Maze2D::solid_grid(width, height);
        let ghost gs = maze;
        // carve the start room by hand; the first walk begins there
        maze.carve(1, 1);
        proof {
            let g1 = maze;
            assert forall|i: int, j: int|
                g1.valid_room(i, j) && !(i == 0 && j == 0)
                implies #[trigger] g1.room_carved(i, j) == gs.room_carved(i, j) by {
                assert(2 * i + 1 != 1 || 2 * j + 1 != 1);
            }
            assert(g1.carved_rooms() =~= Set::empty().insert((0int, 0int)));
            broadcast use vstd::set::axiom_set_empty_len;
            broadcast use vstd::set::axiom_set_empty_finite;
            vstd::set::axiom_set_insert_len(Set::<(int, int)>::empty(), (0int, 0int));
            assert(g1.carved_walls() =~= Set::<(int, int)>::empty()) by {
                assert forall|p: (int, int)| #![all_triggers]
                    0 <= p.0 < g1.pw() && 0 <= p.1 < g1.ph() && p.0 % 2 + p.1 % 2 == 1
                    implies g1.cell(p.0, p.1) by {
                    assert(!(p.0 == 1 && p.1 == 1));
                }
            }
            assert(g1.tree_count_ok());
            let p0: Seq<(int, int)> = seq![(0int, 0int)];
            assert(g1.room_carved(0, 0));
            assert(g1.is_path(p0));
            assert(g1.reached(0, 0));
            assert(g1.carved_reached());
            assert(g1.walls_ok()) by {
                assert forall|i1: int, j1: int, i2: int, j2: int|
                    g1.valid_room(i1, j1) && g1.valid_room(i2, j2) && adjacent(i1, j1, i2, j2)
                    implies !#[trigger] g1.passage_open(i1, j1, i2, j2) by {
                    assert(!(i1 + i2 + 1 == 1 && j1 + j2 + 1 == 1));
                    assert(gs.cell(i1 + i2 + 1, j1 + j2 + 1));
                }
            }
            assert(g1.structure_ok()) by {
                assert forall|x: int, y: int|
                    0 <= x < g1.pw() && 0 <= y < g1.ph() && !(x == 1 && y == 1)
                    implies #[trigger] g1.cell(x, y) by {
                    assert(gs.cell(x, y));
                }
            }
        }
        maze.random_walk(0, 0);
        let mut j: usize = 0;
        while j < height
            invariant
                maze.inv(),
                maze.spec_width() == width,
                maze.spec_height() == height,
                maze.room_carved(0, 0),
                j <= height,
                forall|i2: int, j2: int|
                    maze.valid_room(i2, j2) && j2 < j ==> #[trigger] maze.room_carved(i2, j2),
            decreases height - j,
        {
            let mut i: usize = 0;
            while i < width
                invariant
                    maze.inv(),
                    maze.spec_width() == width,
                    maze.spec_height() == height,
                    maze.room_carved(0, 0),
                    j < height,
                    i <= width,
                    forall|i2: int, j2: int|
                        maze.valid_room(i2, j2) && (j2 < j || (j2 == j && i2 < i))
                            ==> #[trigger] maze.room_carved(i2, j2),
                decreases width - i,
            {
                let ghost gpre = maze;
                proof {
                    maze.lemma_index_in_bounds(0, 0);
                }
                if maze.is_solid(2 * i + 1, 2 * j + 1) {
                    proof {
                        // some already scanned neighbor is carved
                        assert(!maze.room_carved(i as int, j as int));
                        if i > 0 {
                            assert(maze.room_carved(i as int - 1, j as int));
                            assert(adjacent(i as int, j as int, i as int - 1, j as int));
                        } else {
                            assert(j > 0) by {
                                assert(maze.room_carved(0, 0));
                            }
                            assert(maze.room_carved(i as int, j as int - 1));
                            assert(adjacent(i as int, j as int, i as int, j as int - 1));
                        }
                    }
                    maze.hunt_step(i, j);
                    let ghost gmid = maze;
                    maze.random_walk(i, j);
                    proof {
                        Self::lemma_room_monotone(&gmid, &maze, i as int, j as int);
                        assert forall|x: int, y: int|
                            0 <= x < gpre.pw() && 0 <= y < gpre.ph() && !gpre.cell(x, y)
                            implies !maze.cell(x, y) by {
                            assert(!gmid.cell(x, y));
                        }
                        assert(Maze2D::carve_extends(&gpre, &maze));
                    }
                }
                proof {
                    assert(Maze2D::carve_extends(&gpre, &maze));
                }
                i = i + 1;
                proof {
                    assert forall|i2: int, j2: int|
                        maze.valid_room(i2, j2) && (j2 < j || (j2 == j && i2 < i))
                        implies #[trigger] maze.room_carved(i2, j2) by {
                        if j2 < j || (j2 == j && i2 < i - 1) {
                            Self::lemma_room_monotone(&gpre, &maze, i2, j2);
                        }
                    }
                    Self::lemma_room_monotone(&gpre, &maze, 0, 0);
                }
            }
            j = j + 1;
        }
        proof {
            assert(maze.all_rooms_carved());
            assert(maze.connected()) by {
                assert forall|i: int, j2: int| maze.valid_room(i, j2)
                    implies #[trigger] maze.reached(i, j2) by {
                    assert(maze.room_carved(i, j2));
                }
            }
            maze.lemma_sets_finite();
            lemma_grid_pairs_len(width as int, height as int);
            assert(maze.carved_rooms() =~= grid_pairs(width as int, height as int));
        }
        Ok(maze)
    }

    /// A fully solid grid for the given logical dimensions.
    fn solid_grid(width: usize, height: usize) -> (m: Maze2D)
        requires
            1 <= width,
            1 <= height,
            (2 * width + 1) * (2 * height + 1) <= usize::MAX,
        ensures
            m.wf(),
            m.spec_width() == width,
            m.spec_height() == height,
            forall|x: int, y: int|
                0 <= x < m.pw() && 0 <= y < m.ph() ==> #[trigger] m.cell(x, y),
    {
        proof {
            assert(2 * width + 1 <= usize::MAX && 2 * height + 1 <= usize::MAX)
                by (nonlinear_arith)
                requires
                    1 <= width,
                    1 <= height,
                    (2 * width + 1) * (2 * height + 1) <= usize::MAX;
        }
        let pw = 2 * width + 1;
        let ph = 2 * height + 1;
        let n = pw * ph;
        let mut cells: Vec<bool> = Vec::new();
        let mut k: usize = 0;
        while k < n
            invariant
                k <= n,
                cells@.len() == k,
                forall|t: int| 0 <= t < k ==> cells@[t],
            decreases n - k,
        {
            cells.push(true);
            k = k + 1;
        }
        let m = Maze2D { cells, width, height };
        proof {
            assert forall|x: int, y: int| 0 <= x < m.pw() && 0 <= y < m.ph()
                implies #[trigger] m.cell(x, y) by {
                m.lemma_index_in_bounds(x, y);
            }
        }
        m
    }
}

} // verus!
