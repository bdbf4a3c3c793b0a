//! Tests of maze generation: connectivity, the spanning-tree count,
//! boundary containment, and determinism under a fixed seed.

use maze_core::Direction2D;
use maze_core::Direction3D;
use maze_core::Maze2D;
use maze_core::Maze3D;
use maze_core::MazeError;

fn grid2(m: &Maze2D) -> Vec<Vec<bool>> {
    let (pw, ph) = (2 * m.width() + 1, 2 * m.height() + 1);
    let mut g = vec![vec![false; pw]; ph];
    for y in 0..ph {
        for x in 0..pw {
            g[y][x] = m.is_solid(x, y);
        }
    }
    g
}

fn grid3(m: &Maze3D) -> Vec<Vec<Vec<bool>>> {
    let (pw, ph, pd) = (2 * m.width() + 1, 2 * m.height() + 1, 2 * m.depth() + 1);
    let mut g = vec![vec![vec![false; pw]; ph]; pd];
    for z in 0..pd {
        for y in 0..ph {
            for x in 0..pw {
                g[z][y][x] = m.is_solid(x, y, z);
            }
        }
    }
    g
}

#[test]
fn rejects_zero_dimensions() {
    assert_eq!(
        Maze2D::hunt_and_kill(0, 4).err(),
        Some(MazeError::ZeroDimension)
    );
    assert_eq!(
        Maze2D::hunt_and_kill(4, 0).err(),
        Some(MazeError::ZeroDimension)
    );
    assert!(Maze2D::hunt_and_kill(1, 1).is_ok());
    assert_eq!(
        Maze3D::hunt_and_kill(3, 0, 3).err(),
        Some(MazeError::ZeroDimension)
    );
    assert!(Maze3D::hunt_and_kill(1, 1, 1).is_ok());
}

#[test]
fn random_order_is_a_permutation() {
    for _ in 0..50 {
        let o2 = Direction2D::random_order();
        assert_eq!(o2.len(), 4);
        for d in [
            Direction2D::Up,
            Direction2D::Down,
            Direction2D::Left,
            Direction2D::Right,
        ] {
            assert_eq!(o2.iter().filter(|x| **x == d).count(), 1);
        }
        let o3 = Direction3D::random_order();
        assert_eq!(o3.len(), 6);
        for d in [
            Direction3D::Up,
            Direction3D::Down,
            Direction3D::Left,
            Direction3D::Right,
            Direction3D::In,
            Direction3D::Out,
        ] {
            assert_eq!(o3.iter().filter(|x| **x == d).count(), 1);
        }
    }
}

#[test]
fn connectivity_2d() {
    // a flood fill from the start room reaches every room
    let m = Maze2D::hunt_and_kill(7, 5).unwrap();
    let g = grid2(&m);
    let (w, h) = (7usize, 5usize);
    let mut seen = vec![vec![false; w]; h];
    let mut stack = vec![(0usize, 0usize)];
    seen[0][0] = true;
    assert!(!g[1][1], "start room must be carved");
    let mut count = 0;
    while let Some((i, j)) = stack.pop() {
        count += 1;
        let (x, y) = (2 * i + 1, 2 * j + 1);
        if i > 0 && !g[y][x - 1] && !seen[j][i - 1] {
            seen[j][i - 1] = true;
            stack.push((i - 1, j));
        }
        if i + 1 < w && !g[y][x + 1] && !seen[j][i + 1] {
            seen[j][i + 1] = true;
            stack.push((i + 1, j));
        }
        if j > 0 && !g[y - 1][x] && !seen[j - 1][i] {
            seen[j - 1][i] = true;
            stack.push((i, j - 1));
        }
        if j + 1 < h && !g[y + 1][x] && !seen[j + 1][i] {
            seen[j + 1][i] = true;
            stack.push((i, j + 1));
        }
    }
    assert_eq!(count, w * h, "every room is reachable from the start");
    for j in 0..h {
        for i in 0..w {
            assert!(!g[2 * j + 1][2 * i + 1], "every room is carved");
        }
    }
}

struct UnionFind {
    parent: Vec<usize>,
}

impl UnionFind {
    fn new(n: usize) -> UnionFind {
        UnionFind {
            parent: (0..n).collect(),
        }
    }

    fn find(&mut self, a: usize) -> usize {
        if self.parent[a] == a {
            a
        } else {
            let r = self.find(self.parent[a]);
            self.parent[a] = r;
            r
        }
    }

    /// Returns false when the two were already joined (a cycle edge).
    fn union(&mut self, a: usize, b: usize) -> bool {
        let (ra, rb) = (self.find(a), self.find(b));
        if ra == rb {
            return false;
        }
        self.parent[ra] = rb;
        true
    }
}

#[test]
fn perfect_maze_2d() {
    // carved connections number rooms - 1 and never close a cycle
    let m = Maze2D::hunt_and_kill(6, 4).unwrap();
    let g = grid2(&m);
    let (w, h) = (6usize, 4usize);
    let mut uf = UnionFind::new(w * h);
    let mut edges = 0;
    for j in 0..h {
        for i in 0..w {
            let (x, y) = (2 * i + 1, 2 * j + 1);
            if i + 1 < w && !g[y][x + 1] {
                edges += 1;
                assert!(uf.union(j * w + i, j * w + i + 1), "no cycle");
            }
            if j + 1 < h && !g[y + 1][x] {
                edges += 1;
                assert!(uf.union(j * w + i, (j + 1) * w + i), "no cycle");
            }
        }
    }
    assert_eq!(edges, w * h - 1, "spanning tree edge count");
}

#[test]
fn boundary_containment_2d() {
    // no carve ever reaches the boundary ring or a pillar cell
    let m = Maze2D::hunt_and_kill(5, 5).unwrap();
    let g = grid2(&m);
    let (pw, ph) = (11usize, 11usize);
    for y in 0..ph {
        for x in 0..pw {
            if x == 0 || y == 0 || x == pw - 1 || y == ph - 1 {
                assert!(g[y][x], "boundary stays solid");
            }
            if x % 2 == 0 && y % 2 == 0 {
                assert!(g[y][x], "pillars stay solid");
            }
        }
    }
}

#[test]
fn boundary_containment_3d() {
    // no carve ever reaches the boundary shell or a lattice cell with
    // fewer than two odd coordinates
    let m = Maze3D::hunt_and_kill(2, 3, 2).unwrap();
    let g = grid3(&m);
    let (pw, ph, pd) = (5usize, 7usize, 5usize);
    for z in 0..pd {
        for y in 0..ph {
            for x in 0..pw {
                if x == 0 || y == 0 || z == 0 || x == pw - 1 || y == ph - 1 || z == pd - 1 {
                    assert!(g[z][y][x], "boundary stays solid");
                }
                if x % 2 + y % 2 + z % 2 <= 1 {
                    assert!(g[z][y][x], "lattice edges and corners stay solid");
                }
            }
        }
    }
}

#[test]
fn connectivity_3d() {
    let m = Maze3D::hunt_and_kill(3, 3, 3).unwrap();
    let g = grid3(&m);
    let (w, h, d) = (3usize, 3usize, 3usize);
    let mut seen = vec![false; w * h * d];
    let idx = |i: usize, j: usize, k: usize| (k * h + j) * w + i;
    let mut stack = vec![(0usize, 0usize, 0usize)];
    seen[0] = true;
    let mut count = 0;
    while let Some((i, j, k)) = stack.pop() {
        count += 1;
        let (x, y, z) = (2 * i + 1, 2 * j + 1, 2 * k + 1);
        let mut step = |ni: usize, nj: usize, nk: usize, wx: usize, wy: usize, wz: usize| {
            if !g[wz][wy][wx] && !seen[idx(ni, nj, nk)] {
                seen[idx(ni, nj, nk)] = true;
                stack.push((ni, nj, nk));
            }
        };
        if i > 0 {
            step(i - 1, j, k, x - 1, y, z);
        }
        if i + 1 < w {
            step(i + 1, j, k, x + 1, y, z);
        }
        if j > 0 {
            step(i, j - 1, k, x, y - 1, z);
        }
        if j + 1 < h {
            step(i, j + 1, k, x, y + 1, z);
        }
        if k > 0 {
            step(i, j, k - 1, x, y, z - 1);
        }
        if k + 1 < d {
            step(i, j, k + 1, x, y, z + 1);
        }
    }
    assert_eq!(count, w * h * d, "every room is reachable from the start");
}

#[test]
fn perfect_maze_3d() {
    let m = Maze3D::hunt_and_kill(3, 2, 4).unwrap();
    let g = grid3(&m);
    let (w, h, d) = (3usize, 2usize, 4usize);
    let idx = |i: usize, j: usize, k: usize| (k * h + j) * w + i;
    let mut uf = UnionFind::new(w * h * d);
    let mut edges = 0;
    for k in 0..d {
        for j in 0..h {
            for i in 0..w {
                let (x, y, z) = (2 * i + 1, 2 * j + 1, 2 * k + 1);
                if i + 1 < w && !g[z][y][x + 1] {
                    edges += 1;
                    assert!(uf.union(idx(i, j, k), idx(i + 1, j, k)), "no cycle");
                }
                if j + 1 < h && !g[z][y + 1][x] {
                    edges += 1;
                    assert!(uf.union(idx(i, j, k), idx(i, j + 1, k)), "no cycle");
                }
                if k + 1 < d && !g[z + 1][y][x] {
                    edges += 1;
                    assert!(uf.union(idx(i, j, k), idx(i, j, k + 1)), "no cycle");
                }
            }
        }
    }
    assert_eq!(edges, w * h * d - 1, "spanning tree edge count");
}

#[test]
fn one_by_one_maze() {
    // the degenerate single-room maze: the room is carved, no wall is
    let m = Maze2D::hunt_and_kill(1, 1).unwrap();
    let g = grid2(&m);
    assert!(!g[1][1], "the single room is carved");
    let mut carved = 0;
    for y in 0..3 {
        for x in 0..3 {
            if !g[y][x] {
                carved += 1;
            }
        }
    }
    assert_eq!(carved, 1, "rooms - 1 == 0 walls are carved");
}

#[test]
fn fixed_seed_reproduces_grid_2d() {
    fastrand::seed(0x5eed_2d);
    let m1 = Maze2D::hunt_and_kill(8, 6).unwrap();
    fastrand::seed(0x5eed_2d);
    let m2 = Maze2D::hunt_and_kill(8, 6).unwrap();
    assert_eq!(grid2(&m1), grid2(&m2), "same seed, same occupancy grid");
}

#[test]
fn fixed_seed_reproduces_grid_3d() {
    fastrand::seed(0x5eed_3d);
    let m1 = Maze3D::hunt_and_kill(3, 3, 2).unwrap();
    fastrand::seed(0x5eed_3d);
    let m2 = Maze3D::hunt_and_kill(3, 3, 2).unwrap();
    assert_eq!(grid3(&m1), grid3(&m2), "same seed, same occupancy grid");
}
