//! Tests of voxelization, collider extraction, and greedy meshing: the
//! collider/voxel correspondence, mesh closure for a single voxel and for
//! the fully solid slab and cube, quad merging along corridors, and
//! idempotent re-derivation.

use maze_core::build_mesh;
use maze_core::FaceDir;
use maze_core::BoxCollider;
use maze_core::Maze2D;
use maze_core::Maze3D;
use maze_core::VoxelGrid;
use maze_core::voxelize2d;
use maze_core::voxelize3d;

#[test]
fn voxel_collider_correspondence_2d() {
    let m = Maze2D::hunt_and_kill(5, 4).unwrap();
    let (vox, cubes) = voxelize2d(&m);
    let (pw, ph) = (2 * m.width() + 1, 2 * m.height() + 1);
    assert_eq!(vox.shape_x(), pw + 2);
    assert_eq!(vox.shape_y(), 3);
    assert_eq!(vox.shape_z(), ph + 2);
    // count the solid cells and check each collider maps back to one
    let mut solid = 0;
    for y in 0..ph {
        for x in 0..pw {
            if m.is_solid(x, y) {
                solid += 1;
                assert!(vox.get(x + 1, 1, y + 1), "solid cell becomes solid voxel");
            } else {
                assert!(!vox.get(x + 1, 1, y + 1), "carved cell stays empty");
            }
        }
    }
    assert_eq!(cubes.len(), solid, "one collider per solid voxel");
    let mut seen = std::collections::HashSet::new();
    for c in &cubes {
        assert_eq!(c.y, 1);
        assert!(c.x >= 1 && c.x <= pw && c.z >= 1 && c.z <= ph);
        assert!(m.is_solid(c.x - 1, c.z - 1), "collider maps back to a solid cell");
        assert!(seen.insert((c.x, c.y, c.z)), "each solid cell appears once");
    }
    // the padding ring stays empty
    for z in 0..ph + 2 {
        for x in 0..pw + 2 {
            if x == 0 || z == 0 || x == pw + 1 || z == ph + 1 {
                assert!(!vox.get(x, 0, z) && !vox.get(x, 1, z) && !vox.get(x, 2, z));
            }
            assert!(!vox.get(x, 0, z) && !vox.get(x, 2, z), "slab is one voxel tall");
        }
    }
}

#[test]
fn voxel_collider_correspondence_3d() {
    let m = Maze3D::hunt_and_kill(2, 2, 2).unwrap();
    let (vox, cubes) = voxelize3d(&m);
    let (pw, ph, pd) = (2 * m.width() + 1, 2 * m.height() + 1, 2 * m.depth() + 1);
    assert_eq!(
        (vox.shape_x(), vox.shape_y(), vox.shape_z()),
        (pw + 2, ph + 2, pd + 2)
    );
    let mut solid = 0;
    for z in 0..pd {
        for y in 0..ph {
            for x in 0..pw {
                if m.is_solid(x, y, z) {
                    solid += 1;
                    assert!(vox.get(x + 1, y + 1, z + 1));
                } else {
                    assert!(!vox.get(x + 1, y + 1, z + 1));
                }
            }
        }
    }
    assert_eq!(cubes.len(), solid);
    let mut seen = std::collections::HashSet::new();
    for c in &cubes {
        assert!(m.is_solid(c.x - 1, c.y - 1, c.z - 1));
        assert!(seen.insert((c.x, c.y, c.z)));
    }
}

#[test]
fn mesh_closure_single_cube() {
    // one solid voxel in a padded volume meshes to a closed cube:
    // exactly 6 quads, 12 triangles, one quad per face direction,
    // with outward unit normals
    let mut vox = VoxelGrid::empty(3, 3, 3);
    vox.set_solid(1, 1, 1);
    let (quads, mesh) = build_mesh(&vox);
    assert_eq!(quads.len(), 6, "one quad per cube face");
    assert_eq!(mesh.positions.len(), 24);
    assert_eq!(mesh.normals.len(), 24);
    assert_eq!(mesh.uvs.len(), 24);
    assert_eq!(mesh.indices.len(), 36, "12 triangles");
    for uv in &mesh.uvs {
        assert_eq!(*uv, (0, 0));
    }
    for ix in &mesh.indices {
        assert!((*ix as usize) < mesh.positions.len());
    }
    // every unit normal appears for exactly one quad (4 vertices)
    for n in [
        (-1, 0, 0),
        (1, 0, 0),
        (0, -1, 0),
        (0, 1, 0),
        (0, 0, -1),
        (0, 0, 1),
    ] {
        assert_eq!(
            mesh.normals.iter().filter(|v| **v == n).count(),
            4,
            "one quad per direction"
        );
    }
    // quads come grouped in the fixed face-direction order
    let dirs: Vec<FaceDir> = quads.iter().map(|q| q.dir).collect();
    assert_eq!(
        dirs,
        vec![
            FaceDir::XNeg,
            FaceDir::YNeg,
            FaceDir::ZNeg,
            FaceDir::XPos,
            FaceDir::YPos,
            FaceDir::ZPos,
        ]
    );
    // normals point outward: for both triangles of every quad the edge
    // cross product equals the quad's normal
    for q in 0..6 {
        let nrm = mesh.normals[4 * q];
        let nrm = (nrm.0 as i64, nrm.1 as i64, nrm.2 as i64);
        for tri in 0..2 {
            let i0 = mesh.indices[6 * q + 3 * tri] as usize;
            let i1 = mesh.indices[6 * q + 3 * tri + 1] as usize;
            let i2 = mesh.indices[6 * q + 3 * tri + 2] as usize;
            let p = |i: usize| {
                let v = mesh.positions[i];
                (v.0 as i64, v.1 as i64, v.2 as i64)
            };
            let (a, b, c) = (p(i0), p(i1), p(i2));
            let e1 = (b.0 - a.0, b.1 - a.1, b.2 - a.2);
            let e2 = (c.0 - a.0, c.1 - a.1, c.2 - a.2);
            let cross = (
                e1.1 * e2.2 - e1.2 * e2.1,
                e1.2 * e2.0 - e1.0 * e2.2,
                e1.0 * e2.1 - e1.1 * e2.0,
            );
            assert_eq!(cross, nrm, "triangle winds outward");
        }
    }
}

#[test]
fn mesh_closure_solid_slab() {
    // the fully-solid degenerate single-room maze: its 3x3 physical cells,
    // one voxel tall, mesh to a closed cuboid of exactly 6 quads
    let mut vox = VoxelGrid::empty(5, 3, 5);
    for z in 1..4 {
        for x in 1..4 {
            vox.set_solid(x, 1, z);
        }
    }
    let (quads, mesh) = build_mesh(&vox);
    assert_eq!(quads.len(), 6, "one quad per slab face");
    assert_eq!(mesh.positions.len(), 24);
    assert_eq!(mesh.normals.len(), 24);
    assert_eq!(mesh.indices.len(), 36, "12 triangles");
    for n in [
        (-1, 0, 0),
        (1, 0, 0),
        (0, -1, 0),
        (0, 1, 0),
        (0, 0, -1),
        (0, 0, 1),
    ] {
        assert_eq!(mesh.normals.iter().filter(|v| **v == n).count(), 4);
    }
    // the top and bottom faces span the whole 3x3 slab
    let full = quads.iter().filter(|q| q.w == 3 && q.h == 3).count();
    assert_eq!(full, 2);
}

#[test]
fn mesh_closure_solid_cube() {
    // the fully-solid degenerate 3D single-room maze: its 3x3x3 physical
    // cells mesh to a closed cube of exactly 6 quads
    let mut vox = VoxelGrid::empty(5, 5, 5);
    for z in 1..4 {
        for y in 1..4 {
            for x in 1..4 {
                vox.set_solid(x, y, z);
            }
        }
    }
    let (quads, mesh) = build_mesh(&vox);
    assert_eq!(quads.len(), 6, "one quad per cube face");
    assert_eq!(mesh.indices.len(), 36, "12 triangles");
    for q in &quads {
        assert_eq!((q.w, q.h), (3, 3), "each face spans the whole cube");
    }
}

#[test]
fn quad_minimality_corridor() {
    // a straight 1xN corridor merges into one quad per face: 6 in all,
    // not 6 * N
    let n = 5;
    let mut vox = VoxelGrid::empty(n + 2, 3, 3);
    for x in 1..=n {
        vox.set_solid(x, 1, 1);
    }
    let (quads, mesh) = build_mesh(&vox);
    assert_eq!(quads.len(), 6, "each face of the corridor is one quad");
    assert_eq!(mesh.indices.len(), 36);
    // the four long faces span the corridor's full length
    let long = quads.iter().filter(|q| q.w == n || q.h == n).count();
    assert_eq!(long, 4, "top, bottom and both sides run the full length");
}

#[test]
fn quad_minimality_corridor_other_axis() {
    // the same merging law holds for a corridor along the z axis
    let n = 4;
    let mut vox = VoxelGrid::empty(3, 3, n + 2);
    for z in 1..=n {
        vox.set_solid(1, 1, z);
    }
    let (quads, _) = build_mesh(&vox);
    assert_eq!(quads.len(), 6, "each face of the corridor is one quad");
    let long = quads.iter().filter(|q| q.w == n || q.h == n).count();
    assert_eq!(long, 4, "the four lateral faces run the full length");
}

#[test]
fn empty_volume_meshes_to_nothing() {
    let vox = VoxelGrid::empty(4, 4, 4);
    let (quads, mesh) = build_mesh(&vox);
    assert_eq!(quads.len(), 0);
    assert_eq!(mesh.positions.len(), 0);
    assert_eq!(mesh.indices.len(), 0);
}

#[test]
fn rederivation_is_identical() {
    // voxelization and meshing are pure functions of the grid
    let m = Maze2D::hunt_and_kill(4, 4).unwrap();
    let (vox1, cubes1) = voxelize2d(&m);
    let (vox2, cubes2) = voxelize2d(&m);
    let c1: Vec<BoxCollider> = cubes1;
    let c2: Vec<BoxCollider> = cubes2;
    assert_eq!(c1, c2, "collider lists are identical");
    let (quads1, mesh1) = build_mesh(&vox1);
    let (quads2, mesh2) = build_mesh(&vox2);
    assert_eq!(quads1, quads2, "quad lists are identical");
    assert_eq!(mesh1.positions, mesh2.positions);
    assert_eq!(mesh1.normals, mesh2.normals);
    assert_eq!(mesh1.uvs, mesh2.uvs);
    assert_eq!(mesh1.indices, mesh2.indices);
}

#[test]
fn maze_mesh_covers_exposed_faces() {
    // every emitted quad footprint is solid with an empty neighbor, and
    // the total quad area equals the number of exposed faces
    let m = Maze2D::hunt_and_kill(3, 3).unwrap();
    let (vox, _) = voxelize2d(&m);
    let (quads, _) = build_mesh(&vox);
    let (sx, sy, sz) = (vox.shape_x(), vox.shape_y(), vox.shape_z());
    let mut exposed = 0usize;
    let dirs: [(i64, i64, i64); 6] = [
        (-1, 0, 0),
        (1, 0, 0),
        (0, -1, 0),
        (0, 1, 0),
        (0, 0, -1),
        (0, 0, 1),
    ];
    for z in 1..sz - 1 {
        for y in 1..sy - 1 {
            for x in 1..sx - 1 {
                if vox.get(x, y, z) {
                    for (dx, dy, dz) in dirs {
                        let nx = (x as i64 + dx) as usize;
                        let ny = (y as i64 + dy) as usize;
                        let nz = (z as i64 + dz) as usize;
                        if !vox.get(nx, ny, nz) {
                            exposed += 1;
                        }
                    }
                }
            }
        }
    }
    let area: usize = quads.iter().map(|q| q.w * q.h).sum();
    assert_eq!(area, exposed, "quads tile the exposed faces exactly");
}
