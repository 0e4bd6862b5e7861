use miterra::blocky::Blocky;
use miterra::chunk::grid::Chunk;
use miterra::chunk::{ChunkManager, ChunkSource};
use miterra::mesh::{Mesh, Vertex};
use miterra::surfnet::SurfNet;
use miterra::{SphereSource, VoxelSource};

#[test]
fn sphere_source_contains_its_centre_only_inside_radius() {
    let s = SphereSource { x: 32, y: -64, z: 32, r: 96 };
    assert!(s.get(32, -64, 32));
    assert!(s.get(32, 31, 32));
    assert!(!s.get(32, 32, 32));
    assert!(s.get(32 + 95, -64, 32));
    assert!(!s.get(32 + 96, -64, 32));
}

#[test]
fn sphere_of_radius_zero_is_empty() {
    let s = SphereSource { x: 0, y: 0, z: 0, r: 0 };
    assert!(!s.get(0, 0, 0));
}

#[test]
fn new_chunk_holds_the_ball() {
    let c = Chunk::new();
    // (x - 32)^2 + y^2 + (z - 32)^2 < 2048
    assert!(c.get(32, 0, 32));
    assert!(c.get(32, 45, 32));
    assert!(!c.get(32, 46, 32));
    assert!(!c.get(0, 0, 0));
    assert!(!c.get(64, 0, 32));
    assert!(!c.get(32, 0, 100));
}

#[test]
fn chunk_set_then_get() {
    let mut c = Chunk::new();
    c.set(0, 0, 0, true);
    assert!(c.get(0, 0, 0));
    c.set(32, 0, 32, false);
    assert!(!c.get(32, 0, 32));
    assert!(c.get(33, 0, 32));
}

#[test]
fn chunk_mesh_indices_name_vertices() {
    let mut c = Chunk::new();
    c.create_mesh();
    let n = c.positions().len();
    assert!(n > 0);
    assert!(n <= 0x10000);
    assert!(c.indices.len() > 0);
    assert_eq!(c.indices.len() % 6, 0);
    for &i in c.indices.iter() {
        assert!((i as usize) < n);
    }
    for (k, &(x, y, z)) in c.positions().iter().enumerate() {
        assert_eq!(c.index_at(x, y, z), k as i32);
    }
    assert_eq!(c.index_at(-1, 0, 0), -1);
}

#[test]
fn surfnet_of_one_voxel() {
    // A single solid voxel at (1, 1, 1) in a 3^3 lattice: the 8 cells around
    // it have vertices, and each of its 6 faces crosses one lattice edge.
    let s = SphereSource { x: 1, y: 1, z: 1, r: 1 };
    let mut net = SurfNet { size: 3, smooth: 2 };
    let b = net.mesh(&s);
    assert_eq!(b.positions().len(), 8);
    assert_eq!(b.positions()[0], (0, 0, 0));
    assert_eq!(b.positions()[7], (1, 1, 1));
    assert_eq!(b.smooth(), 2);
    // One quad across each of the six lattice edges leaving (1, 1, 1).
    assert_eq!(b.indices().len(), 6 * 6);
    for &i in b.indices().iter() {
        assert!((i as usize) < 8);
    }
    let (ix, nbrs) = b.relax_stencil(0, 0, 0);
    assert_eq!(ix, 0);
    assert_eq!(nbrs, vec![4, 2, 1]);
}

#[test]
fn surfnet_of_nothing_is_empty() {
    let s = SphereSource { x: 0, y: 0, z: 0, r: 0 };
    let mut net = SurfNet { size: 4, smooth: 1 };
    let b = net.mesh(&s);
    assert_eq!(b.positions().len(), 0);
    assert_eq!(b.indices().len(), 0);
    assert_eq!(b.index_at(1, 1, 1), -1);
}

#[test]
fn blocky_single_voxel_is_a_cube() {
    let s = SphereSource { x: 0, y: 0, z: 0, r: 1 };
    let mut b = Blocky { size: 1 };
    let m = b.mesh(&s);
    assert_eq!(m.vertices.len(), 24);
    assert_eq!(m.indices.len(), 36);
    // first face: +x side, wound the other way, normal stored as -x
    assert_eq!(m.vertices[0].pos, [1, 0, 0]);
    assert_eq!(m.vertices[3].pos, [1, 1, 1]);
    assert_eq!(m.vertices[0].normal, [-1, 0, 0]);
    assert_eq!(&m.indices[0..6], &[2, 1, 0, 3, 1, 2]);
    // second face: -x side
    assert_eq!(m.vertices[4].pos, [0, 0, 0]);
    assert_eq!(m.vertices[4].normal, [1, 0, 0]);
    assert_eq!(&m.indices[6..12], &[4, 5, 6, 6, 5, 7]);
    // third face: +y side
    assert_eq!(m.vertices[8].pos, [0, 1, 0]);
    assert_eq!(m.vertices[8].normal, [0, 1, 0]);
    for &i in m.indices.iter() {
        assert!(i < 24);
    }
}

#[test]
fn blocky_of_empty_space_is_empty() {
    let s = SphereSource { x: 100, y: 100, z: 100, r: 1 };
    let mut b = Blocky { size: 4 };
    let m = b.mesh(&s);
    assert_eq!(m.vertices.len(), 0);
    assert_eq!(m.indices.len(), 0);
}

#[test]
fn blocky_two_voxels_share_no_face() {
    // a 2x1x1 bar: 10 faces
    struct Bar;
    impl VoxelSource for Bar {
        fn get(&self, x: i32, y: i32, z: i32) -> bool {
            (x == 0 || x == 1) && y == 0 && z == 0
        }
    }
    let mut b = Blocky { size: 2 };
    let m = b.mesh(&Bar);
    assert_eq!(m.vertices.len(), 40);
    assert_eq!(m.indices.len(), 60);
}

#[test]
fn mesh_translate_moves_positions_only() {
    let mut m = Mesh::new();
    m.vertices.push(Vertex::from_pos([1, 2, 3]));
    m.vertices.push(Vertex::new());
    m.indices.push(0);
    m.translate([10, -20, 30]);
    assert_eq!(m.vertices[0].pos, [11, -18, 33]);
    assert_eq!(m.vertices[1].pos, [10, -20, 30]);
    assert_eq!(m.vertices[1].normal, [0, 0, 0]);
    assert_eq!(m.indices, vec![0]);
}

#[test]
fn chunk_manager_generate_is_idempotent() {
    let s = SphereSource { x: 32, y: -64, z: 32, r: 96 };
    let mut cm: ChunkManager<SphereSource, u8, u32> = ChunkManager::new(s, 1);
    assert!(cm.update_plan().is_empty());
    cm.generate(0, 0, 0, 1);
    cm.generate(0, 0, 64, 1);
    cm.generate(0, 0, 0, 2);
    assert_eq!(cm.chunks().len(), 2);
    assert_eq!(cm.chunks()[0].r, 1);
    assert_eq!(cm.update_plan(), vec![0, 1]);
    cm.store(0, 7);
    assert_eq!(cm.update_plan(), vec![1]);
    cm.store(1, 8);
    cm.finish_update();
    assert!(cm.update_plan().is_empty());
    cm.set_mesher(2);
    assert_eq!(cm.update_plan(), vec![0, 1]);
    assert!(cm.chunks()[0].data.is_none());
}

#[test]
fn chunk_source_maps_to_world_voxels() {
    let s = SphereSource { x: 10, y: 0, z: 0, r: 1 };
    let mut cm: ChunkManager<SphereSource, u8, u32> = ChunkManager::new(s, 1);
    cm.generate(4, 0, 0, 2);
    let (m, src) = cm.mesher_and_source(0);
    *m = 5;
    // chunk voxel x is world voxel x * 2 + 4 * 2
    assert!(src.get(1, 0, 0));
    assert!(!src.get(0, 0, 0));
    let ChunkSource { chunk, .. } = src;
    assert_eq!(chunk.x, 4);
}

#[test]
fn mesh_translate_back_restores_positions() {
    let mut m = Mesh::new();
    m.vertices.push(Vertex::from_pos([1, 2, 3]));
    m.vertices.push(Vertex::from_pos([-7, 0, 9]));
    m.translate([5, -6, 7]);
    m.translate([-5, 6, -7]);
    assert_eq!(m.vertices[0].pos, [1, 2, 3]);
    assert_eq!(m.vertices[1].pos, [-7, 0, 9]);
}

#[test]
fn chunk_set_leaves_other_voxels() {
    let mut c = Chunk::new();
    let before: Vec<bool> = (0..64).map(|x| c.get(x, 10, 32)).collect();
    c.set(5, 10, 32, !before[5]);
    for x in 0..64 {
        if x == 5 {
            assert_eq!(c.get(x, 10, 32), !before[5]);
        } else {
            assert_eq!(c.get(x, 10, 32), before[x]);
        }
    }
}

#[test]
fn surfnet_map_and_cells_agree() {
    let s = SphereSource { x: 1, y: 1, z: 1, r: 2 };
    let mut net = SurfNet { size: 4, smooth: 0 };
    let b = net.mesh(&s);
    let cells = b.positions();
    assert!(!cells.is_empty());
    for x in -1..5 {
        for y in -1..5 {
            for z in -1..5 {
                let e = b.index_at(x, y, z);
                match cells.iter().position(|&c| c == (x, y, z)) {
                    Some(i) => assert_eq!(e, i as i32),
                    None => assert_eq!(e, -1),
                }
            }
        }
    }
}
