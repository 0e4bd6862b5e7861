use miterra::marching_cubes::{corner_offset, CubeTables, MarchingCubes};
use miterra::SphereSource;

fn empty_rows() -> Vec<[usize; 16]> {
    vec![[12; 16]; 256]
}

/// Case 1 (only corner 0 inside) gets the single triangle over edges 0, 8, 3.
fn one_corner_tables() -> CubeTables {
    let mut rows = empty_rows();
    rows[1] = [0, 8, 3, 12, 12, 12, 12, 12, 12, 12, 12, 12, 12, 12, 12, 12];
    CubeTables::new(rows, [0, 1, 2]).expect("the table is usable")
}

fn side_field(size: i32) -> Vec<bool> {
    let s = (size + 5) as usize;
    vec![false; s * s * s]
}

#[test]
fn edge_table_marks_the_edges_of_a_lone_corner() {
    let t = one_corner_tables();
    assert_eq!(t.edge_flags.len(), 256);
    assert_eq!(t.edge_flags[0], 0);
    assert_eq!(t.edge_flags[255], 0);
    // corner 0 alone: edges 0, 3 and 8
    assert_eq!(t.edge_flags[1], (1 << 0) | (1 << 3) | (1 << 8));
    // corner 6 alone: edges 5, 6 and 10
    assert_eq!(t.edge_flags[64], (1 << 5) | (1 << 6) | (1 << 10));
    // bottom face inside: the four vertical edges
    assert_eq!(t.edge_flags[15], (1 << 8) | (1 << 9) | (1 << 10) | (1 << 11));
}

#[test]
fn tables_need_a_row_per_case() {
    assert!(CubeTables::new(vec![[12; 16]; 255], [0, 1, 2]).is_none());
}

#[test]
fn tables_need_a_winding_within_the_triangle() {
    assert!(CubeTables::new(empty_rows(), [0, 1, 3]).is_none());
}

#[test]
fn tables_refuse_a_triangle_over_an_uncrossed_edge() {
    let mut rows = empty_rows();
    // edge 5 does not touch corner 0
    rows[1] = [0, 8, 5, 12, 12, 12, 12, 12, 12, 12, 12, 12, 12, 12, 12, 12];
    assert!(CubeTables::new(rows, [0, 1, 2]).is_none());
}

#[test]
fn tables_refuse_an_edge_number_past_eleven() {
    let mut rows = empty_rows();
    rows[1] = [0, 8, 13, 12, 12, 12, 12, 12, 12, 12, 12, 12, 12, 12, 12, 12];
    assert!(CubeTables::new(rows, [0, 1, 2]).is_none());
}

#[test]
fn empty_field_gives_an_empty_mesh() {
    let t = one_corner_tables();
    let mut mc = MarchingCubes { size: 3, smooth: false };
    let b = mc.mesh(&side_field(3), &t);
    assert!(b.vertices().is_empty());
    assert!(b.indices().is_empty());
}

#[test]
fn size_zero_gives_an_empty_mesh() {
    let t = one_corner_tables();
    let mut mc = MarchingCubes { size: 0, smooth: true };
    let b = mc.mesh(&side_field(0), &t);
    assert!(b.vertices().is_empty());
    assert!(b.indices().is_empty());
}

#[test]
fn one_inside_corner_gives_one_triangle() {
    let t = one_corner_tables();
    let mut mc = MarchingCubes { size: 1, smooth: false };
    let mut field = side_field(1);
    field[0] = true;
    let b = mc.mesh(&field, &t);
    let v = b.vertices();
    assert_eq!(v.len(), 3);
    // made in the order edge 0, edge 3 (bottom), edge 8 (vertical)
    assert_eq!((v[0].pos, v[0].a, v[0].b), ([0, 0, 0], 0, 1));
    assert_eq!((v[1].pos, v[1].a, v[1].b), ([0, 0, 0], 3, 0));
    assert_eq!((v[2].pos, v[2].a, v[2].b), ([0, 0, 0], 0, 4));
    // triangle over edges 0, 8, 3
    assert_eq!(b.indices(), &vec![0u16, 2, 1]);
}

#[test]
fn winding_reorders_each_triangle() {
    let mut rows = empty_rows();
    rows[1] = [0, 8, 3, 12, 12, 12, 12, 12, 12, 12, 12, 12, 12, 12, 12, 12];
    let t = CubeTables::new(rows, [2, 1, 0]).expect("the table is usable");
    let mut mc = MarchingCubes { size: 1, smooth: false };
    let mut field = side_field(1);
    field[0] = true;
    let b = mc.mesh(&field, &t);
    assert_eq!(b.indices(), &vec![1u16, 2, 0]);
}

#[test]
fn neighbouring_cubes_share_edge_vertices() {
    // corner (1, 0, 0) inside: it is corner 1 of cube (0, 0, 0) and corner 0
    // of cube (1, 0, 0); the x edge from (0,0,0) to (1,0,0) crosses in both
    // views and gets one vertex only if it is shared through the caches.
    let mut rows = empty_rows();
    rows[1] = [0, 8, 3, 12, 12, 12, 12, 12, 12, 12, 12, 12, 12, 12, 12, 12];
    rows[2] = [0, 1, 9, 12, 12, 12, 12, 12, 12, 12, 12, 12, 12, 12, 12, 12];
    let t = CubeTables::new(rows, [0, 1, 2]).expect("the table is usable");
    let mut mc = MarchingCubes { size: 2, smooth: false };
    let mut field = side_field(2);
    field[1] = true;
    let b = mc.mesh(&field, &t);
    let v = b.vertices();
    let idx = b.indices();
    assert_eq!(idx.len(), 6);
    for &i in idx.iter() {
        assert!((i as usize) < v.len());
    }
    // cube (0,0,0) makes edges 0, 1, 9; cube (1,0,0) makes edges 0, 3 and
    // takes its edge 8 from the cache
    let made: Vec<([i32; 3], u8, u8)> = v.iter().map(|w| (w.pos, w.a, w.b)).collect();
    assert_eq!(
        made,
        vec![([0, 0, 0], 0, 1), ([0, 0, 0], 1, 2), ([0, 0, 0], 1, 5), ([1, 0, 0], 0, 1), ([1, 0, 0], 3, 0)]
    );
    assert_eq!(idx, &vec![0u16, 1, 2, 3, 2, 4]);
    // both triangles meet at the vertex on the segment (1,0,0)-(1,1,0)
    let on_vertical = |i: u16| {
        let w = &v[i as usize];
        (w.pos == [0, 0, 0] && (w.a, w.b) == (1, 5)) || (w.pos == [1, 0, 0] && (w.a, w.b) == (0, 4))
    };
    assert!(on_vertical(idx[2]));
    assert!(on_vertical(idx[4]));
    assert_eq!(idx[2], idx[4]);
}

#[test]
fn fill_voxels_samples_the_source() {
    let mc = MarchingCubes { size: 1, smooth: false };
    let source = SphereSource { x: 0, y: 0, z: 0, r: 2 };
    let v = mc.fill_voxels(&source);
    let s = 6usize;
    assert_eq!(v.len(), s * s * s);
    assert!(v[0]);
    assert!(v[1]);
    assert!(v[1 + s]);
    assert!(v[1 + s + s * s]);
    assert!(!v[2]);
    assert!(!v[2 * s]);
    assert!(!v[5 + 5 * s + 5 * s * s]);
}

/// The lattice segment of a vertex, ends in a fixed order.
fn segment(pos: [i32; 3], a: u8, b: u8) -> ([i32; 3], [i32; 3]) {
    let oa = corner_offset(a);
    let ob = corner_offset(b);
    let p = [pos[0] + oa[0], pos[1] + oa[1], pos[2] + oa[2]];
    let q = [pos[0] + ob[0], pos[1] + ob[1], pos[2] + ob[2]];
    if p <= q {
        (p, q)
    } else {
        (q, p)
    }
}

/// Rows for the eight cases with one corner inside: one triangle over the
/// three edges at that corner.
fn single_corner_tables() -> CubeTables {
    let at_corner = [[0, 3, 8], [0, 1, 9], [1, 2, 10], [2, 3, 11], [4, 7, 8], [4, 5, 9], [5, 6, 10], [6, 7, 11]];
    let mut rows = empty_rows();
    for (i, e) in at_corner.iter().enumerate() {
        let mut row = [12usize; 16];
        row[0] = e[0];
        row[1] = e[1];
        row[2] = e[2];
        rows[1 << i] = row;
    }
    CubeTables::new(rows, [0, 1, 2]).expect("the table is usable")
}

#[test]
fn eight_cubes_around_an_inner_voxel_share_six_vertices() {
    let t = single_corner_tables();
    let mut mc = MarchingCubes { size: 2, smooth: false };
    let mut field = side_field(2);
    let s = 7;
    field[1 + s + s * s] = true;
    let b = mc.mesh(&field, &t);
    let v = b.vertices();
    let idx = b.indices();
    // one triangle in each of the eight cubes
    assert_eq!(idx.len(), 24);
    // the six lattice edges at (1, 1, 1), one vertex each
    assert_eq!(v.len(), 6);
    let mut segs: Vec<([i32; 3], [i32; 3])> = v.iter().map(|w| segment(w.pos, w.a, w.b)).collect();
    segs.sort();
    segs.dedup();
    assert_eq!(segs.len(), 6);
    for (lo, hi) in segs.iter() {
        assert!(*lo == [1, 1, 1] || *hi == [1, 1, 1]);
    }
    for &i in idx.iter() {
        assert!((i as usize) < v.len());
    }
}

#[test]
fn corner_offsets_match_the_cube_layout() {
    assert_eq!(corner_offset(0), [0, 0, 0]);
    assert_eq!(corner_offset(2), [1, 0, 1]);
    assert_eq!(corner_offset(5), [1, 1, 0]);
    assert_eq!(corner_offset(7), [0, 1, 1]);
}

#[test]
fn fill_voxels_of_side_zero_is_empty() {
    let mc = MarchingCubes { size: -5, smooth: false };
    let source = SphereSource { x: 0, y: 0, z: 0, r: 2 };
    assert!(mc.fill_voxels(&source).is_empty());
}
