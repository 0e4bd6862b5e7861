//! Chunks of the world and the manager that keeps their meshes.
//!
//! The manager decides which chunks need a mesh; meshing a chunk and handing
//! the mesh to the graphics device are done by the caller, which stores the
//! device's data for the chunk back in the manager.
pub mod grid;

use vstd::prelude::*;
use crate::voxel_source::{fits_i32, VoxelSource};

verus! {

/// A chunk of the world: its corner `(x, y, z)` in metres, its resolution
/// `r` (world voxels per chunk voxel) and the data made from its mesh, if any.
pub struct Chunk<D> {
    pub x: i32,
    pub y: i32,
    pub z: i32,
    pub r: i32,
    pub data: Option<D>,
}

/// The voxels of one chunk: chunk voxel `(x, y, z)` is world voxel
/// `(x * r + 2 * cx, y * r + 2 * cy, z * r + 2 * cz)` (voxels are half a
/// metre big).
pub struct ChunkSource<'a, S: VoxelSource, D> {
    pub orig: &'a S,
    pub chunk: &'a Chunk<D>,
}

impl<'a, S: VoxelSource, D> ChunkSource<'a, S, D> {
    /// The world coordinate of chunk coordinate `v` along an axis whose
    /// corner is at `c`.
    pub open spec fn world(&self, v: int, c: int) -> int {
        v * self.chunk.r + c * 2
    }

    /// The `i32` arithmetic of the mapping along one axis does not overflow.
    pub open spec fn maps(&self, v: int, c: int) -> bool {
        fits_i32(v * self.chunk.r) && fits_i32(c * 2) && fits_i32(self.world(v, c))
    }
}

impl<'a, S: VoxelSource, D> VoxelSource for ChunkSource<'a, S, D> {
    open spec fn solid(&self, x: int, y: int, z: int) -> bool {
        self.orig.solid(
            self.world(x, self.chunk.x as int),
            self.world(y, self.chunk.y as int),
            self.world(z, self.chunk.z as int),
        )
    }

    open spec fn defined_at(&self, x: int, y: int, z: int) -> bool {
        &&& self.maps(x, self.chunk.x as int)
        &&& self.maps(y, self.chunk.y as int)
        &&& self.maps(z, self.chunk.z as int)
        &&& self.orig.defined_at(
            self.world(x, self.chunk.x as int),
            self.world(y, self.chunk.y as int),
            self.world(z, self.chunk.z as int),
        )
    }

    fn get(&self, x: i32, y: i32, z: i32) -> (b: bool) {
        let c = self.chunk;
        self.orig.get(x * c.r + c.x * 2, y * c.r + c.y * 2, z * c.r + c.z * 2)
    }
}

/// Whether a chunk sits at `(x, y, z)`.
pub open spec fn at<D>(c: Chunk<D>, x: int, y: int, z: int) -> bool {
    c.x == x && c.y == y && c.z == z
}

/// No two chunks sit at the same corner.
pub open spec fn distinct_corners<D>(chunks: Seq<Chunk<D>>) -> bool {
    forall|i: int, j: int|
        0 <= i < chunks.len() && 0 <= j < chunks.len() && i != j ==> !at(
            #[trigger] chunks[i],
            chunks[j].x as int,
            chunks[j].y as int,
            #[trigger] chunks[j].z as int,
        )
}

/// The chunks after asking for one at `(x, y, z)`: unchanged if one is
/// there already, else with a new chunk without data at the end.
pub open spec fn generated<D>(chunks: Seq<Chunk<D>>, x: i32, y: i32, z: i32, r: i32) -> Seq<Chunk<D>> {
    if exists|i: int| 0 <= i < chunks.len() && at(#[trigger] chunks[i], x as int, y as int, z as int) {
        chunks
    } else {
        chunks.push(Chunk { x, y, z, r, data: None })
    }
}

/// A chunk's voxel `(x, y, z)` is the world's voxel
/// `(x * r + 2 * cx, y * r + 2 * cy, z * r + 2 * cz)`, axis by axis, where
/// `(cx, cy, cz)` is the chunk's corner and `r` its resolution; where the
/// chunk's source can be asked, the world's can be asked there.
pub proof fn law_chunk_voxel_is_world_voxel<'a, S: VoxelSource, D>(src: ChunkSource<'a, S, D>, x: int, y: int, z: int)
    ensures
        src.solid(x, y, z) == src.orig.solid(
            x * src.chunk.r + 2 * src.chunk.x,
            y * src.chunk.r + 2 * src.chunk.y,
            z * src.chunk.r + 2 * src.chunk.z,
        ),
        src.defined_at(x, y, z) ==> src.orig.defined_at(
            x * src.chunk.r + 2 * src.chunk.x,
            y * src.chunk.r + 2 * src.chunk.y,
            z * src.chunk.r + 2 * src.chunk.z,
        ),
{
}

/// Asking for a chunk at the corner `(x, y, z)` keeps every chunk there was,
/// in order, and leaves one whose corner is exactly `(x, y, z)`; it adds
/// the new chunk, without data, exactly when no chunk had that corner, so a
/// chunk at a corner that differs in any one coordinate does not stop it.
pub proof fn law_generate_adds_exactly_when_absent<D>(chunks: Seq<Chunk<D>>, x: i32, y: i32, z: i32, r: i32)
    ensures
        ({
            let g = generated(chunks, x, y, z, r);
            let present = exists|i: int|
                0 <= i < chunks.len() && (#[trigger] chunks[i]).x == x && chunks[i].y == y && chunks[i].z == z;
            &&& g.len() == chunks.len() + (if present { 0int } else { 1int })
            &&& forall|i: int| 0 <= i < chunks.len() ==> #[trigger] g[i] == chunks[i]
            &&& exists|i: int| 0 <= i < g.len() && (#[trigger] g[i]).x == x && g[i].y == y && g[i].z == z
            &&& !present ==> g[chunks.len() as int] == Chunk::<D> { x, y, z, r, data: None }
        }),
{
    let g = generated(chunks, x, y, z, r);
    if exists|i: int| 0 <= i < chunks.len() && (#[trigger] chunks[i]).x == x && chunks[i].y == y && chunks[i].z == z {
        let i = choose|i: int| 0 <= i < chunks.len() && (#[trigger] chunks[i]).x == x && chunks[i].y == y && chunks[i].z == z;
        assert(at(chunks[i], x as int, y as int, z as int));
        assert(g[i].x == x);
    } else {
        assert(!exists|i: int| 0 <= i < chunks.len() && at(#[trigger] chunks[i], x as int, y as int, z as int)) by {
            if exists|i: int| 0 <= i < chunks.len() && at(#[trigger] chunks[i], x as int, y as int, z as int) {
                let i = choose|i: int| 0 <= i < chunks.len() && at(#[trigger] chunks[i], x as int, y as int, z as int);
                assert(chunks[i].x == x && chunks[i].y == y && chunks[i].z == z);
            }
        }
        let l = chunks.len() as int;
        assert(g[l].x == x);
    }
}

/// The indices, in order, of the first `k` chunks that have no data.
pub open spec fn unmeshed<D>(chunks: Seq<Chunk<D>>, k: nat) -> Seq<usize>
    decreases k,
{
    if k == 0 {
        Seq::empty()
    } else {
        unmeshed(chunks, (k - 1) as nat) + (if chunks[k - 1].data is None {
            seq![(k - 1) as usize]
        } else {
            Seq::empty()
        })
    }
}

/// Asking twice for a chunk at the same corner is asking once.
pub proof fn law_generate_idempotent<D>(chunks: Seq<Chunk<D>>, x: i32, y: i32, z: i32, r: i32, r2: i32)
    ensures
        generated(generated(chunks, x, y, z, r), x, y, z, r2) == generated(chunks, x, y, z, r),
{
    let g = generated(chunks, x, y, z, r);
    if !(exists|i: int| 0 <= i < chunks.len() && at(#[trigger] chunks[i], x as int, y as int, z as int)) {
        assert(at(g[chunks.len() as int], x as int, y as int, z as int));
    }
}

/// After asking for a chunk at a corner, there is exactly one there (when
/// the corners were distinct before).
pub proof fn law_generate_present<D>(chunks: Seq<Chunk<D>>, x: i32, y: i32, z: i32, r: i32)
    requires
        distinct_corners(chunks),
    ensures
        exists|i: int|
            0 <= i < generated(chunks, x, y, z, r).len() && at(
                #[trigger] generated(chunks, x, y, z, r)[i],
                x as int,
                y as int,
                z as int,
            ),
        distinct_corners(generated(chunks, x, y, z, r)),
{
    let g = generated(chunks, x, y, z, r);
    if !(exists|i: int| 0 <= i < chunks.len() && at(#[trigger] chunks[i], x as int, y as int, z as int)) {
        assert(at(g[chunks.len() as int], x as int, y as int, z as int));
        assert forall|i: int, j: int|
            0 <= i < g.len() && 0 <= j < g.len() && i != j implies !at(
                #[trigger] g[i],
                g[j].x as int,
                g[j].y as int,
                #[trigger] g[j].z as int,
            ) by {
            if i < chunks.len() && j < chunks.len() {
                assert(g[i] == chunks[i] && g[j] == chunks[j]);
            } else if i < chunks.len() {
                assert(g[i] == chunks[i]);
            } else {
                assert(g[j] == chunks[j]);
            }
        }
    }
}

/// The plan of an update lists, in increasing order, exactly the chunks
/// that have no data.
pub proof fn law_plan_is_unmeshed<D>(chunks: Seq<Chunk<D>>, k: nat)
    requires
        k <= chunks.len(),
        chunks.len() <= usize::MAX,
    ensures
        forall|i: int|
            0 <= i < k ==> (chunks[i].data is None <==> unmeshed(chunks, k).contains(i as usize)),
        forall|a: int, b: int|
            0 <= a < b < unmeshed(chunks, k).len() ==> unmeshed(chunks, k)[a] < unmeshed(chunks, k)[b],
        forall|a: int| 0 <= a < unmeshed(chunks, k).len() ==> unmeshed(chunks, k)[a] < k,
    decreases k,
{
    if k > 0 {
        let k1 = (k - 1) as nat;
        law_plan_is_unmeshed(chunks, k1);
        let prev = unmeshed(chunks, k1);
        let cur = unmeshed(chunks, k);
        if chunks[k1 as int].data is None {
            assert(cur == prev.push(k1 as usize));
        } else {
            assert(cur =~= prev);
        }
        assert forall|a: int, b: int| 0 <= a < b < cur.len() implies cur[a] < cur[b] by {
            if b < prev.len() {
                assert(cur[a] == prev[a] && cur[b] == prev[b]);
            } else {
                assert(cur[a] == prev[a]);
            }
        }
        assert forall|a: int| 0 <= a < cur.len() implies cur[a] < k by {
            if a < prev.len() {
                assert(cur[a] == prev[a]);
            }
        }
        assert forall|i: int| 0 <= i < k implies (chunks[i].data is None <==> cur.contains(i as usize)) by {
            if i < k1 {
                if prev.contains(i as usize) {
                    let w = choose|w: int| 0 <= w < prev.len() && prev[w] == i as usize;
                    assert(cur[w] == i as usize);
                }
                if cur.contains(i as usize) {
                    let w = choose|w: int| 0 <= w < cur.len() && cur[w] == i as usize;
                    if w < prev.len() {
                        assert(cur[w] == prev[w]);
                    } else {
                        assert(cur[w] == k1 as usize);
                    }
                }
            } else {
                if chunks[i].data is None {
                    assert(cur[prev.len() as int] == i as usize);
                } else {
                    assert(cur =~= prev);
                    if cur.contains(i as usize) {
                        let w = choose|w: int| 0 <= w < cur.len() && cur[w] == i as usize;
                        assert(prev[w] < k1);
                    }
                }
            }
        }
    }
}

/// When no chunk has data (as after `set_mesher`), the plan of an update
/// is every chunk, in order.
pub proof fn law_all_unmeshed<D>(chunks: Seq<Chunk<D>>, k: nat)
    requires
        k <= chunks.len(),
        chunks.len() <= usize::MAX,
        forall|i: int| 0 <= i < chunks.len() ==> (#[trigger] chunks[i]).data is None,
    ensures
        unmeshed(chunks, k) == Seq::new(k, |i: int| i as usize),
    decreases k,
{
    if k > 0 {
        let k1 = (k - 1) as nat;
        law_all_unmeshed(chunks, k1);
        assert(chunks[k1 as int].data is None);
        assert(unmeshed(chunks, k) =~= Seq::new(k, |i: int| i as usize));
    } else {
        assert(unmeshed(chunks, k) =~= Seq::new(k, |i: int| i as usize));
    }
}

/// The chunks of the world, the source of their voxels, the mesher that
/// meshes them, and whether any chunk may need a new mesh.
pub struct ChunkManager<S: VoxelSource, M, D> {
    chunks: Vec<Chunk<D>>,
    source: S,
    mesher: M,
    modified: bool,
}

impl<S: VoxelSource, M, D> ChunkManager<S, M, D> {
    /// The chunks, in the order they were asked for.
    pub closed spec fn chunk_list(&self) -> Seq<Chunk<D>> {
        self.chunks@
    }

    /// The source of the voxels of every chunk.
    pub closed spec fn voxel_source(&self) -> S {
        self.source
    }

    /// The mesher that meshes the chunks.
    pub closed spec fn current_mesher(&self) -> M {
        self.mesher
    }

    /// Whether some chunk may lack its mesh.
    pub closed spec fn is_modified(&self) -> bool {
        self.modified
    }

    /// A manager with no chunks.
    pub fn new(s: S, m: M) -> (c: Self)
        ensures
            c.chunk_list() == Seq::<Chunk<D>>::empty(),
            c.voxel_source() == s,
            c.current_mesher() == m,
            !c.is_modified(),
    {
        ChunkManager { chunks: Vec::new(), source: s, mesher: m, modified: false }
    }

    /// Asks for a chunk at `(x, y, z)` with resolution `r`; nothing happens
    /// if there is one at that corner already.
    pub fn generate(&mut self, x: i32, y: i32, z: i32, r: i32)
        ensures
            final(self).chunk_list() == generated(old(self).chunk_list(), x, y, z, r),
            final(self).voxel_source() == old(self).voxel_source(),
            final(self).current_mesher() == old(self).current_mesher(),
            final(self).is_modified() == (old(self).is_modified() || final(self).chunk_list() != old(
                self,
            ).chunk_list()),
            distinct_corners(old(self).chunk_list()) ==> distinct_corners(final(self).chunk_list()),
    {
        let mut i: usize = 0;
        while i < self.chunks.len()
            invariant
                0 <= i <= self.chunks@.len(),
                self.chunks@ == old(self).chunks@,
                self.modified == old(self).modified,
                self.source == old(self).source,
                self.mesher == old(self).mesher,
                forall|j: int| 0 <= j < i ==> !at(#[trigger] self.chunks@[j], x as int, y as int, z as int),
            decreases self.chunks@.len() - i,
        {
            let c = &self.chunks[i];
            if c.x == x && c.y == y && c.z == z {
                return;
            }
            i += 1;
        }
        self.chunks.push(Chunk { x: x, y: y, z: z, r: r, data: None });
        self.modified = true;
        assert(self.chunks@ != old(self).chunks@) by {
            assert(self.chunks@.len() != old(self).chunks@.len());
        }
    }

    /// Replaces the mesher: every chunk loses its data and will be meshed again.
    pub fn set_mesher(&mut self, m: M)
        ensures
            final(self).current_mesher() == m,
            final(self).voxel_source() == old(self).voxel_source(),
            final(self).is_modified(),
            final(self).chunk_list().len() == old(self).chunk_list().len(),
            forall|i: int|
                0 <= i < final(self).chunk_list().len() ==> {
                    let c = #[trigger] final(self).chunk_list()[i];
                    let o = old(self).chunk_list()[i];
                    &&& c.x == o.x && c.y == o.y && c.z == o.z && c.r == o.r
                    &&& c.data is None
                },
    {
        self.mesher = m;
        let mut i: usize = 0;
        while i < self.chunks.len()
            invariant
                0 <= i <= self.chunks@.len(),
                self.chunks@.len() == old(self).chunks@.len(),
                self.mesher == m,
                self.source == old(self).source,
                forall|j: int|
                    0 <= j < self.chunks@.len() ==> {
                        let c = #[trigger] self.chunks@[j];
                        let o = old(self).chunks@[j];
                        &&& c.x == o.x && c.y == o.y && c.z == o.z && c.r == o.r
                        &&& j < i ==> c.data is None
                    },
            decreases self.chunks@.len() - i,
        {
            let c = &self.chunks[i];
            let fresh = Chunk { x: c.x, y: c.y, z: c.z, r: c.r, data: None };
            self.chunks.set(i, fresh);
            i += 1;
        }
        self.modified = true;
    }

    /// The chunks to mesh in this update, in order: none unless something
    /// changed, else every chunk without data.
    pub fn update_plan(&self) -> (plan: Vec<usize>)
        ensures
            plan@ == (if self.is_modified() {
                unmeshed(self.chunk_list(), self.chunk_list().len())
            } else {
                Seq::empty()
            }),
    {
        let mut plan: Vec<usize> = Vec::new();
        if !self.modified {
            return plan;
        }
        let mut i: usize = 0;
        while i < self.chunks.len()
            invariant
                0 <= i <= self.chunks@.len(),
                self.modified,
                plan@ == unmeshed(self.chunks@, i as nat),
            decreases self.chunks@.len() - i,
        {
            if self.chunks[i].data.is_none() {
                plan.push(i);
            }
            assert(((i + 1) as nat) - 1 == i);
            assert(plan@ =~= unmeshed(self.chunks@, (i + 1) as nat));
            i += 1;
        }
        plan
    }

    /// The voxels of chunk `i`, for meshing it, and the mesher.
    pub fn mesher_and_source(&mut self, i: usize) -> (r: (&mut M, ChunkSource<'_, S, D>))
        requires
            i < old(self).chunk_list().len(),
        ensures
            *r.0 == old(self).current_mesher(),
            *r.1.orig == old(self).voxel_source(),
            *r.1.chunk == old(self).chunk_list()[i as int],
            final(self).current_mesher() == *final(r.0),
            final(self).chunk_list() == old(self).chunk_list(),
            final(self).voxel_source() == old(self).voxel_source(),
            final(self).is_modified() == old(self).is_modified(),
    {
        (&mut self.mesher, ChunkSource { orig: &self.source, chunk: &self.chunks[i] })
    }

    /// Stores the data made from the new mesh of chunk `i`.
    pub fn store(&mut self, i: usize, d: D)
        requires
            i < old(self).chunk_list().len(),
        ensures
            final(self).chunk_list() == old(self).chunk_list().update(
                i as int,
                Chunk { data: Some(d), ..old(self).chunk_list()[i as int] },
            ),
            final(self).voxel_source() == old(self).voxel_source(),
            final(self).current_mesher() == old(self).current_mesher(),
            final(self).is_modified() == old(self).is_modified(),
    {
        let c = &self.chunks[i];
        let fresh = Chunk { x: c.x, y: c.y, z: c.z, r: c.r, data: Some(d) };
        self.chunks.set(i, fresh);
    }

    /// Ends an update: every chunk that needed a mesh has one.
    pub fn finish_update(&mut self)
        ensures
            !final(self).is_modified(),
            final(self).chunk_list() == old(self).chunk_list(),
            final(self).voxel_source() == old(self).voxel_source(),
            final(self).current_mesher() == old(self).current_mesher(),
    {
        self.modified = false;
    }

    /// The chunks, to draw the ones that have data.
    pub fn chunks(&self) -> (r: &Vec<Chunk<D>>)
        ensures
            r@ == self.chunk_list(),
    {
        &self.chunks
    }
}

} // verus!
