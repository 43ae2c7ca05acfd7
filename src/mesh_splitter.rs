//! The splitter: a mesh, its bounding rectangle, and the `n` by `n` grid of
//! chunks over it, populated in parallel.
use rayon::iter::{IntoParallelRefMutIterator, ParallelIterator};
use vstd::prelude::*;
use vstd::arithmetic::div_mod::{lemma_fundamental_div_mod, lemma_fundamental_div_mod_converse};
use vstd::arithmetic::mul::lemma_mul_inequality;
use crate::obj_text::{chunk_file_name, obj_text};
use crate::chunk::{
    chunk_indices, chunk_vertices, holds_triangle, lemma_touching_triangle_kept, triangle_touches, vertex_inside, ChunkFile,
    MeshChunk,
};
use crate::geometry::{
    bounding_rect, calc_mesh_boundary, cell_boundary, grid_line, is_bounding_rect, lemma_grid_covers, lemma_grid_line_ordered,
    vertex_x, vertex_z, Mesh, MeshBoundary,
};

verus! {

/// Why a mesh cannot be split.
#[derive(Debug, Clone, Copy, PartialEq, Eq, Structural)]
pub enum SplitError {
    /// A buffer length is not a multiple of three, an index names no vertex,
    /// or there are more vertices than `u32` can number.
    MalformedMesh,
    /// The mesh has no vertex.
    EmptyMesh,
    /// The number of chunks per axis is zero, or its square is too large.
    InvalidChunkCount(usize),
}

/// Chunk `k` of a grid of `n` by `n` chunks stands at `(k / n, k % n)`.
pub proof fn lemma_cell_place(n: int, i: int, j: int)
    requires
        0 <= i < n,
        0 <= j < n,
    ensures
        0 <= i * n + j < n * n,
        (i * n + j) / n == i,
        (i * n + j) % n == j,
{
    lemma_fundamental_div_mod_converse(i * n + j, n, i, j);
    lemma_mul_inequality(i + 1, n, n);
    assert((i + 1) * n == i * n + n) by (nonlinear_arith);
}

/// Chunk `k` of a grid of `n` by `n` chunks has a place in the grid, and
/// distinct chunks have distinct places.
pub proof fn lemma_place_in_grid(n: int, k: int)
    requires
        n >= 1,
        0 <= k < n * n,
    ensures
        0 <= k / n < n,
        0 <= k % n < n,
        k == (k / n) * n + k % n,
{
    lemma_fundamental_div_mod(k, n);
    assert(n * (k / n) == (k / n) * n) by (nonlinear_arith);
    assert(k / n >= 0) by (nonlinear_arith)
        requires k >= 0, n >= 1;
    if k / n >= n {
        lemma_mul_inequality(n, k / n, n);
    }
}

/// `c` stands at `k` of the grid of `n` by `n` chunks over `b`: its place and
/// its rectangle are those of cell `(k / n, k % n)`.
pub open spec fn is_planned_chunk(c: MeshChunk, b: MeshBoundary, n: int, k: int) -> bool {
    &&& c.index_in_mesh == ((k / n) as usize, (k % n) as usize)
    &&& c.boundary == cell_boundary(b, n, k / n, k % n)
}

/// The chunk at place `(i, j)` of a grid with `n` chunks per axis.
pub open spec fn grid_cell(chunks: Seq<MeshChunk>, n: int, i: int, j: int) -> MeshChunk {
    chunks[i * n + j]
}

/// `chunks` is the grid of `n` by `n` chunks over `b`, cell `(i, j)` at
/// `i * n + j`.
pub open spec fn is_planned_grid(chunks: Seq<MeshChunk>, b: MeshBoundary, n: int) -> bool {
    &&& n >= 1
    &&& n * n <= usize::MAX
    &&& b.wf()
    &&& chunks.len() == n * n
    &&& forall|k: int| 0 <= k < n * n ==> is_planned_chunk(#[trigger] chunks[k], b, n, k)
}

/// `c`'s buffers are those of a chunk with its rectangle populated from `mesh`.
pub open spec fn is_populated_chunk(c: MeshChunk, mesh: &Mesh) -> bool {
    &&& c.vertices@ == chunk_vertices(c.boundary, mesh)
    &&& c.indices@ == chunk_indices(c.boundary, mesh)
}

/// Relies on rayon's `par_iter_mut().for_each`: the closure is called once
/// on each element of `chunks`, each call with its own element.
#[verifier::external_body]
fn populate_in_parallel(chunks: &mut Vec<MeshChunk>, mesh: &Mesh)
    requires
        mesh.wf(),
        forall|k: int| 0 <= k < old(chunks)@.len() ==> (#[trigger] old(chunks)@[k]).is_empty(),
    ensures
        final(chunks)@.len() == old(chunks)@.len(),
        forall|k: int| 0 <= k < old(chunks)@.len() ==> (#[trigger] final(chunks)@[k]).boundary == old(chunks)@[k].boundary
            && final(chunks)@[k].index_in_mesh == old(chunks)@[k].index_in_mesh
            && final(chunks)@[k].vertices@ == chunk_vertices(old(chunks)@[k].boundary, mesh)
            && final(chunks)@[k].indices@ == chunk_indices(old(chunks)@[k].boundary, mesh),
{
    chunks.par_iter_mut().for_each(|chunk| chunk.populate(mesh));
}

/// The rectangle of the chunk at place `(i, j)` when `mesh` is split into
/// `n` chunks per axis.
pub open spec fn chunk_rect(mesh: &Mesh, n: int, i: int, j: int) -> MeshBoundary {
    cell_boundary(bounding_rect(mesh.positions@), n, i, j)
}

/// The grid of chunks over a mesh.
pub struct MeshSplitter {
    pub mesh: Mesh,
    pub mesh_boundary: MeshBoundary,
    pub chunks_per_axis: usize,
    pub chunks: Vec<MeshChunk>,
    /// Whether the chunks have been populated.
    pub is_split: bool,
}

impl MeshSplitter {
    /// The mesh is well formed and not empty, its rectangle is its bounding
    /// rectangle, chunk `k` is cell `(k / n, k % n)`, and every chunk is
    /// empty before the split and populated after it.
    pub open spec fn wf(&self) -> bool {
        let n = self.chunks_per_axis as int;
        &&& self.mesh.wf()
        &&& self.mesh.vertex_count() >= 1
        &&& is_bounding_rect(self.mesh.positions@, self.mesh_boundary)
        &&& self.mesh_boundary == bounding_rect(self.mesh.positions@)
        &&& is_planned_grid(self.chunks@, self.mesh_boundary, n)
        &&& forall|k: int| 0 <= k < n * n ==> if self.is_split {
            is_populated_chunk(#[trigger] self.chunks@[k], &self.mesh)
        } else {
            self.chunks@[k].is_empty()
        }
    }

    /// A splitter over `mesh` with `chunks_per_axis` chunks on each axis, its
    /// chunks planned and still empty.
    pub fn new(mesh: Mesh, chunks_per_axis: usize) -> (r: Result<MeshSplitter, SplitError>)
        ensures
            !mesh.wf() ==> r == Err::<MeshSplitter, SplitError>(SplitError::MalformedMesh),
            mesh.wf() && mesh.vertex_count() == 0 ==> r == Err::<MeshSplitter, SplitError>(SplitError::EmptyMesh),
            mesh.wf() && mesh.vertex_count() >= 1 && (chunks_per_axis == 0 || chunks_per_axis * chunks_per_axis > usize::MAX)
                ==> r == Err::<MeshSplitter, SplitError>(SplitError::InvalidChunkCount(chunks_per_axis)),
            mesh.wf() && mesh.vertex_count() >= 1 && chunks_per_axis >= 1 && chunks_per_axis * chunks_per_axis <= usize::MAX
                ==> r is Ok,
            r matches Ok(s) ==> {
                &&& s.wf()
                &&& !s.is_split
                &&& s.mesh == mesh
                &&& s.chunks_per_axis == chunks_per_axis
            },
    {
        if !mesh.is_well_formed() {
            return Err(SplitError::MalformedMesh);
        }
        let mesh_boundary = match calc_mesh_boundary(&mesh.positions) {
            Ok(b) => b,
            Err(e) => {
                return Err(e);
            },
        };
        if chunks_per_axis == 0 || chunks_per_axis.checked_mul(chunks_per_axis).is_none() {
            return Err(SplitError::InvalidChunkCount(chunks_per_axis));
        }
        let chunks = Self::setup_empty_chunks(&mesh, chunks_per_axis, &mesh_boundary);
        Ok(MeshSplitter { mesh, mesh_boundary, chunks_per_axis, chunks, is_split: false })
    }

    /// Populates every chunk from the mesh, the chunks in parallel. Once the
    /// chunks are populated, a second call changes nothing.
    pub fn run_splitter(&mut self)
        requires
            old(self).wf(),
        ensures
            final(self).wf(),
            final(self).is_split,
            final(self).mesh == old(self).mesh,
            final(self).mesh_boundary == old(self).mesh_boundary,
            final(self).chunks_per_axis == old(self).chunks_per_axis,
    {
        if !self.is_split {
            populate_in_parallel(&mut self.chunks, &self.mesh);
            self.is_split = true;
        }
    }

    /// The chunk at place `(i, j)` of the grid. The place must lie in the
    /// grid: asking for another is the caller's fault.
    pub fn get_chunk_at(&self, chunk_index: (usize, usize)) -> (r: &MeshChunk)
        requires
            self.wf(),
            chunk_index.0 < self.chunks_per_axis,
            chunk_index.1 < self.chunks_per_axis,
        ensures
            *r == self.chunk_at(chunk_index.0 as int, chunk_index.1 as int),
            r.index_in_mesh == chunk_index,
    {
        let n = self.chunks_per_axis;
        let count: usize = self.chunks.len();
        proof {
            lemma_cell_place(n as int, chunk_index.0 as int, chunk_index.1 as int);
            assert(is_planned_chunk(self.chunks@[chunk_index.0 * n + chunk_index.1], self.mesh_boundary, n as int, chunk_index.0 * n + chunk_index.1));
        }
        &self.chunks[chunk_index.0 * n + chunk_index.1]
    }

    /// The file of the chunk at place `(i, j)`. The place must lie in the
    /// grid: asking for another is the caller's fault.
    pub fn chunk_file_at(&self, chunk_index: (usize, usize)) -> (r: ChunkFile)
        requires
            self.wf(),
            chunk_index.0 < self.chunks_per_axis,
            chunk_index.1 < self.chunks_per_axis,
        ensures
            r.name@ == chunk_file_name(chunk_index.0 as nat, chunk_index.1 as nat),
            r.contents@ == obj_text(
                self.chunk_at(chunk_index.0 as int, chunk_index.1 as int).vertices@,
                self.chunk_at(chunk_index.0 as int, chunk_index.1 as int).indices@,
            ),
    {
        self.get_chunk_at(chunk_index).to_file()
    }

    /// The files of all chunks, in the order of the grid.
    pub fn chunk_files(&self) -> (r: Vec<ChunkFile>)
        requires
            self.wf(),
        ensures
            r@.len() == self.chunks@.len(),
            forall|k: int| 0 <= k < r@.len() ==> {
                let c = #[trigger] self.chunks@[k];
                &&& r@[k].name@ == chunk_file_name(c.index_in_mesh.0 as nat, c.index_in_mesh.1 as nat)
                &&& r@[k].contents@ == obj_text(c.vertices@, c.indices@)
            },
    {
        let mut files: Vec<ChunkFile> = Vec::new();
        let mut k: usize = 0;
        while k < self.chunks.len()
            invariant
                k <= self.chunks@.len(),
                files@.len() == k,
                forall|m: int| 0 <= m < k ==> {
                    let c = #[trigger] self.chunks@[m];
                    &&& files@[m].name@ == chunk_file_name(c.index_in_mesh.0 as nat, c.index_in_mesh.1 as nat)
                    &&& files@[m].contents@ == obj_text(c.vertices@, c.indices@)
                },
            decreases self.chunks@.len() - k,
        {
            files.push(self.chunks[k].to_file());
            k = k + 1;
        }
        files
    }

    /// The empty chunks of the `n` by `n` grid over `mesh_boundary`, cell
    /// `(i, j)` at `i * n + j`. Each reserves room for an even share of the
    /// mesh's buffers.
    pub fn setup_empty_chunks(mesh: &Mesh, chunks_per_axis: usize, mesh_boundary: &MeshBoundary) -> (r: Vec<MeshChunk>)
        requires
            mesh_boundary.wf(),
            chunks_per_axis >= 1,
            chunks_per_axis * chunks_per_axis <= usize::MAX,
        ensures
            is_planned_grid(r@, *mesh_boundary, chunks_per_axis as int),
            r@.len() == chunks_per_axis * chunks_per_axis,
            forall|k: int| 0 <= k < r@.len() ==> is_planned_chunk(#[trigger] r@[k], *mesh_boundary, chunks_per_axis as int, k),
            forall|k: int| 0 <= k < r@.len() ==> (#[trigger] r@[k]).is_empty(),
    {
        let n = chunks_per_axis;
        let chunk_count: usize = n * n;
        assert(chunk_count >= 1) by (nonlinear_arith)
            requires chunk_count == n * n, n >= 1;
        let vertices_capacity: usize = mesh.positions.len() / chunk_count;
        let indices_capacity: usize = mesh.indices.len() / chunk_count;
        let mut chunks: Vec<MeshChunk> = Vec::with_capacity(chunk_count);
        let mut i: usize = 0;
        while i < n
            invariant
                chunk_count == n * n,
                mesh_boundary.wf(),
                n >= 1,
                0 <= i <= n,
                chunks@.len() == i * n,
                forall|k: int| 0 <= k < chunks@.len() ==> is_planned_chunk(#[trigger] chunks@[k], *mesh_boundary, n as int, k),
                forall|k: int| 0 <= k < chunks@.len() ==> (#[trigger] chunks@[k]).is_empty(),
            decreases n - i,
        {
            let mut j: usize = 0;
            while j < n
                invariant
                    chunk_count == n * n,
                    mesh_boundary.wf(),
                    n >= 1,
                    0 <= i < n,
                    0 <= j <= n,
                    chunks@.len() == i * n + j,
                    forall|k: int| 0 <= k < chunks@.len() ==> is_planned_chunk(#[trigger] chunks@[k], *mesh_boundary, n as int, k),
                    forall|k: int| 0 <= k < chunks@.len() ==> (#[trigger] chunks@[k]).is_empty(),
                decreases n - j,
            {
                proof {
                    lemma_cell_place(n as int, i as int, j as int);
                }
                let chunk = MeshChunk::new((i, j), n, mesh_boundary, vertices_capacity, indices_capacity);
                chunks.push(chunk);
                j = j + 1;
            }
            proof {
                assert((i + 1) * n == i * n + n) by (nonlinear_arith);
            }
            i = i + 1;
        }
        chunks
    }

    /// The chunk at place `(i, j)` of the grid.
    pub open spec fn chunk_at(&self, i: int, j: int) -> MeshChunk {
        grid_cell(self.chunks@, self.chunks_per_axis as int, i, j)
    }
}

/// The chunk at place `(i, j)` of a planned grid is cell `(i, j)`, its edges
/// the grid lines `i`, `i + 1` along `x` and `j`, `j + 1` along `z`.
pub proof fn lemma_grid_cell(chunks: Seq<MeshChunk>, b: MeshBoundary, n: int, i: int, j: int)
    requires
        is_planned_grid(chunks, b, n),
        0 <= i < n,
        0 <= j < n,
    ensures
        ({
            let c = grid_cell(chunks, n, i, j);
            &&& c.index_in_mesh == (i as usize, j as usize)
            &&& c.boundary == cell_boundary(b, n, i, j)
            &&& c.boundary.x.0 == grid_line(b.x.0 as int, b.x.1 as int, n, i)
            &&& c.boundary.x.1 == grid_line(b.x.0 as int, b.x.1 as int, n, i + 1)
            &&& c.boundary.z.0 == grid_line(b.z.0 as int, b.z.1 as int, n, j)
            &&& c.boundary.z.1 == grid_line(b.z.0 as int, b.z.1 as int, n, j + 1)
            &&& c.boundary.wf()
        }),
{
    lemma_cell_place(n, i, j);
    assert(is_planned_chunk(chunks[i * n + j], b, n, i * n + j));
    lemma_grid_line_ordered(b.x.0 as int, b.x.1 as int, n, i, i + 1);
    lemma_grid_line_ordered(b.z.0 as int, b.z.1 as int, n, j, j + 1);
}

/// A planned grid of `n` by `n` chunks tiles its rectangle `b`: every place
/// `(i, j)` of the grid is held by exactly one chunk; the first column starts
/// at the left edge of `b` and the last ends at its right edge (likewise for
/// rows along `z`); the `x` edges of a chunk depend on `i` alone and never
/// decrease as `i` grows, the `z` edges depend on `j` alone and never
/// decrease as `j` grows; neighbours share their common edge; and every point
/// of `b` lies in some chunk.
pub proof fn lemma_planned_grid_tiles(chunks: Seq<MeshChunk>, b: MeshBoundary, n: int)
    requires
        is_planned_grid(chunks, b, n),
    ensures
        chunks.len() == n * n,
        forall|i: int, j: int| 0 <= i < n && 0 <= j < n ==> (#[trigger] grid_cell(chunks, n, i, j)).index_in_mesh == (i as usize, j as usize)
            && grid_cell(chunks, n, i, j).boundary.wf(),
        forall|k: int| 0 <= k < n * n ==> (#[trigger] chunks[k]).index_in_mesh.0 < n && chunks[k].index_in_mesh.1 < n,
        forall|k1: int, k2: int| 0 <= k1 < n * n && 0 <= k2 < n * n && k1 != k2
            ==> (#[trigger] chunks[k1]).index_in_mesh != (#[trigger] chunks[k2]).index_in_mesh,
        forall|j: int| 0 <= j < n ==> (#[trigger] grid_cell(chunks, n, 0, j)).boundary.x.0 == b.x.0,
        forall|j: int| 0 <= j < n ==> (#[trigger] grid_cell(chunks, n, n - 1, j)).boundary.x.1 == b.x.1,
        forall|i: int| 0 <= i < n ==> (#[trigger] grid_cell(chunks, n, i, 0)).boundary.z.0 == b.z.0,
        forall|i: int| 0 <= i < n ==> (#[trigger] grid_cell(chunks, n, i, n - 1)).boundary.z.1 == b.z.1,
        forall|i1: int, j1: int, i2: int, j2: int| 0 <= i1 <= i2 < n && 0 <= j1 < n && 0 <= j2 < n
            ==> (#[trigger] grid_cell(chunks, n, i1, j1)).boundary.x.0 <= (#[trigger] grid_cell(chunks, n, i2, j2)).boundary.x.0
            && grid_cell(chunks, n, i1, j1).boundary.x.1 <= grid_cell(chunks, n, i2, j2).boundary.x.1
            && (i1 == i2 ==> grid_cell(chunks, n, i1, j1).boundary.x == grid_cell(chunks, n, i2, j2).boundary.x),
        forall|i1: int, j1: int, i2: int, j2: int| 0 <= i1 < n && 0 <= i2 < n && 0 <= j1 <= j2 < n
            ==> (#[trigger] grid_cell(chunks, n, i1, j1)).boundary.z.0 <= (#[trigger] grid_cell(chunks, n, i2, j2)).boundary.z.0
            && grid_cell(chunks, n, i1, j1).boundary.z.1 <= grid_cell(chunks, n, i2, j2).boundary.z.1
            && (j1 == j2 ==> grid_cell(chunks, n, i1, j1).boundary.z == grid_cell(chunks, n, i2, j2).boundary.z),
        forall|i: int, j: int| 0 <= i && i + 1 < n && 0 <= j < n ==> (#[trigger] grid_cell(chunks, n, i, j)).boundary.x.1
            == grid_cell(chunks, n, i + 1, j).boundary.x.0,
        forall|i: int, j: int| 0 <= i < n && 0 <= j && j + 1 < n ==> (#[trigger] grid_cell(chunks, n, i, j)).boundary.z.1
            == grid_cell(chunks, n, i, j + 1).boundary.z.0,
        forall|x: int, z: int| #[trigger] b.contains(x, z) ==> exists|i: int, j: int| 0 <= i < n && 0 <= j < n
            && (#[trigger] grid_cell(chunks, n, i, j)).boundary.contains(x, z),
{
    assert forall|i: int, j: int| 0 <= i < n && 0 <= j < n implies (#[trigger] grid_cell(chunks, n, i, j)).index_in_mesh == (i as usize, j as usize)
        && grid_cell(chunks, n, i, j).boundary.wf() by {
        lemma_grid_cell(chunks, b, n, i, j);
    }
    assert forall|k: int| 0 <= k < n * n implies (#[trigger] chunks[k]).index_in_mesh.0 < n && chunks[k].index_in_mesh.1 < n by {
        lemma_place_in_grid(n, k);
        assert(n <= n * n) by (nonlinear_arith)
            requires n >= 1;
        assert(is_planned_chunk(chunks[k], b, n, k));
    }
    assert forall|k1: int, k2: int| 0 <= k1 < n * n && 0 <= k2 < n * n && k1 != k2
        implies (#[trigger] chunks[k1]).index_in_mesh != (#[trigger] chunks[k2]).index_in_mesh by {
        lemma_place_in_grid(n, k1);
        lemma_place_in_grid(n, k2);
        assert(n <= n * n) by (nonlinear_arith)
            requires n >= 1;
        assert(is_planned_chunk(chunks[k1], b, n, k1));
        assert(is_planned_chunk(chunks[k2], b, n, k2));
        if k1 / n == k2 / n && k1 % n == k2 % n {
            assert(k1 == k2);
        }
    }
    assert forall|j: int| 0 <= j < n implies (#[trigger] grid_cell(chunks, n, 0, j)).boundary.x.0 == b.x.0 by {
        lemma_grid_cell(chunks, b, n, 0, j);
        lemma_grid_line_ordered(b.x.0 as int, b.x.1 as int, n, 0, n);
    }
    assert forall|j: int| 0 <= j < n implies (#[trigger] grid_cell(chunks, n, n - 1, j)).boundary.x.1 == b.x.1 by {
        lemma_grid_cell(chunks, b, n, n - 1, j);
        lemma_grid_line_ordered(b.x.0 as int, b.x.1 as int, n, 0, n);
    }
    assert forall|i: int| 0 <= i < n implies (#[trigger] grid_cell(chunks, n, i, 0)).boundary.z.0 == b.z.0 by {
        lemma_grid_cell(chunks, b, n, i, 0);
        lemma_grid_line_ordered(b.z.0 as int, b.z.1 as int, n, 0, n);
    }
    assert forall|i: int| 0 <= i < n implies (#[trigger] grid_cell(chunks, n, i, n - 1)).boundary.z.1 == b.z.1 by {
        lemma_grid_cell(chunks, b, n, i, n - 1);
        lemma_grid_line_ordered(b.z.0 as int, b.z.1 as int, n, 0, n);
    }
    assert forall|i1: int, j1: int, i2: int, j2: int| 0 <= i1 <= i2 < n && 0 <= j1 < n && 0 <= j2 < n
        implies (#[trigger] grid_cell(chunks, n, i1, j1)).boundary.x.0 <= (#[trigger] grid_cell(chunks, n, i2, j2)).boundary.x.0
        && grid_cell(chunks, n, i1, j1).boundary.x.1 <= grid_cell(chunks, n, i2, j2).boundary.x.1
        && (i1 == i2 ==> grid_cell(chunks, n, i1, j1).boundary.x == grid_cell(chunks, n, i2, j2).boundary.x) by {
        lemma_grid_cell(chunks, b, n, i1, j1);
        lemma_grid_cell(chunks, b, n, i2, j2);
        lemma_grid_line_ordered(b.x.0 as int, b.x.1 as int, n, i1, i2);
        lemma_grid_line_ordered(b.x.0 as int, b.x.1 as int, n, i1 + 1, i2 + 1);
    }
    assert forall|i1: int, j1: int, i2: int, j2: int| 0 <= i1 < n && 0 <= i2 < n && 0 <= j1 <= j2 < n
        implies (#[trigger] grid_cell(chunks, n, i1, j1)).boundary.z.0 <= (#[trigger] grid_cell(chunks, n, i2, j2)).boundary.z.0
        && grid_cell(chunks, n, i1, j1).boundary.z.1 <= grid_cell(chunks, n, i2, j2).boundary.z.1
        && (j1 == j2 ==> grid_cell(chunks, n, i1, j1).boundary.z == grid_cell(chunks, n, i2, j2).boundary.z) by {
        lemma_grid_cell(chunks, b, n, i1, j1);
        lemma_grid_cell(chunks, b, n, i2, j2);
        lemma_grid_line_ordered(b.z.0 as int, b.z.1 as int, n, j1, j2);
        lemma_grid_line_ordered(b.z.0 as int, b.z.1 as int, n, j1 + 1, j2 + 1);
    }
    assert forall|i: int, j: int| 0 <= i && i + 1 < n && 0 <= j < n implies (#[trigger] grid_cell(chunks, n, i, j)).boundary.x.1
        == grid_cell(chunks, n, i + 1, j).boundary.x.0 by {
        lemma_grid_cell(chunks, b, n, i, j);
        lemma_grid_cell(chunks, b, n, i + 1, j);
    }
    assert forall|i: int, j: int| 0 <= i < n && 0 <= j && j + 1 < n implies (#[trigger] grid_cell(chunks, n, i, j)).boundary.z.1
        == grid_cell(chunks, n, i, j + 1).boundary.z.0 by {
        lemma_grid_cell(chunks, b, n, i, j);
        lemma_grid_cell(chunks, b, n, i, j + 1);
    }
    assert forall|x: int, z: int| #[trigger] b.contains(x, z) implies exists|i: int, j: int| 0 <= i < n && 0 <= j < n
        && (#[trigger] grid_cell(chunks, n, i, j)).boundary.contains(x, z) by {
        let i = lemma_grid_covers(b.x.0 as int, b.x.1 as int, n, x);
        let j = lemma_grid_covers(b.z.0 as int, b.z.1 as int, n, z);
        lemma_grid_cell(chunks, b, n, i, j);
    }
}

/// The chunks of every splitter form the planned grid over the mesh's
/// bounding rectangle, so they tile it as `lemma_planned_grid_tiles` states.
pub proof fn lemma_grid_tiles(s: &MeshSplitter)
    requires
        s.wf(),
    ensures
        is_planned_grid(s.chunks@, s.mesh_boundary, s.chunks_per_axis as int),
        s.mesh_boundary == bounding_rect(s.mesh.positions@),
        forall|x: int, z: int| #[trigger] s.mesh_boundary.contains(x, z) ==> exists|i: int, j: int|
            0 <= i < s.chunks_per_axis && 0 <= j < s.chunks_per_axis && (#[trigger] s.chunk_at(i, j)).boundary.contains(x, z),
{
    let n = s.chunks_per_axis as int;
    lemma_planned_grid_tiles(s.chunks@, s.mesh_boundary, n);
    assert forall|x: int, z: int| #[trigger] s.mesh_boundary.contains(x, z) implies exists|i: int, j: int|
        0 <= i < s.chunks_per_axis && 0 <= j < s.chunks_per_axis && (#[trigger] s.chunk_at(i, j)).boundary.contains(x, z) by {
        let (i, j) = choose|i: int, j: int| 0 <= i < n && 0 <= j < n && (#[trigger] grid_cell(s.chunks@, n, i, j)).boundary.contains(x, z);
        assert(s.chunk_at(i, j) == grid_cell(s.chunks@, n, i, j));
    }
}

/// Every source triangle is in at least one chunk once the mesh is split:
/// its first corner lies in the bounding rectangle, hence in some chunk.
pub proof fn lemma_every_triangle_kept(s: &MeshSplitter, t: int)
    requires
        s.wf(),
        s.is_split,
        0 <= t < s.mesh.triangle_count(),
    ensures
        exists|i: int, j: int| 0 <= i < s.chunks_per_axis && 0 <= j < s.chunks_per_axis
            && holds_triangle((#[trigger] s.chunk_at(i, j)).boundary, &s.mesh, t),
{
    let n = s.chunks_per_axis as int;
    let b = s.mesh_boundary;
    let pos = s.mesh.positions@;
    let v = s.mesh.indices@[3 * t] as int;
    assert(b.contains(vertex_x(pos, v), vertex_z(pos, v)));
    lemma_grid_tiles(s);
    let (i, j) = choose|i: int, j: int| 0 <= i < n && 0 <= j < n && (#[trigger] s.chunk_at(i, j)).boundary.contains(vertex_x(pos, v), vertex_z(pos, v));
    assert(vertex_inside(s.chunk_at(i, j).boundary, pos, v));
    lemma_touching_triangle_kept(s.chunk_at(i, j).boundary, &s.mesh, t);
}

/// A triangle with corners in two chunks is in both of them.
pub proof fn lemma_shared_triangle_in_both(s: &MeshSplitter, i1: int, j1: int, i2: int, j2: int, t: int)
    requires
        s.wf(),
        s.is_split,
        0 <= i1 < s.chunks_per_axis && 0 <= j1 < s.chunks_per_axis,
        0 <= i2 < s.chunks_per_axis && 0 <= j2 < s.chunks_per_axis,
        0 <= t < s.mesh.triangle_count(),
        triangle_touches(s.chunk_at(i1, j1).boundary, s.mesh.positions@, s.mesh.indices@, t),
        triangle_touches(s.chunk_at(i2, j2).boundary, s.mesh.positions@, s.mesh.indices@, t),
    ensures
        holds_triangle(s.chunk_at(i1, j1).boundary, &s.mesh, t),
        holds_triangle(s.chunk_at(i2, j2).boundary, &s.mesh, t),
{
    lemma_touching_triangle_kept(s.chunk_at(i1, j1).boundary, &s.mesh, t);
    lemma_touching_triangle_kept(s.chunk_at(i2, j2).boundary, &s.mesh, t);
}

/// Two splits of the same mesh with the same number of chunks per axis give
/// the same buffers, chunk by chunk.
pub proof fn lemma_split_deterministic(s1: &MeshSplitter, s2: &MeshSplitter)
    requires
        s1.wf(),
        s2.wf(),
        s1.is_split,
        s2.is_split,
        s1.mesh.positions@ == s2.mesh.positions@,
        s1.mesh.indices@ == s2.mesh.indices@,
        s1.chunks_per_axis == s2.chunks_per_axis,
    ensures
        s1.chunks@.len() == s2.chunks@.len(),
        forall|k: int| 0 <= k < s1.chunks@.len() ==> (#[trigger] s1.chunks@[k]).vertices@ == s2.chunks@[k].vertices@
            && s1.chunks@[k].indices@ == s2.chunks@[k].indices@
            && s1.chunks@[k].index_in_mesh == s2.chunks@[k].index_in_mesh,
{
    let n = s1.chunks_per_axis as int;
    assert forall|k: int| 0 <= k < s1.chunks@.len() implies (#[trigger] s1.chunks@[k]).vertices@ == s2.chunks@[k].vertices@
        && s1.chunks@[k].indices@ == s2.chunks@[k].indices@
        && s1.chunks@[k].index_in_mesh == s2.chunks@[k].index_in_mesh by {
        assert(is_planned_chunk(s1.chunks@[k], s1.mesh_boundary, n, k));
        assert(is_planned_chunk(s2.chunks@[k], s2.mesh_boundary, n, k));
        assert(is_populated_chunk(s1.chunks@[k], &s1.mesh));
        assert(is_populated_chunk(s2.chunks@[k], &s2.mesh));
    }
}

} // verus!
