//! Splits a triangle mesh into an `n` by `n` grid of chunks over its
//! horizontal bounding rectangle. A triangle goes to every chunk that holds
//! one of its corners, edges included, and each chunk renumbers its vertices
//! from 1 in the order it first meets them.
pub mod chunk;
pub mod config;
pub mod geometry;
pub mod mesh_splitter;
pub mod obj_text;

use vstd::prelude::*;
use crate::chunk::{chunk_indices, chunk_vertices, ChunkFile};
use crate::config::AppConfig;
use crate::geometry::Mesh;
use crate::mesh_splitter::{chunk_rect, MeshSplitter, SplitError};
use crate::obj_text::{chunk_file_name, obj_text};

verus! {

/// Splits `mesh` into `app_config.chunks_per_axis` chunks per axis and gives
/// the file of the chunk at `(0, 0)`. It fails as `MeshSplitter::new` does.
pub fn run(app_config: AppConfig, mesh: Mesh) -> (r: Result<ChunkFile, SplitError>)
    ensures
        ({
            let n = app_config.chunks_per_axis;
            &&& !mesh.wf() ==> r == Err::<ChunkFile, SplitError>(SplitError::MalformedMesh)
            &&& mesh.wf() && mesh.vertex_count() == 0 ==> r == Err::<ChunkFile, SplitError>(SplitError::EmptyMesh)
            &&& mesh.wf() && mesh.vertex_count() >= 1 && (n == 0 || n * n > usize::MAX)
                ==> r == Err::<ChunkFile, SplitError>(SplitError::InvalidChunkCount(n))
            &&& mesh.wf() && mesh.vertex_count() >= 1 && n >= 1 && n * n <= usize::MAX ==> (r matches Ok(f) && {
                let b = chunk_rect(&mesh, n as int, 0, 0);
                &&& f.name@ == chunk_file_name(0, 0)
                &&& f.contents@ == obj_text(chunk_vertices(b, &mesh), chunk_indices(b, &mesh))
            })
        }),
{
    let ghost n = app_config.chunks_per_axis;
    let mut splitter = match MeshSplitter::new(mesh, app_config.chunks_per_axis) {
        Ok(s) => s,
        Err(e) => {
            return Err(e);
        },
    };
    splitter.run_splitter();
    proof {
        assert(n * n >= 1) by (nonlinear_arith)
            requires n >= 1;
        assert(0 * n + 0 == 0);
        assert(0int / (n as int) == 0 && 0int % (n as int) == 0);
        let c = splitter.chunks@[0];
        assert(c.boundary == chunk_rect(&splitter.mesh, n as int, 0, 0));
    }
    Ok(splitter.chunk_file_at((0, 0)))
}

} // verus!
