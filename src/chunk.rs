//! One grid cell and the sub-mesh of the triangles that touch it.
use std::collections::HashMap;
use vstd::prelude::*;
use vstd::set_lib::{lemma_int_range, lemma_len_subset, set_int_range};
use crate::obj_text::{chunk_file_name, obj_text, write_chunk_file_name, write_obj};
use crate::geometry::{cell_boundary, grid_line_at, vertex_x, vertex_z, Mesh, MeshBoundary};

verus! {

broadcast use vstd::std_specs::hash::group_hash_axioms;

/// Vertex `v` of `positions` lies in `b` (seen from above: `y` is ignored).
pub open spec fn vertex_inside(b: MeshBoundary, positions: Seq<i64>, v: int) -> bool {
    b.contains(vertex_x(positions, v), vertex_z(positions, v))
}

/// Triangle `t` has at least one corner in `b`.
pub open spec fn triangle_touches(b: MeshBoundary, positions: Seq<i64>, indices: Seq<u32>, t: int) -> bool {
    ||| vertex_inside(b, positions, indices[3 * t] as int)
    ||| vertex_inside(b, positions, indices[3 * t + 1] as int)
    ||| vertex_inside(b, positions, indices[3 * t + 2] as int)
}

/// `order` with the source vertex `v` added at its end, unless it is there.
pub open spec fn register(order: Seq<u32>, v: u32) -> Seq<u32> {
    if order.contains(v) {
        order
    } else {
        order.push(v)
    }
}

/// One corner of a kept triangle: the order of first appearance after `v`
/// is registered, and the local number of `v`, counted from 1.
pub open spec fn corner_step(order: Seq<u32>, v: u32) -> (Seq<u32>, u32) {
    let o = register(order, v);
    (o, (o.index_of(v) + 1) as u32)
}

/// The state of a chunk after the first `t` source triangles: the source
/// vertices in the order in which the chunk first met them, and the local
/// indices of the kept triangles, three per triangle.
pub open spec fn populate_spec(b: MeshBoundary, positions: Seq<i64>, indices: Seq<u32>, t: nat) -> (Seq<u32>, Seq<u32>)
    decreases t,
{
    if t == 0 {
        (Seq::empty(), Seq::empty())
    } else {
        let prev = populate_spec(b, positions, indices, (t - 1) as nat);
        let tri = t - 1;
        if triangle_touches(b, positions, indices, tri) {
            let c0 = corner_step(prev.0, indices[3 * tri]);
            let c1 = corner_step(c0.0, indices[3 * tri + 1]);
            let c2 = corner_step(c1.0, indices[3 * tri + 2]);
            (c2.0, prev.1 + seq![c0.1, c1.1, c2.1])
        } else {
            prev
        }
    }
}

/// The coordinates of the vertices named by `order`, three per vertex.
pub open spec fn gathered_positions(positions: Seq<i64>, order: Seq<u32>) -> Seq<i64> {
    Seq::new(3 * order.len(), |k: int| positions[3 * (order[k / 3] as int) + k % 3])
}

/// The order of first appearance of the source vertices in a chunk with
/// rectangle `b`, once every triangle of `mesh` has been scanned.
pub open spec fn chunk_vertex_order(b: MeshBoundary, mesh: &Mesh) -> Seq<u32> {
    populate_spec(b, mesh.positions@, mesh.indices@, mesh.triangle_count()).0
}

/// The local vertex buffer of a chunk with rectangle `b` once populated.
pub open spec fn chunk_vertices(b: MeshBoundary, mesh: &Mesh) -> Seq<i64> {
    gathered_positions(mesh.positions@, chunk_vertex_order(b, mesh))
}

/// The local index buffer of a chunk with rectangle `b` once populated.
pub open spec fn chunk_indices(b: MeshBoundary, mesh: &Mesh) -> Seq<u32> {
    populate_spec(b, mesh.positions@, mesh.indices@, mesh.triangle_count()).1
}

/// In a sequence without duplicates, the element at `k` is found at `k`.
proof fn lemma_index_of_unique(s: Seq<u32>, k: int)
    requires
        s.no_duplicates(),
        0 <= k < s.len(),
    ensures
        s.index_of(s[k]) == k,
{
    assert(s.contains(s[k]));
}

/// A sequence of distinct vertex numbers below `n` has at most `n` elements.
proof fn lemma_distinct_below(s: Seq<u32>, n: int)
    requires
        s.no_duplicates(),
        n >= 0,
        forall|k: int| 0 <= k < s.len() ==> (#[trigger] s[k] as int) < n,
    ensures
        s.len() <= n,
{
    let si = s.map_values(|x: u32| x as int);
    assert forall|a: int, b: int| 0 <= a < si.len() && 0 <= b < si.len() && a != b implies si[a] != si[b] by {
        assert(s[a] != s[b]);
    }
    si.unique_seq_to_set();
    lemma_int_range(0, n);
    assert forall|x: int| si.to_set().contains(x) implies set_int_range(0, n).contains(x) by {
        let k = choose|k: int| 0 <= k < si.len() && si[k] == x;
        assert(s[k] < n);
    }
    lemma_len_subset(si.to_set(), set_int_range(0, n));
}

/// The local indices in `idx` name vertices of `order`, and each vertex of
/// `order` is named by some local index.
pub open spec fn dense_local_indices(order: Seq<u32>, idx: Seq<u32>) -> bool {
    &&& forall|k: int| 0 <= k < idx.len() ==> 1 <= #[trigger] idx[k] <= order.len()
    &&& forall|l: u32| 1 <= l <= order.len() ==> #[trigger] idx.contains(l)
}

/// What holds of the state of a chunk after any number of triangles.
pub open spec fn population_invariant(order: Seq<u32>, idx: Seq<u32>, vertex_count: nat) -> bool {
    &&& order.no_duplicates()
    &&& forall|k: int| 0 <= k < order.len() ==> (#[trigger] order[k]) < vertex_count
    &&& order.len() <= vertex_count
    &&& idx.len() % 3 == 0
    &&& dense_local_indices(order, idx)
}

proof fn lemma_corner_step(order: Seq<u32>, idx: Seq<u32>, v: u32, vertex_count: nat)
    requires
        order.no_duplicates(),
        forall|k: int| 0 <= k < order.len() ==> (#[trigger] order[k]) < vertex_count,
        vertex_count <= u32::MAX,
        v < vertex_count,
        dense_local_indices(order, idx),
    ensures
        ({
            let (o, l) = corner_step(order, v);
            &&& o.no_duplicates()
            &&& forall|k: int| 0 <= k < o.len() ==> (#[trigger] o[k]) < vertex_count
            &&& o.len() <= vertex_count
            &&& order.is_prefix_of(o)
            &&& 1 <= l <= o.len()
            &&& o[l - 1] == v
            &&& dense_local_indices(o, idx.push(l))
        }),
{
    let (o, l) = corner_step(order, v);
    if order.contains(v) {
        let k = choose|k: int| 0 <= k < order.len() && order[k] == v;
        lemma_index_of_unique(order, k);
    } else {
        assert forall|a: int, b: int| 0 <= a < o.len() && 0 <= b < o.len() && a != b implies o[a] != o[b] by {
            if a < order.len() && b < order.len() {
                assert(order[a] != order[b]);
            }
        }
        lemma_index_of_unique(o, order.len() as int);
    }
    lemma_distinct_below(o, vertex_count as int);
    let idx2 = idx.push(l);
    assert forall|x: u32| 1 <= x <= o.len() implies #[trigger] idx2.contains(x) by {
        if x <= order.len() {
            assert(idx.contains(x));
            let k = choose|k: int| 0 <= k < idx.len() && idx[k] == x;
            assert(idx2[k] == x);
        } else {
            assert(idx2[idx.len() as int] == x);
        }
    }
}

/// The state after `t1` triangles is a prefix of the state after `t2`.
pub proof fn lemma_populate_prefix(b: MeshBoundary, mesh: &Mesh, t1: nat, t2: nat)
    requires
        mesh.wf(),
        t1 <= t2 <= mesh.triangle_count(),
    ensures
        populate_spec(b, mesh.positions@, mesh.indices@, t1).0.is_prefix_of(populate_spec(b, mesh.positions@, mesh.indices@, t2).0),
        populate_spec(b, mesh.positions@, mesh.indices@, t1).1.is_prefix_of(populate_spec(b, mesh.positions@, mesh.indices@, t2).1),
        population_invariant(populate_spec(b, mesh.positions@, mesh.indices@, t2).0, populate_spec(b, mesh.positions@, mesh.indices@, t2).1, mesh.vertex_count()),
    decreases t2,
{
    let pos = mesh.positions@;
    let ind = mesh.indices@;
    if t2 == 0 {
        assert(dense_local_indices(Seq::<u32>::empty(), Seq::<u32>::empty()));
    } else {
        let prev = populate_spec(b, pos, ind, (t2 - 1) as nat);
        if t1 < t2 {
            lemma_populate_prefix(b, mesh, t1, (t2 - 1) as nat);
        } else {
            lemma_populate_prefix(b, mesh, (t2 - 1) as nat, (t2 - 1) as nat);
        }
        let tri = t2 - 1;
        if triangle_touches(b, pos, ind, tri) {
            let c0 = corner_step(prev.0, ind[3 * tri]);
            let c1 = corner_step(c0.0, ind[3 * tri + 1]);
            let c2 = corner_step(c1.0, ind[3 * tri + 2]);
            lemma_corner_step(prev.0, prev.1, ind[3 * tri], mesh.vertex_count());
            lemma_corner_step(c0.0, prev.1.push(c0.1), ind[3 * tri + 1], mesh.vertex_count());
            lemma_corner_step(c1.0, prev.1.push(c0.1).push(c1.1), ind[3 * tri + 2], mesh.vertex_count());
            assert(prev.1 + seq![c0.1, c1.1, c2.1] =~= prev.1.push(c0.1).push(c1.1).push(c2.1));
        }
    }
}

/// Local triangle `k` of a chunk with rectangle `b` is source triangle `t`:
/// its three local corners, in order, are the source vertices of `t`.
pub open spec fn local_triangle_is(b: MeshBoundary, mesh: &Mesh, k: int, t: int) -> bool {
    triple_is(chunk_vertex_order(b, mesh), chunk_indices(b, mesh), mesh.indices@, k, t)
}

/// Through `order`, local triple `k` of `idx` names the corners of source
/// triangle `t` of `indices`.
pub open spec fn triple_is(order: Seq<u32>, idx: Seq<u32>, indices: Seq<u32>, k: int, t: int) -> bool {
    &&& order[idx[3 * k] - 1] == indices[3 * t]
    &&& order[idx[3 * k + 1] - 1] == indices[3 * t + 1]
    &&& order[idx[3 * k + 2] - 1] == indices[3 * t + 2]
}

/// The chunk with rectangle `b` holds source triangle `t`, renumbered.
pub open spec fn holds_triangle(b: MeshBoundary, mesh: &Mesh, t: int) -> bool {
    exists|k: int| 0 <= k < chunk_indices(b, mesh).len() / 3 && #[trigger] local_triangle_is(b, mesh, k, t)
}

/// A triangle with a corner in a chunk's rectangle is in that chunk.
pub proof fn lemma_touching_triangle_kept(b: MeshBoundary, mesh: &Mesh, t: int)
    requires
        mesh.wf(),
        0 <= t < mesh.triangle_count(),
        triangle_touches(b, mesh.positions@, mesh.indices@, t),
    ensures
        holds_triangle(b, mesh, t),
{
    let pos = mesh.positions@;
    let ind = mesh.indices@;
    let prev = populate_spec(b, pos, ind, t as nat);
    let next = populate_spec(b, pos, ind, (t + 1) as nat);
    let last = populate_spec(b, pos, ind, mesh.triangle_count());
    lemma_populate_prefix(b, mesh, t as nat, t as nat);
    lemma_populate_prefix(b, mesh, (t + 1) as nat, mesh.triangle_count());
    let c0 = corner_step(prev.0, ind[3 * t]);
    let c1 = corner_step(c0.0, ind[3 * t + 1]);
    let c2 = corner_step(c1.0, ind[3 * t + 2]);
    lemma_corner_step(prev.0, prev.1, ind[3 * t], mesh.vertex_count());
    lemma_corner_step(c0.0, prev.1.push(c0.1), ind[3 * t + 1], mesh.vertex_count());
    lemma_corner_step(c1.0, prev.1.push(c0.1).push(c1.1), ind[3 * t + 2], mesh.vertex_count());
    let k: int = (prev.1.len() / 3) as int;
    assert(next.1 == prev.1 + seq![c0.1, c1.1, c2.1]);
    assert(next.1[3 * k] == c0.1 && next.1[3 * k + 1] == c1.1 && next.1[3 * k + 2] == c2.1);
    assert(last.1[3 * k] == c0.1 && last.1[3 * k + 1] == c1.1 && last.1[3 * k + 2] == c2.1);
    assert(c0.0[c0.1 - 1] == c1.0[c0.1 - 1]);
    assert(c0.0[c0.1 - 1] == c2.0[c0.1 - 1]);
    assert(c1.0[c1.1 - 1] == c2.0[c1.1 - 1]);
    assert(next.0 == c2.0);
    assert(c2.0[c0.1 - 1] == last.0[c0.1 - 1]);
    assert(c2.0[c1.1 - 1] == last.0[c1.1 - 1]);
    assert(c2.0[c2.1 - 1] == last.0[c2.1 - 1]);
    assert(last.0[c0.1 - 1] == ind[3 * t]);
    assert(last.0[c1.1 - 1] == ind[3 * t + 1]);
    assert(last.0[c2.1 - 1] == ind[3 * t + 2]);
    assert(local_triangle_is(b, mesh, k, t));
}

/// Through `order`, local triple `k` of `idx` is one of the first `n`
/// source triangles, and that triangle touches `b`.
pub open spec fn triple_from_touching(order: Seq<u32>, idx: Seq<u32>, b: MeshBoundary, mesh: &Mesh, k: int, n: int) -> bool {
    exists|t: int| 0 <= t < n && triangle_touches(b, mesh.positions@, mesh.indices@, t)
        && #[trigger] triple_is(order, idx, mesh.indices@, k, t)
}

proof fn lemma_kept_triangles_touch_upto(b: MeshBoundary, mesh: &Mesh, t2: nat)
    requires
        mesh.wf(),
        t2 <= mesh.triangle_count(),
    ensures
        ({
            let st = populate_spec(b, mesh.positions@, mesh.indices@, t2);
            forall|k: int| 0 <= k < st.1.len() / 3 ==> #[trigger] triple_from_touching(st.0, st.1, b, mesh, k, t2 as int)
        }),
    decreases t2,
{
    let pos = mesh.positions@;
    let ind = mesh.indices@;
    if t2 > 0 {
        let prev = populate_spec(b, pos, ind, (t2 - 1) as nat);
        let st = populate_spec(b, pos, ind, t2);
        lemma_kept_triangles_touch_upto(b, mesh, (t2 - 1) as nat);
        lemma_populate_prefix(b, mesh, (t2 - 1) as nat, t2);
        lemma_populate_prefix(b, mesh, (t2 - 1) as nat, (t2 - 1) as nat);
        let tri = t2 - 1;
        assert forall|k: int| 0 <= k < st.1.len() / 3 implies #[trigger] triple_from_touching(st.0, st.1, b, mesh, k, t2 as int) by {
            if k < prev.1.len() / 3 {
                assert(triple_from_touching(prev.0, prev.1, b, mesh, k, t2 - 1));
                let t = choose|t: int| 0 <= t < t2 - 1 && triangle_touches(b, pos, ind, t) && #[trigger] triple_is(prev.0, prev.1, ind, k, t);
                assert(prev.1[3 * k] == st.1[3 * k] && prev.1[3 * k + 1] == st.1[3 * k + 1] && prev.1[3 * k + 2] == st.1[3 * k + 2]);
                assert(1 <= prev.1[3 * k] <= prev.0.len());
                assert(1 <= prev.1[3 * k + 1] <= prev.0.len());
                assert(1 <= prev.1[3 * k + 2] <= prev.0.len());
                assert(prev.0[prev.1[3 * k] - 1] == st.0[prev.1[3 * k] - 1]);
                assert(prev.0[prev.1[3 * k + 1] - 1] == st.0[prev.1[3 * k + 1] - 1]);
                assert(prev.0[prev.1[3 * k + 2] - 1] == st.0[prev.1[3 * k + 2] - 1]);
                assert(triple_is(st.0, st.1, ind, k, t));
            } else {
                let c0 = corner_step(prev.0, ind[3 * tri]);
                let c1 = corner_step(c0.0, ind[3 * tri + 1]);
                let c2 = corner_step(c1.0, ind[3 * tri + 2]);
                lemma_corner_step(prev.0, prev.1, ind[3 * tri], mesh.vertex_count());
                lemma_corner_step(c0.0, prev.1.push(c0.1), ind[3 * tri + 1], mesh.vertex_count());
                lemma_corner_step(c1.0, prev.1.push(c0.1).push(c1.1), ind[3 * tri + 2], mesh.vertex_count());
                assert(triangle_touches(b, pos, ind, tri));
                assert(k == prev.1.len() / 3);
                assert(st.1[3 * k] == c0.1 && st.1[3 * k + 1] == c1.1 && st.1[3 * k + 2] == c2.1);
                assert(c0.0[c0.1 - 1] == c2.0[c0.1 - 1]);
                assert(c1.0[c1.1 - 1] == c2.0[c1.1 - 1]);
                assert(triple_is(st.0, st.1, ind, k, tri));
            }
        }
    }
}

/// A chunk holds only triangles that have a corner in its rectangle.
pub proof fn lemma_kept_triangles_touch(b: MeshBoundary, mesh: &Mesh)
    requires
        mesh.wf(),
    ensures
        forall|k: int| 0 <= k < chunk_indices(b, mesh).len() / 3
            ==> #[trigger] triple_from_touching(chunk_vertex_order(b, mesh), chunk_indices(b, mesh), b, mesh, k, mesh.triangle_count() as int),
{
    lemma_kept_triangles_touch_upto(b, mesh, mesh.triangle_count());
}

/// In a populated chunk every local index names one of the chunk's local
/// vertices, counting from 1, and every local vertex is named by some local
/// index; the buffers hold whole vertices and whole triangles, and no source
/// vertex is copied twice.
pub proof fn lemma_local_indices_dense(b: MeshBoundary, mesh: &Mesh)
    requires
        mesh.wf(),
    ensures
        chunk_vertices(b, mesh).len() % 3 == 0,
        chunk_indices(b, mesh).len() % 3 == 0,
        forall|k: int| 0 <= k < chunk_indices(b, mesh).len()
            ==> 1 <= #[trigger] chunk_indices(b, mesh)[k] <= chunk_vertices(b, mesh).len() / 3,
        forall|l: u32| 1 <= l <= chunk_vertices(b, mesh).len() / 3 ==> #[trigger] chunk_indices(b, mesh).contains(l),
        chunk_vertex_order(b, mesh).no_duplicates(),
{
    lemma_populate_prefix(b, mesh, mesh.triangle_count(), mesh.triangle_count());
    assert(chunk_vertices(b, mesh).len() / 3 == chunk_vertex_order(b, mesh).len());
}

/// A file to be written: its name and its bytes.
pub struct ChunkFile {
    pub name: Vec<u8>,
    pub contents: Vec<u8>,
}

/// A cell of the grid: its place `(i, j)`, its rectangle, and the sub-mesh
/// of the triangles that have a corner in it. Local indices count from 1.
pub struct MeshChunk {
    pub vertices: Vec<i64>,
    pub indices: Vec<u32>,
    pub index_in_mesh: (usize, usize),
    pub boundary: MeshBoundary,
}

impl MeshChunk {
    pub open spec fn is_empty(&self) -> bool {
        self.vertices@.len() == 0 && self.indices@.len() == 0
    }

    /// The empty chunk for cell `(i, j)` of the `n` by `n` grid over
    /// `mesh_boundary`, its buffers reserved with the given capacities.
    pub fn new(
        chunk_index: (usize, usize),
        chunks_per_axis: usize,
        mesh_boundary: &MeshBoundary,
        vertices_capacity: usize,
        indices_capacity: usize,
    ) -> (r: Self)
        requires
            mesh_boundary.wf(),
            chunk_index.0 < chunks_per_axis,
            chunk_index.1 < chunks_per_axis,
        ensures
            r.index_in_mesh == chunk_index,
            r.boundary == cell_boundary(*mesh_boundary, chunks_per_axis as int, chunk_index.0 as int, chunk_index.1 as int),
            r.is_empty(),
    {
        let n = chunks_per_axis;
        let min_x = grid_line_at(mesh_boundary.x.0, mesh_boundary.x.1, n, chunk_index.0);
        let max_x = grid_line_at(mesh_boundary.x.0, mesh_boundary.x.1, n, chunk_index.0 + 1);
        let min_z = grid_line_at(mesh_boundary.z.0, mesh_boundary.z.1, n, chunk_index.1);
        let max_z = grid_line_at(mesh_boundary.z.0, mesh_boundary.z.1, n, chunk_index.1 + 1);
        MeshChunk {
            vertices: Vec::with_capacity(vertices_capacity),
            indices: Vec::with_capacity(indices_capacity),
            index_in_mesh: chunk_index,
            boundary: MeshBoundary { x: (min_x, max_x), z: (min_z, max_z) },
        }
    }

    /// The point `(x, z)` lies in the chunk's rectangle, edges included.
    pub fn is_vertex_inside(&self, x: i64, z: i64) -> (r: bool)
        ensures
            r == self.boundary.contains(x as int, z as int),
    {
        x >= self.boundary.x.0 && x <= self.boundary.x.1 && z >= self.boundary.z.0 && z <= self.boundary.z.1
    }

    /// Scans every triangle of `mesh` in order and keeps those with a corner
    /// in the chunk's rectangle, renumbering their vertices locally.
    pub fn populate(&mut self, mesh: &Mesh)
        requires
            mesh.wf(),
            old(self).is_empty(),
        ensures
            final(self).boundary == old(self).boundary,
            final(self).index_in_mesh == old(self).index_in_mesh,
            final(self).vertices@ == chunk_vertices(old(self).boundary, mesh),
            final(self).indices@ == chunk_indices(old(self).boundary, mesh),
    {
        let mut vertex_map: HashMap<u32, u32> = HashMap::new();
        let ghost mut order: Seq<u32> = Seq::empty();
        let ghost b = self.boundary;
        let len: usize = mesh.positions.len();
        let index_len: usize = mesh.indices.len();
        let triangle_count: usize = index_len / 3;
        proof {
            assert(self.vertices@ =~= gathered_positions(mesh.positions@, order));
        }
        let mut t: usize = 0;
        while t < triangle_count
            invariant
                mesh.wf(),
                len == mesh.positions@.len(),
                index_len == mesh.indices@.len(),
                triangle_count == mesh.triangle_count(),
                3 * triangle_count == index_len,
                t <= triangle_count,
                self.boundary == b,
                self.index_in_mesh == old(self).index_in_mesh,
                self.tracks(vertex_map@, order, mesh.positions@),
                order == populate_spec(b, mesh.positions@, mesh.indices@, t as nat).0,
                self.indices@ == populate_spec(b, mesh.positions@, mesh.indices@, t as nat).1,
            decreases triangle_count - t,
        {
            let a = mesh.indices[3 * t];
            let c = mesh.indices[3 * t + 1];
            let d = mesh.indices[3 * t + 2];
            assert(3 * (a as int) + 2 < len && 3 * (c as int) + 2 < len && 3 * (d as int) + 2 < len);
            let touches = self.is_vertex_inside(mesh.positions[3 * a as usize], mesh.positions[3 * a as usize + 2])
                || self.is_vertex_inside(mesh.positions[3 * c as usize], mesh.positions[3 * c as usize + 2])
                || self.is_vertex_inside(mesh.positions[3 * d as usize], mesh.positions[3 * d as usize + 2]);
            let ghost before = self.indices@;
            if touches {
                let o0 = self.add_corner(&mut vertex_map, mesh, a, Ghost(order));
                let o1 = self.add_corner(&mut vertex_map, mesh, c, o0);
                let o2 = self.add_corner(&mut vertex_map, mesh, d, o1);
                proof {
                    order = o2@;
                    assert(self.indices@ =~= before + seq![
                        corner_step(populate_spec(b, mesh.positions@, mesh.indices@, t as nat).0, a).1,
                        corner_step(o0@, c).1,
                        corner_step(o1@, d).1,
                    ]);
                }
            }
            t = t + 1;
        }
    }

    /// The file of this chunk: `chunk_<i>_<j>.obj`, holding its vertices and
    /// then its triangles.
    pub fn to_file(&self) -> (r: ChunkFile)
        ensures
            r.name@ == chunk_file_name(self.index_in_mesh.0 as nat, self.index_in_mesh.1 as nat),
            r.contents@ == obj_text(self.vertices@, self.indices@),
    {
        ChunkFile {
            name: write_chunk_file_name(self.index_in_mesh.0, self.index_in_mesh.1),
            contents: write_obj(&self.vertices, &self.indices),
        }
    }

    /// What holds between the vertex map, the order of first appearance and
    /// the local vertex buffer while the chunk is populated.
    spec fn tracks(&self, vertex_map: Map<u32, u32>, order: Seq<u32>, positions: Seq<i64>) -> bool {
        &&& order.no_duplicates()
        &&& forall|k: int| 0 <= k < order.len() ==> (#[trigger] order[k] as int) * 3 + 2 < positions.len()
        &&& forall|k: int| 0 <= k < order.len() ==> #[trigger] vertex_map.contains_key(order[k])
            && vertex_map[order[k]] == k + 1
        &&& forall|v: u32| #[trigger] vertex_map.contains_key(v) ==> order.contains(v)
        &&& self.vertices@ == gathered_positions(positions, order)
    }

    /// Gives source vertex `v` its local number, adding it to the vertex
    /// buffer when it is new, and appends that number to the index buffer.
    fn add_corner(&mut self, vertex_map: &mut HashMap<u32, u32>, mesh: &Mesh, v: u32, order: Ghost<Seq<u32>>) -> (new_order: Ghost<Seq<u32>>)
        requires
            mesh.wf(),
            v < mesh.vertex_count(),
            old(self).tracks(old(vertex_map)@, order@, mesh.positions@),
        ensures
            new_order@ == corner_step(order@, v).0,
            final(self).indices@ == old(self).indices@.push(corner_step(order@, v).1),
            final(self).tracks(final(vertex_map)@, new_order@, mesh.positions@),
            final(self).boundary == old(self).boundary,
            final(self).index_in_mesh == old(self).index_in_mesh,
    {
        let ghost o = order@;
        match vertex_map.get(&v) {
            Some(local) => {
                let local = *local;
                proof {
                    let k = choose|k: int| 0 <= k < o.len() && o[k] == v;
                    lemma_index_of_unique(o, k);
                }
                self.indices.push(local);
                order
            },
            None => {
                let ghost o2 = o.push(v);
                proof {
                    assert(!o.contains(v));
                    assert forall|a: int, b: int| 0 <= a < o2.len() && 0 <= b < o2.len() && a != b implies o2[a] != o2[b] by {
                        if a < o.len() && b < o.len() {
                            assert(o[a] != o[b]);
                        }
                    }
                    lemma_distinct_below(o2, mesh.vertex_count() as int);
                    lemma_index_of_unique(o2, o.len() as int);
                    assert(self.vertices@.len() == 3 * o.len());
                }
                let local: u32 = (self.vertices.len() / 3 + 1) as u32;
                vertex_map.insert(v, local);
                let len: usize = mesh.positions.len();
                assert(3 * (v as int) + 2 < len);
                let base: usize = 3 * (v as usize);
                self.vertices.push(mesh.positions[base]);
                self.vertices.push(mesh.positions[base + 1]);
                self.vertices.push(mesh.positions[base + 2]);
                self.indices.push(local);
                proof {
                    assert(self.vertices@ =~= gathered_positions(mesh.positions@, o2));
                    assert forall|k: int| 0 <= k < o2.len() implies #[trigger] vertex_map@.contains_key(o2[k])
                        && vertex_map@[o2[k]] == k + 1 by {
                        if k < o.len() {
                            assert(o[k] != v);
                            assert(old(vertex_map)@.contains_key(o[k]));
                        }
                    }
                    assert forall|k: int| 0 <= k < o2.len() implies (#[trigger] o2[k] as int) * 3 + 2 < mesh.positions@.len() by {
                        if k < o.len() {
                            assert(o2[k] == o[k]);
                        }
                    }
                    assert forall|u: u32| #[trigger] vertex_map@.contains_key(u) implies o2.contains(u) by {
                        if u != v {
                            assert(old(vertex_map)@.contains_key(u));
                            let k = choose|k: int| 0 <= k < o.len() && o[k] == u;
                            assert(o2[k] == u);
                        } else {
                            assert(o2[o.len() as int] == v);
                        }
                    }
                }
                Ghost(o2)
            },
        }
    }
}

} // verus!
