//! Flat meshes, horizontal bounding rectangles and the uniform grid over them.
//!
//! Coordinates are fixed-point integers counting millionths of a unit, so that
//! every comparison and every grid line is exact.
use vstd::prelude::*;
use crate::mesh_splitter::SplitError;
use vstd::arithmetic::div_mod::{lemma_div_by_multiple, lemma_div_is_ordered};
use vstd::arithmetic::mul::{lemma_mul_inequality, lemma_mul_upper_bound};

verus! {

/// A triangle mesh as two flat buffers: three coordinates `(x, y, z)` per
/// vertex, and three vertex indices per triangle.
pub struct Mesh {
    pub positions: Vec<i64>,
    pub indices: Vec<u32>,
}

impl Mesh {
    pub open spec fn vertex_count(&self) -> nat {
        (self.positions@.len() / 3) as nat
    }

    pub open spec fn triangle_count(&self) -> nat {
        (self.indices@.len() / 3) as nat
    }

    /// Both buffers hold whole groups of three, every index names a vertex,
    /// and every vertex can be given a local number in a `u32`.
    pub open spec fn wf(&self) -> bool {
        &&& self.positions@.len() % 3 == 0
        &&& self.indices@.len() % 3 == 0
        &&& self.vertex_count() <= u32::MAX
        &&& forall|k: int| 0 <= k < self.indices@.len() ==> (#[trigger] self.indices@[k]) < self.vertex_count()
    }

    /// Checks `wf`.
    pub fn is_well_formed(&self) -> (r: bool)
        ensures
            r == self.wf(),
    {
        if self.positions.len() % 3 != 0 || self.indices.len() % 3 != 0 {
            return false;
        }
        let vertex_count: usize = self.positions.len() / 3;
        if vertex_count > u32::MAX as usize {
            return false;
        }
        let mut k: usize = 0;
        while k < self.indices.len()
            invariant
                k <= self.indices@.len(),
                vertex_count == self.vertex_count(),
                forall|m: int| 0 <= m < k ==> (#[trigger] self.indices@[m]) < vertex_count,
            decreases self.indices@.len() - k,
        {
            if self.indices[k] as usize >= vertex_count {
                return false;
            }
            k = k + 1;
        }
        true
    }
}

/// A closed axis-aligned rectangle on the horizontal axes `x` and `z`.
#[derive(Clone, Copy, Debug, PartialEq, Eq)]
pub struct MeshBoundary {
    pub x: (i64, i64),
    pub z: (i64, i64),
}

impl MeshBoundary {
    /// The point `(x, z)` lies in the rectangle, edges included.
    pub open spec fn contains(&self, x: int, z: int) -> bool {
        self.x.0 <= x <= self.x.1 && self.z.0 <= z <= self.z.1
    }

    pub open spec fn wf(&self) -> bool {
        self.x.0 <= self.x.1 && self.z.0 <= self.z.1
    }
}

/// The `x` coordinate of vertex `v`.
pub open spec fn vertex_x(positions: Seq<i64>, v: int) -> int {
    positions[3 * v] as int
}

/// The `z` coordinate of vertex `v`.
pub open spec fn vertex_z(positions: Seq<i64>, v: int) -> int {
    positions[3 * v + 2] as int
}

/// `b` is the least rectangle that holds every vertex of `positions`.
pub open spec fn is_bounding_rect(positions: Seq<i64>, b: MeshBoundary) -> bool {
    let n = positions.len() / 3;
    &&& forall|v: int| 0 <= v < n ==> #[trigger] b.contains(vertex_x(positions, v), vertex_z(positions, v))
    &&& exists|v: int| 0 <= v < n && vertex_x(positions, v) == b.x.0
    &&& exists|v: int| 0 <= v < n && vertex_x(positions, v) == b.x.1
    &&& exists|v: int| 0 <= v < n && vertex_z(positions, v) == b.z.0
    &&& exists|v: int| 0 <= v < n && vertex_z(positions, v) == b.z.1
}

/// The bounding rectangle of the vertices of `positions`.
pub open spec fn bounding_rect(positions: Seq<i64>) -> MeshBoundary {
    choose|b: MeshBoundary| is_bounding_rect(positions, b)
}

/// A set of vertices has one bounding rectangle at most.
pub proof fn lemma_bounding_rect_unique(positions: Seq<i64>, b: MeshBoundary)
    requires
        is_bounding_rect(positions, b),
    ensures
        bounding_rect(positions) == b,
{
    let c = bounding_rect(positions);
    let n = positions.len() / 3;
    assert(is_bounding_rect(positions, c));
    let v0 = choose|v: int| 0 <= v < n && vertex_x(positions, v) == b.x.0;
    let v1 = choose|v: int| 0 <= v < n && vertex_x(positions, v) == b.x.1;
    let v2 = choose|v: int| 0 <= v < n && vertex_z(positions, v) == b.z.0;
    let v3 = choose|v: int| 0 <= v < n && vertex_z(positions, v) == b.z.1;
    let u0 = choose|v: int| 0 <= v < n && vertex_x(positions, v) == c.x.0;
    let u1 = choose|v: int| 0 <= v < n && vertex_x(positions, v) == c.x.1;
    let u2 = choose|v: int| 0 <= v < n && vertex_z(positions, v) == c.z.0;
    let u3 = choose|v: int| 0 <= v < n && vertex_z(positions, v) == c.z.1;
    assert(b.contains(vertex_x(positions, u0), vertex_z(positions, u0)));
    assert(b.contains(vertex_x(positions, u1), vertex_z(positions, u1)));
    assert(b.contains(vertex_x(positions, u2), vertex_z(positions, u2)));
    assert(b.contains(vertex_x(positions, u3), vertex_z(positions, u3)));
    assert(c.contains(vertex_x(positions, v0), vertex_z(positions, v0)));
    assert(c.contains(vertex_x(positions, v1), vertex_z(positions, v1)));
    assert(c.contains(vertex_x(positions, v2), vertex_z(positions, v2)));
    assert(c.contains(vertex_x(positions, v3), vertex_z(positions, v3)));
}

/// The bounding rectangle of the vertices of `positions` on `x` and `z`; the
/// height `y` plays no part. Without a vertex there is none: `EmptyMesh`.
pub fn calc_mesh_boundary(positions: &Vec<i64>) -> (r: Result<MeshBoundary, SplitError>)
    ensures
        positions@.len() < 3 ==> r == Err::<MeshBoundary, SplitError>(SplitError::EmptyMesh),
        positions@.len() >= 3 ==> (r matches Ok(b) && {
            &&& is_bounding_rect(positions@, b)
            &&& b == bounding_rect(positions@)
            &&& b.wf()
        }),
{
    let len: usize = positions.len();
    if len < 3 {
        return Err(SplitError::EmptyMesh);
    }
    let n: usize = len / 3;
    let mut min_x = positions[0];
    let mut max_x = positions[0];
    let mut min_z = positions[2];
    let mut max_z = positions[2];
    let ghost mut w_min_x: int = 0;
    let ghost mut w_max_x: int = 0;
    let ghost mut w_min_z: int = 0;
    let ghost mut w_max_z: int = 0;
    let mut v: usize = 1;
    while v < n
        invariant
            n == positions@.len() / 3,
            len == positions@.len(),
            3 * n <= len,
            1 <= v <= n,
            forall|u: int| 0 <= u < v ==> min_x <= #[trigger] vertex_x(positions@, u) <= max_x,
            forall|u: int| 0 <= u < v ==> min_z <= #[trigger] vertex_z(positions@, u) <= max_z,
            0 <= w_min_x < v && vertex_x(positions@, w_min_x) == min_x,
            0 <= w_max_x < v && vertex_x(positions@, w_max_x) == max_x,
            0 <= w_min_z < v && vertex_z(positions@, w_min_z) == min_z,
            0 <= w_max_z < v && vertex_z(positions@, w_max_z) == max_z,
        decreases n - v,
    {
        let px = positions[3 * v];
        let pz = positions[3 * v + 2];
        if px > max_x {
            max_x = px;
            proof { w_max_x = v as int; }
        }
        if px < min_x {
            min_x = px;
            proof { w_min_x = v as int; }
        }
        if pz > max_z {
            max_z = pz;
            proof { w_max_z = v as int; }
        }
        if pz < min_z {
            min_z = pz;
            proof { w_min_z = v as int; }
        }
        v = v + 1;
    }
    let r = MeshBoundary { x: (min_x, max_x), z: (min_z, max_z) };
    assert forall|u: int| 0 <= u < n implies #[trigger] r.contains(vertex_x(positions@, u), vertex_z(positions@, u)) by {
        assert(min_x <= vertex_x(positions@, u) <= max_x);
        assert(min_z <= vertex_z(positions@, u) <= max_z);
    }
    proof {
        lemma_bounding_rect_unique(positions@, r);
    }
    Ok(r)
}

/// Grid line `i` of the `n + 1` lines that cut `[lo, hi]` into `n` equal
/// parts, rounded down to the coordinate unit: `lo + i * (hi - lo) / n`.
/// Line `0` is `lo` and line `n` is `hi`, so the cells tile `[lo, hi]` exactly.
pub open spec fn grid_line(lo: int, hi: int, n: int, i: int) -> int {
    lo + (i * (hi - lo)) / n
}

/// Grid lines lie in `[lo, hi]` and grow with their number.
pub proof fn lemma_grid_line_ordered(lo: int, hi: int, n: int, i: int, j: int)
    requires
        lo <= hi,
        n >= 1,
        0 <= i <= j <= n,
    ensures
        lo <= grid_line(lo, hi, n, i) <= grid_line(lo, hi, n, j) <= hi,
        grid_line(lo, hi, n, 0) == lo,
        grid_line(lo, hi, n, n) == hi,
{
    let w = hi - lo;
    lemma_mul_inequality(i, j, w);
    lemma_mul_inequality(j, n, w);
    lemma_mul_inequality(0, i, w);
    lemma_div_is_ordered(i * w, j * w, n);
    lemma_div_is_ordered(j * w, n * w, n);
    lemma_div_is_ordered(0, i * w, n);
    lemma_div_by_multiple(w, n);
    assert(n * w == w * n) by (nonlinear_arith);
    assert(0 * w == 0);
}

/// Every coordinate of `[lo, hi]` lies in one of the `n` cells between
/// consecutive grid lines.
pub proof fn lemma_grid_covers(lo: int, hi: int, n: int, p: int) -> (i: int)
    requires
        lo <= p <= hi,
        n >= 1,
    ensures
        0 <= i < n,
        grid_line(lo, hi, n, i) <= p <= grid_line(lo, hi, n, i + 1),
{
    lemma_grid_line_ordered(lo, hi, n, 0, n);
    lemma_grid_covers_below(lo, hi, n, p, n)
}

proof fn lemma_grid_covers_below(lo: int, hi: int, n: int, p: int, m: int) -> (i: int)
    requires
        lo <= hi,
        n >= 1,
        1 <= m <= n,
        lo <= p <= grid_line(lo, hi, n, m),
    ensures
        0 <= i < m,
        grid_line(lo, hi, n, i) <= p <= grid_line(lo, hi, n, i + 1),
    decreases m,
{
    lemma_grid_line_ordered(lo, hi, n, 0, m - 1);
    if p >= grid_line(lo, hi, n, m - 1) {
        m - 1
    } else {
        lemma_grid_covers_below(lo, hi, n, p, m - 1)
    }
}

/// The rectangle of grid cell `(i, j)` when `mesh_boundary` is cut into
/// `n` columns along `x` and `n` rows along `z`.
pub open spec fn cell_boundary(mesh_boundary: MeshBoundary, n: int, i: int, j: int) -> MeshBoundary {
    MeshBoundary {
        x: (
            grid_line(mesh_boundary.x.0 as int, mesh_boundary.x.1 as int, n, i) as i64,
            grid_line(mesh_boundary.x.0 as int, mesh_boundary.x.1 as int, n, i + 1) as i64,
        ),
        z: (
            grid_line(mesh_boundary.z.0 as int, mesh_boundary.z.1 as int, n, j) as i64,
            grid_line(mesh_boundary.z.0 as int, mesh_boundary.z.1 as int, n, j + 1) as i64,
        ),
    }
}

/// Computes `grid_line(lo, hi, n, i)`.
pub fn grid_line_at(lo: i64, hi: i64, n: usize, i: usize) -> (r: i64)
    requires
        lo <= hi,
        n >= 1,
        i <= n,
    ensures
        r == grid_line(lo as int, hi as int, n as int, i as int),
{
    proof {
        lemma_grid_line_ordered(lo as int, hi as int, n as int, i as int, n as int);
    }
    let w: u128 = (hi as i128 - lo as i128) as u128;
    assert(w <= u64::MAX);
    proof {
        lemma_mul_upper_bound(i as int, u64::MAX as int, w as int, u64::MAX as int);
    }
    assert(u64::MAX * u64::MAX <= u128::MAX) by (nonlinear_arith);
    let offset: u128 = (i as u128 * w) / (n as u128);
    (lo as i128 + offset as i128) as i64
}

} // verus!
