//! The text form of a chunk: `v x y z` lines with six decimals, then
//! `f a b c` lines with local indices counted from 1.
use vstd::prelude::*;

verus! {

/// The decimal digits of `n`, without leading zeros.
pub open spec fn decimal_digits(n: nat) -> Seq<u8>
    decreases n,
{
    if n < 10 {
        seq![(48 + n) as u8]
    } else {
        decimal_digits(n / 10) + seq![(48 + n % 10) as u8]
    }
}

/// The last `width` decimal digits of `n`, padded with zeros.
pub open spec fn padded_digits(n: nat, width: nat) -> Seq<u8>
    decreases width,
{
    if width == 0 {
        Seq::empty()
    } else {
        padded_digits(n / 10, (width - 1) as nat) + seq![(48 + n % 10) as u8]
    }
}

/// The number of coordinate units in one unit of length.
pub const UNITS_PER_LENGTH: u64 = 1_000_000;

pub open spec fn abs(v: int) -> nat {
    if v < 0 {
        (-v) as nat
    } else {
        v as nat
    }
}

/// A coordinate counted in millionths, written in units with six decimals:
/// `-1500000` is `-1.500000`.
pub open spec fn fixed_point(v: int) -> Seq<u8> {
    let sign: Seq<u8> = if v < 0 { seq![45u8] } else { Seq::empty() };
    sign + decimal_digits(abs(v) / 1_000_000) + seq![46u8] + padded_digits(abs(v) % 1_000_000, 6)
}

/// `v x y z` and a line break.
pub open spec fn vertex_line(x: i64, y: i64, z: i64) -> Seq<u8> {
    seq![118u8, 32u8] + fixed_point(x as int) + seq![32u8] + fixed_point(y as int) + seq![32u8]
        + fixed_point(z as int) + seq![10u8]
}

/// `f a b c` and a line break.
pub open spec fn face_line(a: u32, b: u32, c: u32) -> Seq<u8> {
    seq![102u8, 32u8] + decimal_digits(a as nat) + seq![32u8] + decimal_digits(b as nat) + seq![32u8]
        + decimal_digits(c as nat) + seq![10u8]
}

/// The lines of the first `n` vertices of `vertices`.
pub open spec fn vertex_lines(vertices: Seq<i64>, n: nat) -> Seq<u8>
    decreases n,
{
    if n == 0 {
        Seq::empty()
    } else {
        let k = n - 1;
        vertex_lines(vertices, (n - 1) as nat) + vertex_line(vertices[3 * k], vertices[3 * k + 1], vertices[3 * k + 2])
    }
}

/// The lines of the first `n` triangles of `indices`.
pub open spec fn face_lines(indices: Seq<u32>, n: nat) -> Seq<u8>
    decreases n,
{
    if n == 0 {
        Seq::empty()
    } else {
        let k = n - 1;
        face_lines(indices, (n - 1) as nat) + face_line(indices[3 * k], indices[3 * k + 1], indices[3 * k + 2])
    }
}

/// A whole chunk file: every vertex line, then every face line.
pub open spec fn obj_text(vertices: Seq<i64>, indices: Seq<u32>) -> Seq<u8> {
    vertex_lines(vertices, vertices.len() / 3) + face_lines(indices, indices.len() / 3)
}

/// `chunk_<i>_<j>.obj`
pub open spec fn chunk_file_name(i: nat, j: nat) -> Seq<u8> {
    seq![99u8, 104u8, 117u8, 110u8, 107u8, 95u8] + decimal_digits(i) + seq![95u8] + decimal_digits(j)
        + seq![46u8, 111u8, 98u8, 106u8]
}

/// Appends the decimal digits of `n`.
pub fn push_decimal(out: &mut Vec<u8>, n: u64)
    ensures
        final(out)@ == old(out)@ + decimal_digits(n as nat),
    decreases n,
{
    if n >= 10 {
        push_decimal(out, n / 10);
    }
    out.push((48 + n % 10) as u8);
    proof {
        assert(final(out)@ =~= old(out)@ + decimal_digits(n as nat));
    }
}

/// Appends the last `width` decimal digits of `n`, padded with zeros.
fn push_padded(out: &mut Vec<u8>, n: u64, width: u64)
    ensures
        final(out)@ == old(out)@ + padded_digits(n as nat, width as nat),
    decreases width,
{
    if width > 0 {
        push_padded(out, n / 10, width - 1);
        out.push((48 + n % 10) as u8);
    }
    proof {
        assert(final(out)@ =~= old(out)@ + padded_digits(n as nat, width as nat));
    }
}

/// Appends `fixed_point(v)`.
pub fn push_fixed_point(out: &mut Vec<u8>, v: i64)
    ensures
        final(out)@ == old(out)@ + fixed_point(v as int),
{
    let magnitude: u64 = if v < 0 {
        out.push(45u8);
        (0i128 - v as i128) as u64
    } else {
        v as u64
    };
    push_decimal(out, magnitude / UNITS_PER_LENGTH);
    out.push(46u8);
    push_padded(out, magnitude % UNITS_PER_LENGTH, 6);
    proof {
        assert(final(out)@ =~= old(out)@ + fixed_point(v as int));
    }
}

/// The text of a chunk with the given vertex and index buffers.
pub fn write_obj(vertices: &Vec<i64>, indices: &Vec<u32>) -> (r: Vec<u8>)
    ensures
        r@ == obj_text(vertices@, indices@),
{
    let mut out: Vec<u8> = Vec::new();
    let vertices_len: usize = vertices.len();
    let vertex_count: usize = vertices_len / 3;
    let mut k: usize = 0;
    while k < vertex_count
        invariant
            vertices_len == vertices@.len(),
            vertex_count == vertices_len / 3,
            k <= vertex_count,
            out@ == vertex_lines(vertices@, k as nat),
        decreases vertex_count - k,
    {
        let ghost before = out@;
        out.push(118u8);
        out.push(32u8);
        push_fixed_point(&mut out, vertices[3 * k]);
        out.push(32u8);
        push_fixed_point(&mut out, vertices[3 * k + 1]);
        out.push(32u8);
        push_fixed_point(&mut out, vertices[3 * k + 2]);
        out.push(10u8);
        proof {
            assert(out@ =~= before + vertex_line(vertices@[3 * k as int], vertices@[3 * k + 1], vertices@[3 * k + 2]));
        }
        k = k + 1;
    }
    let ghost head = out@;
    let indices_len: usize = indices.len();
    let triangle_count: usize = indices_len / 3;
    let mut t: usize = 0;
    while t < triangle_count
        invariant
            indices_len == indices@.len(),
            triangle_count == indices_len / 3,
            t <= triangle_count,
            out@ == head + face_lines(indices@, t as nat),
        decreases triangle_count - t,
    {
        let ghost before = out@;
        out.push(102u8);
        out.push(32u8);
        push_decimal(&mut out, indices[3 * t] as u64);
        out.push(32u8);
        push_decimal(&mut out, indices[3 * t + 1] as u64);
        out.push(32u8);
        push_decimal(&mut out, indices[3 * t + 2] as u64);
        out.push(10u8);
        proof {
            assert(out@ =~= before + face_line(indices@[3 * t as int], indices@[3 * t + 1], indices@[3 * t + 2]));
        }
        t = t + 1;
    }
    out
}

/// The bytes of `chunk_file_name(i, j)`.
pub fn write_chunk_file_name(i: usize, j: usize) -> (r: Vec<u8>)
    ensures
        r@ == chunk_file_name(i as nat, j as nat),
{
    let mut out: Vec<u8> = Vec::new();
    out.push(99u8);
    out.push(104u8);
    out.push(117u8);
    out.push(110u8);
    out.push(107u8);
    out.push(95u8);
    push_decimal(&mut out, i as u64);
    out.push(95u8);
    push_decimal(&mut out, j as u64);
    out.push(46u8);
    out.push(111u8);
    out.push(98u8);
    out.push(106u8);
    proof {
        assert(out@ =~= chunk_file_name(i as nat, j as nat));
    }
    out
}

} // verus!
