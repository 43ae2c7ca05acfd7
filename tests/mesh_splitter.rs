use parallel_viewshed_rust::chunk::MeshChunk;
use parallel_viewshed_rust::config::AppConfig;
use parallel_viewshed_rust::geometry::{calc_mesh_boundary, grid_line_at, Mesh, MeshBoundary};
use parallel_viewshed_rust::mesh_splitter::{MeshSplitter, SplitError};
use parallel_viewshed_rust::obj_text::{push_fixed_point, write_chunk_file_name, write_obj};
use parallel_viewshed_rust::run;

const UNIT: i64 = 1_000_000;

fn vertex(x: i64, y: i64, z: i64) -> [i64; 3] {
    [x * UNIT, y * UNIT, z * UNIT]
}

fn mesh_of(vertices: &[[i64; 3]], indices: &[u32]) -> Mesh {
    let mut positions = Vec::new();
    for v in vertices {
        positions.extend_from_slice(v);
    }
    Mesh { positions, indices: indices.to_vec() }
}

fn unit_quad() -> Mesh {
    mesh_of(
        &[vertex(0, 0, 0), vertex(1, 0, 0), vertex(1, 0, 1), vertex(0, 0, 1)],
        &[0, 1, 2, 0, 2, 3],
    )
}

fn two_separate_triangles() -> Mesh {
    mesh_of(
        &[
            vertex(0, 0, 0),
            vertex(1, 0, 0),
            vertex(0, 0, 1),
            vertex(9, 0, 9),
            vertex(10, 0, 9),
            vertex(10, 0, 10),
        ],
        &[0, 1, 2, 3, 4, 5],
    )
}

fn split(mesh: Mesh, n: usize) -> MeshSplitter {
    let mut splitter = MeshSplitter::new(mesh, n).unwrap();
    splitter.run_splitter();
    splitter
}

fn text(bytes: &[u8]) -> String {
    String::from_utf8(bytes.to_vec()).unwrap()
}

fn chunk(splitter: &MeshSplitter, i: usize, j: usize) -> &MeshChunk {
    splitter.get_chunk_at((i, j))
}

fn local_triangle_positions(c: &MeshChunk, k: usize) -> Vec<Vec<i64>> {
    (0..3)
        .map(|m| {
            let l = (c.indices[3 * k + m] - 1) as usize;
            c.vertices[3 * l..3 * l + 3].to_vec()
        })
        .collect()
}

fn source_triangle_positions(mesh: &Mesh, t: usize) -> Vec<Vec<i64>> {
    (0..3)
        .map(|m| {
            let v = mesh.indices[3 * t + m] as usize;
            mesh.positions[3 * v..3 * v + 3].to_vec()
        })
        .collect()
}

fn chunk_holds(c: &MeshChunk, mesh: &Mesh, t: usize) -> bool {
    let want = source_triangle_positions(mesh, t);
    (0..c.indices.len() / 3).any(|k| local_triangle_positions(c, k) == want)
}

#[test]
fn unit_quad_single_chunk_round_trip() {
    let splitter = split(unit_quad(), 1);
    assert_eq!(splitter.chunks.len(), 1);
    let c = chunk(&splitter, 0, 0);
    assert_eq!(c.vertices, unit_quad().positions);
    assert_eq!(c.indices, vec![1, 2, 3, 1, 3, 4]);
    let file = splitter.chunk_file_at((0, 0));
    assert_eq!(text(&file.name), "chunk_0_0.obj");
    assert_eq!(
        text(&file.contents),
        "v 0.000000 0.000000 0.000000\n\
         v 1.000000 0.000000 0.000000\n\
         v 1.000000 0.000000 1.000000\n\
         v 0.000000 0.000000 1.000000\n\
         f 1 2 3\n\
         f 1 3 4\n"
    );
}

#[test]
fn two_separate_triangles_in_four_chunks() {
    let splitter = split(two_separate_triangles(), 2);
    assert_eq!(splitter.chunks.len(), 4);
    let mut non_empty = 0;
    let mut empty = 0;
    for c in &splitter.chunks {
        if c.indices.is_empty() {
            assert!(c.vertices.is_empty());
            empty += 1;
        } else {
            assert_eq!(c.vertices.len(), 9);
            assert_eq!(c.indices, vec![1, 2, 3]);
            non_empty += 1;
        }
    }
    assert_eq!((non_empty, empty), (2, 2));
    assert!(chunk(&splitter, 0, 1).indices.is_empty());
    assert!(chunk(&splitter, 1, 0).indices.is_empty());
    assert_eq!(chunk(&splitter, 1, 1).vertices, two_separate_triangles().positions[9..].to_vec());
    let files = splitter.chunk_files();
    assert_eq!(files.len(), 4);
    let empty_file = splitter.chunk_file_at((0, 1));
    assert_eq!(text(&empty_file.name), "chunk_0_1.obj");
    assert!(empty_file.contents.is_empty());
    assert_eq!(text(&files[3].name), "chunk_1_1.obj");
    assert_eq!(
        text(&files[3].contents),
        "v 9.000000 0.000000 9.000000\nv 10.000000 0.000000 9.000000\nv 10.000000 0.000000 10.000000\nf 1 2 3\n"
    );
}

#[test]
fn grid_has_n_squared_chunks_that_tile_the_rectangle() {
    for n in 1..=4usize {
        let splitter = MeshSplitter::new(two_separate_triangles(), n).unwrap();
        assert_eq!(splitter.chunks.len(), n * n);
        let b = splitter.mesh_boundary;
        for i in 0..n {
            for j in 0..n {
                let c = chunk(&splitter, i, j);
                assert_eq!(c.index_in_mesh, (i, j));
                assert!(c.boundary.x.0 <= c.boundary.x.1 && c.boundary.z.0 <= c.boundary.z.1);
                if i == 0 {
                    assert_eq!(c.boundary.x.0, b.x.0);
                }
                if i == n - 1 {
                    assert_eq!(c.boundary.x.1, b.x.1);
                }
                if j == 0 {
                    assert_eq!(c.boundary.z.0, b.z.0);
                }
                if j == n - 1 {
                    assert_eq!(c.boundary.z.1, b.z.1);
                }
                if i + 1 < n {
                    assert_eq!(c.boundary.x.1, chunk(&splitter, i + 1, j).boundary.x.0);
                }
                if j + 1 < n {
                    assert_eq!(c.boundary.z.1, chunk(&splitter, i, j + 1).boundary.z.0);
                }
            }
        }
    }
}

#[test]
fn grid_lines_of_three_columns() {
    let splitter = MeshSplitter::new(two_separate_triangles(), 3).unwrap();
    let xs: Vec<(i64, i64)> = (0..3).map(|i| chunk(&splitter, i, 0).boundary.x).collect();
    assert_eq!(xs, vec![(0, 3_333_333), (3_333_333, 6_666_666), (6_666_666, 10_000_000)]);
    assert_eq!(grid_line_at(0, 10, 3, 1), 3);
    assert_eq!(grid_line_at(-10, 10, 4, 3), 5);
    assert_eq!(grid_line_at(i64::MIN, i64::MAX, 2, 1), -1);
    assert_eq!(grid_line_at(i64::MIN, i64::MAX, 2, 2), i64::MAX);
}

#[test]
fn local_indices_are_dense_and_never_dangle() {
    let mesh = mesh_of(
        &[
            vertex(0, 0, 0),
            vertex(2, 0, 0),
            vertex(4, 0, 0),
            vertex(0, 0, 2),
            vertex(2, 0, 2),
            vertex(4, 0, 4),
        ],
        &[5, 4, 2, 0, 1, 3, 1, 4, 3, 2, 4, 1],
    );
    let splitter = split(mesh, 2);
    for c in &splitter.chunks {
        assert_eq!(c.vertices.len() % 3, 0);
        let k = c.vertices.len() / 3;
        assert!(c.indices.iter().all(|&l| l >= 1 && l as usize <= k));
        for l in 1..=k as u32 {
            assert!(c.indices.contains(&l));
        }
        let mut seen: Vec<Vec<i64>> = c.vertices.chunks(3).map(|v| v.to_vec()).collect();
        seen.sort();
        seen.dedup();
        assert_eq!(seen.len(), k);
    }
}

#[test]
fn splitting_twice_gives_identical_chunks() {
    let first = split(two_separate_triangles(), 3);
    let second = split(two_separate_triangles(), 3);
    assert_eq!(first.chunks.len(), second.chunks.len());
    for (a, b) in first.chunks.iter().zip(second.chunks.iter()) {
        assert_eq!(a.vertices, b.vertices);
        assert_eq!(a.indices, b.indices);
    }
    assert_eq!(text(&first.chunk_files()[4].contents), text(&second.chunk_files()[4].contents));
}

#[test]
fn run_splitter_twice_changes_nothing() {
    let mut splitter = split(unit_quad(), 2);
    let before: Vec<Vec<u32>> = splitter.chunks.iter().map(|c| c.indices.clone()).collect();
    splitter.run_splitter();
    let after: Vec<Vec<u32>> = splitter.chunks.iter().map(|c| c.indices.clone()).collect();
    assert_eq!(before, after);
}

fn scattered_mesh() -> Mesh {
    mesh_of(
        &[vertex(0, 0, 0), vertex(3, 1, 0), vertex(0, 2, 3), vertex(7, 0, 7), vertex(7, 0, 1), vertex(1, 5, 7)],
        &[0, 1, 2, 3, 4, 5, 2, 5, 4, 0, 3, 1],
    )
}

#[test]
fn every_triangle_lands_in_some_chunk() {
    let mesh = scattered_mesh();
    for n in 1..=5usize {
        let s = split(scattered_mesh(), n);
        for t in 0..mesh.indices.len() / 3 {
            assert!(s.chunks.iter().any(|c| chunk_holds(c, &mesh, t)), "triangle {} lost with {} chunks", t, n);
        }
    }
}

#[test]
fn straddling_triangle_is_in_both_chunks() {
    let mesh = mesh_of(
        &[vertex(0, 0, 0), vertex(4, 0, 0), vertex(1, 0, 1), vertex(3, 0, 1), vertex(0, 0, 4), vertex(4, 0, 4)],
        &[2, 3, 5, 0, 1, 4],
    );
    let s = split(mesh_of(&[vertex(0, 0, 0), vertex(4, 0, 0), vertex(1, 0, 1), vertex(3, 0, 1), vertex(0, 0, 4), vertex(4, 0, 4)], &[2, 3, 5, 0, 1, 4]), 2);
    let left = chunk(&s, 0, 0);
    let right = chunk(&s, 1, 0);
    for t in 0..2 {
        assert!(chunk_holds(left, &mesh, t));
        assert!(chunk_holds(right, &mesh, t));
    }
    assert!(chunk_holds(chunk(&s, 1, 1), &mesh, 0));
    assert!(!chunk_holds(chunk(&s, 0, 1), &mesh, 0));
}

#[test]
fn vertex_on_grid_line_is_shared() {
    let mesh = mesh_of(&[vertex(0, 0, 0), vertex(2, 0, 0), vertex(4, 0, 4)], &[1, 1, 1, 0, 0, 2]);
    let s = split(mesh, 2);
    assert_eq!(chunk(&s, 0, 0).indices, vec![1, 1, 1, 2, 2, 3]);
    assert_eq!(chunk(&s, 1, 0).indices, vec![1, 1, 1]);
    assert_eq!(chunk(&s, 1, 1).indices, vec![1, 1, 2]);
    assert!(chunk(&s, 0, 1).indices.is_empty());
}

#[test]
fn bounding_rectangle_ignores_height() {
    let positions = vec![5, -100, 2, -3, 700, 9, 4, 0, -1];
    let b = calc_mesh_boundary(&positions);
    assert_eq!(b, Ok(MeshBoundary { x: (-3, 5), z: (-1, 9) }));
    let single = calc_mesh_boundary(&vec![7, 8, 9]);
    assert_eq!(single, Ok(MeshBoundary { x: (7, 7), z: (9, 9) }));
}

#[test]
fn bounding_rectangle_of_no_vertex_is_an_error() {
    assert_eq!(calc_mesh_boundary(&Vec::new()), Err(SplitError::EmptyMesh));
    assert_eq!(calc_mesh_boundary(&vec![1, 2]), Err(SplitError::EmptyMesh));
}

#[test]
fn degenerate_rectangle_puts_everything_in_every_chunk() {
    let mesh = mesh_of(&[vertex(1, 0, 1), vertex(1, 5, 1), vertex(1, 2, 1)], &[0, 1, 2]);
    let s = split(mesh, 2);
    for c in &s.chunks {
        assert_eq!(c.indices, vec![1, 2, 3]);
    }
}

#[test]
fn empty_mesh_is_rejected() {
    let r = MeshSplitter::new(mesh_of(&[], &[]), 2);
    assert_eq!(r.err(), Some(SplitError::EmptyMesh));
}

#[test]
fn zero_chunks_per_axis_is_rejected() {
    assert_eq!(MeshSplitter::new(unit_quad(), 0).err(), Some(SplitError::InvalidChunkCount(0)));
    let too_many = 1usize << (usize::BITS / 2);
    assert_eq!(MeshSplitter::new(unit_quad(), too_many).err(), Some(SplitError::InvalidChunkCount(too_many)));
}

#[test]
fn malformed_meshes_are_rejected() {
    let dangling = mesh_of(&[vertex(0, 0, 0), vertex(1, 0, 0), vertex(1, 0, 1)], &[0, 1, 3]);
    assert_eq!(MeshSplitter::new(dangling, 1).err(), Some(SplitError::MalformedMesh));
    let ragged = Mesh { positions: vec![0, 0, 0, 1], indices: vec![] };
    assert_eq!(MeshSplitter::new(ragged, 1).err(), Some(SplitError::MalformedMesh));
    let partial = Mesh { positions: vec![0, 0, 0], indices: vec![0, 0] };
    assert_eq!(MeshSplitter::new(partial, 1).err(), Some(SplitError::MalformedMesh));
    assert!(!mesh_of(&[vertex(0, 0, 0)], &[0, 0, 1]).is_well_formed());
    assert!(mesh_of(&[vertex(0, 0, 0)], &[0, 0, 0]).is_well_formed());
}

#[test]
fn chunk_lookup_by_place() {
    let s = split(unit_quad(), 2);
    for i in 0..2 {
        for j in 0..2 {
            assert_eq!(chunk(&s, i, j).index_in_mesh, (i, j));
            assert_eq!(text(&s.chunk_file_at((i, j)).name), format!("chunk_{}_{}.obj", i, j));
        }
    }
}

#[test]
fn planned_grid_holds_each_place_once() {
    let b = MeshBoundary { x: (-7, 20), z: (3, 3) };
    for n in 1..=5usize {
        let chunks = MeshSplitter::setup_empty_chunks(&unit_quad(), n, &b);
        assert_eq!(chunks.len(), n * n);
        let mut places: Vec<(usize, usize)> = chunks.iter().map(|c| c.index_in_mesh).collect();
        places.sort();
        places.dedup();
        assert_eq!(places.len(), n * n);
        assert!(places.iter().all(|&(i, j)| i < n && j < n));
        for (k, c) in chunks.iter().enumerate() {
            assert_eq!(c.index_in_mesh, (k / n, k % n));
            assert!(c.vertices.is_empty() && c.indices.is_empty());
            assert_eq!(c.boundary.z, (3, 3));
            let (i, _) = c.index_in_mesh;
            assert_eq!(c.boundary.x.0, -7 + (i as i64 * 27) / n as i64);
            assert_eq!(c.boundary.x.1, -7 + ((i as i64 + 1) * 27) / n as i64);
        }
    }
}

#[test]
fn fixed_point_coordinates() {
    let cases: Vec<(i64, &str)> = vec![
        (0, "0.000000"),
        (1_500_000, "1.500000"),
        (-1_500_000, "-1.500000"),
        (123, "0.000123"),
        (-5, "-0.000005"),
        (123_456_001, "123.456001"),
        (i64::MIN, "-9223372036854.775808"),
        (i64::MAX, "9223372036854.775807"),
    ];
    for (v, want) in cases {
        let mut out = Vec::new();
        push_fixed_point(&mut out, v);
        assert_eq!(text(&out), want);
    }
}

#[test]
fn obj_text_lists_vertices_then_faces() {
    let bytes = write_obj(&vec![-2_000_000, 250_000, 7, 1, 2, 3], &vec![1, 2, 2, 12, 1, 2]);
    assert_eq!(
        text(&bytes),
        "v -2.000000 0.250000 0.000007\nv 0.000001 0.000002 0.000003\nf 1 2 2\nf 12 1 2\n"
    );
    assert_eq!(text(&write_chunk_file_name(10, 203)), "chunk_10_203.obj");
}

#[test]
fn run_gives_the_first_chunk_file() {
    let config = AppConfig { file_path: String::from("quad.obj"), chunks_per_axis: 2, threads_amount: None };
    let file = run(config, unit_quad()).unwrap();
    assert_eq!(text(&file.name), "chunk_0_0.obj");
    assert_eq!(
        text(&file.contents),
        "v 0.000000 0.000000 0.000000\nv 1.000000 0.000000 0.000000\nv 1.000000 0.000000 1.000000\n\
         v 0.000000 0.000000 1.000000\nf 1 2 3\nf 1 3 4\n"
    );
    let config = AppConfig { file_path: String::from("quad.obj"), chunks_per_axis: 0, threads_amount: None };
    assert_eq!(run(config, unit_quad()).err(), Some(SplitError::InvalidChunkCount(0)));
}

#[test]
fn chunk_new_and_membership() {
    let b = MeshBoundary { x: (0, 10), z: (-10, 10) };
    let c = MeshChunk::new((1, 0), 2, &b, 4, 4);
    assert_eq!(c.boundary, MeshBoundary { x: (5, 10), z: (-10, 0) });
    assert!(c.vertices.is_empty() && c.indices.is_empty());
    assert!(c.is_vertex_inside(5, 0));
    assert!(c.is_vertex_inside(10, -10));
    assert!(!c.is_vertex_inside(4, 0));
    assert!(!c.is_vertex_inside(7, 1));
}
