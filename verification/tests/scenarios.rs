use std::collections::HashMap;

use surface_nets::{
    find_center, make_all_triangles, surface_net_impl, Coord, FaceResult, FieldSampler,
    SurfaceNet,
};

struct Mesh {
    net: SurfaceNet,
    positions: Vec<[f32; 3]>,
    normals: Vec<[f32; 3]>,
    indices: Vec<usize>,
}

fn dist(a: [f32; 3], b: [f32; 3]) -> f32 {
    let d = [a[0] - b[0], a[1] - b[1], a[2] - b[2]];
    d[0] * d[0] + d[1] * d[1] + d[2] * d[2]
}

fn crossing(low: Coord, high: Coord, value1: f32, value2: f32) -> [f32; 3] {
    let t = value1 / (value1 - value2);
    [
        low.0 as f32 * (1.0 - t) + high.0 as f32 * t,
        low.1 as f32 * (1.0 - t) + high.1 as f32 * t,
        low.2 as f32 * (1.0 - t) + high.2 as f32 * t,
    ]
}

fn normal(corner: &dyn Fn(Coord) -> f32) -> [f32; 3] {
    let mut g = [0.0f32; 3];
    for x in 0..2 {
        for y in 0..2 {
            for z in 0..2 {
                let v = corner((x, y, z));
                g[0] += if x == 1 { v } else { -v };
                g[1] += if y == 1 { v } else { -v };
                g[2] += if z == 1 { v } else { -v };
            }
        }
    }
    let length = (g[0] * g[0] + g[1] * g[1] + g[2] * g[2]).sqrt();
    if length == 0.0 {
        [0.0; 3]
    } else {
        [g[0] / length, g[1] / length, g[2] / length]
    }
}

// Places the vertices of the mesh that the library joins, and splits its
// quads along the shorter diagonal.
fn mesh_of(resolution: usize, field: &dyn Fn(usize, usize, usize) -> f32, precompute: bool) -> Mesh {
    let values = FieldSampler::new(resolution, |x, y, z| field(x, y, z), precompute);
    let signs = FieldSampler::new(resolution, |x, y, z| values.sample(x, y, z) < 0.0, false);
    let net = surface_net_impl(&signs);
    let mut positions = Vec::new();
    let mut normals = Vec::new();
    for &cell in net.cells() {
        let corner = |o: Coord| values.sample(cell.0 + o.0, cell.1 + o.1, cell.2 + o.2);
        let edges = find_center(&signs, cell).expect("a vertex lies in an active cell");
        let mut sum = [0.0f32; 3];
        for &(low, high) in &edges {
            let p = crossing(low, high, corner(low), corner(high));
            for axis in 0..3 {
                sum[axis] += p[axis];
            }
        }
        let count = edges.len() as f32;
        positions.push([
            sum[0] / count + cell.0 as f32,
            sum[1] / count + cell.1 as f32,
            sum[2] / count + cell.2 as f32,
        ]);
        normals.push(normal(&corner));
    }
    let first_shorter: Vec<bool> = net
        .quads()
        .iter()
        .map(|q| dist(positions[q.v1], positions[q.v4]) < dist(positions[q.v2], positions[q.v3]))
        .collect();
    let indices = make_all_triangles(&net, &first_shorter).expect("one answer for each quad");
    Mesh { net, positions, normals, indices }
}

fn sphere(center: f32, radius: f32) -> impl Fn(usize, usize, usize) -> f32 {
    move |x, y, z| {
        let (dx, dy, dz) = (x as f32 - center, y as f32 - center, z as f32 - center);
        (dx * dx + dy * dy + dz * dz).sqrt() - radius
    }
}

fn face_normal(a: [f32; 3], b: [f32; 3], c: [f32; 3]) -> [f32; 3] {
    let u = [b[0] - a[0], b[1] - a[1], b[2] - a[2]];
    let v = [c[0] - a[0], c[1] - a[1], c[2] - a[2]];
    [
        u[1] * v[2] - u[2] * v[1],
        u[2] * v[0] - u[0] * v[2],
        u[0] * v[1] - u[1] * v[0],
    ]
}

fn close(a: f32, b: f32) -> bool {
    (a - b).abs() < 1e-5
}

#[test]
fn one_solid_corner_at_resolution_one() {
    let field = |x: usize, y: usize, z: usize| if (x, y, z) == (0, 0, 0) { -1.0 } else { 1.0 };
    for &precompute in &[false, true] {
        let mesh = mesh_of(1, &field, precompute);
        assert_eq!(mesh.net.cells(), &vec![(0, 0, 0)]);
        assert!(mesh.net.quads().is_empty());
        assert!(mesh.indices.is_empty());
        assert_eq!(mesh.positions.len(), 1);
        assert_eq!(mesh.normals.len(), 1);
        // Three edges are crossed, each half way: the vertex is a third of
        // (0.5, 0, 0) + (0, 0.5, 0) + (0, 0, 0.5).
        for axis in 0..3 {
            assert!(close(mesh.positions[0][axis], 1.0 / 6.0));
            assert!(close(mesh.normals[0][axis], 1.0 / 3.0f32.sqrt()));
        }
    }
}

#[test]
fn one_solid_corner_crosses_three_edges() {
    let signs = FieldSampler::new(1, |x: usize, y: usize, z: usize| (x, y, z) == (0, 0, 0), false);
    let edges = find_center(&signs, (0, 0, 0)).unwrap();
    assert_eq!(edges.len(), 3);
    for (low, _) in edges {
        assert_eq!(low, (0, 0, 0));
    }
}

#[test]
fn a_sample_of_zero_counts_as_air() {
    let zero = |_: usize, _: usize, _: usize| 0.0f32;
    let mesh = mesh_of(3, &zero, false);
    assert!(mesh.positions.is_empty() && mesh.indices.is_empty());
    let touching = |x: usize, _: usize, _: usize| if x == 0 { -1.0f32 } else { 0.0 };
    let mesh = mesh_of(2, &touching, false);
    assert_eq!(mesh.net.cells(), &vec![(0, 0, 0), (0, 0, 1), (0, 1, 0), (0, 1, 1)]);
    for p in &mesh.positions {
        // -1 at x = 0 and 0 at x = 1: the field is zero at x = 1.
        assert!(close(p[0], 1.0));
    }
    let negative_zero = |_: usize, _: usize, _: usize| -0.0f32;
    assert!(mesh_of(2, &negative_zero, true).positions.is_empty());
}

#[test]
fn fields_of_one_sign_give_an_empty_mesh() {
    let air = |_: usize, _: usize, _: usize| 2.5f32;
    let solid = |_: usize, _: usize, _: usize| -0.25f32;
    for resolution in 1..5 {
        for &precompute in &[false, true] {
            let mesh = mesh_of(resolution, &air, precompute);
            assert!(mesh.positions.is_empty() && mesh.normals.is_empty());
            assert!(mesh.indices.is_empty());
            let mesh = mesh_of(resolution, &solid, precompute);
            assert!(mesh.positions.is_empty() && mesh.normals.is_empty());
            assert!(mesh.indices.is_empty());
        }
    }
}

#[test]
fn a_plane_between_lattice_layers() {
    // Solid below x = 1.25.
    let field = |x: usize, _: usize, _: usize| x as f32 - 1.25;
    let mesh = mesh_of(3, &field, true);
    assert_eq!(mesh.positions.len(), 9);
    for (i, p) in mesh.positions.iter().enumerate() {
        let cell = mesh.net.cells()[i];
        assert_eq!(cell.0, 1);
        assert!(close(p[0], 1.25));
        assert!(close(p[1], cell.1 as f32 + 0.5));
        assert!(close(p[2], cell.2 as f32 + 0.5));
        assert!(close(mesh.normals[i][0], 1.0));
        assert!(close(mesh.normals[i][1], 0.0));
        assert!(close(mesh.normals[i][2], 0.0));
    }
    assert_eq!(mesh.indices.len(), 24);
    for t in mesh.indices.chunks(3) {
        let n = face_normal(mesh.positions[t[0]], mesh.positions[t[1]], mesh.positions[t[2]]);
        // The air is on the side of growing x.
        assert!(close(n[0], 1.0) && close(n[1], 0.0) && close(n[2], 0.0));
    }
    for q in mesh.net.quads() {
        assert_eq!(q.face, FaceResult::FaceNegative);
    }
}

#[test]
fn a_plane_seen_from_the_other_side() {
    // Solid above y = 1.5.
    let field = |_: usize, y: usize, _: usize| 1.5 - y as f32;
    let mesh = mesh_of(3, &field, false);
    assert_eq!(mesh.positions.len(), 9);
    assert_eq!(mesh.indices.len(), 24);
    for q in mesh.net.quads() {
        assert_eq!(q.face, FaceResult::FacePositive);
    }
    for t in mesh.indices.chunks(3) {
        let n = face_normal(mesh.positions[t[0]], mesh.positions[t[1]], mesh.positions[t[2]]);
        assert!(close(n[0], 0.0) && close(n[1], -1.0) && close(n[2], 0.0));
    }
    for n in &mesh.normals {
        assert!(close(n[0], 0.0) && close(n[1], -1.0) && close(n[2], 0.0));
    }
}

#[test]
fn sphere_mesh_is_closed_and_faces_outwards() {
    let radius = 4.0f32;
    let resolution = 16;
    let center = 8.0f32;
    let field = sphere(center, radius);
    let mesh = mesh_of(resolution, &field, true);

    assert_eq!(mesh.positions.len(), mesh.normals.len());
    assert_eq!(mesh.positions.len(), mesh.net.cells().len());
    assert!(!mesh.positions.is_empty());
    assert_eq!(mesh.indices.len() % 3, 0);

    // The number of vertices grows with the area of the sphere.
    let area = 4.0 * std::f32::consts::PI * radius * radius;
    let count = mesh.positions.len() as f32;
    assert!(count > area / 2.0 && count < area * 2.0, "{} vertices", count);

    for p in &mesh.positions {
        let r = dist(*p, [center; 3]).sqrt();
        assert!((r - radius).abs() < 0.5, "a vertex at distance {}", r);
    }

    let mut edges: HashMap<(usize, usize), (usize, usize)> = HashMap::new();
    for t in mesh.indices.chunks(3) {
        let (a, b, c) = (mesh.positions[t[0]], mesh.positions[t[1]], mesh.positions[t[2]]);
        let n = face_normal(a, b, c);
        let centroid = [
            (a[0] + b[0] + c[0]) / 3.0 - center,
            (a[1] + b[1] + c[1]) / 3.0 - center,
            (a[2] + b[2] + c[2]) / 3.0 - center,
        ];
        let outward = n[0] * centroid[0] + n[1] * centroid[1] + n[2] * centroid[2];
        assert!(outward > 0.0);
        for k in 0..3 {
            let (from, to) = (t[k], t[(k + 1) % 3]);
            let seen = edges.entry((from.min(to), from.max(to))).or_insert((0, 0));
            if from < to {
                seen.0 += 1;
            } else {
                seen.1 += 1;
            }
        }
    }
    // Closed and consistently wound: every edge has one triangle on each
    // side, and they run along it in opposite directions.
    for (edge, seen) in &edges {
        assert_eq!(*seen, (1, 1), "edge {:?}", edge);
    }
    // A closed surface like a sphere: V - E + F = 2.
    let faces = mesh.indices.len() / 3;
    assert_eq!(mesh.positions.len() + faces, edges.len() + 2);
}

#[test]
fn sphere_normals_have_length_one_and_point_outwards() {
    let center = 10.0f32;
    let field = sphere(center, 5.0);
    let mesh = mesh_of(20, &field, false);
    assert!(!mesh.normals.is_empty());
    for (p, n) in mesh.positions.iter().zip(&mesh.normals) {
        let length = (n[0] * n[0] + n[1] * n[1] + n[2] * n[2]).sqrt();
        assert!((length - 1.0).abs() < 1e-4);
        let radial = [p[0] - center, p[1] - center, p[2] - center];
        assert!(n[0] * radial[0] + n[1] * radial[1] + n[2] * radial[2] > 0.0);
    }
}

#[test]
fn a_flat_gradient_gives_the_zero_normal() {
    // Two opposite corners of the cell are solid: every axis sees as much
    // solid above as below.
    let field = |x: usize, y: usize, z: usize| {
        if (x, y, z) == (0, 0, 0) || (x, y, z) == (1, 1, 1) {
            -1.0f32
        } else {
            1.0
        }
    };
    let mesh = mesh_of(1, &field, false);
    assert_eq!(mesh.positions.len(), 1);
    assert_eq!(mesh.normals[0], [0.0, 0.0, 0.0]);
    for axis in 0..3 {
        assert!(close(mesh.positions[0][axis], 0.5));
    }
}

#[test]
fn precomputing_gives_the_same_geometry() {
    let field = |x: usize, y: usize, z: usize| {
        ((x * 7 + y * 13 + z * 29) % 11) as f32 - 4.5 + (x as f32) * 0.125
    };
    let direct = mesh_of(6, &field, false);
    let cached = mesh_of(6, &field, true);
    assert!(!direct.positions.is_empty() && !direct.indices.is_empty());
    assert_eq!(direct.positions, cached.positions);
    assert_eq!(direct.normals, cached.normals);
    assert_eq!(direct.indices, cached.indices);
    let again = mesh_of(6, &field, true);
    assert_eq!(again.positions, cached.positions);
    assert_eq!(again.normals, cached.normals);
    assert_eq!(again.indices, cached.indices);
}

#[test]
fn quads_are_split_along_the_shorter_diagonal() {
    let field = sphere(6.0, 3.0);
    let mesh = mesh_of(12, &field, true);
    assert!(!mesh.net.quads().is_empty());
    for (k, q) in mesh.net.quads().iter().enumerate() {
        let d14 = dist(mesh.positions[q.v1], mesh.positions[q.v4]);
        let d23 = dist(mesh.positions[q.v2], mesh.positions[q.v3]);
        let (a, b) = if d14 < d23 { (q.v1, q.v4) } else { (q.v2, q.v3) };
        for t in mesh.indices[6 * k..6 * k + 6].chunks(3) {
            assert!(t.contains(&a) && t.contains(&b));
        }
    }
}
