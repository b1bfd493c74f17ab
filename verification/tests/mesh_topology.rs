use avoidant::faces::{component_labels, coplanar_faces};
use avoidant::mesh::{build_edge_to_faces, extract_face_boundary, shared_edge_pairs, subdivide_faces};
use avoidant::sphere::{canonical_triangles, site_topology};
use avoidant::stitch::{directed_edge_neighbors, stitch_cells};

const ICOSAHEDRON: [[u32; 3]; 20] = [
    [0, 11, 5],
    [0, 5, 1],
    [0, 1, 7],
    [0, 7, 10],
    [0, 10, 11],
    [1, 5, 9],
    [5, 11, 4],
    [11, 10, 2],
    [10, 7, 6],
    [7, 1, 8],
    [3, 9, 4],
    [3, 4, 2],
    [3, 2, 6],
    [3, 6, 8],
    [3, 8, 9],
    [4, 9, 5],
    [2, 4, 11],
    [6, 2, 10],
    [8, 6, 7],
    [9, 8, 1],
];

#[test]
fn face_boundary_of_two_coplanar_triangles_is_their_square() {
    let tris = [[0u32, 1, 2], [0, 2, 3]];
    assert_eq!(extract_face_boundary(&[0, 1], &tris), Ok(vec![0, 1, 2, 3]));
    assert_eq!(extract_face_boundary(&[1], &tris), Ok(vec![0, 2, 3]));
}

#[test]
fn face_boundary_starts_at_smallest_vertex() {
    let tris = [[7u32, 4, 9]];
    assert_eq!(extract_face_boundary(&[0], &tris), Ok(vec![4, 9, 7]));
}

#[test]
fn closed_groups_have_no_boundary() {
    let tetra = [[0u32, 1, 2], [0, 2, 3], [0, 3, 1], [1, 3, 2]];
    assert_eq!(
        extract_face_boundary(&[0, 1, 2, 3], &tetra),
        Err("coplanar group has no boundary edges".to_string())
    );
    assert_eq!(
        extract_face_boundary(&[], &tetra),
        Err("coplanar group has no boundary edges".to_string())
    );
}

#[test]
fn edges_map_to_the_faces_that_share_them() {
    let faces = vec![vec![0u32, 1, 2], vec![2, 1, 3]];
    let map = build_edge_to_faces(&faces);
    assert_eq!(map.len(), 5);
    assert_eq!(map.get(&(1, 2)), Some(&vec![(0, 1), (1, 0)]));
    assert_eq!(map.get(&(0, 2)), Some(&vec![(0, 2)]));
    assert_eq!(map.get(&(1, 3)), Some(&vec![(1, 1)]));
}

#[test]
fn one_triangle_splits_into_four() {
    let (faces, mids) = subdivide_faces(3, &vec![vec![0, 1, 2]]);
    assert_eq!(mids, vec![(0, 1), (1, 2), (0, 2)]);
    assert_eq!(
        faces,
        vec![vec![0, 3, 5], vec![1, 4, 3], vec![2, 5, 4], vec![3, 4, 5]]
    );
}

#[test]
fn icosphere_subdivision_counts() {
    let mut faces: Vec<Vec<u32>> = ICOSAHEDRON.iter().map(|t| t.to_vec()).collect();
    let mut vertices = 12usize;
    for (expected_faces, expected_new) in [(80usize, 30usize), (320, 120)] {
        let (next, mids) = subdivide_faces(vertices, &faces);
        assert_eq!(next.len(), expected_faces);
        assert_eq!(mids.len(), expected_new);
        vertices += mids.len();
        faces = next;
        // A closed mesh: V - E + F = 2, every edge shared by two faces.
        let edges = build_edge_to_faces(&faces);
        assert_eq!(vertices + faces.len(), edges.len() + 2);
        assert!(edges.values().all(|owners| owners.len() == 2));
    }
    assert_eq!(vertices, 162);
}

#[test]
fn shared_outline_edges_make_reciprocal_neighbors() {
    let rings = vec![
        vec![(0, 0, 0), (1, 0, 0), (1, 0, 0), (1, 1, 0), (0, 1, 0), (0, 0, 0)],
        vec![(1, 0, 0), (2, 0, 0), (2, 1, 0), (1, 1, 0)],
        vec![(5, 5, 5), (6, 5, 5), (6, 6, 5)],
    ];
    let (outlines, neighbors) = stitch_cells(&rings);
    assert_eq!(outlines[0], vec![(0, 0), (0, 1), (0, 3), (0, 4)]);
    assert_eq!(outlines[1], vec![(0, 1), (1, 1), (1, 2), (0, 3)]);
    assert_eq!(outlines[2], vec![(2, 0), (2, 1), (2, 2)]);
    assert_eq!(neighbors, vec![vec![1], vec![0], vec![]]);
}

#[test]
fn neighbor_lists_are_sorted_and_distinct() {
    // A center square surrounded by four squares sharing its edges.
    let square = |x: i64, y: i64| vec![(x, y, 0), (x + 1, y, 0), (x + 1, y + 1, 0), (x, y + 1, 0)];
    let rings = vec![square(1, 2), square(1, 1), square(0, 1), square(2, 1), square(1, 0)];
    let (_, neighbors) = stitch_cells(&rings);
    assert_eq!(neighbors[1], vec![0, 2, 3, 4]);
    assert_eq!(neighbors[0], vec![1]);
    assert_eq!(neighbors[2], vec![1]);
}

#[test]
fn directed_edges_link_cells_with_opposite_windings() {
    let polys = vec![
        vec![(0, 0), (1, 0), (1, 1), (0, 1)],
        vec![(1, 0), (2, 0), (2, 1), (1, 1)],
        vec![(1, 1), (1, 0), (3, 3)],
        vec![(9, 9)],
    ];
    let nb = directed_edge_neighbors(&polys);
    // Cells 1 and 2 both have the edge (1,1) -> (1,0), the reverse of cell 0's
    // (1,0) -> (1,1); the later one, cell 2, owns it.
    assert_eq!(nb[0], vec![2]);
    assert_eq!(nb[1], vec![0]);
    assert_eq!(nb[2], vec![0]);
    assert!(nb[3].is_empty());
}

#[test]
fn hull_triangles_are_rotated_and_sorted() {
    let tris = canonical_triangles(&vec![5, 2, 9, 1, 0, 3, 7, 8, 4]).unwrap();
    assert_eq!(tris, vec![[0, 3, 1], [2, 9, 5], [4, 7, 8]]);
    assert_eq!(
        canonical_triangles(&vec![1, 2, 3, 4]),
        Err("convex hull returned non-triangle indices".to_string())
    );
    assert_eq!(canonical_triangles(&vec![]), Ok(vec![]));
}

#[test]
fn sites_know_incident_triangles_and_neighbors() {
    let tris = vec![[0u32, 1, 2], [0, 2, 3], [0, 3, 1], [1, 3, 2]];
    let (incident, neighbors) = site_topology(4, &tris);
    assert_eq!(incident[0], vec![0, 1, 2]);
    assert_eq!(incident[1], vec![0, 2, 3]);
    assert_eq!(neighbors[0], vec![1, 2, 3]);
    assert_eq!(neighbors[1], vec![2, 0, 3]);
    let (incident, neighbors) = site_topology(5, &tris);
    assert!(incident[4].is_empty());
    assert!(neighbors[4].is_empty());
}

#[test]
fn edges_used_by_two_faces_pair_them() {
    let faces = vec![
        vec![0u32, 1, 2],
        vec![2, 1, 3],
        vec![0, 2, 3],
        vec![1, 3, 4],
        vec![3, 1, 5],
    ];
    let mut pairs = shared_edge_pairs(&faces);
    pairs.sort();
    assert_eq!(pairs, vec![(0, 1), (0, 2), (1, 2)]);
    // Edge (1, 3) is used by three faces and pairs none.
    assert!(!pairs.contains(&(1, 3)));
}

#[test]
fn components_are_labelled_by_their_smallest_member() {
    let labels = component_labels(6, &vec![(4, 1), (1, 3), (5, 2)]);
    assert_eq!(labels, vec![0, 1, 2, 1, 1, 2]);
    assert_eq!(component_labels(3, &vec![]), vec![0, 1, 2]);
}

#[test]
fn coplanar_triangles_merge_into_sorted_faces() {
    // Two squares: triangles 0 and 2 form one, 1 and 3 the other.
    let tris = vec![[4u32, 5, 6], [0, 1, 2], [4, 6, 7], [0, 2, 3]];
    let faces = coplanar_faces(&tris, &vec![(0, 2), (3, 1)]).unwrap();
    assert_eq!(faces, vec![vec![0, 1, 2, 3], vec![4, 5, 6, 7]]);
    // Without links every triangle is its own face.
    let faces = coplanar_faces(&tris, &vec![]).unwrap();
    assert_eq!(faces, vec![vec![0, 1, 2], vec![0, 2, 3], vec![4, 5, 6], vec![4, 6, 7]]);
    // A closed group has no outline.
    let tetra = vec![[0u32, 1, 2], [0, 2, 3], [0, 3, 1], [1, 3, 2]];
    assert_eq!(
        coplanar_faces(&tetra, &vec![(0, 1), (1, 2), (2, 3)]),
        Err("coplanar group has no boundary edges".to_string())
    );
}
