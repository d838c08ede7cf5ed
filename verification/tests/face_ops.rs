use morphing::faces::edge_faces;
use morphing::faces::edges_from_faces;
use morphing::faces::filter_faces;
use morphing::faces::triangulate_unique;
use morphing::graph::EdgeList;

#[test]
fn edges_of_one_triangle() {
    let faces = vec![vec![0usize, 1, 2]];
    let el = edges_from_faces(&faces);
    assert_eq!(el.len(), 3);
    assert!(el.contains_pair(0, 1));
    assert!(el.contains_pair(1, 2));
    assert!(el.contains_pair(0, 2));
}

#[test]
fn edges_of_a_tetrahedron() {
    let faces = vec![
        vec![0usize, 1, 2],
        vec![0, 1, 3],
        vec![0, 2, 3],
        vec![1, 2, 3],
    ];
    let el = edges_from_faces(&faces);
    assert_eq!(el.len(), 6);
}

#[test]
fn edges_skip_degenerate_sides() {
    let faces = vec![vec![0usize, 0, 1]];
    let el = edges_from_faces(&faces);
    assert_eq!(el.len(), 1);
    assert!(el.contains_pair(0, 1));
}

#[test]
fn filter_keeps_only_real_faces() {
    let faces = vec![vec![0usize, 1], vec![0, 1, 2], vec![3], vec![0, 1, 2, 3]];
    let kept = filter_faces(faces);
    assert_eq!(kept.len(), 2);
    assert_eq!(kept[0], vec![0, 1, 2]);
    assert_eq!(kept[1], vec![0, 1, 2, 3]);
}

#[test]
fn triangulate_fans_a_square() {
    let faces = vec![vec![0usize, 1, 2, 3]];
    let tris = triangulate_unique(&faces, 4);
    assert_eq!(tris.len(), 2);
    assert_eq!(tris[0], vec![0, 1, 2]);
    assert_eq!(tris[1], vec![0, 2, 3]);
}

#[test]
fn triangulate_sorts_corner_keys() {
    let faces = vec![vec![2usize, 0, 1]];
    let tris = triangulate_unique(&faces, 3);
    assert_eq!(tris.len(), 1);
    assert_eq!(tris[0], vec![0, 1, 2]);
}

#[test]
fn triangulate_deduplicates() {
    let faces = vec![vec![0usize, 1, 2], vec![2, 1, 0], vec![1, 2, 0]];
    let tris = triangulate_unique(&faces, 3);
    assert_eq!(tris.len(), 1);
}

#[test]
fn triangulate_drops_degenerate_fans() {
    let faces = vec![vec![0usize, 1, 0, 2]];
    let tris = triangulate_unique(&faces, 3);
    assert_eq!(tris.len(), 0);
}

#[test]
fn edge_faces_are_degenerate_triangles() {
    let mut el = EdgeList::new();
    el.add(0, 1);
    el.add(1, 2);
    let faces = edge_faces(&el, 3);
    assert_eq!(faces.len(), 2);
    assert_eq!(faces[0], vec![0, 1, 4]);
    assert_eq!(faces[1], vec![1, 2, 5]);
}
