use parcad::mesh::{edge_check, restricted_to};

#[test]
fn a_closed_tetrahedron_shares_every_edge_twice() {
    let triangles = [[0, 1, 2], [0, 3, 1], [1, 3, 2], [2, 3, 0]];
    assert_eq!(edge_check(&triangles), (true, 0));
}

#[test]
fn a_lone_triangle_has_three_open_edges() {
    assert_eq!(edge_check(&[[4, 5, 6]]), (false, 3));
}

#[test]
fn two_triangles_on_a_seam_leave_the_rim_open() {
    // The seam 0-2 is met from both sides, in opposite directions.
    assert_eq!(edge_check(&[[0, 1, 2], [2, 3, 0]]), (false, 4));
}

#[test]
fn an_edge_three_triangles_meet_on_is_counted_once() {
    // Three fins on the edge 0-1: that edge, and the two open edges of each fin.
    let triangles = [[0, 1, 2], [1, 0, 3], [0, 1, 4]];
    assert_eq!(edge_check(&triangles), (false, 7));
}

#[test]
fn an_empty_mesh_has_no_uneven_edge() {
    assert_eq!(edge_check(&[]), (true, 0));
}

#[test]
fn a_closed_mesh_with_a_duplicated_face_is_not_closed() {
    let triangles = [[0, 1, 2], [0, 3, 1], [1, 3, 2], [2, 3, 0], [0, 1, 2]];
    assert_eq!(edge_check(&triangles), (false, 3));
}


#[test]
fn a_restricted_mesh_keeps_only_the_vertices_its_triangles_use() {
    let vertices: [[f32; 3]; 5] = [
        [0.0, 0.0, 0.0],
        [1.0, 0.0, 0.0],
        [0.0, 1.0, 0.0],
        [0.0, 0.0, 1.0],
        [5.0, 5.0, 5.0],
    ];
    let triangles = [[0, 1, 2], [3, 2, 1], [4, 3, 1]];
    let (kept, renumbered) = restricted_to(&vertices, &triangles, 1, 3);
    // First used: 3, 2, 1, then 4.
    assert_eq!(kept, vec![[0.0, 0.0, 1.0], [0.0, 1.0, 0.0], [1.0, 0.0, 0.0], [5.0, 5.0, 5.0]]);
    assert_eq!(renumbered, vec![[0, 1, 2], [3, 0, 2]]);
}

#[test]
fn an_empty_range_keeps_nothing() {
    let vertices = [[0.0f32; 3]; 3];
    let (kept, renumbered) = restricted_to(&vertices, &[[0, 1, 2]], 1, 1);
    assert!(kept.is_empty());
    assert!(renumbered.is_empty());
}

#[test]
fn the_whole_range_renumbers_in_first_use_order() {
    let vertices = ['a', 'b', 'c', 'd'];
    let (kept, renumbered) = restricted_to(&vertices, &[[2, 0, 3], [0, 2, 1]], 0, 2);
    assert_eq!(kept, vec!['c', 'a', 'd', 'b']);
    assert_eq!(renumbered, vec![[0, 1, 2], [1, 0, 3]]);
}
