use obj_overlap_cleaner::mesh::TriMesh;
use three_d_asset::{Vec2, Vec3};

fn points(n: usize) -> Vec<Vec3> {
    (0..n).map(|i| Vec3::new(i as f32, 0.5, -1.0)).collect()
}

#[test]
fn a_mesh_with_whole_triangles_and_valid_indices_is_valid() {
    let mesh = TriMesh {
        positions: points(4),
        indices: vec![0, 1, 2, 2, 3, 0],
        uvs: Some(vec![Vec2::new(0.0, 0.0); 4]),
        normals: Some(vec![Vec3::new(0.0, 0.0, 1.0); 4]),
    };
    assert!(mesh.is_valid());
    assert_eq!(mesh.vertex_count(), 4);
    assert_eq!(mesh.triangle_count(), 2);
}

#[test]
fn an_empty_mesh_is_valid() {
    let mesh = TriMesh { positions: vec![], indices: vec![], uvs: None, normals: None };
    assert!(mesh.is_valid());
    assert_eq!(mesh.vertex_count(), 0);
    assert_eq!(mesh.triangle_count(), 0);
}

#[test]
fn an_index_count_that_is_no_multiple_of_three_is_invalid() {
    let mesh = TriMesh { positions: points(3), indices: vec![0, 1, 2, 0], uvs: None, normals: None };
    assert!(!mesh.is_valid());
    assert_eq!(mesh.triangle_count(), 1);
}

#[test]
fn an_index_that_names_no_vertex_is_invalid() {
    let mesh = TriMesh { positions: points(3), indices: vec![0, 1, 3], uvs: None, normals: None };
    assert!(!mesh.is_valid());
    let last = TriMesh { positions: points(3), indices: vec![0, 1, 2], uvs: None, normals: None };
    assert!(last.is_valid());
}

#[test]
fn texture_coordinates_must_match_the_positions_in_number() {
    let short = TriMesh {
        positions: points(3),
        indices: vec![0, 1, 2],
        uvs: Some(vec![Vec2::new(0.0, 0.0); 2]),
        normals: None,
    };
    assert!(!short.is_valid());
    let long = TriMesh {
        positions: points(3),
        indices: vec![0, 1, 2],
        uvs: Some(vec![Vec2::new(0.0, 0.0); 4]),
        normals: None,
    };
    assert!(!long.is_valid());
}

#[test]
fn the_number_of_normals_is_not_part_of_validity() {
    let mesh = TriMesh {
        positions: points(3),
        indices: vec![0, 1, 2],
        uvs: None,
        normals: Some(vec![Vec3::new(0.0, 0.0, 1.0); 1]),
    };
    assert!(mesh.is_valid());
}
