use obj_overlap_cleaner::grid::GridCell;
use obj_overlap_cleaner::mesh::TriMesh;
use obj_overlap_cleaner::model::MeshContainer;
use three_d_asset::{Vec2, Vec3};
use tobj::Material;

fn position(i: usize) -> Vec3 {
    Vec3::new(i as f32, 10.0 + i as f32, 0.25)
}

fn uv(i: usize) -> Vec2 {
    Vec2::new(i as f32 / 8.0, 1.0 - i as f32 / 8.0)
}

fn mesh_of(vertices: usize, indices: Vec<u32>, with_uvs: bool) -> TriMesh {
    TriMesh {
        positions: (0..vertices).map(position).collect(),
        indices,
        uvs: if with_uvs { Some((0..vertices).map(uv).collect()) } else { None },
        normals: Some(vec![Vec3::new(0.0, 0.0, 1.0); vertices]),
    }
}

fn container_of(mesh: TriMesh) -> MeshContainer {
    MeshContainer::new(mesh, Material::default(), None, None)
}

fn quad() -> MeshContainer {
    container_of(mesh_of(4, vec![0, 1, 2, 2, 3, 0], true))
}

fn strip() -> MeshContainer {
    container_of(mesh_of(6, vec![0, 1, 2, 1, 2, 3, 2, 3, 4, 3, 4, 5], true))
}

fn sorted(set: &std::collections::HashSet<usize>) -> Vec<usize> {
    let mut v: Vec<usize> = set.iter().copied().collect();
    v.sort();
    v
}

#[test]
fn a_new_container_has_nothing_recorded_or_marked() {
    let c = quad();
    assert!(c.overlapping_vertice_idxs.is_empty());
    assert!(!c.to_be_deleted);
    assert!(c.indices_to_delete.is_empty());
    assert!(c.index_grid.is_none());
    assert!(c.mean_edge_len_bits.is_none());
    assert!(!c.modified());
}

#[test]
fn a_container_keeps_the_mean_edge_length_it_was_given() {
    let mesh = mesh_of(3, vec![0, 1, 2], false);
    let c = MeshContainer::new(mesh, Material::default(), Some(0.75f32.to_bits()), None);
    assert_eq!(c.mean_edge_len_bits.map(f32::from_bits), Some(0.75));
    assert!(c.index_grid.is_none());
}

#[test]
fn a_container_builds_its_index_from_the_cells_of_its_vertices() {
    let mesh = mesh_of(4, vec![0, 1, 2, 2, 3, 0], false);
    let cells = vec![
        GridCell { x: 0, y: 0, z: 0 },
        GridCell { x: 0, y: 0, z: 0 },
        GridCell { x: 1, y: 0, z: 0 },
        GridCell { x: 2, y: 0, z: 0 },
    ];
    let c = MeshContainer::new(mesh, Material::default(), None, Some(&cells));
    let grid = c.index_grid.as_ref().unwrap();
    assert_eq!(grid.get_cell(0, 0, 0), Some(&[0u32, 1, 2, 2, 3, 0][..]));
    assert_eq!(grid.get_cell(1, 0, 0), Some(&[0u32, 1, 2, 2, 3, 0][..]));
    assert_eq!(grid.get_cell(2, 0, 0), Some(&[2u32, 3, 0][..]));
    assert!(c.mean_edge_len_bits.is_none());
}

#[test]
fn a_container_computes_the_bounding_box_of_its_positions() {
    let c = quad();
    assert_eq!(c.aabb.min(), Vec3::new(0.0, 10.0, 0.25));
    assert_eq!(c.aabb.max(), Vec3::new(3.0, 13.0, 0.25));
    let empty = container_of(mesh_of(0, vec![], false));
    assert!(empty.aabb.is_empty());
}

#[test]
fn a_recorded_overlap_makes_a_container_modified() {
    let mut c = quad();
    c.overlapping_vertice_idxs.push(2);
    assert!(c.modified());
}

#[test]
fn a_container_marked_as_whole_is_modified() {
    let mut c = quad();
    c.to_be_deleted = true;
    assert!(c.modified());
}

#[test]
fn marking_without_overlaps_does_nothing() {
    let mut c = quad();
    c.mark_vertices_to_delete();
    assert!(!c.to_be_deleted);
    assert!(c.indices_to_delete.is_empty());
    assert!(!c.modified());
}

#[test]
fn as_many_overlaps_as_corner_indices_mark_the_whole_mesh() {
    let mut c = container_of(mesh_of(3, vec![0, 1, 2], false));
    c.overlapping_vertice_idxs = vec![0, 1, 2];
    c.mark_vertices_to_delete();
    assert!(c.to_be_deleted);
    assert!(c.indices_to_delete.is_empty());
    assert!(c.modified());
}

#[test]
fn the_whole_mesh_shortcut_counts_list_entries_not_vertices() {
    let mut c = quad();
    c.overlapping_vertice_idxs = vec![0, 0, 1, 1, 2, 2];
    c.mark_vertices_to_delete();
    assert!(c.to_be_deleted);
    assert!(c.indices_to_delete.is_empty());
}

#[test]
fn every_vertex_of_a_quad_covered_is_no_shortcut_but_marks_them_all() {
    let mut c = quad();
    c.overlapping_vertice_idxs = vec![0, 1, 2, 3];
    c.mark_vertices_to_delete();
    assert!(!c.to_be_deleted);
    assert_eq!(sorted(&c.indices_to_delete), vec![0, 1, 2, 3]);
}

#[test]
fn a_covered_corner_next_to_uncovered_ones_is_kept() {
    let mut c = quad();
    c.overlapping_vertice_idxs = vec![1];
    c.mark_vertices_to_delete();
    assert!(!c.to_be_deleted);
    assert!(c.indices_to_delete.is_empty());
    assert!(c.modified());
}

#[test]
fn only_vertices_away_from_the_boundary_are_marked() {
    let mut c = strip();
    c.overlapping_vertice_idxs = vec![0, 1, 2, 3];
    c.mark_vertices_to_delete();
    assert!(!c.to_be_deleted);
    assert_eq!(sorted(&c.indices_to_delete), vec![0, 1]);
}

#[test]
fn marking_does_not_depend_on_repeats_or_order_of_overlaps() {
    let mut c = strip();
    c.overlapping_vertice_idxs = vec![3, 1, 0, 2, 1, 3, 0];
    c.mark_vertices_to_delete();
    assert!(!c.to_be_deleted);
    assert_eq!(sorted(&c.indices_to_delete), vec![0, 1]);
}

#[test]
fn a_covered_vertex_of_no_triangle_is_marked() {
    let mut c = container_of(mesh_of(5, vec![0, 1, 2, 2, 3, 0], false));
    c.overlapping_vertice_idxs = vec![4];
    c.mark_vertices_to_delete();
    assert_eq!(sorted(&c.indices_to_delete), vec![4]);
}

#[test]
fn marking_leaves_mesh_and_overlaps_as_they_are() {
    let mut c = strip();
    c.overlapping_vertice_idxs = vec![0, 1, 2, 3];
    c.mark_vertices_to_delete();
    assert_eq!(c.overlapping_vertice_idxs, vec![0, 1, 2, 3]);
    assert_eq!(c.mesh.indices, vec![0, 1, 2, 1, 2, 3, 2, 3, 4, 3, 4, 5]);
    assert_eq!(c.mesh.positions, (0..6).map(position).collect::<Vec<_>>());
}

#[test]
fn deleting_renumbers_the_survivors_in_order() {
    let mut c = strip();
    c.overlapping_vertice_idxs = vec![0, 1, 2, 3];
    c.mark_vertices_to_delete();
    c.do_delete_vertices();
    assert_eq!(c.mesh.positions, vec![position(2), position(3), position(4), position(5)]);
    assert_eq!(c.mesh.uvs, Some(vec![uv(2), uv(3), uv(4), uv(5)]));
    assert_eq!(c.mesh.indices, vec![0, 1, 2, 1, 2, 3]);
    assert!(c.mesh.normals.is_none());
    assert!(c.mesh.is_valid());
}

#[test]
fn deleting_a_vertex_in_the_middle_shifts_those_behind_it() {
    let mut c = container_of(mesh_of(5, vec![0, 1, 3, 3, 4, 0, 1, 3, 4], true));
    c.overlapping_vertice_idxs = vec![2];
    c.mark_vertices_to_delete();
    assert_eq!(sorted(&c.indices_to_delete), vec![2]);
    c.do_delete_vertices();
    assert_eq!(c.mesh.positions, vec![position(0), position(1), position(3), position(4)]);
    assert_eq!(c.mesh.uvs, Some(vec![uv(0), uv(1), uv(3), uv(4)]));
    assert_eq!(c.mesh.indices, vec![0, 1, 2, 2, 3, 0, 1, 2, 3]);
}

#[test]
fn deleting_nothing_keeps_the_geometry_but_drops_the_normals() {
    let mut c = quad();
    c.overlapping_vertice_idxs = vec![1];
    c.mark_vertices_to_delete();
    c.do_delete_vertices();
    assert_eq!(c.mesh.positions, (0..4).map(position).collect::<Vec<_>>());
    assert_eq!(c.mesh.uvs, Some((0..4).map(uv).collect::<Vec<_>>()));
    assert_eq!(c.mesh.indices, vec![0, 1, 2, 2, 3, 0]);
    assert!(c.mesh.normals.is_none());
}

#[test]
fn deleting_drops_triangles_that_name_a_vertex_twice() {
    let mut c = container_of(mesh_of(3, vec![0, 1, 1, 0, 1, 2, 2, 2, 2, 2, 0, 2], false));
    c.do_delete_vertices();
    assert_eq!(c.mesh.indices, vec![0, 1, 2]);
    assert_eq!(c.mesh.positions, (0..3).map(position).collect::<Vec<_>>());
}

#[test]
fn deleting_every_vertex_leaves_an_empty_mesh_without_texture_coordinates() {
    let mut c = quad();
    c.overlapping_vertice_idxs = vec![0, 1, 2, 3];
    c.mark_vertices_to_delete();
    c.do_delete_vertices();
    assert!(c.mesh.positions.is_empty());
    assert!(c.mesh.indices.is_empty());
    assert!(c.mesh.uvs.is_none());
    assert!(c.mesh.normals.is_none());
    assert!(c.mesh.is_valid());
}

#[test]
fn a_mesh_without_texture_coordinates_stays_without() {
    let mut c = container_of(mesh_of(6, vec![0, 1, 2, 1, 2, 3, 2, 3, 4, 3, 4, 5], false));
    c.overlapping_vertice_idxs = vec![0, 1, 2, 3];
    c.mark_vertices_to_delete();
    c.do_delete_vertices();
    assert!(c.mesh.uvs.is_none());
    assert_eq!(c.mesh.positions.len(), 4);
}

#[test]
fn deleting_leaves_everything_but_the_mesh() {
    let mut c = strip();
    c.overlapping_vertice_idxs = vec![0, 1, 2, 3];
    c.mark_vertices_to_delete();
    let aabb_before = c.aabb;
    c.do_delete_vertices();
    assert_eq!(c.overlapping_vertice_idxs, vec![0, 1, 2, 3]);
    assert_eq!(sorted(&c.indices_to_delete), vec![0, 1]);
    assert!(!c.to_be_deleted);
    assert_eq!(c.aabb.min(), aabb_before.min());
    assert_eq!(c.aabb.max(), aabb_before.max());
}

#[test]
fn carved_indices_name_vertices_that_exist_and_differ_within_a_triangle() {
    let mut c = container_of(mesh_of(
        8,
        vec![0, 1, 2, 1, 2, 3, 2, 3, 4, 3, 4, 5, 4, 5, 6, 5, 6, 7, 7, 7, 0, 6, 7, 1],
        true,
    ));
    c.overlapping_vertice_idxs = vec![2, 3, 4, 5, 1];
    c.mark_vertices_to_delete();
    c.do_delete_vertices();
    let n = c.mesh.positions.len() as u32;
    assert_eq!(c.mesh.uvs.as_ref().map(|u| u.len()), Some(c.mesh.positions.len()));
    assert_eq!(c.mesh.indices.len() % 3, 0);
    for tri in c.mesh.indices.chunks(3) {
        assert!(tri[0] < n && tri[1] < n && tri[2] < n);
        assert!(tri[0] != tri[1] && tri[1] != tri[2] && tri[2] != tri[0]);
    }
}
