use obj_overlap_cleaner::mesh::TriMesh;
use obj_overlap_cleaner::model::{MeshContainer, Model, ModelReference};
use std::path::PathBuf;
use three_d_asset::{Vec2, Vec3};
use tobj::Material;

fn model_position(i: usize) -> Vec3 {
    Vec3::new(i as f32, 2.0 * i as f32, -3.0)
}

fn named_container(name: &str, vertices: usize, indices: Vec<u32>) -> MeshContainer {
    let mesh = TriMesh {
        positions: (0..vertices).map(model_position).collect(),
        indices,
        uvs: Some((0..vertices).map(|i| Vec2::new(i as f32, 0.0)).collect()),
        normals: None,
    };
    let material = Material { name: name.to_string(), ..Default::default() };
    MeshContainer::new(mesh, material, None, None)
}

fn model_of(meshes: Vec<MeshContainer>) -> Model {
    Model::new(PathBuf::from("assets/tile.obj"), meshes)
}

fn triangle(name: &str) -> MeshContainer {
    named_container(name, 3, vec![0, 1, 2])
}

fn strip_of_four(name: &str) -> MeshContainer {
    named_container(name, 6, vec![0, 1, 2, 1, 2, 3, 2, 3, 4, 3, 4, 5])
}

fn names(model: &Model) -> Vec<String> {
    model.meshes.iter().map(|m| m.material.name.clone()).collect()
}

#[test]
fn a_model_without_meshes_is_to_be_deleted_and_not_modified() {
    let model = model_of(vec![]);
    assert!(model.to_be_deleted());
    assert!(!model.modified());
}

#[test]
fn a_model_is_to_be_deleted_only_if_every_mesh_is() {
    let mut model = model_of(vec![triangle("a"), triangle("b")]);
    assert!(!model.to_be_deleted());
    model.meshes[0].to_be_deleted = true;
    assert!(!model.to_be_deleted());
    model.meshes[1].to_be_deleted = true;
    assert!(model.to_be_deleted());
}

#[test]
fn a_model_is_modified_if_some_mesh_is() {
    let mut model = model_of(vec![triangle("a"), triangle("b"), triangle("c")]);
    assert!(!model.modified());
    model.meshes[2].overlapping_vertice_idxs.push(0);
    assert!(model.modified());
}

#[test]
fn has_overlaps_looks_for_a_list_that_is_not_empty() {
    assert!(!Model::has_overlaps(&vec![]));
    assert!(!Model::has_overlaps(&vec![vec![], vec![]]));
    assert!(Model::has_overlaps(&vec![vec![], vec![3]]));
    assert!(Model::has_overlaps(&vec![vec![0, 1], vec![]]));
}

#[test]
fn recorded_overlaps_are_appended_mesh_by_mesh() {
    let mut model = model_of(vec![triangle("a"), triangle("b"), triangle("c")]);
    model.meshes[1].overlapping_vertice_idxs = vec![2];
    model.record_overlaps(&vec![vec![0, 1], vec![2, 0]]);
    assert_eq!(model.meshes[0].overlapping_vertice_idxs, vec![0, 1]);
    assert_eq!(model.meshes[1].overlapping_vertice_idxs, vec![2, 2, 0]);
    assert!(model.meshes[2].overlapping_vertice_idxs.is_empty());
    model.record_overlaps(&vec![]);
    assert_eq!(model.meshes[0].overlapping_vertice_idxs, vec![0, 1]);
    assert_eq!(names(&model), vec!["a", "b", "c"]);
}

#[test]
fn marking_a_model_marks_each_mesh_on_its_own() {
    let mut model = model_of(vec![triangle("whole"), strip_of_four("part"), triangle("free")]);
    model.meshes[0].overlapping_vertice_idxs = vec![0, 1, 2];
    model.meshes[1].overlapping_vertice_idxs = vec![0, 1, 2, 3];
    model.mark_vertices_to_delete();
    assert!(model.meshes[0].to_be_deleted);
    assert!(model.meshes[0].indices_to_delete.is_empty());
    assert!(!model.meshes[1].to_be_deleted);
    assert_eq!(model.meshes[1].indices_to_delete.len(), 2);
    assert!(model.meshes[1].indices_to_delete.contains(&0));
    assert!(model.meshes[1].indices_to_delete.contains(&1));
    assert!(!model.meshes[2].to_be_deleted);
    assert!(model.meshes[2].indices_to_delete.is_empty());
    assert!(!model.to_be_deleted());
    assert!(model.modified());
}

#[test]
fn deleting_drops_whole_meshes_and_carves_the_rest_in_order() {
    let mut model = model_of(vec![
        triangle("whole"),
        strip_of_four("part"),
        triangle("gone"),
        triangle("free"),
    ]);
    model.meshes[0].overlapping_vertice_idxs = vec![0, 1, 2];
    model.meshes[1].overlapping_vertice_idxs = vec![0, 1, 2, 3];
    model.meshes[2].overlapping_vertice_idxs = vec![2, 1, 0];
    model.mark_vertices_to_delete();
    model.do_delete_vertices();
    assert_eq!(names(&model), vec!["part", "free"]);
    assert_eq!(
        model.meshes[0].mesh.positions,
        vec![model_position(2), model_position(3), model_position(4), model_position(5)]
    );
    assert_eq!(model.meshes[0].mesh.indices, vec![0, 1, 2, 1, 2, 3]);
    assert_eq!(model.meshes[1].mesh.indices, vec![0, 1, 2]);
    assert_eq!(model.meshes[1].mesh.positions.len(), 3);
    assert_eq!(model.source_file, PathBuf::from("assets/tile.obj"));
}

#[test]
fn deleting_from_a_model_of_whole_meshes_leaves_none() {
    let mut model = model_of(vec![triangle("a"), triangle("b")]);
    model.meshes[0].to_be_deleted = true;
    model.meshes[1].to_be_deleted = true;
    model.do_delete_vertices();
    assert!(model.meshes.is_empty());
}

#[test]
fn a_reference_keeps_file_materials_and_factor() {
    let model = model_of(vec![triangle("first"), triangle("second"), triangle("third")]);
    let reference = ModelReference::from_model(model, 7);
    assert_eq!(reference.source_file, PathBuf::from("assets/tile.obj"));
    assert_eq!(reference.texture_downscale_factor, 7);
    let names: Vec<&str> = reference.materials.iter().map(|m| m.name.as_str()).collect();
    assert_eq!(names, vec!["first", "second", "third"]);
}

#[test]
fn a_reference_to_a_model_without_meshes_has_no_materials() {
    let reference = ModelReference::from_model(model_of(vec![]), 1);
    assert!(reference.materials.is_empty());
    assert_eq!(reference.texture_downscale_factor, 1);
}

#[test]
fn vertex_total_adds_up_the_meshes() {
    assert_eq!(model_of(vec![]).vertex_total(), Some(0));
    let model = model_of(vec![triangle("a"), strip_of_four("b"), triangle("c")]);
    assert_eq!(model.vertex_total(), Some(12));
}

#[test]
fn face_numbers_count_from_one_and_go_on_across_meshes() {
    let model = model_of(vec![triangle("a"), strip_of_four("b"), triangle("c")]);
    assert_eq!(
        model.face_numbers(),
        vec![
            vec![1, 2, 3],
            vec![4, 5, 6, 5, 6, 7, 6, 7, 8, 7, 8, 9],
            vec![10, 11, 12],
        ]
    );
}

#[test]
fn face_numbers_leave_out_an_incomplete_triangle() {
    let model = model_of(vec![named_container("a", 3, vec![0, 1, 2, 2, 1]), triangle("b")]);
    assert_eq!(model.face_numbers(), vec![vec![1, 2, 3], vec![4, 5, 6]]);
}

#[test]
fn face_numbers_of_a_model_without_meshes_are_none() {
    assert_eq!(model_of(vec![]).face_numbers(), Vec::<Vec<usize>>::new());
}
