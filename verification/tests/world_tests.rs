use obj_overlap_cleaner::mesh::TriMesh;
use obj_overlap_cleaner::messages::{ModelContainer, ModelLoadTask, ModelLoadTaskResponse, TaskContainer};
use obj_overlap_cleaner::model::{MeshContainer, Model, OutAsset};
use obj_overlap_cleaner::world::{carve, LoadedAssets, HQ_TEXTURE_DOWNSCALE, NORMAL_TEXTURE_DOWNSCALE};
use std::path::PathBuf;
use three_d_asset::{Vec2, Vec3};
use tobj::Material;

fn world_position(i: usize) -> Vec3 {
    Vec3::new(0.5 * i as f32, 1.0, i as f32)
}

fn world_container(name: &str, vertices: usize, indices: Vec<u32>) -> MeshContainer {
    let mesh = TriMesh {
        positions: (0..vertices).map(world_position).collect(),
        indices,
        uvs: Some((0..vertices).map(|i| Vec2::new(0.0, i as f32)).collect()),
        normals: Some(vec![Vec3::new(0.0, 1.0, 0.0); vertices]),
    };
    let material = Material { name: name.to_string(), ..Default::default() };
    MeshContainer::new(mesh, material, Some(1.0f32.to_bits()), None)
}

fn world_model(file: &str, meshes: Vec<MeshContainer>) -> Model {
    Model::new(PathBuf::from(file), meshes)
}

#[test]
fn texture_factors_are_one_for_hq_and_two_for_normal() {
    assert_eq!(HQ_TEXTURE_DOWNSCALE, 1);
    assert_eq!(NORMAL_TEXTURE_DOWNSCALE, 2);
}

#[test]
fn loading_is_finished_when_every_loader_has_stopped() {
    let mut assets = LoadedAssets::new(2);
    assert!(!assets.finished());
    assert_eq!(assets.num_running, 2);
    assets.collect(ModelLoadTaskResponse::Model(ModelContainer {
        model: world_model("a.obj", vec![]),
    }));
    assert_eq!(assets.num_running, 2);
    assets.collect(ModelLoadTaskResponse::Terminated);
    assert!(!assets.finished());
    assets.collect(ModelLoadTaskResponse::Model(ModelContainer {
        model: world_model("b.obj", vec![]),
    }));
    assets.collect(ModelLoadTaskResponse::Terminated);
    assert!(assets.finished());
    let files: Vec<PathBuf> = assets.normal_assets.iter().map(|m| m.source_file.clone()).collect();
    assert_eq!(files, vec![PathBuf::from("a.obj"), PathBuf::from("b.obj")]);
}

#[test]
fn no_loaders_means_loading_is_finished_at_once() {
    let assets = LoadedAssets::new(0);
    assert!(assets.finished());
    assert!(assets.normal_assets.is_empty());
}

#[test]
fn a_load_task_names_a_file_or_asks_to_stop() {
    let task = ModelLoadTask::Task(TaskContainer { path: PathBuf::from("x.obj") });
    assert!(matches!(task, ModelLoadTask::Task(TaskContainer { ref path }) if path == &PathBuf::from("x.obj")));
    assert!(matches!(ModelLoadTask::Terminate, ModelLoadTask::Terminate));
}

#[test]
fn a_fully_covered_model_is_dropped() {
    let mut model = world_model("nq.obj", vec![world_container("m", 3, vec![0, 1, 2])]);
    model.meshes[0].overlapping_vertice_idxs = vec![0, 1, 2];
    assert!(carve(model).is_none());
}

#[test]
fn a_model_without_meshes_is_dropped() {
    assert!(carve(world_model("nq.obj", vec![])).is_none());
}

#[test]
fn a_model_is_dropped_only_if_every_mesh_is_covered() {
    let mut model = world_model(
        "nq.obj",
        vec![world_container("a", 3, vec![0, 1, 2]), world_container("b", 3, vec![0, 1, 2])],
    );
    model.meshes[0].overlapping_vertice_idxs = vec![0, 1, 2];
    match carve(model) {
        Some(OutAsset::Asset(carved)) => {
            assert_eq!(carved.meshes.len(), 1);
            assert_eq!(carved.meshes[0].material.name, "b");
            assert_eq!(carved.meshes[0].mesh.indices, vec![0, 1, 2]);
            assert!(carved.meshes[0].mesh.normals.is_none());
        }
        _ => panic!("expected carved geometry"),
    }
}

#[test]
fn an_untouched_model_is_passed_through_with_half_size_textures() {
    let model = world_model(
        "dir/nq.obj",
        vec![world_container("a", 3, vec![0, 1, 2]), world_container("b", 3, vec![0, 1, 2])],
    );
    match carve(model) {
        Some(OutAsset::AssetRef(reference)) => {
            assert_eq!(reference.source_file, PathBuf::from("dir/nq.obj"));
            assert_eq!(reference.texture_downscale_factor, 2);
            let names: Vec<&str> = reference.materials.iter().map(|m| m.name.as_str()).collect();
            assert_eq!(names, vec!["a", "b"]);
        }
        _ => panic!("expected a reference"),
    }
}

#[test]
fn a_partly_covered_model_is_carved() {
    let mut model = world_model(
        "nq.obj",
        vec![world_container("strip", 6, vec![0, 1, 2, 1, 2, 3, 2, 3, 4, 3, 4, 5])],
    );
    model.meshes[0].overlapping_vertice_idxs = vec![0, 1, 2, 3];
    match carve(model) {
        Some(OutAsset::Asset(carved)) => {
            assert_eq!(carved.source_file, PathBuf::from("nq.obj"));
            assert_eq!(carved.meshes.len(), 1);
            let mesh = &carved.meshes[0].mesh;
            assert_eq!(
                mesh.positions,
                vec![world_position(2), world_position(3), world_position(4), world_position(5)]
            );
            assert_eq!(mesh.indices, vec![0, 1, 2, 1, 2, 3]);
            assert_eq!(mesh.uvs.as_ref().map(|u| u.len()), Some(4));
            assert!(mesh.normals.is_none());
        }
        _ => panic!("expected carved geometry"),
    }
}

#[test]
fn a_quad_with_one_covered_corner_keeps_all_its_vertices() {
    let mut model = world_model("nq.obj", vec![world_container("quad", 4, vec![0, 1, 2, 2, 3, 0])]);
    model.meshes[0].overlapping_vertice_idxs = vec![1];
    match carve(model) {
        Some(OutAsset::Asset(carved)) => {
            let mesh = &carved.meshes[0];
            assert!(mesh.indices_to_delete.is_empty());
            assert!(!mesh.to_be_deleted);
            assert_eq!(mesh.mesh.positions, (0..4).map(world_position).collect::<Vec<_>>());
            assert_eq!(mesh.mesh.indices, vec![0, 1, 2, 2, 3, 0]);
        }
        _ => panic!("expected geometry with a recorded overlap to be written as geometry"),
    }
}
