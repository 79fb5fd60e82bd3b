//! The decisions of the pipeline that loads the normal-quality models,
//! finds what the high-quality models cover, and carves it away. Running
//! the loaders and the workers is left to the caller.

use crate::messages::ModelLoadTaskResponse;
use crate::model::{materials_of, staying, MeshContainer, Model, ModelReference, OutAsset};
use vstd::prelude::*;

verus! {

/// By how much the textures of a high-quality model are scaled down when
/// its files are copied: not at all.
pub const HQ_TEXTURE_DOWNSCALE: u32 = 1;

/// By how much the textures of a normal-quality model are scaled down when
/// it is written.
pub const NORMAL_TEXTURE_DOWNSCALE: u32 = 2;

/// The normal-quality models loaded so far, and the number of loaders that
/// have not stopped yet.
pub struct LoadedAssets {
    pub normal_assets: Vec<Model>,
    pub num_running: usize,
}

impl LoadedAssets {
    /// Nothing loaded yet, `num_workers` loaders running.
    pub fn new(num_workers: usize) -> (assets: Self)
        ensures
            assets.normal_assets@ == Seq::<Model>::empty(),
            assets.num_running == num_workers,
    {
        Self { normal_assets: Vec::new(), num_running: num_workers }
    }

    /// True iff every loader has stopped.
    pub fn finished(&self) -> (done: bool)
        ensures
            done == (self.num_running == 0),
    {
        self.num_running == 0
    }

    /// Takes in what a loader reports: a model joins the loaded ones, and a
    /// loader that has stopped is no longer counted as running.
    pub fn collect(&mut self, response: ModelLoadTaskResponse)
        requires
            response is Terminated ==> old(self).num_running > 0,
        ensures
            match response {
                ModelLoadTaskResponse::Model(loaded) => final(self).normal_assets@ == old(
                    self,
                ).normal_assets@.push(loaded.model) && final(self).num_running == old(
                    self,
                ).num_running,
                ModelLoadTaskResponse::Terminated => final(self).normal_assets@ == old(
                    self,
                ).normal_assets@ && final(self).num_running == old(self).num_running - 1,
            },
    {
        match response {
            ModelLoadTaskResponse::Model(loaded) => {
                self.normal_assets.push(loaded.model);
            },
            ModelLoadTaskResponse::Terminated => {
                self.num_running -= 1;
            },
        }
    }
}

/// Marking will mark `mesh` as wholly covered, or it is so marked already.
pub open spec fn whole_after_marking(mesh: MeshContainer) -> bool {
    mesh.to_be_deleted || (mesh.overlapping_vertice_idxs@.len() > 0
        && mesh.overlapping_vertice_idxs@.len() == mesh.mesh.indices@.len())
}

/// `marked` is `model` with every mesh marked.
pub open spec fn model_marked(model: Model, marked: Model) -> bool {
    &&& marked.aabb == model.aabb
    &&& marked.source_file == model.source_file
    &&& marked.meshes@.len() == model.meshes@.len()
    &&& forall|i: int|
        0 <= i < model.meshes@.len() ==> (#[trigger] marked.meshes@[i]).marked_from(
            &model.meshes@[i],
        )
}

/// `carved` is `marked` without the meshes that are marked as wholly
/// covered and with the marked vertices removed from the others.
pub open spec fn model_carved(marked: Model, carved: Model) -> bool {
    &&& carved.aabb == marked.aabb
    &&& carved.source_file == marked.source_file
    &&& carved.meshes@.len() == staying(marked.meshes@).len()
    &&& forall|k: int|
        0 <= k < carved.meshes@.len() ==> (#[trigger] carved.meshes@[k]).carved_from(
            &marked.meshes@[staying(marked.meshes@)[k]],
        )
}

/// Marking will mark every mesh of `model` as wholly covered, if it is
/// not so marked already.
pub open spec fn all_whole_after_marking(model: Model) -> bool {
    forall|i: int|
        0 <= i < model.meshes@.len() ==> whole_after_marking(#[trigger] model.meshes@[i])
}

/// What carving makes of a model.
///
/// Nothing is written for a model of which every mesh is wholly covered. A
/// model without any recorded overlap is written by reference, its textures
/// scaled down by `NORMAL_TEXTURE_DOWNSCALE`. Any other model is marked and
/// then carved, and written as geometry.
pub open spec fn carve_outcome(model: Model, out: Option<OutAsset>) -> bool {
    if all_whole_after_marking(model) {
        out is None
    } else if !model.spec_modified() {
        out matches Some(OutAsset::AssetRef(reference)) && reference.source_file
            == model.source_file && reference.materials@ == materials_of(model.meshes@)
            && reference.texture_downscale_factor == NORMAL_TEXTURE_DOWNSCALE
    } else {
        out matches Some(OutAsset::Asset(carved)) && exists|marked: Model|
            model_marked(model, marked) && #[trigger] model_carved(marked, carved)
    }
}

/// Marking changes neither whether a model counts as modified nor its
/// materials, and it leaves the model wholly covered exactly when every
/// mesh is wholly covered afterwards.
pub proof fn lemma_marking_decides(model: Model, marked: Model)
    requires
        model_marked(model, marked),
    ensures
        marked.spec_to_be_deleted() == all_whole_after_marking(model),
        marked.spec_modified() == model.spec_modified(),
        materials_of(marked.meshes@) == materials_of(model.meshes@),
{
    assert forall|i: int| 0 <= i < model.meshes@.len() implies whole_after_marking(
        #[trigger] model.meshes@[i],
    ) == marked.meshes@[i].to_be_deleted && model.meshes@[i].spec_modified()
        == marked.meshes@[i].spec_modified() && model.meshes@[i].material
        == marked.meshes@[i].material by {
        assert(marked.meshes@[i].marked_from(&model.meshes@[i]));
    }
    if !marked.spec_to_be_deleted() {
        let i = choose|i: int|
            0 <= i < marked.meshes@.len() && !(#[trigger] marked.meshes@[i]).to_be_deleted;
        assert(!whole_after_marking(model.meshes@[i]));
    }
    if marked.spec_modified() {
        let i = choose|i: int|
            0 <= i < marked.meshes@.len() && #[trigger] marked.meshes@[i].spec_modified();
        assert(model.meshes@[i].spec_modified());
    } else {
        assert forall|i: int| 0 <= i < model.meshes@.len() implies !(
        #[trigger] model.meshes@[i].spec_modified()) by {
            assert(!marked.meshes@[i].spec_modified());
        }
    }
    assert(materials_of(marked.meshes@) =~= materials_of(model.meshes@));
}

/// Marks and carves one normal-quality model and says what is to be
/// written for it, if anything.
pub fn carve(model: Model) -> (out: Option<OutAsset>)
    requires
        forall|i: int|
            0 <= i < model.meshes@.len() && !whole_after_marking(#[trigger] model.meshes@[i])
                ==> model.meshes@[i].mesh.wf(),
    ensures
        carve_outcome(model, out),
{
    let ghost before = model;
    let mut model = model;
    model.mark_vertices_to_delete();
    let ghost marked = model;
    proof {
        lemma_marking_decides(before, marked);
        assert forall|i: int|
            0 <= i < marked.meshes@.len() && !(#[trigger] marked.meshes@[i]).to_be_deleted implies marked.meshes@[i].mesh.wf() by {
            assert(marked.meshes@[i].marked_from(&before.meshes@[i]));
        }
    }
    if model.to_be_deleted() {
        return None;
    }
    if !model.modified() {
        let reference = ModelReference::from_model(model, NORMAL_TEXTURE_DOWNSCALE);
        return Some(OutAsset::AssetRef(reference));
    }
    model.do_delete_vertices();
    let ghost carved = model;
    assert(model_marked(before, marked) && model_carved(marked, carved));
    let out = Some(OutAsset::Asset(model));
    assert(out matches Some(OutAsset::Asset(c)) && c == carved);
    out
}

} // verus!
