//! What the loaders of models and their driver say to each other.

use crate::model::Model;
use std::path::PathBuf;
use vstd::prelude::*;

verus! {

/// A file to load.
pub struct TaskContainer {
    pub path: PathBuf,
}

/// What a loader is asked to do next.
pub enum ModelLoadTask {
    /// Stop: no more files will come.
    Terminate,
    /// Load this file.
    Task(TaskContainer),
}

/// A loaded model.
pub struct ModelContainer {
    pub model: Model,
}

/// What a loader reports.
pub enum ModelLoadTaskResponse {
    /// The loader has stopped.
    Terminated,
    /// The loader has loaded a model.
    Model(ModelContainer),
}

} // verus!
