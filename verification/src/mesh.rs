//! Indexed triangle meshes.

use three_d_asset::{Vec2, Vec3};
use vstd::prelude::*;

verus! {

/// A triangle mesh with one index per corner.
///
/// Three consecutive entries of `indices` are the corners of one triangle;
/// an index refers to the position, texture coordinate and normal of a
/// vertex at once.
#[derive(Clone, Debug)]
pub struct TriMesh {
    /// Vertex positions.
    pub positions: Vec<Vec3>,
    /// Corner indices, three per triangle.
    pub indices: Vec<u32>,
    /// Texture coordinates, one per vertex when present.
    pub uvs: Option<Vec<Vec2>>,
    /// Vertex normals.
    pub normals: Option<Vec<Vec3>>,
}

/// Triangle `t` of the index list `indices` names some vertex twice.
pub open spec fn degenerate_triple(indices: Seq<u32>, t: int) -> bool {
    indices[3 * t] == indices[3 * t + 1] || indices[3 * t + 1] == indices[3 * t + 2] || indices[3
        * t + 2] == indices[3 * t]
}

impl TriMesh {
    /// Number of whole triangles in the index list.
    pub open spec fn triangles(&self) -> nat {
        self.indices@.len() / 3
    }

    /// Every corner index names a vertex.
    pub open spec fn indices_in_range(&self) -> bool {
        forall|k: int|
            0 <= k < self.indices@.len() ==> (#[trigger] self.indices@[k]) < self.positions@.len()
    }

    /// The invariant of a mesh: whole triangles only, every index names a
    /// vertex, and texture coordinates, when present, match the positions
    /// one to one.
    pub open spec fn wf(&self) -> bool {
        &&& self.indices@.len() % 3 == 0
        &&& self.indices_in_range()
        &&& (self.uvs matches Some(uvs) ==> uvs@.len() == self.positions@.len())
    }

    /// No triangle names the same vertex twice.
    pub open spec fn no_degenerate_triangles(&self) -> bool {
        forall|t: int|
            0 <= t < self.triangles() ==> !#[trigger] degenerate_triple(self.indices@, t)
    }

    /// Number of vertices.
    pub fn vertex_count(&self) -> (n: usize)
        ensures
            n == self.positions@.len(),
    {
        self.positions.len()
    }

    /// Number of whole triangles.
    pub fn triangle_count(&self) -> (n: usize)
        ensures
            n == self.triangles(),
    {
        self.indices.len() / 3
    }

    /// Checks the invariant of the mesh.
    pub fn is_valid(&self) -> (ok: bool)
        ensures
            ok == self.wf(),
    {
        if self.indices.len() % 3 != 0 {
            return false;
        }
        if let Some(uvs) = &self.uvs {
            if uvs.len() != self.positions.len() {
                return false;
            }
        }
        let n = self.positions.len();
        let mut k: usize = 0;
        while k < self.indices.len()
            invariant
                k <= self.indices@.len(),
                n == self.positions@.len(),
                forall|j: int| 0 <= j < k ==> (#[trigger] self.indices@[j]) < n,
            decreases self.indices@.len() - k,
        {
            if self.indices[k] as usize >= n {
                return false;
            }
            k += 1;
        }
        true
    }
}

} // verus!
