//! Meshes with their carving state, models made of them, and what becomes
//! of a model once it is carved.

use crate::carve::{
    carved_indices, carved_mesh, first_indices, gather, has_covered_corner,
    has_uncovered_corner, interior, is_corner, keeps_boundary,
    lemma_carved_indices_step, lemma_carving_keeps_integrity, lemma_interior_keeps_boundary,
    lemma_survivors, lemma_survivors_step, new_index, on_boundary_among, survivors,
};
use crate::grid::{registered, GridCell, IndexGrid};
use crate::mesh::TriMesh;
use crate::outside::{bounding_box, box_union};
use std::collections::HashSet;
use std::path::PathBuf;
use three_d_asset::{AxisAlignedBoundingBox, Vec2, Vec3};
use tobj::Material;
use vstd::prelude::*;

verus! {

broadcast use vstd::std_specs::hash::group_hash_axioms;

/// One triangulated surface with its material and its carving state.
#[derive(Debug)]
pub struct MeshContainer {
    pub mesh: TriMesh,
    /// Bounding box of the positions that the mesh had when the container
    /// was made; carving leaves it as it is.
    pub aabb: AxisAlignedBoundingBox,
    pub material: Material,
    /// Indices of the vertices found to be covered by another surface; an
    /// index may occur more than once.
    pub overlapping_vertice_idxs: Vec<usize>,
    /// Whether the whole mesh is covered.
    pub to_be_deleted: bool,
    /// Bit pattern of the single-precision mean edge length, where known.
    pub mean_edge_len_bits: Option<u32>,
    /// The vertices to remove: the covered ones that do not lie on the
    /// boundary of the covered region.
    pub indices_to_delete: HashSet<usize>,
    /// Spatial index over the triangles, where one was asked for.
    pub index_grid: Option<IndexGrid>,
}

impl MeshContainer {
    /// `self` and `other` differ at most in their mesh.
    pub open spec fn same_but_mesh(&self, other: &Self) -> bool {
        &&& self.aabb == other.aabb
        &&& self.material == other.material
        &&& self.overlapping_vertice_idxs == other.overlapping_vertice_idxs
        &&& self.to_be_deleted == other.to_be_deleted
        &&& self.mean_edge_len_bits == other.mean_edge_len_bits
        &&& self.indices_to_delete == other.indices_to_delete
        &&& self.index_grid == other.index_grid
    }

    /// The mesh is marked as wholly covered or has a recorded overlap.
    pub open spec fn spec_modified(&self) -> bool {
        self.to_be_deleted || self.overlapping_vertice_idxs@.len() > 0
    }

    /// Wraps a mesh and its material.
    ///
    /// The bounding box of the positions is computed. `mean_edge_len_bits`
    /// is the bit pattern of the mean edge length where the caller wants
    /// one kept; it is stored as given. With `vertex_cells`, which holds
    /// the grid cell of each vertex, a spatial index over the triangles is
    /// built; without it the container has none. The new container has no
    /// recorded overlap and nothing marked.
    pub fn new(
        mesh: TriMesh,
        material: Material,
        mean_edge_len_bits: Option<u32>,
        vertex_cells: Option<&Vec<GridCell>>,
    ) -> (container: Self)
        requires
            mesh.wf(),
            vertex_cells matches Some(cells) ==> cells@.len() == mesh.positions@.len(),
        ensures
            container.mesh == mesh,
            container.aabb == bounding_box(mesh.positions@),
            container.material == material,
            container.overlapping_vertice_idxs@ == Seq::<usize>::empty(),
            !container.to_be_deleted,
            container.mean_edge_len_bits == mean_edge_len_bits,
            container.indices_to_delete@ == Set::<usize>::empty(),
            container.boundary_kept(),
            match vertex_cells {
                Some(cells) => container.index_grid matches Some(grid) && grid.is_index_of(
                    cells@,
                    mesh.indices@,
                ),
                None => container.index_grid is None,
            },
    {
        let aabb = AxisAlignedBoundingBox::new_with_positions(mesh.positions.as_slice());
        let index_grid = match vertex_cells {
            Some(cells) => {
                let mut index_grid = IndexGrid::new();
                index_grid.populate_from_trimesh(&mesh, cells);
                assert forall|c: GridCell|
                    (#[trigger] index_grid.cell(c)) == registered(
                        cells@,
                        mesh.indices@,
                        mesh.indices@.len() / 3,
                        c,
                    ) by {
                    assert(Seq::<u32>::empty() + registered(
                        cells@,
                        mesh.indices@,
                        mesh.indices@.len() / 3,
                        c,
                    ) =~= registered(cells@, mesh.indices@, mesh.indices@.len() / 3, c));
                }
                Some(index_grid)
            },
            None => None,
        };
        Self {
            mesh,
            aabb,
            material,
            overlapping_vertice_idxs: Vec::new(),
            to_be_deleted: false,
            mean_edge_len_bits,
            indices_to_delete: HashSet::new(),
            index_grid,
        }
    }

    /// True iff the mesh is marked as wholly covered or has at least one
    /// recorded overlap.
    pub fn modified(&self) -> (m: bool)
        ensures
            m == self.spec_modified(),
    {
        self.to_be_deleted || !self.overlapping_vertice_idxs.is_empty()
    }

    /// No vertex to remove belongs to a triangle with a corner that is not
    /// recorded as covered. This holds of a new container, of which no
    /// vertex is to be removed.
    pub open spec fn boundary_kept(&self) -> bool {
        keeps_boundary(
            self.mesh.indices@,
            self.overlapping_vertice_idxs@.to_set(),
            self.indices_to_delete@,
        )
    }

    /// What marking does to a container: nothing if no overlap is recorded;
    /// if there are as many recorded overlaps as corner indices, the whole
    /// mesh is marked as covered; else the covered vertices away from the
    /// boundary of the covered region become the vertices to remove.
    pub open spec fn marked_from(&self, before: &Self) -> bool {
        let overlaps = before.overlapping_vertice_idxs@;
        &&& self.mesh == before.mesh
        &&& self.aabb == before.aabb
        &&& self.material == before.material
        &&& self.overlapping_vertice_idxs == before.overlapping_vertice_idxs
        &&& self.mean_edge_len_bits == before.mean_edge_len_bits
        &&& self.index_grid == before.index_grid
        &&& if overlaps.len() == 0 {
            self.to_be_deleted == before.to_be_deleted && self.indices_to_delete
                == before.indices_to_delete
        } else if overlaps.len() == before.mesh.indices@.len() {
            self.to_be_deleted && self.indices_to_delete == before.indices_to_delete
        } else {
            self.to_be_deleted == before.to_be_deleted && self.indices_to_delete@ == interior(
                before.mesh.indices@,
                overlaps.to_set(),
            )
        }
    }

    /// Decides which vertices to remove, or that the whole mesh goes.
    ///
    /// A covered vertex is removed only if every triangle that it belongs to
    /// is covered at all three corners, so that the surface that remains
    /// still reaches the boundary of the covered region. So a vertex of a
    /// triangle with an uncovered corner is not among the vertices to
    /// remove afterwards, unless it was put there before.
    pub fn mark_vertices_to_delete(&mut self)
        ensures
            final(self).marked_from(old(self)),
            old(self).boundary_kept() ==> final(self).boundary_kept(),
    {
        if self.overlapping_vertice_idxs.is_empty() {
            return;
        }
        if self.overlapping_vertice_idxs.len() == self.mesh.indices.len() {
            self.to_be_deleted = true;
            return;
        }
        let ghost overlaps = self.overlapping_vertice_idxs@;
        let ghost indices = self.mesh.indices@;

        let mut covered: HashSet<usize> = HashSet::new();
        let mut k: usize = 0;
        while k < self.overlapping_vertice_idxs.len()
            invariant
                k <= overlaps.len(),
                self.overlapping_vertice_idxs@ == overlaps,
                covered@ == overlaps.subrange(0, k as int).to_set(),
            decreases overlaps.len() - k,
        {
            proof {
                assert(overlaps.subrange(0, k + 1) =~= overlaps.subrange(0, k as int).push(
                    overlaps[k as int],
                ));
                overlaps.subrange(0, k as int).lemma_push_to_set_commute(overlaps[k as int]);
            }
            covered.insert(self.overlapping_vertice_idxs[k]);
            k += 1;
        }
        assert(overlaps.subrange(0, k as int) =~= overlaps);

        let mut indices_to_keep: HashSet<usize> = HashSet::new();
        let triangles = self.mesh.indices.len() / 3;
        let mut t: usize = 0;
        while t < triangles
            invariant
                t <= triangles,
                triangles == indices.len() / 3,
                3 * triangles <= indices.len() <= usize::MAX,
                self.mesh.indices@ == indices,
                covered@ == overlaps.to_set(),
                forall|v: usize|
                    indices_to_keep@.contains(v) <==> covered@.contains(v) && on_boundary_among(
                        indices,
                        covered@,
                        v,
                        t as nat,
                    ),
            decreases triangles - t,
        {
            let a = self.mesh.indices[3 * t] as usize;
            let b = self.mesh.indices[3 * t + 1] as usize;
            let c = self.mesh.indices[3 * t + 2] as usize;
            let in_a = covered.contains(&a);
            let in_b = covered.contains(&b);
            let in_c = covered.contains(&c);
            let ghost kept = indices_to_keep@;
            if !((in_a && in_b && in_c) || (!in_a && !in_b && !in_c)) {
                if in_a {
                    indices_to_keep.insert(a);
                }
                if in_b {
                    indices_to_keep.insert(b);
                }
                if in_c {
                    indices_to_keep.insert(c);
                }
            }
            proof {
                let here = t as int;
                let straddles = has_covered_corner(indices, covered@, here) && has_uncovered_corner(
                    indices,
                    covered@,
                    here,
                );
                assert forall|v: usize|
                    indices_to_keep@.contains(v) <==> covered@.contains(v) && on_boundary_among(
                        indices,
                        covered@,
                        v,
                        (t + 1) as nat,
                    ) by {
                    if covered@.contains(v) && on_boundary_among(
                        indices,
                        covered@,
                        v,
                        (t + 1) as nat,
                    ) {
                        let w = choose|w: int|
                            0 <= w < t + 1 && #[trigger] is_corner(indices, w, v)
                                && has_covered_corner(indices, covered@, w)
                                && has_uncovered_corner(indices, covered@, w);
                        if w < t {
                            assert(on_boundary_among(indices, covered@, v, t as nat));
                        }
                    }
                    if indices_to_keep@.contains(v) {
                        if kept.contains(v) {
                            let w = choose|w: int|
                                0 <= w < t && #[trigger] is_corner(indices, w, v)
                                    && has_covered_corner(indices, covered@, w)
                                    && has_uncovered_corner(indices, covered@, w);
                            assert(is_corner(indices, w, v));
                        } else {
                            assert(straddles && is_corner(indices, here, v));
                        }
                    }
                }
            }
            t += 1;
        }

        let mut indices_to_delete: HashSet<usize> = HashSet::new();
        let mut k: usize = 0;
        while k < self.overlapping_vertice_idxs.len()
            invariant
                k <= overlaps.len(),
                self.overlapping_vertice_idxs@ == overlaps,
                forall|v: usize|
                    indices_to_delete@.contains(v) <==> overlaps.subrange(0, k as int).contains(v)
                        && !indices_to_keep@.contains(v),
            decreases overlaps.len() - k,
        {
            let v = self.overlapping_vertice_idxs[k];
            proof {
                assert(overlaps.subrange(0, k + 1) =~= overlaps.subrange(0, k as int).push(v));
                overlaps.subrange(0, k as int).lemma_push_to_set_commute(v);
                assert forall|u: usize|
                    overlaps.subrange(0, k + 1).contains(u) <==> overlaps.subrange(
                        0,
                        k as int,
                    ).contains(u) || u == v by {
                    assert(overlaps.subrange(0, k + 1).to_set().contains(u)
                        <==> overlaps.subrange(0, k as int).to_set().insert(v).contains(u));
                }
            }
            if !indices_to_keep.contains(&v) {
                indices_to_delete.insert(v);
            }
            k += 1;
        }
        proof {
            assert(overlaps.subrange(0, k as int) =~= overlaps);
            assert(indices_to_delete@ =~= interior(indices, overlaps.to_set()));
            lemma_interior_keeps_boundary(indices, overlaps.to_set());
        }
        self.indices_to_delete = indices_to_delete;
    }

    /// `self` is what removing the marked vertices makes of `before`: the
    /// mesh is carved, left well formed and free of triangles that name a
    /// vertex twice, and nothing else differs.
    pub open spec fn carved_from(&self, before: &Self) -> bool {
        &&& carved_mesh(before.mesh, before.indices_to_delete@, self.mesh)
        &&& self.mesh.wf()
        &&& self.mesh.no_degenerate_triangles()
        &&& self.same_but_mesh(before)
    }

    /// Removes the marked vertices from the mesh.
    ///
    /// The surviving positions and texture coordinates keep their order and
    /// are renumbered from zero. A triangle stays, renumbered, unless one of
    /// its corners was removed or two of its corners coincide. Normals are
    /// dropped. Nothing but the mesh changes.
    pub fn do_delete_vertices(&mut self)
        requires
            old(self).mesh.wf(),
        ensures
            carved_mesh(old(self).mesh, old(self).indices_to_delete@, final(self).mesh),
            final(self).mesh.wf(),
            final(self).mesh.no_degenerate_triangles(),
            final(self).same_but_mesh(old(self)),
    {
        let ghost del = self.indices_to_delete@;
        let ghost positions = self.mesh.positions@;
        let ghost indices = self.mesh.indices@;
        let n = self.mesh.positions.len();
        let marked = self.indices_to_delete.len();
        let mut new_vertices: Vec<Vec3> = if marked <= n {
            Vec::with_capacity(n - marked)
        } else {
            Vec::new()
        };
        let mut remap: Vec<Option<usize>> = vec![None; n];
        let mut new_uvs: Vec<Vec2> = Vec::new();

        let mut old_idx: usize = 0;
        while old_idx < n
            invariant
                old_idx <= n,
                n == self.mesh.positions@.len(),
                self.mesh.positions@ == positions,
                self.indices_to_delete@ == del,
                self.mesh.uvs matches Some(uvs) ==> uvs@.len() == n,
                new_vertices@ == gather(positions, survivors(del, old_idx as nat)),
                match self.mesh.uvs {
                    Some(uvs) => new_uvs@ == gather(uvs@, survivors(del, old_idx as nat)),
                    None => new_uvs@.len() == 0,
                },
                remap@.len() == n,
                forall|j: int|
                    0 <= j < old_idx ==> (#[trigger] remap@[j]) == (if del.contains(j as usize) {
                        None::<usize>
                    } else {
                        Some(new_index(del, j) as usize)
                    }),
                forall|j: int| old_idx <= j < n ==> (#[trigger] remap@[j]) is None,
            decreases n - old_idx,
        {
            proof {
                lemma_survivors_step(del, old_idx as nat);
                lemma_survivors(del, old_idx as nat);
            }
            if !self.indices_to_delete.contains(&old_idx) {
                if let Some(uvs) = &self.mesh.uvs {
                    new_uvs.push(uvs[old_idx]);
                }
                let new_idx = new_vertices.len();
                new_vertices.push(self.mesh.positions[old_idx]);
                remap[old_idx] = Some(new_idx);
            }
            old_idx += 1;
        }

        let mut new_indices: Vec<u32> = Vec::new();
        let triangles = self.mesh.indices.len() / 3;
        let mut t: usize = 0;
        while t < triangles
            invariant
                t <= triangles,
                triangles == indices.len() / 3,
                3 * triangles <= indices.len() <= usize::MAX,
                self.mesh.indices@ == indices,
                n == positions.len(),
                forall|k: int| 0 <= k < indices.len() ==> (#[trigger] indices[k]) < n,
                remap@.len() == n,
                forall|j: int|
                    0 <= j < n ==> (#[trigger] remap@[j]) == (if del.contains(j as usize) {
                        None::<usize>
                    } else {
                        Some(new_index(del, j) as usize)
                    }),
                new_indices@ == carved_indices(del, indices, t as nat),
            decreases triangles - t,
        {
            let a = self.mesh.indices[3 * t] as usize;
            let b = self.mesh.indices[3 * t + 1] as usize;
            let c = self.mesh.indices[3 * t + 2] as usize;
            proof {
                lemma_carved_indices_step(del, indices, t as nat);
                lemma_survivors(del, a as nat);
                lemma_survivors(del, b as nat);
                lemma_survivors(del, c as nat);
            }
            if let (Some(i0), Some(i1), Some(i2)) = (remap[a], remap[b], remap[c]) {
                if i0 != i1 && i1 != i2 && i2 != i0 {
                    let ghost kept = new_indices@;
                    new_indices.push(i0 as u32);
                    new_indices.push(i1 as u32);
                    new_indices.push(i2 as u32);
                    assert(new_indices@ =~= kept + seq![i0 as u32, i1 as u32, i2 as u32]);
                }
            }
            t += 1;
        }

        self.mesh.positions = new_vertices;
        self.mesh.indices = new_indices;
        if new_uvs.is_empty() {
            self.mesh.uvs = None;
        } else {
            self.mesh.uvs = Some(new_uvs);
        }
        self.mesh.normals = None;
        proof {
            lemma_carving_keeps_integrity(old(self).mesh, del, self.mesh);
        }
    }
}

/// Several meshes read from one file.
#[derive(Debug)]
pub struct Model {
    pub meshes: Vec<MeshContainer>,
    /// Bounding box of all meshes together, as computed when the model was
    /// made.
    pub aabb: AxisAlignedBoundingBox,
    pub source_file: PathBuf,
}

/// The predicate "mesh `i` of `meshes` is not marked as wholly covered".
pub open spec fn stays(meshes: Seq<MeshContainer>) -> spec_fn(int) -> bool {
    |i: int| !meshes[i].to_be_deleted
}

/// The places of the meshes that are not marked as wholly covered, in
/// ascending order.
pub open spec fn staying(meshes: Seq<MeshContainer>) -> Seq<int> {
    first_indices(meshes.len()).filter(stays(meshes))
}

/// The number of vertices of the first `m` meshes together.
pub open spec fn vertices_before(meshes: Seq<MeshContainer>, m: nat) -> nat
    decreases m,
{
    if m == 0 {
        0
    } else {
        vertices_before(meshes, (m - 1) as nat) + meshes[m - 1].mesh.positions@.len()
    }
}

/// More meshes do not have fewer vertices.
pub proof fn lemma_vertices_before_grows(meshes: Seq<MeshContainer>, m: nat, n: nat)
    requires
        m <= n,
    ensures
        vertices_before(meshes, m) <= vertices_before(meshes, n),
    decreases n - m,
{
    if m < n {
        lemma_vertices_before_grows(meshes, m, (n - 1) as nat);
    }
}

/// The bounding box of the first `n` meshes together: the box of no
/// positions, expanded by one mesh's box after the other.
pub open spec fn boxes_union(meshes: Seq<MeshContainer>, n: nat) -> AxisAlignedBoundingBox
    decreases n,
{
    if n == 0 {
        bounding_box(Seq::empty())
    } else {
        box_union(boxes_union(meshes, (n - 1) as nat), meshes[n - 1].aabb)
    }
}

impl Model {
    /// A model of `meshes` read from `source_file`. Its bounding box holds
    /// the bounding boxes of all its meshes.
    pub fn new(source_file: PathBuf, meshes: Vec<MeshContainer>) -> (model: Self)
        ensures
            model.meshes == meshes,
            model.source_file == source_file,
            model.aabb == boxes_union(meshes@, meshes@.len()),
    {
        let nothing: Vec<Vec3> = Vec::new();
        let mut aabb = AxisAlignedBoundingBox::new_with_positions(nothing.as_slice());
        assert(nothing@ =~= Seq::<Vec3>::empty());
        let mut m: usize = 0;
        while m < meshes.len()
            invariant
                m <= meshes@.len(),
                aabb == boxes_union(meshes@, m as nat),
            decreases meshes@.len() - m,
        {
            aabb.expand_with_aabb(meshes[m].aabb);
            m += 1;
        }
        Self { meshes, aabb, source_file }
    }

    /// Some mesh is modified.
    pub open spec fn spec_modified(&self) -> bool {
        exists|i: int| 0 <= i < self.meshes@.len() && #[trigger] self.meshes@[i].spec_modified()
    }

    /// Every mesh is marked as wholly covered.
    pub open spec fn spec_to_be_deleted(&self) -> bool {
        forall|i: int| 0 <= i < self.meshes@.len() ==> (#[trigger] self.meshes@[i]).to_be_deleted
    }

    /// True iff some mesh is modified.
    pub fn modified(&self) -> (m: bool)
        ensures
            m == self.spec_modified(),
    {
        let mut i: usize = 0;
        while i < self.meshes.len()
            invariant
                i <= self.meshes@.len(),
                forall|j: int| 0 <= j < i ==> !(#[trigger] self.meshes@[j].spec_modified()),
            decreases self.meshes@.len() - i,
        {
            if self.meshes[i].modified() {
                return true;
            }
            i += 1;
        }
        false
    }

    /// True iff every mesh is marked as wholly covered; so also for a model
    /// without meshes.
    pub fn to_be_deleted(&self) -> (d: bool)
        ensures
            d == self.spec_to_be_deleted(),
    {
        let mut i: usize = 0;
        while i < self.meshes.len()
            invariant
                i <= self.meshes@.len(),
                forall|j: int| 0 <= j < i ==> (#[trigger] self.meshes@[j]).to_be_deleted,
            decreases self.meshes@.len() - i,
        {
            if !self.meshes[i].to_be_deleted {
                return false;
            }
            i += 1;
        }
        true
    }

    /// Drops the meshes that are marked as wholly covered and removes the
    /// marked vertices from each of the others, which keep their order.
    pub fn do_delete_vertices(&mut self)
        requires
            forall|i: int|
                0 <= i < old(self).meshes@.len() && !(#[trigger] old(self).meshes@[i]).to_be_deleted
                    ==> old(self).meshes@[i].mesh.wf(),
        ensures
            final(self).aabb == old(self).aabb,
            final(self).source_file == old(self).source_file,
            final(self).meshes@.len() == staying(old(self).meshes@).len(),
            forall|k: int|
                0 <= k < final(self).meshes@.len() ==> (#[trigger] final(self).meshes@[k]).carved_from(
                    &old(self).meshes@[staying(old(self).meshes@)[k]],
                ),
    {
        let ghost before = self.meshes@;
        let mut meshes: Vec<MeshContainer> = Vec::new();
        std::mem::swap(&mut self.meshes, &mut meshes);
        let mut kept: Vec<MeshContainer> = Vec::new();
        for mesh in it: meshes.into_iter()
            invariant
                it.seq() == before,
                forall|i: int|
                    0 <= i < before.len() && !(#[trigger] before[i]).to_be_deleted
                        ==> before[i].mesh.wf(),
                kept@.len() == first_indices(it.index() as nat).filter(stays(before)).len(),
                forall|k: int|
                    0 <= k < kept@.len() ==> (#[trigger] kept@[k]).carved_from(
                        &before[first_indices(it.index() as nat).filter(stays(before))[k]],
                    ),
        {
            proof {
                let i = it.index() as nat;
                assert(first_indices(i + 1) =~= first_indices(i).push(i as int));
                first_indices(i).lemma_filter_push(i as int, stays(before));
            }
            let mut mesh = mesh;
            if !mesh.to_be_deleted {
                mesh.do_delete_vertices();
                kept.push(mesh);
            }
        }
        self.meshes = kept;
    }

    /// The number of vertices of all meshes together, unless it exceeds
    /// what a `usize` holds.
    pub fn vertex_total(&self) -> (total: Option<usize>)
        ensures
            match total {
                Some(n) => n == vertices_before(self.meshes@, self.meshes@.len()),
                None => vertices_before(self.meshes@, self.meshes@.len()) > usize::MAX,
            },
    {
        let mut total: usize = 0;
        let mut m: usize = 0;
        while m < self.meshes.len()
            invariant
                m <= self.meshes@.len(),
                total == vertices_before(self.meshes@, m as nat),
            decreases self.meshes@.len() - m,
        {
            let n = self.meshes[m].mesh.positions.len();
            if n > usize::MAX - total {
                proof {
                    lemma_vertices_before_grows(self.meshes@, m as nat + 1, self.meshes@.len());
                }
                return None;
            }
            total = total + n;
            m += 1;
        }
        Some(total)
    }

    /// The numbers by which a file that holds the vertices of all meshes in
    /// one list, counted from one, names the corners of each mesh's
    /// triangles: a corner index plus the number of vertices of the meshes
    /// in front, plus one. Indices behind the last whole triangle of a mesh
    /// are left out.
    pub fn face_numbers(&self) -> (faces: Vec<Vec<usize>>)
        requires
            vertices_before(self.meshes@, self.meshes@.len()) <= usize::MAX,
            forall|m: int|
                0 <= m < self.meshes@.len() ==> (#[trigger] self.meshes@[m]).mesh.indices_in_range(),
        ensures
            faces@.len() == self.meshes@.len(),
            forall|m: int|
                0 <= m < faces@.len() ==> (#[trigger] faces@[m])@.len() == 3
                    * self.meshes@[m].mesh.triangles(),
            forall|m: int, k: int|
                0 <= m < faces@.len() && 0 <= k < faces@[m]@.len() ==> (#[trigger] faces@[m]@[k])
                    == self.meshes@[m].mesh.indices@[k] + vertices_before(self.meshes@, m as nat)
                    + 1,
    {
        let mut faces: Vec<Vec<usize>> = Vec::new();
        let mut written_vertex_cnt: usize = 0;
        let mut m: usize = 0;
        while m < self.meshes.len()
            invariant
                m <= self.meshes@.len(),
                vertices_before(self.meshes@, self.meshes@.len()) <= usize::MAX,
                forall|j: int|
                    0 <= j < self.meshes@.len() ==> (#[trigger] self.meshes@[j]).mesh.indices_in_range(),
                written_vertex_cnt == vertices_before(self.meshes@, m as nat),
                faces@.len() == m,
                forall|j: int|
                    0 <= j < m ==> (#[trigger] faces@[j])@.len() == 3
                        * self.meshes@[j].mesh.triangles(),
                forall|j: int, k: int|
                    0 <= j < m && 0 <= k < faces@[j]@.len() ==> (#[trigger] faces@[j]@[k])
                        == self.meshes@[j].mesh.indices@[k] + vertices_before(self.meshes@, j as nat)
                        + 1,
            decreases self.meshes@.len() - m,
        {
            proof {
                lemma_vertices_before_grows(self.meshes@, m as nat + 1, self.meshes@.len());
            }
            let mesh = &self.meshes[m].mesh;
            let corners = 3 * (mesh.indices.len() / 3);
            let mut numbers: Vec<usize> = Vec::new();
            let mut k: usize = 0;
            while k < corners
                invariant
                    k <= corners <= mesh.indices@.len(),
                    mesh.indices_in_range(),
                    written_vertex_cnt + mesh.positions@.len() <= usize::MAX,
                    numbers@.len() == k,
                    forall|j: int|
                        0 <= j < k ==> (#[trigger] numbers@[j]) == mesh.indices@[j]
                            + written_vertex_cnt + 1,
                decreases corners - k,
            {
                numbers.push(mesh.indices[k] as usize + written_vertex_cnt + 1);
                k += 1;
            }
            faces.push(numbers);
            written_vertex_cnt = written_vertex_cnt + mesh.positions.len();
            m += 1;
        }
        faces
    }

    /// Marks every mesh, each on its own.
    pub fn mark_vertices_to_delete(&mut self)
        ensures
            final(self).aabb == old(self).aabb,
            final(self).source_file == old(self).source_file,
            final(self).meshes@.len() == old(self).meshes@.len(),
            forall|i: int|
                0 <= i < old(self).meshes@.len() ==> (#[trigger] final(self).meshes@[i]).marked_from(
                    &old(self).meshes@[i],
                ),
            forall|i: int|
                0 <= i < old(self).meshes@.len() && old(self).meshes@[i].boundary_kept() ==> (
                #[trigger] final(self).meshes@[i]).boundary_kept(),
    {
        let mut i: usize = 0;
        while i < self.meshes.len()
            invariant
                i <= self.meshes@.len(),
                self.aabb == old(self).aabb,
                self.source_file == old(self).source_file,
                self.meshes@.len() == old(self).meshes@.len(),
                forall|j: int|
                    0 <= j < i ==> (#[trigger] self.meshes@[j]).marked_from(&old(self).meshes@[j]),
                forall|j: int|
                    0 <= j < i && old(self).meshes@[j].boundary_kept() ==> (
                    #[trigger] self.meshes@[j]).boundary_kept(),
                forall|j: int|
                    i <= j < self.meshes@.len() ==> (#[trigger] self.meshes@[j]) == old(self).meshes@[j],
            decreases self.meshes@.len() - i,
        {
            self.meshes[i].mark_vertices_to_delete();
            i += 1;
        }
    }
}

/// The materials of `meshes`, in the order of the meshes.
pub open spec fn materials_of(meshes: Seq<MeshContainer>) -> Seq<Material> {
    Seq::new(meshes.len(), |i: int| meshes[i].material)
}

/// A model that is written by copying its file: where the file lies, the
/// materials that name its textures, and by how much the textures are
/// scaled down on the way (1 leaves them as they are).
#[derive(Debug)]
pub struct ModelReference {
    pub source_file: PathBuf,
    pub materials: Vec<Material>,
    pub texture_downscale_factor: u32,
}

impl ModelReference {
    /// Keeps the source file and the materials of `model`, one per mesh in
    /// the order of the meshes, and drops the geometry.
    pub fn from_model(model: Model, texture_downscale_factor: u32) -> (reference: Self)
        ensures
            reference.source_file == model.source_file,
            reference.materials@ == materials_of(model.meshes@),
            reference.texture_downscale_factor == texture_downscale_factor,
    {
        let ghost meshes = model.meshes@;
        let mut materials: Vec<Material> = Vec::new();
        for mesh in it: model.meshes.into_iter()
            invariant
                it.seq() == meshes,
                materials@ == materials_of(meshes.subrange(0, it.index() as int)),
        {
            materials.push(mesh.material);
            assert(materials@ =~= materials_of(meshes.subrange(0, it.index() + 1)));
        }
        assert(meshes.subrange(0, meshes.len() as int) =~= meshes);
        Self { materials, texture_downscale_factor, source_file: model.source_file }
    }
}

/// What is written for a model: a copy of its file, or its carved geometry.
pub enum OutAsset {
    AssetRef(ModelReference),
    Asset(Model),
}

} // verus!
