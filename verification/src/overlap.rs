//! Finding what one surface covers of another: which triangles are tested
//! for a point, which vertices of a mesh are tested at all, and how the
//! findings are gathered and recorded. The test of a point against a single
//! triangle is the caller's.

use crate::carve::lemma_more_cover_keeps_boundary;
use crate::grid::{holds_triple, triple, GridCell};
use crate::model::{MeshContainer, Model};
use crate::outside::{box_holds, box_intersection};
use vstd::prelude::*;

verus! {

/// The test `triangle_covers` may be asked about triangle `k` of
/// `candidates`.
pub open spec fn testable<F: Fn(u32, u32, u32) -> bool>(
    candidates: Seq<u32>,
    triangle_covers: F,
    k: int,
) -> bool {
    call_requires(
        triangle_covers,
        (candidates[3 * k], candidates[3 * k + 1], candidates[3 * k + 2]),
    )
}

/// The test accepts triangle `k` of `candidates`, where
/// `outcome(a, b, c, r)` says that the test may answer `r` for the triangle
/// with the corners `a`, `b` and `c`.
pub open spec fn accepted(
    candidates: Seq<u32>,
    outcome: spec_fn(u32, u32, u32, bool) -> bool,
    k: int,
) -> bool {
    outcome(candidates[3 * k], candidates[3 * k + 1], candidates[3 * k + 2], true)
}

/// The test rejects triangle `k` of `candidates`.
pub open spec fn rejected(
    candidates: Seq<u32>,
    outcome: spec_fn(u32, u32, u32, bool) -> bool,
    k: int,
) -> bool {
    outcome(candidates[3 * k], candidates[3 * k + 1], candidates[3 * k + 2], false)
}

/// `covered` is the answer that testing the triangles of `candidates` one
/// after the other gives: yes with the first triangle that the test
/// accepts, all triangles in front of it having been rejected, and no when
/// every triangle was rejected.
pub open spec fn is_coverage_answer(
    candidates: Seq<u32>,
    outcome: spec_fn(u32, u32, u32, bool) -> bool,
    covered: bool,
) -> bool {
    if covered {
        exists|k: int|
            0 <= k < candidates.len() / 3 && #[trigger] accepted(candidates, outcome, k)
                && forall|j: int| 0 <= j < k ==> #[trigger] rejected(candidates, outcome, j)
    } else {
        forall|k: int| 0 <= k < candidates.len() / 3 ==> #[trigger] rejected(candidates, outcome, k)
    }
}

/// Coverage is not lost by a wider reach: if testing the triangles for
/// the reach from `p_min` to `p_max` answers yes, then testing them for a
/// reach from `q_min` to `q_max` that contains the first cannot answer no,
/// provided that the test of a single triangle, once passed, is not failed
/// with the wider reach. `outcome` and `wider_outcome` say what the test of
/// a single triangle may answer with the one reach and the other; a spatial
/// index has to index the mesh.
pub proof fn lemma_wider_reach_keeps_coverage(
    mesh_container: MeshContainer,
    cells: Seq<GridCell>,
    p_min: GridCell,
    p_max: GridCell,
    q_min: GridCell,
    q_max: GridCell,
    outcome: spec_fn(u32, u32, u32, bool) -> bool,
    wider_outcome: spec_fn(u32, u32, u32, bool) -> bool,
)
    requires
        mesh_container.index_grid matches Some(grid) ==> grid.is_index_of(
            cells,
            mesh_container.mesh.indices@,
        ),
        q_min.x <= p_min.x && p_max.x <= q_max.x,
        q_min.y <= p_min.y && p_max.y <= q_max.y,
        q_min.z <= p_min.z && p_max.z <= q_max.z,
        forall|a: u32, b: u32, c: u32| #[trigger]
            outcome(a, b, c, true) ==> !wider_outcome(a, b, c, false),
        is_coverage_answer(mesh_container.candidate_triangles(p_min, p_max), outcome, true),
    ensures
        !is_coverage_answer(mesh_container.candidate_triangles(q_min, q_max), wider_outcome, false),
{
    let near = mesh_container.candidate_triangles(p_min, p_max);
    let far = mesh_container.candidate_triangles(q_min, q_max);
    let k = choose|k: int| 0 <= k < near.len() / 3 && #[trigger] accepted(near, outcome, k);
    assert(holds_triple(far, triple(near, k))) by {
        match mesh_container.index_grid {
            Some(grid) => {
                grid.lemma_wider_query_finds_more(
                    cells,
                    mesh_container.mesh.indices@,
                    p_min,
                    p_max,
                    q_min,
                    q_max,
                    k,
                );
            },
            None => {
                assert(triple(far, k) == triple(near, k));
            },
        }
    }
    let j = choose|j: int| 0 <= j && 3 * j + 3 <= far.len() && #[trigger] triple(far, j) == triple(near, k);
    assert(triple(far, j)[0] == triple(near, k)[0]);
    assert(triple(far, j)[1] == triple(near, k)[1]);
    assert(triple(far, j)[2] == triple(near, k)[2]);
    assert(outcome(far[3 * j], far[3 * j + 1], far[3 * j + 2], true));
    assert(!rejected(far, wider_outcome, j));
}

/// Whether a surface of `mesh_container` covers a point.
///
/// `triangle_covers(a, b, c)` is the test whether the triangle with the
/// corners `a`, `b` and `c` covers the point, and `p_min` and `p_max` are
/// the cells between which the point's reach lies. With a spatial index
/// only the triangles registered in that box are tested, else all of them,
/// in their order; the first triangle that covers the point settles it.
pub fn vertex_overlapping<F: Fn(u32, u32, u32) -> bool>(
    mesh_container: &MeshContainer,
    p_min: GridCell,
    p_max: GridCell,
    triangle_covers: F,
) -> (covered: bool)
    requires
        forall|k: int|
            0 <= k < mesh_container.candidate_triangles(p_min, p_max).len() / 3
                ==> #[trigger] testable(
                mesh_container.candidate_triangles(p_min, p_max),
                triangle_covers,
                k,
            ),
    ensures
        is_coverage_answer(
            mesh_container.candidate_triangles(p_min, p_max),
            |a: u32, b: u32, c: u32, r: bool| call_ensures(triangle_covers, (a, b, c), r),
            covered,
        ),
{
    let ghost outcome = |a: u32, b: u32, c: u32, r: bool| call_ensures(triangle_covers, (a, b, c), r);
    let ghost candidates = mesh_container.candidate_triangles(p_min, p_max);
    let queried: Vec<u32>;
    let indices: &Vec<u32> = match &mesh_container.index_grid {
        Some(grid) => {
            queried = grid.get_indices(p_min, p_max);
            &queried
        },
        None => &mesh_container.mesh.indices,
    };
    let triangles = indices.len() / 3;
    let mut t: usize = 0;
    while t < triangles
        invariant
            t <= triangles,
            triangles == candidates.len() / 3,
            3 * triangles <= candidates.len() <= usize::MAX,
            indices@ == candidates,
            candidates == mesh_container.candidate_triangles(p_min, p_max),
            outcome == |a: u32, b: u32, c: u32, r: bool| call_ensures(triangle_covers, (a, b, c), r),
            forall|k: int|
                0 <= k < candidates.len() / 3 ==> #[trigger] testable(
                    candidates,
                    triangle_covers,
                    k,
                ),
            forall|j: int| 0 <= j < t ==> #[trigger] rejected(candidates, outcome, j),
        decreases triangles - t,
    {
        assert(testable(candidates, triangle_covers, t as int));
        if triangle_covers(indices[3 * t], indices[3 * t + 1], indices[3 * t + 2]) {
            assert(accepted(candidates, outcome, t as int));
            return true;
        }
        assert(rejected(candidates, outcome, t as int));
        t += 1;
    }
    false
}

impl MeshContainer {
    /// The corner indices of the triangles that are tested for a point
    /// whose reach lies between the cells `p_min` and `p_max`: with a
    /// spatial index those that it holds for that box, else all.
    pub open spec fn candidate_triangles(&self, p_min: GridCell, p_max: GridCell) -> Seq<u32> {
        match self.index_grid {
            Some(grid) => grid.box_contents(p_min, p_max),
            None => self.mesh.indices@,
        }
    }

    /// Vertex `v` of `self` lies in the box that the bounding boxes of
    /// `self` and `other` share.
    pub open spec fn in_reach_of(&self, other: &Self, v: int) -> bool {
        box_intersection(self.aabb, other.aabb) matches Some(shared) && box_holds(
            shared,
            self.mesh.positions@[v],
        )
    }

    /// `list` names, in ascending order, the vertices of `self` within
    /// reach of `other` for which the coverage test said yes, where
    /// `outcome(v, r)` says that the test may answer `r` for vertex `v`:
    /// every listed vertex is within reach and was found covered, and every
    /// other vertex is out of reach or was found not covered.
    pub open spec fn is_overlap_list(
        &self,
        other: &Self,
        outcome: spec_fn(usize, bool) -> bool,
        list: Seq<usize>,
    ) -> bool {
        &&& forall|k: int, l: int| 0 <= k < l < list.len() ==> list[k] < list[l]
        &&& forall|k: int|
            0 <= k < list.len() ==> (#[trigger] list[k]) < self.mesh.positions@.len()
                && self.in_reach_of(other, list[k] as int) && outcome(list[k], true)
        &&& forall|v: usize|
            v < self.mesh.positions@.len() && !list.contains(v) ==> !self.in_reach_of(
                other,
                v as int,
            ) || outcome(v, false)
    }

    /// The vertices of `self` that a surface of `other` covers.
    ///
    /// `covered(v)` is the test whether a surface of `other` covers vertex
    /// `v` of `self`. It is asked only for the vertices that lie in the box
    /// that the two bounding boxes share; where the boxes do not overlap
    /// there are none, and the result is empty. The mean edge length, from
    /// which the test takes its reach, has to be known.
    pub fn calc_overlapping_vertice_idxs<F: Fn(usize) -> bool>(
        &self,
        other: &Self,
        covered: F,
    ) -> (overlapping: Vec<usize>)
        requires
            self.mean_edge_len_bits is Some,
            forall|v: usize| v < self.mesh.positions@.len() ==> call_requires(covered, (v,)),
        ensures
            self.is_overlap_list(
                other,
                |v: usize, r: bool| call_ensures(covered, (v,), r),
                overlapping@,
            ),
    {
        let ghost outcome = |v: usize, r: bool| call_ensures(covered, (v,), r);
        let mut overlapping: Vec<usize> = Vec::new();
        if let Some(intersection) = self.aabb.intersection(other.aabb) {
            let mut idx: usize = 0;
            while idx < self.mesh.positions.len()
                invariant
                    idx <= self.mesh.positions@.len(),
                    box_intersection(self.aabb, other.aabb) == Some(intersection),
                    forall|v: usize|
                        v < self.mesh.positions@.len() ==> call_requires(covered, (v,)),
                    forall|k: int, l: int|
                        0 <= k < l < overlapping@.len() ==> overlapping@[k] < overlapping@[l],
                    forall|k: int|
                        0 <= k < overlapping@.len() ==> (#[trigger] overlapping@[k]) < idx
                            && self.in_reach_of(other, overlapping@[k] as int) && call_ensures(
                            covered,
                            (overlapping@[k],),
                            true,
                        ),
                    forall|v: usize|
                        v < idx && !overlapping@.contains(v) ==> !self.in_reach_of(other, v as int)
                            || call_ensures(covered, (v,), false),
                decreases self.mesh.positions@.len() - idx,
            {
                let ghost found = overlapping@;
                if intersection.is_inside(self.mesh.positions[idx]) && covered(idx) {
                    overlapping.push(idx);
                    assert(overlapping@.last() == idx);
                    assert forall|v: usize|
                        v < idx && !overlapping@.contains(v) implies !found.contains(v) by {
                        if found.contains(v) {
                            let j = choose|j: int| 0 <= j < found.len() && found[j] == v;
                            assert(overlapping@[j] == v);
                        }
                    }
                }
                idx += 1;
            }
        }
        assert(self.is_overlap_list(other, outcome, overlapping@));
        overlapping
    }

    /// `self` is `before` with `found` appended to its recorded overlaps.
    pub open spec fn with_overlaps_from(&self, before: &Self, found: Seq<usize>) -> bool {
        &&& self.overlapping_vertice_idxs@ == before.overlapping_vertice_idxs@ + found
        &&& self.mesh == before.mesh
        &&& self.aabb == before.aabb
        &&& self.material == before.material
        &&& self.to_be_deleted == before.to_be_deleted
        &&& self.mean_edge_len_bits == before.mean_edge_len_bits
        &&& self.indices_to_delete == before.indices_to_delete
        &&& self.index_grid == before.index_grid
    }
}

/// `list` is what the overlap tests of `mesh` against each of `others`, in
/// their order, find one after the other, where `outcome(h, v, r)` says
/// that the coverage test against `others[h]` may answer `r` for vertex `v`.
pub open spec fn is_staging_list(
    mesh: MeshContainer,
    others: Seq<MeshContainer>,
    outcome: spec_fn(usize, usize, bool) -> bool,
    list: Seq<usize>,
) -> bool {
    exists|parts: Seq<Seq<usize>>|
        #![trigger parts.flatten()]
        parts.flatten() == list && parts.len() == others.len() && forall|h: int|
            0 <= h < others.len() ==> mesh.is_overlap_list(
                &others[h],
                |v: usize, r: bool| outcome(h as usize, v, r),
                #[trigger] parts[h],
            )
}

impl Model {
    /// The bounding boxes of `self` and `other` overlap.
    pub open spec fn spec_may_overlap(&self, other: &Model) -> bool {
        box_intersection(self.aabb, other.aabb) is Some
    }

    /// `overlaps` is what testing the meshes of `self` against those of
    /// `other` finds: nothing at all where the bounding boxes of the two
    /// models do not overlap, else one list for each mesh of `self`.
    /// `outcome(m, h, v, r)` says that the coverage test of mesh `m` against
    /// mesh `h` of `other` may answer `r` for vertex `v`.
    pub open spec fn is_staging(
        &self,
        other: &Model,
        outcome: spec_fn(usize, usize, usize, bool) -> bool,
        overlaps: Seq<Vec<usize>>,
    ) -> bool {
        if self.spec_may_overlap(other) {
            &&& overlaps.len() == self.meshes@.len()
            &&& forall|m: int|
                0 <= m < overlaps.len() ==> is_staging_list(
                    self.meshes@[m],
                    other.meshes@,
                    |h: usize, v: usize, r: bool| outcome(m as usize, h, v, r),
                    (#[trigger] overlaps[m])@,
                )
        } else {
            overlaps.len() == 0
        }
    }

    /// True iff the bounding boxes of the two models overlap.
    pub fn may_overlap(&self, other: &Model) -> (overlap: bool)
        ensures
            overlap == self.spec_may_overlap(other),
    {
        self.aabb.intersection(other.aabb).is_some()
    }

    /// Finds what `other` covers of `self`, mesh by mesh.
    ///
    /// `covered(m, h, v)` is the test whether a surface of mesh `h` of
    /// `other` covers vertex `v` of mesh `m` of `self`. Where the bounding
    /// boxes of the two models do not overlap, nothing is tested and the
    /// result is empty. Else the result holds one list for each mesh of
    /// `self`: what its test against each mesh of `other`, in their order,
    /// finds.
    pub fn calc_overlaps<F: Fn(usize, usize, usize) -> bool>(
        &self,
        other: &Model,
        covered: F,
    ) -> (overlaps: Vec<Vec<usize>>)
        requires
            forall|m: int|
                0 <= m < self.meshes@.len() ==> (#[trigger] self.meshes@[m]).mean_edge_len_bits
                    is Some,
            forall|m: usize, h: usize, v: usize|
                m < self.meshes@.len() && h < other.meshes@.len() && v
                    < self.meshes@[m as int].mesh.positions@.len() ==> call_requires(
                    covered,
                    (m, h, v),
                ),
        ensures
            self.is_staging(
                other,
                |m: usize, h: usize, v: usize, r: bool| call_ensures(covered, (m, h, v), r),
                overlaps@,
            ),
    {
        let ghost outcome = |m: usize, h: usize, v: usize, r: bool|
            call_ensures(covered, (m, h, v), r);
        let mut overlaps: Vec<Vec<usize>> = Vec::new();
        if self.may_overlap(other) {
            let mut m: usize = 0;
            while m < self.meshes.len()
                invariant
                    m <= self.meshes@.len(),
                    outcome == |m: usize, h: usize, v: usize, r: bool|
                        call_ensures(covered, (m, h, v), r),
                    forall|m: int|
                        0 <= m < self.meshes@.len() ==> (
                        #[trigger] self.meshes@[m]).mean_edge_len_bits is Some,
                    forall|m: usize, h: usize, v: usize|
                        m < self.meshes@.len() && h < other.meshes@.len() && v
                            < self.meshes@[m as int].mesh.positions@.len() ==> call_requires(
                            covered,
                            (m, h, v),
                        ),
                    overlaps@.len() == m,
                    forall|k: int|
                        0 <= k < m ==> is_staging_list(
                            self.meshes@[k],
                            other.meshes@,
                            |h: usize, v: usize, r: bool| outcome(k as usize, h, v, r),
                            (#[trigger] overlaps@[k])@,
                        ),
                decreases self.meshes@.len() - m,
            {
                let mesh = &self.meshes[m];
                let mut mesh_overlaps: Vec<usize> = Vec::new();
                let ghost mut parts: Seq<Seq<usize>> = Seq::empty();
                let mut h: usize = 0;
                while h < other.meshes.len()
                    invariant
                        h <= other.meshes@.len(),
                        m < self.meshes@.len(),
                        *mesh == self.meshes@[m as int],
                        mesh.mean_edge_len_bits is Some,
                        outcome == |m: usize, h: usize, v: usize, r: bool|
                            call_ensures(covered, (m, h, v), r),
                        forall|m: usize, h: usize, v: usize|
                            m < self.meshes@.len() && h < other.meshes@.len() && v
                                < self.meshes@[m as int].mesh.positions@.len() ==> call_requires(
                                covered,
                                (m, h, v),
                            ),
                        parts.len() == h,
                        parts.flatten() == mesh_overlaps@,
                        forall|j: int|
                            0 <= j < h ==> mesh.is_overlap_list(
                                &other.meshes@[j],
                                |v: usize, r: bool| outcome(m, j as usize, v, r),
                                #[trigger] parts[j],
                            ),
                    decreases other.meshes@.len() - h,
                {
                    let ghost asked = |v: usize| call_requires(covered, (m, h, v));
                    let ghost answered = |v: usize, r: bool| call_ensures(covered, (m, h, v), r);
                    let point = |v: usize| -> (r: bool)
                        requires
                            asked(v),
                        ensures
                            answered(v, r),
                        { covered(m, h, v) };
                    let found = mesh.calc_overlapping_vertice_idxs(&other.meshes[h], point);
                    let ghost staged = mesh_overlaps@;
                    mesh_overlaps.extend_from_slice(found.as_slice());
                    proof {
                        assert(mesh_overlaps@ =~= staged + found@);
                        parts.lemma_flatten_push(found@);
                        assert(mesh.is_overlap_list(
                            &other.meshes@[h as int],
                            |v: usize, r: bool| outcome(m, h, v, r),
                            found@,
                        ));
                        parts = parts.push(found@);
                    }
                    h += 1;
                }
                proof {
                    assert(is_staging_list(
                        self.meshes@[m as int],
                        other.meshes@,
                        |h: usize, v: usize, r: bool| outcome(m, h, v, r),
                        mesh_overlaps@,
                    )) by {
                        assert(parts.flatten() == mesh_overlaps@ && parts.len()
                            == other.meshes@.len());
                        assert forall|j: int| 0 <= j < other.meshes@.len() implies mesh.is_overlap_list(
                            &other.meshes@[j],
                            |v: usize, r: bool|
                                (|h: usize, v: usize, r: bool| outcome(m, h, v, r))(
                                    j as usize,
                                    v,
                                    r,
                                ),
                            #[trigger] parts[j],
                        ) by {
                            assert(mesh.is_overlap_list(
                                &other.meshes@[j],
                                |v: usize, r: bool| outcome(m, j as usize, v, r),
                                parts[j],
                            ));
                        }
                    }
                }
                overlaps.push(mesh_overlaps);
                m += 1;
            }
        }
        assert(self.is_staging(other, outcome, overlaps@));
        overlaps
    }

    /// True iff some list of `overlaps` is not empty.
    pub fn has_overlaps(overlaps: &Vec<Vec<usize>>) -> (any: bool)
        ensures
            any == exists|i: int| 0 <= i < overlaps@.len() && (#[trigger] overlaps@[i])@.len() > 0,
    {
        let mut i: usize = 0;
        while i < overlaps.len()
            invariant
                i <= overlaps@.len(),
                forall|j: int| 0 <= j < i ==> (#[trigger] overlaps@[j])@.len() == 0,
            decreases overlaps@.len() - i,
        {
            if !overlaps[i].is_empty() {
                return true;
            }
            i += 1;
        }
        false
    }

    /// Records newly found overlaps: `overlaps[i]` is appended to the
    /// overlap list of mesh `i`. Meshes behind the last list, and everything
    /// but the overlap lists, stay as they are.
    pub fn record_overlaps(&mut self, overlaps: &Vec<Vec<usize>>)
        requires
            overlaps@.len() <= old(self).meshes@.len(),
        ensures
            final(self).aabb == old(self).aabb,
            final(self).source_file == old(self).source_file,
            final(self).meshes@.len() == old(self).meshes@.len(),
            forall|i: int|
                0 <= i < overlaps@.len() ==> (#[trigger] final(self).meshes@[i]).with_overlaps_from(
                    &old(self).meshes@[i],
                    overlaps@[i]@,
                ),
            forall|i: int|
                overlaps@.len() <= i < old(self).meshes@.len() ==> (#[trigger] final(self).meshes@[i])
                    == old(self).meshes@[i],
            forall|i: int|
                0 <= i < old(self).meshes@.len() && old(self).meshes@[i].boundary_kept() ==> (
                #[trigger] final(self).meshes@[i]).boundary_kept(),
    {
        let mut idx: usize = 0;
        while idx < overlaps.len()
            invariant
                idx <= overlaps@.len() <= self.meshes@.len(),
                self.aabb == old(self).aabb,
                self.source_file == old(self).source_file,
                self.meshes@.len() == old(self).meshes@.len(),
                forall|i: int|
                    0 <= i < idx ==> (#[trigger] self.meshes@[i]).with_overlaps_from(
                        &old(self).meshes@[i],
                        overlaps@[i]@,
                    ),
                forall|i: int|
                    idx <= i < self.meshes@.len() ==> (#[trigger] self.meshes@[i]) == old(self).meshes@[i],
                forall|i: int|
                    0 <= i < idx && old(self).meshes@[i].boundary_kept() ==> (
                    #[trigger] self.meshes@[i]).boundary_kept(),
            decreases overlaps@.len() - idx,
        {
            let ghost recorded = self.meshes@[idx as int].overlapping_vertice_idxs@;
            self.meshes[idx].overlapping_vertice_idxs.extend_from_slice(overlaps[idx].as_slice());
            assert(self.meshes@[idx as int].overlapping_vertice_idxs@ =~= recorded
                + overlaps@[idx as int]@);
            proof {
                let before = old(self).meshes@[idx as int];
                let after = self.meshes@[idx as int];
                if before.boundary_kept() {
                    assert forall|v: usize|
                        recorded.to_set().contains(v) implies after.overlapping_vertice_idxs@.to_set().contains(
                        v,
                    ) by {
                        let k = choose|k: int| 0 <= k < recorded.len() && recorded[k] == v;
                        assert(after.overlapping_vertice_idxs@[k] == v);
                    }
                    lemma_more_cover_keeps_boundary(
                        before.mesh.indices@,
                        recorded.to_set(),
                        after.overlapping_vertice_idxs@.to_set(),
                        before.indices_to_delete@,
                    );
                }
            }
            idx += 1;
        }
    }
}

} // verus!
