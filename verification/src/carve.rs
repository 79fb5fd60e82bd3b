//! What carving means, as mathematics: which vertices survive, how the
//! survivors are renumbered, which triangles remain, and which marked
//! vertices lie on the boundary of the carved region.

use crate::mesh::{degenerate_triple, TriMesh};
use vstd::prelude::*;

verus! {

/// The entries of `s` at the places `idx`, in the order of `idx`.
pub open spec fn gather<T>(s: Seq<T>, idx: Seq<int>) -> Seq<T> {
    Seq::new(idx.len(), |k: int| s[idx[k]])
}

/// The predicate "vertex `i` is not removed".
pub open spec fn survives(del: Set<usize>) -> spec_fn(int) -> bool {
    |i: int| !del.contains(i as usize)
}

/// `0, 1, ..., n - 1`.
pub open spec fn first_indices(n: nat) -> Seq<int> {
    Seq::new(n, |i: int| i)
}

/// The vertices below `n` that are not in `del`, in ascending order.
pub open spec fn survivors(del: Set<usize>, n: nat) -> Seq<int> {
    first_indices(n).filter(survives(del))
}

/// The index that vertex `i` has once the vertices in `del` are gone: the
/// number of survivors in front of it.
pub open spec fn new_index(del: Set<usize>, i: int) -> int {
    survivors(del, i as nat).len() as int
}

/// Vertex `n` either joins the survivors below it or is skipped.
pub proof fn lemma_survivors_step(del: Set<usize>, n: nat)
    ensures
        survivors(del, n + 1) == if del.contains(n as usize) {
            survivors(del, n)
        } else {
            survivors(del, n).push(n as int)
        },
{
    assert(first_indices(n + 1) =~= first_indices(n).push(n as int));
    first_indices(n).lemma_filter_push(n as int, survives(del));
}

/// The survivors below `n` are exactly the vertices below `n` outside
/// `del`, each at the place that `new_index` gives it, in ascending order.
pub proof fn lemma_survivors(del: Set<usize>, n: nat)
    ensures
        survivors(del, n).len() <= n,
        forall|k: int|
            0 <= k < survivors(del, n).len() ==> 0 <= (#[trigger] survivors(del, n)[k]) < n
                && !del.contains(survivors(del, n)[k] as usize),
        forall|k: int, l: int|
            0 <= k < l < survivors(del, n).len() ==> survivors(del, n)[k] < survivors(del, n)[l],
        forall|i: int|
            0 <= i < n && !del.contains(i as usize) ==> 0 <= (#[trigger] new_index(del, i))
                < survivors(del, n).len() && survivors(del, n)[new_index(del, i)] == i,
    decreases n,
{
    if n == 0 {
        reveal(Seq::filter);
        assert(first_indices(0).len() == 0);
    } else {
        let m = (n - 1) as nat;
        lemma_survivors(del, m);
        lemma_survivors_step(del, m);
    }
}

/// Renumbering keeps the order of surviving vertices, so two different
/// survivors never share a new index.
pub proof fn lemma_new_index_increasing(del: Set<usize>, i: int, j: int)
    requires
        0 <= i < j,
        !del.contains(i as usize),
    ensures
        new_index(del, i) < new_index(del, j),
        new_index(del, j) <= j,
    decreases j - i,
{
    lemma_survivors(del, j as nat);
    if i + 1 == j {
        lemma_survivors_step(del, i as nat);
    } else {
        lemma_new_index_increasing(del, i, j - 1);
        lemma_survivors_step(del, (j - 1) as nat);
    }
}

/// What remains of the triangle `(a, b, c)`: nothing if a corner is removed
/// or if two corners end up with the same new index, else the renumbered
/// triple.
pub open spec fn carved_triangle(del: Set<usize>, a: u32, b: u32, c: u32) -> Seq<u32> {
    let i0 = new_index(del, a as int);
    let i1 = new_index(del, b as int);
    let i2 = new_index(del, c as int);
    if del.contains(a as usize) || del.contains(b as usize) || del.contains(c as usize) || i0
        == i1 || i1 == i2 || i2 == i0 {
        Seq::empty()
    } else {
        seq![i0 as u32, i1 as u32, i2 as u32]
    }
}

/// What remains of triangle `k` of `indices`.
pub open spec fn carved_at(del: Set<usize>, indices: Seq<u32>, k: int) -> Seq<u32> {
    carved_triangle(del, indices[3 * k], indices[3 * k + 1], indices[3 * k + 2])
}

/// What remains of each of the first `t` triangles of `indices`.
pub open spec fn carved_triangles(del: Set<usize>, indices: Seq<u32>, t: nat) -> Seq<Seq<u32>> {
    Seq::new(t, |k: int| carved_at(del, indices, k))
}

/// The index list that the first `t` triangles of `indices` leave behind:
/// the remaining triangles in their old order.
pub open spec fn carved_indices(del: Set<usize>, indices: Seq<u32>, t: nat) -> Seq<u32> {
    carved_triangles(del, indices, t).flatten()
}

/// Triangle `t` contributes after the triangles in front of it.
pub proof fn lemma_carved_indices_step(del: Set<usize>, indices: Seq<u32>, t: nat)
    ensures
        carved_indices(del, indices, t + 1) == carved_indices(del, indices, t) + carved_at(
            del,
            indices,
            t as int,
        ),
{
    let last = carved_at(del, indices, t as int);
    assert(carved_triangles(del, indices, t + 1) =~= carved_triangles(del, indices, t).push(last));
    carved_triangles(del, indices, t).lemma_flatten_push(last);
}

/// What the first `t` triangles leave behind is a list of whole triangles
/// whose corners are new indices of survivors among the first `n` vertices,
/// all different within a triangle.
pub proof fn lemma_carved_indices_sound(del: Set<usize>, indices: Seq<u32>, n: nat, t: nat)
    requires
        3 * t <= indices.len(),
        forall|k: int| 0 <= k < indices.len() ==> (#[trigger] indices[k]) < n,
    ensures
        carved_indices(del, indices, t).len() % 3 == 0,
        forall|k: int|
            0 <= k < carved_indices(del, indices, t).len() ==> (#[trigger] carved_indices(
                del,
                indices,
                t,
            )[k]) < survivors(del, n).len(),
        forall|k: int|
            0 <= k < carved_indices(del, indices, t).len() / 3 ==> !#[trigger] degenerate_triple(
                carved_indices(del, indices, t),
                k,
            ),
    decreases t,
{
    if t == 0 {
        assert(carved_triangles(del, indices, 0) =~= Seq::<Seq<u32>>::empty());
    } else {
        let m = (t - 1) as nat;
        lemma_carved_indices_sound(del, indices, n, m);
        lemma_carved_indices_step(del, indices, m);
        let front = carved_indices(del, indices, m);
        let last = carved_at(del, indices, m as int);
        let all = carved_indices(del, indices, t);
        let a = indices[3 * (m as int)];
        let b = indices[3 * (m as int) + 1];
        let c = indices[3 * (m as int) + 2];
        lemma_survivors(del, n);
        lemma_survivors(del, a as nat);
        lemma_survivors(del, b as nat);
        lemma_survivors(del, c as nat);
        assert forall|k: int| 0 <= k < all.len() / 3 implies !#[trigger] degenerate_triple(
            all,
            k,
        ) by {
            if k < front.len() / 3 {
                assert(!degenerate_triple(front, k));
            }
        }
    }
}

/// `after` is `before` without the vertices in `del`: the surviving
/// positions and texture coordinates in their old order, the remaining
/// triangles renumbered, no normals, and no texture coordinates at all when
/// none is left.
pub open spec fn carved_mesh(before: TriMesh, del: Set<usize>, after: TriMesh) -> bool {
    let keep = survivors(del, before.positions@.len());
    &&& after.positions@ == gather(before.positions@, keep)
    &&& after.indices@ == carved_indices(del, before.indices@, before.triangles())
    &&& match before.uvs {
        Some(uvs) => if keep.len() > 0 {
            after.uvs matches Some(new_uvs) && new_uvs@ == gather(uvs@, keep)
        } else {
            after.uvs is None
        },
        None => after.uvs is None,
    }
    &&& after.normals is None
}

/// Index integrity, and no degenerate triangles: carving a well-formed
/// mesh gives a well-formed mesh, so every index of a remaining triangle
/// names a remaining vertex, and no remaining triangle names the same
/// vertex twice.
pub proof fn lemma_carving_keeps_integrity(before: TriMesh, del: Set<usize>, after: TriMesh)
    requires
        before.wf(),
        carved_mesh(before, del, after),
    ensures
        after.wf(),
        after.no_degenerate_triangles(),
{
    lemma_carved_indices_sound(del, before.indices@, before.positions@.len(), before.triangles());
}

/// Alignment of positions and texture coordinates: a surviving vertex is
/// found at its new index with the position it had, and, where the mesh had
/// texture coordinates, with the texture coordinate it had; there are then
/// as many texture coordinates as positions.
pub proof fn lemma_carving_keeps_alignment(
    before: TriMesh,
    del: Set<usize>,
    after: TriMesh,
    v: int,
)
    requires
        before.wf(),
        carved_mesh(before, del, after),
        0 <= v < before.positions@.len(),
        !del.contains(v as usize),
    ensures
        0 <= new_index(del, v) < after.positions@.len(),
        after.positions@[new_index(del, v)] == before.positions@[v],
        before.uvs matches Some(uvs) ==> (after.uvs matches Some(new_uvs) && new_uvs@.len()
            == after.positions@.len() && new_uvs@[new_index(del, v)] == uvs@[v]),
{
    lemma_survivors(del, before.positions@.len());
}

/// Vertex `v` is a corner of triangle `t` of `indices`.
pub open spec fn is_corner(indices: Seq<u32>, t: int, v: usize) -> bool {
    indices[3 * t] as usize == v || indices[3 * t + 1] as usize == v || indices[3 * t + 2] as usize
        == v
}

/// Triangle `t` of `indices` has a corner in `covered`.
pub open spec fn has_covered_corner(indices: Seq<u32>, covered: Set<usize>, t: int) -> bool {
    covered.contains(indices[3 * t] as usize) || covered.contains(indices[3 * t + 1] as usize)
        || covered.contains(indices[3 * t + 2] as usize)
}

/// Triangle `t` of `indices` has a corner outside `covered`.
pub open spec fn has_uncovered_corner(indices: Seq<u32>, covered: Set<usize>, t: int) -> bool {
    !covered.contains(indices[3 * t] as usize) || !covered.contains(indices[3 * t + 1] as usize)
        || !covered.contains(indices[3 * t + 2] as usize)
}

/// Vertex `v` is a corner of one of the first `t` triangles of `indices`
/// that has both a covered and an uncovered corner.
pub open spec fn on_boundary_among(
    indices: Seq<u32>,
    covered: Set<usize>,
    v: usize,
    t: nat,
) -> bool {
    exists|k: int|
        0 <= k < t && #[trigger] is_corner(indices, k, v) && has_covered_corner(
            indices,
            covered,
            k,
        ) && has_uncovered_corner(indices, covered, k)
}

/// Vertex `v` is a corner of a triangle that spans covered and uncovered
/// vertices.
pub open spec fn on_boundary(indices: Seq<u32>, covered: Set<usize>, v: usize) -> bool {
    on_boundary_among(indices, covered, v, indices.len() / 3)
}

/// The covered vertices that are safe to remove: those of which every
/// triangle is covered at all three corners.
pub open spec fn interior(indices: Seq<u32>, covered: Set<usize>) -> Set<usize> {
    Set::new(|v: usize| covered.contains(v) && !on_boundary(indices, covered, v))
}

/// No vertex of `del` belongs to a triangle with an uncovered corner.
pub open spec fn keeps_boundary(indices: Seq<u32>, covered: Set<usize>, del: Set<usize>) -> bool {
    forall|t: int, v: usize|
        0 <= t < indices.len() / 3 && #[trigger] is_corner(indices, t, v) && has_uncovered_corner(
            indices,
            covered,
            t,
        ) ==> !del.contains(v)
}

/// Vertices that keep clear of the triangles with an uncovered corner
/// still do so when more vertices are covered.
pub proof fn lemma_more_cover_keeps_boundary(
    indices: Seq<u32>,
    covered: Set<usize>,
    more: Set<usize>,
    del: Set<usize>,
)
    requires
        forall|v: usize| covered.contains(v) ==> more.contains(v),
        keeps_boundary(indices, covered, del),
    ensures
        keeps_boundary(indices, more, del),
{
    assert forall|t: int, v: usize|
        0 <= t < indices.len() / 3 && #[trigger] is_corner(indices, t, v) && has_uncovered_corner(
            indices,
            more,
            t,
        ) implies !del.contains(v) by {
        assert(has_uncovered_corner(indices, covered, t));
    }
}

/// Boundary preservation: a vertex that belongs to at least one triangle
/// with an uncovered corner is not among the vertices that marking selects
/// for removal.
pub proof fn lemma_interior_keeps_boundary(indices: Seq<u32>, covered: Set<usize>)
    ensures
        keeps_boundary(indices, covered, interior(indices, covered)),
{
    assert forall|t: int, v: usize|
        0 <= t < indices.len() / 3 && #[trigger] is_corner(indices, t, v) && has_uncovered_corner(
            indices,
            covered,
            t,
        ) implies !interior(indices, covered).contains(v) by {
        if covered.contains(v) {
            assert(has_covered_corner(indices, covered, t));
            assert(on_boundary(indices, covered, v));
        }
    }
}

} // verus!
