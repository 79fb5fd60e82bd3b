//! What the library takes from other crates without proof.
//!
//! The types are stored and handed on without a look inside them: each
//! declaration makes the verifier aware that the type exists, and nothing
//! is claimed about its values.
//!
//! The functions on bounding boxes compute with floating-point numbers.
//! Of each of them only this is claimed: its result depends on its
//! arguments alone. The result gets a name, and the contracts of the
//! library speak of the boxes by these names.

use three_d_asset::{AxisAlignedBoundingBox, Vec3};
use vstd::prelude::*;

verus! {

/// `cgmath::Vector3<S>`, which `three_d_asset` offers under its own name
/// (its `Vec3` is `Vector3` of single-precision floats). A vertex position
/// or normal. Declared opaque: no claim is made about its coordinates.
#[verifier::external_type_specification]
#[verifier::external_body]
#[verifier::reject_recursive_types(S)]
pub struct ExVector3<S>(three_d_asset::Vector3<S>);

/// `cgmath::Vector2<S>`, which `three_d_asset` offers under its own name
/// (its `Vec2` is `Vector2` of single-precision floats). A texture
/// coordinate. Declared opaque: no claim is made about its coordinates.
#[verifier::external_type_specification]
#[verifier::external_body]
#[verifier::reject_recursive_types(S)]
pub struct ExVector2<S>(three_d_asset::Vector2<S>);

/// `three_d_asset::AxisAlignedBoundingBox`. Declared opaque: the library
/// never inspects the corners of a box; it has boxes made, joined and
/// compared by the functions below.
#[verifier::external_type_specification]
#[verifier::external_body]
pub struct ExAxisAlignedBoundingBox(three_d_asset::AxisAlignedBoundingBox);

/// The box that `AxisAlignedBoundingBox::new_with_positions` makes of
/// `positions`.
pub uninterp spec fn bounding_box(positions: Seq<Vec3>) -> AxisAlignedBoundingBox;

/// The box that `AxisAlignedBoundingBox::expand_with_aabb` makes of `aabb`
/// when it is called with `other`.
pub uninterp spec fn box_union(
    aabb: AxisAlignedBoundingBox,
    other: AxisAlignedBoundingBox,
) -> AxisAlignedBoundingBox;

/// What `AxisAlignedBoundingBox::intersection` returns for `aabb` and
/// `other`: a box, or nothing.
pub uninterp spec fn box_intersection(
    aabb: AxisAlignedBoundingBox,
    other: AxisAlignedBoundingBox,
) -> Option<AxisAlignedBoundingBox>;

/// What `AxisAlignedBoundingBox::is_inside` returns for `aabb` and
/// `position`.
pub uninterp spec fn box_holds(aabb: AxisAlignedBoundingBox, position: Vec3) -> bool;

/// `three_d_asset::AxisAlignedBoundingBox::new_with_positions`. The claim:
/// the box depends on the positions alone. It is given the name
/// `bounding_box`; nothing is said about where its corners lie.
pub assume_specification[ AxisAlignedBoundingBox::new_with_positions ](
    positions: &[Vec3],
) -> (aabb: AxisAlignedBoundingBox)
    ensures
        aabb == bounding_box(positions@),
;

/// `three_d_asset::AxisAlignedBoundingBox::expand_with_aabb`. The claim:
/// the expanded box depends on the two boxes alone. It is given the name
/// `box_union`; nothing is said about where its corners lie.
pub assume_specification[ AxisAlignedBoundingBox::expand_with_aabb ](
    aabb: &mut AxisAlignedBoundingBox,
    other: AxisAlignedBoundingBox,
)
    ensures
        *final(aabb) == box_union(*old(aabb), other),
;

/// `three_d_asset::AxisAlignedBoundingBox::intersection`. The claim: the
/// result depends on the two boxes alone. It is given the name
/// `box_intersection`; nothing is said about when the boxes overlap.
pub assume_specification[ AxisAlignedBoundingBox::intersection ](
    aabb: AxisAlignedBoundingBox,
    other: AxisAlignedBoundingBox,
) -> (shared: Option<AxisAlignedBoundingBox>)
    ensures
        shared == box_intersection(aabb, other),
;

/// `three_d_asset::AxisAlignedBoundingBox::is_inside`. The claim: the
/// result depends on the box and the position alone. It is given the name
/// `box_holds`; nothing is said about which positions a box holds.
pub assume_specification[ AxisAlignedBoundingBox::is_inside ](
    aabb: &AxisAlignedBoundingBox,
    position: Vec3,
) -> (inside: bool)
    ensures
        inside == box_holds(*aabb, position),
;

/// `tobj::Material`. Declared opaque: a material travels with its mesh
/// unchanged, and only code outside the verified library reads its fields.
#[verifier::external_type_specification]
#[verifier::external_body]
pub struct ExMaterial(tobj::Material);

/// `std::path::PathBuf`. Declared opaque: the path of the file that a model
/// was read from is kept for whoever writes the result.
#[verifier::external_type_specification]
#[verifier::external_body]
pub struct ExPathBuf(std::path::PathBuf);

} // verus!
