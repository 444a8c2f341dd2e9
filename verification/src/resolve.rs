//! The step from one entity to its parent: what the transform logged for an
//! entity contributes on a branch of the traversal, or why the branch ends
//! there.

use vstd::prelude::*;
use crate::entity_tree::LoggedTransform;
use crate::unreachable::UnreachableTransform;

verus! {

/// Which placement of a pinhole camera's image plane a traversal takes.
#[derive(Clone, Copy, Debug, PartialEq, Eq, Structural)]
pub enum ImagePlaneDistance {
    /// The distance configured for the entity: the way down from the
    /// reference.
    OfEntity,
    /// The fixed distance: the way up from the reference, where no
    /// configuration applies.
    Fixed,
}

/// What `transform_at` returns for a logged transform, on a branch that has
/// or has not yet crossed a pinhole camera.
///
/// No logged transform contributes nothing. A rigid transform contributes
/// itself. A pinhole camera contributes the placement chosen by `distance`,
/// unless the branch has crossed a camera before. An unknown transform ends
/// the branch.
pub open spec fn resolved(
    logged: Option<LoggedTransform>,
    distance: ImagePlaneDistance,
    encountered_pinhole: bool,
) -> Result<Option<glam::Affine3A>, UnreachableTransform> {
    match logged {
        None => Ok(None),
        Some(LoggedTransform::Rigid3(parent_from_child)) => Ok(Some(parent_from_child)),
        Some(LoggedTransform::Unknown) => Err(UnreachableTransform::UnknownTransform),
        Some(LoggedTransform::Pinhole(pinhole)) => if encountered_pinhole {
            Err(UnreachableTransform::NestedPinholeCameras)
        } else {
            match distance {
                ImagePlaneDistance::OfEntity => Ok(Some(pinhole.at_entity_distance)),
                ImagePlaneDistance::Fixed => Ok(Some(pinhole.at_fixed_distance)),
            }
        },
    }
}

/// Whether a branch has crossed a pinhole camera once the entity with this
/// logged transform is behind it: it had before, or the entity is a camera.
pub open spec fn crossed_pinhole(logged: Option<LoggedTransform>, encountered_pinhole: bool) -> bool {
    encountered_pinhole || logged matches Some(LoggedTransform::Pinhole(_))
}

/// The transform from an entity's space into its parent's, given what was
/// logged for the entity.
///
/// `encountered_pinhole` says whether the branch has crossed a pinhole
/// camera already, and is set when this entity is one. `Ok(None)` means that
/// nothing was logged, so that the entity shares its parent's space.
pub fn transform_at(
    logged: &Option<LoggedTransform>,
    distance: ImagePlaneDistance,
    encountered_pinhole: &mut bool,
) -> (result: Result<Option<glam::Affine3A>, UnreachableTransform>)
    ensures
        result == resolved(*logged, distance, *old(encountered_pinhole)),
        *final(encountered_pinhole) == crossed_pinhole(*logged, *old(encountered_pinhole)),
{
    match logged {
        None => Ok(None),
        Some(LoggedTransform::Rigid3(parent_from_child)) => Ok(Some(*parent_from_child)),
        Some(LoggedTransform::Unknown) => Err(UnreachableTransform::UnknownTransform),
        Some(LoggedTransform::Pinhole(pinhole)) => {
            if *encountered_pinhole {
                Err(UnreachableTransform::NestedPinholeCameras)
            } else {
                *encountered_pinhole = true;
                match distance {
                    ImagePlaneDistance::OfEntity => Ok(Some(pinhole.at_entity_distance)),
                    ImagePlaneDistance::Fixed => Ok(Some(pinhole.at_fixed_distance)),
                }
            }
        },
    }
}

} // verus!
