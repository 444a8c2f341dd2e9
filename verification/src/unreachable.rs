//! Why an entity has no transform into the reference frame.

use vstd::prelude::*;

verus! {

/// The reason for which an entity cannot be placed in the reference frame.
#[derive(Clone, Copy, Debug, PartialEq, Eq, Structural)]
pub enum UnreachableTransform {
    /// The bookkeeping of spaces is out of date and has no entry for the
    /// path. At most a passing state, until the bookkeeping is rebuilt.
    UnknownSpaceInfo,
    /// More than one pinhole camera lies between the entity and the
    /// reference.
    NestedPinholeCameras,
    /// The way out of a pinhole camera's space would need the inverse of a
    /// camera without a resolution.
    InversePinholeCameraWithoutResolution,
    /// An unknown transform lies between the entity and the reference.
    UnknownTransform,
}

impl UnreachableTransform {
    /// The text of `message`, as a sequence of characters.
    pub open spec fn message_text(self) -> Seq<char> {
        match self {
            UnreachableTransform::UnknownSpaceInfo =>
                "Can't determine transform because internal data structures are not in a valid state. Please file an issue on https://github.com/rerun-io/rerun/"@,
            UnreachableTransform::NestedPinholeCameras =>
                "Can't display entities under nested pinhole cameras."@,
            UnreachableTransform::UnknownTransform =>
                "Can't display entities that are connected via an unknown transform to this space."@,
            UnreachableTransform::InversePinholeCameraWithoutResolution =>
                "Can't display entities that would require inverting a pinhole camera without a specified resolution."@,
        }
    }

    /// The explanation to show to a user, one fixed sentence per reason.
    pub fn message(&self) -> (text: &'static str)
        ensures
            text@ == self.message_text(),
    {
        match self {
            UnreachableTransform::UnknownSpaceInfo =>
                "Can't determine transform because internal data structures are not in a valid state. Please file an issue on https://github.com/rerun-io/rerun/",
            UnreachableTransform::NestedPinholeCameras =>
                "Can't display entities under nested pinhole cameras.",
            UnreachableTransform::UnknownTransform =>
                "Can't display entities that are connected via an unknown transform to this space.",
            UnreachableTransform::InversePinholeCameraWithoutResolution =>
                "Can't display entities that would require inverting a pinhole camera without a specified resolution.",
        }
    }
}

} // verus!
