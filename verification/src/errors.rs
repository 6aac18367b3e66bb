use vstd::prelude::*;

verus! {

/// The error taxonomy of the core.
///
/// `NotFound` is an index lookup miss: an id was referenced that is absent
/// from the index. `CycleDetected` is the defensive bound of the path
/// resolver: the walk over parent pointers exceeded the record count.
/// `PathNotFound` is raised by the merge engine when a non-final path entry
/// matches no existing node, i.e. a required intermediate ancestor is missing.
#[derive(Clone, Copy, Debug, PartialEq, Eq, Structural)]
pub enum CoreError {
    NotFound,
    CycleDetected,
    PathNotFound,
}

impl CoreError {
    /// A short description, usable by callers that report skipped items.
    pub fn describe(&self) -> (r: &'static str)
        ensures
            *self is NotFound ==> r@ == "id not found in index"@,
            *self is CycleDetected ==> r@ == "parent chain exceeded the record count"@,
            *self is PathNotFound ==> r@ == "a required ancestor is missing"@,
    {
        match self {
            CoreError::NotFound => "id not found in index",
            CoreError::CycleDetected => "parent chain exceeded the record count",
            CoreError::PathNotFound => "a required ancestor is missing",
        }
    }
}

} // verus!
