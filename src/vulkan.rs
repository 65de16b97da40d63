use vstd::prelude::*;

verus! {

/// Queue families found on a device for drawing and for presenting; a
/// negative index means that no such family has been found yet.
#[derive(Clone, Copy, Debug, PartialEq, Eq, Structural)]
pub struct QueueFamilyIndices {
    pub graphics_family: i32,
    pub present_family: i32,
}

impl QueueFamilyIndices {
    /// Nothing found yet.
    pub fn new() -> (r: QueueFamilyIndices)
        ensures
            r.graphics_family == -1,
            r.present_family == -1,
    {
        QueueFamilyIndices { graphics_family: -1, present_family: -1 }
    }

    /// Both families have been found.
    pub fn is_complete(&self) -> (r: bool)
        ensures
            r == (self.graphics_family >= 0 && self.present_family >= 0),
    {
        self.graphics_family >= 0 && self.present_family >= 0
    }
}

} // verus!
