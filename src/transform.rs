use vstd::prelude::*;

verus! {

/// An intersectable whose reported normals are reversed.
pub struct FlipNormals<T> {
    pub inner: T,
}

impl<T> FlipNormals<T> {
    pub fn new(inner: T) -> (r: FlipNormals<T>)
        ensures
            r.inner == inner,
    {
        FlipNormals { inner }
    }

    /// The wrapped intersectable.
    pub fn inner(&self) -> (r: &T)
        ensures
            *r == self.inner,
    {
        &self.inner
    }
}

/// Wraps `inner` so that its normals are reversed.
pub fn flip_normals<T>(inner: T) -> (r: FlipNormals<T>)
    ensures
        r.inner == inner,
{
    FlipNormals::new(inner)
}

/// An intersectable whose hits report the opposite face: what was the front
/// face is seen as the back face and the other way round.
pub struct FlipFace<T> {
    pub ptr: T,
}

impl<T> FlipFace<T> {
    pub fn new(ptr: T) -> (r: FlipFace<T>)
        ensures
            r.ptr == ptr,
    {
        FlipFace { ptr }
    }

    /// The wrapped intersectable.
    pub fn inner(&self) -> (r: &T)
        ensures
            *r == self.ptr,
    {
        &self.ptr
    }

    /// The front-face flag of a hit on the wrapped intersectable, as this
    /// wrapper reports it.
    pub fn front_face(&self, inner_front_face: bool) -> (r: bool)
        ensures
            r == !inner_front_face,
    {
        !inner_front_face
    }
}

} // verus!
