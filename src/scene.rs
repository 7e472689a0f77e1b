//! Assembling a scene's world from its primitives.
use vstd::prelude::*;
use crate::bvh::Bvh;
use crate::hittable::Hittable;

verus! {

/// Scene assembly: the primitives a scene description names become one
/// hierarchy, the world that rays are traced against.
pub struct Scene;

impl Scene {
    /// The world over a non-empty list of primitives; none when one of them
    /// has no bounding box.
    pub fn world<H: Hittable>(objects: Vec<H>) -> (r: Option<Bvh<H>>)
        requires
            objects.len() > 0,
        ensures
            r is Some <==> forall|i: int|
                0 <= i < objects.len() ==> (#[trigger] objects@[i].bounds()) is Some,
            r is Some ==> r->Some_0.members() == objects@,
    {
        Bvh::new(objects)
    }
}

} // verus!
