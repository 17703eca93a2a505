use vstd::prelude::*;

verus! {

/// What a leaf of the scene's hierarchy stands for: an object or a light, by
/// index.
#[derive(Clone, Copy, Debug, PartialEq, Eq, Structural)]
pub enum EntityID {
    Object(usize),
    Light(usize),
}

} // verus!
