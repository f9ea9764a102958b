use vstd::prelude::*;

verus! {

/// A point with two coordinates.
#[derive(Debug, Clone, Copy, PartialEq, Eq)]
pub struct Pos2<T> {
    pub x: T,
    pub y: T,
}

} // verus!
