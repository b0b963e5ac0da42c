//! A boundary entry: a boundary point together with the value that takes
//! effect there.

use vstd::prelude::*;
use crate::bound::Point;

verus! {

/// One entry of the boundary store.  `(p, v)` means: from position `p` until
/// the next entry's position, the map's value is `v`.
#[derive(Clone, Copy, PartialEq, Eq, Structural, Debug)]
pub struct Node {
    pub key: Point,
    pub value: char,
}

impl Node {
    pub fn new(key: Point, value: char) -> (r: Node)
        ensures
            r == (Node { key, value }),
    {
        Node { key, value }
    }
}

} // verus!
