use vstd::prelude::*;

pub mod alphabet;
pub mod circle_layout;
pub mod graph;
pub mod parse;
pub mod phrase;

verus! {

/// Visibility flag that the display layer attaches to a node.
pub struct Payload {
    pub visable: bool,
}

impl Payload {
    pub fn new(tf: bool) -> (p: Payload)
        ensures
            p.visable == tf,
    {
        Payload { visable: tf }
    }
}

} // verus!

