//! NUMA node numbers.

use vstd::prelude::*;
use vstd::string::*;
use crate::text::{decimal, decimal_text, join2};

verus! {

/// The node number that stands for a node that could not be determined.
pub const UNKNOWN_NODE: u32 = 0xffff_ffff;

/// A NUMA node.
#[derive(Clone, Copy, Debug, PartialEq, Eq, Structural)]
pub struct NumaNode(pub u32);

impl NumaNode {
    /// Whether the node could be determined.
    pub open spec fn known(self) -> bool {
        self.0 != UNKNOWN_NODE
    }

    /// The node that stands for one that could not be determined.
    pub fn unknown() -> (node: NumaNode)
        ensures
            node == NumaNode(UNKNOWN_NODE),
    {
        NumaNode(UNKNOWN_NODE)
    }

    /// Whether the node could not be determined.
    pub fn is_unknown(&self) -> (r: bool)
        ensures
            r == !self.known(),
    {
        self.0 == UNKNOWN_NODE
    }

    /// Whether the node could be determined.
    pub fn is_valid(&self) -> (r: bool)
        ensures
            r == self.known(),
    {
        self.0 != UNKNOWN_NODE
    }

    /// The node's name in messages.
    pub open spec fn text(self) -> Seq<char> {
        if self.known() {
            "NUMA"@ + decimal(self.0 as nat)
        } else {
            "UNKNOWN"@
        }
    }

    /// The node's name in messages.
    pub fn name(&self) -> (r: String)
        ensures
            r@ == self.text(),
    {
        if self.is_valid() {
            join2("NUMA", &decimal_text(self.0 as u64))
        } else {
            String::from_str("UNKNOWN")
        }
    }
}

} // verus!
