use vstd::prelude::*;

verus! {

/// Where `Tree::attach` puts the new node, relative to the node it is called on.
#[derive(Clone, Copy, Debug, PartialEq, Eq, Structural)]
pub enum AttachTarget {
    FirstChild,
    LastChild,
    After,
    Before,
}

/// Why an attach was refused. Nothing is changed when one of these is returned.
#[derive(Clone, Copy, Debug, PartialEq, Eq, Structural)]
pub enum InvalidState {
    /// The node to attach already has a parent: detach it first.
    AlreadyAttached,
    /// `Before` or `After` was asked of a root, which has no sibling position.
    NoSiblingPosition,
    /// The new parent is the node itself or lies below it.
    WouldCycle,
}

} // verus!
