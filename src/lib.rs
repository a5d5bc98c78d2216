//! An n-ary tree whose nodes know their parent, their first and last child and
//! their previous and next sibling, kept in one arena and linked by index.
//!
//! A node is either a root, owned by whoever created or detached it, or the
//! child of exactly one parent, owned by that parent. Releasing a root frees it
//! together with everything attached below it, with an explicit work-list
//! rather than recursion.
mod node;
mod tree;

pub use node::{AttachTarget, InvalidState};
pub use tree::{Iter, Node, Parents, Tree};
