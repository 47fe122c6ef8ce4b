//! Leaves of the tree: the primary data of the tree.
use vstd::prelude::*;

use crate::text::DebugText;

verus! {

/// A wrapper for leaves in the tree, this contains the primary "data" of the tree (i.e.
/// material of a voxel).
#[derive(Copy, PartialEq, Eq, Debug)]
pub struct Leaf<L>(pub L);

impl<L: Copy> Clone for Leaf<L> {
    fn clone(&self) -> (r: Self)
        ensures
            r == *self,
    {
        *self
    }
}

impl<L: Copy> Leaf<L> {
    /// Returns a new leaf wrapping the given value.
    pub fn new(value: L) -> (leaf: Self)
        ensures
            leaf.0 == value,
    {
        Leaf(value)
    }

    /// Returns a reference to the value inside the leaf.
    pub fn get(&self) -> (r: &L)
        ensures
            *r == self.0,
    {
        &self.0
    }

    /// Returns a mutable reference to the value inside the leaf.
    pub fn get_mut(&mut self) -> (r: &mut L)
        ensures
            *r == old(self).0,
            final(self).0 == *final(r),
    {
        &mut self.0
    }

    /// Returns the value inside the leaf and consumes the leaf.
    pub fn into_inner(self) -> (r: L)
        ensures
            r == self.0,
    {
        self.0
    }
}

impl<L: DebugText> DebugText for Leaf<L> {
    open spec fn debug_text(&self) -> Seq<char> {
        "Leaf("@ + self.0.debug_text() + ")"@
    }

    fn push_debug(&self, out: &mut String) {
        proof {
            reveal_strlit("Leaf(");
            reveal_strlit(")");
        }
        out.append("Leaf(");
        self.0.push_debug(out);
        out.append(")");
        assert(final(out)@ =~= old(out)@ + self.debug_text());
    }
}

} // verus!
