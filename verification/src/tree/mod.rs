//! The sparse 64-tree: its depth type, the tree itself and its traversal.
use vstd::prelude::*;

use vstd::arithmetic::power2::pow2;

use crate::pool::{lemma_class_block_len, size_class, SlabPool};
use crate::text::DebugText;
use crate::tree::branch::{bit_at, branch_text, ones_below, popcount, Address, Branch, ChildMask};
use crate::tree::builder::well_built;
use crate::tree::leaf::Leaf;
use crate::tree::traversal::{
    step_value, TraversalContext, TraversalContextMut, TraversalStack, TraversalStep,
};
use crate::util::{
    block_by_count, coordinate_to_slot, localize_coordinate, localize_defined, localized, slot_of,
    Coordinate, CoordinatePackError,
};

pub mod branch;
pub mod builder;
pub mod leaf;
pub mod traversal;

verus! {

/// A wrapper for a `u8` representing the depth of a tree, branch, or leaf.
#[derive(Clone, Copy, PartialEq, Eq, Structural, PartialOrd, Ord)]
pub struct Depth(pub u8);

/// An error that can occur during traversal of a `Tree`.
#[derive(Clone, Copy, PartialEq, Eq, Structural, Debug)]
pub enum TraversalError {
    /// A block was not found in the slab allocator.
    BlockNotFound,
    /// An invalid coordinate was provided.
    InvalidCoordinate(CoordinatePackError),
}

/// A sparse 64-tree data structure for storing and traversing voxel data.
///
/// The tree is composed of branches and leaves. Branches point to other branches or to
/// leaves. Leaves store the actual data. The tree is traversed by coordinate, descending
/// from the root branch down to the desired depth.
pub struct Tree<L> {
    pub root: Branch,
    pub branches: SlabPool<Branch>,
    pub leaves: SlabPool<Leaf<L>>,
    pub max_depth: Depth,
}

/// The outcome of a traversal: the steps taken when it ends normally, `Missing` when a
/// branch refers to a block (or a child in a block) that does not exist, and `Undefined`
/// when the traversal cannot be carried out (a depth that cannot be localized, or a path
/// longer than the 16 steps a stack holds).
pub enum Walk {
    Reached(Seq<(u64, u8)>),
    Missing,
    Undefined,
}

/// `w` with the steps `p` taken before it.
pub open spec fn after_steps(p: Seq<(u64, u8)>, w: Walk) -> Walk {
    match w {
        Walk::Reached(rest) => Walk::Reached(p + rest),
        other => other,
    }
}

/// Taking steps `p` and then `q` before a traversal is taking `p + q` before it.
pub proof fn lemma_after_steps_assoc(p: Seq<(u64, u8)>, q: Seq<(u64, u8)>, w: Walk)
    ensures
        after_steps(p, after_steps(q, w)) == after_steps(p + q, w),
{
    match w {
        Walk::Reached(rest) => {
            assert(p + (q + rest) =~= (p + q) + rest);
        },
        _ => {},
    }
}

/// Whether `b` is solid: every set bit of its mask leads to its one child.
pub open spec fn is_solid_branch(b: Branch) -> bool {
    bit_at(b.address.0, 62)
}

/// The number of children that the block of `b` holds: one for a solid branch, one per set
/// bit of its mask otherwise.
pub open spec fn stored_children(b: Branch) -> nat {
    if is_solid_branch(b) {
        1
    } else {
        popcount(b.bitmask.0)
    }
}

/// The size class of the block that holds the children of `b`: a solid branch keeps its one
/// child in a one-slot block.
pub open spec fn children_class(b: Branch) -> int {
    size_class(stored_children(b) as int)
}

/// The position, in the block of `b`, of the child that slot `slot` leads to: the slot's
/// dense index, or the first position for a solid branch.
pub open spec fn child_position(b: Branch, slot: u8) -> int {
    if is_solid_branch(b) {
        0
    } else {
        ones_below(b.bitmask.0, slot as nat) as int
    }
}

/// The traversal towards coordinate `c`, from `branch` at depth `depth`, going no deeper
/// than `stop`, in `tree`.
///
/// At each depth the coordinate is localized and packed into a slot. A branch without
/// children ends the traversal. Otherwise the step into the slot is taken; it ends the
/// traversal when the slot holds no child, or when the branch is an end branch (whose leaf
/// block must exist). A fork branch continues with the child that the slot leads to in its
/// block of branches: the one at the slot's dense index, or, for a solid branch, the one
/// child in its one-slot block whatever set bit is taken.
pub open spec fn walk<L>(tree: Tree<L>, branch: Branch, c: Coordinate, depth: nat, stop: nat) -> Walk
    decreases stop + 1 - depth,
{
    if depth > stop {
        Walk::Reached(Seq::empty())
    } else if !localize_defined(Depth(depth as u8), tree.max_depth) {
        Walk::Undefined
    } else {
        let slot = slot_of(localized(c, Depth(depth as u8), tree.max_depth));
        let mask = branch.bitmask.0;
        let count = popcount(mask);
        let step = (branch.address.0, slot);
        let index = branch.address.index_spec() as int;
        if count == 0 {
            Walk::Reached(Seq::empty())
        } else if depth >= 16 {
            Walk::Undefined
        } else if !bit_at(mask, slot as nat) {
            Walk::Reached(seq![step])
        } else if bit_at(branch.address.0, 63) {
            if index < tree.leaves.class_state(children_class(branch)).0.len() {
                Walk::Reached(seq![step])
            } else {
                Walk::Missing
            }
        } else {
            let blocks = tree.branches.class_state(children_class(branch)).0;
            if index >= blocks.len() {
                Walk::Missing
            } else {
                match blocks[index][child_position(branch, slot)] {
                    None => Walk::Missing,
                    Some(child) => after_steps(seq![step], walk(tree, child, c, depth + 1, stop)),
                }
            }
        }
    }
}

/// At a fork that is not solid, a traversal that takes slot `s` (set in the fork's mask)
/// records the step into `s` and continues with the entry of the fork's block at the dense
/// index of `s`: the number of set bits of the mask below `s`.
pub proof fn lemma_walk_fork_takes_dense_child<L>(
    tree: Tree<L>,
    branch: Branch,
    c: Coordinate,
    depth: nat,
    stop: nat,
)
    requires
        depth <= stop,
        depth < 16,
        localize_defined(Depth(depth as u8), tree.max_depth),
        bit_at(branch.bitmask.0, slot_of(localized(c, Depth(depth as u8), tree.max_depth)) as nat),
        !bit_at(branch.address.0, 63),
        !bit_at(branch.address.0, 62),
        branch.address.index_spec() < tree.branches.class_state(
            size_class(popcount(branch.bitmask.0) as int),
        ).0.len(),
    ensures
        ({
            let s = slot_of(localized(c, Depth(depth as u8), tree.max_depth));
            let block = tree.branches.class_state(size_class(popcount(branch.bitmask.0) as int)).0[
                branch.address.index_spec() as int
            ];
            let entry = block[ones_below(branch.bitmask.0, s as nat) as int];
            &&& entry is Some ==> walk(tree, branch, c, depth, stop) == after_steps(
                seq![(branch.address.0, s)],
                walk(tree, entry->0, c, depth + 1, stop),
            )
            &&& entry is None ==> walk(tree, branch, c, depth, stop) is Missing
        }),
{
    let s = slot_of(localized(c, Depth(depth as u8), tree.max_depth));
    crate::util::lemma_localized_in_range(c, Depth(depth as u8), tree.max_depth);
    crate::tree::branch::lemma_ones_below_set_bit(branch.bitmask.0, s as nat, 64);
}

/// At a solid fork, a traversal that takes any slot `s` set in the fork's mask records the
/// step into `s` and continues with the one child kept in the fork's one-slot block.
pub proof fn lemma_walk_solid_takes_its_child<L>(
    tree: Tree<L>,
    branch: Branch,
    c: Coordinate,
    depth: nat,
    stop: nat,
)
    requires
        depth <= stop,
        depth < 16,
        localize_defined(Depth(depth as u8), tree.max_depth),
        bit_at(branch.bitmask.0, slot_of(localized(c, Depth(depth as u8), tree.max_depth)) as nat),
        !bit_at(branch.address.0, 63),
        bit_at(branch.address.0, 62),
        branch.address.index_spec() < tree.branches.class_state(0).0.len(),
    ensures
        ({
            let s = slot_of(localized(c, Depth(depth as u8), tree.max_depth));
            let entry = tree.branches.class_state(0).0[branch.address.index_spec() as int][0];
            &&& entry is Some ==> walk(tree, branch, c, depth, stop) == after_steps(
                seq![(branch.address.0, s)],
                walk(tree, entry->0, c, depth + 1, stop),
            )
            &&& entry is None ==> walk(tree, branch, c, depth, stop) is Missing
        }),
{
    let s = slot_of(localized(c, Depth(depth as u8), tree.max_depth));
    crate::util::lemma_localized_in_range(c, Depth(depth as u8), tree.max_depth);
    crate::tree::branch::lemma_ones_below_set_bit(branch.bitmask.0, s as nat, 64);
    assert(size_class(1) == 0);
}

impl<L> Tree<L> {
    /// Creates a new, empty `Tree` with the given `max_depth`.
    pub fn empty(max_depth: Depth) -> (t: Self)
        ensures
            t.root == (Branch { address: Address(0), bitmask: ChildMask(0) }),
            t.branches.is_empty_pool(),
            t.leaves.is_empty_pool(),
            t.max_depth == max_depth,
    {
        Tree {
            root: Branch { address: Address(0), bitmask: ChildMask(0) },
            branches: SlabPool::new(),
            leaves: SlabPool::new(),
            max_depth,
        }
    }

    /// The traversal of this tree towards `coordinate`, from the root, to depth `max_depth`.
    pub open spec fn walk_to(&self, coordinate: Coordinate, max_depth: Depth) -> Walk {
        walk(*self, self.root, coordinate, 0, max_depth.0 as nat)
    }

    /// Traverses the tree to the given `coordinate`, to depth `max_depth` at most, and
    /// returns an immutable [`TraversalContext`] holding the steps taken.
    pub fn at_depth<'a>(&'a self, coordinate: Coordinate, max_depth: Depth) -> (r: Result<
        TraversalContext<'a, L>,
        TraversalError,
    >)
        requires
            !(self.walk_to(coordinate, max_depth) is Undefined),
        ensures
            r matches Ok(ctx) ==> ctx.tree == self && self.walk_to(coordinate, max_depth)
                == Walk::Reached(ctx.stack@),
            r matches Err(e) ==> e == TraversalError::BlockNotFound && self.walk_to(
                coordinate,
                max_depth,
            ) is Missing,
    {
        let mut stack = TraversalStack::new();
        let mut current_branch = self.root;
        let stop = max_depth.0;
        let mut depth: u8 = 0;
        loop
            invariant
                depth <= stop,
                stack@.len() == depth,
                self.walk_to(coordinate, max_depth) == after_steps(
                    stack@,
                    walk(*self, current_branch, coordinate, depth as nat, stop as nat),
                ),
                !(self.walk_to(coordinate, max_depth) is Undefined),
                stop == max_depth.0,
            decreases stop - depth,
        {
            let ghost w = walk(*self, current_branch, coordinate, depth as nat, stop as nat);
            assert(localize_defined(Depth(depth), self.max_depth)) by {
                if !localize_defined(Depth(depth), self.max_depth) {
                    assert(w is Undefined);
                }
            }
            let local_coordinate = localize_coordinate(coordinate, Depth(depth), self.max_depth);
            let slot = match coordinate_to_slot(local_coordinate) {
                Ok(s) => s,
                Err(e) => return Err(TraversalError::InvalidCoordinate(e)),
            };
            let count = current_branch.bitmask.count();
            if count == 0 {
                proof {
                    assert(stack@ + Seq::<(u64, u8)>::empty() =~= stack@);
                }
                return Ok(TraversalContext { tree: self, stack });
            }
            let dense_index = current_branch.bitmask.dense_index_of(slot);
            let step = TraversalStep { to: current_branch.address, slot };
            assert(depth < 16) by {
                if depth >= 16 {
                    assert(w is Undefined);
                }
            }
            let ghost before = stack@;
            stack.push(step);
            proof {
                assert(before + seq![step_value(step)] =~= stack@);
            }
            let present = match current_branch.bitmask.get(local_coordinate) {
                Ok(b) => b,
                Err(e) => return Err(TraversalError::InvalidCoordinate(e)),
            };
            if !present {
                return Ok(TraversalContext { tree: self, stack });
            }
            let index = current_branch.address.index();
            let solid = current_branch.is_solid();
            let stored: u32 = if solid { 1 } else { count };
            let position: usize = if solid { 0 } else { dense_index };
            if current_branch.is_end() {
                match block_by_count(&self.leaves, stored, index) {
                    Some(_) => {
                        return Ok(TraversalContext { tree: self, stack });
                    },
                    None => {
                        return Err(TraversalError::BlockNotFound);
                    },
                }
            } else {
                let next = match block_by_count(&self.branches, stored, index) {
                    Some(block) => {
                        proof {
                            crate::tree::branch::lemma_ones_below_set_bit(
                                current_branch.bitmask.0,
                                slot@ as nat,
                                64,
                            );
                            lemma_class_block_len(self.branches, size_class(stored as int), index as int);
                        }
                        block[position]
                    },
                    None => {
                        return Err(TraversalError::BlockNotFound);
                    },
                };
                match next {
                    Some(child) => {
                        proof {
                            lemma_after_steps_assoc(
                                before,
                                seq![step_value(step)],
                                walk(*self, child, coordinate, depth as nat + 1, stop as nat),
                            );
                        }
                        current_branch = child;
                    },
                    None => {
                        return Err(TraversalError::BlockNotFound);
                    },
                }
            }
            if depth == stop {
                proof {
                    assert(stack@ + Seq::<(u64, u8)>::empty() =~= stack@);
                }
                return Ok(TraversalContext { tree: self, stack });
            }
            depth = depth + 1;
        }
    }

    /// Traverses the tree to the given `coordinate` and `max_depth` and returns a mutable
    /// [`TraversalContextMut`].
    pub fn at_depth_mut<'a>(&'a mut self, coordinate: Coordinate, max_depth: Depth) -> (r: Result<
        TraversalContextMut<'a, L>,
        TraversalError,
    >)
        requires
            !(old(self).walk_to(coordinate, max_depth) is Undefined),
        ensures
            r matches Ok(ctx) ==> *ctx.tree == *old(self) && old(self).walk_to(coordinate, max_depth)
                == Walk::Reached(ctx.stack@) && *final(self) == *final(ctx.tree),
            r matches Err(e) ==> e == TraversalError::BlockNotFound && old(self).walk_to(
                coordinate,
                max_depth,
            ) is Missing && *final(self) == *old(self),
    {
        let stack = match self.at_depth(coordinate, max_depth) {
            Ok(ctx) => ctx.stack,
            Err(e) => return Err(e),
        };
        Ok(TraversalContextMut { stack, tree: self })
    }

    /// Whether a traversal towards `coordinate`, to depth `max_depth`, can be carried out:
    /// every depth it reaches can be localized, and it takes at most 16 steps. This is what
    /// [`Tree::at_depth`] requires.
    pub fn traversal_defined(&self, coordinate: Coordinate, max_depth: Depth) -> (r: bool)
        ensures
            r == !(self.walk_to(coordinate, max_depth) is Undefined),
    {
        let mut current_branch = self.root;
        let stop = max_depth.0;
        let mut depth: u8 = 0;
        loop
            invariant
                depth <= stop,
                stop == max_depth.0,
                (self.walk_to(coordinate, max_depth) is Undefined) == (walk(
                    *self,
                    current_branch,
                    coordinate,
                    depth as nat,
                    stop as nat,
                ) is Undefined),
            decreases stop - depth,
        {
            let m: u8 = self.max_depth.0 << 1;
            let d: u8 = depth << 1;
            let md = self.max_depth.0;
            let dd = depth;
            assert(m == (md * 2) % 256 && d == (dd * 2) % 256) by (bit_vector)
                requires
                    m == md << 1,
                    d == dd << 1,
            ;
            if m < d || m - d >= 32 {
                return false;
            }
            let local_coordinate = localize_coordinate(coordinate, Depth(depth), self.max_depth);
            proof {
                crate::util::lemma_localized_in_range(coordinate, Depth(depth), self.max_depth);
            }
            let slot = coordinate_to_slot(local_coordinate).unwrap();
            let count = current_branch.bitmask.count();
            if count == 0 {
                return true;
            }
            if depth >= 16 {
                return false;
            }
            let dense_index = current_branch.bitmask.dense_index_of(slot);
            let present = current_branch.bitmask.get(local_coordinate).unwrap();
            if !present || current_branch.is_end() {
                return true;
            }
            let index = current_branch.address.index();
            let solid = current_branch.is_solid();
            let stored: u32 = if solid { 1 } else { count };
            let position: usize = if solid { 0 } else { dense_index };
            let next = match block_by_count(&self.branches, stored, index) {
                Some(block) => {
                    proof {
                        crate::tree::branch::lemma_ones_below_set_bit(
                            current_branch.bitmask.0,
                            slot@ as nat,
                            64,
                        );
                        lemma_class_block_len(self.branches, size_class(stored as int), index as int);
                    }
                    block[position]
                },
                None => {
                    return true;
                },
            };
            match next {
                Some(child) => {
                    proof {
                        let w = walk(*self, child, coordinate, depth as nat + 1, stop as nat);
                        assert((after_steps(seq![(current_branch.address.0, slot@)], w) is Undefined)
                            == (w is Undefined));
                    }
                    current_branch = child;
                },
                None => {
                    return true;
                },
            }
            if depth == stop {
                assert(walk(*self, current_branch, coordinate, depth as nat + 1, stop as nat) is Reached);
                return true;
            }
            depth = depth + 1;
        }
    }

    /// Traverses the tree to the given `coordinate`, down to the tree's depth, and returns
    /// an immutable [`TraversalContext`].
    pub fn at<'a>(&'a self, coordinate: Coordinate) -> (r: Result<TraversalContext<'a, L>, TraversalError>)
        requires
            !(self.walk_to(coordinate, self.max_depth) is Undefined),
        ensures
            r matches Ok(ctx) ==> ctx.tree == self && self.walk_to(coordinate, self.max_depth)
                == Walk::Reached(ctx.stack@),
            r matches Err(e) ==> e == TraversalError::BlockNotFound && self.walk_to(
                coordinate,
                self.max_depth,
            ) is Missing,
    {
        self.at_depth(coordinate, self.max_depth)
    }

    /// Traverses the tree to the given `coordinate`, down to the tree's depth, and returns a
    /// mutable [`TraversalContextMut`].
    pub fn at_mut<'a>(&'a mut self, coordinate: Coordinate) -> (r: Result<
        TraversalContextMut<'a, L>,
        TraversalError,
    >)
        requires
            !(old(self).walk_to(coordinate, old(self).max_depth) is Undefined),
        ensures
            r matches Ok(ctx) ==> *ctx.tree == *old(self) && old(self).walk_to(
                coordinate,
                old(self).max_depth,
            ) == Walk::Reached(ctx.stack@) && *final(self) == *final(ctx.tree),
            r matches Err(e) ==> e == TraversalError::BlockNotFound && old(self).walk_to(
                coordinate,
                old(self).max_depth,
            ) is Missing && *final(self) == *old(self),
    {
        let max_depth = self.max_depth;
        self.at_depth_mut(coordinate, max_depth)
    }
}

impl Depth {
    /// Calculates the side length of a voxel at this depth: `1 << (self << 1)`, the doubling
    /// taken in `u8`.
    pub fn dimension_size(&self) -> (r: u32)
        requires
            (self.0 * 2) % 256 < 32,
        ensures
            r == pow2(((self.0 * 2) % 256) as nat),
    {
        let d = self.0;
        let shift: u8 = d << 1;
        assert(shift == (d * 2) % 256) by (bit_vector)
            requires
                shift == d << 1,
        ;
        let r: u32 = 1u32 << shift;
        proof {
            vstd::bits::lemma_u32_pow2_no_overflow(shift as nat);
            vstd::bits::lemma_u32_shl_is_mul(1, shift as u32);
        }
        r
    }

    /// Renders the depth as `Depth(n)`.
    pub fn debug_string(&self) -> (s: String)
        ensures
            s@ == depth_text(self.0),
    {
        proof {
            reveal_strlit("Depth(");
            reveal_strlit(")");
        }
        let mut s = String::new();
        s.append("Depth(");
        crate::text::push_decimal(&mut s, self.0 as u64);
        s.append(")");
        s
    }
}

/// `Depth(n)`.
pub open spec fn depth_text(d: u8) -> Seq<char> {
    "Depth("@ + crate::text::dec_digits(d as nat) + ")"@
}

impl core::ops::Deref for Depth {
    type Target = u8;

    fn deref(&self) -> (r: &u8)
        ensures
            *r == self.0,
    {
        &self.0
    }
}

/// A traversal that reaches its end takes at most one step per depth from `depth` to
/// `stop`; its first step leaves from `b`, and its step at each depth goes into the slot
/// of the coordinate localized to that depth.
pub proof fn lemma_walk_steps<L>(tree: Tree<L>, b: Branch, c: Coordinate, depth: nat, stop: nat)
    requires
        depth <= stop + 1,
    ensures
        walk(tree, b, c, depth, stop) matches Walk::Reached(steps) ==> {
            &&& steps.len() <= stop + 1 - depth
            &&& steps.len() > 0 ==> steps[0].0 == b.address.0
            &&& forall|k: int|
                0 <= k < steps.len() ==> #[trigger] steps[k].1 == slot_of(
                    localized(c, Depth((depth + k) as u8), tree.max_depth),
                )
        },
    decreases stop + 1 - depth,
{
    if depth <= stop && localize_defined(Depth(depth as u8), tree.max_depth) {
        let slot = slot_of(localized(c, Depth(depth as u8), tree.max_depth));
        let mask = b.bitmask.0;
        let count = popcount(mask);
        let step = (b.address.0, slot);
        if count > 0 && depth < 16 && bit_at(mask, slot as nat) && !bit_at(b.address.0, 63) {
            let blocks = tree.branches.class_state(children_class(b)).0;
            let index = b.address.index_spec() as int;
            if index < blocks.len() {
                let entry = blocks[index][child_position(b, slot)];
                if let Some(child) = entry {
                    lemma_walk_steps(tree, child, c, depth + 1, stop);
                    if let Walk::Reached(rest) = walk(tree, child, c, depth + 1, stop) {
                        let steps = seq![step] + rest;
                        assert forall|k: int| 0 <= k < steps.len() implies #[trigger] steps[k].1
                            == slot_of(localized(c, Depth((depth + k) as u8), tree.max_depth)) by {
                            if k > 0 {
                                assert(steps[k] == rest[k - 1]);
                                assert(depth + 1 + (k - 1) == depth + k);
                            }
                        }
                    }
                }
            }
        }
    }
}

/// A tree of depth at most 15 can be traversed at every coordinate, to any depth up to its
/// own: every depth can be localized and the path fits in a stack.
pub proof fn lemma_shallow_walk_defined<L>(tree: Tree<L>, b: Branch, c: Coordinate, depth: nat, stop: nat)
    requires
        stop <= tree.max_depth.0 <= 15,
    ensures
        !(walk(tree, b, c, depth, stop) is Undefined),
    decreases stop + 1 - depth,
{
    if depth <= stop {
        let md = tree.max_depth.0;
        assert((md * 2) % 256 == md * 2);
        assert(((depth as u8) * 2) % 256 == depth * 2);
        let slot = slot_of(localized(c, Depth(depth as u8), tree.max_depth));
        let mask = b.bitmask.0;
        let count = popcount(mask);
        if count > 0 && bit_at(mask, slot as nat) && !bit_at(b.address.0, 63) {
            let blocks = tree.branches.class_state(children_class(b)).0;
            let index = b.address.index_spec() as int;
            if index < blocks.len() {
                let entry = blocks[index][child_position(b, slot)];
                if let Some(child) = entry {
                    lemma_shallow_walk_defined(tree, child, c, depth + 1, stop);
                }
            }
        }
    }
}

/// Traversing a tree whose root has no children takes no step.
pub proof fn lemma_childless_root_walk<L>(tree: Tree<L>, c: Coordinate, max_depth: Depth)
    requires
        tree.root.bitmask.0 == 0,
        localize_defined(Depth(0), tree.max_depth),
    ensures
        tree.walk_to(c, max_depth) == Walk::Reached(Seq::<(u64, u8)>::empty()),
{
    crate::tree::branch::lemma_popcount_zero_iff(0);
}

/// The connector drawn before a branch: a closing corner for the last child.
pub open spec fn branch_connector(is_last: bool) -> Seq<char> {
    if is_last {
        "└── "@
    } else {
        "├── "@
    }
}

/// The connector drawn before a leaf: a closing corner for the last child.
pub open spec fn leaf_connector(is_last: bool) -> Seq<char> {
    if is_last {
        "└─▶ "@
    } else {
        "├─▶ "@
    }
}

/// What the children of a branch add to the prefix of their lines.
pub open spec fn child_prefix(is_last: bool) -> Seq<char> {
    if is_last {
        "    "@
    } else {
        "│   "@
    }
}

/// The lines of the first `n` of the `count` leaves of `block`, or `None` when one of them
/// is a vacant slot.
pub open spec fn leaf_lines<L: DebugText>(
    block: Seq<Option<Leaf<L>>>,
    prefix: Seq<char>,
    count: nat,
    n: nat,
) -> Option<Seq<char>>
    decreases n,
{
    if n == 0 {
        Some(Seq::empty())
    } else {
        match (leaf_lines(block, prefix, count, (n - 1) as nat), block[n - 1]) {
            (Some(t), Some(leaf)) => Some(
                t + prefix + leaf_connector(n == count) + leaf.debug_text() + "\n"@,
            ),
            _ => None,
        }
    }
}

/// The lines of a branch and, below it, of its children (the one child of a solid branch is
/// drawn once); `None` when the rendering reads a vacant slot or does not end within
/// `fuel` levels.
pub open spec fn branch_lines<L: DebugText>(
    tree: Tree<L>,
    b: Branch,
    prefix: Seq<char>,
    is_last: bool,
    fuel: nat,
) -> Option<Seq<char>>
    decreases fuel, 0nat,
{
    if fuel == 0 {
        None
    } else {
        let line = prefix + branch_connector(is_last) + branch_text(b) + "\n"@;
        let np = prefix + child_prefix(is_last);
        let count = popcount(b.bitmask.0);
        let n = stored_children(b);
        let index = b.address.index_spec() as int;
        if count == 0 {
            Some(line)
        } else if bit_at(b.address.0, 63) {
            let blocks = tree.leaves.class_state(children_class(b)).0;
            if index >= blocks.len() {
                Some(line)
            } else {
                match leaf_lines(blocks[index], np, n, n) {
                    Some(t) => Some(line + t),
                    None => None,
                }
            }
        } else {
            let blocks = tree.branches.class_state(children_class(b)).0;
            if index >= blocks.len() {
                Some(line)
            } else {
                match child_lines(tree, blocks[index], np, n, n, (fuel - 1) as nat) {
                    Some(t) => Some(line + t),
                    None => None,
                }
            }
        }
    }
}

/// The renderings of the first `n` of the `count` child branches of `block`.
pub open spec fn child_lines<L: DebugText>(
    tree: Tree<L>,
    block: Seq<Option<Branch>>,
    prefix: Seq<char>,
    count: nat,
    n: nat,
    fuel: nat,
) -> Option<Seq<char>>
    decreases fuel, n + 1,
{
    if n == 0 {
        Some(Seq::empty())
    } else {
        match child_lines(tree, block, prefix, count, (n - 1) as nat, fuel) {
            Some(t) => match block[n - 1] {
                Some(child) => match branch_lines(tree, child, prefix, n == count, fuel) {
                    Some(u) => Some(t + u),
                    None => None,
                },
                None => None,
            },
            None => None,
        }
    }
}

/// The header of a tree's rendering.
pub open spec fn tree_header(max_depth: u8) -> Seq<char> {
    "Tree { max_depth: "@ + depth_text(max_depth) + " }\nTree Structure:\n"@
}

/// Whether a tree can be rendered: its rendering reads no vacant slot and ends.
pub open spec fn renderable<L: DebugText>(tree: Tree<L>) -> bool {
    exists|fuel: nat| branch_lines(tree, tree.root, Seq::empty(), true, fuel) is Some
}

/// The rendering of a renderable tree: its header, then one line per branch and leaf.
pub open spec fn tree_text<L: DebugText>(tree: Tree<L>) -> Seq<char> {
    let fuel = choose|fuel: nat| branch_lines(tree, tree.root, Seq::empty(), true, fuel) is Some;
    tree_header(tree.max_depth.0) + branch_lines(tree, tree.root, Seq::empty(), true, fuel)->0
}

/// More fuel renders the same text.
pub proof fn lemma_branch_lines_fuel<L: DebugText>(
    tree: Tree<L>,
    b: Branch,
    prefix: Seq<char>,
    is_last: bool,
    f1: nat,
    f2: nat,
)
    requires
        f1 <= f2,
        branch_lines(tree, b, prefix, is_last, f1) is Some,
    ensures
        branch_lines(tree, b, prefix, is_last, f2) == branch_lines(tree, b, prefix, is_last, f1),
    decreases f1, 0nat,
{
    let count = popcount(b.bitmask.0);
    let index = b.address.index_spec() as int;
    let np = prefix + child_prefix(is_last);
    let n = stored_children(b);
    if count > 0 && !bit_at(b.address.0, 63) {
        let blocks = tree.branches.class_state(children_class(b)).0;
        if index < blocks.len() {
            lemma_child_lines_fuel(tree, blocks[index], np, n, n, (f1 - 1) as nat, (f2 - 1) as nat);
        }
    }
}

/// More fuel renders the same children.
pub proof fn lemma_child_lines_fuel<L: DebugText>(
    tree: Tree<L>,
    block: Seq<Option<Branch>>,
    prefix: Seq<char>,
    count: nat,
    n: nat,
    f1: nat,
    f2: nat,
)
    requires
        f1 <= f2,
        child_lines(tree, block, prefix, count, n, f1) is Some,
    ensures
        child_lines(tree, block, prefix, count, n, f2) == child_lines(tree, block, prefix, count, n, f1),
    decreases f1, n + 1,
{
    if n > 0 {
        lemma_child_lines_fuel(tree, block, prefix, count, (n - 1) as nat, f1, f2);
        let child = block[n - 1]->0;
        lemma_branch_lines_fuel(tree, child, prefix, n == count, f1, f2);
    }
}

impl<L: DebugText> Tree<L> {
    /// Appends the line of `leaf`, drawn with `prefix` and its connector.
    fn fmt_leaf(&self, leaf: &Leaf<L>, prefix: &String, is_last: bool, out: &mut String)
        ensures
            final(out)@ == old(out)@ + prefix@ + leaf_connector(is_last) + leaf.debug_text()
                + "\n"@,
    {
        proof {
            reveal_strlit("└─▶ ");
            reveal_strlit("├─▶ ");
            reveal_strlit("\n");
        }
        out.append(prefix.as_str());
        if is_last {
            out.append("└─▶ ");
        } else {
            out.append("├─▶ ");
        }
        leaf.push_debug(out);
        out.append("\n");
        assert(final(out)@ =~= old(out)@ + prefix@ + leaf_connector(is_last) + leaf.debug_text()
            + "\n"@);
    }

    /// Appends the lines of `branch` and of everything below it.
    fn fmt_branch(
        &self,
        branch: &Branch,
        prefix: &String,
        is_last: bool,
        out: &mut String,
        Ghost(fuel): Ghost<nat>,
    )
        requires
            branch_lines(*self, *branch, prefix@, is_last, fuel) is Some,
        ensures
            final(out)@ == old(out)@ + branch_lines(*self, *branch, prefix@, is_last, fuel)->0,
        decreases fuel,
    {
        proof {
            reveal_strlit("└── ");
            reveal_strlit("├── ");
            reveal_strlit("    ");
            reveal_strlit("│   ");
            reveal_strlit("\n");
        }
        out.append(prefix.as_str());
        if is_last {
            out.append("└── ");
        } else {
            out.append("├── ");
        }
        branch.debug_into(out);
        out.append("\n");
        let ghost line = prefix@ + branch_connector(is_last) + branch_text(*branch) + "\n"@;
        assert(out@ =~= old(out)@ + line);
        let mut new_prefix = prefix.clone();
        if is_last {
            new_prefix.append("    ");
        } else {
            new_prefix.append("│   ");
        }
        assert(new_prefix@ =~= prefix@ + child_prefix(is_last));
        let count = branch.bitmask.count();
        if count > 0 {
            let index = branch.address.index();
            let n: u32 = if branch.is_solid() { 1 } else { count };
            if branch.is_end() {
                if let Some(block) = block_by_count(&self.leaves, n, index) {
                    proof {
                        lemma_class_block_len(self.leaves, size_class(n as int), index as int);
                    }
                    let ghost base = out@;
                    let mut i: usize = 0;
                    while i < n as usize
                        invariant
                            i <= n,
                            n == stored_children(*branch),
                            1 <= n <= 64,
                            n <= block@.len(),
                            leaf_lines(block@, new_prefix@, n as nat, n as nat) is Some,
                            out@ == base + leaf_lines(block@, new_prefix@, n as nat, i as nat)->0,
                            leaf_lines(block@, new_prefix@, n as nat, i as nat) is Some,
                        decreases n - i,
                    {
                        proof {
                            lemma_leaf_lines_prefix(block@, new_prefix@, n as nat, (i + 1) as nat, n as nat);
                        }
                        match &block[i] {
                            Some(leaf) => {
                                self.fmt_leaf(leaf, &new_prefix, i == n as usize - 1, out);
                            },
                            None => {
                                assert(false);
                            },
                        }
                        proof {
                            assert(out@ =~= base + leaf_lines(block@, new_prefix@, n as nat, (i + 1) as nat)->0);
                        }
                        i = i + 1;
                    }
                }
            } else {
                if let Some(block) = block_by_count(&self.branches, n, index) {
                    proof {
                        lemma_class_block_len(self.branches, size_class(n as int), index as int);
                    }
                    let ghost base = out@;
                    let ghost cf = (fuel - 1) as nat;
                    let mut i: usize = 0;
                    while i < n as usize
                        invariant
                            i <= n,
                            n == stored_children(*branch),
                            1 <= n <= 64,
                            n <= block@.len(),
                            fuel >= 1,
                            cf == fuel - 1,
                            child_lines(*self, block@, new_prefix@, n as nat, n as nat, cf) is Some,
                            out@ == base + child_lines(*self, block@, new_prefix@, n as nat, i as nat, cf)->0,
                            child_lines(*self, block@, new_prefix@, n as nat, i as nat, cf) is Some,
                        decreases n - i,
                    {
                        proof {
                            lemma_child_lines_prefix(*self, block@, new_prefix@, n as nat, (i + 1) as nat, n as nat, cf);
                        }
                        match &block[i] {
                            Some(child) => {
                                self.fmt_branch(child, &new_prefix, i == n as usize - 1, out, Ghost(cf));
                            },
                            None => {
                                assert(false);
                            },
                        }
                        proof {
                            assert(out@ =~= base + child_lines(*self, block@, new_prefix@, n as nat, (i + 1) as nat, cf)->0);
                        }
                        i = i + 1;
                    }
                }
            }
        }
    }

    /// Renders the tree: a header with its depth, then one line per branch and per leaf,
    /// drawn as an indented tree below the root.
    pub fn debug_string(&self) -> (s: String)
        requires
            renderable(*self),
        ensures
            s@ == tree_text(*self),
    {
        proof {
            reveal_strlit("Tree { max_depth: ");
            reveal_strlit(" }\nTree Structure:\n");
        }
        let mut s = String::new();
        s.append("Tree { max_depth: ");
        let d = self.max_depth.debug_string();
        s.append(d.as_str());
        s.append(" }\nTree Structure:\n");
        let ghost fuel = choose|fuel: nat| branch_lines(*self, self.root, Seq::empty(), true, fuel) is Some;
        let empty = String::new();
        let root = self.root;
        self.fmt_branch(&root, &empty, true, &mut s, Ghost(fuel));
        assert(s@ =~= tree_text(*self));
        s
    }
}

/// The leaves rendered so far are a prefix: rendering `n` leaves succeeds when rendering
/// `m >= n` does.
pub proof fn lemma_leaf_lines_prefix<L: DebugText>(
    block: Seq<Option<Leaf<L>>>,
    prefix: Seq<char>,
    count: nat,
    n: nat,
    m: nat,
)
    requires
        n <= m,
        leaf_lines(block, prefix, count, m) is Some,
    ensures
        leaf_lines(block, prefix, count, n) is Some,
        n >= 1 ==> block[n - 1] is Some,
    decreases m - n,
{
    if n < m {
        lemma_leaf_lines_prefix(block, prefix, count, n + 1, m);
    }
}

/// The children rendered so far are a prefix: rendering `n` children succeeds when
/// rendering `m >= n` does.
pub proof fn lemma_child_lines_prefix<L: DebugText>(
    tree: Tree<L>,
    block: Seq<Option<Branch>>,
    prefix: Seq<char>,
    count: nat,
    n: nat,
    m: nat,
    fuel: nat,
)
    requires
        n <= m,
        child_lines(tree, block, prefix, count, m, fuel) is Some,
    ensures
        child_lines(tree, block, prefix, count, n, fuel) is Some,
        n >= 1 ==> block[n - 1] is Some && branch_lines(tree, block[n - 1]->0, prefix, n == count, fuel) is Some,
    decreases m - n,
{
    if n < m {
        lemma_child_lines_prefix(tree, block, prefix, count, n + 1, m, fuel);
    }
}

/// The lines of a well-built branch with `height` fork levels below it render within
/// `height + 1` levels.
pub proof fn lemma_well_built_lines<L: DebugText>(
    tree: Tree<L>,
    leaf: Leaf<L>,
    b: Branch,
    height: nat,
    prefix: Seq<char>,
    is_last: bool,
)
    requires
        well_built(tree.branches, tree.leaves, leaf, b, height),
    ensures
        branch_lines(tree, b, prefix, is_last, height + 1) is Some,
    decreases height, 1nat, 0nat,
{
    reveal(well_built);
    let count = popcount(b.bitmask.0);
    let np = prefix + child_prefix(is_last);
    let index = b.address.index_spec() as int;
    if count > 0 {
        if height == 0 {
            let blocks = tree.leaves.class_state(size_class(count as int)).0;
            lemma_leaf_lines_filled(blocks[index], leaf, np, count, count);
        } else {
            let blocks = tree.branches.class_state(size_class(count as int)).0;
            lemma_well_built_child_lines(tree, leaf, blocks[index], (height - 1) as nat, np, count, count);
        }
    }
}

/// The first `n` leaf lines below an end branch with `count` leaves are those leaves in
/// order, one line each, with a closing corner on leaf `count - 1` only.
proof fn lemma_leaf_lines_in_order<L: DebugText>(
    block: Seq<Option<Leaf<L>>>,
    prefix: Seq<char>,
    count: nat,
    n: nat,
)
    requires
        n <= count,
        forall|i: int| 0 <= i < count ==> (#[trigger] block[i]) is Some,
    ensures
        leaf_lines(block, prefix, count, n) == Some(
            Seq::new(
                n,
                |i: int|
                    prefix + (if i + 1 == count {
                        "└─▶ "@
                    } else {
                        "├─▶ "@
                    }) + block[i]->0.debug_text() + "\n"@,
            ).flatten_alt(),
        ),
    decreases n,
{
    if n > 0 {
        lemma_leaf_lines_in_order(block, prefix, count, (n - 1) as nat);
        let line = |i: int|
            prefix + (if i + 1 == count {
                "└─▶ "@
            } else {
                "├─▶ "@
            }) + block[i]->0.debug_text() + "\n"@;
        let lines = Seq::new(n, line);
        assert(block[n - 1] is Some);
        assert(lines.drop_last() =~= Seq::new((n - 1) as nat, line));
        assert(leaf_lines(block, prefix, count, n)->0 =~= lines.drop_last().flatten_alt()
            + lines.last());
    }
}

/// The rendering of a non-empty end branch whose leaf block holds its leaves is the
/// branch's line followed by one line per leaf, in slot order: of its `n` leaves, leaf `i`
/// is drawn with a closing corner `└─▶` exactly when `i == n - 1`, and with a tee `├─▶`
/// otherwise.
pub proof fn lemma_end_branch_lines<L: DebugText>(
    tree: Tree<L>,
    b: Branch,
    prefix: Seq<char>,
    is_last: bool,
    fuel: nat,
)
    requires
        fuel > 0,
        popcount(b.bitmask.0) > 0,
        bit_at(b.address.0, 63),
        ({
            let blocks = tree.leaves.class_state(children_class(b)).0;
            let index = b.address.index_spec() as int;
            &&& index < blocks.len()
            &&& forall|i: int| 0 <= i < stored_children(b) ==> (#[trigger] blocks[index][i]) is Some
        }),
    ensures
        ({
            let block = tree.leaves.class_state(children_class(b)).0[b.address.index_spec() as int];
            let n = stored_children(b);
            let np = prefix + if is_last {
                "    "@
            } else {
                "│   "@
            };
            branch_lines(tree, b, prefix, is_last, fuel) == Some(
                prefix + (if is_last {
                    "└── "@
                } else {
                    "├── "@
                }) + branch_text(b) + "\n"@ + Seq::new(
                    n,
                    |i: int|
                        np + (if i + 1 == n {
                            "└─▶ "@
                        } else {
                            "├─▶ "@
                        }) + block[i]->0.debug_text() + "\n"@,
                ).flatten(),
            )
        }),
{
    let block = tree.leaves.class_state(children_class(b)).0[b.address.index_spec() as int];
    let n = stored_children(b);
    let np = prefix + child_prefix(is_last);
    let lines = Seq::new(
        n,
        |i: int|
            np + (if i + 1 == n {
                "└─▶ "@
            } else {
                "├─▶ "@
            }) + block[i]->0.debug_text() + "\n"@,
    );
    lemma_leaf_lines_in_order(block, np, n, n);
    lines.lemma_flatten_and_flatten_alt_are_equivalent();
}

/// The first `n` child renderings below a fork with `count` children are those children in
/// order, child `count - 1` drawn as the last.
proof fn lemma_child_lines_in_order<L: DebugText>(
    tree: Tree<L>,
    block: Seq<Option<Branch>>,
    prefix: Seq<char>,
    count: nat,
    n: nat,
    fuel: nat,
)
    requires
        n <= count,
        forall|i: int|
            0 <= i < count ==> (#[trigger] block[i]) is Some && branch_lines(
                tree,
                block[i]->0,
                prefix,
                i + 1 == count,
                fuel,
            ) is Some,
    ensures
        child_lines(tree, block, prefix, count, n, fuel) == Some(
            Seq::new(
                n,
                |i: int| branch_lines(tree, block[i]->0, prefix, i + 1 == count, fuel)->0,
            ).flatten_alt(),
        ),
    decreases n,
{
    if n > 0 {
        lemma_child_lines_in_order(tree, block, prefix, count, (n - 1) as nat, fuel);
        let line = |i: int| branch_lines(tree, block[i]->0, prefix, i + 1 == count, fuel)->0;
        let lines = Seq::new(n, line);
        assert(block[n - 1] is Some);
        assert(lines.drop_last() =~= Seq::new((n - 1) as nat, line));
        assert(child_lines(tree, block, prefix, count, n, fuel)->0 =~= lines.drop_last().flatten_alt()
            + lines.last());
    }
}

/// The rendering of a non-empty fork whose block holds its children is the fork's line,
/// drawn with a closing corner `└──` when it is the last child and a tee `├──` otherwise,
/// followed by the renderings of its `n` children in slot order, one level deeper: child
/// `i` is drawn as the last exactly when `i == n - 1`, and its lines carry the fork's
/// prefix extended by blanks below a last child and by a bar `│` otherwise.
pub proof fn lemma_fork_lines<L: DebugText>(
    tree: Tree<L>,
    b: Branch,
    prefix: Seq<char>,
    is_last: bool,
    fuel: nat,
)
    requires
        fuel > 0,
        popcount(b.bitmask.0) > 0,
        !bit_at(b.address.0, 63),
        ({
            let blocks = tree.branches.class_state(children_class(b)).0;
            let index = b.address.index_spec() as int;
            let n = stored_children(b);
            let np = prefix + child_prefix(is_last);
            &&& index < blocks.len()
            &&& forall|i: int|
                0 <= i < n ==> (#[trigger] blocks[index][i]) is Some && branch_lines(
                    tree,
                    blocks[index][i]->0,
                    np,
                    i + 1 == n,
                    (fuel - 1) as nat,
                ) is Some
        }),
    ensures
        ({
            let block = tree.branches.class_state(children_class(b)).0[b.address.index_spec() as int];
            let n = stored_children(b);
            let np = prefix + if is_last {
                "    "@
            } else {
                "│   "@
            };
            branch_lines(tree, b, prefix, is_last, fuel) == Some(
                prefix + (if is_last {
                    "└── "@
                } else {
                    "├── "@
                }) + branch_text(b) + "\n"@ + Seq::new(
                    n,
                    |i: int| branch_lines(tree, block[i]->0, np, i + 1 == n, (fuel - 1) as nat)->0,
                ).flatten(),
            )
        }),
{
    let block = tree.branches.class_state(children_class(b)).0[b.address.index_spec() as int];
    let n = stored_children(b);
    let np = prefix + child_prefix(is_last);
    let lines = Seq::new(
        n,
        |i: int| branch_lines(tree, block[i]->0, np, i + 1 == n, (fuel - 1) as nat)->0,
    );
    lemma_child_lines_in_order(tree, block, np, n, n, (fuel - 1) as nat);
    lines.lemma_flatten_and_flatten_alt_are_equivalent();
}

proof fn lemma_leaf_lines_filled<L: DebugText>(
    block: Seq<Option<Leaf<L>>>,
    leaf: Leaf<L>,
    prefix: Seq<char>,
    count: nat,
    n: nat,
)
    requires
        n <= count,
        forall|j: int| 0 <= j < count ==> #[trigger] block[j] == Some(leaf),
    ensures
        leaf_lines(block, prefix, count, n) is Some,
    decreases n,
{
    if n > 0 {
        lemma_leaf_lines_filled(block, leaf, prefix, count, (n - 1) as nat);
        assert(block[n - 1] == Some(leaf));
    }
}

proof fn lemma_well_built_child_lines<L: DebugText>(
    tree: Tree<L>,
    leaf: Leaf<L>,
    block: Seq<Option<Branch>>,
    height: nat,
    prefix: Seq<char>,
    count: nat,
    n: nat,
)
    requires
        n <= count,
        forall|j: int|
            0 <= j < count ==> (#[trigger] block[j] is Some && popcount(block[j]->0.bitmask.0) > 0
                && well_built(tree.branches, tree.leaves, leaf, block[j]->0, height)),
    ensures
        child_lines(tree, block, prefix, count, n, height + 1) is Some,
    decreases height + 1, 0nat, n,
{
    if n > 0 {
        lemma_well_built_child_lines(tree, leaf, block, height, prefix, count, (n - 1) as nat);
        assert(block[n - 1] is Some);
        lemma_well_built_lines(tree, leaf, block[n - 1]->0, height, prefix, n == count);
    }
}

/// A tree whose root is well-built can be rendered: in a tree built by
/// [`builder::Builder::filled_from_masks`] the rendering reads no vacant slot and ends.
pub proof fn lemma_built_tree_renderable<L: DebugText>(tree: Tree<L>, leaf: Leaf<L>, height: nat)
    requires
        well_built(tree.branches, tree.leaves, leaf, tree.root, height),
    ensures
        renderable(tree),
{
    lemma_well_built_lines(tree, leaf, tree.root, height, Seq::empty(), true);
}
} // verus!
