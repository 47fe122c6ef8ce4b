//! A builder for trees: empty trees, and trees filled level by level from the choices of a
//! random source, given as one 64-bit mask per leaf-level branch.
use vstd::prelude::*;

use crate::pool::{capacities_fit, class_entry, class_size, lemma_reserved_capacities_fit, lemma_size_class_fits, size_class, slab_push, SlabPool};
use crate::tree::branch::{
    bit_at, lemma_ones_below_agree, lemma_ones_below_le, lemma_ones_below_set_bit, lemma_popcount_set_top, lemma_popcount_zero_iff, ones_below,
    popcount, Address, Branch, ChildMask,
};
use crate::tree::leaf::Leaf;
use crate::tree::{after_steps, lemma_walk_fork_takes_dense_child, walk, Depth, Tree};
use crate::util::Coordinate;
use crate::util::{filled, push_to_pool};

verus! {

/// The format of a file to be loaded.
pub enum FileFormat {
    MagicaVoxel,
    /// The Voxoil file format, using the `.vx64` extension.
    Voxoil,
}

/// A type of fractal to generate.
pub enum Fractal {
    MengerSponge,
}

/// Block indices of a pool stay below this bound, so that they fit the 62-bit index of an
/// address.
pub const BLOCK_INDEX_LIMIT: u64 = 0x4000_0000_0000_0000;

/// A branch without children.
pub open spec fn empty_branch() -> Branch {
    Branch { address: Address(0), bitmask: ChildMask(0) }
}

/// The number of leaf-level branches that a fill from level `current` to level `max`
/// visits: one mask is consumed for each.
pub open spec fn leaf_calls(current: nat, max: nat) -> nat
    decreases max - current,
{
    if current >= max {
        1
    } else {
        64 * leaf_calls(current + 1, max)
    }
}

/// The number of branches that a fill from level `current` to level `max` visits; each
/// pushes at most one block.
pub open spec fn branch_calls(current: nat, max: nat) -> nat
    decreases max - current,
{
    if current >= max {
        1
    } else {
        1 + 64 * branch_calls(current + 1, max)
    }
}

/// The number of fork levels below a branch built at level `current` of `max`.
pub open spec fn fill_height(current: nat, max: nat) -> nat {
    if current >= max {
        0
    } else {
        (max - current) as nat
    }
}

/// Whether every mask in `masks[from..to]` is zero.
pub open spec fn all_zero(masks: Seq<u64>, from: int, to: int) -> bool {
    forall|i: int| from <= i < to ==> masks[i] == 0
}

/// Whether the masks of child `i` of a branch are not all zero: the branch built from
/// `masks[start..]`, with `lc` masks per child, consumes `masks[start + i * lc ..
/// start + (i + 1) * lc]` for child `i`.
pub open spec fn chunk_nonzero(masks: Seq<u64>, start: int, lc: int, i: int) -> bool {
    !all_zero(masks, start + i * lc, start + (i + 1) * lc)
}

/// The number of the first `n` children of a branch, built from `masks[start..]` with `lc`
/// masks each, whose masks are not all zero: the children that the branch keeps.
pub open spec fn nonzero_chunks(masks: Seq<u64>, start: int, lc: int, n: nat) -> nat
    decreases n,
{
    if n == 0 {
        0
    } else {
        nonzero_chunks(masks, start, lc, (n - 1) as nat) + if chunk_nonzero(
            masks,
            start,
            lc,
            n - 1,
        ) {
            1nat
        } else {
            0nat
        }
    }
}

/// The number of blocks of size class `k` that a fill from level `current` to level `max`,
/// from `masks[start..]`, pushes: into the leaf pool (`end`), one for each non-empty
/// leaf-level branch, or into the branch pool, one for each non-empty branch above.
pub open spec fn blocks_built(masks: Seq<u64>, start: int, current: nat, max: nat, k: int, end: bool) -> nat
    decreases max - current, 65nat,
{
    if current >= max {
        if end && masks[start] != 0 && size_class(popcount(masks[start]) as int) == k {
            1
        } else {
            0
        }
    } else {
        let lc = leaf_calls(current + 1, max) as int;
        let kept = nonzero_chunks(masks, start, lc, 64);
        children_blocks_built(masks, start, lc, current, max, k, end, 64) + if !end && kept > 0
            && size_class(kept as int) == k {
            1nat
        } else {
            0nat
        }
    }
}

/// The number of blocks of size class `k` that the first `n` children of a branch at level
/// `current` push, each built from its `lc` masks.
pub open spec fn children_blocks_built(
    masks: Seq<u64>,
    start: int,
    lc: int,
    current: nat,
    max: nat,
    k: int,
    end: bool,
    n: nat,
) -> nat
    decreases max - current, n,
{
    if n == 0 || current >= max {
        0
    } else {
        children_blocks_built(masks, start, lc, current, max, k, end, (n - 1) as nat)
            + blocks_built(masks, start + (n - 1) * lc, current + 1, max, k, end)
    }
}

/// Whether `q` holds the blocks of `p` and, in each size class, exactly the blocks that a
/// fill from level `current` to `max`, from `masks[start..]`, pushes into it.
pub open spec fn pushed_exactly<T>(
    p: SlabPool<T>,
    q: SlabPool<T>,
    masks: Seq<u64>,
    start: int,
    current: nat,
    max: nat,
    end: bool,
) -> bool {
    &&& pool_grows(p, q)
    &&& forall|k: int|
        0 <= k < 7 ==> #[trigger] q.class_state(k).0.len() == p.class_state(k).0.len()
            + blocks_built(masks, start, current, max, k, end)
}

/// Whether every slab of `p` has an empty free list.
pub open spec fn free_lists_empty<T>(p: SlabPool<T>) -> bool {
    forall|k: int| 0 <= k < 7 ==> (#[trigger] p.class_state(k)).1.len() == 0
}

/// Whether `q` holds the blocks of `p`, at the same indices, and perhaps more after them.
pub open spec fn pool_grows<T>(p: SlabPool<T>, q: SlabPool<T>) -> bool {
    forall|k: int|
        0 <= k < 7 ==> (#[trigger] p.class_state(k)).0.is_prefix_of(q.class_state(k).0)
}

/// The number of blocks in all slabs of `p`.
pub open spec fn pool_blocks<T>(p: SlabPool<T>) -> nat {
    p.class_state(0).0.len() + p.class_state(1).0.len() + p.class_state(2).0.len()
        + p.class_state(3).0.len() + p.class_state(4).0.len() + p.class_state(5).0.len()
        + p.class_state(6).0.len()
}


/// Whether `b` is a well-built branch with `height` fork levels below it: a branch without
/// children is the empty branch; a branch with `count` children is not solid, its address
/// is its block index with the end flag set at height 0 (an end branch) and clear above (a
/// fork), and that block of its slab class holds in its first `count` slots copies of
/// `leaf` (end), or non-empty well-built branches of one level less (fork).
#[verifier::opaque]
pub open spec fn well_built<L>(
    branches: SlabPool<Branch>,
    leaves: SlabPool<Leaf<L>>,
    leaf: Leaf<L>,
    b: Branch,
    height: nat,
) -> bool
    decreases height,
{
    let count = popcount(b.bitmask.0);
    let index = b.address.index_spec() as int;
    if count == 0 {
        b == empty_branch()
    } else if height == 0 {
        let blocks = leaves.class_state(size_class(count as int)).0;
        &&& b.address.0 == 0x8000_0000_0000_0000u64 + b.address.index_spec()
        &&& bit_at(b.address.0, 63)
        &&& !bit_at(b.address.0, 62)
        &&& index < blocks.len()
        &&& forall|j: int| 0 <= j < count ==> #[trigger] blocks[index][j] == Some(leaf)
    } else {
        let blocks = branches.class_state(size_class(count as int)).0;
        &&& b.address.0 == b.address.index_spec()
        &&& !bit_at(b.address.0, 63)
        &&& !bit_at(b.address.0, 62)
        &&& index < blocks.len()
        &&& forall|j: int|
            0 <= j < count ==> (#[trigger] blocks[index][j] is Some && popcount(
                blocks[index][j]->0.bitmask.0,
            ) > 0 && well_built(branches, leaves, leaf, blocks[index][j]->0, (height - 1) as nat))
    }
}

/// The number of blocks in each size class of `p`, from the smallest block size to the
/// largest.
pub open spec fn pool_lens<T>(p: SlabPool<T>) -> Seq<nat> {
    Seq::new(7, |k: int| p.class_state(k).0.len())
}

/// The block counts `base` of a pool once the first `i` children of a branch at level
/// `current`, each built from its `lc` masks, have pushed their blocks into it.
pub open spec fn child_bases(
    base: Seq<nat>,
    masks: Seq<u64>,
    start: int,
    lc: int,
    current: nat,
    max: nat,
    end: bool,
    i: nat,
) -> Seq<nat> {
    Seq::new(
        7,
        |k: int| base[k] + children_blocks_built(masks, start, lc, current, max, k, end, i),
    )
}

/// Whether `b` was built from `masks[start..]` as the branch of level `current` of a tree of
/// `max` levels, into pools that held `bb` blocks of branches and `lb` blocks of leaves in
/// each size class when it began: at the last level its bitmask is the mask
/// `masks[start]`, and a non-empty one has the block that came next in its class of
/// leaves; above it, slot `i` has a child exactly when the masks of child `i` are not all
/// zero, and that child, at the slot's dense index in the branch's block, was built from
/// those masks one level down, after the children before it; a non-empty branch has the
/// block of its class that came after those of all its children.
#[verifier::opaque]
pub open spec fn built_from<L>(
    branches: SlabPool<Branch>,
    leaves: SlabPool<Leaf<L>>,
    b: Branch,
    masks: Seq<u64>,
    start: int,
    current: nat,
    max: nat,
    bb: Seq<nat>,
    lb: Seq<nat>,
) -> bool
    decreases max - current,
{
    let mask = b.bitmask.0;
    let k = size_class(popcount(mask) as int);
    let index = b.address.index_spec() as int;
    if current >= max {
        &&& mask == masks[start]
        &&& mask != 0 ==> index == lb[k]
    } else {
        let lc = leaf_calls(current + 1, max) as int;
        let blocks = branches.class_state(k).0;
        &&& mask != 0 ==> index == bb[k] + children_blocks_built(
            masks,
            start,
            lc,
            current,
            max,
            k,
            false,
            64,
        )
        &&& forall|i: nat|
            i < 64 ==> (#[trigger] bit_at(mask, i) <==> chunk_nonzero(masks, start, lc, i as int))
        &&& forall|i: nat|
            i < 64 && #[trigger] bit_at(mask, i) ==> {
                let entry = blocks[index][ones_below(mask, i) as int];
                &&& entry is Some
                &&& built_from(
                    branches,
                    leaves,
                    entry->0,
                    masks,
                    start + i * lc,
                    current + 1,
                    max,
                    child_bases(bb, masks, start, lc, current, max, false, i),
                    child_bases(lb, masks, start, lc, current, max, true, i),
                )
            }
    }
}

/// A branch built from masks stays so as the pools grow, provided it is well-built.
pub proof fn lemma_built_from_grows<L>(
    b1: SlabPool<Branch>,
    l1: SlabPool<Leaf<L>>,
    b2: SlabPool<Branch>,
    l2: SlabPool<Leaf<L>>,
    leaf: Leaf<L>,
    b: Branch,
    masks: Seq<u64>,
    start: int,
    current: nat,
    max: nat,
    bb: Seq<nat>,
    lb: Seq<nat>,
)
    requires
        pool_grows(b1, b2),
        pool_grows(l1, l2),
        well_built(b1, l1, leaf, b, fill_height(current, max)),
        built_from(b1, l1, b, masks, start, current, max, bb, lb),
    ensures
        built_from(b2, l2, b, masks, start, current, max, bb, lb),
    decreases max - current,
{
    reveal(well_built);
    reveal(built_from);
    let mask = b.bitmask.0;
    if current < max {
        let count = popcount(mask);
        let lc = leaf_calls(current + 1, max) as int;
        let k = size_class(count as int);
        let index = b.address.index_spec() as int;
        assert forall|i: nat| i < 64 && #[trigger] bit_at(mask, i) implies {
            let entry = b2.class_state(k).0[index][ones_below(mask, i) as int];
            &&& entry is Some
            &&& built_from(
                b2,
                l2,
                entry->0,
                masks,
                start + i * lc,
                current + 1,
                max,
                child_bases(bb, masks, start, lc, current, max, false, i),
                child_bases(lb, masks, start, lc, current, max, true, i),
            )
        } by {
            lemma_ones_below_set_bit(mask, i, 64);
            assert(count > 0);
            assert(b1.class_state(k).0.is_prefix_of(b2.class_state(k).0));
            assert(b2.class_state(k).0[index] == b1.class_state(k).0[index]);
            let entry = b1.class_state(k).0[index][ones_below(mask, i) as int];
            assert(fill_height(current, max) == fill_height(current + 1, max) + 1);
            lemma_built_from_grows(
                b1,
                l1,
                b2,
                l2,
                leaf,
                entry->0,
                masks,
                start + i * lc,
                current + 1,
                max,
                child_bases(bb, masks, start, lc, current, max, false, i),
                child_bases(lb, masks, start, lc, current, max, true, i),
            );
        }
    }
}

/// A well-built branch stays well-built as the pools grow.
pub proof fn lemma_well_built_grows<L>(
    b1: SlabPool<Branch>,
    l1: SlabPool<Leaf<L>>,
    b2: SlabPool<Branch>,
    l2: SlabPool<Leaf<L>>,
    leaf: Leaf<L>,
    b: Branch,
    height: nat,
)
    requires
        pool_grows(b1, b2),
        pool_grows(l1, l2),
        well_built(b1, l1, leaf, b, height),
    ensures
        well_built(b2, l2, leaf, b, height),
    decreases height,
{
    reveal(well_built);
    reveal(built_from);
    let count = popcount(b.bitmask.0);
    let index = b.address.index_spec() as int;
    if count > 0 {
        let k = size_class(count as int);
        if height == 0 {
            assert(l1.class_state(k).0.is_prefix_of(l2.class_state(k).0));
            assert(l2.class_state(k).0[index] == l1.class_state(k).0[index]);
        } else {
            assert(b1.class_state(k).0.is_prefix_of(b2.class_state(k).0));
            assert(b2.class_state(k).0[index] == b1.class_state(k).0[index]);
            let blk = b1.class_state(k).0[index];
            assert forall|j: int| 0 <= j < count implies (#[trigger] blk[j] is Some && popcount(
                blk[j]->0.bitmask.0,
            ) > 0 && well_built(b2, l2, leaf, blk[j]->0, (height - 1) as nat)) by {
                lemma_well_built_grows(b1, l1, b2, l2, leaf, blk[j]->0, (height - 1) as nat);
            }
        }
    }
}

/// Pushing to a pool whose free lists are empty appends a block: the pool grows, its free
/// lists stay empty and it holds one block more.
proof fn lemma_push_grows<T>(p: SlabPool<T>, q: SlabPool<T>, k: int, block: Seq<Option<T>>, index: int)
    requires
        0 <= k < 7,
        free_lists_empty(p),
        (q.class_state(k), index) == slab_push(p.class_state(k), block),
        forall|j: int| 0 <= j < 7 && j != k ==> #[trigger] q.class_state(j) == p.class_state(j),
    ensures
        pool_grows(p, q),
        free_lists_empty(q),
        pool_blocks(q) == pool_blocks(p) + 1,
        forall|j: int|
            0 <= j < 7 ==> #[trigger] q.class_state(j).0.len() == p.class_state(j).0.len() + (if j
                == k {
                1int
            } else {
                0int
            }),
        index == p.class_state(k).0.len(),
        q.class_state(k).0[index] == block,
{
    assert(p.class_state(k).1.len() == 0);
    assert forall|j: int| 0 <= j < 7 implies (#[trigger] p.class_state(j)).0.is_prefix_of(
        q.class_state(j).0,
    ) by {
        if j == k {
            assert(p.class_state(k).0 =~= q.class_state(k).0.subrange(0, p.class_state(k).0.len() as int));
        } else {
            assert(q.class_state(j) == p.class_state(j));
            assert(p.class_state(j).0 =~= q.class_state(j).0.subrange(0, p.class_state(j).0.len() as int));
        }
    }
    assert forall|j: int| 0 <= j < 7 implies (#[trigger] q.class_state(j)).1.len() == 0 by {
        if j != k {
            assert(q.class_state(j) == p.class_state(j));
        }
    }
    assert forall|j: int| 0 <= j < 7 implies #[trigger] q.class_state(j).0.len() == p.class_state(
        j,
    ).0.len() + (if j == k {
        1int
    } else {
        0int
    }) by {
        if j != k {
            assert(q.class_state(j) == p.class_state(j));
        }
    }
}

/// Growth of pools is transitive.
proof fn lemma_grows_trans<T>(p: SlabPool<T>, q: SlabPool<T>, r: SlabPool<T>)
    requires
        pool_grows(p, q),
        pool_grows(q, r),
    ensures
        pool_grows(p, r),
{
    assert forall|k: int| 0 <= k < 7 implies (#[trigger] p.class_state(k)).0.is_prefix_of(
        r.class_state(k).0,
    ) by {
        assert(p.class_state(k).0.is_prefix_of(q.class_state(k).0));
        assert(q.class_state(k).0.is_prefix_of(r.class_state(k).0));
        assert(p.class_state(k).0 =~= r.class_state(k).0.subrange(0, p.class_state(k).0.len() as int));
    }
}

proof fn lemma_grows_refl<T>(p: SlabPool<T>)
    ensures
        pool_grows(p, p),
{
    assert forall|k: int| 0 <= k < 7 implies (#[trigger] p.class_state(k)).0.is_prefix_of(
        p.class_state(k).0,
    ) by {
        assert(p.class_state(k).0 =~= p.class_state(k).0.subrange(0, p.class_state(k).0.len() as int));
    }
}



/// The children kept so far, each built from its masks, stay so as the pools grow.
proof fn lemma_children_grow<L>(
    bp: SlabPool<Branch>,
    lp: SlabPool<Leaf<L>>,
    b2: SlabPool<Branch>,
    l2: SlabPool<Leaf<L>>,
    leaf: Leaf<L>,
    children: Seq<Branch>,
    bitmask: u64,
    i: nat,
    masks: Seq<u64>,
    start: int,
    lc: int,
    current: nat,
    max: nat,
    bb: Seq<nat>,
    lb: Seq<nat>,
)
    requires
        pool_grows(bp, b2),
        pool_grows(lp, l2),
        forall|k: int|
            0 <= k < children.len() ==> well_built(
                bp,
                lp,
                leaf,
                #[trigger] children[k],
                fill_height(current + 1, max),
            ),
        forall|j: nat|
            j < i && #[trigger] bit_at(bitmask, j) ==> ones_below(bitmask, j) < children.len()
                && built_from(
                bp,
                lp,
                children[ones_below(bitmask, j) as int],
                masks,
                start + j * lc,
                current + 1,
                max,
                child_bases(bb, masks, start, lc, current, max, false, j),
                child_bases(lb, masks, start, lc, current, max, true, j),
            ),
    ensures
        forall|j: nat|
            j < i && #[trigger] bit_at(bitmask, j) ==> ones_below(bitmask, j) < children.len()
                && built_from(
                b2,
                l2,
                children[ones_below(bitmask, j) as int],
                masks,
                start + j * lc,
                current + 1,
                max,
                child_bases(bb, masks, start, lc, current, max, false, j),
                child_bases(lb, masks, start, lc, current, max, true, j),
            ),
{
    assert forall|j: nat| j < i && #[trigger] bit_at(bitmask, j) implies ones_below(bitmask, j)
        < children.len() && built_from(
        b2,
        l2,
        children[ones_below(bitmask, j) as int],
        masks,
        start + j * lc,
        current + 1,
        max,
        child_bases(bb, masks, start, lc, current, max, false, j),
        child_bases(lb, masks, start, lc, current, max, true, j),
    ) by {
        let c = children[ones_below(bitmask, j) as int];
        lemma_built_from_grows(
            bp,
            lp,
            b2,
            l2,
            leaf,
            c,
            masks,
            start + j * lc,
            current + 1,
            max,
            child_bases(bb, masks, start, lc, current, max, false, j),
            child_bases(lb, masks, start, lc, current, max, true, j),
        );
    }
}

/// Keeping the child of slot `i` at the end of the children, and setting bit `i`, keeps
/// each kept child at the dense index of its slot.
proof fn lemma_children_add<L>(
    branches: SlabPool<Branch>,
    leaves: SlabPool<Leaf<L>>,
    children: Seq<Branch>,
    child: Branch,
    bitmask: u64,
    i: nat,
    masks: Seq<u64>,
    start: int,
    lc: int,
    current: nat,
    max: nat,
    bb: Seq<nat>,
    lb: Seq<nat>,
)
    requires
        i < 64,
        forall|j: nat| i <= j < 64 ==> !#[trigger] bit_at(bitmask, j),
        children.len() == popcount(bitmask),
        forall|j: nat|
            j < i && #[trigger] bit_at(bitmask, j) ==> ones_below(bitmask, j) < children.len()
                && built_from(
                branches,
                leaves,
                children[ones_below(bitmask, j) as int],
                masks,
                start + j * lc,
                current + 1,
                max,
                child_bases(bb, masks, start, lc, current, max, false, j),
                child_bases(lb, masks, start, lc, current, max, true, j),
            ),
        built_from(
            branches,
            leaves,
            child,
            masks,
            start + i * lc,
            current + 1,
            max,
            child_bases(bb, masks, start, lc, current, max, false, i),
            child_bases(lb, masks, start, lc, current, max, true, i),
        ),
    ensures
        ({
            let nb = bitmask | (1u64 << (i as u64));
            let nc = children.push(child);
            forall|j: nat|
                j < i + 1 && #[trigger] bit_at(nb, j) ==> ones_below(nb, j) < nc.len()
                    && built_from(
                    branches,
                    leaves,
                    nc[ones_below(nb, j) as int],
                    masks,
                    start + j * lc,
                    current + 1,
                    max,
                    child_bases(bb, masks, start, lc, current, max, false, j),
                    child_bases(lb, masks, start, lc, current, max, true, j),
                )
        }),
{
    let nb = bitmask | (1u64 << (i as u64));
    let nc = children.push(child);
    lemma_popcount_set_top(bitmask, i);
    crate::tree::branch::lemma_ones_below_clear_above(bitmask, i, 64);
    assert forall|j: nat| j < i + 1 && #[trigger] bit_at(nb, j) implies ones_below(nb, j) < nc.len()
        && built_from(
        branches,
        leaves,
        nc[ones_below(nb, j) as int],
        masks,
        start + j * lc,
        current + 1,
        max,
        child_bases(bb, masks, start, lc, current, max, false, j),
        child_bases(lb, masks, start, lc, current, max, true, j),
    ) by {
        lemma_ones_below_agree(nb, bitmask, j);
        if j < i {
            assert(bit_at(bitmask, j));
        } else {
            assert(j == i);
            assert(ones_below(nb, j) == children.len());
        }
    }
}

/// A branch whose block holds its kept children, in slot order, was built from the masks
/// of its children.
proof fn lemma_built_from_block<L>(
    branches: SlabPool<Branch>,
    leaves: SlabPool<Leaf<L>>,
    r: Branch,
    children: Seq<Branch>,
    masks: Seq<u64>,
    start: int,
    current: nat,
    max: nat,
    bb: Seq<nat>,
    lb: Seq<nat>,
)
    requires
        current < max,
        children.len() == popcount(r.bitmask.0),
        popcount(r.bitmask.0) > 0 ==> r.address.index_spec() == bb[size_class(
            popcount(r.bitmask.0) as int,
        )] + children_blocks_built(
            masks,
            start,
            leaf_calls(current + 1, max) as int,
            current,
            max,
            size_class(popcount(r.bitmask.0) as int),
            false,
            64,
        ),
        ({
            let blocks = branches.class_state(size_class(popcount(r.bitmask.0) as int)).0;
            let index = r.address.index_spec() as int;
            &&& 0 <= index < blocks.len()
            &&& forall|k: int| 0 <= k < children.len() ==> blocks[index][k] == Some(children[k])
        }),
        forall|j: nat|
            j < 64 ==> (#[trigger] bit_at(r.bitmask.0, j) <==> chunk_nonzero(
                masks,
                start,
                leaf_calls(current + 1, max) as int,
                j as int,
            )),
        forall|j: nat|
            j < 64 && #[trigger] bit_at(r.bitmask.0, j) ==> ones_below(r.bitmask.0, j)
                < children.len() && built_from(
                branches,
                leaves,
                children[ones_below(r.bitmask.0, j) as int],
                masks,
                start + j * leaf_calls(current + 1, max),
                current + 1,
                max,
                child_bases(
                    bb,
                    masks,
                    start,
                    leaf_calls(current + 1, max) as int,
                    current,
                    max,
                    false,
                    j,
                ),
                child_bases(
                    lb,
                    masks,
                    start,
                    leaf_calls(current + 1, max) as int,
                    current,
                    max,
                    true,
                    j,
                ),
            ),
    ensures
        built_from(branches, leaves, r, masks, start, current, max, bb, lb),
{
    reveal(built_from);
    lemma_popcount_zero_iff(r.bitmask.0);
}

/// Builds a leaf-level branch from `mask`: bit `i` says whether slot `i` holds a copy of
/// `leaf`. The leaves go into a block of `leaves` and the branch is an end branch pointing to
/// it; a zero mask gives the empty branch, and pushes nothing.
fn fill_leaf_branch<L: Copy>(
    branches: &SlabPool<Branch>,
    leaves: &mut SlabPool<Leaf<L>>,
    leaf: Leaf<L>,
    mask: u64,
) -> (r: Branch)
    requires
        free_lists_empty(*old(leaves)),
        pool_blocks(*branches) + pool_blocks(*old(leaves)) + 1 <= BLOCK_INDEX_LIMIT,
    ensures
        free_lists_empty(*final(leaves)),
        pool_grows(*old(leaves), *final(leaves)),
        pool_blocks(*final(leaves)) <= pool_blocks(*old(leaves)) + 1,
        well_built(*branches, *final(leaves), leaf, r, 0),
        r.bitmask.0 == mask,
        forall|k: int|
            0 <= k < 7 ==> #[trigger] final(leaves).class_state(k).0.len() == old(
                leaves,
            ).class_state(k).0.len() + (if mask != 0 && size_class(popcount(mask) as int) == k {
                1int
            } else {
                0int
            }),
        mask != 0 ==> r.address.index_spec() + 1 == final(leaves).class_state(
            size_class(popcount(mask) as int),
        ).0.len(),
{
    if mask == 0 {
        proof {
            lemma_grows_refl(*leaves);
            lemma_popcount_zero_iff(0);
            reveal(well_built);
        }
        return Branch { address: Address(0), bitmask: ChildMask(0) };
    }
    let mut block_leaves: Vec<Leaf<L>> = Vec::with_capacity(64);
    let mut i: u64 = 0;
    while i < 64
        invariant
            i <= 64,
            block_leaves@.len() == ones_below(mask, i as nat),
            forall|j: int| 0 <= j < block_leaves@.len() ==> block_leaves@[j] == leaf,
        decreases 64 - i,
    {
        if (mask >> i) & 1 == 1 {
            block_leaves.push(leaf);
        }
        i = i + 1;
    }
    proof {
        lemma_popcount_zero_iff(mask);
        lemma_ones_below_le(mask, 64);
        lemma_size_class_fits(popcount(mask) as int);
    }
    let ghost lp = *leaves;
    let ghost data = block_leaves@;
    let block_index = push_to_pool(leaves, block_leaves);
    proof {
        let k = size_class(popcount(mask) as int);
        lemma_push_grows(lp, *leaves, k, filled(data, class_size(k)), block_index as int);
    }
    let bi = block_index as u64;
    assert(bi < BLOCK_INDEX_LIMIT);
    let raw: u64 = 0x8000_0000_0000_0000u64 | bi;
    assert((raw & 0x3FFF_FFFF_FFFF_FFFFu64) == bi && (raw >> 63u64) & 1u64 == 1u64 && (raw >> 62u64)
        & 1u64 == 0u64 && raw == 0x8000_0000_0000_0000u64 + bi) by (bit_vector)
        requires
            raw == 0x8000_0000_0000_0000u64 | bi,
            bi < 0x4000_0000_0000_0000u64,
    ;
    let r = Branch { address: Address(raw), bitmask: ChildMask(mask) };
    proof {
        assert(r.address.index_spec() == block_index);
        reveal(well_built);
    }
    r
}

/// Builds the 64 children of a branch at level `current` (below the last level), one level
/// down, and keeps those that are not empty: returns them in slot order, and the mask of
/// the slots that keep one.
#[verifier::rlimit(80)]
fn fill_children<L: Copy>(
    branches: &mut SlabPool<Branch>,
    leaves: &mut SlabPool<Leaf<L>>,
    current: u8,
    max: u8,
    leaf: Leaf<L>,
    masks: &[u64],
    cursor: &mut usize,
) -> (r: (Vec<Branch>, u64))
    requires
        current < max,
        free_lists_empty(*old(branches)),
        free_lists_empty(*old(leaves)),
        pool_blocks(*old(branches)) + pool_blocks(*old(leaves)) + 64 * branch_calls(
            current as nat + 1,
            max as nat,
        ) < BLOCK_INDEX_LIMIT,
        *old(cursor) + 64 * leaf_calls(current as nat + 1, max as nat) <= masks@.len(),
    ensures
        free_lists_empty(*final(branches)),
        free_lists_empty(*final(leaves)),
        pool_grows(*old(branches), *final(branches)),
        pool_grows(*old(leaves), *final(leaves)),
        pool_blocks(*final(branches)) + pool_blocks(*final(leaves)) <= pool_blocks(*old(branches))
            + pool_blocks(*old(leaves)) + 64 * branch_calls(current as nat + 1, max as nat),
        *final(cursor) == *old(cursor) + 64 * leaf_calls(current as nat + 1, max as nat),
        r.0@.len() == popcount(r.1),
        r.0@.len() == nonzero_chunks(
            masks@,
            *old(cursor) as int,
            leaf_calls(current as nat + 1, max as nat) as int,
            64,
        ),
        forall|k: int|
            0 <= k < 7 ==> #[trigger] final(branches).class_state(k).0.len() == old(
                branches,
            ).class_state(k).0.len() + children_blocks_built(
                masks@,
                *old(cursor) as int,
                leaf_calls(current as nat + 1, max as nat) as int,
                current as nat,
                max as nat,
                k,
                false,
                64,
            ),
        forall|k: int|
            0 <= k < 7 ==> #[trigger] final(leaves).class_state(k).0.len() == old(
                leaves,
            ).class_state(k).0.len() + children_blocks_built(
                masks@,
                *old(cursor) as int,
                leaf_calls(current as nat + 1, max as nat) as int,
                current as nat,
                max as nat,
                k,
                true,
                64,
            ),
        forall|j: int|
            #![trigger r.0@[j]]
            0 <= j < r.0@.len() ==> popcount(r.0@[j].bitmask.0) > 0 && well_built(
                *final(branches),
                *final(leaves),
                leaf,
                r.0@[j],
                fill_height(current as nat + 1, max as nat),
            ),
        (r.1 == 0) <==> all_zero(masks@, *old(cursor) as int, *final(cursor) as int),
        forall|j: nat|
            j < 64 ==> (#[trigger] bit_at(r.1, j) <==> chunk_nonzero(
                masks@,
                *old(cursor) as int,
                leaf_calls(current as nat + 1, max as nat) as int,
                j as int,
            )),
        forall|j: nat|
            j < 64 && #[trigger] bit_at(r.1, j) ==> ones_below(r.1, j) < r.0@.len() && built_from(
                *final(branches),
                *final(leaves),
                r.0@[ones_below(r.1, j) as int],
                masks@,
                *old(cursor) as int + j * leaf_calls(current as nat + 1, max as nat),
                current as nat + 1,
                max as nat,
                child_bases(
                    pool_lens(*old(branches)),
                    masks@,
                    *old(cursor) as int,
                    leaf_calls(current as nat + 1, max as nat) as int,
                    current as nat,
                    max as nat,
                    false,
                    j,
                ),
                child_bases(
                    pool_lens(*old(leaves)),
                    masks@,
                    *old(cursor) as int,
                    leaf_calls(current as nat + 1, max as nat) as int,
                    current as nat,
                    max as nat,
                    true,
                    j,
                ),
            ),
    decreases max - current, 0nat,
{
    let ghost start = *old(cursor);
    let ghost lc = leaf_calls(current as nat + 1, max as nat);
    let ghost bc = branch_calls(current as nat + 1, max as nat);
    let ghost b0 = *branches;
    let ghost l0 = *leaves;
    let ghost base = pool_blocks(b0) + pool_blocks(l0);
    let mut children: Vec<Branch> = Vec::with_capacity(64);
    let mut bitmask: u64 = 0;
    let mut i: u64 = 0;
    proof {
        lemma_grows_refl(*branches);
        lemma_grows_refl(*leaves);
        lemma_popcount_zero_iff(0);
        assert forall|j: nat| 0 <= j < 64 implies !#[trigger] bit_at(0u64, j) by {
            let jj = j as u64;
            assert((0u64 >> jj) & 1u64 == 0u64) by (bit_vector);
        }
    }
    while i < 64
        invariant
            i <= 64,
            current < max,
            lc == leaf_calls(current as nat + 1, max as nat),
            bc == branch_calls(current as nat + 1, max as nat),
            start + 64 * lc <= masks@.len(),
            base == pool_blocks(b0) + pool_blocks(l0),
            base + 1 + 64 * bc <= BLOCK_INDEX_LIMIT,
            *cursor == start + i * lc,
            free_lists_empty(*branches),
            free_lists_empty(*leaves),
            pool_grows(b0, *branches),
            pool_grows(l0, *leaves),
            pool_blocks(*branches) + pool_blocks(*leaves) <= base + i * bc,
            children@.len() == popcount(bitmask),
            children@.len() == nonzero_chunks(masks@, start as int, lc as int, i as nat),
            forall|k: int|
                0 <= k < 7 ==> #[trigger] branches.class_state(k).0.len() == b0.class_state(k).0.len()
                    + children_blocks_built(
                    masks@,
                    start as int,
                    lc as int,
                    current as nat,
                    max as nat,
                    k,
                    false,
                    i as nat,
                ),
            forall|k: int|
                0 <= k < 7 ==> #[trigger] leaves.class_state(k).0.len() == l0.class_state(k).0.len()
                    + children_blocks_built(
                    masks@,
                    start as int,
                    lc as int,
                    current as nat,
                    max as nat,
                    k,
                    true,
                    i as nat,
                ),
            forall|j: nat| i <= j < 64 ==> !#[trigger] bit_at(bitmask, j),
            forall|j: int|
                #![trigger children@[j]]
                0 <= j < children@.len() ==> popcount(children@[j].bitmask.0) > 0
                    && well_built(
                    *branches,
                    *leaves,
                    leaf,
                    children@[j],
                    fill_height(current as nat + 1, max as nat),
                ),
            (bitmask == 0) <==> all_zero(masks@, start as int, *cursor as int),
            forall|j: nat|
                j < i ==> (#[trigger] bit_at(bitmask, j) <==> chunk_nonzero(
                    masks@,
                    start as int,
                    lc as int,
                    j as int,
                )),
            forall|j: nat|
                j < i && #[trigger] bit_at(bitmask, j) ==> ones_below(bitmask, j) < children@.len()
                    && built_from(
                    *branches,
                    *leaves,
                    children@[ones_below(bitmask, j) as int],
                    masks@,
                    start + j * lc,
                    current as nat + 1,
                    max as nat,
                    child_bases(
                        pool_lens(b0),
                        masks@,
                        start as int,
                        lc as int,
                        current as nat,
                        max as nat,
                        false,
                        j,
                    ),
                    child_bases(
                        pool_lens(l0),
                        masks@,
                        start as int,
                        lc as int,
                        current as nat,
                        max as nat,
                        true,
                        j,
                    ),
                ),
        decreases 64 - i,
    {
        let ghost bp = *branches;
        let ghost lp = *leaves;
        let ghost c0 = *cursor;
        proof {
            assert(i * lc + lc == (i + 1) * lc) by (nonlinear_arith);
            assert((i + 1) * lc <= 64 * lc) by (nonlinear_arith)
                requires
                    i < 64,
            ;
            assert(i * bc + bc == (i + 1) * bc) by (nonlinear_arith);
            assert((i + 1) * bc <= 64 * bc) by (nonlinear_arith)
                requires
                    i < 64,
            ;
        }
        let child = fill_recursive(branches, leaves, current + 1, max, leaf, masks, cursor);
        proof {
            assert(pool_lens(bp) =~= child_bases(
                pool_lens(b0),
                masks@,
                start as int,
                lc as int,
                current as nat,
                max as nat,
                false,
                i as nat,
            ));
            assert(pool_lens(lp) =~= child_bases(
                pool_lens(l0),
                masks@,
                start as int,
                lc as int,
                current as nat,
                max as nat,
                true,
                i as nat,
            ));
            lemma_children_grow(
                bp,
                lp,
                *branches,
                *leaves,
                leaf,
                children@,
                bitmask,
                i as nat,
                masks@,
                start as int,
                lc as int,
                current as nat,
                max as nat,
                pool_lens(b0),
                pool_lens(l0),
            );
            lemma_grows_trans(b0, bp, *branches);
            lemma_grows_trans(l0, lp, *leaves);
            assert forall|j: int| #![trigger children@[j]] 0 <= j < children@.len() implies popcount(
                children@[j].bitmask.0,
            ) > 0 && well_built(
                *branches,
                *leaves,
                leaf,
                children@[j],
                fill_height(current as nat + 1, max as nat),
            ) by {
                lemma_well_built_grows(
                    bp,
                    lp,
                    *branches,
                    *leaves,
                    leaf,
                    children@[j],
                    fill_height(current as nat + 1, max as nat),
                );
            }
        }
        proof {
            assert(c0 == start + i * lc);
            assert(*cursor == start + (i + 1) * lc);
            assert(chunk_nonzero(masks@, start as int, lc as int, i as int) == !all_zero(
                masks@,
                c0 as int,
                *cursor as int,
            ));
        }
        if !child.is_empty() {
            proof {
                lemma_popcount_set_top(bitmask, i as nat);
                lemma_popcount_zero_iff(child.bitmask.0);
                lemma_ones_below_le(bitmask, 64);
                if all_zero(masks@, start as int, *cursor as int) {
                    assert(all_zero(masks@, c0 as int, *cursor as int));
                }
                lemma_children_add(
                    *branches,
                    *leaves,
                    children@,
                    child,
                    bitmask,
                    i as nat,
                    masks@,
                    start as int,
                    lc as int,
                    current as nat,
                    max as nat,
                    pool_lens(b0),
                    pool_lens(l0),
                );
            }
            bitmask = bitmask | (1u64 << i);
            let ghost before_children = children@;
            children.push(child);
            proof {
                assert forall|j: int| #![trigger children@[j]] 0 <= j < children@.len() implies popcount(
                    children@[j].bitmask.0,
                ) > 0 && well_built(
                    *branches,
                    *leaves,
                    leaf,
                    children@[j],
                    fill_height(current as nat + 1, max as nat),
                ) by {
                    if j < before_children.len() {
                        assert(children@[j] == before_children[j]);
                    } else {
                        assert(children@[j] == child);
                    }
                }
                let nb = bitmask;
                assert(nb != 0) by {
                    lemma_popcount_zero_iff(nb);
                }
            }
        } else {
            proof {
                if all_zero(masks@, start as int, c0 as int) {
                    assert(all_zero(masks@, start as int, *cursor as int));
                }
                assert forall|j: nat| i + 1 <= j < 64 implies !#[trigger] bit_at(bitmask, j) by {}
            }
        }
        i = i + 1;
    }
    (children, bitmask)
}

/// Builds the branch at level `current` of a tree of `max` levels, consuming one mask per
/// leaf-level branch from `masks`, starting at `*cursor`.
///
/// At the last level, bit `i` of the mask says whether slot `i` holds a copy of `leaf`;
/// the leaves go into a block of `leaves` and the branch is an end branch pointing to it.
/// Above it, each of the 64 slots gets the branch built one level down, kept when it is
/// not empty; the kept branches go into a block of `branches`. A branch without children
/// is the empty branch, and pushes nothing.
#[verifier::rlimit(100)]
#[verifier::spinoff_prover]
fn fill_recursive<L: Copy>(
    branches: &mut SlabPool<Branch>,
    leaves: &mut SlabPool<Leaf<L>>,
    current: u8,
    max: u8,
    leaf: Leaf<L>,
    masks: &[u64],
    cursor: &mut usize,
) -> (r: Branch)
    requires
        free_lists_empty(*old(branches)),
        free_lists_empty(*old(leaves)),
        pool_blocks(*old(branches)) + pool_blocks(*old(leaves)) + branch_calls(
            current as nat,
            max as nat,
        ) <= BLOCK_INDEX_LIMIT,
        *old(cursor) + leaf_calls(current as nat, max as nat) <= masks@.len(),
    ensures
        free_lists_empty(*final(branches)),
        free_lists_empty(*final(leaves)),
        pool_grows(*old(branches), *final(branches)),
        pool_grows(*old(leaves), *final(leaves)),
        pool_blocks(*final(branches)) + pool_blocks(*final(leaves)) <= pool_blocks(*old(branches))
            + pool_blocks(*old(leaves)) + branch_calls(current as nat, max as nat),
        *final(cursor) == *old(cursor) + leaf_calls(current as nat, max as nat),
        well_built(*final(branches), *final(leaves), leaf, r, fill_height(current as nat, max as nat)),
        (r.bitmask.0 == 0) <==> all_zero(masks@, *old(cursor) as int, *final(cursor) as int),
        built_from(
            *final(branches),
            *final(leaves),
            r,
            masks@,
            *old(cursor) as int,
            current as nat,
            max as nat,
            pool_lens(*old(branches)),
            pool_lens(*old(leaves)),
        ),
        pushed_exactly(*old(branches), *final(branches), masks@, *old(cursor) as int, current as nat, max as nat, false),
        pushed_exactly(*old(leaves), *final(leaves), masks@, *old(cursor) as int, current as nat, max as nat, true),
        r.bitmask.0 != 0 && current >= max ==> r.address.index_spec() + 1 == final(leaves).class_state(
            size_class(popcount(r.bitmask.0) as int),
        ).0.len(),
        r.bitmask.0 != 0 && current < max ==> r.address.index_spec() + 1 == final(branches).class_state(
            size_class(popcount(r.bitmask.0) as int),
        ).0.len(),
        current >= max ==> r.bitmask.0 == masks@[*old(cursor) as int],
        current < max ==> forall|i: nat|
            i < 64 ==> (#[trigger] bit_at(r.bitmask.0, i) <==> chunk_nonzero(
                masks@,
                *old(cursor) as int,
                leaf_calls(current as nat + 1, max as nat) as int,
                i as int,
            )),
    decreases max - current, 1nat,
{
    if current >= max {
        let mask = masks[*cursor];
        *cursor = *cursor + 1;
        let r = fill_leaf_branch(branches, leaves, leaf, mask);
        proof {
            lemma_grows_refl(*branches);
            reveal(built_from);
            assert(all_zero(masks@, *old(cursor) as int, *cursor as int) <==> mask == 0);
        }
        return r;
    }
    let ghost start = *old(cursor);
    let ghost lc = leaf_calls(current as nat + 1, max as nat);
    let ghost bc = branch_calls(current as nat + 1, max as nat);
    let ghost b0 = *branches;
    let ghost l0 = *leaves;
    proof {
        assert(leaf_calls(current as nat, max as nat) == 64 * lc);
        assert(branch_calls(current as nat, max as nat) == 1 + 64 * bc);
    }
    let (children, bitmask) = fill_children(branches, leaves, current, max, leaf, masks, cursor);
    if children.len() == 0 {
        proof {
            lemma_popcount_zero_iff(bitmask);
            assert forall|j: nat| j < 64 implies !#[trigger] bit_at(0u64, j) by {
                let jj = j as u64;
                assert((0u64 >> jj) & 1u64 == 0u64) by (bit_vector);
            }
            reveal(well_built);
            reveal(built_from);
        }
        return Branch { address: Address(0), bitmask: ChildMask(0) };
    }
    proof {
        lemma_ones_below_le(bitmask, 64);
        lemma_size_class_fits(popcount(bitmask) as int);
        lemma_popcount_zero_iff(bitmask);
    }
    let ghost bp = *branches;
    let ghost data = children@;
    let block_index = push_to_pool(branches, children);
    proof {
        let k = size_class(popcount(bitmask) as int);
        lemma_push_grows(bp, *branches, k, filled(data, class_size(k)), block_index as int);
        lemma_grows_refl(*leaves);
        lemma_children_grow(
            bp,
            *leaves,
            *branches,
            *leaves,
            leaf,
            data,
            bitmask,
            64,
            masks@,
            start as int,
            lc as int,
            current as nat,
            max as nat,
            pool_lens(b0),
            pool_lens(l0),
        );
        lemma_grows_trans(b0, bp, *branches);
        assert forall|j: int| 0 <= j < data.len() implies well_built(
            *branches,
            *leaves,
            leaf,
            data[j],
            fill_height(current as nat + 1, max as nat),
        ) by {
            lemma_well_built_grows(
                bp,
                *leaves,
                *branches,
                *leaves,
                leaf,
                data[j],
                fill_height(current as nat + 1, max as nat),
            );
        }
        lemma_grows_refl(*leaves);
    }
    let bi = block_index as u64;
    assert(bi < BLOCK_INDEX_LIMIT);
    assert((bi & 0x3FFF_FFFF_FFFF_FFFFu64) == bi && (bi >> 63u64) & 1u64 == 0u64 && (bi >> 62u64)
        & 1u64 == 0u64) by (bit_vector)
        requires
            bi < 0x4000_0000_0000_0000u64,
    ;
    let r = Branch { address: Address(bi), bitmask: ChildMask(bitmask) };
    proof {
        assert(r.address.index_spec() == block_index);
        assert(fill_height(current as nat, max as nat) == fill_height(current as nat + 1, max as nat) + 1);
        reveal(well_built);
        lemma_built_from_block(
            *branches,
            *leaves,
            r,
            data,
            masks@,
            start as int,
            current as nat,
            max as nat,
            pool_lens(b0),
            pool_lens(l0),
        );
    }
    r
}

/// A builder for creating a [`Tree`].
pub struct Builder<L> {
    tree: Tree<L>,
}

impl<L> Builder<L> {
    /// Blocks are only ever appended by a builder: the free lists of its pools stay empty.
    #[verifier::type_invariant]
    spec fn pools_unfreed(self) -> bool {
        free_lists_empty(self.tree.branches) && free_lists_empty(self.tree.leaves)
    }
}

proof fn lemma_empty_pool_unfreed<T>(p: SlabPool<T>)
    requires
        p.is_empty_pool(),
    ensures
        free_lists_empty(p),
{
    assert forall|k: int| 0 <= k < 7 implies (#[trigger] p.class_state(k)).1.len() == 0 by {
        assert(p.class_state(k).0.len() == 0);
    }
}

impl<L> View for Builder<L> {
    type V = Tree<L>;

    closed spec fn view(&self) -> Tree<L> {
        self.tree
    }
}

impl<L: Copy> Builder<L> {
    /// Creates a new `Builder` of an empty tree with the given `max_depth`.
    pub fn new(max_depth: Depth) -> (b: Self)
        ensures
            b@.root == empty_branch(),
            b@.branches.is_empty_pool(),
            b@.leaves.is_empty_pool(),
            b@.max_depth == max_depth,
    {
        let tree = Tree::empty(max_depth);
        proof {
            lemma_empty_pool_unfreed(tree.branches);
            lemma_empty_pool_unfreed(tree.leaves);
        }
        Self { tree }
    }

    /// Replaces the pools of the tree with empty pools of the given capacities, from the
    /// smallest block size to the largest.
    pub fn with_capacities(
        self,
        branch_capacities: (usize, usize, usize, usize, usize, usize, usize),
        leaf_capacities: (usize, usize, usize, usize, usize, usize, usize),
    ) -> (b: Self)
        requires
            capacities_fit::<Branch>(branch_capacities),
            capacities_fit::<Leaf<L>>(leaf_capacities),
        ensures
            b@.root == self@.root,
            b@.max_depth == self@.max_depth,
            b@.branches.is_empty_pool(),
            b@.leaves.is_empty_pool(),
            forall|k: int|
                0 <= k < 7 ==> #[trigger] b@.branches.class_reserved(k) == class_entry(
                    branch_capacities,
                    k,
                ),
            forall|k: int|
                0 <= k < 7 ==> #[trigger] b@.leaves.class_reserved(k) == class_entry(leaf_capacities, k),
            b@.branches.reservations_fit(),
            b@.leaves.reservations_fit(),
    {
        let Builder { tree } = self;
        let tree = Tree {
            root: tree.root,
            branches: SlabPool::with_capacities(branch_capacities),
            leaves: SlabPool::with_capacities(leaf_capacities),
            max_depth: tree.max_depth,
        };
        proof {
            lemma_reserved_capacities_fit(tree.branches, branch_capacities);
            lemma_reserved_capacities_fit(tree.leaves, leaf_capacities);
            lemma_empty_pool_unfreed(tree.branches);
            lemma_empty_pool_unfreed(tree.leaves);
        }
        Builder { tree }
    }

    /// Builds the [`Tree`].
    pub fn build(self) -> (t: Tree<L>)
        ensures
            t == self@,
    {
        let Builder { tree } = self;
        tree
    }

    /// Starts over from an empty tree with the given `max_depth`.
    pub fn empty(self, max_depth: Depth) -> (b: Self)
        ensures
            b@.root == empty_branch(),
            b@.branches.is_empty_pool(),
            b@.leaves.is_empty_pool(),
            b@.max_depth == max_depth,
    {
        let tree = Tree::empty(max_depth);
        proof {
            lemma_empty_pool_unfreed(tree.branches);
            lemma_empty_pool_unfreed(tree.leaves);
        }
        Self { tree }
    }

    /// Fills the tree to `depth` levels with copies of `leaf`, placed where a random source
    /// chose to place them: `masks` holds, for each leaf-level branch in depth-first order,
    /// the 64 choices of its slots as bits (bit `i` set when slot `i` gets a leaf).
    ///
    /// The root is the branch built at level 1; the tree's depth becomes `depth`.
    pub fn filled_from_masks(self, depth: Depth, leaf: Leaf<L>, masks: &[u64]) -> (b: Self)
        requires
            masks@.len() >= leaf_calls(1, depth.0 as nat),
            pool_blocks(self@.branches) + pool_blocks(self@.leaves) + branch_calls(
                1,
                depth.0 as nat,
            ) <= BLOCK_INDEX_LIMIT,
        ensures
            b@.max_depth == depth,
            well_built(b@.branches, b@.leaves, leaf, b@.root, fill_height(1, depth.0 as nat)),
            built_from(
                b@.branches,
                b@.leaves,
                b@.root,
                masks@,
                0,
                1,
                depth.0 as nat,
                pool_lens(self@.branches),
                pool_lens(self@.leaves),
            ),
            pushed_exactly(self@.branches, b@.branches, masks@, 0, 1, depth.0 as nat, false),
            pushed_exactly(self@.leaves, b@.leaves, masks@, 0, 1, depth.0 as nat, true),
            b@.root.bitmask.0 != 0 && depth.0 <= 1 ==> b@.root.address.index_spec() + 1
                == b@.leaves.class_state(size_class(popcount(b@.root.bitmask.0) as int)).0.len(),
            b@.root.bitmask.0 != 0 && depth.0 > 1 ==> b@.root.address.index_spec() + 1
                == b@.branches.class_state(size_class(popcount(b@.root.bitmask.0) as int)).0.len(),
            pool_grows(self@.branches, b@.branches),
            pool_grows(self@.leaves, b@.leaves),
            (b@.root.bitmask.0 == 0) <==> all_zero(masks@, 0, leaf_calls(1, depth.0 as nat) as int),
            depth.0 <= 1 ==> b@.root.bitmask.0 == masks@[0],
            depth.0 > 1 ==> forall|i: nat|
                i < 64 ==> (#[trigger] bit_at(b@.root.bitmask.0, i) <==> chunk_nonzero(
                    masks@,
                    0,
                    leaf_calls(2, depth.0 as nat) as int,
                    i as int,
                )),
    {
        proof {
            use_type_invariant(&self);
        }
        let Builder { tree } = self;
        let mut tree = tree;
        let mut cursor: usize = 0;
        let root = fill_recursive(
            &mut tree.branches,
            &mut tree.leaves,
            1,
            depth.0,
            leaf,
            masks,
            &mut cursor,
        );
        tree.root = root;
        tree.max_depth = depth;
        Builder { tree }
    }
}

/// The number of branches visited by a fill from level `current` to level `max`, or
/// `BLOCK_INDEX_LIMIT + 1` when it exceeds the limit.
fn branch_calls_capped(current: u8, max: u8) -> (r: u64)
    ensures
        r == if branch_calls(current as nat, max as nat) <= BLOCK_INDEX_LIMIT {
            branch_calls(current as nat, max as nat)
        } else {
            BLOCK_INDEX_LIMIT as nat + 1
        },
    decreases max - current,
{
    if current >= max {
        1
    } else {
        let below = branch_calls_capped(current + 1, max);
        if below > BLOCK_INDEX_LIMIT / 64 {
            BLOCK_INDEX_LIMIT + 1
        } else {
            let r = 1 + 64 * below;
            if r > BLOCK_INDEX_LIMIT {
                BLOCK_INDEX_LIMIT + 1
            } else {
                r
            }
        }
    }
}

/// The number of masks that a fill from level `current` to level `max` consumes, if it
/// fits in a `usize`.
fn leaf_calls_checked(current: u8, max: u8) -> (r: Option<usize>)
    ensures
        r is Some <==> leaf_calls(current as nat, max as nat) <= usize::MAX,
        r matches Some(n) ==> n == leaf_calls(current as nat, max as nat),
    decreases max - current,
{
    if current >= max {
        Some(1)
    } else {
        match leaf_calls_checked(current + 1, max) {
            Some(below) => below.checked_mul(64),
            None => {
                proof {
                    lemma_leaf_calls_pos(current as nat + 1, max as nat);
                }
                None
            },
        }
    }
}

proof fn lemma_leaf_calls_pos(current: nat, max: nat)
    ensures
        leaf_calls(current, max) >= 1,
    decreases max - current,
{
    if current < max {
        lemma_leaf_calls_pos(current + 1, max);
    }
}

fn pool_block_count<T>(p: &SlabPool<T>) -> (n: u128)
    ensures
        n == pool_blocks(*p),
        n <= 7 * 0xFFFF_FFFF_FFFF_FFFFu128,
{
    p.slabs.0.blocks.len() as u128 + p.slabs.1.blocks.len() as u128 + p.slabs.2.blocks.len() as u128
        + p.slabs.3.blocks.len() as u128 + p.slabs.4.blocks.len() as u128
        + p.slabs.5.blocks.len() as u128 + p.slabs.6.blocks.len() as u128
}

impl<L> Builder<L> {
    /// The number of masks that [`Builder::filled_from_masks`] consumes for a tree of
    /// `depth` levels, if it fits in a `usize`.
    pub fn masks_needed(depth: Depth) -> (r: Option<usize>)
        ensures
            r is Some <==> leaf_calls(1, depth.0 as nat) <= usize::MAX,
            r matches Some(n) ==> n == leaf_calls(1, depth.0 as nat),
    {
        leaf_calls_checked(1, depth.0)
    }

    /// Whether the blocks of a fill to `depth` levels keep every block index within the
    /// 62 bits of an address.
    pub fn fill_fits(&self, depth: Depth) -> (r: bool)
        ensures
            r == (pool_blocks(self@.branches) + pool_blocks(self@.leaves) + branch_calls(
                1,
                depth.0 as nat,
            ) <= BLOCK_INDEX_LIMIT),
    {
        let used = pool_block_count(&self.tree.branches) + pool_block_count(&self.tree.leaves);
        let calls = branch_calls_capped(1, depth.0);
        used + calls as u128 <= BLOCK_INDEX_LIMIT as u128
    }
}

/// A traversal in a tree never meets a missing block below a well-built branch.
pub proof fn lemma_well_built_walk_not_missing<L>(
    tree: Tree<L>,
    leaf: Leaf<L>,
    b: Branch,
    height: nat,
    c: Coordinate,
    depth: nat,
    stop: nat,
)
    requires
        well_built(tree.branches, tree.leaves, leaf, b, height),
    ensures
        !(walk(tree, b, c, depth, stop) is Missing),
    decreases stop + 1 - depth,
{
    reveal(well_built);
    reveal(built_from);
    if depth <= stop && crate::util::localize_defined(Depth(depth as u8), tree.max_depth) {
        let slot = crate::util::slot_of(crate::util::localized(c, Depth(depth as u8), tree.max_depth));
        let mask = b.bitmask.0;
        let count = popcount(mask);
        if count > 0 && depth < 16 && bit_at(mask, slot as nat) && !bit_at(b.address.0, 63) {
            let blocks = tree.branches.class_state(crate::tree::children_class(b)).0;
            let index = b.address.index_spec() as int;
            let dense = ones_below(mask, slot as nat) as int;
            assert(height > 0);
            crate::util::lemma_localized_in_range(c, Depth(depth as u8), tree.max_depth);
            crate::tree::branch::lemma_ones_below_set_bit(mask, slot as nat, 64);
            assert(0 <= dense < count);
            assert(blocks[index][dense] is Some);
            let child = blocks[index][dense]->0;
            lemma_well_built_walk_not_missing(tree, leaf, child, (height - 1) as nat, c, depth + 1, stop);
        }
    }
}

/// In a tree built from masks with more than one level, a traversal from the root that
/// takes slot `s` at depth 0 (a slot whose masks are not all zero) continues with the
/// child that was built from the masks of the root's child `s`.
pub proof fn lemma_built_root_step_follows_masks<L>(
    tree: Tree<L>,
    leaf: Leaf<L>,
    masks: Seq<u64>,
    max: nat,
    bb: Seq<nat>,
    lb: Seq<nat>,
    c: Coordinate,
    stop: nat,
)
    requires
        1 < max,
        crate::util::localize_defined(Depth(0), tree.max_depth),
        well_built(tree.branches, tree.leaves, leaf, tree.root, fill_height(1, max)),
        built_from(tree.branches, tree.leaves, tree.root, masks, 0, 1, max, bb, lb),
        chunk_nonzero(
            masks,
            0,
            leaf_calls(2, max) as int,
            crate::util::slot_of(crate::util::localized(c, Depth(0), tree.max_depth)) as int,
        ),
    ensures
        ({
            let s = crate::util::slot_of(crate::util::localized(c, Depth(0), tree.max_depth));
            let lc = leaf_calls(2, max) as int;
            exists|child: Branch|
                #[trigger] built_from(
                    tree.branches,
                    tree.leaves,
                    child,
                    masks,
                    s * lc,
                    2,
                    max,
                    child_bases(bb, masks, 0, lc, 1, max, false, s as nat),
                    child_bases(lb, masks, 0, lc, 1, max, true, s as nat),
                ) && walk(tree, tree.root, c, 0, stop) == after_steps(
                    seq![(tree.root.address.0, s)],
                    walk(tree, child, c, 1, stop),
                )
        }),
{
    reveal(well_built);
    reveal(built_from);
    let s = crate::util::slot_of(crate::util::localized(c, Depth(0), tree.max_depth));
    let lc = leaf_calls(2, max) as int;
    let mask = tree.root.bitmask.0;
    crate::util::lemma_localized_in_range(c, Depth(0), tree.max_depth);
    assert(bit_at(mask, s as nat));
    lemma_ones_below_set_bit(mask, s as nat, 64);
    lemma_walk_fork_takes_dense_child(tree, tree.root, c, 0, stop);
    let index = tree.root.address.index_spec() as int;
    let blocks = tree.branches.class_state(size_class(popcount(mask) as int)).0;
    let child = blocks[index][ones_below(mask, s as nat) as int]->0;
    assert(built_from(
        tree.branches,
        tree.leaves,
        child,
        masks,
        s * lc,
        2,
        max,
        child_bases(bb, masks, 0, lc, 1, max, false, s as nat),
        child_bases(lb, masks, 0, lc, 1, max, true, s as nat),
    ));
}

/// Traversing a tree whose root is well-built never reports a missing block: in a tree
/// built by [`Builder::filled_from_masks`], every traversal that can be carried out
/// reaches its end.
pub proof fn lemma_built_tree_walk_not_missing<L>(
    tree: Tree<L>,
    leaf: Leaf<L>,
    height: nat,
    coordinate: Coordinate,
    max_depth: Depth,
)
    requires
        well_built(tree.branches, tree.leaves, leaf, tree.root, height),
    ensures
        !(tree.walk_to(coordinate, max_depth) is Missing),
{
    lemma_well_built_walk_not_missing(tree, leaf, tree.root, height, coordinate, 0, max_depth.0 as nat);
}


} // verus!

