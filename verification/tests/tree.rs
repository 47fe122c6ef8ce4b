use voxoil::pool::SlabPool;
use voxoil::tree::branch::{Address, Branch, ChildMask};
use voxoil::tree::leaf::Leaf;
use voxoil::tree::{Depth, TraversalError, Tree};
use voxoil::util::Coordinate;

fn two_level_tree() -> (Tree<u8>, Branch, Branch) {
    // 1. Setup the leaf
    let leaf = Leaf::new(123u8);
    let mut leaves_pool = SlabPool::<Leaf<u8>>::new();
    let leaf_block_index = leaves_pool.slabs.0.push([Some(leaf)]);

    // 2. Setup the intermediate branch (end, solid)
    let branch_1 = Branch {
        address: Address((1 << 63) | (1 << 62) | leaf_block_index as u64),
        bitmask: ChildMask(1 << 5), // Child at slot 5
    };

    // 3. Setup the root branch (fork, solid)
    let mut branches_pool = SlabPool::<Branch>::new();
    let branch_block_index = branches_pool.slabs.0.push([Some(branch_1)]);
    let root_branch = Branch {
        address: Address((1 << 62) | branch_block_index as u64),
        bitmask: ChildMask(1 << 3), // Child at slot 3
    };

    // 4. Setup the tree
    let tree: Tree<u8> = Tree {
        root: root_branch,
        branches: branches_pool,
        leaves: leaves_pool,
        max_depth: Depth(1),
    };
    (tree, root_branch, branch_1)
}

#[test]
fn tree_debug_output() {
    let (tree, _, _) = two_level_tree();

    // 5. Print the debug output
    println!("{}", tree.debug_string());
}

#[test]
fn tree_debug_output_lines() {
    let (tree, _, _) = two_level_tree();
    let expected = "\
Tree { max_depth: Depth(1) }
Tree Structure:
└── Branch { address: Address { raw: 0x4000000000000000, is_end: false, is_solid: true, index: 0x0000000000000000 }, bitmask: ChildMask { raw: 0x0000000000000008, count: 1 } }
    └── Branch { address: Address { raw: 0xC000000000000000, is_end: true, is_solid: true, index: 0x0000000000000000 }, bitmask: ChildMask { raw: 0x0000000000000020, count: 1 } }
        └─▶ Leaf(123)
";
    assert_eq!(tree.debug_string(), expected);
}

#[test]
fn traversal_one_level() {
    // 1. Setup the leaf
    let leaf = Leaf::new(123u8);
    let mut leaves_pool = SlabPool::<Leaf<u8>>::new();
    let leaf_block_index = leaves_pool.slabs.0.push([Some(leaf)]);

    // 2. Setup the tree
    let root_branch = Branch {
        // Points to the leaf block, is an "end" branch, and is "solid"
        address: Address((1 << 63) | (1 << 62) | leaf_block_index as u64),
        // One child at slot 5
        bitmask: ChildMask(1 << 5),
    };

    let tree: Tree<u8> = Tree {
        root: root_branch,
        branches: SlabPool::new(),
        leaves: leaves_pool,
        max_depth: Depth(0),
    };

    // 3. Calculate coordinate that maps to slot 5 at depth 0
    let coordinate = Coordinate::new(1, 1, 0);

    // 4. Traverse and assert
    let context = tree.at(coordinate).unwrap();
    println!("{}", context.stack.debug_string());
    assert_eq!(context.stack.len(), 1);

    let step = &context.stack[0];
    assert!(step.to == root_branch.address);
    assert_eq!(step.slot.get(), 5);
}

#[test]
fn traversal_two_levels() {
    let (tree, root_branch, branch_1) = two_level_tree();

    // Depth 0 wants slot 3 -> local (3,0,0); depth 1 wants slot 5 -> local (1,1,0).
    // Combined coordinate: x=12|1=13, y=0|1=1, z=0|0=0
    let coordinate = Coordinate::new(13, 1, 0);

    // 6. Traverse and assert
    let context = tree.at(coordinate).unwrap();
    println!("\nTraversal stack for two-level traversal:");
    println!("{}", context.stack.debug_string());

    assert_eq!(context.stack.len(), 2);
    assert_eq!(context.stack[0].slot.get(), 3);
    assert!(context.stack[0].to == root_branch.address);
    assert_eq!(context.stack[1].slot.get(), 5);
    assert!(context.stack[1].to == branch_1.address);
}

#[test]
fn traversal_sparse_slot_stops() {
    let (tree, root_branch, _) = two_level_tree();
    // Depth 0 slot 0 is not set in the root's mask.
    let context = tree.at(Coordinate::new(0, 0, 0)).unwrap();
    assert_eq!(context.stack.len(), 1);
    assert!(context.stack[0].to == root_branch.address);
    assert_eq!(context.stack[0].slot.get(), 0);
}

#[test]
fn traversal_empty_tree_has_no_steps() {
    let tree: Tree<u8> = Tree::empty(Depth(3));
    let context = tree.at(Coordinate::new(5, 6, 7)).unwrap();
    assert_eq!(context.stack.len(), 0);
}

#[test]
fn traversal_missing_block_is_reported() {
    let root = Branch { address: Address(1 << 63), bitmask: ChildMask(1) };
    let tree: Tree<u8> = Tree {
        root,
        branches: SlabPool::new(),
        leaves: SlabPool::new(),
        max_depth: Depth(0),
    };
    assert!(matches!(tree.at(Coordinate::new(0, 0, 0)), Err(TraversalError::BlockNotFound)));
    let fork = Tree::<u8> {
        root: Branch { address: Address(0), bitmask: ChildMask(1) },
        branches: SlabPool::new(),
        leaves: SlabPool::new(),
        max_depth: Depth(1),
    };
    assert!(matches!(fork.at(Coordinate::new(0, 0, 0)), Err(TraversalError::BlockNotFound)));
}

#[test]
fn traversal_at_depth_and_mut() {
    let (mut tree, root_branch, _) = two_level_tree();
    let coordinate = Coordinate::new(13, 1, 0);
    let context = tree.at_depth(coordinate, Depth(0)).unwrap();
    assert_eq!(context.stack.len(), 1);
    assert!(context.stack[0].to == root_branch.address);
    let context = tree.at_mut(coordinate).unwrap();
    assert_eq!(context.stack.len(), 2);
    context.tree.max_depth = Depth(1);
    let context = tree.at_depth_mut(coordinate, Depth(0)).unwrap();
    assert_eq!(context.stack.len(), 1);
}

#[test]
fn depth_dimension_size_and_rendering() {
    assert_eq!(Depth(0).dimension_size(), 1);
    assert_eq!(Depth(1).dimension_size(), 4);
    assert_eq!(Depth(4).dimension_size(), 256);
    assert_eq!(Depth(15).dimension_size(), 1 << 30);
    assert_eq!(Depth(7).debug_string(), "Depth(7)");
    assert_eq!(*Depth(9), 9);
}

#[test]
fn traversal_defined_matches_depth_limits() {
    let (tree, _, _) = two_level_tree();
    assert!(tree.traversal_defined(Coordinate::new(13, 1, 0), Depth(1)));
    assert!(tree.traversal_defined(Coordinate::new(13, 1, 0), Depth(0)));
    // The traversal ends at the end branch of depth 1 before reaching depth 2.
    assert!(tree.traversal_defined(Coordinate::new(13, 1, 0), Depth(2)));
    // Read as a tree of depth 0, the fork at the root leads on to depth 1, which cannot be
    // localized: the shift would be negative.
    let (mut shallow, _, _) = two_level_tree();
    shallow.max_depth = Depth(0);
    assert!(!shallow.traversal_defined(Coordinate::new(3, 0, 0), Depth(1)));
    assert!(shallow.traversal_defined(Coordinate::new(3, 0, 0), Depth(0)));
    assert!(shallow.traversal_defined(Coordinate::new(0, 0, 0), Depth(1)));
}

fn solid_fork_tree() -> (Tree<u8>, Branch) {
    let mut leaves_pool = SlabPool::<Leaf<u8>>::new();
    let leaf_block_index = leaves_pool.slabs.0.push([Some(Leaf::new(5u8))]);
    let b1 = Branch {
        address: Address((1 << 63) | leaf_block_index as u64),
        bitmask: ChildMask(1 << 5),
    };
    let mut branches_pool = SlabPool::<Branch>::new();
    let index = branches_pool.slabs.0.push([Some(b1)]);
    // A solid fork with set bits 3 and 9: both lead to its one child, in a one-slot block.
    let root = Branch {
        address: Address((1 << 62) | index as u64),
        bitmask: ChildMask((1 << 3) | (1 << 9)),
    };
    let tree = Tree { root, branches: branches_pool, leaves: leaves_pool, max_depth: Depth(1) };
    (tree, b1)
}

#[test]
fn traversal_solid_fork_every_bit_leads_to_its_child() {
    let (tree, b1) = solid_fork_tree();
    // Depth 0 slot 3 (x = 3), depth 1 slot 5 (x = 1, y = 1).
    let context = tree.at_depth(Coordinate::new(13, 1, 0), Depth(1)).unwrap();
    assert_eq!(context.stack.len(), 2);
    assert_eq!(context.stack[0].slot.get(), 3);
    assert!(context.stack[1].to == b1.address);
    // Depth 0 slot 9 (x = 1, y = 2), depth 1 slot 5.
    let context = tree.at_depth(Coordinate::new(5, 9, 0), Depth(1)).unwrap();
    assert_eq!(context.stack.len(), 2);
    assert_eq!(context.stack[0].slot.get(), 9);
    assert!(context.stack[1].to == b1.address);
}

#[test]
fn tree_debug_output_solid_fork_draws_its_child_once() {
    let (tree, _) = solid_fork_tree();
    let expected = "\
Tree { max_depth: Depth(1) }
Tree Structure:
└── Branch { address: Address { raw: 0x4000000000000000, is_end: false, is_solid: true, index: 0x0000000000000000 }, bitmask: ChildMask { raw: 0x0000000000000208, count: 2 } }
    └── Branch { address: Address { raw: 0x8000000000000000, is_end: true, is_solid: false, index: 0x0000000000000000 }, bitmask: ChildMask { raw: 0x0000000000000020, count: 1 } }
        └─▶ Leaf(5)
";
    assert_eq!(tree.debug_string(), expected);
}
