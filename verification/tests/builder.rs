use voxoil::tree::builder::Builder;
use voxoil::tree::leaf::Leaf;
use voxoil::tree::Depth;
use voxoil::util::Coordinate;

#[test]
fn builder_empty_tree() {
    let tree = Builder::<u8>::new(Depth(3)).build();
    assert!(tree.root.is_empty());
    assert_eq!(tree.max_depth.0, 3);
    assert_eq!(tree.branches.memory(), 0);
    let tree = Builder::<u8>::new(Depth(3)).empty(Depth(5)).build();
    assert_eq!(tree.max_depth.0, 5);
}

#[test]
fn builder_one_level_from_mask() {
    let mask = 0b1010_0001u64;
    let tree = Builder::new(Depth(1))
        .filled_from_masks(Depth(1), Leaf::new(7u8), &[mask])
        .build();
    assert_eq!(tree.root.bitmask.0, mask);
    assert!(tree.root.is_end());
    assert_eq!(tree.root.address.index(), 0);
    // Three leaves go to the slab of blocks of 4.
    let block = tree.leaves.slabs.2.get(0).unwrap();
    assert_eq!(block, &[Some(Leaf(7)), Some(Leaf(7)), Some(Leaf(7)), None]);
    assert_eq!(tree.branches.slabs.6.blocks.len(), 0);
}

#[test]
fn builder_all_zero_masks_give_empty_root() {
    let masks = vec![0u64; 64];
    let tree = Builder::new(Depth(2))
        .filled_from_masks(Depth(2), Leaf::new(1u8), &masks)
        .build();
    assert!(tree.root.is_empty());
    assert_eq!(tree.root.address.0, 0);
    assert_eq!(tree.leaves.memory(), 0);
}

#[test]
fn builder_two_levels_traversal_finds_leaves() {
    let mut masks = vec![0u64; 64];
    masks[3] = 1 << 5;
    masks[10] = u64::MAX;
    let tree = Builder::new(Depth(2))
        .with_capacities((0, 0, 0, 0, 0, 0, 4), (0, 0, 0, 0, 0, 0, 4))
        .filled_from_masks(Depth(2), Leaf::new(9u8), &masks)
        .build();
    assert!(tree.root.is_fork());
    assert_eq!(tree.root.bitmask.0, (1 << 3) | (1 << 10));
    assert_eq!(tree.branches.slabs.1.blocks.len(), 1);
    assert_eq!(tree.leaves.slabs.0.blocks.len(), 1);
    assert_eq!(tree.leaves.slabs.6.blocks.len(), 1);
    // Slot 3 at depth 0 (x = 3), slot 5 at depth 1 (x = 1, y = 1): a tree of depth 2
    // localizes depth 0 with shift 4 and depth 1 with shift 2.
    let c = Coordinate::new((3 << 4) | (1 << 2), 1 << 2, 0);
    let context = tree.at(c).unwrap();
    assert_eq!(context.stack.len(), 2);
    assert_eq!(context.stack[0].slot.get(), 3);
    assert_eq!(context.stack[1].slot.get(), 5);
    assert!(context.stack[1].to.is_end());
    for x in 0..64u32 {
        assert!(tree.at(Coordinate::new(x, x / 2, x / 3)).is_ok());
    }
}

#[test]
fn builder_masks_needed_and_fits() {
    assert_eq!(Builder::<u8>::masks_needed(Depth(0)), Some(1));
    assert_eq!(Builder::<u8>::masks_needed(Depth(1)), Some(1));
    assert_eq!(Builder::<u8>::masks_needed(Depth(2)), Some(64));
    assert_eq!(Builder::<u8>::masks_needed(Depth(4)), Some(64 * 64 * 64));
    assert_eq!(Builder::<u8>::masks_needed(Depth(200)), None);
    let b = Builder::<u8>::new(Depth(4));
    assert!(b.fill_fits(Depth(4)));
    assert!(b.fill_fits(Depth(10)));
    assert!(!b.fill_fits(Depth(12)));
}

#[test]
fn builder_root_bits_follow_mask_chunks() {
    // Depth 3: 64 * 64 masks, 64 per child of the root.
    let mut masks = vec![0u64; 64 * 64];
    masks[64 * 7 + 63] = 1;
    masks[64 * 63] = 1 << 63;
    let tree = Builder::new(Depth(3))
        .filled_from_masks(Depth(3), Leaf::new(2u16), &masks)
        .build();
    assert_eq!(tree.root.bitmask.0, (1 << 7) | (1 << 63));
    assert_eq!(tree.root.bitmask.count(), 2);
    assert_eq!(tree.max_depth.0, 3);
}

#[test]
fn builder_zero_masks_push_nothing() {
    let masks = vec![0u64; 64 * 64];
    let tree = Builder::new(Depth(3))
        .filled_from_masks(Depth(3), Leaf::new(1u8), &masks)
        .build();
    assert_eq!(tree.root.address.0, 0);
    assert_eq!(tree.root.bitmask.0, 0);
    assert_eq!(tree.branches.slabs.0.blocks.len() + tree.branches.slabs.6.blocks.len(), 0);
    for n in [
        tree.leaves.slabs.0.blocks.len(),
        tree.leaves.slabs.1.blocks.len(),
        tree.leaves.slabs.2.blocks.len(),
        tree.leaves.slabs.3.blocks.len(),
        tree.leaves.slabs.4.blocks.len(),
        tree.leaves.slabs.5.blocks.len(),
        tree.leaves.slabs.6.blocks.len(),
    ] {
        assert_eq!(n, 0);
    }
}

#[test]
fn builder_one_full_mask() {
    let tree = Builder::new(Depth(1))
        .filled_from_masks(Depth(1), Leaf::new(7u8), &[u64::MAX])
        .build();
    assert!(tree.root.address == voxoil::tree::branch::Address(1 << 63));
    assert_eq!(tree.root.bitmask.0, u64::MAX);
    assert_eq!(tree.leaves.slabs.6.blocks.len(), 1);
    assert!(tree.leaves.slabs.6.blocks[0].iter().all(|l| *l == Some(Leaf(7))));
    assert_eq!(tree.leaves.slabs.5.blocks.len(), 0);
    assert_eq!(tree.branches.slabs.6.blocks.len(), 0);
}

#[test]
fn builder_full_tree_block_counts() {
    let masks = vec![u64::MAX; 64];
    let tree = Builder::new(Depth(2))
        .filled_from_masks(Depth(2), Leaf::new(3u8), &masks)
        .build();
    assert_eq!(tree.root.bitmask.0, u64::MAX);
    assert!(tree.root.address == voxoil::tree::branch::Address(0));
    assert_eq!(tree.branches.slabs.6.blocks.len(), 1);
    assert_eq!(tree.leaves.slabs.6.blocks.len(), 64);
    assert_eq!(tree.branches.slabs.0.blocks.len(), 0);
    assert_eq!(tree.leaves.slabs.0.blocks.len(), 0);
    for x in (0..16u32).step_by(3) {
        let context = tree.at(Coordinate::new(x, 15 - x, x / 2)).unwrap();
        assert_eq!(context.stack.len(), 2);
    }
}

#[test]
fn builder_children_take_blocks_in_slot_order() {
    let mut masks = vec![0u64; 64];
    masks[4] = u64::MAX;
    masks[9] = u64::MAX;
    let tree = Builder::new(Depth(2))
        .filled_from_masks(Depth(2), Leaf::new(6u8), &masks)
        .build();
    assert_eq!(tree.root.bitmask.0, (1 << 4) | (1 << 9));
    assert!(tree.root.address == voxoil::tree::branch::Address(0));
    assert_eq!(tree.leaves.slabs.6.blocks.len(), 2);
    let block = tree.branches.slabs.1.get(0).unwrap();
    let first = block[0].unwrap();
    let second = block[1].unwrap();
    assert!(first.address == voxoil::tree::branch::Address((1 << 63) | 0));
    assert!(second.address == voxoil::tree::branch::Address((1 << 63) | 1));
    assert_eq!(first.bitmask.0, u64::MAX);
    assert_eq!(second.bitmask.0, u64::MAX);
}
