use voxoil::pool::{Slab, SlabPool};

#[test]
fn pool_slab_debug_output() {
    let mut slab = Slab::<u8, 1>::new();

    // Allocate 4 blocks
    slab.allocate();
    slab.allocate();
    slab.allocate();
    slab.allocate();

    // Free blocks at index 1 and 3
    slab.free(1);
    slab.free(3);

    let debug_output = slab.debug_string();
    assert_eq!(debug_output, "Slab { capacity: 4, blocks: [A][F][A][F] }");
}

#[test]
fn pool_slab_debug_output_empty() {
    let slab = Slab::<u8, 2>::new();
    assert_eq!(slab.debug_string(), "Slab { capacity: 0, blocks: [] }");
}

#[test]
fn pool_push_then_get_reads_block() {
    let mut slab = Slab::<u32, 2>::new();
    let a = slab.push([Some(1), Some(2)]);
    let b = slab.push([Some(3), None]);
    assert_eq!(a, 0);
    assert_eq!(b, 1);
    assert_eq!(slab.get(a), Some(&[Some(1), Some(2)]));
    assert_eq!(slab.get(b), Some(&[Some(3), None]));
    assert_eq!(slab.get(2), None);
}

#[test]
fn pool_free_then_allocate_reuses_index() {
    let mut slab = Slab::<u32, 1>::new();
    let a = slab.allocate();
    let b = slab.allocate();
    assert_eq!((a, b), (0, 1));
    assert_eq!(slab.get(b), Some(&[None]));
    slab.free(a);
    assert_eq!(slab.allocate(), a);
    assert_eq!(slab.allocate(), 2);
}

#[test]
fn pool_free_then_push_overwrites_block() {
    let mut slab = Slab::<u32, 1>::new();
    slab.push([Some(7)]);
    slab.push([Some(8)]);
    slab.free(0);
    let i = slab.push([Some(9)]);
    assert_eq!(i, 0);
    assert_eq!(slab.get(0), Some(&[Some(9)]));
    assert_eq!(slab.get(1), Some(&[Some(8)]));
    assert!(slab.free_blocks.is_empty());
}

#[test]
fn pool_alloc_mut_writes_block() {
    let mut slab = Slab::<u32, 2>::new();
    {
        let block = slab.alloc_mut();
        assert_eq!(*block, [None, None]);
        block[1] = Some(5);
    }
    assert_eq!(slab.get(0), Some(&[None, Some(5)]));
    if let Some(block) = slab.get_mut(0) {
        block[0] = Some(4);
    }
    assert_eq!(slab.get(0), Some(&[Some(4), Some(5)]));
    assert!(slab.get_mut(1).is_none());
}

#[test]
fn pool_memory_counts_capacities() {
    let slab = Slab::<u8, 4>::with_capacity(10);
    let m = slab.memory();
    assert!(m >= 10 * std::mem::size_of::<[Option<u8>; 4]>());
    let empty = Slab::<u8, 4>::new();
    assert_eq!(empty.memory(), 0);
    let pool = SlabPool::<u8>::with_capacity(3);
    assert!(pool.memory() >= 3 * std::mem::size_of::<[Option<u8>; 64]>());
    assert_eq!(SlabPool::<u8>::new().memory(), 0);
    let pool = SlabPool::<u8>::with_capacities((1, 0, 0, 0, 0, 0, 0));
    assert!(pool.memory() >= std::mem::size_of::<[Option<u8>; 1]>());
}
