use voxoil::tree::branch::{Address, Branch, ChildMask};
use voxoil::util::{coordinate_to_slot, Coordinate};

#[test]
fn branch_address_flags() {
    let end_address = Address(1 << 63);
    assert!(end_address.is_end());
    assert!(!end_address.is_fork());

    let fork_address = Address(0);
    assert!(fork_address.is_fork());
    assert!(!fork_address.is_end());

    let solid_address = Address(1 << 62);
    assert!(solid_address.is_solid());
    assert!(!solid_address.is_composite());

    let composite_address = Address(0);
    assert!(composite_address.is_composite());
    assert!(!composite_address.is_solid());
}

#[test]
fn branch_address_index_drops_flags() {
    let a = Address((1 << 63) | (1 << 62) | 42);
    assert_eq!(a.index(), 42);
    assert_eq!(Address(0x3FFF_FFFF_FFFF_FFFF).index(), 0x3FFF_FFFF_FFFF_FFFF);
    let b = Branch { address: a, bitmask: ChildMask(0) };
    assert!(b.is_end() && b.is_solid() && b.is_empty());
    assert!(!b.is_fork() && !b.is_composite());
}

#[test]
fn branch_childmask_operations() {
    let mut mask = ChildMask::default();
    assert!(mask.is_empty());
    assert_eq!(mask.count(), 0);
    assert_eq!(mask.first_child_index(), None);
    assert_eq!(mask.last_child_index(), None);

    let coord1 = Coordinate::new(1, 1, 1);
    let coord2 = Coordinate::new(2, 2, 2);
    let coord3 = Coordinate::new(3, 3, 3);

    // Set a bit
    mask.set(coord1).unwrap();
    assert!(!mask.is_empty());
    assert_eq!(mask.count(), 1);
    assert!(mask.get(coord1).unwrap());
    assert!(!mask.get(coord2).unwrap());

    // Set another bit
    mask.set(coord2).unwrap();
    assert_eq!(mask.count(), 2);
    assert!(mask.get(coord2).unwrap());

    // Test dense index
    let slot1 = coordinate_to_slot(coord1).unwrap();
    let slot2 = coordinate_to_slot(coord2).unwrap();
    assert_eq!(mask.dense_index_of(slot1), 0);
    assert_eq!(mask.dense_index_of(slot2), 1);

    // Unset a bit
    mask.unset(coord1).unwrap();
    assert_eq!(mask.count(), 1);
    assert!(!mask.get(coord1).unwrap());
    assert_eq!(mask.dense_index_of(slot2), 0);

    // Test first/last child
    mask.set(coord3).unwrap();
    let slot3 = coordinate_to_slot(coord3).unwrap();
    assert_eq!(mask.first_child_index(), Some(slot2.get() as u32));
    assert_eq!(mask.last_child_index(), Some(slot3.get() as u32));
}

#[test]
fn branch_childmask_rejects_out_of_range() {
    let mut mask = ChildMask(0b1010);
    assert!(mask.get(Coordinate::new(4, 0, 0)).is_err());
    assert!(mask.set(Coordinate::new(0, 4, 0)).is_err());
    assert!(mask.unset(Coordinate::new(0, 0, 4)).is_err());
    assert_eq!(*mask, 0b1010);
}

#[test]
fn branch_childmask_renderings() {
    assert_eq!(
        ChildMask(0b1011).debug_string(),
        "ChildMask { raw: 0x000000000000000B, count: 3 }"
    );
    assert_eq!(
        Address(0xC000000000000001).debug_string(),
        "Address { raw: 0xC000000000000001, is_end: true, is_solid: true, index: 0x0000000000000001 }"
    );
    let b = Branch { address: Address(5), bitmask: ChildMask(1 << 63) };
    assert_eq!(
        b.debug_string(),
        "Branch { address: Address { raw: 0x0000000000000005, is_end: false, is_solid: false, index: 0x0000000000000005 }, bitmask: ChildMask { raw: 0x8000000000000000, count: 1 } }"
    );
    assert_eq!(ChildMask(u64::MAX).count(), 64);
    assert_eq!(ChildMask(u64::MAX).first_child_index(), Some(0));
    assert_eq!(ChildMask(u64::MAX).last_child_index(), Some(63));
    assert_eq!(ChildMask(1 << 40).first_child_index(), Some(40));
}

#[test]
fn branch_set_then_unset_restores_mask() {
    let mut mask = ChildMask(0b1000_0001);
    let c = Coordinate::new(2, 1, 0); // slot 6
    assert!(!mask.get(c).unwrap());
    mask.set(c).unwrap();
    assert!(mask.get(c).unwrap());
    assert_eq!(mask.count(), 3);
    mask.unset(c).unwrap();
    assert_eq!(mask.0, 0b1000_0001);
    // Dense indices follow slot order.
    let mask = ChildMask(0b1011_0000);
    let s4 = voxoil::tree::traversal::ChildSlot::new(4).unwrap();
    let s5 = voxoil::tree::traversal::ChildSlot::new(5).unwrap();
    let s7 = voxoil::tree::traversal::ChildSlot::new(7).unwrap();
    assert_eq!(mask.dense_index_of(s4), 0);
    assert_eq!(mask.dense_index_of(s5), 1);
    assert_eq!(mask.dense_index_of(s7), 2);
}
