use voxoil::pool::SlabPool;
use voxoil::tree::Depth;
use voxoil::util::{coordinate_to_slot, localize_coordinate, push_to_pool, Coordinate, CoordinatePackError};

#[test]
fn util_coordinate_to_slot() {
    let coord = Coordinate::new(1, 2, 3);
    assert_eq!(*coordinate_to_slot(coord).unwrap(), 0b11_10_01);

    let oob_x = Coordinate::new(4, 0, 0);
    assert!(coordinate_to_slot(oob_x).is_err());

    let oob_y = Coordinate::new(0, 4, 0);
    assert!(coordinate_to_slot(oob_y).is_err());

    let oob_z = Coordinate::new(0, 0, 4);
    assert!(coordinate_to_slot(oob_z).is_err());
}

#[test]
fn util_coordinate_to_slot_error_names_first_axis() {
    assert_eq!(
        coordinate_to_slot(Coordinate::new(5, 9, 0)).unwrap_err(),
        CoordinatePackError::OutOfRange { axis: 'x', value: 5 }
    );
    assert_eq!(
        coordinate_to_slot(Coordinate::new(3, 9, 7)).unwrap_err(),
        CoordinatePackError::OutOfRange { axis: 'y', value: 9 }
    );
    assert_eq!(
        coordinate_to_slot(Coordinate::new(0, 0, 4)).unwrap_err(),
        CoordinatePackError::OutOfRange { axis: 'z', value: 4 }
    );
    assert_eq!(coordinate_to_slot(Coordinate::new(3, 3, 3)).unwrap().get(), 63);
    assert_eq!(coordinate_to_slot(Coordinate::new(0, 0, 0)).unwrap().get(), 0);
}

#[test]
fn util_localize_coordinate() {
    let coordinate = Coordinate::new(13, 1, 0);
    let max_depth = Depth(1);

    let l0 = localize_coordinate(coordinate, Depth(0), max_depth);
    assert_eq!(l0, Coordinate::new(3, 0, 0));

    let l1 = localize_coordinate(coordinate, Depth(1), max_depth);
    assert_eq!(l1, Coordinate::new(1, 1, 0));
}

#[test]
fn util_localize_coordinate_deep() {
    // 0b10_01_11 at depths 0, 1, 2 of a tree of depth 2.
    let coordinate = Coordinate::new(0b10_01_11, 0b00_11_00, 0b11_00_01);
    let max_depth = Depth(2);
    assert_eq!(localize_coordinate(coordinate, Depth(0), max_depth), Coordinate::new(2, 0, 3));
    assert_eq!(localize_coordinate(coordinate, Depth(1), max_depth), Coordinate::new(1, 3, 0));
    assert_eq!(localize_coordinate(coordinate, Depth(2), max_depth), Coordinate::new(3, 0, 1));
}

#[test]
fn util_push_to_slab() {
    let mut pool = SlabPool::<u8>::new();
    let data = vec![10, 20, 30];
    let data_len = data.len();

    let slab_index = push_to_pool(&mut pool, data);

    // Data with length 3 should go into the slab for blocks of size 4.
    let slab = &pool.slabs.2;
    assert_eq!(slab_index, 0);

    let block = slab.get(slab_index).unwrap();

    // Verify the data was written correctly
    for i in 0..data_len {
        assert_eq!(block[i].unwrap(), (i + 1) as u8 * 10);
    }
    assert_eq!(block[3], None);
}

#[test]
fn util_push_to_pool_size_classes() {
    let mut pool = SlabPool::<u8>::new();
    assert_eq!(push_to_pool(&mut pool, vec![1]), 0);
    assert_eq!(push_to_pool(&mut pool, vec![1, 2]), 0);
    assert_eq!(push_to_pool(&mut pool, vec![0; 5]), 0);
    assert_eq!(push_to_pool(&mut pool, vec![0; 8]), 1);
    assert_eq!(push_to_pool(&mut pool, vec![0; 9]), 0);
    assert_eq!(push_to_pool(&mut pool, vec![0; 17]), 0);
    assert_eq!(push_to_pool(&mut pool, vec![0; 33]), 0);
    assert_eq!(push_to_pool(&mut pool, vec![0; 64]), 1);
    assert_eq!(pool.slabs.0.blocks.len(), 1);
    assert_eq!(pool.slabs.1.blocks.len(), 1);
    assert_eq!(pool.slabs.2.blocks.len(), 0);
    assert_eq!(pool.slabs.3.blocks.len(), 2);
    assert_eq!(pool.slabs.4.blocks.len(), 1);
    assert_eq!(pool.slabs.5.blocks.len(), 1);
    assert_eq!(pool.slabs.6.blocks.len(), 2);
}

#[test]
fn util_slot_round_trip() {
    for z in 0..4u32 {
        for y in 0..4u32 {
            for x in 0..4u32 {
                let s = coordinate_to_slot(Coordinate::new(x, y, z)).unwrap().get() as u32;
                assert_eq!(s % 4, x);
                assert_eq!((s / 4) % 4, y);
                assert_eq!(s / 16, z);
            }
        }
    }
}

#[test]
fn util_localized_digits_recompose() {
    let c = Coordinate::new(0xDEAD, 0xBEEF, 0x1234);
    let m = 7u8;
    let mut sum = (0u64, 0u64, 0u64);
    for d in 0..=m {
        let l = localize_coordinate(c, Depth(d), Depth(m));
        let w = 1u64 << (2 * (m - d));
        sum.0 += l.x as u64 * w;
        sum.1 += l.y as u64 * w;
        sum.2 += l.z as u64 * w;
    }
    let modulus = 1u64 << (2 * (m as u64 + 1));
    assert_eq!(sum, (0xDEAD % modulus, 0xBEEF % modulus, 0x1234 % modulus));
}

#[test]
fn util_localized_digits_or_back() {
    let c = Coordinate::new(0xDEAD, 0xBEEF, 0x1234);
    let m = 5u8;
    let mut acc = (0u64, 0u64, 0u64);
    for d in 0..=m {
        let l = localize_coordinate(c, Depth(d), Depth(m));
        let s = 2 * (m - d) as u64;
        acc.0 |= (l.x as u64) << s;
        acc.1 |= (l.y as u64) << s;
        acc.2 |= (l.z as u64) << s;
    }
    let mask = (1u64 << (2 * (m as u64 + 1))) - 1;
    assert_eq!(acc, (0xDEAD & mask, 0xBEEF & mask, 0x1234 & mask));
}
