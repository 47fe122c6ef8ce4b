//! Coordinates: packing a local coordinate into a child slot, and localizing a
//! coordinate to one depth of the tree.
use vstd::prelude::*;

use vstd::arithmetic::power2::{lemma2_to64, lemma_pow2_adds, lemma_pow2_pos, pow2};

use crate::pool::{
    block_contents, class_size, push_defined, size_class, slab_push, vacant, vacant_block, Block,
    Slab, SlabPool,
};
use crate::tree::traversal::ChildSlot;
use crate::tree::Depth;

verus! {

/// A coordinate with three unsigned components.
#[derive(Clone, Copy, PartialEq, Eq, Structural, Debug)]
pub struct Coordinate {
    pub x: u32,
    pub y: u32,
    pub z: u32,
}

impl Coordinate {
    /// Returns the coordinate `(x, y, z)`.
    pub fn new(x: u32, y: u32, z: u32) -> (c: Self)
        ensures
            c.x == x,
            c.y == y,
            c.z == z,
    {
        Coordinate { x, y, z }
    }
}

/// The error of packing a coordinate whose component does not fit in two bits.
#[derive(Clone, Copy, PartialEq, Eq, Structural, Debug)]
pub enum CoordinatePackError {
    OutOfRange { axis: char, value: u32 },
}

/// Whether each component of `c` is in `0..=3`.
pub open spec fn coordinate_in_range(c: Coordinate) -> bool {
    c.x <= 3 && c.y <= 3 && c.z <= 3
}

/// The child slot of a local coordinate: `z` in bits 4..=5, `y` in bits 2..=3, `x` in bits 0..=1.
pub open spec fn slot_of(c: Coordinate) -> u8 {
    (c.z * 16 + c.y * 4 + c.x) as u8
}

/// The error reported for a coordinate out of range: the first offending axis in the order x, y, z.
pub open spec fn pack_error(c: Coordinate) -> CoordinatePackError {
    if c.x > 3 {
        CoordinatePackError::OutOfRange { axis: 'x', value: c.x }
    } else if c.y > 3 {
        CoordinatePackError::OutOfRange { axis: 'y', value: c.y }
    } else {
        CoordinatePackError::OutOfRange { axis: 'z', value: c.z }
    }
}

/// Packs a 3D coordinate into a 6-bit child slot (0..=63).
///
/// Each component (`x`, `y`, `z`) must be in the range `[0..=3]`.
pub fn coordinate_to_slot(coordinate: Coordinate) -> (r: Result<ChildSlot, CoordinatePackError>)
    ensures
        r is Ok <==> coordinate_in_range(coordinate),
        r matches Ok(s) ==> s@ == slot_of(coordinate),
        r matches Err(e) ==> e == pack_error(coordinate),
{
    if coordinate.x > 0b11 {
        return Err(CoordinatePackError::OutOfRange { axis: 'x', value: coordinate.x });
    }
    if coordinate.y > 0b11 {
        return Err(CoordinatePackError::OutOfRange { axis: 'y', value: coordinate.y });
    }
    if coordinate.z > 0b11 {
        return Err(CoordinatePackError::OutOfRange { axis: 'z', value: coordinate.z });
    }
    let x = coordinate.x;
    let y = coordinate.y;
    let z = coordinate.z;
    let packed: u32 = (z << 4) | (y << 2) | x;
    assert(packed == z * 16 + y * 4 + x && packed < 64) by (bit_vector)
        requires
            x <= 3,
            y <= 3,
            z <= 3,
            packed == (z << 4) | (y << 2) | x,
    ;
    let slot = ChildSlot::new(packed as u8);
    Ok(slot.unwrap())
}

/// The shift that brings the two bits of depth `depth` down to bits 0..=1, in a tree of
/// depth `max_depth`: twice the difference of the depths, with each doubling taken in `u8`.
pub open spec fn localize_shift(depth: Depth, max_depth: Depth) -> int {
    ((max_depth.0 * 2) % 256) - ((depth.0 * 2) % 256)
}

/// Whether localizing to `depth` in a tree of depth `max_depth` is defined: the shift is
/// not negative and below the width of a component.
pub open spec fn localize_defined(depth: Depth, max_depth: Depth) -> bool {
    0 <= localize_shift(depth, max_depth) < 32
}

/// The two bits of component `v` at shift `shift`.
pub open spec fn local_component(v: u32, shift: int) -> u32 {
    (v >> (shift as u32)) & 3
}

/// The local coordinate of `c` at depth `depth` in a tree of depth `max_depth`.
pub open spec fn localized(c: Coordinate, depth: Depth, max_depth: Depth) -> Coordinate {
    let s = localize_shift(depth, max_depth);
    Coordinate {
        x: local_component(c.x, s),
        y: local_component(c.y, s),
        z: local_component(c.z, s),
    }
}

/// A localized coordinate is a local coordinate: each component is in `0..=3`, and its
/// slot is below 64.
pub proof fn lemma_localized_in_range(c: Coordinate, depth: Depth, max_depth: Depth)
    ensures
        coordinate_in_range(localized(c, depth, max_depth)),
        slot_of(localized(c, depth, max_depth)) < 64,
        slot_of(localized(c, depth, max_depth)) as int == localized(c, depth, max_depth).z * 16
            + localized(c, depth, max_depth).y * 4 + localized(c, depth, max_depth).x,
{
    let s = localize_shift(depth, max_depth) as u32;
    let x = c.x;
    let y = c.y;
    let z = c.z;
    assert((x >> s) & 3 <= 3 && (y >> s) & 3 <= 3 && (z >> s) & 3 <= 3) by (bit_vector);
}

fn local_bits(v: u32, index: u8) -> (r: u32)
    requires
        index < 32,
    ensures
        r == (v >> (index as u32)) & 3,
        r <= 3,
{
    let mask: u32 = 0b11u32 << index;
    let r = (v & mask) >> index;
    assert(r == (v >> (index as u32)) & 3 && r <= 3) by (bit_vector)
        requires
            index < 32,
            mask == 3u32 << index,
            r == (v & mask) >> index,
    ;
    r
}

/// Returns the local coordinate (each component in `0..=3`) of `coordinate` at `depth`
/// in a tree of depth `max_depth`.
pub fn localize_coordinate(coordinate: Coordinate, depth: Depth, max_depth: Depth) -> (r: Coordinate)
    requires
        localize_defined(depth, max_depth),
    ensures
        r == localized(coordinate, depth, max_depth),
        coordinate_in_range(r),
{
    let m: u8 = max_depth.0 << 1;
    let d: u8 = depth.0 << 1;
    let md = max_depth.0;
    let dd = depth.0;
    assert(m == (md * 2) % 256 && d == (dd * 2) % 256) by (bit_vector)
        requires
            m == md << 1,
            d == dd << 1,
    ;
    let index: u8 = m - d;
    let x = local_bits(coordinate.x, index);
    let y = local_bits(coordinate.y, index);
    let z = local_bits(coordinate.z, index);
    Coordinate { x, y, z }
}

/// The block for `data` in a block of `size` slots: the values in order, then vacant slots.
pub open spec fn filled<T>(data: Seq<T>, size: nat) -> Seq<Option<T>> {
    Seq::new(size, |i: int| if i < data.len() { Some(data[i]) } else { None })
}

/// Creates a block of `SIZE` slots, fills its first slots with `data` and pushes it to
/// `slab`, returning the index of the block.
pub fn push_to_slab<T, const SIZE: usize>(slab: &mut Slab<T, SIZE>, data: Vec<T>) -> (index: usize)
    requires
        data@.len() <= SIZE,
        push_defined(old(slab)@),
    ensures
        exists|b: Block<T, SIZE>|
            b@ == filled(data@, SIZE as nat) && (final(slab)@, index as int) == slab_push(
                old(slab)@,
                b,
            ),
{
    let ghost items = data@;
    let n = data.len();
    let mut data = data;
    let mut block = vacant_block::<T, SIZE>();
    let mut i = n;
    while i > 0
        invariant
            i <= n,
            n == items.len(),
            n <= SIZE,
            data@ == items.take(i as int),
            block@ == Seq::new(
                SIZE as nat,
                |j: int|
                    if i <= j < n {
                        Some(items[j])
                    } else {
                        None::<T>
                    },
            ),
        decreases i,
    {
        i = i - 1;
        let item = data.pop().unwrap();
        assert(item == items[i as int]);
        block[i] = Some(item);
        assert(data@ =~= items.take(i as int));
        assert(block@ =~= Seq::new(
            SIZE as nat,
            |j: int|
                if i <= j < n {
                    Some(items[j])
                } else {
                    None::<T>
                },
        ));
    }
    assert(block@ =~= filled(items, SIZE as nat));
    slab.push(block)
}

/// Pushes `data` (1 to 64 values) to the slab of `pool` whose blocks are the smallest that
/// hold them, and returns the index of the new block in that slab.
pub fn push_to_pool<T>(pool: &mut SlabPool<T>, data: Vec<T>) -> (index: usize)
    requires
        1 <= data@.len() <= 64,
        push_defined(old(pool).class_state(size_class(data@.len() as int))),
    ensures
        ({
            let k = size_class(data@.len() as int);
            &&& (final(pool).class_state(k), index as int) == slab_push(
                old(pool).class_state(k),
                filled(data@, class_size(k)),
            )
            &&& forall|j: int| 0 <= j < 7 && j != k ==> #[trigger] final(pool).class_state(j) == old(pool).class_state(j)
        }),
{
    let ghost items = data@;
    let len = data.len();
    if len == 1 {
        let r = push_to_slab(&mut pool.slabs.0, data);
        proof { lemma_push_contents(old(pool).slabs.0@, pool.slabs.0@, items, r as int); }
        r
    } else if len == 2 {
        let r = push_to_slab(&mut pool.slabs.1, data);
        proof { lemma_push_contents(old(pool).slabs.1@, pool.slabs.1@, items, r as int); }
        r
    } else if len <= 4 {
        let r = push_to_slab(&mut pool.slabs.2, data);
        proof { lemma_push_contents(old(pool).slabs.2@, pool.slabs.2@, items, r as int); }
        r
    } else if len <= 8 {
        let r = push_to_slab(&mut pool.slabs.3, data);
        proof { lemma_push_contents(old(pool).slabs.3@, pool.slabs.3@, items, r as int); }
        r
    } else if len <= 16 {
        let r = push_to_slab(&mut pool.slabs.4, data);
        proof { lemma_push_contents(old(pool).slabs.4@, pool.slabs.4@, items, r as int); }
        r
    } else if len <= 32 {
        let r = push_to_slab(&mut pool.slabs.5, data);
        proof { lemma_push_contents(old(pool).slabs.5@, pool.slabs.5@, items, r as int); }
        r
    } else {
        let r = push_to_slab(&mut pool.slabs.6, data);
        proof { lemma_push_contents(old(pool).slabs.6@, pool.slabs.6@, items, r as int); }
        r
    }
}

/// A push to a slab, seen through the contents of its blocks.
proof fn lemma_push_contents<T, const SIZE: usize>(
    s: (Seq<Block<T, SIZE>>, Seq<usize>),
    t: (Seq<Block<T, SIZE>>, Seq<usize>),
    data: Seq<T>,
    index: int,
)
    requires
        push_defined(s),
        exists|b: Block<T, SIZE>|
            b@ == filled(data, SIZE as nat) && (t, index) == slab_push(s, b),
    ensures
        ((block_contents(t.0), t.1), index) == slab_push(
            (block_contents(s.0), s.1),
            filled(data, SIZE as nat),
        ),
{
    let b = choose|b: Block<T, SIZE>|
        b@ == filled(data, SIZE as nat) && (t, index) == slab_push(s, b);
    let (u, k) = slab_push((block_contents(s.0), s.1), filled(data, SIZE as nat));
    if s.1.len() > 0 {
        assert(t.0 == s.0.update(s.1.last() as int, b));
        assert forall|j: int| 0 <= j < t.0.len() implies block_contents(t.0)[j] == u.0[j] by {
            if j == s.1.last() as int {
            } else {
            }
        }
    } else {
        assert(t.0 == s.0.push(b));
        assert forall|j: int| 0 <= j < t.0.len() implies block_contents(t.0)[j] == u.0[j] by {
            if j < s.0.len() {
            }
        }
    }
    assert(block_contents(t.0) =~= u.0);
}

/// The block at `index` of the slab of `pool` that holds `count` values (1..=64), as a
/// slice of its slots, if there is such a block.
pub fn block_by_count<T>(pool: &SlabPool<T>, count: u32, index: usize) -> (r: Option<&[Option<T>]>)
    requires
        1 <= count <= 64,
    ensures
        r is Some <==> index < pool.class_state(size_class(count as int)).0.len(),
        r matches Some(b) ==> b@ == pool.class_state(size_class(count as int)).0[index as int],
{
    if count == 1 {
        match pool.slabs.0.get(index) {
            Some(b) => Some(b.as_slice()),
            None => None,
        }
    } else if count == 2 {
        match pool.slabs.1.get(index) {
            Some(b) => Some(b.as_slice()),
            None => None,
        }
    } else if count <= 4 {
        match pool.slabs.2.get(index) {
            Some(b) => Some(b.as_slice()),
            None => None,
        }
    } else if count <= 8 {
        match pool.slabs.3.get(index) {
            Some(b) => Some(b.as_slice()),
            None => None,
        }
    } else if count <= 16 {
        match pool.slabs.4.get(index) {
            Some(b) => Some(b.as_slice()),
            None => None,
        }
    } else if count <= 32 {
        match pool.slabs.5.get(index) {
            Some(b) => Some(b.as_slice()),
            None => None,
        }
    } else {
        match pool.slabs.6.get(index) {
            Some(b) => Some(b.as_slice()),
            None => None,
        }
    }
}

/// A slot gives the components of its local coordinate back: `x` in its two low bits, then
/// `y`, then `z`.
pub proof fn lemma_slot_round_trip(c: Coordinate)
    requires
        coordinate_in_range(c),
    ensures
        slot_of(c) < 64,
        slot_of(c) % 4 == c.x,
        (slot_of(c) / 4) % 4 == c.y,
        slot_of(c) / 16 == c.z,
{
}

/// Packing is one-to-one on local coordinates.
pub proof fn lemma_slot_injective(a: Coordinate, b: Coordinate)
    requires
        coordinate_in_range(a),
        coordinate_in_range(b),
        slot_of(a) == slot_of(b),
    ensures
        a == b,
{
    lemma_slot_round_trip(a);
    lemma_slot_round_trip(b);
}

/// The base-4 digits `0..k` of `v`, each two-bit component at its weight, summed.
pub open spec fn digit_sum(v: u32, k: nat) -> int
    decreases k,
{
    if k == 0 {
        0
    } else {
        digit_sum(v, (k - 1) as nat) + local_component(v, 2 * (k - 1)) * pow2(
            2 * (k - 1) as nat,
        )
    }
}

proof fn lemma_digit_sum_mod(v: u32, k: nat)
    requires
        k <= 16,
    ensures
        digit_sum(v, k) == (v as int) % (pow2(2 * k) as int),
    decreases k,
{
    lemma2_to64();
    if k == 0 {
    } else {
        let j = (k - 1) as nat;
        lemma_digit_sum_mod(v, j);
        let s = (2 * j) as u32;
        let w = pow2(2 * j) as int;
        lemma_pow2_pos(2 * j);
        vstd::bits::lemma_u32_shr_is_div(v, s);
        let sh = v >> s;
        assert(sh & 3 == sh % 4) by (bit_vector);
        assert(local_component(v, 2 * j as int) == (v as int / w) % 4);
        lemma_pow2_adds(2 * j, 2);
        assert(2 * k == 2 * j + 2);
        vstd::arithmetic::div_mod::lemma_mod_breakdown(v as int, w, 4);
        assert(pow2(2 * k) as int == w * 4);
        assert(local_component(v, 2 * j as int) * w == w * ((v as int / w) % 4)) by (nonlinear_arith)
            requires
                local_component(v, 2 * j as int) == (v as int / w) % 4,
        ;
    }
}

/// The mask of the low `2 * k` bits.
pub open spec fn low_bits(k: nat) -> u64 {
    ((1u64 << (2 * k) as u64) - 1) as u64
}

/// The two-bit components of `v` at shifts `0, 2, .., 2 * (k - 1)`, each shifted back into
/// place, OR-ed together.
pub open spec fn digit_or(v: u32, k: nat) -> u64
    decreases k,
{
    if k == 0 {
        0
    } else {
        digit_or(v, (k - 1) as nat) | ((local_component(v, 2 * (k - 1)) as u64) << (2 * (k
            - 1)) as u64)
    }
}

proof fn lemma_digit_or_mask(v: u32, k: nat)
    requires
        k <= 16,
    ensures
        digit_or(v, k) == (v as u64) & low_bits(k),
    decreases k,
{
    let x = v as u64;
    if k == 0 {
        assert(x & ((1u64 << 0u64) - 1) as u64 == 0) by (bit_vector);
    } else {
        let j = (k - 1) as nat;
        lemma_digit_or_mask(v, j);
        let s = (2 * j) as u64;
        let sv = s as u32;
        let d = (v >> sv) & 3;
        assert(d as u64 == (x >> s) & 3) by (bit_vector)
            requires
                x == v as u64,
                sv == s,
                s < 32,
                d == (v >> sv) & 3,
        ;
        assert((x & ((1u64 << s) - 1) as u64) | (((x >> s) & 3) << s) == x & ((1u64 << (s + 2)) - 1) as u64)
            by (bit_vector)
            requires
                s <= 30,
        ;
        assert((2 * k) as u64 == s + 2);
    }
}

/// The local coordinates of a coordinate at the depths of a tree make up the coordinate: at
/// depth `d` of a tree of depth `m` (at most 15) each component is the base-4 digit
/// `m - d` of the coordinate's component, and these digits, each at its weight, sum to the
/// component modulo `4^(m + 1)`; OR-ed together, each shifted back into place, they give
/// the component's low `2 * (m + 1)` bits.
pub proof fn lemma_localized_digits(c: Coordinate, m: u8)
    requires
        m <= 15,
    ensures
        forall|d: u8| #![trigger localized(c, Depth(d), Depth(m))]
            d <= m ==> {
                let l = localized(c, Depth(d), Depth(m));
                &&& localize_defined(Depth(d), Depth(m))
                &&& l.x == local_component(c.x, 2 * (m - d))
                &&& l.y == local_component(c.y, 2 * (m - d))
                &&& l.z == local_component(c.z, 2 * (m - d))
            },
        digit_sum(c.x, m as nat + 1) == (c.x as int) % (pow2(
            2 * (m as nat + 1),
        ) as int),
        digit_sum(c.y, m as nat + 1) == (c.y as int) % (pow2(
            2 * (m as nat + 1),
        ) as int),
        digit_sum(c.z, m as nat + 1) == (c.z as int) % (pow2(
            2 * (m as nat + 1),
        ) as int),
        digit_or(c.x, m as nat + 1) == (c.x as u64) & low_bits(m as nat + 1),
        digit_or(c.y, m as nat + 1) == (c.y as u64) & low_bits(m as nat + 1),
        digit_or(c.z, m as nat + 1) == (c.z as u64) & low_bits(m as nat + 1),
{
    lemma_digit_or_mask(c.x, m as nat + 1);
    lemma_digit_or_mask(c.y, m as nat + 1);
    lemma_digit_or_mask(c.z, m as nat + 1);
    lemma_digit_sum_mod(c.x, m as nat + 1);
    lemma_digit_sum_mod(c.y, m as nat + 1);
    lemma_digit_sum_mod(c.z, m as nat + 1);
}

} // verus!
