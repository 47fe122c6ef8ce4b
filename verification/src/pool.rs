//! A slab allocator for fixed-size blocks, and a pool of slabs for different block sizes.
use vstd::prelude::*;

use vstd::layout::size_of;

use crate::text::push_decimal;

verus! {

/// A fixed-size block of slots; `None` marks a slot that holds no value yet.
pub type Block<T, const SIZE: usize> = [Option<T>; SIZE];

/// A slab allocator for fixed-size blocks of memory.
pub struct Slab<T, const SIZE: usize> {
    pub blocks: Vec<Block<T, SIZE>>,
    pub free_blocks: Vec<usize>,
    /// The number of blocks that room was reserved for when the slab was made.
    pub reserved: usize,
}

/// A pool of slabs for blocks of 1, 2, 4, 8, 16, 32 and 64 slots.
pub struct SlabPool<T> {
    pub slabs: (
        Slab<T, 1>,
        Slab<T, 2>,
        Slab<T, 4>,
        Slab<T, 8>,
        Slab<T, 16>,
        Slab<T, 32>,
        Slab<T, 64>,
    ),
}

/// The abstract state of a slab: its blocks, and its free list (last freed last).
pub type SlabState<B> = (Seq<B>, Seq<usize>);

/// The contents of a block that holds no value.
pub open spec fn vacant<T>(size: nat) -> Seq<Option<T>> {
    Seq::new(size, |i: int| None::<T>)
}

/// Whether `b` is a block that holds no value.
pub open spec fn is_vacant_block<T, const SIZE: usize>(b: Block<T, SIZE>) -> bool {
    b@ == vacant::<T>(SIZE as nat)
}

/// Whether a push writes into a block that exists: the free list is empty, or its last
/// index is below the number of blocks.
pub open spec fn push_defined<B>(s: SlabState<B>) -> bool {
    s.1.len() > 0 ==> s.1.last() < s.0.len()
}

/// The state after pushing `block`, and the index it was stored at.
pub open spec fn slab_push<B>(s: SlabState<B>, block: B) -> (SlabState<B>, int) {
    if s.1.len() > 0 {
        ((s.0.update(s.1.last() as int, block), s.1.drop_last()), s.1.last() as int)
    } else {
        ((s.0.push(block), s.1), s.0.len() as int)
    }
}

/// Whether `t` and `index` are a state and index that an allocation from `s` gives: a
/// reused index keeps its block, a new index past the last gets a vacant block.
pub open spec fn allocated<T, const SIZE: usize>(
    s: SlabState<Block<T, SIZE>>,
    t: SlabState<Block<T, SIZE>>,
    index: int,
) -> bool {
    if s.1.len() > 0 {
        t == (s.0, s.1.drop_last()) && index == s.1.last() as int
    } else {
        &&& index == s.0.len()
        &&& t.1 == s.1
        &&& t.0.len() == s.0.len() + 1
        &&& t.0.drop_last() == s.0
        &&& is_vacant_block(t.0.last())
    }
}

/// The state after freeing `index`.
pub open spec fn slab_free<B>(s: SlabState<B>, index: usize) -> SlabState<B> {
    (s.0, s.1.push(index))
}

/// The block at `index`, if there is one.
pub open spec fn slab_get<B>(s: SlabState<B>, index: int) -> Option<B> {
    if 0 <= index < s.0.len() {
        Some(s.0[index])
    } else {
        None
    }
}

/// The bytes that `count` values of type `V` span.
pub open spec fn bytes_of<V>(count: nat) -> int {
    (size_of::<V>() * count) as int
}

/// Whether `index` is on the free list.
pub open spec fn is_freed(free: Seq<usize>, index: int) -> bool {
    exists|j: int| 0 <= j < free.len() && free[j] as int == index
}

/// The letter of block `index` in the debug rendering: `F` when freed, `A` otherwise.
pub open spec fn block_state_char(free: Seq<usize>, index: int) -> char {
    if is_freed(free, index) {
        'F'
    } else {
        'A'
    }
}

/// `[s]` for the state letter of each of the first `n` blocks.
pub open spec fn block_states_text(free: Seq<usize>, n: nat) -> Seq<char>
    decreases n,
{
    if n == 0 {
        Seq::empty()
    } else {
        block_states_text(free, (n - 1) as nat) + seq!['[', block_state_char(free, n - 1), ']']
    }
}

/// The debug rendering of a slab with `n` blocks and free list `free`.
pub open spec fn slab_debug_text(n: nat, free: Seq<usize>) -> Seq<char> {
    "Slab { capacity: "@ + crate::text::dec_digits(n) + ", blocks: "@ + if n == 0 {
        "[] }"@
    } else {
        block_states_text(free, n) + " }"@
    }
}

fn vacant_slot<T>(_i: usize) -> (r: Option<T>)
    ensures
        r is None,
{
    None
}

/// A block with every slot vacant, built by `core::array::from_fn` over a function that
/// returns `None` for every index.
#[verifier::external_body]
pub(crate) fn vacant_block<T, const SIZE: usize>() -> (b: Block<T, SIZE>)
    ensures
        is_vacant_block(b),
{
    core::array::from_fn(vacant_slot::<T>)
}

/// The capacity of a vector (`Vec::capacity`). The contract claims what the standard
/// library documents of every outcome: the capacity is at least the length, and the bytes
/// it spans do not exceed `isize::MAX`. Which capacity the allocator gave is not stated.
#[verifier::external_body]
fn vec_capacity<V>(v: &Vec<V>) -> (c: usize)
    ensures
        c >= v@.len(),
        size_of::<V>() * c <= isize::MAX,
{
    v.capacity()
}

impl<T, const SIZE: usize> View for Slab<T, SIZE> {
    type V = SlabState<Block<T, SIZE>>;

    open spec fn view(&self) -> SlabState<Block<T, SIZE>> {
        (self.blocks@, self.free_blocks@)
    }
}

impl<T, const SIZE: usize> Slab<T, SIZE> {
    /// The number of blocks that room was reserved for when the slab was made.
    pub open spec fn reserved(&self) -> nat {
        self.reserved as nat
    }

    /// Whether `m` is a possible memory footprint of this slab: the bytes of the blocks'
    /// and the free list's capacities, each capacity at least its vector's length, and the
    /// blocks' capacity at least the reservation where the reservation's bytes fit.
    pub open spec fn is_footprint(&self, m: int) -> bool {
        exists|bc: nat, fc: nat|
            #![trigger bytes_of::<Block<T, SIZE>>(bc), bytes_of::<usize>(fc)]
            bc >= self.blocks@.len() && fc >= self.free_blocks@.len() && (bytes_of::<
                Block<T, SIZE>,
            >(self.reserved()) <= isize::MAX ==> bc >= self.reserved()) && bytes_of::<
                Block<T, SIZE>,
            >(bc) <= isize::MAX && bytes_of::<usize>(fc) <= isize::MAX && m == bytes_of::<
                Block<T, SIZE>,
            >(bc) + bytes_of::<usize>(fc)
    }

    /// Returns a new, empty slab.
    pub fn new() -> (s: Self)
        ensures
            s@.0 == Seq::<Block<T, SIZE>>::empty(),
            s@.1 == Seq::<usize>::empty(),
            s.reserved() == 0,
    {
        Self { blocks: Vec::new(), free_blocks: Vec::new(), reserved: 0 }
    }

    /// Returns a new slab with the given capacity.
    pub fn with_capacity(capacity: usize) -> (s: Self)
        requires
            bytes_of::<Block<T, SIZE>>(capacity as nat) <= isize::MAX,
        ensures
            s@.0 == Seq::<Block<T, SIZE>>::empty(),
            s@.1 == Seq::<usize>::empty(),
            s.reserved() == capacity,
    {
        Self { blocks: Vec::with_capacity(capacity), free_blocks: Vec::new(), reserved: capacity }
    }

    /// Allocates a block in the slab and returns its index: the most recently freed index
    /// if there is one, else a new vacant block past the last.
    pub fn allocate(&mut self) -> (index: usize)
        ensures
            allocated(old(self)@, final(self)@, index as int),
            final(self).reserved() == old(self).reserved(),
    {
        if let Some(index) = self.free_blocks.pop() {
            index
        } else {
            let index = self.blocks.len();
            let b = vacant_block::<T, SIZE>();
            self.blocks.push(b);
            proof {
                assert(self.blocks@.drop_last() =~= old(self).blocks@);
            }
            index
        }
    }

    /// Allocates a block in the slab and returns a mutable reference to it.
    pub fn alloc_mut(&mut self) -> (block: &mut Block<T, SIZE>)
        requires
            push_defined(old(self)@),
        ensures
            exists|t: SlabState<Block<T, SIZE>>, i: int|
                {
                    &&& allocated(old(self)@, t, i)
                    &&& *block == t.0[i]
                    &&& final(self)@ == (t.0.update(i, *final(block)), t.1)
                },
    {
        let index = self.allocate();
        let ghost t = self@;
        let r = &mut self.blocks[index];
        assert(allocated(old(self)@, t, index as int));
        r
    }

    /// Pushes a block into the slab and returns its index: the most recently freed index is
    /// overwritten if there is one, else the block goes past the last.
    pub fn push(&mut self, block: Block<T, SIZE>) -> (index: usize)
        requires
            push_defined(old(self)@),
        ensures
            (final(self)@, index as int) == slab_push(old(self)@, block),
            final(self).reserved() == old(self).reserved(),
    {
        if let Some(index) = self.free_blocks.pop() {
            self.blocks[index] = block;
            index
        } else {
            let index = self.blocks.len();
            self.blocks.push(block);
            index
        }
    }

    /// Frees a block at the given index.
    pub fn free(&mut self, index: usize)
        ensures
            final(self)@ == slab_free(old(self)@, index),
            final(self).reserved() == old(self).reserved(),
    {
        self.free_blocks.push(index);
    }

    /// Returns a reference to the block at the given index.
    pub fn get(&self, index: usize) -> (r: Option<&Block<T, SIZE>>)
        ensures
            r is Some <==> index < self.blocks@.len(),
            r matches Some(b) ==> Some(*b) == slab_get(self@, index as int),
    {
        if index < self.blocks.len() {
            Some(&self.blocks[index])
        } else {
            None
        }
    }

    /// Returns a mutable reference to the block at the given index.
    pub fn get_mut(&mut self, index: usize) -> (r: Option<&mut Block<T, SIZE>>)
        ensures
            r is Some <==> index < old(self).blocks@.len(),
            r is None ==> final(self)@ == old(self)@,
            r matches Some(b) ==> *b == old(self).blocks@[index as int] && final(self)@ == (
                old(self).blocks@.update(index as int, *final(b)),
                old(self).free_blocks@,
            ),
    {
        if index < self.blocks.len() {
            Some(&mut self.blocks[index])
        } else {
            None
        }
    }

    /// Returns the memory footprint in bytes: the bytes of the blocks' capacity, which
    /// covers the reserved blocks, and of the free list's capacity.
    pub fn memory(&self) -> (size: usize)
        ensures
            self.is_footprint(size as int),
            bytes_of::<Block<T, SIZE>>(self.reserved()) <= isize::MAX ==> size >= bytes_of::<
                Block<T, SIZE>,
            >(self.reserved()),
    {
        let capacity = vec_capacity(&self.blocks);
        let fc = vec_capacity(&self.free_blocks);
        // `Vec::with_capacity` leaves room for at least the reserved blocks, and pushes never
        // shrink it: counting the larger of the two keeps the reservation in the footprint.
        let block_size = core::mem::size_of::<Block<T, SIZE>>();
        let reserved = self.reserved;
        let reserved_fits = match block_size.checked_mul(reserved) {
            Some(bytes) => bytes <= isize::MAX as usize,
            None => false,
        };
        let bc = if reserved > capacity && reserved_fits {
            reserved
        } else {
            capacity
        };
        let block_bytes = block_size * bc;
        let free_bytes = core::mem::size_of::<usize>() * fc;
        let size = block_bytes + free_bytes;
        assert(self.is_footprint(size as int)) by {
            assert(size == bytes_of::<Block<T, SIZE>>(bc as nat) + bytes_of::<usize>(fc as nat));
            if bytes_of::<Block<T, SIZE>>(self.reserved()) <= isize::MAX && capacity < reserved {
                assert(reserved_fits);
            }
        }
        proof {
            if bytes_of::<Block<T, SIZE>>(self.reserved()) <= isize::MAX {
                assert(block_size * bc >= block_size * reserved) by (nonlinear_arith)
                    requires
                        bc >= reserved,
                ;
            }
        }
        size
    }

    /// The state letters of the blocks: `'F'` where the index is on the free list,
    /// `'A'` elsewhere.
    fn block_states(&self) -> (states: Vec<char>)
        ensures
            states@.len() == self.blocks@.len(),
            forall|i: int|
                0 <= i < states@.len() ==> states@[i] == block_state_char(self.free_blocks@, i),
    {
        let n = self.blocks.len();
        let mut states = vec!['A'; n];
        let mut k: usize = 0;
        while k < self.free_blocks.len()
            invariant
                k <= self.free_blocks@.len(),
                states@.len() == n,
                n == self.blocks@.len(),
                forall|i: int|
                    0 <= i < n ==> (states@[i] == 'F' <==> exists|j: int|
                        0 <= j < k && self.free_blocks@[j] as int == i) && (states@[i] == 'F'
                        || states@[i] == 'A'),
            decreases self.free_blocks@.len() - k,
        {
            let free_index = self.free_blocks[k];
            if free_index < n {
                states[free_index] = 'F';
            }
            proof {
                assert forall|i: int| 0 <= i < n implies (states@[i] == 'F' <==> exists|j: int|
                    0 <= j < k + 1 && self.free_blocks@[j] as int == i) by {
                    if states@[i] == 'F' {
                        if i == free_index as int {
                            assert(self.free_blocks@[k as int] as int == i);
                        }
                    }
                    if exists|j: int| 0 <= j < k + 1 && self.free_blocks@[j] as int == i {
                        let j = choose|j: int| 0 <= j < k + 1 && self.free_blocks@[j] as int == i;
                        if j < k {
                        } else {
                            assert(i == free_index as int);
                        }
                    }
                }
            }
            k = k + 1;
        }
        states
    }

    /// Renders the slab as `Slab { capacity: N, blocks: [A][F]... }`: one bracketed letter
    /// per block, `F` for a block on the free list and `A` for one in use.
    pub fn debug_string(&self) -> (s: String)
        ensures
            s@ == slab_debug_text(self.blocks@.len(), self.free_blocks@),
    {
        proof {
            reveal_strlit("Slab { capacity: ");
            reveal_strlit(", blocks: ");
            reveal_strlit("[] }");
            reveal_strlit(" }");
        }
        let mut s = String::new();
        s.append("Slab { capacity: ");
        push_decimal(&mut s, self.blocks.len() as u64);
        s.append(", blocks: ");
        let ghost head = s@;
        if self.blocks.len() == 0 {
            s.append("[] }");
            return s;
        }
        let states = self.block_states();
        let mut i: usize = 0;
        while i < states.len()
            invariant
                i <= states@.len(),
                states@.len() == self.blocks@.len(),
                forall|k: int|
                    0 <= k < states@.len() ==> states@[k] == block_state_char(
                        self.free_blocks@,
                        k,
                    ),
                s@ == head + block_states_text(self.free_blocks@, i as nat),
            decreases states@.len() - i,
        {
            crate::text::push_char(&mut s, '[');
            crate::text::push_char(&mut s, states[i]);
            crate::text::push_char(&mut s, ']');
            proof {
                assert(s@ =~= head + block_states_text(self.free_blocks@, (i + 1) as nat));
            }
            i = i + 1;
        }
        s.append(" }");
        s
    }
}

/// The contents of each block of a slab, as sequences of slots.
pub open spec fn block_contents<T, const SIZE: usize>(blocks: Seq<Block<T, SIZE>>) -> Seq<
    Seq<Option<T>>,
> {
    blocks.map_values(|b: Block<T, SIZE>| b@)
}

/// The number of slots of the blocks of size class `k`: `2^k`.
pub open spec fn class_size(k: int) -> nat {
    if k == 0 {
        1
    } else if k == 1 {
        2
    } else if k == 2 {
        4
    } else if k == 3 {
        8
    } else if k == 4 {
        16
    } else if k == 5 {
        32
    } else {
        64
    }
}

/// The size class of a block for `count` values (1..=64): the smallest power of two that
/// holds them.
pub open spec fn size_class(count: int) -> int {
    if count <= 1 {
        0
    } else if count <= 2 {
        1
    } else if count <= 4 {
        2
    } else if count <= 8 {
        3
    } else if count <= 16 {
        4
    } else if count <= 32 {
        5
    } else {
        6
    }
}

/// The size class of `count` values is the smallest power of two that holds them: its
/// blocks hold `count` values, and those of the class below do not.
pub proof fn lemma_size_class_fits(count: int)
    requires
        1 <= count <= 64,
    ensures
        0 <= size_class(count) < 7,
        count <= class_size(size_class(count)),
        size_class(count) > 0 ==> class_size(size_class(count) - 1) < count,
{
}

/// Each block of the slab of size class `k` has `class_size(k)` slots.
pub proof fn lemma_class_block_len<T>(pool: SlabPool<T>, k: int, i: int)
    requires
        0 <= k < 7,
        0 <= i < pool.class_state(k).0.len(),
    ensures
        pool.class_state(k).0[i].len() == class_size(k),
{
    broadcast use vstd::array::group_array_axioms;

    if k == 0 {
        assert(pool.slabs.0.blocks@[i]@.len() == 1);
    } else if k == 1 {
        assert(pool.slabs.1.blocks@[i]@.len() == 2);
    } else if k == 2 {
        assert(pool.slabs.2.blocks@[i]@.len() == 4);
    } else if k == 3 {
        assert(pool.slabs.3.blocks@[i]@.len() == 8);
    } else if k == 4 {
        assert(pool.slabs.4.blocks@[i]@.len() == 16);
    } else if k == 5 {
        assert(pool.slabs.5.blocks@[i]@.len() == 32);
    } else {
        assert(pool.slabs.6.blocks@[i]@.len() == 64);
    }
}

/// Whether blocks of the seven slabs, in the given numbers, span at most `isize::MAX` bytes
/// each: the capacities that `Vec::with_capacity` accepts without panicking.
pub open spec fn capacities_fit<T>(capacities: (usize, usize, usize, usize, usize, usize, usize)) -> bool {
    &&& bytes_of::<Block<T, 1>>(capacities.0 as nat) <= isize::MAX
    &&& bytes_of::<Block<T, 2>>(capacities.1 as nat) <= isize::MAX
    &&& bytes_of::<Block<T, 4>>(capacities.2 as nat) <= isize::MAX
    &&& bytes_of::<Block<T, 8>>(capacities.3 as nat) <= isize::MAX
    &&& bytes_of::<Block<T, 16>>(capacities.4 as nat) <= isize::MAX
    &&& bytes_of::<Block<T, 32>>(capacities.5 as nat) <= isize::MAX
    &&& bytes_of::<Block<T, 64>>(capacities.6 as nat) <= isize::MAX
}

/// `t`, or `usize::MAX` where it is larger.
pub open spec fn capped(t: int) -> int {
    if t > usize::MAX {
        usize::MAX as int
    } else {
        t
    }
}

/// Adds `m` to a running total `size` that is `t` capped at `usize::MAX`, keeping the cap.
fn add_capped(size: usize, m: usize, Ghost(t): Ghost<int>) -> (r: usize)
    requires
        t >= 0,
        size == capped(t),
    ensures
        r == capped(t + m),
{
    size.saturating_add(m)
}

/// The saturating sum of seven footprints.
pub open spec fn saturating_total(m: Seq<int>) -> int {
    capped(m[0] + m[1] + m[2] + m[3] + m[4] + m[5] + m[6])
}

/// Entry `k` of seven per-class numbers, from the smallest block size to the largest.
pub open spec fn class_entry(c: (usize, usize, usize, usize, usize, usize, usize), k: int) -> nat {
    if k == 0 {
        c.0 as nat
    } else if k == 1 {
        c.1 as nat
    } else if k == 2 {
        c.2 as nat
    } else if k == 3 {
        c.3 as nat
    } else if k == 4 {
        c.4 as nat
    } else if k == 5 {
        c.5 as nat
    } else {
        c.6 as nat
    }
}

impl<T> SlabPool<T> {
    /// The number of blocks that room was reserved for in the slab of size class `k`.
    pub open spec fn class_reserved(&self, k: int) -> nat {
        if k == 0 {
            self.slabs.0.reserved()
        } else if k == 1 {
            self.slabs.1.reserved()
        } else if k == 2 {
            self.slabs.2.reserved()
        } else if k == 3 {
            self.slabs.3.reserved()
        } else if k == 4 {
            self.slabs.4.reserved()
        } else if k == 5 {
            self.slabs.5.reserved()
        } else {
            self.slabs.6.reserved()
        }
    }

    /// The bytes of `n` blocks of the slab of size class `k`.
    pub open spec fn class_bytes(&self, k: int, n: nat) -> int {
        if k == 0 {
            bytes_of::<Block<T, 1>>(n)
        } else if k == 1 {
            bytes_of::<Block<T, 2>>(n)
        } else if k == 2 {
            bytes_of::<Block<T, 4>>(n)
        } else if k == 3 {
            bytes_of::<Block<T, 8>>(n)
        } else if k == 4 {
            bytes_of::<Block<T, 16>>(n)
        } else if k == 5 {
            bytes_of::<Block<T, 32>>(n)
        } else {
            bytes_of::<Block<T, 64>>(n)
        }
    }

    /// The bytes of the blocks reserved in the seven slabs, summed.
    pub open spec fn reserved_bytes(&self) -> int {
        self.class_bytes(0, self.class_reserved(0)) + self.class_bytes(1, self.class_reserved(1))
            + self.class_bytes(2, self.class_reserved(2)) + self.class_bytes(3, self.class_reserved(3))
            + self.class_bytes(4, self.class_reserved(4)) + self.class_bytes(5, self.class_reserved(5))
            + self.class_bytes(6, self.class_reserved(6))
    }

    /// Whether the reserved blocks of each slab span at most `isize::MAX` bytes.
    pub open spec fn reservations_fit(&self) -> bool {
        forall|k: int| 0 <= k < 7 ==> #[trigger] self.class_bytes(k, self.class_reserved(k)) <= isize::MAX
    }

    /// The state of the slab of size class `k`, each block given by its slots.
    pub open spec fn class_state(&self, k: int) -> SlabState<Seq<Option<T>>> {
        if k == 0 {
            (block_contents(self.slabs.0.blocks@), self.slabs.0.free_blocks@)
        } else if k == 1 {
            (block_contents(self.slabs.1.blocks@), self.slabs.1.free_blocks@)
        } else if k == 2 {
            (block_contents(self.slabs.2.blocks@), self.slabs.2.free_blocks@)
        } else if k == 3 {
            (block_contents(self.slabs.3.blocks@), self.slabs.3.free_blocks@)
        } else if k == 4 {
            (block_contents(self.slabs.4.blocks@), self.slabs.4.free_blocks@)
        } else if k == 5 {
            (block_contents(self.slabs.5.blocks@), self.slabs.5.free_blocks@)
        } else {
            (block_contents(self.slabs.6.blocks@), self.slabs.6.free_blocks@)
        }
    }

    /// Whether every slab of the pool has no block and an empty free list.
    pub open spec fn is_empty_pool(&self) -> bool {
        forall|k: int| 0 <= k < 7 ==> #[trigger] self.class_state(k).0.len() == 0 && self.class_state(k).1.len() == 0
    }

    /// Whether `m` is a possible memory footprint of the slab of class `k`.
    pub open spec fn class_footprint(&self, k: int, m: int) -> bool {
        if k == 0 {
            self.slabs.0.is_footprint(m)
        } else if k == 1 {
            self.slabs.1.is_footprint(m)
        } else if k == 2 {
            self.slabs.2.is_footprint(m)
        } else if k == 3 {
            self.slabs.3.is_footprint(m)
        } else if k == 4 {
            self.slabs.4.is_footprint(m)
        } else if k == 5 {
            self.slabs.5.is_footprint(m)
        } else {
            self.slabs.6.is_footprint(m)
        }
    }

    /// Returns a new, empty slab pool.
    pub fn new() -> (p: Self)
        ensures
            p.is_empty_pool(),
            forall|k: int| 0 <= k < 7 ==> #[trigger] p.class_reserved(k) == 0,
    {
        Self {
            slabs: (
                Slab::new(),
                Slab::new(),
                Slab::new(),
                Slab::new(),
                Slab::new(),
                Slab::new(),
                Slab::new(),
            ),
        }
    }

    /// Returns a new slab pool with the given capacities, from the smallest block size to
    /// the largest.
    pub fn with_capacities(capacities: (usize, usize, usize, usize, usize, usize, usize)) -> (p: Self)
        requires
            capacities_fit::<T>(capacities),
        ensures
            p.is_empty_pool(),
            forall|k: int| 0 <= k < 7 ==> #[trigger] p.class_reserved(k) == class_entry(capacities, k),
    {
        Self {
            slabs: (
                Slab::with_capacity(capacities.0),
                Slab::with_capacity(capacities.1),
                Slab::with_capacity(capacities.2),
                Slab::with_capacity(capacities.3),
                Slab::with_capacity(capacities.4),
                Slab::with_capacity(capacities.5),
                Slab::with_capacity(capacities.6),
            ),
        }
    }

    /// Returns a new slab pool with the given capacity for all slabs.
    pub fn with_capacity(capacity: usize) -> (p: Self)
        requires
            capacities_fit::<T>((capacity, capacity, capacity, capacity, capacity, capacity, capacity)),
        ensures
            p.is_empty_pool(),
            forall|k: int| 0 <= k < 7 ==> #[trigger] p.class_reserved(k) == capacity,
    {
        Self::with_capacities((capacity, capacity, capacity, capacity, capacity, capacity, capacity))
    }

    /// Returns the memory footprint in bytes: the sum of the footprints of the seven slabs,
    /// saturated at `usize::MAX`.
    pub fn memory(&self) -> (size: usize)
        ensures
            exists|m: Seq<int>|
                m.len() == 7 && (forall|k: int| 0 <= k < 7 ==> #[trigger] self.class_footprint(k, m[k]))
                    && size == saturating_total(m),
            self.reservations_fit() ==> size >= capped(self.reserved_bytes()),
    {
        let m0 = self.slabs.0.memory();
        let m1 = self.slabs.1.memory();
        let m2 = self.slabs.2.memory();
        let m3 = self.slabs.3.memory();
        let m4 = self.slabs.4.memory();
        let m5 = self.slabs.5.memory();
        let m6 = self.slabs.6.memory();
        let mut size: usize = m0;
        size = add_capped(size, m1, Ghost(m0 as int));
        size = add_capped(size, m2, Ghost(m0 + m1));
        size = add_capped(size, m3, Ghost(m0 + m1 + m2));
        size = add_capped(size, m4, Ghost(m0 + m1 + m2 + m3));
        size = add_capped(size, m5, Ghost(m0 + m1 + m2 + m3 + m4));
        size = add_capped(size, m6, Ghost(m0 + m1 + m2 + m3 + m4 + m5));
        let ghost m = seq![m0 as int, m1 as int, m2 as int, m3 as int, m4 as int, m5 as int, m6 as int];
        assert(forall|k: int| 0 <= k < 7 ==> #[trigger] self.class_footprint(k, m[k]));
        assert(size == saturating_total(m));
        proof {
            if self.reservations_fit() {
                lemma_footprints_cover_reservations(*self, m);
            }
        }
        size
    }
}

/// A pool whose slabs were reserved with capacities that fit has reservations that fit.
pub proof fn lemma_reserved_capacities_fit<T>(
    p: SlabPool<T>,
    capacities: (usize, usize, usize, usize, usize, usize, usize),
)
    requires
        capacities_fit::<T>(capacities),
        forall|k: int| 0 <= k < 7 ==> #[trigger] p.class_reserved(k) == class_entry(capacities, k),
    ensures
        p.reservations_fit(),
{
    assert forall|k: int| 0 <= k < 7 implies #[trigger] p.class_bytes(k, p.class_reserved(k))
        <= isize::MAX by {
        assert(p.class_reserved(k) == class_entry(capacities, k));
    }
}

/// A footprint of a slab covers the bytes of the blocks reserved in it.
pub proof fn lemma_footprint_covers_reserved<T, const SIZE: usize>(s: Slab<T, SIZE>, m: int)
    requires
        s.is_footprint(m),
        bytes_of::<Block<T, SIZE>>(s.reserved()) <= isize::MAX,
    ensures
        m >= bytes_of::<Block<T, SIZE>>(s.reserved()),
{
    let (bc, fc) = choose|bc: nat, fc: nat|
        #![trigger bytes_of::<Block<T, SIZE>>(bc), bytes_of::<usize>(fc)]
        bc >= s.blocks@.len() && fc >= s.free_blocks@.len() && (bytes_of::<Block<T, SIZE>>(
            s.reserved(),
        ) <= isize::MAX ==> bc >= s.reserved()) && bytes_of::<Block<T, SIZE>>(bc) <= isize::MAX
            && bytes_of::<usize>(fc) <= isize::MAX && m == bytes_of::<Block<T, SIZE>>(bc)
            + bytes_of::<usize>(fc);
    let size = size_of::<Block<T, SIZE>>();
    let r = s.reserved();
    assert(size * bc >= size * r) by (nonlinear_arith)
        requires
            bc >= r,
    ;
    assert(size_of::<usize>() * fc >= 0) by (nonlinear_arith);
}

/// Whatever memory footprints the seven slabs of a pool have, their saturating total
/// covers the bytes of the blocks reserved in the pool: a pool made with
/// [`SlabPool::with_capacities`] reports at least the bytes of the capacities it was given.
pub proof fn lemma_footprints_cover_reservations<T>(p: SlabPool<T>, m: Seq<int>)
    requires
        p.reservations_fit(),
        m.len() == 7,
        forall|k: int| 0 <= k < 7 ==> #[trigger] p.class_footprint(k, m[k]),
    ensures
        saturating_total(m) >= capped(p.reserved_bytes()),
{
    assert(p.class_footprint(0, m[0]) && p.class_bytes(0, p.class_reserved(0)) <= isize::MAX);
    assert(p.class_footprint(1, m[1]) && p.class_bytes(1, p.class_reserved(1)) <= isize::MAX);
    assert(p.class_footprint(2, m[2]) && p.class_bytes(2, p.class_reserved(2)) <= isize::MAX);
    assert(p.class_footprint(3, m[3]) && p.class_bytes(3, p.class_reserved(3)) <= isize::MAX);
    assert(p.class_footprint(4, m[4]) && p.class_bytes(4, p.class_reserved(4)) <= isize::MAX);
    assert(p.class_footprint(5, m[5]) && p.class_bytes(5, p.class_reserved(5)) <= isize::MAX);
    assert(p.class_footprint(6, m[6]) && p.class_bytes(6, p.class_reserved(6)) <= isize::MAX);
    lemma_footprint_covers_reserved(p.slabs.0, m[0]);
    lemma_footprint_covers_reserved(p.slabs.1, m[1]);
    lemma_footprint_covers_reserved(p.slabs.2, m[2]);
    lemma_footprint_covers_reserved(p.slabs.3, m[3]);
    lemma_footprint_covers_reserved(p.slabs.4, m[4]);
    lemma_footprint_covers_reserved(p.slabs.5, m[5]);
    lemma_footprint_covers_reserved(p.slabs.6, m[6]);
}

impl<T, const SIZE: usize> Default for Slab<T, SIZE> {
    fn default() -> (s: Self)
        ensures
            s@.0 == Seq::<Block<T, SIZE>>::empty(),
            s@.1 == Seq::<usize>::empty(),
            s.reserved() == 0,
    {
        Slab::new()
    }
}

impl<T> Default for SlabPool<T> {
    fn default() -> (p: Self)
        ensures
            p.is_empty_pool(),
            forall|k: int| 0 <= k < 7 ==> #[trigger] p.class_reserved(k) == 0,
    {
        SlabPool::new()
    }
}

/// A pushed block reads back at the index the push returned, and every other index reads
/// as before.
pub proof fn lemma_push_then_get<B>(s: SlabState<B>, block: B)
    requires
        push_defined(s),
    ensures
        ({
            let (t, i) = slab_push(s, block);
            &&& slab_get(t, i) == Some(block)
            &&& forall|j: int| j != i ==> #[trigger] slab_get(t, j) == slab_get(s, j)
        }),
{
}

/// Freeing an index and allocating again hands the same index back and restores the slab.
pub proof fn lemma_free_then_allocate<T, const SIZE: usize>(
    s: SlabState<Block<T, SIZE>>,
    index: usize,
    t: SlabState<Block<T, SIZE>>,
    k: int,
)
    requires
        allocated(slab_free(s, index), t, k),
    ensures
        k == index,
        t == s,
{
    assert(s.1.push(index).drop_last() =~= s.1);
}

/// Freeing an index of a block and then pushing writes the new block at that index.
pub proof fn lemma_free_then_push<B>(s: SlabState<B>, index: usize, block: B)
    requires
        index < s.0.len(),
    ensures
        push_defined(slab_free(s, index)),
        slab_push(slab_free(s, index), block) == ((s.0.update(index as int, block), s.1), index as int),
{
    assert(s.1.push(index).drop_last() =~= s.1);
}

/// An allocation from a slab without freed indices reads back as a vacant block.
pub proof fn lemma_allocate_then_get<T, const SIZE: usize>(
    s: SlabState<Block<T, SIZE>>,
    t: SlabState<Block<T, SIZE>>,
    k: int,
)
    requires
        allocated(s, t, k),
        s.1.len() == 0,
    ensures
        slab_get(t, k) matches Some(b) && is_vacant_block(b),
{
}

} // verus!
