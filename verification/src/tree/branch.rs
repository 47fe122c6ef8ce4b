//! Branches of the tree: their 64-bit addresses and their child bitmasks.
use vstd::prelude::*;

use crate::text::{hex16, push_decimal, push_hex16};
use crate::tree::traversal::ChildSlot;
use crate::util::{
    coordinate_in_range, coordinate_to_slot, pack_error, slot_of, Coordinate,
    CoordinatePackError,
};

verus! {

/// A 64-bit address type used in each Branch.
///
/// Bit layout (most significant to least significant):
/// - Bit 63: `is_end` flag - when set, this address points only to leaves, otherwise, to branches.
/// - Bit 62: `is_solid` flag - when set, all bitmask 1s point to the same branch/leaf.
/// - Bits 0..=61: `index` - a 62-bit index into either memory arena.
#[derive(Clone, Copy, PartialEq, Eq, Structural, PartialOrd, Ord)]
pub struct Address(pub u64);

/// A 64-bit bitmask representing active children of a Branch.
///
/// Each bit corresponds to one of 64 possible children.
/// A set bit indicates the presence of a child at that position.
#[derive(Clone, Copy, PartialEq, Eq, Structural, PartialOrd, Ord)]
pub struct ChildMask(pub u64);

/// A branch in the sparse 64-tree structure: an absolute address and a mask of the
/// children that exist.
///
/// A **fork** branch contains only other branches; an **end** branch contains leaves.
/// A **solid** branch has all set bits of its bitmask point to the same child.
#[derive(Clone, Copy, PartialEq, Eq, Structural)]
pub struct Branch {
    pub address: Address,
    pub bitmask: ChildMask,
}

pub const INDEX_MASK: u64 = 0x3FFF_FFFF_FFFF_FFFF;

pub const END_FLAG_MASK: u64 = 0x8000_0000_0000_0000;

pub const SOLID_FLAG_MASK: u64 = 0x4000_0000_0000_0000;

/// Bit `i` of `v`.
pub open spec fn bit_at(v: u64, i: nat) -> bool {
    (v >> (i as u64)) & 1u64 == 1u64
}

/// The number of set bits of `v` among bits `0..n`.
pub open spec fn ones_below(v: u64, n: nat) -> nat
    decreases n,
{
    if n == 0 {
        0
    } else {
        ones_below(v, (n - 1) as nat) + if bit_at(v, (n - 1) as nat) {
            1nat
        } else {
            0nat
        }
    }
}

/// The number of set bits of `v`.
pub open spec fn popcount(v: u64) -> nat {
    ones_below(v, 64)
}

/// Returns the number of set bits of `v`.
pub fn count_ones(v: u64) -> (r: u32)
    ensures
        r == popcount(v),
        r <= 64,
{
    let mut c: u32 = 0;
    let mut i: u64 = 0;
    while i < 64
        invariant
            i <= 64,
            c == ones_below(v, i as nat),
            c <= i,
        decreases 64 - i,
    {
        if (v >> i) & 1 == 1 {
            c = c + 1;
        }
        i = i + 1;
    }
    c
}

pub proof fn lemma_ones_below_le(v: u64, n: nat)
    ensures
        ones_below(v, n) <= n,
    decreases n,
{
    if n > 0 {
        lemma_ones_below_le(v, (n - 1) as nat);
    }
}

/// `ones_below` does not decrease as more bits are counted.
pub proof fn lemma_ones_below_mono(v: u64, a: nat, b: nat)
    requires
        a <= b,
    ensures
        ones_below(v, a) <= ones_below(v, b),
    decreases b - a,
{
    if a < b {
        lemma_ones_below_mono(v, a, (b - 1) as nat);
    }
}

/// Counting up to a set bit `i` and past it adds one.
pub proof fn lemma_ones_below_set_bit(v: u64, i: nat, b: nat)
    requires
        i < b,
        bit_at(v, i),
    ensures
        ones_below(v, i) < ones_below(v, b),
{
    lemma_ones_below_mono(v, i + 1, b);
}

/// Two masks that agree on bits `0..n` count the same number of set bits there.
pub proof fn lemma_ones_below_agree(v: u64, w: u64, n: nat)
    requires
        forall|i: nat| i < n ==> bit_at(v, i) == bit_at(w, i),
    ensures
        ones_below(v, n) == ones_below(w, n),
    decreases n,
{
    if n > 0 {
        lemma_ones_below_agree(v, w, (n - 1) as nat);
    }
}

/// A mask whose bits at and above `k` are clear counts no more set bits past `k`.
pub proof fn lemma_ones_below_clear_above(v: u64, k: nat, n: nat)
    requires
        k <= n,
        forall|i: nat| k <= i < n ==> !bit_at(v, i),
    ensures
        ones_below(v, n) == ones_below(v, k),
    decreases n,
{
    if n > k {
        lemma_ones_below_clear_above(v, k, (n - 1) as nat);
    }
}

/// A mask has no set bit exactly when it is zero.
pub proof fn lemma_popcount_zero_iff(v: u64)
    ensures
        popcount(v) == 0 <==> v == 0,
{
    if v == 0 {
        assert forall|i: nat| 0 <= i < 64 implies !#[trigger] bit_at(0u64, i) by {
            let ii = i as u64;
            assert((0u64 >> ii) & 1u64 == 0u64) by (bit_vector);
        }
        lemma_ones_below_clear_above(0u64, 0, 64);
    } else {
        vstd::std_specs::bits::axiom_u64_trailing_zeros(v);
        let t = vstd::std_specs::bits::u64_trailing_zeros(v);
        assert(bit_at(v, t as nat));
        lemma_ones_below_set_bit(v, t as nat, 64);
    }
}

/// Setting bit `i` of a mask whose bits at and above `i` are clear adds one set bit, and
/// leaves the bits above `i` clear.
pub proof fn lemma_popcount_set_top(bm: u64, i: nat)
    requires
        i < 64,
        forall|j: nat| i <= j < 64 ==> !bit_at(bm, j),
    ensures
        popcount(bm | (1u64 << (i as u64))) == popcount(bm) + 1,
        forall|j: nat| i + 1 <= j < 64 ==> !#[trigger] bit_at(bm | (1u64 << (i as u64)), j),
        bit_at(bm | (1u64 << (i as u64)), i),
        forall|j: nat| j < i ==> #[trigger] bit_at(bm | (1u64 << (i as u64)), j) == bit_at(bm, j),
{
    let nb = bm | (1u64 << (i as u64));
    let ii = i as u64;
    assert forall|j: nat| j < 64 implies #[trigger] bit_at(nb, j) == (j == i || bit_at(bm, j)) by {
        let jj = j as u64;
        assert(((nb >> jj) & 1u64 == 1u64) == (jj == ii || (bm >> jj) & 1u64 == 1u64))
            by (bit_vector)
            requires
                nb == bm | (1u64 << ii),
                ii < 64,
                jj < 64,
        ;
    }
    lemma_ones_below_agree(nb, bm, i);
    lemma_ones_below_clear_above(nb, i + 1, 64);
    lemma_ones_below_clear_above(bm, i, 64);
}

/// Setting bit `s` makes it set and keeps every other bit.
pub proof fn lemma_set_then_get(m: u64, s: u64)
    requires
        s < 64,
    ensures
        bit_at(m | (1u64 << s), s as nat),
        forall|i: nat| i < 64 && i != s ==> #[trigger] bit_at(m | (1u64 << s), i) == bit_at(m, i),
{
    let nb = m | (1u64 << s);
    assert((nb >> s) & 1u64 == 1u64) by (bit_vector)
        requires
            nb == m | (1u64 << s),
            s < 64,
    ;
    assert forall|i: nat| i < 64 && i != s implies #[trigger] bit_at(nb, i) == bit_at(m, i) by {
        let ii = i as u64;
        assert(((nb >> ii) & 1u64) == ((m >> ii) & 1u64)) by (bit_vector)
            requires
                nb == m | (1u64 << s),
                s < 64,
                ii < 64,
                ii != s,
        ;
    }
}

/// Unsetting bit `s` makes it clear and keeps every other bit.
pub proof fn lemma_unset_then_get(m: u64, s: u64)
    requires
        s < 64,
    ensures
        !bit_at(m & !(1u64 << s), s as nat),
        forall|i: nat| i < 64 && i != s ==> #[trigger] bit_at(m & !(1u64 << s), i) == bit_at(m, i),
{
    let nb = m & !(1u64 << s);
    assert((nb >> s) & 1u64 == 0u64) by (bit_vector)
        requires
            nb == m & !(1u64 << s),
            s < 64,
    ;
    assert forall|i: nat| i < 64 && i != s implies #[trigger] bit_at(nb, i) == bit_at(m, i) by {
        let ii = i as u64;
        assert(((nb >> ii) & 1u64) == ((m >> ii) & 1u64)) by (bit_vector)
            requires
                nb == m & !(1u64 << s),
                s < 64,
                ii < 64,
                ii != s,
        ;
    }
}

/// Unsetting a bit that setting just turned on restores the mask.
pub proof fn lemma_set_then_unset(m: u64, s: u64)
    requires
        s < 64,
        !bit_at(m, s as nat),
    ensures
        (m | (1u64 << s)) & !(1u64 << s) == m,
{
    assert((m >> s) & 1u64 != 1u64 ==> (m | (1u64 << s)) & !(1u64 << s) == m) by (bit_vector)
        requires
            s < 64,
    ;
}

/// Setting a clear bit adds one child.
pub proof fn lemma_set_count(m: u64, s: u64)
    requires
        s < 64,
        !bit_at(m, s as nat),
    ensures
        popcount(m | (1u64 << s)) == popcount(m) + 1,
{
    lemma_set_then_get(m, s);
    lemma_ones_below_set_count(m, m | (1u64 << s), s as nat, 64);
}

proof fn lemma_ones_below_set_count(m: u64, nb: u64, s: nat, n: nat)
    requires
        s < 64,
        n <= 64,
        !bit_at(m, s),
        bit_at(nb, s),
        forall|i: nat| i < 64 && i != s ==> #[trigger] bit_at(nb, i) == bit_at(m, i),
    ensures
        n <= s ==> ones_below(nb, n) == ones_below(m, n),
        n > s ==> ones_below(nb, n) == ones_below(m, n) + 1,
    decreases n,
{
    if n > 0 {
        lemma_ones_below_set_count(m, nb, s, (n - 1) as nat);
    }
}

/// Dense indices of children follow the order of their slots, and each is below the number
/// of children: the dense index is a one-to-one map from set slots onto `0..count`.
pub proof fn lemma_dense_indices(m: u64, i: nat, j: nat)
    requires
        i < j < 64,
        bit_at(m, i),
        bit_at(m, j),
    ensures
        ones_below(m, i) < ones_below(m, j),
        ones_below(m, j) < popcount(m),
{
    lemma_ones_below_set_bit(m, i, j);
    lemma_ones_below_set_bit(m, j, 64);
}

/// A mask with every bit set has 64 set bits.
pub proof fn lemma_popcount_full()
    ensures
        popcount(0xFFFF_FFFF_FFFF_FFFFu64) == 64,
{
    let v = 0xFFFF_FFFF_FFFF_FFFFu64;
    assert forall|i: nat| i < 64 implies #[trigger] bit_at(v, i) by {
        let ii = i as u64;
        assert((0xFFFF_FFFF_FFFF_FFFFu64 >> ii) & 1u64 == 1u64) by (bit_vector)
            requires
                ii < 64,
        ;
    }
    lemma_ones_below_all(v, 64);
}

proof fn lemma_ones_below_all(v: u64, n: nat)
    requires
        n <= 64,
        forall|i: nat| i < 64 ==> #[trigger] bit_at(v, i),
    ensures
        ones_below(v, n) == n,
    decreases n,
{
    if n > 0 {
        lemma_ones_below_all(v, (n - 1) as nat);
        assert(bit_at(v, (n - 1) as nat));
    }
}

impl Address {
    /// The 62-bit index of the address, as a `usize`.
    pub open spec fn index_spec(self) -> usize {
        (self.0 & INDEX_MASK) as usize
    }

    /// Returns the 62-bit index of the address value.
    pub fn index(&self) -> (r: usize)
        ensures
            r == self.index_spec(),
    {
        (self.0 & INDEX_MASK) as usize
    }

    /// Returns `true` if this address is an "end," meaning it points only to *leaves*.
    pub fn is_end(&self) -> (r: bool)
        ensures
            r == bit_at(self.0, 63),
            r == (self.0 & END_FLAG_MASK != 0),
    {
        let v = self.0;
        assert((v & 0x8000_0000_0000_0000u64 != 0) == ((v >> 63u64) & 1u64 == 1u64)) by (bit_vector);
        self.0 & END_FLAG_MASK != 0
    }

    /// Returns `true` if this address is a "fork," meaning it points only to *branches*.
    pub fn is_fork(&self) -> (r: bool)
        ensures
            r == !bit_at(self.0, 63),
    {
        !self.is_end()
    }

    /// Returns `true` if this address is "solid," meaning all set bits in the bitmask point
    /// to *one* distinct child.
    pub fn is_solid(&self) -> (r: bool)
        ensures
            r == bit_at(self.0, 62),
            r == (self.0 & SOLID_FLAG_MASK != 0),
    {
        let v = self.0;
        assert((v & 0x4000_0000_0000_0000u64 != 0) == ((v >> 62u64) & 1u64 == 1u64)) by (bit_vector);
        self.0 & SOLID_FLAG_MASK != 0
    }

    /// Returns `true` if this address is "composite," meaning set bits in the bitmask point
    /// to *many* distinct children.
    pub fn is_composite(&self) -> (r: bool)
        ensures
            r == !bit_at(self.0, 62),
    {
        !self.is_solid()
    }
}

impl ChildMask {
    /// Gets the bit for the given child coordinate in the mask.
    pub fn get(&self, coordinate: Coordinate) -> (r: Result<bool, CoordinatePackError>)
        ensures
            r is Ok <==> coordinate_in_range(coordinate),
            r matches Ok(b) ==> b == bit_at(self.0, slot_of(coordinate) as nat),
            r matches Err(e) ==> e == pack_error(coordinate),
    {
        let slot = match coordinate_to_slot(coordinate) {
            Ok(s) => s,
            Err(e) => return Err(e),
        };
        let s = slot.get();
        let v = self.0;
        assert((v & (1u64 << s) != 0) == ((v >> (s as u64)) & 1u64 == 1u64)) by (bit_vector)
            requires
                s < 64,
        ;
        Ok(self.0 & (1u64 << s) != 0)
    }

    /// Calculates the dense index of a child slot: the number of set bits (children)
    /// before this slot, which is the slot's index into the child array.
    pub fn dense_index_of(&self, slot: ChildSlot) -> (r: usize)
        ensures
            r == ones_below(self.0, slot@ as nat),
            r <= slot@,
    {
        let s = slot.get();
        assert(1u64 << s >= 1) by (bit_vector)
            requires
                s < 64,
        ;
        let mask_before: u64 = (1u64 << s) - 1;
        let v = self.0;
        let low = v & mask_before;
        assert forall|i: nat| i < 64 implies bit_at(low, i) == (i < s && bit_at(v, i)) by {
            let ii = i as u64;
            assert(((low >> ii) & 1u64 == 1u64) == (ii < s && (v >> ii) & 1u64 == 1u64))
                by (bit_vector)
                requires
                    s < 64,
                    ii < 64,
                    mask_before + 1 == 1u64 << s,
                    low == v & mask_before,
            ;
        }
        proof {
            lemma_ones_below_agree(low, v, s as nat);
            lemma_ones_below_clear_above(low, s as nat, 64);
            lemma_ones_below_le(v, s as nat);
        }
        let c = count_ones(low);
        c as usize
    }

    /// Sets the bit for the given child coordinate in the mask.
    pub fn set(&mut self, coordinate: Coordinate) -> (r: Result<(), CoordinatePackError>)
        ensures
            r is Ok <==> coordinate_in_range(coordinate),
            r is Ok ==> final(self).0 == old(self).0 | (1u64 << slot_of(coordinate)),
            r matches Err(e) ==> e == pack_error(coordinate) && *final(self) == *old(self),
    {
        let slot = match coordinate_to_slot(coordinate) {
            Ok(s) => s,
            Err(e) => return Err(e),
        };
        let s = slot.get();
        self.0 = self.0 | (1u64 << s);
        Ok(())
    }

    /// Unsets the bit for the given child coordinate in the mask.
    pub fn unset(&mut self, coordinate: Coordinate) -> (r: Result<(), CoordinatePackError>)
        ensures
            r is Ok <==> coordinate_in_range(coordinate),
            r is Ok ==> final(self).0 == old(self).0 & !(1u64 << slot_of(coordinate)),
            r matches Err(e) ==> e == pack_error(coordinate) && *final(self) == *old(self),
    {
        let slot = match coordinate_to_slot(coordinate) {
            Ok(s) => s,
            Err(e) => return Err(e),
        };
        let s = slot.get();
        self.0 = self.0 & !(1u64 << s);
        Ok(())
    }

    /// Returns `true` if no bits are set.
    pub fn is_empty(&self) -> (r: bool)
        ensures
            r == (self.0 == 0),
    {
        self.0 == 0
    }

    /// Returns the number of set bits.
    pub fn count(&self) -> (r: u32)
        ensures
            r == popcount(self.0),
            r <= 64,
    {
        count_ones(self.0)
    }

    /// Returns the first child index (lowest set bit).
    pub fn first_child_index(&self) -> (r: Option<u32>)
        ensures
            r is None <==> self.0 == 0,
            r matches Some(t) ==> t < 64 && bit_at(self.0, t as nat) && forall|j: nat|
                j < t ==> !bit_at(self.0, j),
    {
        if self.is_empty() {
            None
        } else {
            let t = self.0.trailing_zeros();
            proof {
                vstd::std_specs::bits::axiom_u64_trailing_zeros(self.0);
                assert forall|j: nat| j < t implies !bit_at(self.0, j) by {
                    let jj = j as u64;
                    assert((self.0 >> jj) & 1u64 == 0u64);
                }
            }
            Some(t)
        }
    }

    /// Returns the last child index (highest set bit).
    pub fn last_child_index(&self) -> (r: Option<u32>)
        ensures
            r is None <==> self.0 == 0,
            r matches Some(t) ==> t < 64 && bit_at(self.0, t as nat) && forall|j: nat|
                t < j < 64 ==> !bit_at(self.0, j),
    {
        if self.is_empty() {
            None
        } else {
            let l = self.0.leading_zeros();
            proof {
                vstd::std_specs::bits::axiom_u64_leading_zeros(self.0);
            }
            let t = 63 - l;
            proof {
                let v = self.0;
                let tt = t as u64;
                let probe = (v >> tt) & 1u64;
                assert(probe != 0 ==> probe == 1) by (bit_vector)
                    requires
                        probe == (v >> tt) & 1u64,
                ;
                assert(bit_at(v, t as nat));
                assert forall|j: nat| t < j < 64 implies !bit_at(self.0, j) by {
                    let jj = j as u64;
                    assert((v >> jj) & 1u64 == 0u64);
                }
            }
            Some(t)
        }
    }
}

impl Branch {
    /// Returns `true` if its address is an "end," meaning it points only to *leaves*.
    pub fn is_end(&self) -> (r: bool)
        ensures
            r == bit_at(self.address.0, 63),
    {
        self.address.is_end()
    }

    /// Returns `true` if its address is a "fork," meaning it points only to *branches*.
    pub fn is_fork(&self) -> (r: bool)
        ensures
            r == !bit_at(self.address.0, 63),
    {
        self.address.is_fork()
    }

    /// Returns `true` if its address is "solid," meaning all set bits in the bitmask point
    /// to *one* distinct child.
    pub fn is_solid(&self) -> (r: bool)
        ensures
            r == bit_at(self.address.0, 62),
    {
        self.address.is_solid()
    }

    /// Returns `true` if its address is "composite," meaning set bits in the bitmask point
    /// to *many* distinct children.
    pub fn is_composite(&self) -> (r: bool)
        ensures
            r == !bit_at(self.address.0, 62),
    {
        self.address.is_composite()
    }

    /// Returns `true` if this branch has no children.
    pub fn is_empty(&self) -> (r: bool)
        ensures
            r == (self.bitmask.0 == 0),
    {
        self.bitmask.is_empty()
    }
}

impl Default for Address {
    fn default() -> (r: Self)
        ensures
            r.0 == 0,
    {
        Address(0)
    }
}

impl Default for ChildMask {
    fn default() -> (r: Self)
        ensures
            r.0 == 0,
    {
        ChildMask(0)
    }
}

impl core::ops::Deref for ChildMask {
    type Target = u64;

    fn deref(&self) -> (r: &u64)
        ensures
            *r == self.0,
    {
        &self.0
    }
}

/// `true` or `false`.
pub open spec fn bool_text(b: bool) -> Seq<char> {
    if b {
        "true"@
    } else {
        "false"@
    }
}

/// The debug rendering of an address with raw value `raw`.
pub open spec fn address_text(raw: u64) -> Seq<char> {
    "Address { raw: "@ + hex16(raw) + ", is_end: "@ + bool_text(bit_at(raw, 63)) + ", is_solid: "@
        + bool_text(bit_at(raw, 62)) + ", index: "@ + hex16(((raw & INDEX_MASK) as usize) as u64)
        + " }"@
}

/// The debug rendering of a child mask with raw value `raw`.
pub open spec fn mask_text(raw: u64) -> Seq<char> {
    "ChildMask { raw: "@ + hex16(raw) + ", count: "@ + crate::text::dec_digits(popcount(raw))
        + " }"@
}

/// The debug rendering of a branch.
pub open spec fn branch_text(b: Branch) -> Seq<char> {
    "Branch { address: "@ + address_text(b.address.0) + ", bitmask: "@ + mask_text(b.bitmask.0)
        + " }"@
}

fn push_bool(s: &mut String, b: bool)
    ensures
        final(s)@ == old(s)@ + bool_text(b),
{
    proof {
        reveal_strlit("true");
        reveal_strlit("false");
    }
    if b {
        s.append("true");
    } else {
        s.append("false");
    }
}

impl Address {
    /// Appends the debug rendering of the address to `s`.
    pub fn debug_into(&self, s: &mut String)
        ensures
            final(s)@ == old(s)@ + address_text(self.0),
    {
        proof {
            reveal_strlit("Address { raw: ");
            reveal_strlit(", is_end: ");
            reveal_strlit(", is_solid: ");
            reveal_strlit(", index: ");
            reveal_strlit(" }");
        }
        s.append("Address { raw: ");
        push_hex16(s, self.0);
        s.append(", is_end: ");
        push_bool(s, self.is_end());
        s.append(", is_solid: ");
        push_bool(s, self.is_solid());
        s.append(", index: ");
        push_hex16(s, self.index() as u64);
        s.append(" }");
        assert(final(s)@ =~= old(s)@ + address_text(self.0));
    }

    /// Renders the address with its raw value, its flags and its index, the numbers in
    /// sixteen upper-case hexadecimal digits.
    pub fn debug_string(&self) -> (s: String)
        ensures
            s@ == address_text(self.0),
    {
        let mut s = String::new();
        self.debug_into(&mut s);
        assert(s@ =~= address_text(self.0));
        s
    }
}

impl ChildMask {
    /// Appends the debug rendering of the mask to `s`.
    pub fn debug_into(&self, s: &mut String)
        ensures
            final(s)@ == old(s)@ + mask_text(self.0),
    {
        proof {
            reveal_strlit("ChildMask { raw: ");
            reveal_strlit(", count: ");
            reveal_strlit(" }");
        }
        s.append("ChildMask { raw: ");
        push_hex16(s, self.0);
        s.append(", count: ");
        push_decimal(s, self.count() as u64);
        s.append(" }");
        assert(final(s)@ =~= old(s)@ + mask_text(self.0));
    }

    /// Renders the mask with its raw value in hexadecimal and its number of set bits.
    pub fn debug_string(&self) -> (s: String)
        ensures
            s@ == mask_text(self.0),
    {
        let mut s = String::new();
        self.debug_into(&mut s);
        assert(s@ =~= mask_text(self.0));
        s
    }
}

impl Branch {
    /// Appends the debug rendering of the branch to `s`.
    pub fn debug_into(&self, s: &mut String)
        ensures
            final(s)@ == old(s)@ + branch_text(*self),
    {
        proof {
            reveal_strlit("Branch { address: ");
            reveal_strlit(", bitmask: ");
            reveal_strlit(" }");
        }
        s.append("Branch { address: ");
        self.address.debug_into(s);
        s.append(", bitmask: ");
        self.bitmask.debug_into(s);
        s.append(" }");
        assert(final(s)@ =~= old(s)@ + branch_text(*self));
    }

    /// Renders the branch with its address and its bitmask.
    pub fn debug_string(&self) -> (s: String)
        ensures
            s@ == branch_text(*self),
    {
        let mut s = String::new();
        self.debug_into(&mut s);
        assert(s@ =~= branch_text(*self));
        s
    }
}

} // verus!
