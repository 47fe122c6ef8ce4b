//! Rendering of numbers as text, used by the debug renderings of the library's types.
use vstd::prelude::*;

use vstd::arithmetic::div_mod::lemma_breakdown;
use vstd::arithmetic::power::{lemma_pow_positive, pow};

verus! {

/// The character of a hexadecimal digit, upper case.
pub open spec fn hex_char(d: nat) -> char {
    if d < 10 {
        (('0' as nat) + d) as char
    } else {
        (('A' as nat) + (d - 10)) as char
    }
}

/// The character of a decimal digit.
pub open spec fn dec_char(d: nat) -> char {
    (('0' as nat) + d) as char
}

/// The last `n` hexadecimal digits of `v`, most significant first, padded with zeros.
pub open spec fn hex_digits(v: nat, n: nat) -> Seq<char>
    decreases n,
{
    if n == 0 {
        Seq::empty()
    } else {
        hex_digits(v / 16, (n - 1) as nat).push(hex_char(v % 16))
    }
}

/// The decimal digits of `v`, most significant first, without leading zeros.
pub open spec fn dec_digits(v: nat) -> Seq<char>
    decreases v,
{
    if v < 10 {
        seq![dec_char(v)]
    } else {
        dec_digits(v / 10).push(dec_char(v % 10))
    }
}

/// `0x` followed by the sixteen upper-case hexadecimal digits of `v`.
pub open spec fn hex16(v: u64) -> Seq<char> {
    seq!['0', 'x'] + hex_digits(v as nat, 16)
}

/// The value of an upper-case hexadecimal digit character, or `None` for any other
/// character.
pub open spec fn hex_value(c: char) -> Option<nat> {
    let n = c as nat;
    if ('0' as nat) <= n && n <= ('9' as nat) {
        Some((n - ('0' as nat)) as nat)
    } else if ('A' as nat) <= n && n <= ('F' as nat) {
        Some((n - ('A' as nat) + 10) as nat)
    } else {
        None
    }
}

/// The number that the characters `s` spell as upper-case hexadecimal digits, most
/// significant first, or `None` when one of them is not such a digit.
pub open spec fn hex_number(s: Seq<char>) -> Option<nat>
    decreases s.len(),
{
    if s.len() == 0 {
        Some(0)
    } else {
        match (hex_number(s.drop_last()), hex_value(s.last())) {
            (Some(high), Some(low)) => Some(high * 16 + low),
            _ => None,
        }
    }
}

/// The last `n` hexadecimal digits of `v` are `n` upper-case hexadecimal digits that spell
/// `v` modulo `16^n`.
pub proof fn lemma_hex_digits_spell(v: nat, n: nat)
    ensures
        hex_digits(v, n).len() == n,
        hex_number(hex_digits(v, n)) == Some(v % (pow(16, n) as nat)),
    decreases n,
{
    lemma_pow_positive(16, n);
    if n == 0 {
        assert(pow(16, 0) == 1) by {
            reveal(pow);
        }
        assert(v % 1 == 0);
    } else {
        lemma_hex_digits_spell(v / 16, (n - 1) as nat);
        let s = hex_digits(v, n);
        let d = v % 16;
        assert(s.drop_last() =~= hex_digits(v / 16, (n - 1) as nat));
        assert(s.last() == hex_char(d));
        assert(hex_value(hex_char(d)) == Some(d));
        lemma_pow_positive(16, (n - 1) as nat);
        let z = pow(16, (n - 1) as nat);
        assert(pow(16, n) == 16 * z) by {
            reveal(pow);
        }
        lemma_breakdown(v as int, 16, z);
        let high = ((v / 16) % (z as nat)) as int;
        assert(high * 16 == 16 * high) by (nonlinear_arith);
        assert(hex_number(s) == Some((high * 16 + d) as nat));
        assert(v % (pow(16, n) as nat) == high * 16 + d);
    }
}

/// `hex16(v)` is `0x` followed by sixteen upper-case hexadecimal digits that spell `v`.
pub proof fn lemma_hex16_spells(v: u64)
    ensures
        hex16(v).len() == 18,
        hex16(v)[0] == '0',
        hex16(v)[1] == 'x',
        hex_number(hex16(v).subrange(2, 18)) == Some(v as nat),
{
    lemma_hex_digits_spell(v as nat, 16);
    assert(hex16(v).subrange(2, 18) =~= hex_digits(v as nat, 16));
    assert(pow(16, 16) == 0x1_0000_0000_0000_0000) by {
        reveal_with_fuel(pow, 17);
    }
    assert((v as nat) % 0x1_0000_0000_0000_0000nat == v as nat);
}

/// The value of a decimal digit character, or `None` for any other character.
pub open spec fn dec_value(c: char) -> Option<nat> {
    let n = c as nat;
    if ('0' as nat) <= n && n <= ('9' as nat) {
        Some((n - ('0' as nat)) as nat)
    } else {
        None
    }
}

/// The number that the characters `s` spell as decimal digits, most significant first, or
/// `None` when one of them is not a decimal digit.
pub open spec fn dec_number(s: Seq<char>) -> Option<nat>
    decreases s.len(),
{
    if s.len() == 0 {
        Some(0)
    } else {
        match (dec_number(s.drop_last()), dec_value(s.last())) {
            (Some(high), Some(low)) => Some(high * 10 + low),
            _ => None,
        }
    }
}

/// The decimal digits of `v` are decimal digits that spell `v`, without a leading zero
/// unless `v` is zero.
pub proof fn lemma_dec_digits_spell(v: nat)
    ensures
        dec_digits(v).len() >= 1,
        dec_number(dec_digits(v)) == Some(v),
        v > 0 ==> dec_digits(v)[0] != '0',
    decreases v,
{
    let s = dec_digits(v);
    if v < 10 {
        assert(s.drop_last() =~= Seq::<char>::empty());
        assert(dec_number(s.drop_last()) == Some(0nat));
        assert(dec_value(dec_char(v)) == Some(v));
        assert(dec_number(s) == Some(0nat * 10 + v));
    } else {
        lemma_dec_digits_spell(v / 10);
        assert(s.drop_last() =~= dec_digits(v / 10));
        assert(dec_value(dec_char(v % 10)) == Some(v % 10));
        assert(dec_number(s) == Some((v / 10) * 10 + v % 10));
        assert(s[0] == dec_digits(v / 10)[0]);
    }
}

fn digit_hex(d: u64) -> (c: char)
    requires
        d < 16,
    ensures
        c == hex_char(d as nat),
{
    if d < 10 {
        let c = (48u64 + d) as u8 as char;
        c
    } else {
        let c = (55u64 + d) as u8 as char;
        c
    }
}

fn digit_dec(d: u64) -> (c: char)
    requires
        d < 10,
    ensures
        c == dec_char(d as nat),
{
    (48u64 + d) as u8 as char
}

/// Appends one character to a string.
#[verifier::external_body]
pub(crate) fn push_char(s: &mut String, c: char)
    ensures
        final(s)@ == old(s)@.push(c),
{
    s.push(c)
}

/// Appends the last `n` hexadecimal digits of `v` to `out`.
pub fn push_hex_digits(out: &mut String, v: u64, n: usize)
    ensures
        final(out)@ == old(out)@ + hex_digits(v as nat, n as nat),
    decreases n,
{
    if n > 0 {
        push_hex_digits(out, v / 16, n - 1);
        let c = digit_hex(v % 16);
        push_char(out, c);
        assert(final(out)@ =~= old(out)@ + hex_digits(v as nat, n as nat));
    } else {
        assert(old(out)@ + hex_digits(v as nat, 0) =~= old(out)@);
    }
}

/// Appends the decimal digits of `v` to `out`.
pub fn push_decimal(out: &mut String, v: u64)
    ensures
        final(out)@ == old(out)@ + dec_digits(v as nat),
    decreases v,
{
    if v < 10 {
        let c = digit_dec(v);
        push_char(out, c);
        assert(final(out)@ =~= old(out)@ + dec_digits(v as nat));
    } else {
        push_decimal(out, v / 10);
        let c = digit_dec(v % 10);
        push_char(out, c);
        assert(final(out)@ =~= old(out)@ + dec_digits(v as nat));
    }
}

/// Appends `0x` and the sixteen upper-case hexadecimal digits of `v` to `out`.
pub fn push_hex16(out: &mut String, v: u64)
    ensures
        final(out)@ == old(out)@ + hex16(v),
{
    push_char(out, '0');
    push_char(out, 'x');
    push_hex_digits(out, v, 16);
    assert(final(out)@ =~= old(out)@ + hex16(v));
}

/// Types whose values have a debug rendering as text.
pub trait DebugText {
    /// The rendering of the value.
    spec fn debug_text(&self) -> Seq<char>;

    /// Appends the rendering of the value to `out`.
    fn push_debug(&self, out: &mut String)
        ensures
            final(out)@ == old(out)@ + self.debug_text(),
    ;
}

impl DebugText for u8 {
    open spec fn debug_text(&self) -> Seq<char> {
        dec_digits(*self as nat)
    }

    fn push_debug(&self, out: &mut String) {
        push_decimal(out, *self as u64);
    }
}

impl DebugText for u16 {
    open spec fn debug_text(&self) -> Seq<char> {
        dec_digits(*self as nat)
    }

    fn push_debug(&self, out: &mut String) {
        push_decimal(out, *self as u64);
    }
}

impl DebugText for u32 {
    open spec fn debug_text(&self) -> Seq<char> {
        dec_digits(*self as nat)
    }

    fn push_debug(&self, out: &mut String) {
        push_decimal(out, *self as u64);
    }
}

impl DebugText for u64 {
    open spec fn debug_text(&self) -> Seq<char> {
        dec_digits(*self as nat)
    }

    fn push_debug(&self, out: &mut String) {
        push_decimal(out, *self);
    }
}

} // verus!
