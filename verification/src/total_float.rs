use vstd::prelude::*;
use std::cmp::Ordering;

verus! {

/// A floating-point number held by its IEEE-754 bit pattern (`u32` for an
/// `f32`, `u64` for an `f64`), with a total equality and order.
///
/// Two values are equal exactly when their bit patterns are equal, so every
/// NaN equals itself and `0.0` differs from `-0.0`.
#[derive(Copy, Clone, Debug, Default, Hash, PartialEq, Eq, Structural)]
pub struct TotalFloat<T>(pub T);

/// The order key of an `f32` bit pattern: the sign bit is flipped, and all
/// other bits are flipped too when the sign bit was set.
pub open spec fn orderable_key_32(bits: u32) -> u32 {
    if bits >> 31u32 == 1u32 {
        bits ^ 0xffff_ffffu32
    } else {
        bits ^ 0x8000_0000u32
    }
}

/// The order key of an `f64` bit pattern, built like the `f32` key.
pub open spec fn orderable_key_64(bits: u64) -> u64 {
    if bits >> 63u64 == 1u64 {
        bits ^ 0xffff_ffff_ffff_ffffu64
    } else {
        bits ^ 0x8000_0000_0000_0000u64
    }
}

impl TotalFloat<u32> {
    /// Maps the bits of an `f32` to an unsigned key whose order is the
    /// float order (with negative NaNs first and positive NaNs last).
    pub fn as_orderable(value: u32) -> (key: u32)
        ensures
            key == orderable_key_32(value),
    {
        let zero: u32 = 0;
        let shift: u32 = 31;
        let bits = value;
        let sign = bits >> shift;
        assert(sign <= 1) by (bit_vector)
            requires
                sign == bits >> 31u32,
        ;
        let mut mask = zero.wrapping_sub(sign);
        assert(mask == (if sign == 1 { 0xffff_ffffu32 } else { 0u32 }));
        mask = mask | (1u32 << shift);
        let key = bits ^ mask;
        assert(key == orderable_key_32(value)) by (bit_vector)
            requires
                sign == bits >> 31u32,
                bits == value,
                sign <= 1,
                mask == (if sign == 1 { 0xffff_ffffu32 } else { 0u32 }) | (1u32 << 31u32),
                key == bits ^ mask,
        ;
        key
    }
}

impl TotalFloat<u64> {
    /// Maps the bits of an `f64` to an unsigned key whose order is the
    /// float order (with negative NaNs first and positive NaNs last).
    pub fn as_orderable(value: u64) -> (key: u64)
        ensures
            key == orderable_key_64(value),
    {
        let zero: u64 = 0;
        let shift: u64 = 63;
        let bits = value;
        let sign = bits >> shift;
        assert(sign <= 1) by (bit_vector)
            requires
                sign == bits >> 63u64,
        ;
        let mut mask = zero.wrapping_sub(sign);
        assert(mask == (if sign == 1 { 0xffff_ffff_ffff_ffffu64 } else { 0u64 }));
        mask = mask | (1u64 << shift);
        let key = bits ^ mask;
        assert(key == orderable_key_64(value)) by (bit_vector)
            requires
                sign == bits >> 63u64,
                bits == value,
                sign <= 1,
                mask == (if sign == 1 { 0xffff_ffff_ffff_ffffu64 } else { 0u64 }) | (1u64
                    << 63u64),
                key == bits ^ mask,
        ;
        key
    }
}

/// The three-way comparison of two `f32` keys.
pub open spec fn compare_keys_32(a: u32, b: u32) -> Option<Ordering> {
    if a < b {
        Some(Ordering::Less)
    } else if a > b {
        Some(Ordering::Greater)
    } else {
        Some(Ordering::Equal)
    }
}

/// The three-way comparison of two `f64` keys.
pub open spec fn compare_keys_64(a: u64, b: u64) -> Option<Ordering> {
    if a < b {
        Some(Ordering::Less)
    } else if a > b {
        Some(Ordering::Greater)
    } else {
        Some(Ordering::Equal)
    }
}

impl PartialOrd for TotalFloat<u32> {
    fn partial_cmp(&self, other: &Self) -> (r: Option<Ordering>) {
        let a = Self::as_orderable(self.0);
        let b = Self::as_orderable(other.0);
        a.partial_cmp(&b)
    }
}

impl vstd::std_specs::cmp::PartialOrdSpecImpl for TotalFloat<u32> {
    open spec fn obeys_partial_cmp_spec() -> bool {
        true
    }

    open spec fn partial_cmp_spec(&self, other: &Self) -> Option<Ordering> {
        compare_keys_32(orderable_key_32(self.0), orderable_key_32(other.0))
    }
}

impl PartialOrd for TotalFloat<u64> {
    fn partial_cmp(&self, other: &Self) -> (r: Option<Ordering>) {
        let a = Self::as_orderable(self.0);
        let b = Self::as_orderable(other.0);
        a.partial_cmp(&b)
    }
}

impl vstd::std_specs::cmp::PartialOrdSpecImpl for TotalFloat<u64> {
    open spec fn obeys_partial_cmp_spec() -> bool {
        true
    }

    open spec fn partial_cmp_spec(&self, other: &Self) -> Option<Ordering> {
        compare_keys_64(orderable_key_64(self.0), orderable_key_64(other.0))
    }
}

/// Comparing two `f32` values finds them equal exactly when their bit
/// patterns are equal, so the order agrees with `==`.
pub proof fn lemma_order_agrees_with_eq_32(a: u32, b: u32)
    by (bit_vector)
    ensures
        (orderable_key_32(a) == orderable_key_32(b)) <==> (a == b),
{
}

/// Comparing two `f64` values finds them equal exactly when their bit
/// patterns are equal, so the order agrees with `==`.
pub proof fn lemma_order_agrees_with_eq_64(a: u64, b: u64)
    by (bit_vector)
    ensures
        (orderable_key_64(a) == orderable_key_64(b)) <==> (a == b),
{
}

/// The `f32` order: every value with the sign bit set comes before every
/// value without it; among values without the sign bit a larger bit pattern
/// is larger, and among values with it a larger bit pattern is smaller.
pub proof fn lemma_key_order_32(a: u32, b: u32)
    by (bit_vector)
    ensures
        (a >> 31u32 == 1u32 && b >> 31u32 == 0u32) ==> orderable_key_32(a)
            < orderable_key_32(b),
        (a >> 31u32 == 0u32 && b >> 31u32 == 0u32) ==> (orderable_key_32(a)
            < orderable_key_32(b) <==> a < b),
        (a >> 31u32 == 1u32 && b >> 31u32 == 1u32) ==> (orderable_key_32(a)
            < orderable_key_32(b) <==> a > b),
{
}

/// The `f64` order: the same three facts with the sign at bit 63.
pub proof fn lemma_key_order_64(a: u64, b: u64)
    by (bit_vector)
    ensures
        (a >> 63u64 == 1u64 && b >> 63u64 == 0u64) ==> orderable_key_64(a)
            < orderable_key_64(b),
        (a >> 63u64 == 0u64 && b >> 63u64 == 0u64) ==> (orderable_key_64(a)
            < orderable_key_64(b) <==> a < b),
        (a >> 63u64 == 1u64 && b >> 63u64 == 1u64) ==> (orderable_key_64(a)
            < orderable_key_64(b) <==> a > b),
{
}

} // verus!
