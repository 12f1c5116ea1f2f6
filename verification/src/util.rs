use vstd::prelude::*;
use vstd::std_specs::cmp::PartialOrdSpec;
use std::cmp::Ordering;

verus! {

/// Floor division: the quotient of `x / y` rounded towards negative infinity.
pub open spec fn spec_floor_div(x: int, y: int) -> int {
    if y > 0 {
        x / y
    } else {
        (-x) / (-y)
    }
}

/// x / y, round towards negative inf
pub fn floor_div(x: i32, y: i32) -> (r: i32)
    requires
        y != 0,
        !(x == i32::MIN && y == -1),
    ensures
        r == spec_floor_div(x as int, y as int),
{
    let a: i64 = if y > 0 { x as i64 } else { -(x as i64) };
    let b: i64 = if y > 0 { y as i64 } else { -(y as i64) };
    assert(-0x8000_0000 <= a / b <= 0x7fff_ffff) by (nonlinear_arith)
        requires
            b >= 1,
            -0x8000_0000 <= a <= 0x8000_0000,
            a == 0x8000_0000 ==> b >= 2,
    {
        let q = a / b;
        if a >= 0 {
            assert(q * b <= a);
            assert(q <= a);
        } else {
            assert(q * b <= a < q * b + b);
        }
    }
    let q = a.checked_div_euclid(b).unwrap();
    q as i32
}


/// `lhs` is ordered strictly before `rhs`.
pub open spec fn spec_lt<S: PartialOrd>(lhs: S, rhs: S) -> bool {
    lhs.partial_cmp_spec(&rhs) == Some(Ordering::Less)
}

/// `lhs` is ordered strictly after `rhs`.
pub open spec fn spec_gt<S: PartialOrd>(lhs: S, rhs: S) -> bool {
    lhs.partial_cmp_spec(&rhs) == Some(Ordering::Greater)
}

/// `lhs` is ordered equal to `rhs`.
pub open spec fn spec_eq_order<S: PartialOrd>(lhs: S, rhs: S) -> bool {
    lhs.partial_cmp_spec(&rhs) == Some(Ordering::Equal)
}

/// Version of `min` that only requires `PartialOrd`: `lhs` unless it is
/// ordered after `rhs` (so `lhs` when the two are unordered).
pub fn min<S: PartialOrd + Copy>(lhs: S, rhs: S) -> (r: S)
    ensures
        S::obeys_partial_cmp_spec() ==> r == (if spec_gt(lhs, rhs) { rhs } else { lhs }),
{
    match lhs.partial_cmp(&rhs) {
        Some(Ordering::Less) | Some(Ordering::Equal) | None => lhs,
        _ => rhs,
    }
}

/// Version of `max` that only requires `PartialOrd`: `lhs` unless it is
/// ordered before `rhs` (so `lhs` when the two are unordered).
pub fn max<S: PartialOrd + Copy>(lhs: S, rhs: S) -> (r: S)
    ensures
        S::obeys_partial_cmp_spec() ==> r == (if spec_lt(lhs, rhs) { rhs } else { lhs }),
{
    match lhs.partial_cmp(&rhs) {
        Some(Ordering::Greater) | Some(Ordering::Equal) | None => lhs,
        _ => rhs,
    }
}

/// Limits the range of `x` to be within `[a, b]`: `a` when `x` is before
/// `a`, else `b` when `x` is after `b`, else `x`.
pub fn clamp<T: PartialOrd + Copy>(a: T, b: T, x: T) -> (r: T)
    ensures
        T::obeys_partial_cmp_spec() ==> r == (if spec_lt(x, a) {
            a
        } else if spec_gt(x, b) {
            b
        } else {
            x
        }),
{
    if x < a {
        a
    } else if x > b {
        b
    } else {
        x
    }
}

/// `t` lies in `[min, max]`.
pub fn is_within<T: PartialOrd + Copy>(t: T, min: T, max: T) -> (r: bool)
    ensures
        T::obeys_partial_cmp_spec() ==> r == ((spec_gt(t, min) || spec_eq_order(t, min)) && (
        spec_lt(t, max) || spec_eq_order(t, max))),
{
    t >= min && t <= max
}

/// `t` lies in `(min, max)`.
pub fn is_between<T: PartialOrd + Copy>(t: T, min: T, max: T) -> (r: bool)
    ensures
        T::obeys_partial_cmp_spec() ==> r == (spec_gt(t, min) && spec_lt(t, max)),
{
    t > min && t < max
}

/// Tests if `pos` is within `radii` units from `center` on every axis.
pub fn in_range(pos: [i32; 3], center: [i32; 3], radii: [i32; 3]) -> (r: bool)
    requires
        i32::MIN <= center[0] - radii[0] <= i32::MAX,
        i32::MIN <= center[0] + radii[0] <= i32::MAX,
        i32::MIN <= center[1] - radii[1] <= i32::MAX,
        i32::MIN <= center[1] + radii[1] <= i32::MAX,
        i32::MIN <= center[2] - radii[2] <= i32::MAX,
        i32::MIN <= center[2] + radii[2] <= i32::MAX,
    ensures
        r == forall|i: int| 0 <= i < 3 ==> center[i] - radii[i] <= #[trigger] pos[i] <= center[i] + radii[i],
{
    let r = pos[0] <= center[0] + radii[0] && pos[0] >= center[0] - radii[0] && pos[1] <= center[1]
        + radii[1] && pos[1] >= center[1] - radii[1] && pos[2] <= center[2] + radii[2] && pos[2]
        >= center[2] - radii[2];
    assert(r == forall|i: int| 0 <= i < 3 ==> center[i] - radii[i] <= #[trigger] pos[i] <= center[i] + radii[i]) by {
        assert(pos[0] == pos@[0] && pos[1] == pos@[1] && pos[2] == pos@[2]);
    }
    r
}

/// A type whose `==` is the equality of its values.
pub trait ConcreteEq: PartialEq + Sized {
    proof fn lemma_eq_is_equality()
        ensures
            vstd::laws_eq::obeys_concrete_eq::<Self>(),
    ;
}

impl ConcreteEq for bool {
    proof fn lemma_eq_is_equality() {
        broadcast use vstd::laws_eq::group_laws_eq;

    }
}

impl ConcreteEq for u8 {
    proof fn lemma_eq_is_equality() {
        broadcast use vstd::laws_eq::group_laws_eq;

    }
}

impl ConcreteEq for u16 {
    proof fn lemma_eq_is_equality() {
        broadcast use vstd::laws_eq::group_laws_eq;

    }
}

impl ConcreteEq for u32 {
    proof fn lemma_eq_is_equality() {
        broadcast use vstd::laws_eq::group_laws_eq;

    }
}

impl ConcreteEq for u64 {
    proof fn lemma_eq_is_equality() {
        broadcast use vstd::laws_eq::group_laws_eq;

    }
}

impl ConcreteEq for usize {
    proof fn lemma_eq_is_equality() {
        broadcast use vstd::laws_eq::group_laws_eq;

    }
}

impl ConcreteEq for i8 {
    proof fn lemma_eq_is_equality() {
        broadcast use vstd::laws_eq::group_laws_eq;

    }
}

impl ConcreteEq for i16 {
    proof fn lemma_eq_is_equality() {
        broadcast use vstd::laws_eq::group_laws_eq;

    }
}

impl ConcreteEq for i32 {
    proof fn lemma_eq_is_equality() {
        broadcast use vstd::laws_eq::group_laws_eq;

    }
}

impl ConcreteEq for i64 {
    proof fn lemma_eq_is_equality() {
        broadcast use vstd::laws_eq::group_laws_eq;

    }
}

impl ConcreteEq for isize {
    proof fn lemma_eq_is_equality() {
        broadcast use vstd::laws_eq::group_laws_eq;

    }
}

} // verus!
