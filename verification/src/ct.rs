//! The constant-time primitives of the `subtle` crate, as far as the field
//! arithmetic and the point codec use them.
//!
//! Nothing in this module is proved: each contract restates what the source
//! of `subtle` shows of the function that the body calls.

use crate::point::AffinePoint;
use subtle::Choice;
use subtle::ConditionallySelectable;
use subtle::ConstantTimeEq;
use subtle::ConstantTimeGreater;
use subtle::CtOption;
use vstd::prelude::*;

verus! {

/// `subtle::Choice`, a byte that is meant to hold `0` or `1`.
#[verifier::external_type_specification]
#[verifier::external_body]
pub struct ExChoice(Choice);

/// `subtle::CtOption`, a value together with a `Choice` that says whether
/// the value counts.
#[verifier::external_type_specification]
#[verifier::external_body]
#[verifier::reject_recursive_types(T)]
pub struct ExCtOption<T>(CtOption<T>);

/// The byte that a `Choice` wraps.
pub uninterp spec fn choice_byte(c: Choice) -> u8;

/// `Choice::from(u8)`: wraps the byte as it is. The conversion asserts in
/// debug builds that the byte is `0` or `1`.
#[verifier::external_body]
pub(crate) fn choice_from_u8(b: u8) -> (c: Choice)
    requires
        b <= 1,
    ensures
        choice_byte(c) == b,
{
    Choice::from(b)
}

/// `Choice::unwrap_u8`: hands out the wrapped byte.
#[verifier::external_body]
pub(crate) fn choice_to_u8(c: Choice) -> (b: u8)
    ensures
        b == choice_byte(c),
{
    c.unwrap_u8()
}

/// `Choice & Choice`: the bitwise and of the two bytes, wrapped again.
#[verifier::external_body]
pub(crate) fn choice_and(a: Choice, b: Choice) -> (c: Choice)
    requires
        choice_byte(a) <= 1,
        choice_byte(b) <= 1,
    ensures
        choice_byte(c) == (if choice_byte(a) == 1 && choice_byte(b) == 1 {
            1u8
        } else {
            0u8
        }),
{
    a & b
}

/// `u64::ct_eq`: a `Choice` of `1` if the two numbers are equal, of `0` if
/// they are not.
#[verifier::external_body]
pub(crate) fn ct_eq_u64(a: u64, b: u64) -> (c: Choice)
    ensures
        choice_byte(c) == (if a == b {
            1u8
        } else {
            0u8
        }),
{
    a.ct_eq(&b)
}

/// `u64::ct_gt`: a `Choice` of `1` if `a > b`, of `0` otherwise.
#[verifier::external_body]
pub(crate) fn ct_gt_u64(a: u64, b: u64) -> (c: Choice)
    ensures
        choice_byte(c) == (if a > b {
            1u8
        } else {
            0u8
        }),
{
    a.ct_gt(&b)
}

/// `u64::conditional_select`: `a` for a `Choice` of `0`, `b` for a `Choice`
/// of `1`.
#[verifier::external_body]
pub(crate) fn ct_select_u64(a: u64, b: u64, choice: Choice) -> (r: u64)
    requires
        choice_byte(choice) <= 1,
    ensures
        r == (if choice_byte(choice) == 1 {
            b
        } else {
            a
        }),
{
    u64::conditional_select(&a, &b, choice)
}

/// What a `CtOption` of a point holds: the point, if the `Choice` beside it
/// wraps `1`, and nothing otherwise.
pub uninterp spec fn ct_option_value(o: CtOption<AffinePoint>) -> Option<AffinePoint>;

/// `CtOption::new`: stores the value and the `Choice` as they are.
#[verifier::external_body]
pub(crate) fn ct_option_new(value: AffinePoint, is_some: Choice) -> (o: CtOption<AffinePoint>)
    ensures
        ct_option_value(o) == (if choice_byte(is_some) == 1 {
            Some(value)
        } else {
            None
        }),
{
    CtOption::new(value, is_some)
}

/// `CtOption::into_option`: `Some` of the value if the `Choice` beside it
/// wraps `1`, `None` otherwise.
#[verifier::external_body]
pub(crate) fn ct_option_into(o: CtOption<AffinePoint>) -> (r: Option<AffinePoint>)
    ensures
        r == ct_option_value(o),
{
    o.into_option()
}

} // verus!
