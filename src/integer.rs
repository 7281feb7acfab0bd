//! The unsigned integer widths that a codec can be instantiated with.
use vstd::prelude::*;

verus! {

/// An unsigned integer type whose values a codec encodes and decodes.
///
/// Each width is seen through `u128`, which holds every value of every
/// implementing type; `max_nat` is the largest value of the type.
pub trait UnsignedInteger: Copy + Sized {
    /// The largest value of the type.
    spec fn max_nat() -> nat;

    /// The value as a natural number.
    spec fn to_nat(&self) -> nat;

    /// Returns the largest value of the type, widened to `u128`.
    fn max_u128() -> (r: u128)
        ensures
            r as nat == Self::max_nat(),
            r >= 0xffff,
    ;

    /// Widens the value to `u128`.
    fn to_u128(&self) -> (r: u128)
        ensures
            r as nat == self.to_nat(),
            self.to_nat() <= Self::max_nat(),
    ;

    /// Narrows a `u128` that is within the type's range.
    fn from_u128(v: u128) -> (r: Self)
        requires
            v as nat <= Self::max_nat(),
        ensures
            r.to_nat() == v as nat,
    ;
}

impl UnsignedInteger for u16 {
    open spec fn max_nat() -> nat {
        u16::MAX as nat
    }

    open spec fn to_nat(&self) -> nat {
        *self as nat
    }

    fn max_u128() -> (r: u128) {
        u16::MAX as u128
    }

    fn to_u128(&self) -> (r: u128) {
        *self as u128
    }

    fn from_u128(v: u128) -> (r: u16) {
        v as u16
    }
}

impl UnsignedInteger for u32 {
    open spec fn max_nat() -> nat {
        u32::MAX as nat
    }

    open spec fn to_nat(&self) -> nat {
        *self as nat
    }

    fn max_u128() -> (r: u128) {
        u32::MAX as u128
    }

    fn to_u128(&self) -> (r: u128) {
        *self as u128
    }

    fn from_u128(v: u128) -> (r: u32) {
        v as u32
    }
}

impl UnsignedInteger for u64 {
    open spec fn max_nat() -> nat {
        u64::MAX as nat
    }

    open spec fn to_nat(&self) -> nat {
        *self as nat
    }

    fn max_u128() -> (r: u128) {
        u64::MAX as u128
    }

    fn to_u128(&self) -> (r: u128) {
        *self as u128
    }

    fn from_u128(v: u128) -> (r: u64) {
        v as u64
    }
}

impl UnsignedInteger for usize {
    open spec fn max_nat() -> nat {
        usize::MAX as nat
    }

    open spec fn to_nat(&self) -> nat {
        *self as nat
    }

    fn max_u128() -> (r: u128) {
        usize::MAX as u128
    }

    fn to_u128(&self) -> (r: u128) {
        *self as u128
    }

    fn from_u128(v: u128) -> (r: usize) {
        v as usize
    }
}

impl UnsignedInteger for u128 {
    open spec fn max_nat() -> nat {
        u128::MAX as nat
    }

    open spec fn to_nat(&self) -> nat {
        *self as nat
    }

    fn max_u128() -> (r: u128) {
        u128::MAX
    }

    fn to_u128(&self) -> (r: u128) {
        *self
    }

    fn from_u128(v: u128) -> (r: u128) {
        v
    }
}

} // verus!
