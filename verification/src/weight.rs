//! Weight arithmetic.
//!
//! A weight is the signed difference attached to each record flowing through
//! the dataflow.  The engine offers two variants, selected once at
//! configuration time: the wrapping variant is the native signed 32-bit
//! integer, and the checked variant refuses overflow.  In the running
//! process the checked variant aborts on overflow by design; the verified
//! operations here instead exclude overflowing inputs by precondition, so
//! they never panic.

use vstd::prelude::*;

verus! {

/// Wrapping weight variant: a native signed 32-bit difference.
pub type Weight = i32;

/// Checked weight variant: every operation requires that the result fits.
#[derive(Clone, Copy, PartialEq, Eq, Structural, Debug, Hash)]
pub struct CheckedWeight {
    pub value: i32,
}

impl CheckedWeight {
    /// The zero difference.
    pub fn zero() -> (r: Self)
        ensures
            r.value == 0,
    {
        CheckedWeight { value: 0 }
    }

    /// The unit difference carried by a single inserted record.
    pub fn one() -> (r: Self)
        ensures
            r.value == 1,
    {
        CheckedWeight { value: 1 }
    }

    /// Whether this weight cancels out.
    pub fn is_zero(&self) -> (r: bool)
        ensures
            r <==> self.value == 0,
    {
        self.value == 0
    }

    /// Sum of two weights.
    pub fn add(self, other: Self) -> (r: Self)
        requires
            i32::MIN <= self.value + other.value <= i32::MAX,
        ensures
            r.value == self.value + other.value,
    {
        CheckedWeight { value: self.value + other.value }
    }

    /// Product of two weights, as taken by a join of two collections.
    pub fn mul(self, other: Self) -> (r: Self)
        requires
            i32::MIN <= self.value * other.value <= i32::MAX,
        ensures
            r.value == self.value * other.value,
    {
        CheckedWeight { value: self.value * other.value }
    }

    /// Negation, as taken by a retraction.
    pub fn neg(self) -> (r: Self)
        requires
            self.value != i32::MIN,
        ensures
            r.value == -self.value,
    {
        CheckedWeight { value: -self.value }
    }

    /// Build a weight from its raw value.
    pub fn from_value(item: i32) -> (r: Self)
        ensures
            r.value == item,
    {
        CheckedWeight { value: item }
    }

    /// The raw value, widened.
    pub fn to_i64(self) -> (r: i64)
        ensures
            r == self.value,
    {
        self.value as i64
    }
}

} // verus!
