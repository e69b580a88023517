//! The primitive integer types that a fixed-point number can be multiplied
//! with or divided by, and the conversions to and from `u128` that the
//! fixed-point operations make on them.

use vstd::prelude::*;

verus! {

/// A primitive integer type: what a value of it stands for, its largest
/// value, and its conversions to and from `u128`, which fail where the value
/// does not fit.
pub trait FixedInt: Copy + Sized {
    /// The integer this value stands for.
    spec fn as_int(self) -> int;

    /// The largest value of the type.
    spec fn max_int() -> int;

    /// The smallest value of the type.
    spec fn min_int() -> int;

    /// Every value of the type lies between its smallest and its largest
    /// value, and the integer it stands for determines it.
    proof fn lemma_as_int_in_range(self, other: Self)
        ensures
            Self::min_int() <= self.as_int() <= Self::max_int(),
            self.as_int() == other.as_int() ==> self == other,
    ;

    /// The largest value of the type is positive and fits in a `u128`.
    proof fn lemma_max_int_fits()
        ensures
            0 < Self::max_int() <= u128::MAX,
    ;

    /// `TryInto<u128>`: the same value where it is not negative.
    fn try_into_u128(self) -> (r: Option<u128>)
        ensures
            match r {
                Some(v) => 0 <= self.as_int() && v as int == self.as_int(),
                None => self.as_int() < 0,
            },
    ;

    /// `TryFrom<u128>`: the value of the type equal to `x`, where there is one.
    fn try_from_u128(x: u128) -> (r: Option<Self>)
        ensures
            match r {
                Some(v) => x as int <= Self::max_int() && v.as_int() == x as int,
                None => x as int > Self::max_int(),
            },
    ;

    /// `Bounded::max_value`: the largest value of the type.
    fn bounded_max() -> (r: Self)
        ensures
            r.as_int() == Self::max_int(),
    ;
}

impl FixedInt for u8 {
    open spec fn as_int(self) -> int {
        self as int
    }

    open spec fn min_int() -> int {
        u8::MIN as int
    }

    proof fn lemma_as_int_in_range(self, other: u8) {
    }

    open spec fn max_int() -> int {
        u8::MAX as int
    }

    proof fn lemma_max_int_fits() {
    }

    fn try_into_u128(self) -> (r: Option<u128>) {
        Some(self as u128)
    }

    fn try_from_u128(x: u128) -> (r: Option<u8>) {
        if x <= u8::MAX as u128 {
            Some(x as u8)
        } else {
            None
        }
    }

    fn bounded_max() -> (r: u8) {
        u8::MAX
    }
}

impl FixedInt for u16 {
    open spec fn as_int(self) -> int {
        self as int
    }

    open spec fn min_int() -> int {
        u16::MIN as int
    }

    proof fn lemma_as_int_in_range(self, other: u16) {
    }

    open spec fn max_int() -> int {
        u16::MAX as int
    }

    proof fn lemma_max_int_fits() {
    }

    fn try_into_u128(self) -> (r: Option<u128>) {
        Some(self as u128)
    }

    fn try_from_u128(x: u128) -> (r: Option<u16>) {
        if x <= u16::MAX as u128 {
            Some(x as u16)
        } else {
            None
        }
    }

    fn bounded_max() -> (r: u16) {
        u16::MAX
    }
}

impl FixedInt for u32 {
    open spec fn as_int(self) -> int {
        self as int
    }

    open spec fn min_int() -> int {
        u32::MIN as int
    }

    proof fn lemma_as_int_in_range(self, other: u32) {
    }

    open spec fn max_int() -> int {
        u32::MAX as int
    }

    proof fn lemma_max_int_fits() {
    }

    fn try_into_u128(self) -> (r: Option<u128>) {
        Some(self as u128)
    }

    fn try_from_u128(x: u128) -> (r: Option<u32>) {
        if x <= u32::MAX as u128 {
            Some(x as u32)
        } else {
            None
        }
    }

    fn bounded_max() -> (r: u32) {
        u32::MAX
    }
}

impl FixedInt for u64 {
    open spec fn as_int(self) -> int {
        self as int
    }

    open spec fn min_int() -> int {
        u64::MIN as int
    }

    proof fn lemma_as_int_in_range(self, other: u64) {
    }

    open spec fn max_int() -> int {
        u64::MAX as int
    }

    proof fn lemma_max_int_fits() {
    }

    fn try_into_u128(self) -> (r: Option<u128>) {
        Some(self as u128)
    }

    fn try_from_u128(x: u128) -> (r: Option<u64>) {
        if x <= u64::MAX as u128 {
            Some(x as u64)
        } else {
            None
        }
    }

    fn bounded_max() -> (r: u64) {
        u64::MAX
    }
}

impl FixedInt for u128 {
    open spec fn as_int(self) -> int {
        self as int
    }

    open spec fn min_int() -> int {
        u128::MIN as int
    }

    proof fn lemma_as_int_in_range(self, other: u128) {
    }

    open spec fn max_int() -> int {
        u128::MAX as int
    }

    proof fn lemma_max_int_fits() {
    }

    fn try_into_u128(self) -> (r: Option<u128>) {
        Some(self as u128)
    }

    fn try_from_u128(x: u128) -> (r: Option<u128>) {
        if x <= u128::MAX as u128 {
            Some(x as u128)
        } else {
            None
        }
    }

    fn bounded_max() -> (r: u128) {
        u128::MAX
    }
}

impl FixedInt for usize {
    open spec fn as_int(self) -> int {
        self as int
    }

    open spec fn min_int() -> int {
        usize::MIN as int
    }

    proof fn lemma_as_int_in_range(self, other: usize) {
    }

    open spec fn max_int() -> int {
        usize::MAX as int
    }

    proof fn lemma_max_int_fits() {
    }

    fn try_into_u128(self) -> (r: Option<u128>) {
        Some(self as u128)
    }

    fn try_from_u128(x: u128) -> (r: Option<usize>) {
        if x <= usize::MAX as u128 {
            Some(x as usize)
        } else {
            None
        }
    }

    fn bounded_max() -> (r: usize) {
        usize::MAX
    }
}

impl FixedInt for i8 {
    open spec fn as_int(self) -> int {
        self as int
    }

    open spec fn min_int() -> int {
        i8::MIN as int
    }

    proof fn lemma_as_int_in_range(self, other: i8) {
    }

    open spec fn max_int() -> int {
        i8::MAX as int
    }

    proof fn lemma_max_int_fits() {
    }

    fn try_into_u128(self) -> (r: Option<u128>) {
        if self >= 0 {
            Some(self as u128)
        } else {
            None
        }
    }

    fn try_from_u128(x: u128) -> (r: Option<i8>) {
        if x <= i8::MAX as u128 {
            Some(x as i8)
        } else {
            None
        }
    }

    fn bounded_max() -> (r: i8) {
        i8::MAX
    }
}

impl FixedInt for i16 {
    open spec fn as_int(self) -> int {
        self as int
    }

    open spec fn min_int() -> int {
        i16::MIN as int
    }

    proof fn lemma_as_int_in_range(self, other: i16) {
    }

    open spec fn max_int() -> int {
        i16::MAX as int
    }

    proof fn lemma_max_int_fits() {
    }

    fn try_into_u128(self) -> (r: Option<u128>) {
        if self >= 0 {
            Some(self as u128)
        } else {
            None
        }
    }

    fn try_from_u128(x: u128) -> (r: Option<i16>) {
        if x <= i16::MAX as u128 {
            Some(x as i16)
        } else {
            None
        }
    }

    fn bounded_max() -> (r: i16) {
        i16::MAX
    }
}

impl FixedInt for i32 {
    open spec fn as_int(self) -> int {
        self as int
    }

    open spec fn min_int() -> int {
        i32::MIN as int
    }

    proof fn lemma_as_int_in_range(self, other: i32) {
    }

    open spec fn max_int() -> int {
        i32::MAX as int
    }

    proof fn lemma_max_int_fits() {
    }

    fn try_into_u128(self) -> (r: Option<u128>) {
        if self >= 0 {
            Some(self as u128)
        } else {
            None
        }
    }

    fn try_from_u128(x: u128) -> (r: Option<i32>) {
        if x <= i32::MAX as u128 {
            Some(x as i32)
        } else {
            None
        }
    }

    fn bounded_max() -> (r: i32) {
        i32::MAX
    }
}

impl FixedInt for i64 {
    open spec fn as_int(self) -> int {
        self as int
    }

    open spec fn min_int() -> int {
        i64::MIN as int
    }

    proof fn lemma_as_int_in_range(self, other: i64) {
    }

    open spec fn max_int() -> int {
        i64::MAX as int
    }

    proof fn lemma_max_int_fits() {
    }

    fn try_into_u128(self) -> (r: Option<u128>) {
        if self >= 0 {
            Some(self as u128)
        } else {
            None
        }
    }

    fn try_from_u128(x: u128) -> (r: Option<i64>) {
        if x <= i64::MAX as u128 {
            Some(x as i64)
        } else {
            None
        }
    }

    fn bounded_max() -> (r: i64) {
        i64::MAX
    }
}

impl FixedInt for i128 {
    open spec fn as_int(self) -> int {
        self as int
    }

    open spec fn min_int() -> int {
        i128::MIN as int
    }

    proof fn lemma_as_int_in_range(self, other: i128) {
    }

    open spec fn max_int() -> int {
        i128::MAX as int
    }

    proof fn lemma_max_int_fits() {
    }

    fn try_into_u128(self) -> (r: Option<u128>) {
        if self >= 0 {
            Some(self as u128)
        } else {
            None
        }
    }

    fn try_from_u128(x: u128) -> (r: Option<i128>) {
        if x <= i128::MAX as u128 {
            Some(x as i128)
        } else {
            None
        }
    }

    fn bounded_max() -> (r: i128) {
        i128::MAX
    }
}

impl FixedInt for isize {
    open spec fn as_int(self) -> int {
        self as int
    }

    open spec fn min_int() -> int {
        isize::MIN as int
    }

    proof fn lemma_as_int_in_range(self, other: isize) {
    }

    open spec fn max_int() -> int {
        isize::MAX as int
    }

    proof fn lemma_max_int_fits() {
    }

    fn try_into_u128(self) -> (r: Option<u128>) {
        if self >= 0 {
            Some(self as u128)
        } else {
            None
        }
    }

    fn try_from_u128(x: u128) -> (r: Option<isize>) {
        if x <= isize::MAX as u128 {
            Some(x as isize)
        } else {
            None
        }
    }

    fn bounded_max() -> (r: isize) {
        isize::MAX
    }
}

} // verus!
