//! The contract a scalar has to meet before it can be stored in a tape cell.

use vstd::prelude::*;

verus! {

/// The residue that follows `v` when counting upwards modulo `m`.
pub open spec fn succ(v: int, m: int) -> int {
    if v + 1 >= m {
        0
    } else {
        v + 1
    }
}

/// The residue that precedes `v` when counting upwards modulo `m`.
pub open spec fn pred(v: int, m: int) -> int {
    if v <= 0 {
        m - 1
    } else {
        v - 1
    }
}

/// A value that may be stored inside a tape cell.
///
/// Cell arithmetic is modular: a type has `modulus()` distinct values, each
/// value stands for one residue in `0..modulus()`, and stepping past either
/// end of the type's range wraps around to the other end.
pub trait CellValue: Copy + Sized {
    /// The number of distinct values of the type.
    spec fn modulus() -> int;

    /// The residue in `0..modulus()` that this value stands for.
    spec fn residue(self) -> int;

    /// The integer this value denotes when it is used as a relative change:
    /// negative for the negative values of a signed type.
    spec fn delta(self) -> int;

    /// The facts every implementation owes: residues are in range and name
    /// values uniquely, a value's delta is its residue or lies one modulus
    /// below it, and the zero value has residue zero and delta zero.
    proof fn modular()
        ensures
            Self::modulus() >= 2,
            forall|v: Self| 0 <= #[trigger] v.residue() < Self::modulus(),
            forall|a: Self, b: Self| #[trigger] a.residue() == #[trigger] b.residue() ==> a == b,
            forall|v: Self|
                #[trigger] v.delta() == v.residue() || v.delta() == v.residue() - Self::modulus(),
            Self::ZERO.residue() == 0,
            Self::ZERO.delta() == 0,
    ;

    /// The zero value of this type.
    const ZERO: Self;

    /// Increments this value by one, wrapping around at the top of the range.
    fn inc(self) -> (r: Self)
        ensures
            r.residue() == succ(self.residue(), Self::modulus()),
    ;

    /// Decrements this value by one, wrapping around at the bottom of the range.
    fn dec(self) -> (r: Self)
        ensures
            r.residue() == pred(self.residue(), Self::modulus()),
    ;

    /// Converts this value into an `isize`. A value that does not fit has no
    /// conversion, so callers must rule it out.
    fn into_isize(self) -> (d: isize)
        requires
            isize::MIN <= self.delta() <= isize::MAX,
        ensures
            d == self.delta(),
    ;

    /// Tells whether this is the zero value.
    fn is_zero(self) -> (z: bool)
        ensures
            z == (self.residue() == 0),
    ;
}

impl CellValue for u8 {
    open spec fn modulus() -> int {
        0x100
    }

    open spec fn residue(self) -> int {
        self as int
    }

    open spec fn delta(self) -> int {
        self as int
    }

    proof fn modular() {
    }

    const ZERO: Self = 0;

    fn inc(self) -> (r: Self) {
        self.wrapping_add(1)
    }

    fn dec(self) -> (r: Self) {
        self.wrapping_sub(1)
    }

    fn into_isize(self) -> (d: isize) {
        self as isize
    }

    fn is_zero(self) -> (z: bool) {
        self == 0
    }
}

impl CellValue for u16 {
    open spec fn modulus() -> int {
        0x1_0000
    }

    open spec fn residue(self) -> int {
        self as int
    }

    open spec fn delta(self) -> int {
        self as int
    }

    proof fn modular() {
    }

    const ZERO: Self = 0;

    fn inc(self) -> (r: Self) {
        self.wrapping_add(1)
    }

    fn dec(self) -> (r: Self) {
        self.wrapping_sub(1)
    }

    fn into_isize(self) -> (d: isize) {
        self as isize
    }

    fn is_zero(self) -> (z: bool) {
        self == 0
    }
}

impl CellValue for u32 {
    open spec fn modulus() -> int {
        0x1_0000_0000
    }

    open spec fn residue(self) -> int {
        self as int
    }

    open spec fn delta(self) -> int {
        self as int
    }

    proof fn modular() {
    }

    const ZERO: Self = 0;

    fn inc(self) -> (r: Self) {
        self.wrapping_add(1)
    }

    fn dec(self) -> (r: Self) {
        self.wrapping_sub(1)
    }

    fn into_isize(self) -> (d: isize) {
        self as isize
    }

    fn is_zero(self) -> (z: bool) {
        self == 0
    }
}

impl CellValue for u64 {
    open spec fn modulus() -> int {
        0x1_0000_0000_0000_0000
    }

    open spec fn residue(self) -> int {
        self as int
    }

    open spec fn delta(self) -> int {
        self as int
    }

    proof fn modular() {
    }

    const ZERO: Self = 0;

    fn inc(self) -> (r: Self) {
        self.wrapping_add(1)
    }

    fn dec(self) -> (r: Self) {
        self.wrapping_sub(1)
    }

    fn into_isize(self) -> (d: isize) {
        self as isize
    }

    fn is_zero(self) -> (z: bool) {
        self == 0
    }
}

impl CellValue for u128 {
    open spec fn modulus() -> int {
        u128::MAX + 1
    }

    open spec fn residue(self) -> int {
        self as int
    }

    open spec fn delta(self) -> int {
        self as int
    }

    proof fn modular() {
    }

    const ZERO: Self = 0;

    fn inc(self) -> (r: Self) {
        self.wrapping_add(1)
    }

    fn dec(self) -> (r: Self) {
        self.wrapping_sub(1)
    }

    fn into_isize(self) -> (d: isize) {
        self as isize
    }

    fn is_zero(self) -> (z: bool) {
        self == 0
    }
}

impl CellValue for usize {
    open spec fn modulus() -> int {
        usize::MAX + 1
    }

    open spec fn residue(self) -> int {
        self as int
    }

    open spec fn delta(self) -> int {
        self as int
    }

    proof fn modular() {
    }

    const ZERO: Self = 0;

    fn inc(self) -> (r: Self) {
        self.wrapping_add(1)
    }

    fn dec(self) -> (r: Self) {
        self.wrapping_sub(1)
    }

    fn into_isize(self) -> (d: isize) {
        self as isize
    }

    fn is_zero(self) -> (z: bool) {
        self == 0
    }
}

impl CellValue for i8 {
    open spec fn modulus() -> int {
        0x100
    }

    open spec fn residue(self) -> int {
        if self < 0 {
            self + (0x100)
        } else {
            self as int
        }
    }

    open spec fn delta(self) -> int {
        self as int
    }

    proof fn modular() {
    }

    const ZERO: Self = 0;

    fn inc(self) -> (r: Self) {
        self.wrapping_add(1)
    }

    fn dec(self) -> (r: Self) {
        self.wrapping_sub(1)
    }

    fn into_isize(self) -> (d: isize) {
        self as isize
    }

    fn is_zero(self) -> (z: bool) {
        self == 0
    }
}

impl CellValue for i16 {
    open spec fn modulus() -> int {
        0x1_0000
    }

    open spec fn residue(self) -> int {
        if self < 0 {
            self + (0x1_0000)
        } else {
            self as int
        }
    }

    open spec fn delta(self) -> int {
        self as int
    }

    proof fn modular() {
    }

    const ZERO: Self = 0;

    fn inc(self) -> (r: Self) {
        self.wrapping_add(1)
    }

    fn dec(self) -> (r: Self) {
        self.wrapping_sub(1)
    }

    fn into_isize(self) -> (d: isize) {
        self as isize
    }

    fn is_zero(self) -> (z: bool) {
        self == 0
    }
}

impl CellValue for i32 {
    open spec fn modulus() -> int {
        0x1_0000_0000
    }

    open spec fn residue(self) -> int {
        if self < 0 {
            self + (0x1_0000_0000)
        } else {
            self as int
        }
    }

    open spec fn delta(self) -> int {
        self as int
    }

    proof fn modular() {
    }

    const ZERO: Self = 0;

    fn inc(self) -> (r: Self) {
        self.wrapping_add(1)
    }

    fn dec(self) -> (r: Self) {
        self.wrapping_sub(1)
    }

    fn into_isize(self) -> (d: isize) {
        self as isize
    }

    fn is_zero(self) -> (z: bool) {
        self == 0
    }
}

impl CellValue for i64 {
    open spec fn modulus() -> int {
        0x1_0000_0000_0000_0000
    }

    open spec fn residue(self) -> int {
        if self < 0 {
            self + (0x1_0000_0000_0000_0000)
        } else {
            self as int
        }
    }

    open spec fn delta(self) -> int {
        self as int
    }

    proof fn modular() {
    }

    const ZERO: Self = 0;

    fn inc(self) -> (r: Self) {
        self.wrapping_add(1)
    }

    fn dec(self) -> (r: Self) {
        self.wrapping_sub(1)
    }

    fn into_isize(self) -> (d: isize) {
        self as isize
    }

    fn is_zero(self) -> (z: bool) {
        self == 0
    }
}

impl CellValue for i128 {
    open spec fn modulus() -> int {
        u128::MAX + 1
    }

    open spec fn residue(self) -> int {
        if self < 0 {
            self + (u128::MAX + 1)
        } else {
            self as int
        }
    }

    open spec fn delta(self) -> int {
        self as int
    }

    proof fn modular() {
    }

    const ZERO: Self = 0;

    fn inc(self) -> (r: Self) {
        self.wrapping_add(1)
    }

    fn dec(self) -> (r: Self) {
        self.wrapping_sub(1)
    }

    fn into_isize(self) -> (d: isize) {
        self as isize
    }

    fn is_zero(self) -> (z: bool) {
        self == 0
    }
}

impl CellValue for isize {
    open spec fn modulus() -> int {
        usize::MAX + 1
    }

    open spec fn residue(self) -> int {
        if self < 0 {
            self + (usize::MAX + 1)
        } else {
            self as int
        }
    }

    open spec fn delta(self) -> int {
        self as int
    }

    proof fn modular() {
    }

    const ZERO: Self = 0;

    fn inc(self) -> (r: Self) {
        self.wrapping_add(1)
    }

    fn dec(self) -> (r: Self) {
        self.wrapping_sub(1)
    }

    fn into_isize(self) -> (d: isize) {
        self as isize
    }

    fn is_zero(self) -> (z: bool) {
        self == 0
    }
}

/// Whether `code` is a Unicode scalar value: a code point that is not a
/// surrogate.
pub open spec fn is_scalar(code: int) -> bool {
    0 <= code <= 0xD7FF || 0xE000 <= code <= 0x10FFFF
}

/// The character with the given code. This calls `char::from_u32`, which
/// returns the character for every code that is a Unicode scalar value;
/// the contract repeats that and is not proved here.
#[verifier::external_body]
fn scalar_char(code: u32) -> (c: char)
    requires
        is_scalar(code as int),
    ensures
        c as int == code,
{
    char::from_u32(code).unwrap()
}

/// A value that may be shown as a character in a runner's input or output.
pub trait DebuggableCellValue: CellValue {
    /// Converts this cell value into a character. A value that is not a
    /// Unicode scalar value has no character, so callers must rule it out.
    fn into_char(self) -> (c: char)
        requires
            is_scalar(self.delta()),
        ensures
            c as int == self.delta(),
    ;
}

impl DebuggableCellValue for u8 {
    fn into_char(self) -> (c: char) {
        self as char
    }
}

impl DebuggableCellValue for u16 {
    fn into_char(self) -> (c: char) {
        scalar_char(self as u32)
    }
}

impl DebuggableCellValue for u32 {
    fn into_char(self) -> (c: char) {
        scalar_char(self as u32)
    }
}

impl DebuggableCellValue for u64 {
    fn into_char(self) -> (c: char) {
        scalar_char(self as u32)
    }
}

impl DebuggableCellValue for u128 {
    fn into_char(self) -> (c: char) {
        scalar_char(self as u32)
    }
}

impl DebuggableCellValue for usize {
    fn into_char(self) -> (c: char) {
        scalar_char(self as u32)
    }
}

impl DebuggableCellValue for i8 {
    fn into_char(self) -> (c: char) {
        scalar_char(self as u32)
    }
}

impl DebuggableCellValue for i16 {
    fn into_char(self) -> (c: char) {
        scalar_char(self as u32)
    }
}

impl DebuggableCellValue for i32 {
    fn into_char(self) -> (c: char) {
        scalar_char(self as u32)
    }
}

impl DebuggableCellValue for i64 {
    fn into_char(self) -> (c: char) {
        scalar_char(self as u32)
    }
}

impl DebuggableCellValue for i128 {
    fn into_char(self) -> (c: char) {
        scalar_char(self as u32)
    }
}

impl DebuggableCellValue for isize {
    fn into_char(self) -> (c: char) {
        scalar_char(self as u32)
    }
}

} // verus!
