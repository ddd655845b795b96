//! The bounds of a range to sample from.
use vstd::prelude::*;

verus! {

/// One end of a range: a value that belongs to the range, a value just
/// outside of it, or no limit at all.
#[derive(Debug)]
pub enum Bound<T> {
    /// The range reaches up to this value and holds it.
    Included(T),
    /// The range reaches up to this value and leaves it out.
    Excluded(T),
    /// The range reaches as far as the type does.
    Unbounded,
}

/// The smallest value of a range that starts at `bound`, in a type whose
/// values go from `min` to `max`. A start just after `max` saturates at
/// `max`.
pub open spec fn spec_start(bound: Bound<int>, min: int, max: int) -> int {
    match bound {
        Bound::Included(lower) => lower,
        Bound::Excluded(lower) => if lower == max {
            max
        } else {
            lower + 1
        },
        Bound::Unbounded => min,
    }
}

/// The largest value of a range that ends at `bound`, in a type whose
/// values go from `min` to `max`. An end just before `min` saturates at
/// `min`.
pub open spec fn spec_end(bound: Bound<int>, min: int, max: int) -> int {
    match bound {
        Bound::Included(upper) => upper,
        Bound::Excluded(upper) => if upper == min {
            min
        } else {
            upper - 1
        },
        Bound::Unbounded => max,
    }
}

/// Whether `value` lies in the range from `lower` to `upper`.
pub open spec fn contains(lower: Bound<int>, upper: Bound<int>, value: int) -> bool {
    &&& match lower {
        Bound::Included(start) => start <= value,
        Bound::Excluded(start) => start < value,
        Bound::Unbounded => true,
    }
    &&& match upper {
        Bound::Included(end) => value <= end,
        Bound::Excluded(end) => value < end,
        Bound::Unbounded => true,
    }
}

/// Whether neither bound saturates: the range does not start just after
/// the largest value, nor end just before the smallest.
pub open spec fn saturation_free(lower: Bound<int>, upper: Bound<int>, min: int, max: int) -> bool {
    lower != Bound::Excluded(max) && upper != Bound::Excluded(min)
}

/// A value between the resolved ends of a range lies in the range, unless
/// a bound saturates.
pub proof fn lemma_resolved_range_contains(
    lower: Bound<int>,
    upper: Bound<int>,
    min: int,
    max: int,
    value: int,
)
    requires
        saturation_free(lower, upper, min, max),
        spec_start(lower, min, max) <= value <= spec_end(upper, min, max),
    ensures
        contains(lower, upper, value),
{
}

/// The bound with its value as a mathematical integer.
pub open spec fn widen_u8(bound: Bound<u8>) -> Bound<int> {
    match bound {
        Bound::Included(value) => Bound::Included(value as int),
        Bound::Excluded(value) => Bound::Excluded(value as int),
        Bound::Unbounded => Bound::Unbounded,
    }
}

/// The smallest and the largest value of the range from `lower` to `upper`.
/// The range is empty where the first exceeds the second.
pub open spec fn resolved_u8(lower: Bound<u8>, upper: Bound<u8>) -> (int, int) {
    (
        spec_start(widen_u8(lower), u8::MIN as int, u8::MAX as int),
        spec_end(widen_u8(upper), u8::MIN as int, u8::MAX as int),
    )
}

/// The smallest value of a range that starts at `bound`.
pub fn start_u8(bound: Bound<u8>) -> (lower: u8)
    ensures
        lower == spec_start(widen_u8(bound), u8::MIN as int, u8::MAX as int),
{
    match bound {
        Bound::Included(lower) => lower,
        Bound::Excluded(lower) => if lower == u8::MAX {
            u8::MAX
        } else {
            lower + 1
        },
        Bound::Unbounded => u8::MIN,
    }
}

/// The largest value of a range that ends at `bound`.
pub fn end_u8(bound: Bound<u8>) -> (upper: u8)
    ensures
        upper == spec_end(widen_u8(bound), u8::MIN as int, u8::MAX as int),
{
    match bound {
        Bound::Included(upper) => upper,
        Bound::Excluded(upper) => if upper == u8::MIN {
            u8::MIN
        } else {
            upper - 1
        },
        Bound::Unbounded => u8::MAX,
    }
}

/// The bound with its value as a mathematical integer.
pub open spec fn widen_u16(bound: Bound<u16>) -> Bound<int> {
    match bound {
        Bound::Included(value) => Bound::Included(value as int),
        Bound::Excluded(value) => Bound::Excluded(value as int),
        Bound::Unbounded => Bound::Unbounded,
    }
}

/// The smallest and the largest value of the range from `lower` to `upper`.
/// The range is empty where the first exceeds the second.
pub open spec fn resolved_u16(lower: Bound<u16>, upper: Bound<u16>) -> (int, int) {
    (
        spec_start(widen_u16(lower), u16::MIN as int, u16::MAX as int),
        spec_end(widen_u16(upper), u16::MIN as int, u16::MAX as int),
    )
}

/// The smallest value of a range that starts at `bound`.
pub fn start_u16(bound: Bound<u16>) -> (lower: u16)
    ensures
        lower == spec_start(widen_u16(bound), u16::MIN as int, u16::MAX as int),
{
    match bound {
        Bound::Included(lower) => lower,
        Bound::Excluded(lower) => if lower == u16::MAX {
            u16::MAX
        } else {
            lower + 1
        },
        Bound::Unbounded => u16::MIN,
    }
}

/// The largest value of a range that ends at `bound`.
pub fn end_u16(bound: Bound<u16>) -> (upper: u16)
    ensures
        upper == spec_end(widen_u16(bound), u16::MIN as int, u16::MAX as int),
{
    match bound {
        Bound::Included(upper) => upper,
        Bound::Excluded(upper) => if upper == u16::MIN {
            u16::MIN
        } else {
            upper - 1
        },
        Bound::Unbounded => u16::MAX,
    }
}

/// The bound with its value as a mathematical integer.
pub open spec fn widen_u32(bound: Bound<u32>) -> Bound<int> {
    match bound {
        Bound::Included(value) => Bound::Included(value as int),
        Bound::Excluded(value) => Bound::Excluded(value as int),
        Bound::Unbounded => Bound::Unbounded,
    }
}

/// The smallest and the largest value of the range from `lower` to `upper`.
/// The range is empty where the first exceeds the second.
pub open spec fn resolved_u32(lower: Bound<u32>, upper: Bound<u32>) -> (int, int) {
    (
        spec_start(widen_u32(lower), u32::MIN as int, u32::MAX as int),
        spec_end(widen_u32(upper), u32::MIN as int, u32::MAX as int),
    )
}

/// The smallest value of a range that starts at `bound`.
pub fn start_u32(bound: Bound<u32>) -> (lower: u32)
    ensures
        lower == spec_start(widen_u32(bound), u32::MIN as int, u32::MAX as int),
{
    match bound {
        Bound::Included(lower) => lower,
        Bound::Excluded(lower) => if lower == u32::MAX {
            u32::MAX
        } else {
            lower + 1
        },
        Bound::Unbounded => u32::MIN,
    }
}

/// The largest value of a range that ends at `bound`.
pub fn end_u32(bound: Bound<u32>) -> (upper: u32)
    ensures
        upper == spec_end(widen_u32(bound), u32::MIN as int, u32::MAX as int),
{
    match bound {
        Bound::Included(upper) => upper,
        Bound::Excluded(upper) => if upper == u32::MIN {
            u32::MIN
        } else {
            upper - 1
        },
        Bound::Unbounded => u32::MAX,
    }
}

/// The bound with its value as a mathematical integer.
pub open spec fn widen_u64(bound: Bound<u64>) -> Bound<int> {
    match bound {
        Bound::Included(value) => Bound::Included(value as int),
        Bound::Excluded(value) => Bound::Excluded(value as int),
        Bound::Unbounded => Bound::Unbounded,
    }
}

/// The smallest and the largest value of the range from `lower` to `upper`.
/// The range is empty where the first exceeds the second.
pub open spec fn resolved_u64(lower: Bound<u64>, upper: Bound<u64>) -> (int, int) {
    (
        spec_start(widen_u64(lower), u64::MIN as int, u64::MAX as int),
        spec_end(widen_u64(upper), u64::MIN as int, u64::MAX as int),
    )
}

/// The smallest value of a range that starts at `bound`.
pub fn start_u64(bound: Bound<u64>) -> (lower: u64)
    ensures
        lower == spec_start(widen_u64(bound), u64::MIN as int, u64::MAX as int),
{
    match bound {
        Bound::Included(lower) => lower,
        Bound::Excluded(lower) => if lower == u64::MAX {
            u64::MAX
        } else {
            lower + 1
        },
        Bound::Unbounded => u64::MIN,
    }
}

/// The largest value of a range that ends at `bound`.
pub fn end_u64(bound: Bound<u64>) -> (upper: u64)
    ensures
        upper == spec_end(widen_u64(bound), u64::MIN as int, u64::MAX as int),
{
    match bound {
        Bound::Included(upper) => upper,
        Bound::Excluded(upper) => if upper == u64::MIN {
            u64::MIN
        } else {
            upper - 1
        },
        Bound::Unbounded => u64::MAX,
    }
}

/// The bound with its value as a mathematical integer.
pub open spec fn widen_u128(bound: Bound<u128>) -> Bound<int> {
    match bound {
        Bound::Included(value) => Bound::Included(value as int),
        Bound::Excluded(value) => Bound::Excluded(value as int),
        Bound::Unbounded => Bound::Unbounded,
    }
}

/// The smallest and the largest value of the range from `lower` to `upper`.
/// The range is empty where the first exceeds the second.
pub open spec fn resolved_u128(lower: Bound<u128>, upper: Bound<u128>) -> (int, int) {
    (
        spec_start(widen_u128(lower), u128::MIN as int, u128::MAX as int),
        spec_end(widen_u128(upper), u128::MIN as int, u128::MAX as int),
    )
}

/// The smallest value of a range that starts at `bound`.
pub fn start_u128(bound: Bound<u128>) -> (lower: u128)
    ensures
        lower == spec_start(widen_u128(bound), u128::MIN as int, u128::MAX as int),
{
    match bound {
        Bound::Included(lower) => lower,
        Bound::Excluded(lower) => if lower == u128::MAX {
            u128::MAX
        } else {
            lower + 1
        },
        Bound::Unbounded => u128::MIN,
    }
}

/// The largest value of a range that ends at `bound`.
pub fn end_u128(bound: Bound<u128>) -> (upper: u128)
    ensures
        upper == spec_end(widen_u128(bound), u128::MIN as int, u128::MAX as int),
{
    match bound {
        Bound::Included(upper) => upper,
        Bound::Excluded(upper) => if upper == u128::MIN {
            u128::MIN
        } else {
            upper - 1
        },
        Bound::Unbounded => u128::MAX,
    }
}

/// The bound with its value as a mathematical integer.
pub open spec fn widen_usize(bound: Bound<usize>) -> Bound<int> {
    match bound {
        Bound::Included(value) => Bound::Included(value as int),
        Bound::Excluded(value) => Bound::Excluded(value as int),
        Bound::Unbounded => Bound::Unbounded,
    }
}

/// The smallest and the largest value of the range from `lower` to `upper`.
/// The range is empty where the first exceeds the second.
pub open spec fn resolved_usize(lower: Bound<usize>, upper: Bound<usize>) -> (int, int) {
    (
        spec_start(widen_usize(lower), usize::MIN as int, usize::MAX as int),
        spec_end(widen_usize(upper), usize::MIN as int, usize::MAX as int),
    )
}

/// The smallest value of a range that starts at `bound`.
pub fn start_usize(bound: Bound<usize>) -> (lower: usize)
    ensures
        lower == spec_start(widen_usize(bound), usize::MIN as int, usize::MAX as int),
{
    match bound {
        Bound::Included(lower) => lower,
        Bound::Excluded(lower) => if lower == usize::MAX {
            usize::MAX
        } else {
            lower + 1
        },
        Bound::Unbounded => usize::MIN,
    }
}

/// The largest value of a range that ends at `bound`.
pub fn end_usize(bound: Bound<usize>) -> (upper: usize)
    ensures
        upper == spec_end(widen_usize(bound), usize::MIN as int, usize::MAX as int),
{
    match bound {
        Bound::Included(upper) => upper,
        Bound::Excluded(upper) => if upper == usize::MIN {
            usize::MIN
        } else {
            upper - 1
        },
        Bound::Unbounded => usize::MAX,
    }
}

/// The bound with its value as a mathematical integer.
pub open spec fn widen_i8(bound: Bound<i8>) -> Bound<int> {
    match bound {
        Bound::Included(value) => Bound::Included(value as int),
        Bound::Excluded(value) => Bound::Excluded(value as int),
        Bound::Unbounded => Bound::Unbounded,
    }
}

/// The smallest and the largest value of the range from `lower` to `upper`.
/// The range is empty where the first exceeds the second.
pub open spec fn resolved_i8(lower: Bound<i8>, upper: Bound<i8>) -> (int, int) {
    (
        spec_start(widen_i8(lower), i8::MIN as int, i8::MAX as int),
        spec_end(widen_i8(upper), i8::MIN as int, i8::MAX as int),
    )
}

/// The smallest value of a range that starts at `bound`.
pub fn start_i8(bound: Bound<i8>) -> (lower: i8)
    ensures
        lower == spec_start(widen_i8(bound), i8::MIN as int, i8::MAX as int),
{
    match bound {
        Bound::Included(lower) => lower,
        Bound::Excluded(lower) => if lower == i8::MAX {
            i8::MAX
        } else {
            lower + 1
        },
        Bound::Unbounded => i8::MIN,
    }
}

/// The largest value of a range that ends at `bound`.
pub fn end_i8(bound: Bound<i8>) -> (upper: i8)
    ensures
        upper == spec_end(widen_i8(bound), i8::MIN as int, i8::MAX as int),
{
    match bound {
        Bound::Included(upper) => upper,
        Bound::Excluded(upper) => if upper == i8::MIN {
            i8::MIN
        } else {
            upper - 1
        },
        Bound::Unbounded => i8::MAX,
    }
}

/// The bound with its value as a mathematical integer.
pub open spec fn widen_i16(bound: Bound<i16>) -> Bound<int> {
    match bound {
        Bound::Included(value) => Bound::Included(value as int),
        Bound::Excluded(value) => Bound::Excluded(value as int),
        Bound::Unbounded => Bound::Unbounded,
    }
}

/// The smallest and the largest value of the range from `lower` to `upper`.
/// The range is empty where the first exceeds the second.
pub open spec fn resolved_i16(lower: Bound<i16>, upper: Bound<i16>) -> (int, int) {
    (
        spec_start(widen_i16(lower), i16::MIN as int, i16::MAX as int),
        spec_end(widen_i16(upper), i16::MIN as int, i16::MAX as int),
    )
}

/// The smallest value of a range that starts at `bound`.
pub fn start_i16(bound: Bound<i16>) -> (lower: i16)
    ensures
        lower == spec_start(widen_i16(bound), i16::MIN as int, i16::MAX as int),
{
    match bound {
        Bound::Included(lower) => lower,
        Bound::Excluded(lower) => if lower == i16::MAX {
            i16::MAX
        } else {
            lower + 1
        },
        Bound::Unbounded => i16::MIN,
    }
}

/// The largest value of a range that ends at `bound`.
pub fn end_i16(bound: Bound<i16>) -> (upper: i16)
    ensures
        upper == spec_end(widen_i16(bound), i16::MIN as int, i16::MAX as int),
{
    match bound {
        Bound::Included(upper) => upper,
        Bound::Excluded(upper) => if upper == i16::MIN {
            i16::MIN
        } else {
            upper - 1
        },
        Bound::Unbounded => i16::MAX,
    }
}

/// The bound with its value as a mathematical integer.
pub open spec fn widen_i32(bound: Bound<i32>) -> Bound<int> {
    match bound {
        Bound::Included(value) => Bound::Included(value as int),
        Bound::Excluded(value) => Bound::Excluded(value as int),
        Bound::Unbounded => Bound::Unbounded,
    }
}

/// The smallest and the largest value of the range from `lower` to `upper`.
/// The range is empty where the first exceeds the second.
pub open spec fn resolved_i32(lower: Bound<i32>, upper: Bound<i32>) -> (int, int) {
    (
        spec_start(widen_i32(lower), i32::MIN as int, i32::MAX as int),
        spec_end(widen_i32(upper), i32::MIN as int, i32::MAX as int),
    )
}

/// The smallest value of a range that starts at `bound`.
pub fn start_i32(bound: Bound<i32>) -> (lower: i32)
    ensures
        lower == spec_start(widen_i32(bound), i32::MIN as int, i32::MAX as int),
{
    match bound {
        Bound::Included(lower) => lower,
        Bound::Excluded(lower) => if lower == i32::MAX {
            i32::MAX
        } else {
            lower + 1
        },
        Bound::Unbounded => i32::MIN,
    }
}

/// The largest value of a range that ends at `bound`.
pub fn end_i32(bound: Bound<i32>) -> (upper: i32)
    ensures
        upper == spec_end(widen_i32(bound), i32::MIN as int, i32::MAX as int),
{
    match bound {
        Bound::Included(upper) => upper,
        Bound::Excluded(upper) => if upper == i32::MIN {
            i32::MIN
        } else {
            upper - 1
        },
        Bound::Unbounded => i32::MAX,
    }
}

/// The bound with its value as a mathematical integer.
pub open spec fn widen_i64(bound: Bound<i64>) -> Bound<int> {
    match bound {
        Bound::Included(value) => Bound::Included(value as int),
        Bound::Excluded(value) => Bound::Excluded(value as int),
        Bound::Unbounded => Bound::Unbounded,
    }
}

/// The smallest and the largest value of the range from `lower` to `upper`.
/// The range is empty where the first exceeds the second.
pub open spec fn resolved_i64(lower: Bound<i64>, upper: Bound<i64>) -> (int, int) {
    (
        spec_start(widen_i64(lower), i64::MIN as int, i64::MAX as int),
        spec_end(widen_i64(upper), i64::MIN as int, i64::MAX as int),
    )
}

/// The smallest value of a range that starts at `bound`.
pub fn start_i64(bound: Bound<i64>) -> (lower: i64)
    ensures
        lower == spec_start(widen_i64(bound), i64::MIN as int, i64::MAX as int),
{
    match bound {
        Bound::Included(lower) => lower,
        Bound::Excluded(lower) => if lower == i64::MAX {
            i64::MAX
        } else {
            lower + 1
        },
        Bound::Unbounded => i64::MIN,
    }
}

/// The largest value of a range that ends at `bound`.
pub fn end_i64(bound: Bound<i64>) -> (upper: i64)
    ensures
        upper == spec_end(widen_i64(bound), i64::MIN as int, i64::MAX as int),
{
    match bound {
        Bound::Included(upper) => upper,
        Bound::Excluded(upper) => if upper == i64::MIN {
            i64::MIN
        } else {
            upper - 1
        },
        Bound::Unbounded => i64::MAX,
    }
}

/// The bound with its value as a mathematical integer.
pub open spec fn widen_i128(bound: Bound<i128>) -> Bound<int> {
    match bound {
        Bound::Included(value) => Bound::Included(value as int),
        Bound::Excluded(value) => Bound::Excluded(value as int),
        Bound::Unbounded => Bound::Unbounded,
    }
}

/// The smallest and the largest value of the range from `lower` to `upper`.
/// The range is empty where the first exceeds the second.
pub open spec fn resolved_i128(lower: Bound<i128>, upper: Bound<i128>) -> (int, int) {
    (
        spec_start(widen_i128(lower), i128::MIN as int, i128::MAX as int),
        spec_end(widen_i128(upper), i128::MIN as int, i128::MAX as int),
    )
}

/// The smallest value of a range that starts at `bound`.
pub fn start_i128(bound: Bound<i128>) -> (lower: i128)
    ensures
        lower == spec_start(widen_i128(bound), i128::MIN as int, i128::MAX as int),
{
    match bound {
        Bound::Included(lower) => lower,
        Bound::Excluded(lower) => if lower == i128::MAX {
            i128::MAX
        } else {
            lower + 1
        },
        Bound::Unbounded => i128::MIN,
    }
}

/// The largest value of a range that ends at `bound`.
pub fn end_i128(bound: Bound<i128>) -> (upper: i128)
    ensures
        upper == spec_end(widen_i128(bound), i128::MIN as int, i128::MAX as int),
{
    match bound {
        Bound::Included(upper) => upper,
        Bound::Excluded(upper) => if upper == i128::MIN {
            i128::MIN
        } else {
            upper - 1
        },
        Bound::Unbounded => i128::MAX,
    }
}

/// The bound with its value as a mathematical integer.
pub open spec fn widen_isize(bound: Bound<isize>) -> Bound<int> {
    match bound {
        Bound::Included(value) => Bound::Included(value as int),
        Bound::Excluded(value) => Bound::Excluded(value as int),
        Bound::Unbounded => Bound::Unbounded,
    }
}

/// The smallest and the largest value of the range from `lower` to `upper`.
/// The range is empty where the first exceeds the second.
pub open spec fn resolved_isize(lower: Bound<isize>, upper: Bound<isize>) -> (int, int) {
    (
        spec_start(widen_isize(lower), isize::MIN as int, isize::MAX as int),
        spec_end(widen_isize(upper), isize::MIN as int, isize::MAX as int),
    )
}

/// The smallest value of a range that starts at `bound`.
pub fn start_isize(bound: Bound<isize>) -> (lower: isize)
    ensures
        lower == spec_start(widen_isize(bound), isize::MIN as int, isize::MAX as int),
{
    match bound {
        Bound::Included(lower) => lower,
        Bound::Excluded(lower) => if lower == isize::MAX {
            isize::MAX
        } else {
            lower + 1
        },
        Bound::Unbounded => isize::MIN,
    }
}

/// The largest value of a range that ends at `bound`.
pub fn end_isize(bound: Bound<isize>) -> (upper: isize)
    ensures
        upper == spec_end(widen_isize(bound), isize::MIN as int, isize::MAX as int),
{
    match bound {
        Bound::Included(upper) => upper,
        Bound::Excluded(upper) => if upper == isize::MIN {
            isize::MIN
        } else {
            upper - 1
        },
        Bound::Unbounded => isize::MAX,
    }
}

/// The first code point after the block of surrogates.
pub const SURROGATE_END: u32 = 0xe000;

/// The first surrogate code point.
pub const SURROGATE_START: u32 = 0xd800;

/// The number of surrogate code points.
pub const SURROGATE_LENGTH: u32 = 0x800;

/// The largest code point.
pub const LAST_SCALAR: u32 = 0x10ffff;

/// Whether a code point is a Unicode scalar value: any code point but a
/// surrogate.
pub open spec fn is_scalar(code: int) -> bool {
    0 <= code < SURROGATE_START || SURROGATE_END <= code <= LAST_SCALAR
}

/// The first character of a range that starts at `bound`. The character
/// after the last one before the surrogates is the first one behind them.
pub open spec fn spec_first_char(bound: Bound<char>) -> int {
    match bound {
        Bound::Unbounded => 0,
        Bound::Included(lower) => lower as int,
        Bound::Excluded(lower) => if lower as int == SURROGATE_START - 1 {
            SURROGATE_END as int
        } else {
            lower as int + 1
        },
    }
}

/// The last character of a range that ends at `bound`. The character
/// before the first one behind the surrogates is the last one before them.
pub open spec fn spec_last_char(bound: Bound<char>) -> int {
    match bound {
        Bound::Unbounded => LAST_SCALAR as int,
        Bound::Included(upper) => upper as int,
        Bound::Excluded(upper) => if upper as int == SURROGATE_END {
            SURROGATE_START - 1
        } else {
            upper as int - 1
        },
    }
}

/// `std::char::from_u32` turns a code point into a character where the code
/// point is a scalar value, and gives `None` for surrogates and for code
/// points past the last one.
pub assume_specification[ std::char::from_u32 ](code: u32) -> (character: Option<char>)
    ensures
        is_scalar(code as int) ==> character.is_some() && character.unwrap() as int == code
            as int,
        !is_scalar(code as int) ==> character.is_none(),
;

/// The code point of a character, which is always a scalar value.
pub fn scalar_of(character: char) -> (code: u32)
    ensures
        code as int == character as int,
        is_scalar(code as int),
{
    character as u32
}

/// Whether a range can start at `bound`: some character follows it.
pub open spec fn can_start(bound: Bound<char>) -> bool {
    match bound {
        Bound::Excluded(lower) => lower as int != LAST_SCALAR,
        _ => true,
    }
}

/// Whether a range can end at `bound`: some character precedes it.
pub open spec fn can_end(bound: Bound<char>) -> bool {
    match bound {
        Bound::Excluded(upper) => upper as int != 0,
        _ => true,
    }
}

/// The first character of a range that starts at `bound`.
pub fn first_char(bound: Bound<char>) -> (first: char)
    requires
        can_start(bound),
    ensures
        first as int == spec_first_char(bound),
{
    match bound {
        Bound::Unbounded => '\0',
        Bound::Included(lower) => lower,
        Bound::Excluded(lower) => {
            let code = scalar_of(lower);
            let scalar = if code == SURROGATE_START - 1 {
                SURROGATE_END
            } else {
                code + 1
            };
            match std::char::from_u32(scalar) {
                Some(character) => character,
                None => lower,
            }
        },
    }
}

/// The last character of a range that ends at `bound`.
pub fn last_char(bound: Bound<char>) -> (last: char)
    requires
        can_end(bound),
    ensures
        last as int == spec_last_char(bound),
{
    match bound {
        Bound::Unbounded => '\u{10ffff}',
        Bound::Included(upper) => upper,
        Bound::Excluded(upper) => {
            let code = scalar_of(upper);
            let scalar = if code == SURROGATE_END {
                SURROGATE_START - 1
            } else {
                code - 1
            };
            match std::char::from_u32(scalar) {
                Some(character) => character,
                None => upper,
            }
        },
    }
}

/// The number of surrogates that lie between two characters.
pub open spec fn spec_gap(lower: int, upper: int) -> int {
    if lower < SURROGATE_START && upper >= SURROGATE_START {
        SURROGATE_LENGTH as int
    } else {
        0
    }
}

/// The code point that stands for `offset` once the surrogates are put
/// back: an offset at or past the first surrogate moves up by `gap`.
pub open spec fn spec_expand(offset: int, gap: int) -> int {
    if offset >= SURROGATE_START {
        offset + gap
    } else {
        offset
    }
}

/// The number of surrogates that lie between two characters.
pub fn surrogate_gap(lower: char, upper: char) -> (gap: u32)
    ensures
        gap == spec_gap(lower as int, upper as int),
{
    if (lower as u32) < SURROGATE_START && upper as u32 >= SURROGATE_START {
        SURROGATE_LENGTH
    } else {
        0
    }
}

/// Turns a value drawn from the range `lower..=upper` with the surrogates
/// squeezed out into the character that it stands for.
pub fn char_at(offset: u32, lower: char, upper: char) -> (character: char)
    requires
        lower as int <= upper as int,
        lower as int <= offset <= upper as int - spec_gap(lower as int, upper as int),
    ensures
        character as int == spec_expand(offset as int, spec_gap(lower as int, upper as int)),
        lower as int <= character as int <= upper as int,
        is_scalar(character as int),
{
    let gap = surrogate_gap(lower, upper);
    let scalar = if offset >= SURROGATE_START {
        offset + gap
    } else {
        offset
    };
    match std::char::from_u32(scalar) {
        Some(character) => character,
        None => lower,
    }
}

/// Every character of the range stands for exactly one value of the
/// squeezed range: no character is left out and none is reached twice.
pub proof fn lemma_char_at_covers(lower: char, upper: char, character: char)
    requires
        lower as int <= character as int <= upper as int,
    ensures
        ({
            let gap = spec_gap(lower as int, upper as int);
            let offset = if character as int >= SURROGATE_END {
                character as int - gap
            } else {
                character as int
            };
            &&& lower as int <= offset <= upper as int - gap
            &&& spec_expand(offset, gap) == character as int
            &&& forall|other: int|
                lower as int <= other <= upper as int - gap && spec_expand(other, gap)
                    == character as int ==> other == offset
        }),
{
}

} // verus!
