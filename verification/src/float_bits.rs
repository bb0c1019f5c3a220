//! Single-precision numbers as bit patterns: the top bit is the sign, the rest the magnitude.

use vstd::prelude::*;

verus! {

/// Magnitude of infinity; anything above is not a number.
pub const INFINITE_MAGNITUDE: u32 = 0x7f80_0000;

/// The pattern without its sign.
pub open spec fn magnitude(bits: u32) -> u32 {
    bits % 0x8000_0000
}

/// The sign is set.
pub open spec fn is_signed(bits: u32) -> bool {
    bits >= 0x8000_0000
}

/// The pattern is a number or an infinity.
pub open spec fn is_number(bits: u32) -> bool {
    magnitude(bits) <= INFINITE_MAGNITUDE
}

/// The pattern is a finite number.
pub open spec fn finite(bits: u32) -> bool {
    magnitude(bits) < INFINITE_MAGNITUDE
}

/// Where a number stands on the number line; both zeros stand at zero.
pub open spec fn line_position(bits: u32) -> int {
    if is_signed(bits) {
        -(magnitude(bits) as int)
    } else {
        magnitude(bits) as int
    }
}

/// Two patterns are equal as numbers.
pub open spec fn same_number(a: u32, b: u32) -> bool {
    is_number(a) && is_number(b) && line_position(a) == line_position(b)
}

/// `a` is below `b` as numbers.
pub open spec fn below(a: u32, b: u32) -> bool {
    is_number(a) && is_number(b) && line_position(a) < line_position(b)
}

/// Whether the pattern is a finite number.
pub fn is_finite(bits: u32) -> (r: bool)
    ensures
        r == finite(bits),
{
    bits % 0x8000_0000 < INFINITE_MAGNITUDE
}

/// Whether all lanes are finite numbers.
pub fn lanes_finite(lanes: &[u32; 3]) -> (r: bool)
    ensures
        r == (finite(lanes@[0]) && finite(lanes@[1]) && finite(lanes@[2])),
{
    is_finite(lanes[0]) && is_finite(lanes[1]) && is_finite(lanes[2])
}

fn position_of(bits: u32) -> (r: i64)
    ensures
        r == line_position(bits),
{
    if bits >= 0x8000_0000 {
        -((bits % 0x8000_0000) as i64)
    } else {
        (bits % 0x8000_0000) as i64
    }
}

fn is_numeric(bits: u32) -> (r: bool)
    ensures
        r == is_number(bits),
{
    bits % 0x8000_0000 <= INFINITE_MAGNITUDE
}

/// Whether two patterns are equal as numbers.
pub fn number_eq(a: u32, b: u32) -> (r: bool)
    ensures
        r == same_number(a, b),
{
    is_numeric(a) && is_numeric(b) && position_of(a) == position_of(b)
}

/// Whether `a` is below `b` as numbers.
pub fn number_lt(a: u32, b: u32) -> (r: bool)
    ensures
        r == below(a, b),
{
    is_numeric(a) && is_numeric(b) && position_of(a) < position_of(b)
}

/// Whether all lanes are equal as numbers.
pub open spec fn same_lanes(a: Seq<u32>, b: Seq<u32>) -> bool {
    same_number(a[0], b[0]) && same_number(a[1], b[1]) && same_number(a[2], b[2])
}

/// Whether all lanes are equal as numbers.
pub fn lanes_eq(a: &[u32; 3], b: &[u32; 3]) -> (r: bool)
    ensures
        r == same_lanes(a@, b@),
{
    number_eq(a[0], b[0]) && number_eq(a[1], b[1]) && number_eq(a[2], b[2])
}

/// `a` is at least `b` as numbers.
pub open spec fn at_least(a: u32, b: u32) -> bool {
    below(b, a) || same_number(a, b)
}

/// Whether `a` is at least `b` as numbers.
pub fn is_at_least(a: u32, b: u32) -> (r: bool)
    ensures
        r == at_least(a, b),
{
    number_lt(b, a) || number_eq(a, b)
}

/// The larger of two numbers; what is not a number gives way.
pub open spec fn higher(a: u32, b: u32) -> u32 {
    if below(a, b) || !is_number(a) {
        b
    } else {
        a
    }
}

/// Returns the larger of two numbers; what is not a number gives way.
pub fn higher_of(a: u32, b: u32) -> (r: u32)
    ensures
        r == higher(a, b),
{
    if number_lt(a, b) || !number_eq(a, a) {
        b
    } else {
        a
    }
}

/// The smaller of two numbers; what is not a number gives way.
pub open spec fn lower(a: u32, b: u32) -> u32 {
    if below(b, a) || !is_number(a) {
        b
    } else {
        a
    }
}

/// Returns the smaller of two numbers; what is not a number gives way.
pub fn lower_of(a: u32, b: u32) -> (r: u32)
    ensures
        r == lower(a, b),
{
    if number_lt(b, a) || !number_eq(a, a) {
        b
    } else {
        a
    }
}

/// `op` answers every question, each with one answer.
pub open spec fn calculates<P: Fn(u32, u32) -> u32>(op: P) -> bool {
    &&& forall|a: u32, b: u32| #[trigger] call_requires(op, (a, b))
    &&& forall|a: u32, b: u32, x: u32, y: u32| #[trigger]
        call_ensures(op, (a, b), x) && #[trigger] call_ensures(op, (a, b), y) ==> x == y
}

/// The answer of `op`.
pub open spec fn calculated<P: Fn(u32, u32) -> u32>(op: P, a: u32, b: u32) -> u32 {
    choose|x: u32| call_ensures(op, (a, b), x)
}

} // verus!
