//! The three values a variable can take, and their positions in a message.

use vstd::prelude::*;

verus! {

/// A ternary value: -1, 0 or +1.
pub type TernaryVal = i8;

/// The three ternary values, in the order of their positions in a message.
pub const TERNARY_VALS: [TernaryVal; 3] = [-1, 0, 1];

/// `v` is one of the three ternary values.
pub open spec fn is_ternary(v: int) -> bool {
    -1 <= v <= 1
}

/// Position of a ternary value in a message: -1 -> 0, 0 -> 1, +1 -> 2.
///
/// For a value outside {-1, 0, +1} the result is `v + 1` converted to `usize`
/// as Rust's `as` does it; only `i8::MAX`, where `v + 1` overflows, is refused.
pub fn ternary_idx(v: TernaryVal) -> (r: usize)
    requires
        v < i8::MAX,
    ensures
        r == (v + 1) as usize,
        is_ternary(v as int) ==> r == v + 1,
{
    (v + 1) as usize
}

/// Positions and values correspond one to one: the value at the position of
/// a ternary value is that value, and the three positions are 0, 1 and 2.
pub proof fn lemma_ternary_idx_roundtrip(v: TernaryVal)
    requires
        is_ternary(v as int),
    ensures
        0 <= v + 1 < 3,
        TERNARY_VALS@[v + 1] == v,
{
}

} // verus!
