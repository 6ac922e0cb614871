//! The radix side of the index: the prefix of a key, and the table that
//! leads from a prefix to the first knot at or beyond it.
use vstd::prelude::*;
use crate::geometry::Point;

verus! {

broadcast use vstd::std_specs::bits::group_bits_axioms;

/// Width of a key in bits.
pub const KEY_BITS: u32 = 32;

/// Number of high-order bits of `key - min` that address the radix table.
pub const RADIX_BITS: u32 = 10;

/// The shift that leaves at most `radix_bits` significant bits of `diff`:
/// `KEY_BITS - radix_bits - leading_zeros(diff)`, or zero where that is
/// negative.
pub open spec fn shift_bits_spec(diff: u32, radix_bits: u32) -> int {
    let wanted = KEY_BITS as int - radix_bits as int
        - vstd::std_specs::bits::u32_leading_zeros(diff) as int;
    if wanted < 0 {
        0
    } else {
        wanted
    }
}

/// Computes the number of bits by which `key - min` is shifted right to give
/// a radix prefix, for a key range of width `diff`. What the shift leaves of
/// any such difference fits in `radix_bits` bits.
pub fn shift_bits(diff: u32, radix_bits: u32) -> (shift: u32)
    ensures
        shift as int == shift_bits_spec(diff, radix_bits),
        shift <= KEY_BITS,
        0 < radix_bits < KEY_BITS ==> shift < KEY_BITS && (diff >> shift) < (1u32 << radix_bits),
{
    proof {
        if 0 < radix_bits < KEY_BITS {
            lemma_shift_leaves_radix_bits(diff, radix_bits);
        }
    }
    KEY_BITS.saturating_sub(radix_bits).saturating_sub(diff.leading_zeros())
}

/// The shift is a valid one for a key, and what it leaves of `diff` is below
/// `2^radix_bits`.
pub proof fn lemma_shift_leaves_radix_bits(diff: u32, radix_bits: u32)
    requires
        0 < radix_bits < KEY_BITS,
    ensures
        0 <= shift_bits_spec(diff, radix_bits) <= KEY_BITS - radix_bits,
        (diff >> (shift_bits_spec(diff, radix_bits) as u32)) < (1u32 << radix_bits),
        radix_bits == RADIX_BITS ==> (diff >> (shift_bits_spec(diff, radix_bits) as u32)) < 1024,
{
    let zeros = vstd::std_specs::bits::u32_leading_zeros(diff);
    let shift = shift_bits_spec(diff, radix_bits) as u32;
    let rest: u32 = (32 - zeros) as u32;
    assert(diff >> rest == 0);
    if zeros + radix_bits <= 32 {
        assert(rest == shift + radix_bits);
        assert(shift < 32 && radix_bits < 32 && rest == shift + radix_bits && diff >> rest == 0
            ==> (diff >> shift) < (1u32 << radix_bits)) by (bit_vector);
    } else {
        assert(shift == 0);
        assert(rest < radix_bits && radix_bits < 32 && diff >> rest == 0 ==> (diff >> 0u32) < (1u32
            << radix_bits)) by (bit_vector);
    }
    assert((1u32 << 10u32) == 1024) by (bit_vector);
}

/// The radix prefix of the key `x`: the high-order bits of `x - min`.
pub open spec fn prefix_of(x: int, min: int, shift: u32) -> int {
    (((x - min) as u32) >> shift) as int
}

/// A greater key has no smaller prefix.
pub proof fn lemma_prefix_monotone(a: int, b: int, min: int, shift: u32)
    requires
        0 <= min <= a <= b <= u32::MAX,
        shift < 32,
    ensures
        0 <= prefix_of(a, min, shift) <= prefix_of(b, min, shift),
{
    let da = (a - min) as u32;
    let db = (b - min) as u32;
    assert(da <= db && shift < 32 ==> (da >> shift) <= (db >> shift)) by (bit_vector);
}

/// `entry` is the index of the first of `knots` whose prefix is at least `p`,
/// or their number where there is none: the knots before it have a smaller
/// prefix, and no other has.
pub open spec fn entry_splits(knots: Seq<Point>, min: int, shift: u32, p: int, entry: int) -> bool {
    &&& 0 <= entry <= knots.len()
    &&& forall|i: int|
        0 <= i < knots.len() ==> ((i < entry) <==> prefix_of((#[trigger] knots[i]).x, min, shift)
            < p)
}

/// Every entry of `table` leads to the first knot at or beyond its prefix.
pub open spec fn table_splits(table: Seq<usize>, knots: Seq<Point>, min: int, shift: u32) -> bool {
    forall|p: int| 0 <= p < table.len() ==> entry_splits(knots, min, shift, p, #[trigger] table[p] as int)
}

} // verus!
