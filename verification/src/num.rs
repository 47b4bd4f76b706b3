use vstd::prelude::*;

verus! {

/// A 64-bit IEEE-754 measurement, held as its bit pattern.
///
/// Comparisons follow IEEE-754: a NaN is neither below nor above anything,
/// the two zeros are equal, and every other pair is ordered by value.
#[derive(Clone, Copy, Debug)]
pub struct Num {
    pub bits: u64,
}

/// The magnitude bits (everything but the sign).
pub open spec fn magnitude(bits: u64) -> int {
    if bits >= 0x8000_0000_0000_0000u64 {
        bits - 0x8000_0000_0000_0000int
    } else {
        bits as int
    }
}

/// A NaN has all exponent bits set and a non-zero fraction.
pub open spec fn is_nan(n: Num) -> bool {
    magnitude(n.bits) > 0x7ff0_0000_0000_0000int
}

/// Position of a non-NaN value on the number line: IEEE-754 orders values by
/// sign and magnitude of their bit patterns.
pub open spec fn order_key(n: Num) -> int {
    if n.bits >= 0x8000_0000_0000_0000u64 {
        -magnitude(n.bits)
    } else {
        magnitude(n.bits)
    }
}

/// `a > b` as IEEE-754 defines it.
pub open spec fn spec_gt(a: Num, b: Num) -> bool {
    !is_nan(a) && !is_nan(b) && order_key(a) > order_key(b)
}

/// `a < b` as IEEE-754 defines it.
pub open spec fn spec_lt(a: Num, b: Num) -> bool {
    spec_gt(b, a)
}

/// The value `+0.0`.
pub open spec fn zero() -> Num {
    Num { bits: 0 }
}

/// `+0.0`, the value a missing measurement defaults to.
pub fn zero_num() -> (z: Num)
    ensures
        z == zero(),
{
    Num { bits: 0 }
}

/// `>` is irreflexive.
pub proof fn lemma_gt_irreflexive(a: Num)
    ensures
        !spec_gt(a, a),
{
}

/// `>` is asymmetric.
pub proof fn lemma_gt_asymmetric(a: Num, b: Num)
    ensures
        spec_gt(a, b) ==> !spec_gt(b, a),
{
}

/// `>` is transitive.
pub proof fn lemma_gt_transitive(a: Num, b: Num, c: Num)
    ensures
        spec_gt(a, b) && spec_gt(b, c) ==> spec_gt(a, c),
{
}

/// Between two values that are not NaN, one is above the other or they are equal in value.
pub proof fn lemma_gt_total(a: Num, b: Num)
    requires
        !is_nan(a),
        !is_nan(b),
    ensures
        spec_gt(a, b) || spec_gt(b, a) || order_key(a) == order_key(b),
{
}

fn key_of(n: Num) -> (k: i128)
    ensures
        k == order_key(n),
{
    if n.bits >= 0x8000_0000_0000_0000u64 {
        -((n.bits - 0x8000_0000_0000_0000u64) as i128)
    } else {
        n.bits as i128
    }
}

/// Whether `n` is a NaN.
pub fn nan(n: Num) -> (r: bool)
    ensures
        r == is_nan(n),
{
    let m: u64 = if n.bits >= 0x8000_0000_0000_0000u64 {
        n.bits - 0x8000_0000_0000_0000u64
    } else {
        n.bits
    };
    m > 0x7ff0_0000_0000_0000u64
}

/// `a > b`.
pub fn gt(a: Num, b: Num) -> (r: bool)
    ensures
        r == spec_gt(a, b),
{
    !nan(a) && !nan(b) && key_of(a) > key_of(b)
}

/// `a < b`.
pub fn lt(a: Num, b: Num) -> (r: bool)
    ensures
        r == spec_lt(a, b),
{
    gt(b, a)
}

} // verus!
