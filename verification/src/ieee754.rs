//! Double-precision numbers as their IEEE 754 bit patterns.
//!
//! The sign is the top bit, the remaining 63 bits are the magnitude. Among
//! patterns of one sign the magnitude grows with the number it encodes, the
//! two zeros have magnitude zero, and every magnitude above that of infinity
//! is a NaN. Comparisons are therefore decided on the patterns alone.

use vstd::prelude::*;

verus! {

/// The sign bit.
pub const SIGN_BIT: u64 = 0x8000_0000_0000_0000;

/// Positive infinity.
pub const INFINITY: u64 = 0x7ff0_0000_0000_0000;

/// Positive zero.
pub const ZERO: u64 = 0;

/// One.
pub const ONE: u64 = 0x3ff0_0000_0000_0000;

/// The gap between one and the next larger number, two to the power of -52.
pub const EPSILON: u64 = 0x3cb0_0000_0000_0000;

/// The pattern with its sign bit cleared.
pub open spec fn magnitude(x: u64) -> u64 {
    if x >= SIGN_BIT {
        (x - SIGN_BIT) as u64
    } else {
        x
    }
}

/// Whether the pattern encodes no number.
pub open spec fn is_nan(x: u64) -> bool {
    magnitude(x) > INFINITY
}

/// Where a pattern that encodes a number stands on the number line: the
/// magnitude, negated when the sign bit is set. Both zeros stand at 0.
pub open spec fn rank(x: u64) -> int {
    if x >= SIGN_BIT {
        -(magnitude(x) as int)
    } else {
        x as int
    }
}

/// `a < b` as IEEE 754 defines it: false when either side is a NaN.
pub open spec fn less_than(a: u64, b: u64) -> bool {
    !is_nan(a) && !is_nan(b) && rank(a) < rank(b)
}

/// `a <= b` as IEEE 754 defines it: false when either side is a NaN.
pub open spec fn at_most(a: u64, b: u64) -> bool {
    !is_nan(a) && !is_nan(b) && rank(a) <= rank(b)
}

/// `<` orders the patterns that encode numbers strictly and totally, with
/// the two zeros in one place; `<=` is `<` or the same place.
pub proof fn lemma_order(a: u64, b: u64, c: u64)
    ensures
        !less_than(a, a),
        less_than(a, b) ==> !less_than(b, a),
        less_than(a, b) && less_than(b, c) ==> less_than(a, c),
        at_most(a, b) && at_most(b, c) ==> at_most(a, c),
        at_most(a, b) <==> less_than(a, b) || (!is_nan(a) && !is_nan(b) && rank(a) == rank(b)),
        !is_nan(a) && !is_nan(b) ==> less_than(a, b) || at_most(b, a),
        less_than(ZERO, a) ==> a == magnitude(a),
{
}

/// The absolute value: clears the sign bit.
pub fn abs(x: u64) -> (r: u64)
    ensures
        r == magnitude(x),
        r < SIGN_BIT,
{
    if x >= SIGN_BIT {
        x - SIGN_BIT
    } else {
        x
    }
}

/// Decides `a < b`.
pub fn lt(a: u64, b: u64) -> (r: bool)
    ensures
        r == less_than(a, b),
{
    let ma: u64 = abs(a);
    let mb: u64 = abs(b);
    if ma > INFINITY || mb > INFINITY {
        false
    } else if a >= SIGN_BIT {
        if b >= SIGN_BIT {
            mb < ma
        } else {
            ma != 0 || mb != 0
        }
    } else {
        b < SIGN_BIT && ma < mb
    }
}

/// Decides `a <= b`.
pub fn le(a: u64, b: u64) -> (r: bool)
    ensures
        r == at_most(a, b),
{
    let ma: u64 = abs(a);
    let mb: u64 = abs(b);
    if ma > INFINITY || mb > INFINITY {
        false
    } else if a >= SIGN_BIT {
        b < SIGN_BIT || mb <= ma
    } else if b >= SIGN_BIT {
        ma == 0 && mb == 0
    } else {
        ma <= mb
    }
}

/// Decides `a > b`.
pub fn gt(a: u64, b: u64) -> (r: bool)
    ensures
        r == less_than(b, a),
{
    lt(b, a)
}

/// Decides `a >= b`.
pub fn ge(a: u64, b: u64) -> (r: bool)
    ensures
        r == at_most(b, a),
{
    le(b, a)
}

/// The largest magnitude among `samples`, zero when there is none. On
/// magnitudes the order of the patterns is the total order of the numbers
/// they encode, with every NaN above infinity.
pub open spec fn max_magnitude(samples: Seq<u64>) -> u64
    decreases samples.len(),
{
    if samples.len() == 0 {
        0
    } else {
        let rest = max_magnitude(samples.drop_last());
        let m = magnitude(samples.last());
        if m > rest {
            m
        } else {
            rest
        }
    }
}

/// The largest magnitude bounds every magnitude and, where there is a
/// sample, is the magnitude of one.
pub proof fn lemma_max_magnitude(samples: Seq<u64>)
    ensures
        forall|i: int| 0 <= i < samples.len() ==> magnitude(#[trigger] samples[i]) <= max_magnitude(samples),
        samples.len() > 0 ==> exists|i: int| 0 <= i < samples.len() && magnitude(#[trigger] samples[i]) == max_magnitude(samples),
        samples.len() == 0 ==> max_magnitude(samples) == 0,
    decreases samples.len(),
{
    if samples.len() > 0 {
        let front = samples.drop_last();
        lemma_max_magnitude(front);
        assert forall|i: int| 0 <= i < samples.len() implies magnitude(#[trigger] samples[i])
            <= max_magnitude(samples) by {
            if i < front.len() {
                assert(front[i] == samples[i]);
            }
        }
        if magnitude(samples.last()) > max_magnitude(front) || front.len() == 0 {
            assert(magnitude(samples[samples.len() - 1]) == max_magnitude(samples));
        } else {
            let i = choose|i: int| 0 <= i < front.len() && magnitude(#[trigger] front[i]) == max_magnitude(front);
            assert(front[i] == samples[i]);
        }
    }
}

/// Finds the largest magnitude among `samples`.
pub fn largest_magnitude(samples: &Vec<u64>) -> (r: u64)
    ensures
        r == max_magnitude(samples@),
{
    let mut largest: u64 = 0;
    let mut i: usize = 0;
    while i < samples.len()
        invariant
            0 <= i <= samples.len(),
            largest == max_magnitude(samples@.take(i as int)),
        decreases samples.len() - i,
    {
        let m: u64 = abs(samples[i]);
        assert(samples@.take(i as int + 1).drop_last() =~= samples@.take(i as int));
        if m > largest {
            largest = m;
        }
        i += 1;
    }
    assert(samples@.take(i as int) =~= samples@);
    largest
}

} // verus!
