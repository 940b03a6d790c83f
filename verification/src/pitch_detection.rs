//! Peak picking of the McLeod Pitch Method, described by Philip McLeod and
//! Geoff Wyvill in "A Smarter Way to Find Pitch" (2005).
//!
//! The method reads the normalized square difference function (NSDF) of a
//! frame, one value per lag. What is decided here is decided by comparing
//! values of that curve, given as bit patterns; the arithmetic that produces
//! the curve and refines a maximum is the caller's.

use vstd::prelude::*;
use crate::ieee754::{abs, at_most, ge, gt, is_nan, less_than, lt, magnitude, EPSILON, ONE, ZERO};

verus! {

pub trait PitchDetector {
    /// Attempts to detect the pitch in the input samples
    ///
    /// If a pitch is detected, the frequency is returned, otherwise
    /// None is returned.
    fn get_pitch(self, samples: Vec<u64>) -> Option<u64>;
}

/// Struct for the McLeod Pitch Method pitch detection algorithm
#[derive(Clone, Copy, Debug, PartialEq, Eq)]
pub struct Mpm {
    threshold: u64,
    sample_rate: u32,
}

/// A local maximum of the curve that is higher than every local maximum
/// before it in its lobe.
#[derive(Clone, Copy, Debug, PartialEq, Eq)]
pub struct KeyMaximum {
    /// The lag at which the maximum stands
    pub index: usize,
    /// The lag at which its lobe begins
    pub lobe: usize,
    /// The value of the curve at `index`
    pub height: u64,
}

/// The vertex of the parabola through a key maximum and its two neighbours.
#[derive(Clone, Copy, Debug, PartialEq, Eq)]
pub struct RefinedPeak {
    /// The lobe of the key maximum that was refined
    pub lobe: usize,
    /// Where the vertex stands, in samples
    pub lag: u64,
    /// How high the vertex is
    pub height: u64,
}

/// The sum of squares by which a value of the curve is divided: one where
/// the sum does not exceed the machine epsilon, as in a silent frame.
pub open spec fn divisor_of(square_sum: u64) -> u64 {
    if less_than(EPSILON, square_sum) {
        square_sum
    } else {
        ONE
    }
}

/// Whether a quantity is too near to zero to divide by: its magnitude is
/// below the machine epsilon.
pub open spec fn is_negligible(x: u64) -> bool {
    less_than(magnitude(x), EPSILON)
}

/// `x > 0`.
pub open spec fn is_positive(x: u64) -> bool {
    less_than(ZERO, x)
}

/// `x >= 0`.
pub open spec fn is_non_negative(x: u64) -> bool {
    at_most(ZERO, x)
}

/// The first lag at or after `from` at which the curve is not positive, or
/// the length of the curve if there is none.
pub open spec fn first_non_positive(nsdf: Seq<u64>, from: int) -> int
    decreases nsdf.len() - from,
{
    if from >= nsdf.len() {
        nsdf.len() as int
    } else if !is_positive(nsdf[from]) {
        from
    } else {
        first_non_positive(nsdf, from + 1)
    }
}

/// Where the search for peaks begins: behind the run of positive values
/// that the curve starts with.
pub open spec fn search_start(nsdf: Seq<u64>) -> int {
    first_non_positive(nsdf, 0)
}

/// Where the lobe begins that lag `i` continues: a lobe is a run of values
/// that are not negative, and none begins before the search does.
pub open spec fn lobe_start(nsdf: Seq<u64>, i: int) -> int
    decreases i - search_start(nsdf),
{
    if i <= search_start(nsdf) {
        search_start(nsdf)
    } else if is_non_negative(nsdf[i - 1]) {
        lobe_start(nsdf, i - 1)
    } else {
        i
    }
}

/// The curve is strictly higher at `i` than at both neighbouring lags.
pub open spec fn is_local_maximum(nsdf: Seq<u64>, i: int) -> bool {
    &&& 0 < i < nsdf.len() - 1
    &&& less_than(nsdf[i - 1], nsdf[i])
    &&& less_than(nsdf[i + 1], nsdf[i])
}

/// Lag `i` is a positive local maximum, met by the search, and strictly
/// higher than each local maximum before it in its lobe.
pub open spec fn is_key_maximum(nsdf: Seq<u64>, i: int) -> bool {
    &&& search_start(nsdf) <= i
    &&& is_local_maximum(nsdf, i)
    &&& is_positive(nsdf[i])
    &&& forall|j: int|
        lobe_start(nsdf, i) <= j < i && #[trigger] is_local_maximum(nsdf, j) ==> less_than(
            nsdf[j],
            nsdf[i],
        )
}

/// The key maxima among the lags below `i`, in ascending order.
pub open spec fn key_maxima_upto(nsdf: Seq<u64>, i: int) -> Seq<KeyMaximum>
    decreases i,
{
    if i <= 0 {
        Seq::empty()
    } else if is_key_maximum(nsdf, i - 1) {
        key_maxima_upto(nsdf, i - 1).push(
            KeyMaximum {
                index: (i - 1) as usize,
                lobe: lobe_start(nsdf, i - 1) as usize,
                height: nsdf[i - 1],
            },
        )
    } else {
        key_maxima_upto(nsdf, i - 1)
    }
}

/// The largest height among `maxima`, zero when none is above zero.
pub open spec fn highest_of(maxima: Seq<KeyMaximum>) -> u64
    decreases maxima.len(),
{
    if maxima.len() == 0 {
        ZERO
    } else {
        let rest = highest_of(maxima.drop_last());
        if less_than(rest, maxima.last().height) {
            maxima.last().height
        } else {
            rest
        }
    }
}

/// The peak at `k` is the last one of its lobe.
pub open spec fn closes_lobe(refined: Seq<RefinedPeak>, k: int) -> bool {
    k + 1 == refined.len() || refined[k + 1].lobe != refined[k].lobe
}

/// The peak at `k` stands for its lobe, is higher than zero and higher than
/// `cutoff`.
pub open spec fn qualifies(refined: Seq<RefinedPeak>, cutoff: u64, k: int) -> bool {
    &&& 0 <= k < refined.len()
    &&& closes_lobe(refined, k)
    &&& less_than(ZERO, refined[k].height)
    &&& less_than(cutoff, refined[k].height)
}

/// The first position at or after `from` whose peak qualifies.
pub open spec fn first_qualifying(refined: Seq<RefinedPeak>, cutoff: u64, from: int) -> Option<int>
    decreases refined.len() - from,
{
    if from >= refined.len() {
        None
    } else if qualifies(refined, cutoff, from) {
        Some(from)
    } else {
        first_qualifying(refined, cutoff, from + 1)
    }
}

/// The lag and height of the first peak that qualifies.
pub open spec fn chosen_peak(refined: Seq<RefinedPeak>, cutoff: u64) -> Option<(u64, u64)> {
    match first_qualifying(refined, cutoff, 0) {
        Some(k) => Some((refined[k].lag, refined[k].height)),
        None => None,
    }
}

/// The vertex that belongs to the key maximum at position `k`.
pub open spec fn vertex_at(vertices: Seq<Option<(u64, u64)>>, k: int) -> Option<(u64, u64)> {
    if 0 <= k < vertices.len() {
        vertices[k]
    } else {
        None
    }
}

/// The refined peaks of those among the first `n` key maxima that have a
/// vertex, each in the lobe of its key maximum.
pub open spec fn refined_upto(
    maxima: Seq<KeyMaximum>,
    vertices: Seq<Option<(u64, u64)>>,
    n: int,
) -> Seq<RefinedPeak>
    decreases n,
{
    if n <= 0 {
        Seq::empty()
    } else {
        match vertex_at(vertices, n - 1) {
            Some((lag, height)) => refined_upto(maxima, vertices, n - 1).push(
                RefinedPeak { lobe: maxima[n - 1].lobe, lag, height },
            ),
            None => refined_upto(maxima, vertices, n - 1),
        }
    }
}

/// The peak that stands for the period of the signal: each lobe is
/// represented by the vertex of its last key maximum that has one, and the
/// first lobe whose vertex is higher than zero and than `cutoff` gives the
/// peak.
pub open spec fn mpm_peak(
    maxima: Seq<KeyMaximum>,
    vertices: Seq<Option<(u64, u64)>>,
    cutoff: u64,
) -> Option<(u64, u64)> {
    chosen_peak(refined_upto(maxima, vertices, maxima.len() as int), cutoff)
}

/// The search begins inside the curve or at its end, behind positive
/// values only.
pub proof fn lemma_search_start(nsdf: Seq<u64>, from: int)
    requires
        0 <= from <= nsdf.len(),
    ensures
        from <= first_non_positive(nsdf, from) <= nsdf.len(),
        forall|k: int| from <= k < first_non_positive(nsdf, from) ==> is_positive(#[trigger] nsdf[k]),
        first_non_positive(nsdf, from) < nsdf.len() ==> !is_positive(
            nsdf[first_non_positive(nsdf, from)],
        ),
    decreases nsdf.len() - from,
{
    if from < nsdf.len() && is_positive(nsdf[from]) {
        lemma_search_start(nsdf, from + 1);
    }
}

/// No key maximum stands before the search begins.
pub proof fn lemma_no_key_maxima_before_start(nsdf: Seq<u64>, i: int)
    requires
        i <= search_start(nsdf),
    ensures
        key_maxima_upto(nsdf, i) == Seq::<KeyMaximum>::empty(),
    decreases i,
{
    if i > 0 {
        lemma_no_key_maxima_before_start(nsdf, i - 1);
    }
}

/// Zero is negligible, whatever its sign; one is not.
pub proof fn lemma_zero_is_negligible(x: u64)
    requires
        magnitude(x) == 0,
    ensures
        is_negligible(x),
        !is_negligible(ONE),
        divisor_of(x) == ONE,
{
}

/// A lobe begins where the search does or behind a value that is negative
/// or no number, not behind the lag that continues it, and holds no such
/// value up to that lag.
pub proof fn lemma_lobe_start(nsdf: Seq<u64>, i: int)
    requires
        search_start(nsdf) <= i,
    ensures
        search_start(nsdf) <= lobe_start(nsdf, i) <= i,
        forall|k: int| lobe_start(nsdf, i) <= k < i ==> is_non_negative(#[trigger] nsdf[k]),
        lobe_start(nsdf, i) == search_start(nsdf) || !is_non_negative(
            nsdf[lobe_start(nsdf, i) - 1],
        ),
    decreases i - search_start(nsdf),
{
    if i > search_start(nsdf) && is_non_negative(nsdf[i - 1]) {
        lemma_lobe_start(nsdf, i - 1);
    }
}

/// The key maxima below lag `i` are listed once each, in ascending order
/// of lag, each with the start of its lobe and its height, and nothing else
/// is listed.
pub proof fn lemma_key_maxima(nsdf: Seq<u64>, i: int)
    requires
        i <= nsdf.len() <= usize::MAX,
    ensures
        ({
            let maxima = key_maxima_upto(nsdf, i);
            &&& forall|a: int, b: int|
                0 <= a < b < maxima.len() ==> maxima[a].index < maxima[b].index
            &&& forall|a: int|
                0 <= a < maxima.len() ==> {
                    &&& (#[trigger] maxima[a]).index < i
                    &&& is_key_maximum(nsdf, maxima[a].index as int)
                    &&& maxima[a].lobe == lobe_start(nsdf, maxima[a].index as int)
                    &&& maxima[a].height == nsdf[maxima[a].index as int]
                }
            &&& forall|j: int|
                0 <= j < i && #[trigger] is_key_maximum(nsdf, j) ==> exists|a: int|
                    0 <= a < maxima.len() && (#[trigger] maxima[a]).index == j
        }),
    decreases i,
{
    if i > 0 {
        lemma_key_maxima(nsdf, i - 1);
        let before = key_maxima_upto(nsdf, i - 1);
        let maxima = key_maxima_upto(nsdf, i);
        if is_key_maximum(nsdf, i - 1) {
            lemma_search_start(nsdf, 0);
            lemma_lobe_start(nsdf, i - 1);
            assert(maxima == before.push(maxima.last()));
            assert forall|j: int| 0 <= j < i && #[trigger] is_key_maximum(nsdf, j) implies exists|
                a: int,
            |
                0 <= a < maxima.len() && (#[trigger] maxima[a]).index == j by {
                if j < i - 1 {
                    let a = choose|a: int| 0 <= a < before.len() && (#[trigger] before[a]).index == j;
                    assert(maxima[a].index == j);
                } else {
                    assert(maxima[maxima.len() - 1].index == j);
                }
            }
        }
    }
}

/// Within a lobe the key maxima rise: of two that share a lobe the later
/// one is strictly higher.
pub proof fn lemma_key_maxima_rise(nsdf: Seq<u64>, a: int, b: int)
    requires
        nsdf.len() <= usize::MAX,
        0 <= a < b < key_maxima_upto(nsdf, nsdf.len() as int).len(),
        key_maxima_upto(nsdf, nsdf.len() as int)[a].lobe == key_maxima_upto(
            nsdf,
            nsdf.len() as int,
        )[b].lobe,
    ensures
        less_than(
            key_maxima_upto(nsdf, nsdf.len() as int)[a].height,
            key_maxima_upto(nsdf, nsdf.len() as int)[b].height,
        ),
{
    let maxima = key_maxima_upto(nsdf, nsdf.len() as int);
    lemma_key_maxima(nsdf, nsdf.len() as int);
    assert(maxima[a].index < maxima[b].index);
    lemma_lobe_start(nsdf, maxima[a].index as int);
    assert(is_local_maximum(nsdf, maxima[a].index as int));
}

/// The highest height is a number that no height exceeds, and it is zero
/// or one of the heights.
pub proof fn lemma_highest_of(maxima: Seq<KeyMaximum>)
    ensures
        !is_nan(highest_of(maxima)),
        forall|a: int|
            0 <= a < maxima.len() ==> !less_than(highest_of(maxima), (#[trigger] maxima[a]).height),
        highest_of(maxima) == ZERO || exists|a: int|
            0 <= a < maxima.len() && (#[trigger] maxima[a]).height == highest_of(maxima),
    decreases maxima.len(),
{
    if maxima.len() > 0 {
        let front = maxima.drop_last();
        lemma_highest_of(front);
        assert forall|a: int| 0 <= a < maxima.len() implies !less_than(
            highest_of(maxima),
            (#[trigger] maxima[a]).height,
        ) by {
            if a < front.len() {
                assert(front[a] == maxima[a]);
            }
        }
        if less_than(highest_of(front), maxima.last().height) {
            assert(maxima[maxima.len() - 1].height == highest_of(maxima));
        } else if highest_of(front) != ZERO {
            let a = choose|a: int| 0 <= a < front.len() && (#[trigger] front[a]).height == highest_of(front);
            assert(maxima[a] == front[a]);
        }
    }
}

/// The position found is the first at or after `from` whose peak
/// qualifies; none is found only where none qualifies.
pub proof fn lemma_first_qualifying(refined: Seq<RefinedPeak>, cutoff: u64, from: int)
    requires
        0 <= from,
    ensures
        match first_qualifying(refined, cutoff, from) {
            Some(k) => {
                &&& from <= k
                &&& qualifies(refined, cutoff, k)
                &&& forall|j: int| from <= j < k ==> !qualifies(refined, cutoff, j)
            },
            None => forall|j: int| from <= j ==> !qualifies(refined, cutoff, j),
        },
    decreases refined.len() - from,
{
    if from < refined.len() && !qualifies(refined, cutoff, from) {
        lemma_first_qualifying(refined, cutoff, from + 1);
    }
}

impl Mpm {
    /// The coefficient that this detector was made with.
    pub closed spec fn spec_threshold(&self) -> u64 {
        self.threshold
    }

    /// The sample rate that this detector was made with.
    pub closed spec fn spec_sample_rate(&self) -> u32 {
        self.sample_rate
    }

    /// Creates a new McLeod Pitch Method pitch detector instance
    ///
    /// # Arguments
    ///
    /// * `threshold` - A coefficient used when deciding which pitch
    ///                 candidate to choose as the final estimate
    /// * `sample_rate` - The sample rate of the audio which the detector will
    ///                   be used on
    pub fn new(threshold: u64, sample_rate: u32) -> (mpm: Mpm)
        ensures
            mpm.threshold() == threshold,
            mpm.sample_rate() == sample_rate,
    {
        Mpm { threshold, sample_rate }
    }

    /// The fraction of the highest key maximum that a peak must exceed.
    #[verifier::when_used_as_spec(spec_threshold)]
    pub fn threshold(&self) -> (t: u64)
        ensures
            t == self.threshold(),
    {
        self.threshold
    }

    /// The sample rate (in Hz) of the audio.
    #[verifier::when_used_as_spec(spec_sample_rate)]
    pub fn sample_rate(&self) -> (r: u32)
        ensures
            r == self.sample_rate(),
    {
        self.sample_rate
    }

    /// Guards the division that normalizes the curve against a sum of
    /// squares near zero.
    pub fn divisor(square_sum: u64) -> (d: u64)
        ensures
            d == divisor_of(square_sum),
    {
        if gt(square_sum, EPSILON) {
            square_sum
        } else {
            ONE
        }
    }

    /// Decides whether a quantity is too near to zero to divide by. The fit
    /// of a parabola through three points is given up where this holds of
    /// the product of the differences of their x-coordinates (two of them
    /// coincide) or of the leading coefficient (they form a straight line).
    pub fn negligible(x: u64) -> (b: bool)
        ensures
            b == is_negligible(x),
    {
        lt(abs(x), EPSILON)
    }

    /// Finds the key maxima of the curve, in ascending order of lag.
    pub fn key_maxima(nsdf: &Vec<u64>) -> (maxima: Vec<KeyMaximum>)
        ensures
            maxima@ == key_maxima_upto(nsdf@, nsdf@.len() as int),
    {
        let n: usize = nsdf.len();
        // Find first zero crossing
        let mut start: usize = 0;
        while start < n && gt(nsdf[start], ZERO)
            invariant
                n == nsdf.len(),
                0 <= start <= n,
                search_start(nsdf@) == first_non_positive(nsdf@, start as int),
            decreases n - start,
        {
            start += 1;
        }
        proof {
            lemma_no_key_maxima_before_start(nsdf@, start as int);
        }
        let mut maxima: Vec<KeyMaximum> = Vec::new();
        // Only start looking for positive valued peaks after first zero-crossing
        let mut i: usize = start;
        let mut lobe: usize = start;
        let mut local: u64 = ZERO;
        let ghost mut record: int = 0;
        while i < n
            invariant
                n == nsdf.len(),
                start == search_start(nsdf@),
                start <= lobe <= i <= n,
                lobe == lobe_start(nsdf@, i as int),
                is_non_negative(local),
                forall|j: int|
                    lobe <= j < i && #[trigger] is_local_maximum(nsdf@, j) ==> at_most(
                        nsdf@[j],
                        local,
                    ),
                local == ZERO || (lobe <= record < i && is_local_maximum(nsdf@, record)
                    && nsdf@[record] == local),
                maxima@ == key_maxima_upto(nsdf@, i as int),
            decreases n - i,
        {
            let value: u64 = nsdf[i];
            if ge(value, ZERO) {
                if gt(value, local) && i > 0 && i < n - 1 && lt(nsdf[i - 1], value) && lt(
                    nsdf[i + 1],
                    value,
                ) {
                    assert(is_key_maximum(nsdf@, i as int));
                    local = value;
                    proof {
                        record = i as int;
                    }
                    maxima.push(KeyMaximum { index: i, lobe, height: value });
                } else {
                    assert(!is_key_maximum(nsdf@, i as int)) by {
                        if is_local_maximum(nsdf@, i as int) && local != ZERO {
                            assert(!less_than(nsdf@[record], nsdf@[i as int]));
                        }
                    }
                }
            } else {
                assert(!is_key_maximum(nsdf@, i as int));
                lobe = i + 1;
                local = ZERO;
            }
            i += 1;
        }
        maxima
    }

    /// Finds the height of the highest key maximum, zero if there is none.
    pub fn highest(maxima: &Vec<KeyMaximum>) -> (top: u64)
        ensures
            top == highest_of(maxima@),
    {
        let mut top: u64 = ZERO;
        let mut i: usize = 0;
        while i < maxima.len()
            invariant
                0 <= i <= maxima.len(),
                top == highest_of(maxima@.take(i as int)),
            decreases maxima.len() - i,
        {
            assert(maxima@.take(i as int + 1).drop_last() =~= maxima@.take(i as int));
            if gt(maxima[i].height, top) {
                top = maxima[i].height;
            }
            i += 1;
        }
        assert(maxima@.take(i as int) =~= maxima@);
        top
    }

    /// Peak picking: chooses among the key maxima of a curve by their
    /// refined peaks.
    ///
    /// `vertices` holds, for each key maximum, the vertex (lag and height)
    /// of the parabola through it and its two neighbours, `None` where there
    /// is no such vertex; a key maximum without an entry has none. `cutoff`
    /// is the detector's threshold times the height of the highest key
    /// maximum.
    pub fn get_mpm_peak(
        maxima: &Vec<KeyMaximum>,
        vertices: &Vec<Option<(u64, u64)>>,
        cutoff: u64,
    ) -> (peak: Option<(u64, u64)>)
        ensures
            peak == mpm_peak(maxima@, vertices@, cutoff),
    {
        let mut refined: Vec<RefinedPeak> = Vec::new();
        let mut k: usize = 0;
        while k < maxima.len()
            invariant
                0 <= k <= maxima.len(),
                refined@ == refined_upto(maxima@, vertices@, k as int),
            decreases maxima.len() - k,
        {
            if k < vertices.len() {
                match vertices[k] {
                    Some((lag, height)) => {
                        refined.push(RefinedPeak { lobe: maxima[k].lobe, lag, height });
                    },
                    None => {},
                }
            }
            k += 1;
        }
        Mpm::choose_peak(&refined, cutoff)
    }

    /// Returns the first peak above a certain threshold
    ///
    /// `refined` holds the peaks that could be refined, in ascending order of
    /// lag; the last one of each lobe stands for the lobe.
    pub fn choose_peak(refined: &Vec<RefinedPeak>, cutoff: u64) -> (peak: Option<(u64, u64)>)
        ensures
            peak == chosen_peak(refined@, cutoff),
    {
        let n: usize = refined.len();
        let mut k: usize = 0;
        while k < n
            invariant
                n == refined.len(),
                0 <= k <= n,
                first_qualifying(refined@, cutoff, 0) == first_qualifying(refined@, cutoff, k as int),
            decreases n - k,
        {
            let closes: bool = k + 1 == n || refined[k + 1].lobe != refined[k].lobe;
            if closes && gt(refined[k].height, ZERO) && gt(refined[k].height, cutoff) {
                return Some((refined[k].lag, refined[k].height));
            }
            k += 1;
        }
        None
    }
}

} // verus!
