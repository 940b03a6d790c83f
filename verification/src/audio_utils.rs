//! Sample buffers and the frames cut out of them.

use vstd::prelude::*;
use vstd::slice::{slice_subrange, slice_to_vec};
use crate::errors::FrameError;

verus! {

/// A contiguous run of samples and the place it was taken from.
#[derive(Debug, PartialEq)]
pub struct Frame {
    /// Starting position of this frame in the audio it was taken from
    pub start_pos: usize,
    /// Samples contained in this frame, each the bit pattern of a
    /// double-precision number
    pub samples: Vec<u64>,
}

/// What a frame is: a position and the samples found there.
pub struct FrameView {
    pub start_pos: int,
    pub samples: Seq<u64>,
}

impl View for Frame {
    type V = FrameView;

    open spec fn view(&self) -> FrameView {
        FrameView { start_pos: self.start_pos as int, samples: self.samples@ }
    }
}

impl DeepView for Frame {
    type V = FrameView;

    open spec fn deep_view(&self) -> FrameView {
        self@
    }
}

impl FrameView {
    /// The frame holds exactly the samples that `buffer` has from the
    /// frame's starting position on.
    pub open spec fn is_slice_of(self, buffer: Seq<u64>) -> bool {
        &&& 0 <= self.start_pos
        &&& self.start_pos + self.samples.len() <= buffer.len()
        &&& self.samples == buffer.subrange(
            self.start_pos,
            self.start_pos + self.samples.len(),
        )
    }
}

/// The samples of one audio signal, each the bit pattern of a
/// double-precision number.
#[derive(Debug, PartialEq)]
pub struct AudioData {
    /// Sample rate (in Hz)
    pub sample_rate: u32,
    /// Duration (in samples) of the wav file
    pub duration: u32,
    pub samples: Vec<u64>,
}

/// What audio data is: its rates and the sequence of its samples.
pub struct AudioDataView {
    pub sample_rate: u32,
    pub duration: u32,
    pub samples: Seq<u64>,
}

impl View for AudioData {
    type V = AudioDataView;

    open spec fn view(&self) -> AudioDataView {
        AudioDataView {
            sample_rate: self.sample_rate,
            duration: self.duration,
            samples: self.samples@,
        }
    }
}

/// Where fixed-width framing starts when the caller names `start`.
pub open spec fn first_position(start: Option<usize>) -> int {
    match start {
        Some(s) => s as int,
        None => 0,
    }
}

/// Where fixed-width framing ends in a buffer of `len` samples when the
/// caller names `end`: never beyond the buffer.
pub open spec fn end_position(len: nat, end: Option<usize>) -> int {
    match end {
        Some(e) => if e < len { e as int } else { len as int },
        None => len as int,
    }
}

/// How many frames of `frame_width` samples, `step_size` apart, lie between
/// `start` and `end`.
pub open spec fn frame_count(frame_width: int, step_size: int, start: int, end: int) -> int {
    if end - start >= frame_width {
        (end - start - frame_width) / step_size + 1
    } else {
        0
    }
}

/// The frames of `frame_width` samples that start at `start`,
/// `start + step_size`, ... and end at or before `end`.
pub open spec fn fixed_frames(
    buffer: Seq<u64>,
    frame_width: int,
    step_size: int,
    start: int,
    end: int,
) -> Seq<FrameView> {
    Seq::new(
        frame_count(frame_width, step_size, start, end) as nat,
        |k: int|
            FrameView {
                start_pos: start + k * step_size,
                samples: buffer.subrange(start + k * step_size, start + k * step_size + frame_width),
            },
    )
}

/// No index is larger than the one after it.
pub open spec fn non_decreasing(indices: Seq<usize>) -> bool {
    forall|i: int| 0 <= i && i + 1 < indices.len() ==> #[trigger] indices[i] <= indices[i + 1]
}

/// `d` is the first position whose index equals the next one.
pub open spec fn is_first_duplicate(indices: Seq<usize>, d: int) -> bool {
    &&& 0 <= d
    &&& d + 1 < indices.len()
    &&& indices[d] == indices[d + 1]
    &&& forall|k: int| 0 <= k < d ==> #[trigger] indices[k] != indices[k + 1]
}

/// `p` is the first position whose index is not below `len`.
pub open spec fn is_first_out_of_bounds(indices: Seq<usize>, len: nat, p: int) -> bool {
    &&& 0 <= p < indices.len()
    &&& indices[p] >= len
    &&& forall|k: int| 0 <= k < p ==> #[trigger] indices[k] < len
}

/// The first duplicate pair is one of indices that both lie in the buffer.
pub open spec fn is_reported_duplicate(indices: Seq<usize>, len: nat, d: int) -> bool {
    is_first_duplicate(indices, d) && indices[d + 1] < len
}

/// What is wrong with `indices` as frame starts in a buffer of `len`
/// samples. Disorder comes first. Of a duplicate pair and an index out of
/// bounds the one that is met first when reading from the front, where an
/// index out of bounds is met one position early, as the end of the frame
/// before it.
pub open spec fn index_fault(indices: Seq<usize>, len: nat) -> Option<FrameError> {
    if !non_decreasing(indices) {
        Some(FrameError::FrameIndicesNotSorted)
    } else if exists|d: int| is_reported_duplicate(indices, len, d) {
        let d = choose|d: int| is_reported_duplicate(indices, len, d);
        Some(FrameError::DuplicateFrameIndices(indices[d], d as usize, (d + 1) as usize))
    } else if exists|p: int| is_first_out_of_bounds(indices, len, p) {
        let p = choose|p: int| is_first_out_of_bounds(indices, len, p);
        Some(FrameError::FrameIndexOutOfBounds(indices[p]))
    } else {
        None
    }
}

/// Where the frame that starts at `indices[k]` ends: at the next index, the
/// last one at the end of the buffer.
pub open spec fn frame_end(buffer: Seq<u64>, indices: Seq<usize>, k: int) -> int {
    if k + 1 < indices.len() {
        indices[k + 1] as int
    } else {
        buffer.len() as int
    }
}

/// One frame for each index, from that index up to the next.
pub open spec fn indexed_frames(buffer: Seq<u64>, indices: Seq<usize>) -> Seq<FrameView> {
    Seq::new(
        indices.len(),
        |k: int|
            FrameView {
                start_pos: indices[k] as int,
                samples: buffer.subrange(indices[k] as int, frame_end(buffer, indices, k)),
            },
    )
}

/// In a sequence without descents every index is at most each later one.
pub proof fn lemma_non_decreasing_far(indices: Seq<usize>, i: int, j: int)
    requires
        non_decreasing(indices),
        0 <= i <= j < indices.len(),
    ensures
        indices[i] <= indices[j],
    decreases j - i,
{
    if i < j {
        lemma_non_decreasing_far(indices, i, j - 1);
        assert(indices[j - 1] <= indices[j - 1 + 1]);
    }
}

/// An index out of bounds is what is wrong with `indices` when it is the
/// first such index and no duplicate pair ends before it.
pub proof fn lemma_fault_out_of_bounds(indices: Seq<usize>, len: nat, p: int)
    requires
        non_decreasing(indices),
        is_first_out_of_bounds(indices, len, p),
        forall|k: int| 0 <= k && k + 1 < p ==> #[trigger] indices[k] != indices[k + 1],
    ensures
        index_fault(indices, len) == Some(FrameError::FrameIndexOutOfBounds(indices[p])),
{
    assert forall|d: int| !is_reported_duplicate(indices, len, d) by {
        if 0 <= d && d + 1 < indices.len() && indices[d] == indices[d + 1] {
            if d + 1 < p {
                assert(indices[d] != indices[d + 1]);
            } else {
                lemma_non_decreasing_far(indices, p, d + 1);
            }
        }
    }
    let q = choose|q: int| is_first_out_of_bounds(indices, len, q);
    assert(q == p) by {
        if q < p {
            assert(indices[q] < len);
        }
        if p < q {
            assert(indices[p] < len);
        }
    }
}

/// A duplicate pair is what is wrong with `indices` when it is the first
/// such pair and both of its indices lie in the buffer.
pub proof fn lemma_fault_duplicate(indices: Seq<usize>, len: nat, d: int)
    requires
        non_decreasing(indices),
        is_reported_duplicate(indices, len, d),
    ensures
        index_fault(indices, len) == Some(
            FrameError::DuplicateFrameIndices(indices[d], d as usize, (d + 1) as usize),
        ),
{
    let c = choose|c: int| is_reported_duplicate(indices, len, c);
    assert(c == d) by {
        if c < d {
            assert(indices[c] != indices[c + 1]);
        }
        if d < c {
            assert(indices[d] != indices[d + 1]);
        }
    }
}

/// Nothing is wrong with indices that ascend strictly and lie in the buffer.
pub proof fn lemma_no_fault(indices: Seq<usize>, len: nat)
    requires
        forall|k: int| 0 <= k && k + 1 < indices.len() ==> #[trigger] indices[k] < indices[k + 1],
        forall|k: int| 0 <= k < indices.len() ==> #[trigger] indices[k] < len,
    ensures
        index_fault(indices, len) is None,
{
    assert(non_decreasing(indices)) by {
        assert forall|i: int| 0 <= i && i + 1 < indices.len() implies #[trigger] indices[i]
            <= indices[i + 1] by {
            assert(indices[i] < indices[i + 1]);
        }
    }
    assert forall|d: int| !is_reported_duplicate(indices, len, d) by {
        if 0 <= d && d + 1 < indices.len() {
            assert(indices[d] < indices[d + 1]);
        }
    }
    assert forall|p: int| !is_first_out_of_bounds(indices, len, p) by {
        if 0 <= p < indices.len() {
            assert(indices[p] < len);
        }
    }
}

/// Each sample of a frame of fixed width is the sample that the buffer holds
/// at the frame's starting position plus the sample's offset in the frame.
pub proof fn lemma_frame_sample(
    buffer: Seq<u64>,
    frame_width: usize,
    step_size: usize,
    start: Option<usize>,
    end: Option<usize>,
    i: int,
    offset: int,
)
    requires
        frame_width > 0,
        step_size > 0,
        0 <= i < frame_count(
            frame_width as int,
            step_size as int,
            first_position(start),
            end_position(buffer.len(), end),
        ),
        0 <= offset < frame_width,
    ensures
        first_position(start) + i * step_size + frame_width <= buffer.len(),
        fixed_frames(
            buffer,
            frame_width as int,
            step_size as int,
            first_position(start),
            end_position(buffer.len(), end),
        )[i].samples[offset] == buffer[first_position(start) + i * step_size + offset],
{
    let first = first_position(start);
    let last = end_position(buffer.len(), end);
    let room = last - first - frame_width;
    assert(i * step_size <= room) by (nonlinear_arith)
        requires
            0 <= i <= room / (step_size as int),
            step_size > 0,
            room >= 0,
    ;
    assert(i * step_size >= 0) by (nonlinear_arith)
        requires
            0 <= i,
            step_size > 0,
    ;
}

/// Two frames in a row hold the same samples where they overlap: the sample
/// of frame `i` at `step_size + offset` is the sample of frame `i + 1` at
/// `offset`.
pub proof fn lemma_overlapping_frames_agree(
    buffer: Seq<u64>,
    frame_width: usize,
    step_size: usize,
    start: Option<usize>,
    end: Option<usize>,
    i: int,
    offset: int,
)
    requires
        frame_width > 0,
        step_size > 0,
        0 <= i,
        i + 1 < frame_count(
            frame_width as int,
            step_size as int,
            first_position(start),
            end_position(buffer.len(), end),
        ),
        0 <= offset,
        step_size + offset < frame_width,
    ensures
        ({
            let frames = fixed_frames(
                buffer,
                frame_width as int,
                step_size as int,
                first_position(start),
                end_position(buffer.len(), end),
            );
            frames[i].samples[step_size + offset] == frames[i + 1].samples[offset]
        }),
{
    lemma_frame_sample(buffer, frame_width, step_size, start, end, i, step_size + offset);
    lemma_frame_sample(buffer, frame_width, step_size, start, end, i + 1, offset);
    assert((i + 1) * step_size == i * step_size + step_size) by (nonlinear_arith);
}

/// Where some index at or before `p` is out of bounds, one is the first.
proof fn lemma_first_out_of_bounds_exists(indices: Seq<usize>, len: nat, p: int)
    requires
        0 <= p < indices.len(),
        indices[p] >= len,
    ensures
        exists|q: int| is_first_out_of_bounds(indices, len, q),
    decreases p,
{
    if exists|k: int| 0 <= k < p && #[trigger] indices[k] >= len {
        let k = choose|k: int| 0 <= k < p && #[trigger] indices[k] >= len;
        lemma_first_out_of_bounds_exists(indices, len, k);
    } else {
        assert(is_first_out_of_bounds(indices, len, p));
    }
}

/// Where some pair at or before `d` is a duplicate, one is the first.
proof fn lemma_first_duplicate_exists(indices: Seq<usize>, d: int)
    requires
        0 <= d,
        d + 1 < indices.len(),
        indices[d] == indices[d + 1],
    ensures
        exists|c: int| is_first_duplicate(indices, c),
    decreases d,
{
    if exists|k: int| 0 <= k < d && #[trigger] indices[k] == indices[k + 1] {
        let k = choose|k: int| 0 <= k < d && #[trigger] indices[k] == indices[k + 1];
        lemma_first_duplicate_exists(indices, k);
    } else {
        assert(is_first_duplicate(indices, d));
    }
}

/// Nothing is wrong with `indices` exactly when they ascend strictly and
/// lie in the buffer.
pub proof fn lemma_faultless(indices: Seq<usize>, len: nat)
    ensures
        index_fault(indices, len) is None <==> {
            &&& forall|k: int|
                0 <= k && k + 1 < indices.len() ==> #[trigger] indices[k] < indices[k + 1]
            &&& forall|k: int| 0 <= k < indices.len() ==> #[trigger] indices[k] < len
        },
{
    if index_fault(indices, len) is None {
        assert(non_decreasing(indices));
        assert forall|k: int| 0 <= k < indices.len() implies #[trigger] indices[k] < len by {
            if indices[k] >= len {
                lemma_first_out_of_bounds_exists(indices, len, k);
            }
        }
        assert forall|k: int| 0 <= k && k + 1 < indices.len() implies #[trigger] indices[k]
            < indices[k + 1] by {
            if indices[k] == indices[k + 1] {
                lemma_first_duplicate_exists(indices, k);
                let c = choose|c: int| is_first_duplicate(indices, c);
                assert(indices[c + 1] < len);
                assert(is_reported_duplicate(indices, len, c));
            }
        }
    }
    if (forall|k: int| 0 <= k && k + 1 < indices.len() ==> #[trigger] indices[k] < indices[k + 1])
        && (forall|k: int| 0 <= k < indices.len() ==> #[trigger] indices[k] < len) {
        lemma_no_fault(indices, len);
    }
}

/// The frames cut at faultless indices lie end to end: each is followed at
/// once by the next, the last one by the end of the buffer, and none is
/// empty.
pub proof fn lemma_indexed_frames_tile(buffer: Seq<u64>, indices: Seq<usize>, k: int)
    requires
        index_fault(indices, buffer.len()) is None,
        0 <= k < indices.len(),
    ensures
        ({
            let frames = indexed_frames(buffer, indices);
            &&& frames[k].is_slice_of(buffer)
            &&& frames[k].samples.len() > 0
            &&& k + 1 < indices.len() ==> frames[k].start_pos + frames[k].samples.len() == frames[k
                + 1].start_pos
            &&& k + 1 == indices.len() ==> frames[k].start_pos + frames[k].samples.len()
                == buffer.len()
        }),
{
    lemma_faultless(indices, buffer.len());
    if k + 1 < indices.len() {
        assert(indices[k] < indices[k + 1]);
        assert(indices[k + 1] < buffer.len());
    }
}

/// A copy of the samples from `from` up to `to`.
pub(crate) fn copy_range(samples: &Vec<u64>, from: usize, to: usize) -> (out: Vec<u64>)
    requires
        from <= to <= samples.len(),
    ensures
        out@ == samples@.subrange(from as int, to as int),
{
    slice_to_vec(slice_subrange(samples.as_slice(), from, to))
}

impl AudioData {
    /// Returns a vector of audio frames from the samples in the AudioData struct
    ///
    /// # Arguments
    ///
    /// * `frame_width` - Number of samples each frame should contain
    /// * `step_size` - Interval between starting position of consecutive frames
    /// * `start` - (Optional) First frame should start at this sample
    /// * `end` - (Optional) Final frame should end at, but not include, this sample
    pub fn get_frames(
        &self,
        frame_width: usize,
        step_size: usize,
        start: Option<usize>,
        end: Option<usize>,
    ) -> (frames: Vec<Frame>)
        requires
            frame_width > 0,
            step_size > 0,
        ensures
            frames.len() == frame_count(
                frame_width as int,
                step_size as int,
                first_position(start),
                end_position(self.samples@.len(), end),
            ),
            frames.deep_view() == fixed_frames(
                self.samples@,
                frame_width as int,
                step_size as int,
                first_position(start),
                end_position(self.samples@.len(), end),
            ),
            forall|k: int| 0 <= k < frames.len() ==> (#[trigger] frames[k])@.is_slice_of(self.samples@),
    {
        let len: usize = self.samples.len();
        let first: usize = match start {
            Some(s) => s,
            None => 0,
        };
        let last: usize = match end {
            Some(e) => if e < len { e } else { len },
            None => len,
        };
        let ghost expected = fixed_frames(
            self.samples@,
            frame_width as int,
            step_size as int,
            first as int,
            last as int,
        );
        let mut frames: Vec<Frame> = Vec::new();
        if last < first || last - first < frame_width {
            assert(frames.deep_view() =~= expected);
            return frames;
        }
        let room: usize = last - first - frame_width;
        let count: usize = room / step_size + 1;
        let mut k: usize = 0;
        while k < count
            invariant
                0 <= k <= count,
                step_size > 0,
                count == room / step_size + 1,
                room == last - first - frame_width,
                first + frame_width <= last <= len,
                len == self.samples.len(),
                expected.len() == count,
                expected == fixed_frames(
                    self.samples@,
                    frame_width as int,
                    step_size as int,
                    first as int,
                    last as int,
                ),
                frames.len() == k,
                forall|j: int| 0 <= j < k ==> (#[trigger] frames[j])@ == expected[j],
                forall|j: int| 0 <= j < k ==> (#[trigger] frames[j])@.is_slice_of(self.samples@),
            decreases count - k,
        {
            assert(k * step_size <= room) by (nonlinear_arith)
                requires
                    k <= room / step_size,
                    step_size > 0,
                    room >= 0,
            ;
            let pos: usize = first + k * step_size;
            let frame = Frame { start_pos: pos, samples: copy_range(&self.samples, pos, pos + frame_width) };
            assert(frame@ == expected[k as int]);
            frames.push(frame);
            k += 1;
        }
        assert(frames.deep_view() =~= expected);
        frames
    }

    /// Gets the audio frames which start at the given indices
    ///
    /// Returns a vector of audio frames wrapped in Ok if there are no errors,
    /// and an Error otherwise.
    pub fn get_frames_by_index(&self, indices: Vec<usize>) -> (result: Result<Vec<Frame>, FrameError>)
        ensures
            match result {
                Ok(frames) => {
                    &&& index_fault(indices@, self.samples@.len()) is None
                    &&& frames.len() == indices.len()
                    &&& frames.deep_view() == indexed_frames(self.samples@, indices@)
                    &&& forall|k: int|
                        0 <= k < frames.len() ==> (#[trigger] frames[k])@.is_slice_of(self.samples@)
                },
                Err(e) => index_fault(indices@, self.samples@.len()) == Some(e),
            },
    {
        let n: usize = indices.len();
        let len: usize = self.samples.len();
        // Check that indices vector is sorted in ascending order
        let mut w: usize = 1;
        while w < n
            invariant
                n == indices.len(),
                1 <= w,
                forall|i: int| 0 <= i && i + 1 < w && i + 1 < n ==> #[trigger] indices[i] <= indices[i + 1],
            decreases n - w,
        {
            if indices[w - 1] > indices[w] {
                assert(!non_decreasing(indices@));
                return Err(FrameError::FrameIndicesNotSorted);
            }
            w += 1;
        }
        assert(non_decreasing(indices@));

        let ghost expected = indexed_frames(self.samples@, indices@);
        let mut frames: Vec<Frame> = Vec::new();
        let mut i: usize = 0;
        while i < n
            invariant
                n == indices.len(),
                len == self.samples.len(),
                0 <= i <= n,
                non_decreasing(indices@),
                expected == indexed_frames(self.samples@, indices@),
                i > 0 ==> forall|k: int| 0 <= k <= i && k < n ==> #[trigger] indices[k] < len,
                forall|k: int| 0 <= k < i && k + 1 < n ==> #[trigger] indices[k] != indices[k + 1],
                frames.len() == i,
                forall|j: int| 0 <= j < i ==> (#[trigger] frames[j])@ == expected[j],
                forall|j: int| 0 <= j < i ==> (#[trigger] frames[j])@.is_slice_of(self.samples@),
            decreases n - i,
        {
            if indices[i] >= len {
                proof {
                    lemma_fault_out_of_bounds(indices@, len as nat, 0);
                }
                return Err(FrameError::FrameIndexOutOfBounds(indices[i]));
            }
            if i < n - 1 {
                if indices[i + 1] >= len {
                    proof {
                        assert forall|k: int| 0 <= k < i + 1 implies #[trigger] indices@[k] < len by {
                            lemma_non_decreasing_far(indices@, k, i as int);
                        }
                        lemma_fault_out_of_bounds(indices@, len as nat, i as int + 1);
                    }
                    return Err(FrameError::FrameIndexOutOfBounds(indices[i + 1]));
                }
                if indices[i] == indices[i + 1] {
                    proof {
                        lemma_fault_duplicate(indices@, len as nat, i as int);
                    }
                    return Err(FrameError::DuplicateFrameIndices(indices[i], i, i + 1));
                }
                assert(indices@[i as int] <= indices@[i as int + 1]);
                let frame = Frame {
                    start_pos: indices[i],
                    samples: copy_range(&self.samples, indices[i], indices[i + 1]),
                };
                assert(frame@ == expected[i as int]);
                frames.push(frame);
            } else {
                // Push the frame starting at the last index
                let frame = Frame {
                    start_pos: indices[i],
                    samples: copy_range(&self.samples, indices[i], len),
                };
                assert(frame@ == expected[i as int]);
                frames.push(frame);
            }
            i += 1;
        }
        proof {
            lemma_no_fault(indices@, len as nat);
            assert(frames.deep_view() =~= expected);
        }
        Ok(frames)
    }
}

} // verus!
