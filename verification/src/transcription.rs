//! From a sample buffer to a sequence of notes.
//!
//! The pipeline alternates between arithmetic on the samples and decisions
//! about them. The decisions are made here: a [`Transcription`] says which
//! arithmetic is due and goes on when it is handed the result, and each
//! stage is a function of its own. Every number that a stage compares is
//! handed to it as a bit pattern.

use vstd::prelude::*;
use vstd::string::StringExecFns;
use crate::text::{decimal, push_decimal, push_signed_decimal, signed_decimal};
use crate::audio_utils::{
    copy_range, fixed_frames, indexed_frames, lemma_no_fault, AudioData, AudioDataView, Frame,
    FrameView,
};
use crate::ieee754::{
    at_most, ge, gt, largest_magnitude, lemma_max_magnitude, less_than, magnitude, max_magnitude,
    EPSILON, ZERO,
};
use crate::pitch_detection::{Mpm, PitchDetector};

verus! {

/// Width (in samples) of the frames whose peaks form the amplitude envelope.
pub const ONSET_FRAME_WIDTH: usize = 1600;

/// The largest number of samples that a note's frame keeps.
pub const MAX_FRAME_WIDTH: usize = 8192;

/// The rise of the envelope that an onset must exceed: 0.125.
pub const ONSET_THRESHOLD: u64 = 0x3fc0_0000_0000_0000;

/// The part of the whole signal's energy that a frame must reach: 0.2, the
/// number nearest to it.
pub const SILENCE_RATIO: u64 = 0x3fc9_9999_9999_999a;

/// The coefficient of the pitch detector: 0.7, the number nearest to it.
pub const MPM_THRESHOLD: u64 = 0x3fe6_6666_6666_6666;

/// Struct representing a musical note
#[derive(Clone, Copy, Debug, PartialEq, Eq)]
pub struct Note {
    /// Name of the note, including its pitch and octave
    pub name: NoteName,
    /// Sample at which the note starts playing
    pub start: usize,
    /// Duration of the note (in samples)
    pub duration: usize,
}

/// Enum representing the name of a musical note, consisting of the note's
/// letter name and octave
#[derive(Clone, Copy, Debug, PartialEq, Eq)]
pub enum NoteName {
    A(i32),
    ASharp(i32),
    B(i32),
    C(i32),
    CSharp(i32),
    D(i32),
    DSharp(i32),
    E(i32),
    F(i32),
    FSharp(i32),
    G(i32),
    GSharp(i32),
}

/// A frame's place in the audio and the pitch (in Hz) found in it, if any.
#[derive(Clone, Copy, Debug, PartialEq, Eq)]
pub struct PitchFrame {
    pub start_pos: usize,
    pub frame_width: usize,
    pub pitch: Option<u64>,
}

/// Struct for music transcription functionalities
pub struct Transcriber;

/// A transcription under way. Between two decisions of the library lies
/// arithmetic on the samples; each state but the last names the arithmetic
/// that is due and holds what the library goes on with.
#[derive(Debug, PartialEq)]
pub enum Transcription {
    /// Due: each sample of `audio_data` divided by `peak`.
    Normalizing { audio_data: AudioData, peak: u64 },
    /// Due: for each value of `envelope` but the first how far it lies above
    /// the value before it.
    Rising { audio_data: AudioData, envelope: Vec<u64> },
    /// Due: the root mean square of each of `frames`, and as the floor the
    /// root mean square of all samples of `audio_data` times `ratio`.
    Weighing { audio_data: AudioData, frames: Vec<Frame>, ratio: u64 },
    /// Due: the pitch that `detector` finds in each of `frames`.
    Listening { detector: Mpm, frames: Vec<Frame> },
    /// Due: for each of `pitch_frames` with a pitch `p` (in Hz) the note
    /// number `floor(12 * log2(p / 440) + 48.5)`, any number for the others.
    Naming { pitch_frames: Vec<PitchFrame> },
    /// Nothing is due: these are the notes.
    Finished { notes: Vec<Note> },
}

/// The result of the arithmetic that a transcription asked for.
#[derive(Debug, PartialEq)]
pub enum Answer {
    /// The samples, each divided by the peak
    Quotients(Vec<u64>),
    /// The rise of the envelope towards each of its values but the first
    Differences(Vec<u64>),
    /// The floor of the energy, and the energy of each frame
    Energies { floor: u64, frames: Vec<u64> },
    /// The pitch (in Hz) of each frame, `None` where none was detected
    Pitches(Vec<Option<u64>>),
    /// The note number of each frame
    NoteNumbers(Vec<i32>),
}

/// What a transcription under way is.
pub enum TranscriptionView {
    Normalizing { audio_data: AudioDataView, peak: u64 },
    Rising { audio_data: AudioDataView, envelope: Seq<u64> },
    Weighing { audio_data: AudioDataView, frames: Seq<FrameView>, ratio: u64 },
    Listening { threshold: u64, sample_rate: u32, frames: Seq<FrameView> },
    Naming { pitch_frames: Seq<PitchFrame> },
    Finished { notes: Seq<Note> },
}

/// What an answer is.
pub enum AnswerView {
    Quotients(Seq<u64>),
    Differences(Seq<u64>),
    Energies { floor: u64, frames: Seq<u64> },
    Pitches(Seq<Option<u64>>),
    NoteNumbers(Seq<i32>),
}

impl View for Transcription {
    type V = TranscriptionView;

    open spec fn view(&self) -> TranscriptionView {
        match *self {
            Transcription::Normalizing { audio_data, peak } => TranscriptionView::Normalizing {
                audio_data: audio_data@,
                peak,
            },
            Transcription::Rising { audio_data, envelope } => TranscriptionView::Rising {
                audio_data: audio_data@,
                envelope: envelope@,
            },
            Transcription::Weighing { audio_data, frames, ratio } => TranscriptionView::Weighing {
                audio_data: audio_data@,
                frames: frames.deep_view(),
                ratio,
            },
            Transcription::Listening { detector, frames } => TranscriptionView::Listening {
                threshold: detector.threshold(),
                sample_rate: detector.sample_rate(),
                frames: frames.deep_view(),
            },
            Transcription::Naming { pitch_frames } => TranscriptionView::Naming {
                pitch_frames: pitch_frames@,
            },
            Transcription::Finished { notes } => TranscriptionView::Finished { notes: notes@ },
        }
    }
}

impl View for Answer {
    type V = AnswerView;

    open spec fn view(&self) -> AnswerView {
        match *self {
            Answer::Quotients(quotients) => AnswerView::Quotients(quotients@),
            Answer::Differences(differences) => AnswerView::Differences(differences@),
            Answer::Energies { floor, frames } => AnswerView::Energies { floor, frames: frames@ },
            Answer::Pitches(pitches) => AnswerView::Pitches(pitches@),
            Answer::NoteNumbers(note_numbers) => AnswerView::NoteNumbers(note_numbers@),
        }
    }
}

/// The pitch class of a note number, counted in semitones from A.
pub open spec fn pitch_class(note_number: int) -> int {
    note_number % 12
}

/// The octave of a note number. The octave changes at C, nine semitones
/// below A; below the C of octave 0 the octaves are negative.
pub open spec fn octave(note_number: int) -> int {
    (note_number + 9) / 12
}

/// The letter of a pitch class, with its sharp sign.
pub open spec fn class_letter(class: int) -> Seq<char> {
    if class == 0 {
        "A"@
    } else if class == 1 {
        "A#"@
    } else if class == 2 {
        "B"@
    } else if class == 3 {
        "C"@
    } else if class == 4 {
        "C#"@
    } else if class == 5 {
        "D"@
    } else if class == 6 {
        "D#"@
    } else if class == 7 {
        "E"@
    } else if class == 8 {
        "F"@
    } else if class == 9 {
        "F#"@
    } else if class == 10 {
        "G"@
    } else {
        "G#"@
    }
}

/// The name of the note with the given number: number 48 is the A of
/// octave 4.
pub open spec fn note_name(note_number: int) -> NoteName {
    let o = octave(note_number) as i32;
    let class = pitch_class(note_number);
    if class == 0 {
        NoteName::A(o)
    } else if class == 1 {
        NoteName::ASharp(o)
    } else if class == 2 {
        NoteName::B(o)
    } else if class == 3 {
        NoteName::C(o)
    } else if class == 4 {
        NoteName::CSharp(o)
    } else if class == 5 {
        NoteName::D(o)
    } else if class == 6 {
        NoteName::DSharp(o)
    } else if class == 7 {
        NoteName::E(o)
    } else if class == 8 {
        NoteName::F(o)
    } else if class == 9 {
        NoteName::FSharp(o)
    } else if class == 10 {
        NoteName::G(o)
    } else {
        NoteName::GSharp(o)
    }
}

/// The number that every sample is divided by before the analysis: the
/// largest magnitude in the buffer. A buffer whose largest magnitude does
/// not exceed the machine epsilon is silent and has none.
pub open spec fn normalization(samples: Seq<u64>) -> Option<u64> {
    if less_than(EPSILON, max_magnitude(samples)) {
        Some(max_magnitude(samples))
    } else {
        None
    }
}

/// How many whole onset frames a buffer of `len` samples holds.
pub open spec fn onset_frame_count(len: nat) -> int {
    len as int / ONSET_FRAME_WIDTH as int
}

/// The amplitude envelope: the largest magnitude of each onset frame.
pub open spec fn envelope_of(buffer: Seq<u64>) -> Seq<u64> {
    Seq::new(
        onset_frame_count(buffer.len()) as nat,
        |k: int|
            max_magnitude(
                buffer.subrange(k * ONSET_FRAME_WIDTH as int, (k + 1) * ONSET_FRAME_WIDTH as int),
            ),
    )
}

/// Whether onset frame `i` starts a note: the envelope rose by more than the
/// threshold on the way to it, and the frame before it starts none.
pub open spec fn emits(differences: Seq<u64>, i: int) -> bool
    decreases i,
{
    if 0 <= i < differences.len() && less_than(ONSET_THRESHOLD, differences[i]) {
        i == 0 || !emits(differences, i - 1)
    } else {
        false
    }
}

/// The sample at the centre of onset frame `i`.
pub open spec fn frame_centre(i: int) -> int {
    ONSET_FRAME_WIDTH as int * i + ONSET_FRAME_WIDTH as int / 2
}

/// The onset frame in which the sample at `position` lies.
pub open spec fn frame_of(position: usize) -> int {
    position as int / ONSET_FRAME_WIDTH as int
}

/// The centres of those among the first `frames` onset frames that start a
/// note, in ascending order.
pub open spec fn onset_positions(differences: Seq<u64>, frames: int) -> Seq<usize>
    decreases frames,
{
    if frames <= 0 {
        Seq::empty()
    } else if emits(differences, frames - 1) {
        onset_positions(differences, frames - 1).push(frame_centre(frames - 1) as usize)
    } else {
        onset_positions(differences, frames - 1)
    }
}

/// The frame cut down to its leading samples, `MAX_FRAME_WIDTH` at most.
pub open spec fn capped(frame: FrameView) -> FrameView {
    FrameView {
        start_pos: frame.start_pos,
        samples: if frame.samples.len() < MAX_FRAME_WIDTH {
            frame.samples
        } else {
            frame.samples.take(MAX_FRAME_WIDTH as int)
        },
    }
}

/// One frame for each onset, from the onset to the next, cut down to
/// `MAX_FRAME_WIDTH` samples.
pub open spec fn note_frames_of(buffer: Seq<u64>, differences: Seq<u64>) -> Seq<FrameView> {
    indexed_frames(
        buffer,
        onset_positions(differences, onset_frame_count(buffer.len())),
    ).map_values(|f: FrameView| capped(f))
}

/// The energy of the frame at position `k`: zero where none is given.
pub open spec fn energy_at(energies: Seq<u64>, k: int) -> u64 {
    if 0 <= k < energies.len() {
        energies[k]
    } else {
        ZERO
    }
}

/// Those among the first `n` frames whose energy is at least `floor`.
pub open spec fn audible_upto(
    frames: Seq<FrameView>,
    energies: Seq<u64>,
    floor: u64,
    n: int,
) -> Seq<FrameView>
    decreases n,
{
    if n <= 0 {
        Seq::empty()
    } else if at_most(floor, energy_at(energies, n - 1)) {
        audible_upto(frames, energies, floor, n - 1).push(frames[n - 1])
    } else {
        audible_upto(frames, energies, floor, n - 1)
    }
}

/// The notes of those among the first `n` frames in which a pitch was found.
pub open spec fn notes_upto(pitch_frames: Seq<PitchFrame>, note_numbers: Seq<i32>, n: int) -> Seq<
    Note,
>
    decreases n,
{
    if n <= 0 {
        Seq::empty()
    } else if pitch_frames[n - 1].pitch is Some {
        notes_upto(pitch_frames, note_numbers, n - 1).push(
            Note {
                name: note_name(note_numbers[n - 1] as int),
                start: pitch_frames[n - 1].start_pos,
                duration: pitch_frames[n - 1].frame_width,
            },
        )
    } else {
        notes_upto(pitch_frames, note_numbers, n - 1)
    }
}

/// Each frame's place and width with the pitch found in it.
pub open spec fn pitch_frames_of(frames: Seq<FrameView>, pitches: Seq<Option<u64>>) -> Seq<
    PitchFrame,
> {
    Seq::new(
        frames.len(),
        |k: int|
            PitchFrame {
                start_pos: frames[k].start_pos as usize,
                frame_width: frames[k].samples.len() as usize,
                pitch: pitches[k],
            },
    )
}

/// How far the envelope rises towards each onset frame: towards the first
/// by nothing, towards the others by what `rises` holds.
pub open spec fn differences_of(rises: Seq<u64>) -> Seq<u64> {
    seq![ZERO] + rises
}

/// How a transcription begins: a silent buffer is finished without notes,
/// any other is to be normalized by its peak.
pub open spec fn opening(audio_data: AudioDataView) -> TranscriptionView {
    match normalization(audio_data.samples) {
        Some(peak) => TranscriptionView::Normalizing { audio_data, peak },
        None => TranscriptionView::Finished { notes: Seq::empty() },
    }
}

/// Whether the answer is the one that the state asks for: of the right kind,
/// with one entry for each item of the request.
pub open spec fn fits(state: TranscriptionView, answer: AnswerView) -> bool {
    match (state, answer) {
        (
            TranscriptionView::Normalizing { audio_data, peak },
            AnswerView::Quotients(quotients),
        ) => quotients.len() == audio_data.samples.len(),
        (
            TranscriptionView::Rising { audio_data, envelope },
            AnswerView::Differences(rises),
        ) => rises.len() + 1 == envelope.len() || (rises.len() == 0 && envelope.len() == 0),
        (
            TranscriptionView::Weighing { audio_data, frames, ratio },
            AnswerView::Energies { floor, frames: energies },
        ) => energies.len() == frames.len(),
        (
            TranscriptionView::Listening { threshold, sample_rate, frames },
            AnswerView::Pitches(pitches),
        ) => pitches.len() == frames.len(),
        (TranscriptionView::Naming { pitch_frames }, AnswerView::NoteNumbers(note_numbers)) =>
            note_numbers.len() == pitch_frames.len(),
        _ => false,
    }
}

/// The state that follows on an answer. An answer that does not fit leaves
/// the transcription where it is.
pub open spec fn step(state: TranscriptionView, answer: AnswerView) -> TranscriptionView {
    if !fits(state, answer) {
        state
    } else {
        match (state, answer) {
            (
                TranscriptionView::Normalizing { audio_data, peak },
                AnswerView::Quotients(quotients),
            ) => TranscriptionView::Rising {
                audio_data: AudioDataView {
                    sample_rate: audio_data.sample_rate,
                    duration: audio_data.duration,
                    samples: quotients,
                },
                envelope: envelope_of(quotients),
            },
            (
                TranscriptionView::Rising { audio_data, envelope },
                AnswerView::Differences(rises),
            ) => TranscriptionView::Weighing {
                audio_data,
                frames: note_frames_of(audio_data.samples, differences_of(rises)),
                ratio: SILENCE_RATIO,
            },
            (
                TranscriptionView::Weighing { audio_data, frames, ratio },
                AnswerView::Energies { floor, frames: energies },
            ) => TranscriptionView::Listening {
                threshold: MPM_THRESHOLD,
                sample_rate: audio_data.sample_rate,
                frames: audible_upto(frames, energies, floor, frames.len() as int),
            },
            (
                TranscriptionView::Listening { threshold, sample_rate, frames },
                AnswerView::Pitches(pitches),
            ) => TranscriptionView::Naming { pitch_frames: pitch_frames_of(frames, pitches) },
            (
                TranscriptionView::Naming { pitch_frames },
                AnswerView::NoteNumbers(note_numbers),
            ) => TranscriptionView::Finished {
                notes: notes_upto(pitch_frames, note_numbers, pitch_frames.len() as int),
            },
            _ => state,
        }
    }
}

/// The notes that a transcription ends with, given the results of the
/// arithmetic on its way.
pub open spec fn transcribed(
    quotients: Seq<u64>,
    rises: Seq<u64>,
    floor: u64,
    energies: Seq<u64>,
    pitches: Seq<Option<u64>>,
    note_numbers: Seq<i32>,
) -> Seq<Note> {
    let frames = note_frames_of(quotients, differences_of(rises));
    let audible = audible_upto(frames, energies, floor, frames.len() as int);
    let pitch_frames = pitch_frames_of(audible, pitches);
    notes_upto(pitch_frames, note_numbers, pitch_frames.len() as int)
}

/// Onsets ascend strictly, and each is the centre of an onset frame that
/// starts a note.
pub proof fn lemma_onset_positions(differences: Seq<u64>, frames: int)
    requires
        frames * ONSET_FRAME_WIDTH <= usize::MAX,
    ensures
        ({
            let onsets = onset_positions(differences, frames);
            &&& forall|a: int, b: int| 0 <= a < b < onsets.len() ==> onsets[a] < onsets[b]
            &&& forall|a: int|
                0 <= a < onsets.len() ==> {
                    &&& (#[trigger] onsets[a]) as int == frame_centre(frame_of(onsets[a]))
                    &&& 0 <= frame_of(onsets[a]) < frames
                    &&& emits(differences, frame_of(onsets[a]))
                }
            &&& forall|i: int|
                0 <= i < frames && emits(differences, i) ==> onsets.contains(
                    #[trigger] frame_centre(i) as usize,
                )
        }),
    decreases frames,
{
    if frames > 0 {
        lemma_onset_positions(differences, frames - 1);
        let before = onset_positions(differences, frames - 1);
        let onsets = onset_positions(differences, frames);
        if emits(differences, frames - 1) {
            let last = frame_centre(frames - 1) as usize;
            assert(onsets == before.push(last));
            assert forall|a: int, b: int| 0 <= a < b < onsets.len() implies onsets[a] < onsets[b] by {
                if b < before.len() {
                    assert(before[a] < before[b]);
                } else {
                    assert(onsets[a] == before[a]);
                    assert(frame_of(before[a]) < frames - 1);
                }
            }
            assert forall|i: int| 0 <= i < frames && emits(differences, i) implies onsets.contains(
                #[trigger] frame_centre(i) as usize,
            ) by {
                if i < frames - 1 {
                    let k = choose|k: int| 0 <= k < before.len() && before[k] == frame_centre(i) as usize;
                    assert(onsets[k] == frame_centre(i) as usize);
                } else {
                    assert(onsets[onsets.len() - 1] == frame_centre(i) as usize);
                }
            }
        }
    }
}

/// A buffer of zeros is silent: it has no normalization peak.
pub proof fn lemma_silent_buffer(samples: Seq<u64>)
    requires
        forall|i: int| 0 <= i < samples.len() ==> magnitude(#[trigger] samples[i]) == 0,
    ensures
        normalization(samples) is None,
{
    lemma_max_magnitude(samples);
}

/// The transcription of a buffer of zeros is finished at once, without a
/// note.
pub proof fn lemma_silence_has_no_notes(audio_data: AudioDataView)
    requires
        forall|i: int|
            0 <= i < audio_data.samples.len() ==> magnitude(#[trigger] audio_data.samples[i]) == 0,
    ensures
        opening(audio_data) == (TranscriptionView::Finished { notes: Seq::empty() }),
{
    lemma_silent_buffer(audio_data.samples);
}

/// A transcription of a buffer that is not silent is finished by five
/// answers that fit, and its notes are those of `transcribed`.
pub proof fn lemma_transcription(
    audio_data: AudioDataView,
    quotients: Seq<u64>,
    rises: Seq<u64>,
    floor: u64,
    energies: Seq<u64>,
    pitches: Seq<Option<u64>>,
    note_numbers: Seq<i32>,
)
    requires
        normalization(audio_data.samples) is Some,
        quotients.len() == audio_data.samples.len(),
        rises.len() + 1 == envelope_of(quotients).len() || (rises.len() == 0 && envelope_of(
            quotients,
        ).len() == 0),
        energies.len() == note_frames_of(quotients, differences_of(rises)).len(),
        pitches.len() == audible_upto(
            note_frames_of(quotients, differences_of(rises)),
            energies,
            floor,
            energies.len() as int,
        ).len(),
        note_numbers.len() == pitches.len(),
    ensures
        step(
            step(
                step(
                    step(
                        step(opening(audio_data), AnswerView::Quotients(quotients)),
                        AnswerView::Differences(rises),
                    ),
                    AnswerView::Energies { floor, frames: energies },
                ),
                AnswerView::Pitches(pitches),
            ),
            AnswerView::NoteNumbers(note_numbers),
        ) == (TranscriptionView::Finished {
            notes: transcribed(quotients, rises, floor, energies, pitches, note_numbers),
        }),
{
}

/// The frames lie in a buffer of `len` samples in ascending order of their
/// starting positions, and each holds at least one sample and at most
/// `MAX_FRAME_WIDTH`.
pub open spec fn in_temporal_order(frames: Seq<FrameView>, len: nat) -> bool {
    &&& forall|a: int, b: int|
        0 <= a < b < frames.len() ==> (#[trigger] frames[a]).start_pos < (
        #[trigger] frames[b]).start_pos
    &&& forall|a: int|
        0 <= a < frames.len() ==> {
            &&& 0 <= (#[trigger] frames[a]).start_pos
            &&& frames[a].start_pos + frames[a].samples.len() <= len
            &&& 0 < frames[a].samples.len() <= MAX_FRAME_WIDTH
        }
}

/// The frames cut for the notes lie in the buffer in temporal order.
pub proof fn lemma_note_frames_in_order(buffer: Seq<u64>, differences: Seq<u64>)
    requires
        buffer.len() <= usize::MAX,
    ensures
        in_temporal_order(note_frames_of(buffer, differences), buffer.len()),
{
    let count = onset_frame_count(buffer.len());
    let onsets = onset_positions(differences, count);
    assert(ONSET_FRAME_WIDTH == 1600);
    assert(count * ONSET_FRAME_WIDTH <= buffer.len());
    lemma_onset_positions(differences, count);
    assert forall|k: int| 0 <= k < onsets.len() implies #[trigger] onsets[k] < buffer.len() by {
        assert(frame_of(onsets[k]) < count);
    }
    lemma_no_fault(onsets, buffer.len());
    let whole = indexed_frames(buffer, onsets);
    let frames = note_frames_of(buffer, differences);
    assert forall|a: int| 0 <= a < frames.len() implies {
        &&& 0 <= (#[trigger] frames[a]).start_pos
        &&& frames[a].start_pos + frames[a].samples.len() <= buffer.len()
        &&& 0 < frames[a].samples.len() <= MAX_FRAME_WIDTH
    } by {
        assert(frames[a] == capped(whole[a]));
        if a + 1 < onsets.len() {
            assert(onsets[a] < onsets[a + 1]);
        }
    }
    assert forall|a: int, b: int| 0 <= a < b < frames.len() implies (#[trigger] frames[a]).start_pos
        < (#[trigger] frames[b]).start_pos by {
        assert(frames[a] == capped(whole[a]));
        assert(frames[b] == capped(whole[b]));
    }
}

/// The frames that are kept are frames that were there, in the order they
/// were in.
pub proof fn lemma_audible_in_order(
    frames: Seq<FrameView>,
    energies: Seq<u64>,
    floor: u64,
    n: int,
    len: nat,
)
    requires
        in_temporal_order(frames, len),
        n <= frames.len(),
    ensures
        in_temporal_order(audible_upto(frames, energies, floor, n), len),
        forall|a: int|
            0 <= a < audible_upto(frames, energies, floor, n).len() ==> exists|j: int|
                0 <= j < n && #[trigger] audible_upto(frames, energies, floor, n)[a] == frames[j],
    decreases n,
{
    if n > 0 {
        lemma_audible_in_order(frames, energies, floor, n - 1, len);
        let before = audible_upto(frames, energies, floor, n - 1);
        let kept = audible_upto(frames, energies, floor, n);
        if at_most(floor, energy_at(energies, n - 1)) {
            assert(kept == before.push(frames[n - 1]));
            assert forall|a: int| 0 <= a < kept.len() implies exists|j: int|
                0 <= j < n && #[trigger] kept[a] == frames[j] by {
                if a < before.len() {
                    let j = choose|j: int| 0 <= j < n - 1 && before[a] == frames[j];
                    assert(kept[a] == frames[j]);
                } else {
                    assert(kept[a] == frames[n - 1]);
                }
            }
            assert forall|a: int, b: int| 0 <= a < b < kept.len() implies (
            #[trigger] kept[a]).start_pos < (#[trigger] kept[b]).start_pos by {
                let j = choose|j: int| 0 <= j < n - 1 && before[a] == frames[j];
                if b < before.len() {
                    assert(before[a].start_pos < before[b].start_pos);
                } else {
                    assert(frames[j].start_pos < frames[n - 1].start_pos);
                }
            }
            assert forall|a: int| 0 <= a < kept.len() implies {
                &&& 0 <= (#[trigger] kept[a]).start_pos
                &&& kept[a].start_pos + kept[a].samples.len() <= len
                &&& 0 < kept[a].samples.len() <= MAX_FRAME_WIDTH
            } by {
                if a < before.len() {
                    assert(kept[a] == before[a]);
                }
            }
        }
    }
}

/// The notes named are those of frames with a pitch, in the order of the
/// frames.
pub proof fn lemma_notes_of_frames(pitch_frames: Seq<PitchFrame>, note_numbers: Seq<i32>, n: int)
    requires
        n <= pitch_frames.len(),
    ensures
        forall|a: int|
            0 <= a < notes_upto(pitch_frames, note_numbers, n).len() ==> exists|j: int|
                {
                    &&& 0 <= j < n
                    &&& pitch_frames[j].pitch is Some
                    &&& (#[trigger] notes_upto(pitch_frames, note_numbers, n)[a]).start
                        == pitch_frames[j].start_pos
                    &&& notes_upto(pitch_frames, note_numbers, n)[a].duration
                        == pitch_frames[j].frame_width
                    &&& notes_upto(pitch_frames, note_numbers, n)[a].name == note_name(
                        note_numbers[j] as int,
                    )
                    &&& forall|c: int|
                        0 <= c < a ==> exists|i: int|
                            0 <= i < j && (#[trigger] notes_upto(
                                pitch_frames,
                                note_numbers,
                                n,
                            )[c]).start == pitch_frames[i].start_pos
                },
    decreases n,
{
    if n > 0 {
        lemma_notes_of_frames(pitch_frames, note_numbers, n - 1);
        let before = notes_upto(pitch_frames, note_numbers, n - 1);
        let notes = notes_upto(pitch_frames, note_numbers, n);
        if pitch_frames[n - 1].pitch is Some {
            assert(notes == before.push(notes.last()));
            assert forall|a: int| 0 <= a < notes.len() implies exists|j: int|
                {
                    &&& 0 <= j < n
                    &&& pitch_frames[j].pitch is Some
                    &&& (#[trigger] notes[a]).start == pitch_frames[j].start_pos
                    &&& notes[a].duration == pitch_frames[j].frame_width
                    &&& notes[a].name == note_name(note_numbers[j] as int)
                    &&& forall|c: int|
                        0 <= c < a ==> exists|i: int|
                            0 <= i < j && (#[trigger] notes[c]).start == pitch_frames[i].start_pos
                } by {
                if a < before.len() {
                    assert(notes[a] == before[a]);
                    let j = choose|j: int|
                        {
                            &&& 0 <= j < n - 1
                            &&& pitch_frames[j].pitch is Some
                            &&& before[a].start == pitch_frames[j].start_pos
                            &&& before[a].duration == pitch_frames[j].frame_width
                            &&& before[a].name == note_name(note_numbers[j] as int)
                            &&& forall|c: int|
                                0 <= c < a ==> exists|i: int|
                                    0 <= i < j && (#[trigger] before[c]).start
                                        == pitch_frames[i].start_pos
                        };
                    assert forall|c: int| 0 <= c < a implies exists|i: int|
                        0 <= i < j && (#[trigger] notes[c]).start == pitch_frames[i].start_pos by {
                        assert(notes[c] == before[c]);
                    }
                } else {
                    let j = n - 1;
                    assert forall|c: int| 0 <= c < a implies exists|i: int|
                        0 <= i < j && (#[trigger] notes[c]).start == pitch_frames[i].start_pos by {
                        assert(notes[c] == before[c]);
                        let i = choose|i: int|
                            0 <= i < n - 1 && before[c].start == pitch_frames[i].start_pos;
                        assert(notes[c].start == pitch_frames[i].start_pos);
                    }
                }
            }
        }
    }
}

/// The notes of a transcription come in temporal order: their starting
/// positions ascend strictly, each note lies in the buffer, and none lasts
/// longer than `MAX_FRAME_WIDTH` samples.
pub proof fn lemma_notes_in_temporal_order(
    quotients: Seq<u64>,
    rises: Seq<u64>,
    floor: u64,
    energies: Seq<u64>,
    pitches: Seq<Option<u64>>,
    note_numbers: Seq<i32>,
)
    requires
        quotients.len() <= usize::MAX,
    ensures
        ({
            let notes = transcribed(quotients, rises, floor, energies, pitches, note_numbers);
            &&& forall|a: int, b: int|
                0 <= a < b < notes.len() ==> (#[trigger] notes[a]).start < (#[trigger] notes[b]).start
            &&& forall|a: int|
                0 <= a < notes.len() ==> {
                    &&& (#[trigger] notes[a]).start + notes[a].duration <= quotients.len()
                    &&& 0 < notes[a].duration <= MAX_FRAME_WIDTH
                }
        }),
{
    let frames = note_frames_of(quotients, differences_of(rises));
    let audible = audible_upto(frames, energies, floor, frames.len() as int);
    let pitch_frames = pitch_frames_of(audible, pitches);
    let notes = notes_upto(pitch_frames, note_numbers, pitch_frames.len() as int);
    lemma_note_frames_in_order(quotients, differences_of(rises));
    lemma_audible_in_order(frames, energies, floor, frames.len() as int, quotients.len());
    lemma_notes_of_frames(pitch_frames, note_numbers, pitch_frames.len() as int);
    assert forall|j: int| 0 <= j < pitch_frames.len() implies {
        &&& (#[trigger] pitch_frames[j]).start_pos == audible[j].start_pos
        &&& pitch_frames[j].frame_width == audible[j].samples.len()
    } by {
        assert(0 <= audible[j].start_pos);
        assert(audible[j].start_pos + audible[j].samples.len() <= quotients.len());
    }
    assert forall|a: int| 0 <= a < notes.len() implies {
        &&& (#[trigger] notes[a]).start + notes[a].duration <= quotients.len()
        &&& 0 < notes[a].duration <= MAX_FRAME_WIDTH
    } by {
        let j = choose|j: int|
            0 <= j < pitch_frames.len() && notes[a].start == pitch_frames[j].start_pos
                && notes[a].duration == pitch_frames[j].frame_width;
        assert(pitch_frames[j].start_pos == audible[j].start_pos);
    }
    assert forall|a: int, b: int| 0 <= a < b < notes.len() implies (#[trigger] notes[a]).start < (
    #[trigger] notes[b]).start by {
        let j = choose|j: int|
            {
                &&& 0 <= j < pitch_frames.len()
                &&& notes[b].start == pitch_frames[j].start_pos
                &&& forall|c: int|
                    0 <= c < b ==> exists|i: int|
                        0 <= i < j && (#[trigger] notes[c]).start == pitch_frames[i].start_pos
            };
        let i = choose|i: int| 0 <= i < j && notes[a].start == pitch_frames[i].start_pos;
        assert(pitch_frames[i].start_pos == audible[i].start_pos);
        assert(pitch_frames[j].start_pos == audible[j].start_pos);
        assert(audible[i].start_pos < audible[j].start_pos);
    }
}

/// Once finished a transcription stays as it is, whatever the answer.
pub proof fn lemma_finished_stays(notes: Seq<Note>, answer: AnswerView)
    ensures
        step(TranscriptionView::Finished { notes }, answer) == (TranscriptionView::Finished {
            notes,
        }),
{
}

/// An onset silences the frame behind it: no two frames in a row start a
/// note.
pub proof fn lemma_onsets_are_apart(differences: Seq<u64>, i: int)
    ensures
        !(emits(differences, i) && emits(differences, i + 1)),
{
}

/// Twelve semitones up is the same pitch class, one octave higher.
pub proof fn lemma_octave_up(note_number: int)
    ensures
        pitch_class(note_number + 12) == pitch_class(note_number),
        octave(note_number + 12) == octave(note_number) + 1,
{
}

/// A name holds the octave of its note number, whatever the number, and
/// the letter of its pitch class.
pub proof fn lemma_note_name(note_number: i32)
    ensures
        note_name(note_number as int).octave() == octave(note_number as int),
        0 <= pitch_class(note_number as int) < 12,
        note_name(note_number as int).letter() == class_letter(pitch_class(note_number as int)),
{
}

/// Where the envelope never rises by more than the threshold there is no
/// onset among any number of frames.
pub proof fn lemma_flat_envelope(differences: Seq<u64>, frames: int)
    requires
        forall|i: int|
            0 <= i < differences.len() ==> !less_than(ONSET_THRESHOLD, #[trigger] differences[i]),
    ensures
        onset_positions(differences, frames).len() == 0,
    decreases frames,
{
    if frames > 0 {
        lemma_flat_envelope(differences, frames - 1);
    }
}

/// Where the envelope never rises by more than the threshold no frame is
/// cut for a note.
pub proof fn lemma_flat_envelope_has_no_frames(buffer: Seq<u64>, differences: Seq<u64>)
    requires
        forall|i: int|
            0 <= i < differences.len() ==> !less_than(ONSET_THRESHOLD, #[trigger] differences[i]),
    ensures
        note_frames_of(buffer, differences).len() == 0,
{
    lemma_flat_envelope(differences, onset_frame_count(buffer.len()));
}

impl NoteName {
    /// The letter of the note, with its sharp sign.
    pub open spec fn letter(self) -> Seq<char> {
        match self {
            NoteName::A(_) => "A"@,
            NoteName::ASharp(_) => "A#"@,
            NoteName::B(_) => "B"@,
            NoteName::C(_) => "C"@,
            NoteName::CSharp(_) => "C#"@,
            NoteName::D(_) => "D"@,
            NoteName::DSharp(_) => "D#"@,
            NoteName::E(_) => "E"@,
            NoteName::F(_) => "F"@,
            NoteName::FSharp(_) => "F#"@,
            NoteName::G(_) => "G"@,
            NoteName::GSharp(_) => "G#"@,
        }
    }

    /// The octave that the note lies in.
    pub open spec fn octave(self) -> i32 {
        match self {
            NoteName::A(o) => o,
            NoteName::ASharp(o) => o,
            NoteName::B(o) => o,
            NoteName::C(o) => o,
            NoteName::CSharp(o) => o,
            NoteName::D(o) => o,
            NoteName::DSharp(o) => o,
            NoteName::E(o) => o,
            NoteName::F(o) => o,
            NoteName::FSharp(o) => o,
            NoteName::G(o) => o,
            NoteName::GSharp(o) => o,
        }
    }

    /// The name as it is displayed: the letter, then the octave.
    pub open spec fn text(self) -> Seq<char> {
        self.letter() + signed_decimal(self.octave() as int)
    }

    /// Writes the name out for display, such as `A4`, `C#3` or `B-1`.
    pub fn to_string(&self) -> (s: String)
        ensures
            s@ == self.text(),
    {
        let (letter, octave): (&str, i32) = match *self {
            NoteName::A(octave) => ("A", octave),
            NoteName::ASharp(octave) => ("A#", octave),
            NoteName::B(octave) => ("B", octave),
            NoteName::C(octave) => ("C", octave),
            NoteName::CSharp(octave) => ("C#", octave),
            NoteName::D(octave) => ("D", octave),
            NoteName::DSharp(octave) => ("D#", octave),
            NoteName::E(octave) => ("E", octave),
            NoteName::F(octave) => ("F", octave),
            NoteName::FSharp(octave) => ("F#", octave),
            NoteName::G(octave) => ("G", octave),
            NoteName::GSharp(octave) => ("G#", octave),
        };
        let mut s = String::from_str(letter);
        push_signed_decimal(&mut s, octave as i64);
        s
    }

    /// Returns the name of the note with the given number, counted in
    /// semitones so that 48 is the A of 440 Hz
    pub fn from_note_number(note_num: i32) -> (name: NoteName)
        ensures
            name == note_name(note_num as int),
    {
        // 178956971 * 12 is the first multiple of 12 above the range of i32
        let lifted: i64 = note_num as i64 + 178956971 * 12;
        let note_index: i64 = lifted % 12;
        // Add 9 to the note number to account for the fact that the octave
        // changes at C notes.
        // For example, the note with note number 3 (C1) should be
        // in octave 1 instead of octave 0
        let octave: i32 = ((lifted + 9) / 12 - 178956971) as i32;
        if note_index == 0 {
            NoteName::A(octave)
        } else if note_index == 1 {
            NoteName::ASharp(octave)
        } else if note_index == 2 {
            NoteName::B(octave)
        } else if note_index == 3 {
            NoteName::C(octave)
        } else if note_index == 4 {
            NoteName::CSharp(octave)
        } else if note_index == 5 {
            NoteName::D(octave)
        } else if note_index == 6 {
            NoteName::DSharp(octave)
        } else if note_index == 7 {
            NoteName::E(octave)
        } else if note_index == 8 {
            NoteName::F(octave)
        } else if note_index == 9 {
            NoteName::FSharp(octave)
        } else if note_index == 10 {
            NoteName::G(octave)
        } else {
            NoteName::GSharp(octave)
        }
    }
}

impl Note {
    /// The note as it is displayed.
    pub open spec fn text(self) -> Seq<char> {
        "Note: "@ + self.name.text() + ", Start: "@ + decimal(self.start as nat) + ", Duration: "@
            + decimal(self.duration as nat)
    }

    /// Writes the note out for display.
    pub fn to_string(&self) -> (s: String)
        ensures
            s@ == self.text(),
    {
        let mut s = String::from_str("Note: ");
        let name = self.name.to_string();
        s.append(name.as_str());
        s.append(", Start: ");
        push_decimal(&mut s, self.start as u64);
        s.append(", Duration: ");
        push_decimal(&mut s, self.duration as u64);
        s
    }
}

impl Transcription {
    /// Takes the transcription on by the answer to what it asked for. An
    /// answer of another kind, or with another number of entries than was
    /// asked for, leaves it where it is.
    pub fn advance(self, answer: Answer) -> (next: Transcription)
        ensures
            next@ == step(self@, answer@),
    {
        match self {
            Transcription::Normalizing { audio_data, peak } => match answer {
                Answer::Quotients(quotients) => {
                    if quotients.len() == audio_data.samples.len() {
                        // Scale samples
                        let audio_data = AudioData {
                            sample_rate: audio_data.sample_rate,
                            duration: audio_data.duration,
                            samples: quotients,
                        };
                        let envelope = Transcriber::envelope(&audio_data);
                        Transcription::Rising { audio_data, envelope }
                    } else {
                        Transcription::Normalizing { audio_data, peak }
                    }
                },
                _ => Transcription::Normalizing { audio_data, peak },
            },
            Transcription::Rising { audio_data, envelope } => match answer {
                Answer::Differences(rises) => {
                    if (envelope.len() == 0 && rises.len() == 0) || (envelope.len() > 0
                        && rises.len() == envelope.len() - 1) {
                        // Get differences between consecutive elements of the envelope
                        let ghost given = rises@;
                        let mut rises = rises;
                        let mut differences: Vec<u64> = Vec::new();
                        differences.push(ZERO);
                        differences.append(&mut rises);
                        assert(differences@ =~= differences_of(given));
                        let frames = Transcriber::note_frames(&audio_data, &differences);
                        Transcription::Weighing { audio_data, frames, ratio: SILENCE_RATIO }
                    } else {
                        Transcription::Rising { audio_data, envelope }
                    }
                },
                _ => Transcription::Rising { audio_data, envelope },
            },
            Transcription::Weighing { audio_data, frames, ratio } => match answer {
                Answer::Energies { floor, frames: energies } => {
                    if energies.len() == frames.len() {
                        // Filter out silent frames
                        let frames = Transcriber::audible_frames(&frames, &energies, floor);
                        let detector = Mpm::new(MPM_THRESHOLD, audio_data.sample_rate);
                        Transcription::Listening { detector, frames }
                    } else {
                        Transcription::Weighing { audio_data, frames, ratio }
                    }
                },
                _ => Transcription::Weighing { audio_data, frames, ratio },
            },
            Transcription::Listening { detector, frames } => match answer {
                Answer::Pitches(pitches) => {
                    if pitches.len() == frames.len() {
                        let pitch_frames = Transcriber::pitch_frames(&frames, &pitches);
                        Transcription::Naming { pitch_frames }
                    } else {
                        Transcription::Listening { detector, frames }
                    }
                },
                _ => Transcription::Listening { detector, frames },
            },
            Transcription::Naming { pitch_frames } => match answer {
                Answer::NoteNumbers(note_numbers) => {
                    if note_numbers.len() == pitch_frames.len() {
                        let notes = Transcriber::name_notes(&pitch_frames, &note_numbers);
                        Transcription::Finished { notes }
                    } else {
                        Transcription::Naming { pitch_frames }
                    }
                },
                _ => Transcription::Naming { pitch_frames },
            },
            Transcription::Finished { notes } => Transcription::Finished { notes },
        }
    }
}

impl Transcriber {
    /// Finds the musical notes in the audio
    ///
    /// Returns the transcription as far as it gets without arithmetic on the
    /// samples: finished, without notes, for silent audio; to be advanced by
    /// answers for any other.
    pub fn get_notes(audio_data: AudioData) -> (transcription: Transcription)
        ensures
            transcription@ == opening(audio_data@),
    {
        match Transcriber::normalization_peak(&audio_data.samples) {
            Some(peak) => Transcription::Normalizing { audio_data, peak },
            None => Transcription::Finished { notes: Vec::new() },
        }
    }

    /// Finds the number by which the samples are to be divided, `None` for a
    /// silent buffer.
    pub fn normalization_peak(samples: &Vec<u64>) -> (peak: Option<u64>)
        ensures
            peak == normalization(samples@),
    {
        let abs_max_value: u64 = largest_magnitude(samples);
        if gt(abs_max_value, EPSILON) {
            Some(abs_max_value)
        } else {
            None
        }
    }

    /// Calculates the envelope of the audio: for each onset frame the
    /// largest magnitude among its samples.
    pub fn envelope(audio_data: &AudioData) -> (envelope: Vec<u64>)
        ensures
            envelope@ == envelope_of(audio_data.samples@),
    {
        let onset_frames = audio_data.get_frames(ONSET_FRAME_WIDTH, ONSET_FRAME_WIDTH, None, None);
        let ghost buffer = audio_data.samples@;
        let ghost expected = fixed_frames(
            buffer,
            ONSET_FRAME_WIDTH as int,
            ONSET_FRAME_WIDTH as int,
            0,
            buffer.len() as int,
        );
        assert(onset_frames.deep_view() == expected);
        let mut envelope: Vec<u64> = Vec::new();
        let mut k: usize = 0;
        while k < onset_frames.len()
            invariant
                0 <= k <= onset_frames.len(),
                onset_frames.deep_view() == expected,
                expected == fixed_frames(
                    buffer,
                    ONSET_FRAME_WIDTH as int,
                    ONSET_FRAME_WIDTH as int,
                    0,
                    buffer.len() as int,
                ),
                envelope.len() == k,
                forall|j: int| 0 <= j < k ==> #[trigger] envelope[j] == envelope_of(buffer)[j],
            decreases onset_frames.len() - k,
        {
            let peak: u64 = largest_magnitude(&onset_frames[k].samples);
            proof {
                assert(ONSET_FRAME_WIDTH == 1600);
                assert(onset_frames[k as int].samples@ == onset_frames.deep_view()[k as int].samples);
                assert(expected.len() == onset_frame_count(buffer.len()));
                assert(expected[k as int].samples == buffer.subrange(
                    k * ONSET_FRAME_WIDTH as int,
                    (k + 1) * ONSET_FRAME_WIDTH as int,
                ));
            }
            envelope.push(peak);
            k += 1;
        }
        assert(envelope@ =~= envelope_of(buffer)) by {
            assert(ONSET_FRAME_WIDTH == 1600);
            assert(expected.len() == onset_frame_count(buffer.len()));
        }
        envelope
    }

    /// Finds the onsets of notes in the audio
    ///
    /// `differences` holds, for each onset frame, how far the envelope rose
    /// from the frame before it (zero for the first). Returns a vector of
    /// indices at which note onsets were detected.
    pub fn get_onsets(audio_data: &AudioData, differences: &Vec<u64>) -> (onsets: Vec<usize>)
        ensures
            onsets@ == onset_positions(differences@, onset_frame_count(audio_data.samples@.len())),
    {
        let len: usize = audio_data.samples.len();
        let frames: usize = len / ONSET_FRAME_WIDTH;
        // Get the onsets
        let mut onsets: Vec<usize> = Vec::new();
        let mut add_onset: bool = true;
        let mut i: usize = 0;
        while i < frames
            invariant
                0 <= i <= frames,
                len == audio_data.samples@.len(),
                frames == onset_frame_count(len as nat),
                add_onset == !emits(differences@, i as int - 1),
                onsets@ == onset_positions(differences@, i as int),
            decreases frames - i,
        {
            if i < differences.len() && gt(differences[i], ONSET_THRESHOLD) && add_onset {
                assert(ONSET_FRAME_WIDTH == 1600);
                onsets.push(ONSET_FRAME_WIDTH * i + ONSET_FRAME_WIDTH / 2);
                add_onset = false;
            } else {
                add_onset = true;
            }
            i += 1;
        }
        onsets
    }

    /// Cuts the audio into one frame for each onset, from the onset to the
    /// next one, the last to the end of the audio, and limits frame width to
    /// `MAX_FRAME_WIDTH` samples.
    pub fn note_frames(audio_data: &AudioData, differences: &Vec<u64>) -> (frames: Vec<Frame>)
        ensures
            frames.deep_view() == note_frames_of(audio_data.samples@, differences@),
            forall|k: int|
                0 <= k < frames.len() ==> {
                    &&& (#[trigger] frames[k])@.is_slice_of(audio_data.samples@)
                    &&& 0 < frames[k].samples.len() <= MAX_FRAME_WIDTH
                },
    {
        let onsets = Transcriber::get_onsets(audio_data, differences);
        let ghost buffer = audio_data.samples@;
        let ghost positions = onsets@;
        proof {
            let count = onset_frame_count(buffer.len());
            assert(ONSET_FRAME_WIDTH == 1600);
            assert(count * ONSET_FRAME_WIDTH <= audio_data.samples.len());
            lemma_onset_positions(differences@, count);
            assert forall|k: int| 0 <= k < positions.len() implies #[trigger] positions[k]
                < buffer.len() by {
                assert(frame_of(positions[k]) < count);
            }
            lemma_no_fault(positions, buffer.len());
        }
        let whole = audio_data.get_frames_by_index(onsets).unwrap();
        let ghost expected = note_frames_of(buffer, differences@);
        proof {
            assert forall|j: int| 0 <= j < whole.len() implies (#[trigger] whole[j]).samples.len()
                > 0 by {
                assert(whole[j]@ == whole.deep_view()[j]);
                if j + 1 < positions.len() {
                    assert(positions[j] < positions[j + 1]);
                }
            }
        }
        let mut frames: Vec<Frame> = Vec::new();
        let mut k: usize = 0;
        while k < whole.len()
            invariant
                0 <= k <= whole.len(),
                buffer == audio_data.samples@,
                whole.deep_view() == indexed_frames(buffer, positions),
                expected == indexed_frames(buffer, positions).map_values(|f: FrameView| capped(f)),
                forall|j: int|
                    0 <= j < whole.len() ==> (#[trigger] whole[j])@.is_slice_of(buffer)
                        && whole[j].samples.len() > 0,
                frames.len() == k,
                forall|j: int| 0 <= j < k ==> (#[trigger] frames[j])@ == expected[j],
                forall|j: int|
                    0 <= j < k ==> {
                        &&& (#[trigger] frames[j])@.is_slice_of(buffer)
                        &&& 0 < frames[j].samples.len() <= MAX_FRAME_WIDTH
                    },
            decreases whole.len() - k,
        {
            let f = &whole[k];
            let frame_width: usize = if f.samples.len() < MAX_FRAME_WIDTH {
                f.samples.len()
            } else {
                MAX_FRAME_WIDTH
            };
            let frame = Frame {
                start_pos: f.start_pos,
                samples: copy_range(&f.samples, 0, frame_width),
            };
            proof {
                assert(whole[k as int]@ == whole.deep_view()[k as int]);
                assert(f.samples@.take(f.samples@.len() as int) =~= f.samples@);
                assert(frame@ == expected[k as int]);
                assert(whole[k as int]@.is_slice_of(buffer));
                assert(frame.samples@ =~= buffer.subrange(
                    f.start_pos as int,
                    f.start_pos + frame_width,
                ));
            }
            frames.push(frame);
            k += 1;
        }
        assert(frames.deep_view() =~= expected);
        frames
    }

    /// Filters out silent frames: keeps each frame whose energy is at least
    /// `floor`. `energies` holds the energy of each frame; a frame without
    /// an entry has none.
    pub fn audible_frames(frames: &Vec<Frame>, energies: &Vec<u64>, floor: u64) -> (kept: Vec<Frame>)
        ensures
            kept.deep_view() == audible_upto(
                frames.deep_view(),
                energies@,
                floor,
                frames.len() as int,
            ),
    {
        let mut kept: Vec<Frame> = Vec::new();
        let mut k: usize = 0;
        while k < frames.len()
            invariant
                0 <= k <= frames.len(),
                kept.deep_view() == audible_upto(frames.deep_view(), energies@, floor, k as int),
            decreases frames.len() - k,
        {
            let energy: u64 = if k < energies.len() {
                energies[k]
            } else {
                ZERO
            };
            if ge(energy, floor) {
                let f = &frames[k];
                let frame = Frame {
                    start_pos: f.start_pos,
                    samples: copy_range(&f.samples, 0, f.samples.len()),
                };
                let ghost before = kept.deep_view();
                proof {
                    assert(f.samples@.subrange(0, f.samples@.len() as int) =~= f.samples@);
                    assert(frame@ == frames.deep_view()[k as int]);
                }
                kept.push(frame);
                assert(kept.deep_view() =~= before.push(frame@));
            }
            k += 1;
        }
        kept
    }

    /// Notes for each frame its place, its width and the pitch found in it.
    pub fn pitch_frames(frames: &Vec<Frame>, pitches: &Vec<Option<u64>>) -> (pitch_frames: Vec<
        PitchFrame,
    >)
        requires
            pitches.len() == frames.len(),
        ensures
            pitch_frames@ == pitch_frames_of(frames.deep_view(), pitches@),
    {
        let mut pitch_frames: Vec<PitchFrame> = Vec::new();
        let mut k: usize = 0;
        while k < frames.len()
            invariant
                0 <= k <= frames.len(),
                pitches.len() == frames.len(),
                pitch_frames.len() == k,
                forall|j: int|
                    0 <= j < k ==> #[trigger] pitch_frames[j] == pitch_frames_of(
                        frames.deep_view(),
                        pitches@,
                    )[j],
            decreases frames.len() - k,
        {
            let f = &frames[k];
            assert(frames[k as int]@ == frames.deep_view()[k as int]);
            pitch_frames.push(
                PitchFrame {
                    start_pos: f.start_pos,
                    frame_width: f.samples.len(),
                    pitch: pitches[k],
                },
            );
            k += 1;
        }
        assert(pitch_frames@ =~= pitch_frames_of(frames.deep_view(), pitches@));
        pitch_frames
    }

    /// Gets the pitch in each frame
    ///
    /// Each frame keeps its place and its width. Its pitch is what a detector
    /// of the given kind returns when it is handed the samples of the frame.
    pub fn detect_pitches<D: PitchDetector + Clone>(detector: &D, frames: &Vec<Frame>) -> (pitches:
        Vec<PitchFrame>)
        ensures
            pitches.len() == frames.len(),
            forall|k: int|
                0 <= k < frames.len() ==> {
                    &&& (#[trigger] pitches[k]).start_pos == frames[k].start_pos
                    &&& pitches[k].frame_width == frames[k].samples.len()
                },
            forall|k: int|
                0 <= k < frames.len() ==> exists|d: D, s: Vec<u64>|
                    s@ == frames[k].samples@ && call_ensures(
                        D::get_pitch,
                        (d, s),
                        (#[trigger] pitches[k]).pitch,
                    ),
    {
        let mut pitches: Vec<PitchFrame> = Vec::new();
        let mut k: usize = 0;
        while k < frames.len()
            invariant
                0 <= k <= frames.len(),
                pitches.len() == k,
                forall|j: int|
                    0 <= j < k ==> {
                        &&& (#[trigger] pitches[j]).start_pos == frames[j].start_pos
                        &&& pitches[j].frame_width == frames[j].samples.len()
                    },
                forall|j: int|
                    0 <= j < k ==> exists|d: D, s: Vec<u64>|
                        s@ == frames[j].samples@ && call_ensures(
                            D::get_pitch,
                            (d, s),
                            (#[trigger] pitches[j]).pitch,
                        ),
            decreases frames.len() - k,
        {
            let f = &frames[k];
            let samples = copy_range(&f.samples, 0, f.samples.len());
            let listener = detector.clone();
            let ghost handed = (listener, samples);
            let pitch = listener.get_pitch(samples);
            proof {
                assert(f.samples@.subrange(0, f.samples@.len() as int) =~= f.samples@);
                assert(handed.1@ == frames[k as int].samples@ && call_ensures(
                    D::get_pitch,
                    (handed.0, handed.1),
                    pitch,
                ));
            }
            pitches.push(PitchFrame { start_pos: f.start_pos, frame_width: f.samples.len(), pitch });
            k += 1;
        }
        pitches
    }

    /// Excludes frames where no pitch was detected and names the note of each
    /// other frame: `note_numbers` holds, for each frame with a pitch, the
    /// number of the note nearest to it.
    pub fn name_notes(pitch_frames: &Vec<PitchFrame>, note_numbers: &Vec<i32>) -> (notes: Vec<Note>)
        requires
            note_numbers.len() == pitch_frames.len(),
        ensures
            notes@ == notes_upto(pitch_frames@, note_numbers@, pitch_frames.len() as int),
    {
        let mut notes: Vec<Note> = Vec::new();
        let mut k: usize = 0;
        while k < pitch_frames.len()
            invariant
                0 <= k <= pitch_frames.len(),
                note_numbers.len() == pitch_frames.len(),
                notes@ == notes_upto(pitch_frames@, note_numbers@, k as int),
            decreases pitch_frames.len() - k,
        {
            let pitch_frame = pitch_frames[k];
            if pitch_frame.pitch.is_some() {
                notes.push(
                    Note {
                        name: NoteName::from_note_number(note_numbers[k]),
                        start: pitch_frame.start_pos,
                        duration: pitch_frame.frame_width,
                    },
                );
            }
            k += 1;
        }
        notes
    }
}

} // verus!
