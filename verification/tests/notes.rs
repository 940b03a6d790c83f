use olscorer::errors::{FrameError, WavFileError};
use olscorer::text::{push_decimal, push_signed_decimal};
use olscorer::transcription::{Note, NoteName, PitchFrame, Transcriber};

/// The number of the note nearest to the pitch, as the naming rule has it.
fn note_number(pitch: f64) -> i32 {
    (12.0 * (pitch / 440.0).log(2.0) + 48.5).floor() as i32
}

#[test]
fn note_numbers_map_to_names() {
    assert_eq!(NoteName::A(4), NoteName::from_note_number(48));
    assert_eq!(NoteName::ASharp(4), NoteName::from_note_number(49));
    assert_eq!(NoteName::B(4), NoteName::from_note_number(50));
    assert_eq!(NoteName::C(5), NoteName::from_note_number(51));
    assert_eq!(NoteName::CSharp(5), NoteName::from_note_number(52));
    assert_eq!(NoteName::D(5), NoteName::from_note_number(53));
    assert_eq!(NoteName::DSharp(5), NoteName::from_note_number(54));
    assert_eq!(NoteName::E(5), NoteName::from_note_number(55));
    assert_eq!(NoteName::F(5), NoteName::from_note_number(56));
    assert_eq!(NoteName::FSharp(5), NoteName::from_note_number(57));
    assert_eq!(NoteName::G(5), NoteName::from_note_number(58));
    assert_eq!(NoteName::GSharp(5), NoteName::from_note_number(59));
    assert_eq!(NoteName::A(5), NoteName::from_note_number(60));
    // the octave changes at C
    assert_eq!(NoteName::A(0), NoteName::from_note_number(0));
    assert_eq!(NoteName::B(0), NoteName::from_note_number(2));
    assert_eq!(NoteName::C(1), NoteName::from_note_number(3));
    assert_eq!(NoteName::GSharp(1), NoteName::from_note_number(11));
}

#[test]
fn note_numbers_below_zero_wrap_into_the_twelve_classes() {
    assert_eq!(NoteName::GSharp(0), NoteName::from_note_number(-1));
    assert_eq!(NoteName::C(0), NoteName::from_note_number(-9));
    assert_eq!(NoteName::B(-1), NoteName::from_note_number(-10));
    assert_eq!(NoteName::A(-1), NoteName::from_note_number(-12));
    assert_eq!(NoteName::GSharp(-1), NoteName::from_note_number(-13));
    assert_eq!(NoteName::C(-1), NoteName::from_note_number(-21));
    assert_eq!(NoteName::B(-2), NoteName::from_note_number(-22));
    assert_eq!(NoteName::A(-178956970), NoteName::from_note_number(i32::MIN + 8));
}

#[test]
fn octaves_below_zero_are_negative() {
    // the A of 13.75 Hz lies an octave below the A of 27.5 Hz
    assert_eq!(-12, note_number(13.75));
    assert_eq!(0, note_number(27.5));
    assert_eq!(NoteName::A(-1), NoteName::from_note_number(note_number(13.75)));
    assert_eq!(NoteName::A(0), NoteName::from_note_number(note_number(27.5)));
    assert_ne!(NoteName::from_note_number(-12), NoteName::from_note_number(0));
    assert_ne!(NoteName::from_note_number(-21), NoteName::from_note_number(-9));
    assert_eq!("A-1", NoteName::from_note_number(-12).to_string());
    assert_eq!("C-1", NoteName::from_note_number(-21).to_string());
    assert_eq!("G#-3", NoteName::from_note_number(-37).to_string());
}

#[test]
fn octaves_are_not_bounded_by_a_byte() {
    assert_eq!(NoteName::B(255), NoteName::from_note_number(12 * 255 + 2));
    assert_eq!(NoteName::C(256), NoteName::from_note_number(12 * 255 + 3));
    assert_eq!(NoteName::C(257), NoteName::from_note_number(12 * 256 + 3));
    assert_eq!(NoteName::CSharp(334), NoteName::from_note_number(4000));
    assert_eq!(NoteName::E(178956971), NoteName::from_note_number(i32::MAX));
    assert_eq!(NoteName::CSharp(-178956970), NoteName::from_note_number(i32::MIN));
    assert_eq!("E178956971", NoteName::from_note_number(i32::MAX).to_string());
    assert_eq!("C#-178956970", NoteName::from_note_number(i32::MIN).to_string());
}

#[test]
fn names_agree_with_floored_division() {
    for n in -4000..4000 {
        let mut index = n % 12;
        if index < 0 {
            index = 12 + index;
        }
        let octave = ((n + 9) as f64 / 12.0).floor() as i32;
        let expected = match index {
            0 => NoteName::A(octave),
            1 => NoteName::ASharp(octave),
            2 => NoteName::B(octave),
            3 => NoteName::C(octave),
            4 => NoteName::CSharp(octave),
            5 => NoteName::D(octave),
            6 => NoteName::DSharp(octave),
            7 => NoteName::E(octave),
            8 => NoteName::F(octave),
            9 => NoteName::FSharp(octave),
            10 => NoteName::G(octave),
            _ => NoteName::GSharp(octave),
        };
        assert_eq!(expected, NoteName::from_note_number(n));
    }
}

#[test]
fn pitches_map_to_names() {
    let name = |pitch: f64| NoteName::from_note_number(note_number(pitch)).to_string();
    assert_eq!("A4", name(440.0));
    assert_eq!("A4", name(445.0));
    assert_eq!("A4", name(430.0));
    assert_eq!("A#4", name(466.16));
    assert_eq!("C4", name(261.63));
    assert_eq!("C#3", name(138.59));
    assert_eq!("A3", name(220.0));
    assert_eq!("A0", name(27.5));
    assert_eq!("E2", name(82.41));
    assert_eq!("G#9", name(13289.75));
}

#[test]
fn names_are_displayed_as_letter_and_octave() {
    assert_eq!("A4", NoteName::A(4).to_string());
    assert_eq!("A#0", NoteName::ASharp(0).to_string());
    assert_eq!("B10", NoteName::B(10).to_string());
    assert_eq!("C255", NoteName::C(255).to_string());
    assert_eq!("C-1", NoteName::C(-1).to_string());
    assert_eq!("A#-12", NoteName::ASharp(-12).to_string());
    assert_eq!("F2147483647", NoteName::F(i32::MAX).to_string());
    assert_eq!("F-2147483648", NoteName::F(i32::MIN).to_string());
    assert_eq!("C#3", NoteName::CSharp(3).to_string());
    assert_eq!("D7", NoteName::D(7).to_string());
    assert_eq!("D#1", NoteName::DSharp(1).to_string());
    assert_eq!("E2", NoteName::E(2).to_string());
    assert_eq!("F9", NoteName::F(9).to_string());
    assert_eq!("F#5", NoteName::FSharp(5).to_string());
    assert_eq!("G6", NoteName::G(6).to_string());
    assert_eq!("G#8", NoteName::GSharp(8).to_string());
}

#[test]
fn notes_are_displayed_with_start_and_duration() {
    let note = Note {
        name: NoteName::CSharp(3),
        start: 800,
        duration: 8192,
    };
    assert_eq!("Note: C#3, Start: 800, Duration: 8192", note.to_string());
    let note = Note {
        name: NoteName::A(4),
        start: 0,
        duration: 0,
    };
    assert_eq!("Note: A4, Start: 0, Duration: 0", note.to_string());
}

#[test]
fn decimal_digits_are_written_most_significant_first() {
    for n in [0u64, 1, 9, 10, 11, 99, 100, 101, 4096, 44100, 1234567890, u64::MAX] {
        let mut s = String::from("n=");
        push_decimal(&mut s, n);
        assert_eq!(format!("n={}", n), s);
    }
    for n in [0i64, 1, -1, 9, -9, -10, 12, -128, 255, -44100, i64::MAX, i64::MIN, i64::MIN + 1] {
        let mut s = String::from("n=");
        push_signed_decimal(&mut s, n);
        assert_eq!(format!("n={}", n), s);
    }
}

#[test]
fn frame_errors_are_written_out() {
    assert_eq!(
        "`indices` must be sorted in ascending order",
        FrameError::FrameIndicesNotSorted.to_string()
    );
    assert_eq!(
        "index `20` is out of bounds",
        FrameError::FrameIndexOutOfBounds(20).to_string()
    );
    assert_eq!(
        "duplicate index `7` at positions 12 and 13 in `indices`",
        FrameError::DuplicateFrameIndices(7, 12, 13).to_string()
    );
}

#[test]
fn wav_errors_are_written_out() {
    assert_eq!(
        "unsupported bit depth `8`, expected 16, 24, or 32",
        WavFileError::UnsupportedBitDepth(8).to_string()
    );
    assert_eq!(
        "unsupported channel count `6`, expected mono or stereo audio",
        WavFileError::UnsupportedChannelCount(6).to_string()
    );
}

#[test]
fn notes_come_from_the_frames_with_a_pitch() {
    let frames = vec![
        PitchFrame { start_pos: 800, frame_width: 1600, pitch: Some(440.0f64.to_bits()) },
        PitchFrame { start_pos: 2400, frame_width: 3200, pitch: None },
        PitchFrame { start_pos: 5600, frame_width: 8192, pitch: Some(261.63f64.to_bits()) },
    ];
    let numbers = vec![note_number(440.0), 0, note_number(261.63)];
    let notes = Transcriber::name_notes(&frames, &numbers);
    assert_eq!(
        vec![
            Note { name: NoteName::A(4), start: 800, duration: 1600 },
            Note { name: NoteName::C(4), start: 5600, duration: 8192 },
        ],
        notes
    );
    assert_eq!(Vec::<Note>::new(), Transcriber::name_notes(&vec![], &vec![]));
    assert_eq!(Vec::<Note>::new(), Transcriber::name_notes(&frames[1..2].to_vec(), &vec![48]));
}

#[test]
fn twelve_semitones_up_is_the_next_octave() {
    let parts = |name: NoteName| {
        let text = name.to_string();
        let digits = text.find(|c: char| c == '-' || c.is_ascii_digit()).unwrap();
        (text[..digits].to_string(), text[digits..].parse::<i32>().unwrap())
    };
    for n in -3000..3000 {
        let (letter, octave) = parts(NoteName::from_note_number(n));
        let (letter_up, octave_up) = parts(NoteName::from_note_number(n + 12));
        assert_eq!(letter, letter_up);
        assert_eq!(octave + 1, octave_up);
    }
}
