use scoresynth::builder::{build_sheet, build_track, Tone, DEFAULT_BPM, DEFAULT_SAMPLE_RATE};
use scoresynth::notation::read_toplevel;
use scoresynth::notes::{Duration, Freq, Note, Pitch};
use scoresynth::sexp::Sexp;

fn sym(s: &str) -> Sexp {
    Sexp::Sym(s.to_string())
}

fn atom(i: i64) -> Sexp {
    Sexp::Int(i)
}

fn list(v: Vec<Sexp>) -> Sexp {
    Sexp::List(v)
}

fn plain_note(klass: u32, dots: u32, freq: Freq) -> Note {
    Note {
        duration: Duration { klass, dots, stretch: 1 },
        pitch: Pitch::Single(freq),
        amp_pct: 100,
        easing_pct: 5,
        rest_after_pct: 10,
    }
}

const A: Freq = Freq { index: 5, octave: 0, sharps: 0 };

#[test]
fn quarter_note_tone_lengths() {
    // A quarter note is half a second at 120 beats per minute: 22050
    // samples, of which a tenth is left silent, and a twentieth fades.
    let track = vec![plain_note(4, 0, A)];
    let plan = build_track(&track, DEFAULT_SAMPLE_RATE, DEFAULT_BPM).unwrap();
    assert_eq!(
        plan,
        vec![Tone { start: 0, len: 19845, ease: 1103, freq: A, amp_pct: 100 }]
    );
}

#[test]
fn dotted_note_is_half_again_longer() {
    // A dotted quarter is 0.75 s: 33075 samples, minus the silent tenth.
    let track = vec![plain_note(4, 1, A)];
    let plan = build_track(&track, DEFAULT_SAMPLE_RATE, DEFAULT_BPM).unwrap();
    assert_eq!(plan[0].len, 29768);
}

#[test]
fn cursor_advances_by_full_slots() {
    let track = vec![plain_note(4, 0, A), plain_note(2, 0, A), plain_note(4, 0, A)];
    let plan = build_track(&track, DEFAULT_SAMPLE_RATE, DEFAULT_BPM).unwrap();
    assert_eq!(plan.len(), 3);
    assert_eq!(plan[0].start, 0);
    assert_eq!(plan[1].start, 22050);
    assert_eq!(plan[2].start, 22050 + 44100);
}

#[test]
fn rests_advance_without_sounding() {
    let rest = Note {
        duration: Duration { klass: 4, dots: 0, stretch: 1 },
        pitch: Pitch::Rest,
        amp_pct: 100,
        easing_pct: 5,
        rest_after_pct: 10,
    };
    let track = vec![rest, plain_note(4, 0, A)];
    let plan = build_track(&track, DEFAULT_SAMPLE_RATE, DEFAULT_BPM).unwrap();
    assert_eq!(plan.len(), 1);
    assert_eq!(plan[0].start, 22050);
}

#[test]
fn chord_frequencies_share_one_slot() {
    let b = Freq { index: 2, octave: 0, sharps: 0 };
    let chord = Note {
        duration: Duration { klass: 4, dots: 0, stretch: 1 },
        pitch: Pitch::Chord(vec![A, b]),
        amp_pct: 100,
        easing_pct: 5,
        rest_after_pct: 10,
    };
    let track = vec![chord, plain_note(4, 0, A)];
    let plan = build_track(&track, DEFAULT_SAMPLE_RATE, DEFAULT_BPM).unwrap();
    assert_eq!(plan.len(), 3);
    assert_eq!(plan[0].start, 0);
    assert_eq!(plan[1].start, 0);
    assert_eq!(plan[0].freq, A);
    assert_eq!(plan[1].freq, b);
    // The chord advances the cursor once, not once per frequency.
    assert_eq!(plan[2].start, 22050);
}

#[test]
fn tempo_scales_every_duration() {
    let track = vec![plain_note(4, 0, A)];
    // At 60 beats per minute every duration doubles.
    let plan = build_track(&track, DEFAULT_SAMPLE_RATE, 60).unwrap();
    assert_eq!(plan[0].len, 39690);
}

#[test]
fn one_bar_pair_sheet_plan() {
    // Both tracks hold one quarter note: two equal one-tone plans of 19845
    // audible samples starting at zero.
    let score = list(vec![
        sym("piano"),
        atom(4),
        atom(0),
        list(vec![
            list(vec![sym("treble-C"), list(vec![sym("/4"), atom(1)])]),
            list(vec![sym("bass-C"), list(vec![sym("/4"), atom(1)])]),
        ]),
    ]);
    let sheet = read_toplevel(&score).unwrap();
    let plans = build_sheet(&sheet, DEFAULT_SAMPLE_RATE, DEFAULT_BPM).unwrap();
    assert_eq!(plans.len(), 2);
    assert_eq!(plans[0].len(), 1);
    assert_eq!(plans[1].len(), 1);
    assert_eq!(plans[0][0].len, 19845);
    assert_eq!(plans[1][0].len, 19845);
    assert_eq!(plans[0][0].start, 0);
    assert_eq!(plans[1][0].start, 0);
    assert_eq!(plans[0][0].freq, Freq { index: 3, octave: -1, sharps: 0 });
    assert_eq!(plans[1][0].freq, Freq { index: 5, octave: -3, sharps: 0 });
    // Superposed, the two equal tracks fill one stream of the same length.
    let end0 = plans[0][0].start + plans[0][0].len;
    let end1 = plans[1][0].start + plans[1][0].len;
    assert_eq!(end0.max(end1), 19845);
}
