use scoresynth::notation::{read_toplevel, try_read_duration, Clef, ParseError, TrackState};
use scoresynth::notes::{Duration, Freq, Note, Pitch};
use scoresynth::sexp::Sexp;

fn sym(s: &str) -> Sexp {
    Sexp::Sym(s.to_string())
}

fn atom(i: i64) -> Sexp {
    Sexp::Int(i)
}

fn list(v: Vec<Sexp>) -> Sexp {
    Sexp::List(v)
}

fn single_freq(n: &Note) -> Freq {
    match &n.pitch {
        Pitch::Single(f) => *f,
        p => panic!("expected a single pitch, got {:?}", p),
    }
}

/// The fixed octave table, C5 to C6, in hertz.
const OCTAVE: [f64; 8] = [523.25, 587.33, 659.25, 698.46, 783.99, 880.00, 987.77, 1046.50];

/// One equal-tempered semitone.
const HALF_STEP: f64 = 1.0595;

fn hz(f: Freq) -> f64 {
    OCTAVE[f.index as usize] * 2f64.powi(f.octave as i32) * HALF_STEP.powi(f.sharps as i32)
}

#[test]
fn duration_tokens() {
    assert_eq!(
        try_read_duration("/4"),
        Some(Duration { klass: 4, dots: 0, stretch: 1 })
    );
    assert_eq!(
        try_read_duration("/16.."),
        Some(Duration { klass: 16, dots: 2, stretch: 1 })
    );
    assert_eq!(try_read_duration("/4.5"), None);
    assert_eq!(try_read_duration("/0"), None);
    assert_eq!(try_read_duration("4"), None);
    assert_eq!(try_read_duration("/"), None);
    assert_eq!(try_read_duration("/..."), None);
    assert_eq!(try_read_duration("treble-C"), None);
}

#[test]
fn faster_multiplies_klass() {
    let d = Duration { klass: 4, dots: 1, stretch: 1 };
    let f = d.faster(3);
    assert_eq!(f, Duration { klass: 12, dots: 1, stretch: 1 });
}

#[test]
fn slower_multiplies_stretch() {
    let d = Duration { klass: 48, dots: 0, stretch: 1 };
    let s = d.slower(11);
    assert_eq!(s, Duration { klass: 48, dots: 0, stretch: 11 });
}

#[test]
fn frequency_resolution_treble_degree_zero() {
    let st = TrackState { clef: Clef::Treble, sharps: Vec::new(), global_sharp: 0 };
    let norm = st.norm_pitch(0);
    assert_eq!(norm, -5);
    let f = st.freq_for_ix(norm);
    assert_eq!(f, Freq { index: 2, octave: -1, sharps: 0 });
    assert_eq!(hz(f), 329.625);
}

#[test]
fn frequency_resolution_is_pure() {
    let st = TrackState { clef: Clef::Bass, sharps: vec![(-5, 2)], global_sharp: 1 };
    let a = st.freq_for_ix(-5);
    let b = st.freq_for_ix(-5);
    assert_eq!(a, b);
    assert_eq!(a.sharps, 3);
}

fn one_note_score() -> Sexp {
    list(vec![
        sym("piano"),
        atom(4),
        atom(0),
        list(vec![
            list(vec![sym("treble-C"), list(vec![sym("/4"), atom(1)])]),
            list(vec![sym("bass-C"), list(vec![sym("/4"), atom(1)])]),
        ]),
    ])
}

#[test]
fn two_track_sheet_from_one_bar_pair() {
    let sheet = read_toplevel(&one_note_score()).unwrap();
    assert_eq!(sheet.len(), 2);
    assert_eq!(sheet[0].len(), 1);
    assert_eq!(sheet[1].len(), 1);
    let treble = &sheet[0][0];
    let bass = &sheet[1][0];
    assert_eq!(treble.duration, Duration { klass: 4, dots: 0, stretch: 1 });
    // Treble: degree 1 normalizes to -4, folding to table entry 3, one
    // octave down.
    assert_eq!(single_freq(treble), Freq { index: 3, octave: -1, sharps: 0 });
    // Bass: degree 1 normalizes to -16, folding to table entry 5, three
    // octaves down: 880 / 8 = 110 Hz.
    assert_eq!(single_freq(bass), Freq { index: 5, octave: -3, sharps: 0 });
    assert_eq!(hz(single_freq(bass)), 110.0);
    assert_eq!(treble.amp_pct, 100);
    assert_eq!(treble.easing_pct, 5);
    assert_eq!(treble.rest_after_pct, 10);
}

#[test]
fn sharp_lasts_to_end_of_bar_only() {
    // Bar one sharps degree 1; the sharped note and the following note in
    // the same bar carry the sharp, the next bar does not.
    let score = list(vec![
        sym("piano"),
        atom(4),
        atom(0),
        list(vec![
            list(vec![
                sym("treble-C"),
                list(vec![sym("/4"), list(vec![sym("sharp"), atom(1)])]),
                list(vec![sym("/4"), atom(1)]),
            ]),
            list(vec![sym("bass-C"), list(vec![sym("/4"), atom(1)])]),
            list(vec![list(vec![sym("/4"), atom(1)])]),
            list(vec![list(vec![sym("/4"), atom(1)])]),
        ]),
    ]);
    let sheet = read_toplevel(&score).unwrap();
    let treble = &sheet[0];
    assert_eq!(treble.len(), 3);
    assert_eq!(single_freq(&treble[0]).sharps, 1);
    assert_eq!(single_freq(&treble[1]).sharps, 1);
    assert_eq!(single_freq(&treble[2]).sharps, 0);
    // The other track never sees the sharp.
    let bass = &sheet[1];
    assert_eq!(bass.len(), 2);
    assert_eq!(single_freq(&bass[0]).sharps, 0);
    assert_eq!(single_freq(&bass[1]).sharps, 0);
}

#[test]
fn flat_and_natural_accidentals() {
    let score = list(vec![
        sym("piano"),
        atom(4),
        atom(0),
        list(vec![
            list(vec![
                list(vec![sym("/4"), list(vec![sym("flat"), atom(1)])]),
                list(vec![sym("/4"), list(vec![sym("natural"), atom(1)])]),
                list(vec![sym("/4"), atom(1)]),
            ]),
            list(vec![]),
        ]),
    ]);
    let sheet = read_toplevel(&score).unwrap();
    let t = &sheet[0];
    assert_eq!(single_freq(&t[0]).sharps, -1);
    assert_eq!(single_freq(&t[1]).sharps, 0);
    assert_eq!(single_freq(&t[2]).sharps, 0);
}

#[test]
fn global_sharp_offsets_every_note() {
    let score = list(vec![
        sym("piano"),
        atom(4),
        atom(2),
        list(vec![
            list(vec![list(vec![sym("/4"), atom(1)])]),
            list(vec![list(vec![sym("/4"), atom(1)])]),
        ]),
    ]);
    let sheet = read_toplevel(&score).unwrap();
    assert_eq!(single_freq(&sheet[0][0]).sharps, 2);
    assert_eq!(single_freq(&sheet[1][0]).sharps, 2);
}

#[test]
fn drop_skips_bar_pairs() {
    let bar = |d: i64| list(vec![list(vec![sym("/4"), atom(d)])]);
    let score = list(vec![
        sym("piano"),
        atom(4),
        atom(0),
        list(vec![
            sym("drop"),
            atom(2),
            bar(1),
            bar(1),
            bar(2),
            bar(2),
            bar(3),
            bar(4),
        ]),
    ]);
    let sheet = read_toplevel(&score).unwrap();
    // Only the third bar pair survives.
    assert_eq!(sheet[0].len(), 1);
    assert_eq!(sheet[1].len(), 1);
    // Treble degree 3 normalizes to -2: table entry 5, one octave down.
    assert_eq!(single_freq(&sheet[0][0]), Freq { index: 5, octave: -1, sharps: 0 });
    // Degree 4 normalizes to -1: table entry 6, one octave down.
    assert_eq!(single_freq(&sheet[1][0]), Freq { index: 6, octave: -1, sharps: 0 });
}

#[test]
fn rests_and_clef_changes() {
    let score = list(vec![
        sym("piano"),
        atom(4),
        atom(0),
        list(vec![
            list(vec![sym("/2."), sym("bass-C"), list(vec![sym("/4"), atom(1)])]),
            list(vec![]),
        ]),
    ]);
    let sheet = read_toplevel(&score).unwrap();
    let t = &sheet[0];
    assert_eq!(t.len(), 2);
    assert_eq!(t[0].pitch, Pitch::Rest);
    assert_eq!(t[0].duration, Duration { klass: 2, dots: 1, stretch: 1 });
    // The clef change applies to the degree after it.
    assert_eq!(single_freq(&t[1]), Freq { index: 5, octave: -3, sharps: 0 });
}

#[test]
fn chord_under_one_duration() {
    let score = list(vec![
        sym("piano"),
        atom(4),
        atom(0),
        list(vec![
            list(vec![list(vec![sym("/4"), list(vec![atom(1), atom(3)])])]),
            list(vec![]),
        ]),
    ]);
    let sheet = read_toplevel(&score).unwrap();
    let t = &sheet[0];
    assert_eq!(t.len(), 1);
    match &t[0].pitch {
        Pitch::Chord(fs) => {
            assert_eq!(fs.len(), 2);
            assert_eq!(fs[0], Freq { index: 3, octave: -1, sharps: 0 });
            assert_eq!(fs[1], Freq { index: 5, octave: -1, sharps: 0 });
        },
        p => panic!("expected a chord, got {:?}", p),
    }
}

#[test]
fn several_pitches_under_one_duration_are_separate_notes() {
    let score = list(vec![
        sym("piano"),
        atom(4),
        atom(0),
        list(vec![
            list(vec![list(vec![sym("/4"), atom(1), atom(3)])]),
            list(vec![]),
        ]),
    ]);
    let sheet = read_toplevel(&score).unwrap();
    assert_eq!(sheet[0].len(), 2);
}

#[test]
fn rest_pitch_token() {
    let score = list(vec![
        sym("piano"),
        atom(4),
        atom(0),
        list(vec![
            list(vec![list(vec![sym("/8"), sym("r")])]),
            list(vec![]),
        ]),
    ]);
    let sheet = read_toplevel(&score).unwrap();
    assert_eq!(sheet[0][0].pitch, Pitch::Rest);
    assert_eq!(sheet[0][0].duration.klass, 8);
}

#[test]
fn trill_alternates_and_divides() {
    let score = list(vec![
        sym("piano"),
        atom(4),
        atom(0),
        list(vec![
            list(vec![list(vec![sym("tr2"), list(vec![sym("/4"), atom(1)])])]),
            list(vec![]),
        ]),
    ]);
    let sheet = read_toplevel(&score).unwrap();
    let t = &sheet[0];
    assert_eq!(t.len(), 2);
    assert_eq!(t[0].duration, Duration { klass: 8, dots: 0, stretch: 1 });
    assert_eq!(t[1].duration, Duration { klass: 8, dots: 0, stretch: 1 });
    // Degrees -4 and -3: table entries 3 and 4, one octave down.
    assert_eq!(single_freq(&t[0]), Freq { index: 3, octave: -1, sharps: 0 });
    assert_eq!(single_freq(&t[1]), Freq { index: 4, octave: -1, sharps: 0 });
}

#[test]
fn trill_count_defaults_to_four() {
    let score = list(vec![
        sym("piano"),
        atom(4),
        atom(0),
        list(vec![
            list(vec![list(vec![sym("tr"), list(vec![sym("/4"), atom(1)])])]),
            list(vec![]),
        ]),
    ]);
    let sheet = read_toplevel(&score).unwrap();
    assert_eq!(sheet[0].len(), 4);
    assert_eq!(sheet[0][0].duration.klass, 16);
}

#[test]
fn acciaccatura_expands_and_sharps_the_bar() {
    let score = list(vec![
        sym("piano"),
        atom(4),
        atom(0),
        list(vec![
            list(vec![
                list(vec![sym("acciac"), list(vec![sym("/4"), atom(3)])]),
                list(vec![sym("/4"), atom(3)]),
            ]),
            list(vec![]),
        ]),
    ]);
    let sheet = read_toplevel(&score).unwrap();
    let t = &sheet[0];
    assert_eq!(t.len(), 3);
    // Grace note one degree below, a twelfth of the duration.
    assert_eq!(t[0].duration, Duration { klass: 48, dots: 0, stretch: 1 });
    assert_eq!(single_freq(&t[0]), Freq { index: 4, octave: -1, sharps: 0 });
    // Main note at the original degree, eleven twelfths.
    assert_eq!(t[1].duration, Duration { klass: 48, dots: 0, stretch: 11 });
    assert_eq!(single_freq(&t[1]), Freq { index: 5, octave: -1, sharps: 0 });
    // The ornament registers a sharp on the main degree for the rest of
    // the bar.
    assert_eq!(single_freq(&t[2]), Freq { index: 5, octave: -1, sharps: 1 });
}

#[test]
fn nested_sharp_grace_form_matches_plain_one() {
    let mk = |head: Sexp| {
        list(vec![
            sym("piano"),
            atom(4),
            atom(0),
            list(vec![
                list(vec![list(vec![head, list(vec![sym("/4"), atom(3)])])]),
                list(vec![]),
            ]),
        ])
    };
    let plain = read_toplevel(&mk(sym("acciac"))).unwrap();
    let nested_score = list(vec![
        sym("piano"),
        atom(4),
        atom(0),
        list(vec![
            list(vec![
                list(vec![
                    list(vec![sym("acciac"), sym("sharp")]),
                    list(vec![sym("/4"), atom(3)]),
                ]),
            ]),
            list(vec![]),
        ]),
    ]);
    let nested = read_toplevel(&nested_score).unwrap();
    assert_eq!(plain, nested);
}

#[test]
fn slur_connects_all_but_last() {
    let score = list(vec![
        sym("piano"),
        atom(4),
        atom(0),
        list(vec![
            list(vec![list(vec![
                sym("^"),
                list(vec![sym("/4"), atom(1)]),
                list(vec![sym("/4"), atom(2)]),
                list(vec![sym("/4"), atom(3)]),
            ])]),
            list(vec![]),
        ]),
    ]);
    let sheet = read_toplevel(&score).unwrap();
    let t = &sheet[0];
    assert_eq!(t.len(), 3);
    assert_eq!((t[0].easing_pct, t[0].rest_after_pct), (10, 0));
    assert_eq!((t[1].easing_pct, t[1].rest_after_pct), (10, 0));
    assert_eq!((t[2].easing_pct, t[2].rest_after_pct), (5, 10));
}

#[test]
fn staccato_shortens_all_but_last() {
    let score = list(vec![
        sym("piano"),
        atom(4),
        atom(0),
        list(vec![
            list(vec![list(vec![
                sym("staccato"),
                list(vec![sym("/4"), atom(1)]),
                list(vec![sym("/4"), atom(2)]),
            ])]),
            list(vec![]),
        ]),
    ]);
    let sheet = read_toplevel(&score).unwrap();
    let t = &sheet[0];
    assert_eq!((t[0].easing_pct, t[0].rest_after_pct), (5, 50));
    assert_eq!((t[1].easing_pct, t[1].rest_after_pct), (5, 10));
}

#[test]
fn malformed_toplevel_is_refused() {
    assert_eq!(read_toplevel(&sym("piano")), Err(ParseError::ExpectedToplevel));
    assert_eq!(
        read_toplevel(&list(vec![sym("piano"), atom(4), atom(0)])),
        Err(ParseError::ExpectedToplevel)
    );
    assert_eq!(
        read_toplevel(&list(vec![sym("organ"), atom(4), atom(0), list(vec![])])),
        Err(ParseError::ExpectedToplevel)
    );
}

fn score_with_bar(bar: Vec<Sexp>) -> Sexp {
    list(vec![
        sym("piano"),
        atom(4),
        atom(0),
        list(vec![list(bar), list(vec![])]),
    ])
}

#[test]
fn unknown_atom_is_refused() {
    assert_eq!(
        read_toplevel(&score_with_bar(vec![sym("mezzo")])),
        Err(ParseError::UnknownCommand)
    );
}

#[test]
fn bad_pitch_is_refused() {
    assert_eq!(
        read_toplevel(&score_with_bar(vec![list(vec![sym("/4"), sym("x")])])),
        Err(ParseError::BadPitch)
    );
}

#[test]
fn huge_degree_is_refused() {
    assert_eq!(
        read_toplevel(&score_with_bar(vec![list(vec![
            sym("/4"),
            atom(99999999999999),
        ])])),
        Err(ParseError::DegreeOutOfRange)
    );
}

#[test]
fn accidental_arity_is_checked() {
    assert_eq!(
        read_toplevel(&score_with_bar(vec![list(vec![
            sym("/4"),
            list(vec![sym("sharp"), atom(1), atom(2)]),
        ])])),
        Err(ParseError::WrongArity)
    );
}

#[test]
fn trill_of_rest_is_refused() {
    assert_eq!(
        read_toplevel(&score_with_bar(vec![list(vec![sym("tr2"), sym("/4")])])),
        Err(ParseError::WrongCardinality)
    );
}

#[test]
fn trill_klass_overflow_is_refused() {
    assert_eq!(
        read_toplevel(&score_with_bar(vec![list(vec![
            sym("tr3000000000"),
            list(vec![sym("/4000000000"), atom(1)]),
        ])])),
        Err(ParseError::NumberTooLarge)
    );
}

#[test]
fn non_list_bar_is_refused() {
    let score = list(vec![
        sym("piano"),
        atom(4),
        atom(0),
        list(vec![atom(1), atom(2)]),
    ]);
    assert_eq!(read_toplevel(&score), Err(ParseError::ExpectedList));
}

#[test]
fn empty_slur_is_refused() {
    assert_eq!(
        read_toplevel(&score_with_bar(vec![list(vec![sym("^")])])),
        Err(ParseError::WrongArity)
    );
}
