//! Value types for pitch and duration.
//!
//! A `Duration` is the exact rational `stretch * 2/klass * (3/2)^dots`
//! beats. A frequency is kept symbolic: an index into the fixed eight-entry
//! octave table, an octave shift (a power of two), and a signed count of
//! equal-tempered semitone sharps. Nothing here is approximate; turning a
//! `Freq` into a quantity in hertz is left to unverified rendering code.

use vstd::prelude::*;

verus! {

/// A note length: `stretch * 2/klass * (3/2)^dots` beats.
///
/// `klass` is the denominator class (2 = half, 4 = quarter, 8 = eighth);
/// each dot lengthens the note by half; `stretch` is an extra integer
/// multiplier used by ornament expansion (a plain note has `stretch == 1`).
#[derive(Clone, Copy, Debug, PartialEq, Eq, Structural)]
pub struct Duration {
    pub klass: u32,
    pub dots: u32,
    pub stretch: u32,
}

impl Duration {
    /// A duration is well formed when its fraction is positive.
    pub open spec fn wf(self) -> bool {
        self.klass >= 1 && self.stretch >= 1
    }

    /// Divide the duration by `x`: the denominator class grows `x`-fold,
    /// dots and stretch are untouched.
    pub fn faster(&self, x: usize) -> (r: Self)
        requires
            self.wf(),
            self.klass * x <= u32::MAX,
        ensures
            r.klass == self.klass * x,
            r.dots == self.dots,
            r.stretch == self.stretch,
    {
        proof {
            assert(x <= self.klass * x) by (nonlinear_arith)
                requires
                    self.klass >= 1,
                    x >= 0,
            ;
        }
        Self { klass: self.klass * (x as u32), dots: self.dots, stretch: self.stretch }
    }

    /// Multiply the duration by `x`: the stretch multiplier grows `x`-fold,
    /// klass and dots are untouched.
    pub fn slower(&self, x: usize) -> (r: Self)
        requires
            self.wf(),
            self.stretch * x <= u32::MAX,
        ensures
            r.klass == self.klass,
            r.dots == self.dots,
            r.stretch == self.stretch * x,
    {
        proof {
            assert(x <= self.stretch * x) by (nonlinear_arith)
                requires
                    self.stretch >= 1,
                    x >= 0,
            ;
        }
        Self { klass: self.klass, dots: self.dots, stretch: self.stretch * (x as u32) }
    }
}

/// `base^exp` over the integers.
pub open spec fn pow_int(base: int, exp: nat) -> int
    decreases exp,
{
    if exp == 0 {
        1
    } else {
        base * pow_int(base, (exp - 1) as nat)
    }
}

/// Numerator of a duration's value in beats: `stretch * 2 * 3^dots`.
pub open spec fn dur_num(d: Duration) -> int {
    d.stretch * 2 * pow_int(3, d.dots as nat)
}

/// Denominator of a duration's value in beats: `klass * 2^dots`.
pub open spec fn dur_den(d: Duration) -> int {
    d.klass * pow_int(2, d.dots as nat)
}

/// Two fractions `a/b` and `c/d` (with positive denominators) are equal.
pub open spec fn frac_eq(a: int, b: int, c: int, d: int) -> bool {
    a * d == c * b
}

/// A symbolic frequency: `octave_table[index] * 2^octave * half_step^sharps`,
/// where `octave_table` is the fixed eight-entry table of hertz values
/// spanning one octave and `half_step` is one equal-tempered semitone.
#[derive(Clone, Copy, Debug, PartialEq, Eq, Structural)]
pub struct Freq {
    /// Index into the octave table, always in `0 ..= 7`.
    pub index: u8,
    /// Signed power of two applied to the table entry.
    pub octave: i64,
    /// Signed count of semitone sharps applied to the table entry.
    pub sharps: i64,
}

impl Freq {
    pub open spec fn wf(self) -> bool {
        self.index <= 7
    }
}

/// What sounds during one note: silence, one frequency, or several at once.
#[derive(Clone, Debug, PartialEq)]
pub enum Pitch {
    Rest,
    Single(Freq),
    Chord(Vec<Freq>),
}

/// Spec-level shape of a `Pitch`, with the chord as a sequence.
#[verifier::ext_equal]
pub enum PitchS {
    Rest,
    Single(Freq),
    Chord(Seq<Freq>),
}

impl View for Pitch {
    type V = PitchS;

    open spec fn view(&self) -> PitchS {
        match self {
            Pitch::Rest => PitchS::Rest,
            Pitch::Single(f) => PitchS::Single(*f),
            Pitch::Chord(fs) => PitchS::Chord(fs@),
        }
    }
}

impl DeepView for Pitch {
    type V = PitchS;

    open spec fn deep_view(&self) -> PitchS {
        self.view()
    }
}

impl PitchS {
    /// A chord holds at least one well-formed frequency; a single holds one.
    pub open spec fn wf(self) -> bool {
        match self {
            PitchS::Rest => true,
            PitchS::Single(f) => f.wf(),
            PitchS::Chord(fs) => fs.len() >= 1 && forall|i: int|
                0 <= i < fs.len() ==> (#[trigger] fs[i]).wf(),
        }
    }
}

/// One note: a duration, what sounds, and envelope fractions in hundredths.
///
/// `amp_pct` is the gain, `easing_pct` the fraction of the tone spent on
/// fade-in and fade-out, `rest_after_pct` the fraction of the slot left
/// silent at the end; all are percentages of the note's full duration.
#[derive(Clone, Debug, PartialEq)]
pub struct Note {
    pub duration: Duration,
    pub pitch: Pitch,
    pub amp_pct: u32,
    pub easing_pct: u32,
    pub rest_after_pct: u32,
}

/// Spec-level shape of a `Note`.
#[verifier::ext_equal]
pub struct NoteS {
    pub duration: Duration,
    pub pitch: PitchS,
    pub amp_pct: u32,
    pub easing_pct: u32,
    pub rest_after_pct: u32,
}

impl View for Note {
    type V = NoteS;

    open spec fn view(&self) -> NoteS {
        NoteS {
            duration: self.duration,
            pitch: self.pitch@,
            amp_pct: self.amp_pct,
            easing_pct: self.easing_pct,
            rest_after_pct: self.rest_after_pct,
        }
    }
}

impl DeepView for Note {
    type V = NoteS;

    open spec fn deep_view(&self) -> NoteS {
        self.view()
    }
}

impl NoteS {
    /// The envelope fractions stay within the slot.
    pub open spec fn wf(self) -> bool {
        self.duration.wf() && self.pitch.wf() && self.easing_pct <= 100
            && self.rest_after_pct <= 100
    }
}

/// Default gain of a note, in hundredths.
pub const DEFAULT_AMP_PCT: u32 = 100;

/// Default fade fraction of a note, in hundredths.
pub const DEFAULT_EASING_PCT: u32 = 5;

/// Default fraction of the slot left silent at the end, in hundredths.
pub const DEFAULT_REST_AFTER_PCT: u32 = 10;

/// Fade fraction forced on all but the last note of a slur.
pub const SLUR_EASING_PCT: u32 = 10;

/// Silent-tail fraction forced on all but the last note of a staccato run.
pub const STACCATO_REST_PCT: u32 = 50;

/// An ordered sequence of notes; insertion order is temporal order.
pub type Track = Vec<Note>;

/// Concurrent tracks, each played from time zero.
pub type Sheet = Vec<Track>;

/// Law: `faster(n)` divides the duration's value by `n`: the value of
/// `d.faster(n)` times `n` equals the value of `d`, as fractions in beats.
pub proof fn lemma_faster_divides_duration(d: Duration, r: Duration, n: int)
    requires
        d.wf(),
        n >= 1,
        r.klass == n * d.klass,
        r.dots == d.dots,
        r.stretch == d.stretch,
    ensures
        frac_eq(dur_num(r) * n, dur_den(r), dur_num(d), dur_den(d)),
{
    assert(dur_num(r) == dur_num(d));
    assert(dur_den(r) == (n * d.klass) * pow_int(2, d.dots as nat));
    assert(dur_num(d) * n * (d.klass * pow_int(2, d.dots as nat)) == dur_num(d) * ((n
        * d.klass) * pow_int(2, d.dots as nat))) by (nonlinear_arith);
}

/// Law: `slower(n)` multiplies the duration's value by `n`: the value of
/// `d.slower(n)` equals `n` times the value of `d`, as fractions in beats.
pub proof fn lemma_slower_multiplies_duration(d: Duration, r: Duration, n: int)
    requires
        d.wf(),
        n >= 1,
        r.klass == d.klass,
        r.dots == d.dots,
        r.stretch == n * d.stretch,
    ensures
        frac_eq(dur_num(r), dur_den(r), dur_num(d) * n, dur_den(d)),
{
    assert(dur_num(r) == (n * d.stretch) * 2 * pow_int(3, d.dots as nat));
    assert((n * d.stretch) * 2 * pow_int(3, d.dots as nat) * dur_den(d) == (d.stretch * 2
        * pow_int(3, d.dots as nat)) * n * dur_den(d)) by (nonlinear_arith);
}

} // verus!
