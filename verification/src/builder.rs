//! The track and sheet builder: from notes to a sample-exact tone plan.
//!
//! A running time cursor in exact rational seconds walks each track. Every
//! sounding frequency of every note becomes one `Tone`: a start sample, an
//! audible length in samples (the slot minus its silent tail), a fade
//! length, the symbolic frequency and the gain. A rest only advances the
//! cursor. Rendering a plan to actual samples is left to unverified code;
//! every number in the plan is pinned here.

use vstd::prelude::*;

use crate::frac::{BuildError, Frac, frac_add, frac_add_spec, round_frac, round_scaled};
use crate::notation::notes_wf;
use crate::notes::{Freq, NoteS, PitchS, Sheet, Track, dur_num, pow_int};

verus! {

/// The sample rate a plan is built for unless another is chosen.
pub const DEFAULT_SAMPLE_RATE: u32 = 44100;

/// The tempo a plan is built for unless another is chosen.
pub const DEFAULT_BPM: u32 = 120;

/// One tone to synthesize: all times are in samples at the plan's rate.
#[derive(Clone, Copy, Debug, PartialEq, Eq, Structural)]
pub struct Tone {
    /// Sample at which the tone starts.
    pub start: u64,
    /// Audible length in samples.
    pub len: u64,
    /// Fade-in and fade-out length in samples.
    pub ease: u64,
    /// What to play.
    pub freq: Freq,
    /// Gain in hundredths.
    pub amp_pct: u32,
}

impl View for Tone {
    type V = Tone;

    open spec fn view(&self) -> Tone {
        *self
    }
}

impl DeepView for Tone {
    type V = Tone;

    open spec fn deep_view(&self) -> Tone {
        *self
    }
}

/// The seconds one note occupies, as a fraction: its beats times `120/bpm`,
/// or an overflow error when a part leaves the machine word.
pub open spec fn dur_frac_spec(d: crate::notes::Duration, bpm: int) -> Result<
    (int, int),
    BuildError,
> {
    if pow_int(3, d.dots as nat) > u64::MAX || pow_int(2, d.dots as nat) > u64::MAX {
        Err(BuildError::Overflow)
    } else {
        let num = dur_num(d) * 120;
        let den = d.klass * pow_int(2, d.dots as nat) * bpm;
        if num > u64::MAX || den > u64::MAX {
            Err(BuildError::Overflow)
        } else {
            Ok((num, den))
        }
    }
}

/// What building one note adds to the plan and does to the cursor.
pub open spec fn build_note_spec(cur: (int, int), n: NoteS, rate: int, bpm: int) -> Result<
    (Seq<Tone>, (int, int)),
    BuildError,
> {
    match dur_frac_spec(n.duration, bpm) {
        Err(e) => Err(e),
        Ok((sn, sd)) => {
            let start = round_frac(rate * cur.0 * 1, cur.1 * 1);
            let len = round_frac(rate * sn * (100 - n.rest_after_pct), sd * 100);
            let ease = round_frac(rate * sn * n.easing_pct, sd * 100);
            let tones_r: Result<Seq<Tone>, BuildError> = match n.pitch {
                PitchS::Rest => Ok(Seq::empty()),
                PitchS::Single(f) => if start > u64::MAX {
                    Err(BuildError::Overflow)
                } else if len > u64::MAX {
                    Err(BuildError::Overflow)
                } else if ease > u64::MAX {
                    Err(BuildError::Overflow)
                } else {
                    Ok(
                        seq![
                            Tone {
                                start: start as u64,
                                len: len as u64,
                                ease: ease as u64,
                                freq: f,
                                amp_pct: n.amp_pct,
                            }
                        ],
                    )
                },
                PitchS::Chord(fs) => if start > u64::MAX {
                    Err(BuildError::Overflow)
                } else if len > u64::MAX {
                    Err(BuildError::Overflow)
                } else if ease > u64::MAX {
                    Err(BuildError::Overflow)
                } else {
                    Ok(
                        Seq::new(
                            fs.len(),
                            |i: int|
                                Tone {
                                    start: start as u64,
                                    len: len as u64,
                                    ease: ease as u64,
                                    freq: fs[i],
                                    amp_pct: n.amp_pct,
                                },
                        ),
                    )
                },
            };
            match tones_r {
                Err(e) => Err(e),
                Ok(tones) => match frac_add_spec(cur.0, cur.1, sn, sd) {
                    Some(c2) => Ok((tones, c2)),
                    None => Err(BuildError::Overflow),
                },
            }
        },
    }
}

/// What building the first `i` notes of a track gives: the tones so far and
/// the cursor after them.
pub open spec fn build_notes_spec(ns: Seq<NoteS>, i: int, cur: (int, int), rate: int, bpm: int) -> Result<
    (Seq<Tone>, (int, int)),
    BuildError,
>
    decreases i,
{
    if !(0 < i <= ns.len()) {
        Ok((Seq::empty(), cur))
    } else {
        match build_notes_spec(ns, i - 1, cur, rate, bpm) {
            Ok((acc, c1)) => match build_note_spec(c1, ns[i - 1], rate, bpm) {
                Ok((ts, c2)) => Ok((acc + ts, c2)),
                Err(e) => Err(e),
            },
            Err(e) => Err(e),
        }
    }
}

/// Once a prefix of a track fails to build, the whole track fails the same
/// way.
proof fn lemma_build_notes_err(ns: Seq<NoteS>, cur: (int, int), rate: int, bpm: int, i: int, j: int)
    requires
        0 <= i <= j <= ns.len(),
        build_notes_spec(ns, i, cur, rate, bpm) matches Err(_),
    ensures
        build_notes_spec(ns, j, cur, rate, bpm) == build_notes_spec(ns, i, cur, rate, bpm),
    decreases j - i,
{
    if j > i {
        lemma_build_notes_err(ns, cur, rate, bpm, i, j - 1);
    }
}

/// The seconds fraction of one note at this tempo.
#[verifier::loop_isolation(false)]
fn dur_frac(d: crate::notes::Duration, bpm: u32) -> (r: Result<(u64, u64), BuildError>)
    requires
        d.wf(),
        1 <= bpm,
    ensures
        match dur_frac_spec(d, bpm as int) {
            Ok((sn, sd)) => r matches Ok(p) && p.0 == sn && p.1 == sd && 1 <= sd,
            Err(e) => r == Err::<(u64, u64), BuildError>(e),
        },
{
    let mut p3: u64 = 1;
    let mut p2: u64 = 1;
    let mut k: u32 = 0;
    while k < d.dots
        invariant
            k <= d.dots,
            p3 == pow_int(3, k as nat),
            p2 == pow_int(2, k as nat),
            p3 <= u64::MAX,
            p2 <= u64::MAX,
        decreases d.dots - k,
    {
        let n3: u128 = (p3 as u128) * 3;
        let n2: u128 = (p2 as u128) * 2;
        proof {
            lemma_pow_le(3, (k + 1) as nat, d.dots as nat);
            lemma_pow_le(2, (k + 1) as nat, d.dots as nat);
            assert(pow_int(3, (k + 1) as nat) == pow_int(3, k as nat) * 3) by {
                lemma_pow_step(3, (k + 1) as nat);
            }
            assert(pow_int(2, (k + 1) as nat) == pow_int(2, k as nat) * 2) by {
                lemma_pow_step(2, (k + 1) as nat);
            }
        }
        if n3 > u64::MAX as u128 || n2 > u64::MAX as u128 {
            return Err(BuildError::Overflow);
        }
        p3 = n3 as u64;
        p2 = n2 as u64;
        k += 1;
    }
    proof {
        lemma_pow_pos(2, d.dots as nat);
        lemma_pow_pos(3, d.dots as nat);
        assert((d.stretch as int) * 2 * (p3 as int) <= 0x1_ffff_fffe * 0xffff_ffff_ffff_ffff)
            by (nonlinear_arith)
            requires
                0 <= d.stretch <= 0xffff_ffff,
                0 <= p3 <= 0xffff_ffff_ffff_ffff,
        ;
        assert((d.klass as int) * (p2 as int) <= 0xffff_ffff * 0xffff_ffff_ffff_ffff && 1 <= (
        d.klass as int) * (p2 as int)) by (nonlinear_arith)
            requires
                1 <= d.klass <= 0xffff_ffff,
                1 <= p2 <= 0xffff_ffff_ffff_ffff,
        ;
        assert(((d.klass as int) * (p2 as int)) * (bpm as int) <= (0xffff_ffff
            * 0xffff_ffff_ffff_ffff) * 0xffff_ffff && 1 <= ((d.klass as int) * (p2 as int)) * (
        bpm as int)) by (nonlinear_arith)
            requires
                1 <= (d.klass as int) * (p2 as int) <= 0xffff_ffff * 0xffff_ffff_ffff_ffff,
                1 <= bpm <= 0xffff_ffff,
        ;
    }
    let num128: u128 = (d.stretch as u128) * 2 * (p3 as u128) * 120;
    let den128: u128 = (d.klass as u128) * (p2 as u128) * (bpm as u128);
    if num128 > u64::MAX as u128 || den128 > u64::MAX as u128 {
        return Err(BuildError::Overflow);
    }
    Ok((num128 as u64, den128 as u64))
}

/// Powers grow with the exponent (for bases of at least one).
proof fn lemma_pow_le(base: int, a: nat, b: nat)
    requires
        base >= 1,
        a <= b,
    ensures
        pow_int(base, a) <= pow_int(base, b),
        pow_int(base, a) >= 1,
    decreases b,
{
    if a == b {
        lemma_pow_pos(base, a);
    } else {
        lemma_pow_le(base, a, (b - 1) as nat);
        lemma_pow_pos(base, (b - 1) as nat);
        assert(pow_int(base, b) == base * pow_int(base, (b - 1) as nat));
        assert(base * pow_int(base, (b - 1) as nat) >= pow_int(base, (b - 1) as nat))
            by (nonlinear_arith)
            requires
                base >= 1,
                pow_int(base, (b - 1) as nat) >= 1,
        ;
    }
}

/// Powers of a positive base are positive.
proof fn lemma_pow_pos(base: int, a: nat)
    requires
        base >= 1,
    ensures
        pow_int(base, a) >= 1,
    decreases a,
{
    if a > 0 {
        lemma_pow_pos(base, (a - 1) as nat);
        assert(base * pow_int(base, (a - 1) as nat) >= 1) by (nonlinear_arith)
            requires
                base >= 1,
                pow_int(base, (a - 1) as nat) >= 1,
        ;
    }
}

/// One more step of a power.
proof fn lemma_pow_step(base: int, a: nat)
    requires
        a >= 1,
    ensures
        pow_int(base, a) == pow_int(base, (a - 1) as nat) * base,
{
    assert(pow_int(base, a) == base * pow_int(base, (a - 1) as nat));
    assert(base * pow_int(base, (a - 1) as nat) == pow_int(base, (a - 1) as nat) * base)
        by (nonlinear_arith);
}

/// Build the tone plan of one track: walk its notes in order, placing every
/// sounding frequency at the running cursor and always advancing the cursor
/// by the note's full scaled duration.
#[verifier::loop_isolation(false)]
#[verifier::rlimit(60)]
pub fn build_track(tr: &Track, rate: u32, bpm: u32) -> (r: Result<Vec<Tone>, BuildError>)
    requires
        notes_wf(tr.deep_view()),
        1 <= rate,
        1 <= bpm,
    ensures
        match build_notes_spec(tr.deep_view(), tr.deep_view().len() as int, (0, 1), rate as int, bpm as int) {
            Ok((ts, _cur)) => r matches Ok(v) && v@ == ts,
            Err(e) => r == Err::<Vec<Tone>, BuildError>(e),
        },
{
    let ghost ns = tr.deep_view();
    let mut cur = Frac::zero();
    let mut out: Vec<Tone> = Vec::new();
    let mut i: usize = 0;
    proof {
        assert(ns.len() == tr@.len());
        assert(out@ =~= Seq::<Tone>::empty());
    }
    while i < tr.len()
        invariant
            i <= tr@.len(),
            build_notes_spec(ns, i as int, (0, 1), rate as int, bpm as int) == Ok::<
                (Seq<Tone>, (int, int)),
                BuildError,
            >((out@, (cur.num as int, cur.den as int))),
            cur.wf(),
        decreases tr@.len() - i,
    {
        let n = &tr[i];
        proof {
            assert(ns[i as int] == tr@[i as int]@);
            assert(ns[i as int].wf());
        }
        let sec = match dur_frac(n.duration, bpm) {
            Ok(p) => p,
            Err(e) => {
                proof {
                    lemma_build_notes_err(ns, (0, 1), rate as int, bpm as int, i + 1, ns.len() as int);
                }
                return Err(e);
            },
        };
        let is_rest = matches!(&n.pitch, crate::notes::Pitch::Rest);
        let mut start: u64 = 0;
        let mut len: u64 = 0;
        let mut ease: u64 = 0;
        if !is_rest {
            start = match round_scaled(rate, cur.num, cur.den, 1, 1) {
                Ok(v) => v,
                Err(e) => {
                    proof {
                        lemma_build_notes_err(ns, (0, 1), rate as int, bpm as int, i + 1, ns.len() as int);
                    }
                    return Err(e);
                },
            };
            len = match round_scaled(rate, sec.0, sec.1, 100 - n.rest_after_pct, 100) {
                Ok(v) => v,
                Err(e) => {
                    proof {
                        lemma_build_notes_err(ns, (0, 1), rate as int, bpm as int, i + 1, ns.len() as int);
                    }
                    return Err(e);
                },
            };
            ease = match round_scaled(rate, sec.0, sec.1, n.easing_pct, 100) {
                Ok(v) => v,
                Err(e) => {
                    proof {
                        lemma_build_notes_err(ns, (0, 1), rate as int, bpm as int, i + 1, ns.len() as int);
                    }
                    return Err(e);
                },
            };
        }
        let new_cur = match frac_add(cur, sec.0, sec.1) {
            Ok(c) => c,
            Err(e) => {
                proof {
                    lemma_build_notes_err(ns, (0, 1), rate as int, bpm as int, i + 1, ns.len() as int);
                }
                return Err(e);
            },
        };
        let ghost step = build_note_spec(
            (cur.num as int, cur.den as int),
            ns[i as int],
            rate as int,
            bpm as int,
        );
        proof {
            assert(step matches Ok(_));
        }
        let ghost prev = out@;
        match &n.pitch {
            crate::notes::Pitch::Rest => {
                proof {
                    assert(out@ =~= prev + step->Ok_0.0);
                }
            },
            crate::notes::Pitch::Single(f) => {
                out.push(Tone { start, len, ease, freq: *f, amp_pct: n.amp_pct });
                proof {
                    assert(out@ =~= prev + step->Ok_0.0);
                }
            },
            crate::notes::Pitch::Chord(fs) => {
                let ghost chord_tones = step->Ok_0.0;
                let mut j: usize = 0;
                while j < fs.len()
                    invariant
                        j <= fs@.len(),
                        out@ == prev + chord_tones.take(j as int),
                    decreases fs@.len() - j,
                {
                    out.push(Tone { start, len, ease, freq: fs[j], amp_pct: n.amp_pct });
                    proof {
                        assert(out@ =~= prev + chord_tones.take(j + 1));
                    }
                    j += 1;
                }
                proof {
                    assert(chord_tones.take(fs@.len() as int) =~= chord_tones);
                }
            },
        }
        cur = new_cur;
        i += 1;
    }
    Ok(out)
}

/// What building every track of a sheet gives.
pub open spec fn build_sheet_spec(sh: Seq<Seq<NoteS>>, i: int, rate: int, bpm: int) -> Result<
    Seq<Seq<Tone>>,
    BuildError,
>
    decreases i,
{
    if !(0 < i <= sh.len()) {
        Ok(Seq::empty())
    } else {
        match build_sheet_spec(sh, i - 1, rate, bpm) {
            Ok(acc) => match build_notes_spec(sh[i - 1], sh[i - 1].len() as int, (0, 1), rate, bpm) {
                Ok((ts, _cur)) => Ok(acc.push(ts)),
                Err(e) => Err(e),
            },
            Err(e) => Err(e),
        }
    }
}

/// Once a prefix of a sheet fails to build, the whole sheet fails the same
/// way.
proof fn lemma_build_sheet_err(sh: Seq<Seq<NoteS>>, rate: int, bpm: int, i: int, j: int)
    requires
        0 <= i <= j <= sh.len(),
        build_sheet_spec(sh, i, rate, bpm) matches Err(_),
    ensures
        build_sheet_spec(sh, j, rate, bpm) == build_sheet_spec(sh, i, rate, bpm),
    decreases j - i,
{
    if j > i {
        lemma_build_sheet_err(sh, rate, bpm, i, j - 1);
    }
}

/// Build the tone plan of every track of a sheet; each track starts at time
/// zero and is rendered concurrently with the others.
#[verifier::loop_isolation(false)]
pub fn build_sheet(sh: &Sheet, rate: u32, bpm: u32) -> (r: Result<Vec<Vec<Tone>>, BuildError>)
    requires
        forall|t: int| 0 <= t < sh.deep_view().len() ==> notes_wf(#[trigger] sh.deep_view()[t]),
        1 <= rate,
        1 <= bpm,
    ensures
        match build_sheet_spec(sh.deep_view(), sh.deep_view().len() as int, rate as int, bpm as int) {
            Ok(plans) => r matches Ok(v) && v.deep_view() == plans,
            Err(e) => r == Err::<Vec<Vec<Tone>>, BuildError>(e),
        },
{
    let ghost shv = sh.deep_view();
    let mut out: Vec<Vec<Tone>> = Vec::new();
    let mut i: usize = 0;
    proof {
        assert(shv.len() == sh@.len());
        assert(out.deep_view() =~= Seq::<Seq<Tone>>::empty());
    }
    while i < sh.len()
        invariant
            i <= sh@.len(),
            build_sheet_spec(shv, i as int, rate as int, bpm as int) == Ok::<
                Seq<Seq<Tone>>,
                BuildError,
            >(out.deep_view()),
        decreases sh@.len() - i,
    {
        proof {
            assert(shv[i as int] == sh@[i as int].deep_view());
            assert(notes_wf(shv[i as int]));
        }
        match build_track(&sh[i], rate, bpm) {
            Ok(plan) => {
                let ghost prev = out.deep_view();
                let ghost planv = plan.deep_view();
                proof {
                    assert(planv =~= plan@);
                }
                out.push(plan);
                proof {
                    assert(out.deep_view() =~= prev.push(planv));
                }
            },
            Err(e) => {
                proof {
                    lemma_build_sheet_err(shv, rate as int, bpm as int, i + 1, shv.len() as int);
                }
                return Err(e);
            },
        }
        i += 1;
    }
    Ok(out)
}

} // verus!
