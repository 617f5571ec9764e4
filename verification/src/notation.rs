//! The notation reader: from a symbolic score tree to a `Sheet`.
//!
//! Reading is fail-fast: any structurally invalid input yields an error and
//! no partial sheet. Every reading function is specified against a
//! spec-level mirror of the grammar, so the result — including which error
//! is reported — is pinned exactly for every input tree.

use vstd::prelude::*;

use crate::notes::{Duration, Freq, Note, NoteS, Pitch, PitchS, Sheet, DEFAULT_AMP_PCT,
    DEFAULT_EASING_PCT, DEFAULT_REST_AFTER_PCT, SLUR_EASING_PCT, STACCATO_REST_PCT};
use crate::sexp::{Sexp, str_eq, all_digits, digits_val, trailing_dots, lemma_trailing_dots_chars,
    parse_digits_u32};

verus! {

/// Why a score tree was rejected.
#[derive(Clone, Copy, Debug, PartialEq, Eq, Structural)]
pub enum ParseError {
    /// The top level is not `(piano <beat> <int> (<bar-pair>...))`.
    ExpectedToplevel,
    /// A bar (or the bar-pair container) is not a list.
    ExpectedList,
    /// An atom in a bar is neither a clef change nor a duration token.
    UnknownCommand,
    /// A pitch token is not a rest, a degree, a chord or an accidental form.
    BadPitch,
    /// A note element is not headed by a duration, trill or grace tag.
    BadNote,
    /// A compound form has the wrong number of elements.
    WrongArity,
    /// A trill or grace ornament was applied to a rest or a chord.
    WrongCardinality,
    /// A scale degree or a global sharp offset is out of range.
    DegreeOutOfRange,
    /// A count (sharps on one degree, or a duration class) overflowed.
    NumberTooLarge,
}

/// Largest magnitude accepted for a scale degree, a global sharp offset,
/// and the accumulated sharps on one degree.
pub const DEGREE_LIMIT: i64 = 2147483647;

/// Which staff a track is currently notated in.
#[derive(Clone, Copy, Debug, PartialEq, Eq, Structural)]
pub enum Clef {
    Treble,
    Bass,
}

/// The degree shift a clef applies before the fixed `-7` octave shift.
pub open spec fn clef_offset(c: Clef) -> int {
    match c {
        Clef::Treble => 2,
        Clef::Bass => -10,
    }
}

/// Per-track reading state: the clef in force, the current bar's
/// accidental map (degree to signed sharp count, first entry wins), and the
/// piece-wide sharp offset.
#[derive(Debug)]
pub struct TrackState {
    pub clef: Clef,
    pub sharps: Vec<(i64, i64)>,
    pub global_sharp: i64,
}

/// Spec-level shape of a `TrackState`.
#[verifier::ext_equal]
pub struct TrackStateS {
    pub clef: Clef,
    pub sharps: Seq<(i64, i64)>,
    pub global_sharp: i64,
}

impl View for TrackState {
    type V = TrackStateS;

    open spec fn view(&self) -> TrackStateS {
        TrackStateS { clef: self.clef, sharps: self.sharps@, global_sharp: self.global_sharp }
    }
}

impl DeepView for TrackState {
    type V = TrackStateS;

    open spec fn deep_view(&self) -> TrackStateS {
        self.view()
    }
}

/// Index of the first entry for degree `k`, or `-1` if there is none.
pub open spec fn find_key(s: Seq<(i64, i64)>, k: i64) -> int
    decreases s.len(),
{
    if s.len() == 0 {
        -1
    } else if s[0].0 == k {
        0
    } else {
        let r = find_key(s.drop_first(), k);
        if r == -1 {
            -1
        } else {
            r + 1
        }
    }
}

/// The sharp count recorded for degree `k`, or zero if none is.
pub open spec fn lookup_sharp(s: Seq<(i64, i64)>, k: i64) -> i64 {
    if find_key(s, k) >= 0 {
        s[find_key(s, k)].1
    } else {
        0
    }
}

/// `find_key` returns either `-1` (no entry for `k`) or the first index
/// whose entry is for `k`.
pub proof fn lemma_find_key(s: Seq<(i64, i64)>, k: i64)
    ensures
        find_key(s, k) == -1 || 0 <= find_key(s, k) < s.len(),
        find_key(s, k) == -1 ==> forall|i: int| 0 <= i < s.len() ==> (#[trigger] s[i]).0 != k,
        find_key(s, k) >= 0 ==> s[find_key(s, k)].0 == k && forall|i: int|
            0 <= i < find_key(s, k) ==> (#[trigger] s[i]).0 != k,
    decreases s.len(),
{
    if s.len() > 0 && s[0].0 != k {
        lemma_find_key(s.drop_first(), k);
        let fk = find_key(s, k);
        if fk == -1 {
            assert forall|i: int| 0 <= i < s.len() implies (#[trigger] s[i]).0 != k by {
                if i >= 1 {
                    assert(s[i] == s.drop_first()[i - 1]);
                }
            }
        } else {
            assert(s[fk] == s.drop_first()[fk - 1]);
            assert forall|i: int| 0 <= i < fk implies (#[trigger] s[i]).0 != k by {
                if i >= 1 {
                    assert(s[i] == s.drop_first()[i - 1]);
                }
            }
        }
    }
}

impl TrackStateS {
    /// Every recorded sharp count and the global offset stay in range.
    pub open spec fn wf(self) -> bool {
        &&& forall|i: int|
            0 <= i < self.sharps.len() ==> -DEGREE_LIMIT <= (#[trigger] self.sharps[i]).1
                <= DEGREE_LIMIT
        &&& -DEGREE_LIMIT <= self.global_sharp <= DEGREE_LIMIT
    }
}

/// Record `n` more sharps on degree `k`, refusing a count that leaves the
/// accepted range. The first entry for `k` is updated, or one is appended.
pub open spec fn add_sharp_spec(s: Seq<(i64, i64)>, k: i64, n: i64) -> Result<
    Seq<(i64, i64)>,
    ParseError,
> {
    let i = find_key(s, k);
    if i >= 0 {
        let v = s[i].1 + n;
        if -DEGREE_LIMIT <= v <= DEGREE_LIMIT {
            Ok(s.update(i, (k, v as i64)))
        } else {
            Err(ParseError::NumberTooLarge)
        }
    } else {
        if -DEGREE_LIMIT <= n <= DEGREE_LIMIT {
            Ok(s.push((k, n)))
        } else {
            Err(ParseError::NumberTooLarge)
        }
    }
}

/// Drop the entry for degree `k`, if any: the degree reverts to natural.
pub open spec fn reset_sharp_spec(s: Seq<(i64, i64)>, k: i64) -> Seq<(i64, i64)> {
    let i = find_key(s, k);
    if i >= 0 {
        s.remove(i)
    } else {
        s
    }
}

/// Law: recording an accidental on degree `k` changes the sharp count in
/// force for `k` alone; every other degree reads as before.
pub proof fn lemma_accidental_local(s: Seq<(i64, i64)>, k: i64, n: i64, s2: Seq<(i64, i64)>)
    requires
        add_sharp_spec(s, k, n) == Ok::<_, ParseError>(s2),
    ensures
        lookup_sharp(s2, k) == lookup_sharp(s, k) + n,
        forall|k2: i64| k2 != k ==> lookup_sharp(s2, k2) == lookup_sharp(s, k2),
{
    lemma_find_key(s, k);
    let i = find_key(s, k);
    if i >= 0 {
        lemma_lookup_update(s, k, (s[i].1 + n) as i64, i);
    } else {
        lemma_lookup_push(s, k, n);
    }
}

/// Updating the first entry for `k` (at index `i`) to value `v` makes the
/// lookup for `k` read `v` and leaves every other degree's lookup alone.
proof fn lemma_lookup_update(s: Seq<(i64, i64)>, k: i64, v: i64, i: int)
    requires
        0 <= i < s.len(),
        s[i].0 == k,
        forall|j: int| 0 <= j < i ==> (#[trigger] s[j]).0 != k,
    ensures
        lookup_sharp(s.update(i, (k, v)), k) == v,
        forall|k2: i64| k2 != k ==> lookup_sharp(s.update(i, (k, v)), k2) == lookup_sharp(s, k2),
    decreases s.len(),
{
    let s2 = s.update(i, (k, v));
    if i == 0 {
        lemma_lookup_first_hit(s2, k);
        assert forall|k2: i64| k2 != k implies lookup_sharp(s2, k2) == lookup_sharp(s, k2) by {
            assert(s2.drop_first() =~= s.drop_first());
            lemma_lookup_first_miss(s, k2);
            lemma_lookup_first_miss(s2, k2);
        }
    } else {
        assert(s[0].0 != k);
        assert(s2[0] == s[0]);
        assert(s2.drop_first() =~= s.drop_first().update(i - 1, (k, v)));
        assert forall|j: int| 0 <= j < i - 1 implies (#[trigger] s.drop_first()[j]).0 != k by {
            assert(s.drop_first()[j] == s[j + 1]);
        }
        lemma_lookup_update(s.drop_first(), k, v, i - 1);
        lemma_lookup_first_miss(s, k);
        lemma_lookup_first_miss(s2, k);
        assert forall|k2: i64| k2 != k implies lookup_sharp(s2, k2) == lookup_sharp(s, k2) by {
            if s[0].0 == k2 {
                lemma_lookup_first_hit(s, k2);
                lemma_lookup_first_hit(s2, k2);
            } else {
                lemma_lookup_first_miss(s, k2);
                lemma_lookup_first_miss(s2, k2);
            }
        }
    }
}

/// Appending an entry for a degree that has none makes the lookup for `k`
/// read it and leaves every other degree's lookup alone.
proof fn lemma_lookup_push(s: Seq<(i64, i64)>, k: i64, v: i64)
    requires
        find_key(s, k) == -1,
    ensures
        lookup_sharp(s.push((k, v)), k) == v,
        forall|k2: i64| k2 != k ==> lookup_sharp(s.push((k, v)), k2) == lookup_sharp(s, k2),
    decreases s.len(),
{
    let s2 = s.push((k, v));
    if s.len() == 0 {
        lemma_lookup_first_hit(s2, k);
        assert forall|k2: i64| k2 != k implies lookup_sharp(s2, k2) == lookup_sharp(s, k2) by {
            lemma_lookup_first_miss(s2, k2);
            assert(s2.drop_first() =~= Seq::<(i64, i64)>::empty());
        }
    } else {
        assert(s[0].0 != k);
        assert(s2.drop_first() =~= s.drop_first().push((k, v)));
        lemma_find_key(s.drop_first(), k);
        assert(find_key(s.drop_first(), k) == -1) by {
            if find_key(s.drop_first(), k) >= 0 {
                assert(find_key(s, k) == find_key(s.drop_first(), k) + 1);
            }
        }
        lemma_lookup_push(s.drop_first(), k, v);
        lemma_lookup_first_miss(s2, k);
        assert(lookup_sharp(s2, k) == v);
        assert forall|k2: i64| k2 != k implies lookup_sharp(s2, k2) == lookup_sharp(s, k2) by {
            if s[0].0 == k2 {
                lemma_lookup_first_hit(s, k2);
                lemma_lookup_first_hit(s2, k2);
            } else {
                lemma_lookup_first_miss(s, k2);
                lemma_lookup_first_miss(s2, k2);
            }
        }
    }
}

/// When the first entry is for another degree, lookup descends past it.
proof fn lemma_lookup_first_miss(s: Seq<(i64, i64)>, k: i64)
    requires
        s.len() > 0,
        s[0].0 != k,
    ensures
        lookup_sharp(s, k) == lookup_sharp(s.drop_first(), k),
{
    lemma_find_key(s, k);
    lemma_find_key(s.drop_first(), k);
    if find_key(s.drop_first(), k) >= 0 {
        assert(s[find_key(s, k)] == s.drop_first()[find_key(s.drop_first(), k)]);
    }
}

/// When the first entry is for degree `k`, lookup reads it.
proof fn lemma_lookup_first_hit(s: Seq<(i64, i64)>, k: i64)
    requires
        s.len() > 0,
        s[0].0 == k,
    ensures
        lookup_sharp(s, k) == s[0].1,
{
}

impl TrackState {
    /// A fresh track: treble clef, no accidentals, no global offset.
    pub fn new() -> (r: Self)
        ensures
            r@ == (TrackStateS { clef: Clef::Treble, sharps: Seq::empty(), global_sharp: 0 }),
            r@.wf(),
    {
        let r = Self { clef: Clef::Treble, sharps: Vec::new(), global_sharp: 0 };
        proof {
            assert(r@ =~= TrackStateS { clef: Clef::Treble, sharps: Seq::empty(), global_sharp: 0 });
        }
        r
    }

    /// An identical, independent copy of the state.
    #[verifier::loop_isolation(false)]
    pub fn snapshot(&self) -> (r: Self)
        ensures
            r@ == self@,
    {
        let mut sharps: Vec<(i64, i64)> = Vec::new();
        let mut i: usize = 0;
        while i < self.sharps.len()
            invariant
                i <= self.sharps@.len(),
                sharps@ =~= self.sharps@.take(i as int),
            decreases self.sharps@.len() - i,
        {
            let e = self.sharps[i];
            sharps.push(e);
            proof {
                assert(sharps@ =~= self.sharps@.take(i + 1));
            }
            i += 1;
        }
        let r = Self { clef: self.clef, sharps, global_sharp: self.global_sharp };
        proof {
            assert(self.sharps@.take(self.sharps@.len() as int) =~= self.sharps@);
            assert(r@ =~= self@);
        }
        r
    }

    /// Record `n` more sharps on degree `ix` in the current bar's map.
    #[verifier::loop_isolation(false)]
    pub fn add_sharp(&mut self, ix: i64, n: i64) -> (r: Result<(), ParseError>)
        requires
            -DEGREE_LIMIT <= n <= DEGREE_LIMIT,
        ensures
            match add_sharp_spec(old(self)@.sharps, ix, n) {
                Ok(s2) => r == Ok::<(), ParseError>(()) && final(self)@ == (TrackStateS {
                    sharps: s2,
                    ..old(self)@
                }),
                Err(e) => r == Err::<(), ParseError>(e) && final(self)@ == old(self)@,
            },
            old(self)@.wf() ==> final(self)@.wf(),
    {
        proof {
            lemma_find_key(old(self)@.sharps, ix);
        }
        let n_entries = self.sharps.len();
        let mut i: usize = 0;
        while i < n_entries
            invariant
                n_entries == self.sharps@.len(),
                i <= n_entries,
                forall|j: int| 0 <= j < i ==> (#[trigger] self.sharps@[j]).0 != ix,
                *self == *old(self),
            decreases n_entries - i,
        {
            if self.sharps[i].0 == ix {
                proof {
                    lemma_find_key_at(self.sharps@, ix, i as int);
                }
                let v = self.sharps[i].1;
                if v > DEGREE_LIMIT - n || v < -DEGREE_LIMIT - n {
                    return Err(ParseError::NumberTooLarge);
                }
                self.sharps.set(i, (ix, v + n));
                proof {
                    assert(final(self)@ =~= (TrackStateS {
                        sharps: old(self)@.sharps.update(i as int, (ix, (v + n) as i64)),
                        ..old(self)@
                    }));
                    if old(self)@.wf() {
                        assert forall|j: int|
                            0 <= j < self@.sharps.len() implies -DEGREE_LIMIT <= (
                        #[trigger] self@.sharps[j]).1 <= DEGREE_LIMIT by {
                            if j != i {
                                assert(self@.sharps[j] == old(self)@.sharps[j]);
                            }
                        }
                    }
                }
                return Ok(());
            }
            i += 1;
        }
        proof {
            lemma_find_key(self.sharps@, ix);
            assert(find_key(self.sharps@, ix) == -1) by {
                if find_key(self.sharps@, ix) >= 0 {
                    assert((self.sharps@[find_key(self.sharps@, ix)]).0 == ix);
                }
            }
        }
        self.sharps.push((ix, n));
        proof {
            assert(final(self)@ =~= (TrackStateS {
                sharps: old(self)@.sharps.push((ix, n)),
                ..old(self)@
            }));
            if old(self)@.wf() {
                assert forall|j: int|
                    0 <= j < self@.sharps.len() implies -DEGREE_LIMIT <= (
                #[trigger] self@.sharps[j]).1 <= DEGREE_LIMIT by {
                    if j < self@.sharps.len() - 1 {
                        assert(self@.sharps[j] == old(self)@.sharps[j]);
                    }
                }
            }
        }
        Ok(())
    }

    /// Drop any accidental recorded on degree `ix`: it reverts to natural.
    #[verifier::loop_isolation(false)]
    pub fn reset_sharp(&mut self, ix: i64)
        ensures
            final(self)@ == (TrackStateS {
                sharps: reset_sharp_spec(old(self)@.sharps, ix),
                ..old(self)@
            }),
            old(self)@.wf() ==> final(self)@.wf(),
    {
        proof {
            lemma_find_key(old(self)@.sharps, ix);
        }
        let n_entries = self.sharps.len();
        let mut i: usize = 0;
        while i < n_entries
            invariant
                n_entries == self.sharps@.len(),
                i <= n_entries,
                forall|j: int| 0 <= j < i ==> (#[trigger] self.sharps@[j]).0 != ix,
                *self == *old(self),
            decreases n_entries - i,
        {
            if self.sharps[i].0 == ix {
                proof {
                    lemma_find_key_at(self.sharps@, ix, i as int);
                }
                self.sharps.remove(i);
                proof {
                    assert(final(self)@ =~= (TrackStateS {
                        sharps: reset_sharp_spec(old(self)@.sharps, ix),
                        ..old(self)@
                    }));
                    if old(self)@.wf() {
                        assert forall|j: int|
                            0 <= j < self@.sharps.len() implies -DEGREE_LIMIT <= (
                        #[trigger] self@.sharps[j]).1 <= DEGREE_LIMIT by {
                            if j < i {
                                assert(self@.sharps[j] == old(self)@.sharps[j]);
                            } else {
                                assert(self@.sharps[j] == old(self)@.sharps[j + 1]);
                            }
                        }
                    }
                }
                return ;
            }
            i += 1;
        }
        proof {
            lemma_find_key(self.sharps@, ix);
            assert(find_key(self.sharps@, ix) == -1) by {
                if find_key(self.sharps@, ix) >= 0 {
                    assert((self.sharps@[find_key(self.sharps@, ix)]).0 == ix);
                }
            }
            assert(final(self)@ =~= (TrackStateS {
                sharps: reset_sharp_spec(old(self)@.sharps, ix),
                ..old(self)@
            }));
        }
    }
}

/// A scan that saw no entry for `k` before index `i`, and one at `i`,
/// found the first: `find_key` returns `i`.
proof fn lemma_find_key_at(s: Seq<(i64, i64)>, k: i64, i: int)
    requires
        0 <= i < s.len(),
        s[i].0 == k,
        forall|j: int| 0 <= j < i ==> (#[trigger] s[j]).0 != k,
    ensures
        find_key(s, k) == i,
    decreases s.len(),
{
    if i > 0 {
        assert(forall|j: int|
            0 <= j < i - 1 ==> (#[trigger] s.drop_first()[j]).0 != k);
        assert(s.drop_first()[i - 1].0 == k);
        lemma_find_key_at(s.drop_first(), k, i - 1);
    }
}

/// Both endpoints of `trailing_dots`.
pub proof fn lemma_trailing_dots_bounds(s: Seq<char>)
    ensures
        0 <= trailing_dots(s) <= s.len(),
    decreases s.len(),
{
    if s.len() > 0 && s.last() == '.' {
        lemma_trailing_dots_bounds(s.drop_last());
    }
}

/// What a duration token denotes: `/K` with optional trailing dots, where
/// `K` is a positive number of at most ten digits' worth. Anything else is
/// not a duration token.
pub open spec fn duration_of_token(s: Seq<char>) -> Option<Duration> {
    if s.len() >= 2 && s[0] == '/' && trailing_dots(s) <= s.len() - 2 && trailing_dots(s)
        <= u32::MAX {
        let core = s.subrange(1, s.len() - trailing_dots(s));
        if all_digits(core) && 1 <= digits_val(core) && digits_val(core) <= u32::MAX {
            Some(
                Duration {
                    klass: digits_val(core) as u32,
                    dots: trailing_dots(s) as u32,
                    stretch: 1,
                },
            )
        } else {
            None
        }
    } else {
        None
    }
}

/// Read a duration token: `'/'`, digits, then zero or more dots.
#[verifier::loop_isolation(false)]
pub fn try_read_duration(s: &str) -> (r: Option<Duration>)
    ensures
        r == duration_of_token(s@),
{
    proof {
        lemma_trailing_dots_bounds(s@);
    }
    let n = s.unicode_len();
    if n < 2 {
        return None;
    }
    if s.get_char(0) != '/' {
        return None;
    }
    let mut e: usize = n;
    while e > 1 && s.get_char(e - 1) == '.'
        invariant
            1 <= e <= n,
            forall|i: int| e <= i < n ==> s@[i] == '.',
        decreases e,
    {
        e -= 1;
    }
    if e == 1 {
        proof {
            lemma_trailing_dots_chars(s@, 1);
        }
        return None;
    }
    proof {
        lemma_trailing_dots_chars(s@, e as int);
    }
    if n - e > u32::MAX as usize {
        return None;
    }
    match parse_digits_u32(s, 1, e) {
        None => None,
        Some(v) => {
            if v == 0 {
                None
            } else {
                Some(Duration { klass: v, dots: (n - e) as u32, stretch: 1 })
            }
        },
    }
}

/// What a clef token denotes.
pub open spec fn clef_of_token(s: Seq<char>) -> Option<Clef> {
    if s == "treble-C"@ {
        Some(Clef::Treble)
    } else if s == "bass-C"@ {
        Some(Clef::Bass)
    } else {
        None
    }
}

/// Read a clef-change token.
pub fn try_read_clef(s: &str) -> (r: Option<Clef>)
    ensures
        r == clef_of_token(s@),
{
    if str_eq(s, "treble-C") {
        Some(Clef::Treble)
    } else if str_eq(s, "bass-C") {
        Some(Clef::Bass)
    } else {
        None
    }
}

/// The token is a trill tag: it starts with `tr`.
pub open spec fn is_trill_token(s: Seq<char>) -> bool {
    s.len() >= 2 && s[0] == 't' && s[1] == 'r'
}

/// How many notes a trill tag asks for: the digits after `tr`, or four
/// when they are absent or unreadable.
pub open spec fn trill_count_of(s: Seq<char>) -> int {
    let suf = s.skip(2);
    if suf.len() >= 1 && all_digits(suf) && digits_val(suf) <= u32::MAX {
        digits_val(suf)
    } else {
        4
    }
}

/// Read the note count out of a trill tag.
pub fn read_trill_count(s: &str) -> (r: u32)
    requires
        is_trill_token(s@),
    ensures
        r == trill_count_of(s@),
{
    let n = s.unicode_len();
    if n == 2 {
        return 4;
    }
    proof {
        assert(s@.subrange(2, n as int) =~= s@.skip(2));
    }
    match parse_digits_u32(s, 2, n) {
        Some(v) => v,
        None => 4,
    }
}

/// Fold a normalized degree into the octave table: add 7 (one octave down)
/// while it is negative, subtract 7 (one octave up) while it is above 7.
/// Returns the table index in `0 ..= 7` and the octave shift.
pub open spec fn fold_degree(ix: int) -> (int, int)
    decreases (if ix < 0 { 7 - ix } else { ix }),
{
    if ix < 0 {
        let r = fold_degree(ix + 7);
        (r.0, r.1 - 1)
    } else if ix > 7 {
        let r = fold_degree(ix - 7);
        (r.0, r.1 + 1)
    } else {
        (ix, 0)
    }
}

/// The folded index lands in the table and the octave shift is within a
/// seventh of the degree.
pub proof fn lemma_fold_degree_bounds(ix: int)
    ensures
        0 <= fold_degree(ix).0 <= 7,
        ix - 7 <= 7 * fold_degree(ix).1 <= ix,
    decreases (if ix < 0 { 7 - ix } else { ix }),
{
    if ix < 0 {
        lemma_fold_degree_bounds(ix + 7);
    } else if ix > 7 {
        lemma_fold_degree_bounds(ix - 7);
    }
}

/// The frequency a degree resolves to under a reading state: the sharp
/// count in force for the degree plus the global offset, over the folded
/// table position.
pub open spec fn resolve_freq(st: TrackStateS, ix: i64) -> Freq {
    Freq {
        index: fold_degree(ix as int).0 as u8,
        octave: fold_degree(ix as int).1 as i64,
        sharps: (lookup_sharp(st.sharps, ix) + st.global_sharp) as i64,
    }
}

impl TrackState {
    /// The sharp count recorded for degree `ix` in the current bar, or zero.
    #[verifier::loop_isolation(false)]
    pub fn get_sharp(&self, ix: i64) -> (r: i64)
        ensures
            r == lookup_sharp(self@.sharps, ix),
    {
        let n_entries = self.sharps.len();
        let mut i: usize = 0;
        while i < n_entries
            invariant
                i <= n_entries,
                forall|j: int| 0 <= j < i ==> (#[trigger] self.sharps@[j]).0 != ix,
            decreases n_entries - i,
        {
            if self.sharps[i].0 == ix {
                proof {
                    lemma_find_key_at(self.sharps@, ix, i as int);
                }
                return self.sharps[i].1;
            }
            i += 1;
        }
        proof {
            lemma_find_key(self.sharps@, ix);
            assert(find_key(self.sharps@, ix) == -1) by {
                if find_key(self.sharps@, ix) >= 0 {
                    assert((self.sharps@[find_key(self.sharps@, ix)]).0 != ix);
                }
            }
        }
        0
    }

    /// Normalize a raw degree under the clef in force: shift by the clef
    /// offset, then down a scale to move the reference octave.
    pub fn norm_pitch(&self, ix: i64) -> (r: i64)
        requires
            -DEGREE_LIMIT <= ix <= DEGREE_LIMIT,
        ensures
            r == ix + clef_offset(self@.clef) - 7,
            -DEGREE_LIMIT - 17 <= r <= DEGREE_LIMIT,
    {
        match self.clef {
            Clef::Treble => ix + 2 - 7,
            Clef::Bass => ix - 10 - 7,
        }
    }

    /// Resolve a normalized degree to its symbolic frequency under this
    /// state. Resolution is pure: the result depends only on the degree,
    /// the accidental map, and the global sharp offset.
    #[verifier::loop_isolation(false)]
    pub fn freq_for_ix(&self, ix: i64) -> (r: Freq)
        requires
            self@.wf(),
        ensures
            r == resolve_freq(self@, ix),
            r.wf(),
    {
        proof {
            lemma_find_key(self@.sharps, ix);
            lemma_fold_degree_bounds(ix as int);
        }
        let sharp = self.get_sharp(ix) + self.global_sharp;
        let mut cur: i64 = ix;
        let mut oct: i64 = 0;
        while cur < 0
            invariant
                fold_degree(ix as int).0 == fold_degree(cur as int).0,
                fold_degree(ix as int).1 == fold_degree(cur as int).1 + oct,
            decreases 7 - cur,
        {
            proof {
                lemma_fold_degree_bounds(cur as int);
                lemma_fold_degree_bounds(cur + 7);
            }
            cur = cur + 7;
            oct = oct - 1;
        }
        while cur > 7
            invariant
                cur >= 0,
                fold_degree(ix as int).0 == fold_degree(cur as int).0,
                fold_degree(ix as int).1 == fold_degree(cur as int).1 + oct,
            decreases cur,
        {
            proof {
                lemma_fold_degree_bounds(cur as int);
                lemma_fold_degree_bounds(cur - 7);
            }
            cur = cur - 7;
            oct = oct + 1;
        }
        Freq { index: cur as u8, octave: oct, sharps: sharp }
    }
}

/// An unresolved note: a duration, the reading state captured when it was
/// read (so its degrees can be resolved later under exactly that context),
/// and its normalized degrees (none for a rest, several for a chord).
#[derive(Debug)]
pub struct RawNote {
    pub dur: Duration,
    pub state: TrackState,
    pub pitch: Vec<i64>,
}

/// Spec-level shape of a `RawNote`.
#[verifier::ext_equal]
pub struct RawNoteS {
    pub dur: Duration,
    pub state: TrackStateS,
    pub pitch: Seq<i64>,
}

impl View for RawNote {
    type V = RawNoteS;

    open spec fn view(&self) -> RawNoteS {
        RawNoteS { dur: self.dur, state: self.state@, pitch: self.pitch@ }
    }
}

impl DeepView for RawNote {
    type V = RawNoteS;

    open spec fn deep_view(&self) -> RawNoteS {
        self.view()
    }
}

impl RawNoteS {
    pub open spec fn wf(self) -> bool {
        self.dur.wf() && self.state.wf()
    }
}

/// The note a raw note resolves to: each degree becomes a frequency under
/// the captured state, and the envelope takes its default fractions.
pub open spec fn to_note_spec(rn: RawNoteS) -> NoteS {
    NoteS {
        duration: rn.dur,
        pitch: if rn.pitch.len() == 0 {
            PitchS::Rest
        } else if rn.pitch.len() == 1 {
            PitchS::Single(resolve_freq(rn.state, rn.pitch[0]))
        } else {
            PitchS::Chord(rn.pitch.map_values(|p: i64| resolve_freq(rn.state, p)))
        },
        amp_pct: DEFAULT_AMP_PCT,
        easing_pct: DEFAULT_EASING_PCT,
        rest_after_pct: DEFAULT_REST_AFTER_PCT,
    }
}

/// A note with the default gain and envelope fractions.
pub fn mk_note(dur: Duration, pitch: Pitch) -> (r: Note)
    ensures
        r.duration == dur,
        r.pitch == pitch,
        r.amp_pct == DEFAULT_AMP_PCT,
        r.easing_pct == DEFAULT_EASING_PCT,
        r.rest_after_pct == DEFAULT_REST_AFTER_PCT,
{
    Note {
        duration: dur,
        pitch,
        amp_pct: DEFAULT_AMP_PCT,
        easing_pct: DEFAULT_EASING_PCT,
        rest_after_pct: DEFAULT_REST_AFTER_PCT,
    }
}

/// A silent note of the given duration.
pub fn mk_rest(dur: Duration) -> (r: Note)
    ensures
        r.duration == dur,
        r.pitch@ == PitchS::Rest,
        r.amp_pct == DEFAULT_AMP_PCT,
        r.easing_pct == DEFAULT_EASING_PCT,
        r.rest_after_pct == DEFAULT_REST_AFTER_PCT,
{
    mk_note(dur, Pitch::Rest)
}

impl RawNote {
    /// Resolve this raw note's degrees under its captured state.
    #[verifier::loop_isolation(false)]
    pub fn to_note(&self) -> (r: Note)
        requires
            self@.wf(),
        ensures
            r@ == to_note_spec(self@),
            r@.wf(),
    {
        if self.pitch.len() == 0 {
            let r = mk_note(self.dur, Pitch::Rest);
            proof {
                assert(r@ =~= to_note_spec(self@));
                assert(r@.wf());
            }
            r
        } else if self.pitch.len() == 1 {
            let r = mk_note(self.dur, Pitch::Single(self.state.freq_for_ix(self.pitch[0])));
            proof {
                assert(r@ =~= to_note_spec(self@));
                assert(r@.wf());
            }
            r
        } else {
            let mut fs: Vec<Freq> = Vec::new();
            let mut i: usize = 0;
            while i < self.pitch.len()
                invariant
                    i <= self.pitch@.len(),
                    fs@ =~= self.pitch@.take(i as int).map_values(
                        |p: i64| resolve_freq(self@.state, p),
                    ),
                decreases self.pitch@.len() - i,
            {
                fs.push(self.state.freq_for_ix(self.pitch[i]));
                proof {
                    assert(fs@ =~= self.pitch@.take(i + 1).map_values(
                        |p: i64| resolve_freq(self@.state, p),
                    ));
                }
                i += 1;
            }
            let r = mk_note(self.dur, Pitch::Chord(fs));
            proof {
                assert(self.pitch@.take(self.pitch@.len() as int) =~= self.pitch@);
                assert(r@ =~= to_note_spec(self@));
                let m = self.pitch@.map_values(|p: i64| resolve_freq(self@.state, p));
                assert forall|k: int| 0 <= k < m.len() implies (#[trigger] m[k]).wf() by {
                    lemma_fold_degree_bounds(self.pitch@[k] as int);
                }
                assert(r@.wf());
            }
            r
        }
    }
}

/// The normalized degrees of a chord: every element must be an in-range
/// integer degree.
pub open spec fn chord_degrees(vs: Seq<Sexp>, clef: Clef) -> Result<Seq<i64>, ParseError>
    decreases vs.len(),
{
    if vs.len() == 0 {
        Ok(Seq::empty())
    } else {
        match chord_degrees(vs.drop_last(), clef) {
            Ok(ds) => match vs.last() {
                Sexp::Int(d) => if -DEGREE_LIMIT <= d <= DEGREE_LIMIT {
                    Ok(ds.push((d + clef_offset(clef) - 7) as i64))
                } else {
                    Err(ParseError::DegreeOutOfRange)
                },
                _ => Err(ParseError::BadPitch),
            },
            Err(e) => Err(e),
        }
    }
}

/// Once a chord prefix fails, the whole chord fails the same way.
proof fn lemma_chord_prefix_err(vs: Seq<Sexp>, clef: Clef, i: int, j: int)
    requires
        0 <= i <= j <= vs.len(),
        chord_degrees(vs.take(i), clef) matches Err(_),
    ensures
        chord_degrees(vs.take(j), clef) == chord_degrees(vs.take(i), clef),
    decreases j - i,
{
    if j > i {
        lemma_chord_prefix_err(vs, clef, i, j - 1);
        assert(vs.take(j).drop_last() =~= vs.take(j - 1));
    }
}

/// What a pitch token denotes under a reading state, and the state it
/// leaves behind: `r` is a rest; an integer is one degree; a list of
/// integers is a chord; `(sharp|flat|natural <degree>)` records an
/// accidental for the degree and yields it.
pub open spec fn read_pitch_spec(v: Sexp, st: TrackStateS) -> Result<
    (Seq<i64>, TrackStateS),
    ParseError,
> {
    match v {
        Sexp::Sym(sy) => if sy@ == "r"@ {
            Ok((Seq::empty(), st))
        } else {
            Err(ParseError::BadPitch)
        },
        Sexp::Int(d) => if -DEGREE_LIMIT <= d <= DEGREE_LIMIT {
            Ok((seq![(d + clef_offset(st.clef) - 7) as i64], st))
        } else {
            Err(ParseError::DegreeOutOfRange)
        },
        Sexp::List(l) => if l@.len() == 0 {
            Err(ParseError::BadPitch)
        } else {
            match l@[0] {
                Sexp::Sym(tag) => if l@.len() != 2 {
                    Err(ParseError::WrongArity)
                } else {
                    match l@[1] {
                        Sexp::Int(d) => if -DEGREE_LIMIT <= d <= DEGREE_LIMIT {
                            accidental_spec(tag@, (d + clef_offset(st.clef) - 7) as i64, st)
                        } else {
                            Err(ParseError::DegreeOutOfRange)
                        },
                        _ => Err(ParseError::BadPitch),
                    }
                },
                _ => match chord_degrees(l@, st.clef) {
                    Ok(ds) => Ok((ds, st)),
                    Err(e) => Err(e),
                },
            }
        },
    }
}

/// The effect of one accidental tag on the bar's map, and the degree it
/// yields.
pub open spec fn accidental_spec(tag: Seq<char>, p: i64, st: TrackStateS) -> Result<
    (Seq<i64>, TrackStateS),
    ParseError,
> {
    if tag == "sharp"@ {
        match add_sharp_spec(st.sharps, p, 1) {
            Ok(s2) => Ok((seq![p], TrackStateS { sharps: s2, ..st })),
            Err(e) => Err(e),
        }
    } else if tag == "flat"@ {
        match add_sharp_spec(st.sharps, p, -1i64) {
            Ok(s2) => Ok((seq![p], TrackStateS { sharps: s2, ..st })),
            Err(e) => Err(e),
        }
    } else if tag == "natural"@ {
        Ok((seq![p], TrackStateS { sharps: reset_sharp_spec(st.sharps, p), ..st }))
    } else {
        Err(ParseError::BadPitch)
    }
}

/// Read one pitch token, recording any accidental it carries in the bar's
/// map. On an error the state is untouched.
#[verifier::loop_isolation(false)]
pub fn read_pitch(v: &Sexp, st: &mut TrackState) -> (r: Result<Vec<i64>, ParseError>)
    requires
        old(st)@.wf(),
    ensures
        match read_pitch_spec(*v, old(st)@) {
            Ok((ds, st2)) => r matches Ok(d) && d@ == ds && final(st)@ == st2,
            Err(e) => r == Err::<Vec<i64>, ParseError>(e) && final(st)@ == old(st)@,
        },
        final(st)@.wf(),
{
    match v {
        Sexp::Sym(sy) => {
            if str_eq(sy.as_str(), "r") {
                Ok(Vec::new())
            } else {
                Err(ParseError::BadPitch)
            }
        },
        Sexp::Int(d) => {
            if *d < -DEGREE_LIMIT || *d > DEGREE_LIMIT {
                Err(ParseError::DegreeOutOfRange)
            } else {
                let mut out: Vec<i64> = Vec::new();
                out.push(st.norm_pitch(*d));
                proof {
                    assert(out@ =~= seq![(*d + clef_offset(st@.clef) - 7) as i64]);
                }
                Ok(out)
            }
        },
        Sexp::List(l) => {
            if l.len() == 0 {
                return Err(ParseError::BadPitch);
            }
            let head_is_sym = matches!(&l[0], Sexp::Sym(_));
            if head_is_sym {
                if l.len() != 2 {
                    return Err(ParseError::WrongArity);
                }
                let p: i64 = match &l[1] {
                    Sexp::Int(d) => {
                        if *d < -DEGREE_LIMIT || *d > DEGREE_LIMIT {
                            return Err(ParseError::DegreeOutOfRange);
                        }
                        st.norm_pitch(*d)
                    },
                    _ => {
                        return Err(ParseError::BadPitch);
                    },
                };
                match &l[0] {
                    Sexp::Sym(tag) => {
                        if str_eq(tag.as_str(), "sharp") {
                            match st.add_sharp(p, 1) {
                                Ok(()) => {
                                    let mut out: Vec<i64> = Vec::new();
                                    out.push(p);
                                    proof {
                                        assert(out@ =~= seq![p]);
                                    }
                                    Ok(out)
                                },
                                Err(e) => Err(e),
                            }
                        } else if str_eq(tag.as_str(), "flat") {
                            match st.add_sharp(p, -1) {
                                Ok(()) => {
                                    let mut out: Vec<i64> = Vec::new();
                                    out.push(p);
                                    proof {
                                        assert(out@ =~= seq![p]);
                                    }
                                    Ok(out)
                                },
                                Err(e) => Err(e),
                            }
                        } else if str_eq(tag.as_str(), "natural") {
                            st.reset_sharp(p);
                            let mut out: Vec<i64> = Vec::new();
                            out.push(p);
                            proof {
                                assert(out@ =~= seq![p]);
                            }
                            Ok(out)
                        } else {
                            Err(ParseError::BadPitch)
                        }
                    },
                    _ => {
                        proof {
                            assert(false);
                        }
                        Err(ParseError::BadPitch)
                    },
                }
            } else {
                let mut out: Vec<i64> = Vec::new();
                let mut i: usize = 0;
                while i < l.len()
                    invariant
                        i <= l@.len(),
                        chord_degrees(l@.take(i as int), st@.clef) == Ok::<
                            Seq<i64>,
                            ParseError,
                        >(out@),
                    decreases l@.len() - i,
                {
                    proof {
                        assert(l@.take(i + 1).drop_last() =~= l@.take(i as int));
                        assert(l@.take(i + 1).last() == l@[i as int]);
                    }
                    match &l[i] {
                        Sexp::Int(d) => {
                            if *d < -DEGREE_LIMIT || *d > DEGREE_LIMIT {
                                proof {
                                    lemma_chord_prefix_err(l@, st@.clef, i + 1, l@.len() as int);
                                    assert(l@.take(l@.len() as int) =~= l@);
                                }
                                return Err(ParseError::DegreeOutOfRange);
                            }
                            out.push(st.norm_pitch(*d));
                        },
                        _ => {
                            proof {
                                lemma_chord_prefix_err(l@, st@.clef, i + 1, l@.len() as int);
                                assert(l@.take(l@.len() as int) =~= l@);
                            }
                            return Err(ParseError::BadPitch);
                        },
                    }
                    i += 1;
                }
                proof {
                    assert(l@.take(l@.len() as int) =~= l@);
                }
                Ok(out)
            }
        },
    }
}

/// A one-element degree vector.
fn vec1(p: i64) -> (r: Vec<i64>)
    ensures
        r@ =~= seq![p],
{
    let mut r: Vec<i64> = Vec::new();
    r.push(p);
    r
}

/// What a trill expands one raw note into: `n` notes (in `n/2` pairs) of
/// `1/n` the duration, alternating between the base degree and the degree
/// above it. The note must hold exactly one degree.
pub open spec fn trill_one_spec(rn: RawNoteS, n: int) -> Result<Seq<RawNoteS>, ParseError> {
    if rn.pitch.len() != 1 {
        Err(ParseError::WrongCardinality)
    } else if n / 2 == 0 {
        Ok(Seq::empty())
    } else if rn.dur.klass * n > u32::MAX {
        Err(ParseError::NumberTooLarge)
    } else if rn.pitch[0] == i64::MAX {
        Err(ParseError::NumberTooLarge)
    } else {
        Ok(
            Seq::new(
                (2 * (n / 2)) as nat,
                |i: int|
                    RawNoteS {
                        dur: Duration {
                            klass: (rn.dur.klass * n) as u32,
                            dots: rn.dur.dots,
                            stretch: rn.dur.stretch,
                        },
                        state: rn.state,
                        pitch: seq![
                            if i % 2 == 0 {
                                rn.pitch[0]
                            } else {
                                (rn.pitch[0] + 1) as i64
                            }
                        ],
                    },
            ),
        )
    }
}

/// What a grace ornament expands one raw note into: a fast grace note one
/// degree below (a twelfth of the duration), then the main note stretched
/// back to eleven twelfths. The note must hold exactly one degree.
pub open spec fn acciac_pair_spec(rn: RawNoteS) -> Result<Seq<RawNoteS>, ParseError> {
    if rn.pitch.len() != 1 {
        Err(ParseError::WrongCardinality)
    } else if rn.dur.klass * 12 > u32::MAX {
        Err(ParseError::NumberTooLarge)
    } else if rn.dur.stretch * 11 > u32::MAX {
        Err(ParseError::NumberTooLarge)
    } else if rn.pitch[0] == i64::MIN {
        Err(ParseError::NumberTooLarge)
    } else {
        Ok(
            seq![
                RawNoteS {
                    dur: Duration {
                        klass: (rn.dur.klass * 12) as u32,
                        dots: rn.dur.dots,
                        stretch: rn.dur.stretch,
                    },
                    state: rn.state,
                    pitch: seq![(rn.pitch[0] - 1) as i64],
                },
                RawNoteS {
                    dur: Duration {
                        klass: (rn.dur.klass * 12) as u32,
                        dots: rn.dur.dots,
                        stretch: (rn.dur.stretch * 11) as u32,
                    },
                    state: rn.state,
                    pitch: seq![rn.pitch[0]],
                },
            ],
        )
    }
}

impl RawNote {
    /// Expand this note into a trill of `n` notes.
    #[verifier::loop_isolation(false)]
    pub fn trill(&self, n: u32) -> (r: Result<Vec<RawNote>, ParseError>)
        requires
            self@.wf(),
        ensures
            match trill_one_spec(self@, n as int) {
                Ok(rns) => r matches Ok(x) && x.deep_view() == rns && forall|i: int|
                    0 <= i < rns.len() ==> (#[trigger] rns[i]).wf(),
                Err(e) => r == Err::<Vec<RawNote>, ParseError>(e),
            },
    {
        if self.pitch.len() != 1 {
            return Err(ParseError::WrongCardinality);
        }
        let pairs = n / 2;
        if pairs == 0 {
            let r: Vec<RawNote> = Vec::new();
            proof {
                assert(r.deep_view() =~= Seq::<RawNoteS>::empty());
            }
            return Ok(r);
        }
        proof {
            assert((self@.dur.klass as int) * (n as int) <= 0xffff_ffff * 0xffff_ffff)
                by (nonlinear_arith)
                requires
                    0 <= self@.dur.klass <= 0xffff_ffff,
                    0 <= n <= 0xffff_ffff,
            ;
        }
        let prod: u64 = (self.dur.klass as u64) * (n as u64);
        if prod > u32::MAX as u64 {
            return Err(ParseError::NumberTooLarge);
        }
        let p = self.pitch[0];
        if p == i64::MAX {
            return Err(ParseError::NumberTooLarge);
        }
        let d2 = self.dur.faster(n as usize);
        proof {
            assert(d2.wf()) by {
                assert(self@.dur.klass * n >= 1) by (nonlinear_arith)
                    requires
                        self@.dur.klass >= 1,
                        n >= 1,
                ;
            }
        }
        let ghost full = match trill_one_spec(self@, n as int) {
            Ok(rns) => rns,
            Err(_) => Seq::empty(),
        };
        let mut out: Vec<RawNote> = Vec::new();
        let mut j: u32 = 0;
        while j < pairs
            invariant
                j <= pairs,
                out@.len() == 2 * j,
                out.deep_view() =~= full.take(2 * j as int),
                forall|i: int| 0 <= i < out@.len() ==> (#[trigger] out.deep_view()[i]).wf(),
            decreases pairs - j,
        {
            out.push(RawNote { dur: d2, state: self.state.snapshot(), pitch: vec1(p) });
            out.push(RawNote { dur: d2, state: self.state.snapshot(), pitch: vec1(p + 1) });
            proof {
                assert((2 * j as int) % 2 == 0);
                assert((2 * j as int + 1) % 2 == 1);
                assert(out.deep_view() =~= full.take(2 * (j + 1)));
            }
            j += 1;
        }
        proof {
            assert(full.take(2 * pairs as int) =~= full);
        }
        Ok(out)
    }

    /// Expand this note into its grace figure.
    pub fn acciaccatura(&self) -> (r: Result<Vec<RawNote>, ParseError>)
        requires
            self@.wf(),
        ensures
            match acciac_pair_spec(self@) {
                Ok(rns) => r matches Ok(x) && x.deep_view() == rns && forall|i: int|
                    0 <= i < rns.len() ==> (#[trigger] rns[i]).wf(),
                Err(e) => r == Err::<Vec<RawNote>, ParseError>(e),
            },
    {
        if self.pitch.len() != 1 {
            return Err(ParseError::WrongCardinality);
        }
        let prod12: u64 = (self.dur.klass as u64) * 12;
        if prod12 > u32::MAX as u64 {
            return Err(ParseError::NumberTooLarge);
        }
        let prod11: u64 = (self.dur.stretch as u64) * 11;
        if prod11 > u32::MAX as u64 {
            return Err(ParseError::NumberTooLarge);
        }
        let p = self.pitch[0];
        if p == i64::MIN {
            return Err(ParseError::NumberTooLarge);
        }
        let grace_dur = self.dur.faster(12);
        let main_dur = grace_dur.slower(11);
        let mut out: Vec<RawNote> = Vec::new();
        out.push(RawNote { dur: grace_dur, state: self.state.snapshot(), pitch: vec1(p - 1) });
        out.push(RawNote { dur: main_dur, state: self.state.snapshot(), pitch: vec1(p) });
        proof {
            assert(grace_dur.wf() && main_dur.wf()) by {
                assert(self@.dur.klass * 12 >= 1 && self@.dur.stretch * 11 >= 1)
                    by (nonlinear_arith)
                    requires
                        self@.dur.klass >= 1,
                        self@.dur.stretch >= 1,
                ;
            }
            assert(out.deep_view() =~= acciac_pair_spec(self@)->Ok_0);
        }
        Ok(out)
    }
}

/// Trill-expand each raw note of a sequence, in order.
pub open spec fn trill_all_spec(rns: Seq<RawNoteS>, n: int) -> Result<Seq<RawNoteS>, ParseError>
    decreases rns.len(),
{
    if rns.len() == 0 {
        Ok(Seq::empty())
    } else {
        match trill_all_spec(rns.drop_last(), n) {
            Ok(acc) => match trill_one_spec(rns.last(), n) {
                Ok(ex) => Ok(acc + ex),
                Err(e) => Err(e),
            },
            Err(e) => Err(e),
        }
    }
}

/// Once a prefix fails to trill, the whole sequence fails the same way.
proof fn lemma_trill_all_err(rns: Seq<RawNoteS>, n: int, i: int, j: int)
    requires
        0 <= i <= j <= rns.len(),
        trill_all_spec(rns.take(i), n) matches Err(_),
    ensures
        trill_all_spec(rns.take(j), n) == trill_all_spec(rns.take(i), n),
    decreases j - i,
{
    if j > i {
        lemma_trill_all_err(rns, n, i, j - 1);
        assert(rns.take(j).drop_last() =~= rns.take(j - 1));
    }
}

/// Trill-expand each raw note of a vector, concatenating the figures.
#[verifier::loop_isolation(false)]
pub fn trill_all(rns: &Vec<RawNote>, n: u32) -> (r: Result<Vec<RawNote>, ParseError>)
    requires
        forall|i: int| 0 <= i < rns@.len() ==> (#[trigger] rns.deep_view()[i]).wf(),
    ensures
        match trill_all_spec(rns.deep_view(), n as int) {
            Ok(ex) => r matches Ok(x) && x.deep_view() == ex && forall|i: int|
                0 <= i < ex.len() ==> (#[trigger] ex[i]).wf(),
            Err(e) => r == Err::<Vec<RawNote>, ParseError>(e),
        },
{
    let ghost dv = rns.deep_view();
    let mut out: Vec<RawNote> = Vec::new();
    let mut i: usize = 0;
    proof {
        assert(rns.deep_view().len() == rns@.len());
        assert(dv.take(0) =~= Seq::<RawNoteS>::empty());
        assert(out.deep_view() =~= Seq::<RawNoteS>::empty());
    }
    while i < rns.len()
        invariant
            i <= rns@.len(),
            trill_all_spec(dv.take(i as int), n as int) == Ok::<Seq<RawNoteS>, ParseError>(
                out.deep_view(),
            ),
            forall|k: int| 0 <= k < out@.len() ==> (#[trigger] out.deep_view()[k]).wf(),
        decreases rns@.len() - i,
    {
        proof {
            assert(dv.take(i + 1).drop_last() =~= dv.take(i as int));
            assert(dv.take(i + 1).last() == dv[i as int]);
        }
        match rns[i].trill(n) {
            Ok(mut ex) => {
                let ghost old_out = out.deep_view();
                let ghost ex_dv = ex.deep_view();
                out.append(&mut ex);
                proof {
                    assert(out.deep_view() =~= old_out + ex_dv);
                }
            },
            Err(e) => {
                proof {
                    lemma_trill_all_err(dv, n as int, i + 1, dv.len() as int);
                    assert(dv.take(dv.len() as int) =~= dv);
                }
                return Err(e);
            },
        }
        i += 1;
    }
    proof {
        assert(dv.take(dv.len() as int) =~= dv);
    }
    Ok(out)
}

/// Grace-expand each raw note of a sequence, registering one more sharp on
/// each expanded note's main degree: the sharp is what the grace ornament
/// leaves behind for the rest of the bar.
pub open spec fn acciac_all_spec(rns: Seq<RawNoteS>, st: TrackStateS) -> Result<
    (Seq<RawNoteS>, TrackStateS),
    ParseError,
>
    decreases rns.len(),
{
    if rns.len() == 0 {
        Ok((Seq::empty(), st))
    } else {
        match acciac_all_spec(rns.drop_last(), st) {
            Ok((acc, st1)) => match acciac_pair_spec(rns.last()) {
                Ok(ex) => match add_sharp_spec(st1.sharps, rns.last().pitch[0], 1) {
                    Ok(s2) => Ok((acc + ex, TrackStateS { sharps: s2, ..st1 })),
                    Err(e) => Err(e),
                },
                Err(e) => Err(e),
            },
            Err(e) => Err(e),
        }
    }
}

/// Once a prefix fails to grace-expand, the whole sequence fails the same
/// way.
proof fn lemma_acciac_all_err(rns: Seq<RawNoteS>, st: TrackStateS, i: int, j: int)
    requires
        0 <= i <= j <= rns.len(),
        acciac_all_spec(rns.take(i), st) matches Err(_),
    ensures
        acciac_all_spec(rns.take(j), st) == acciac_all_spec(rns.take(i), st),
    decreases j - i,
{
    if j > i {
        lemma_acciac_all_err(rns, st, i, j - 1);
        assert(rns.take(j).drop_last() =~= rns.take(j - 1));
    }
}

/// Grace-expand each raw note of a vector, threading the sharp side effect
/// through the reading state.
#[verifier::loop_isolation(false)]
pub fn acciac_all(rns: &Vec<RawNote>, st: &mut TrackState) -> (r: Result<Vec<RawNote>, ParseError>)
    requires
        old(st)@.wf(),
        forall|i: int| 0 <= i < rns@.len() ==> (#[trigger] rns.deep_view()[i]).wf(),
    ensures
        match acciac_all_spec(rns.deep_view(), old(st)@) {
            Ok((ex, st2)) => r matches Ok(x) && x.deep_view() == ex && final(st)@ == st2 && forall|
                i: int,
            | 0 <= i < ex.len() ==> (#[trigger] ex[i]).wf(),
            Err(e) => r matches Err(e2) && e2 == e,
        },
        final(st)@.wf(),
{
    let ghost dv = rns.deep_view();
    let mut out: Vec<RawNote> = Vec::new();
    let mut i: usize = 0;
    proof {
        assert(rns.deep_view().len() == rns@.len());
        assert(dv.take(0) =~= Seq::<RawNoteS>::empty());
        assert(out.deep_view() =~= Seq::<RawNoteS>::empty());
    }
    while i < rns.len()
        invariant
            i <= rns@.len(),
            acciac_all_spec(dv.take(i as int), old(st)@) == Ok::<
                (Seq<RawNoteS>, TrackStateS),
                ParseError,
            >((out.deep_view(), st@)),
            st@.wf(),
            forall|k: int| 0 <= k < out@.len() ==> (#[trigger] out.deep_view()[k]).wf(),
        decreases rns@.len() - i,
    {
        proof {
            assert(dv.take(i + 1).drop_last() =~= dv.take(i as int));
            assert(dv.take(i + 1).last() == dv[i as int]);
        }
        match rns[i].acciaccatura() {
            Ok(mut ex) => {
                match st.add_sharp(rns[i].pitch[0], 1) {
                    Ok(()) => {
                        let ghost old_out = out.deep_view();
                        let ghost ex_dv = ex.deep_view();
                        out.append(&mut ex);
                        proof {
                            assert(out.deep_view() =~= old_out + ex_dv);
                        }
                    },
                    Err(e) => {
                        proof {
                            lemma_acciac_all_err(dv, old(st)@, i + 1, dv.len() as int);
                            assert(dv.take(dv.len() as int) =~= dv);
                        }
                        return Err(e);
                    },
                }
            },
            Err(e) => {
                proof {
                    lemma_acciac_all_err(dv, old(st)@, i + 1, dv.len() as int);
                    assert(dv.take(dv.len() as int) =~= dv);
                }
                return Err(e);
            },
        }
        i += 1;
    }
    proof {
        assert(dv.take(dv.len() as int) =~= dv);
    }
    Ok(out)
}

/// What a note element denotes: a nested list is read as a compound note
/// form; a lone duration token is a rest.
pub open spec fn try_read_rawnote_spec(v: Sexp, st: TrackStateS) -> Result<
    (Seq<RawNoteS>, TrackStateS),
    ParseError,
>
    decreases v, 0int, 0int,
{
    match v {
        Sexp::List(l) => rawnotes_from_list_spec(l@, st),
        Sexp::Sym(sy) => match duration_of_token(sy@) {
            Some(d) => Ok((seq![RawNoteS { dur: d, state: st, pitch: Seq::empty() }], st)),
            None => Err(ParseError::BadNote),
        },
        Sexp::Int(_) => Err(ParseError::BadNote),
    }
}

/// What a compound note form denotes, by its head tag: a trill (`trN`), a
/// grace ornament (`acciac`), or a duration tag over pitch tokens.
pub open spec fn rawnotes_from_list_spec(vs: Seq<Sexp>, st: TrackStateS) -> Result<
    (Seq<RawNoteS>, TrackStateS),
    ParseError,
>
    decreases vs, 3int, 0int,
{
    if vs.len() == 0 {
        Err(ParseError::BadNote)
    } else {
        match vs[0] {
            Sexp::Sym(tag) => if is_trill_token(tag@) {
                trill_elems_spec(vs, vs.len() as int, st, trill_count_of(tag@))
            } else if tag@ == "acciac"@ {
                acciac_elems_spec(vs, vs.len() as int, st)
            } else {
                match duration_of_token(tag@) {
                    Some(d) => plain_elems_spec(vs, vs.len() as int, st, d),
                    None => Err(ParseError::BadNote),
                }
            },
            _ => Err(ParseError::BadNote),
        }
    }
}

/// Read and trill-expand the note elements `vs[1 .. i]`, threading the
/// state left to right.
pub open spec fn trill_elems_spec(vs: Seq<Sexp>, i: int, st: TrackStateS, n: int) -> Result<
    (Seq<RawNoteS>, TrackStateS),
    ParseError,
>
    decreases vs, 2int, i,
{
    if !(1 < i <= vs.len()) {
        Ok((Seq::empty(), st))
    } else {
        match trill_elems_spec(vs, i - 1, st, n) {
            Ok((acc, st1)) => match try_read_rawnote_spec(vs[i - 1], st1) {
                Ok((rns, st2)) => match trill_all_spec(rns, n) {
                    Ok(ex) => Ok((acc + ex, st2)),
                    Err(e) => Err(e),
                },
                Err(e) => Err(e),
            },
            Err(e) => Err(e),
        }
    }
}

/// Read and grace-expand the note elements `vs[1 .. i]`, threading the
/// state (and each expansion's sharp side effect) left to right.
pub open spec fn acciac_elems_spec(vs: Seq<Sexp>, i: int, st: TrackStateS) -> Result<
    (Seq<RawNoteS>, TrackStateS),
    ParseError,
>
    decreases vs, 2int, i,
{
    if !(1 < i <= vs.len()) {
        Ok((Seq::empty(), st))
    } else {
        match acciac_elems_spec(vs, i - 1, st) {
            Ok((acc, st1)) => match try_read_rawnote_spec(vs[i - 1], st1) {
                Ok((rns, st2)) => match acciac_all_spec(rns, st2) {
                    Ok((ex, st3)) => Ok((acc + ex, st3)),
                    Err(e) => Err(e),
                },
                Err(e) => Err(e),
            },
            Err(e) => Err(e),
        }
    }
}

/// Read the pitch tokens `vs[1 .. i]` under one duration tag: one raw note
/// per token, each capturing the state right after its own accidentals.
pub open spec fn plain_elems_spec(vs: Seq<Sexp>, i: int, st: TrackStateS, dur: Duration) -> Result<
    (Seq<RawNoteS>, TrackStateS),
    ParseError,
>
    decreases vs, 2int, i,
{
    if !(1 < i <= vs.len()) {
        Ok((Seq::empty(), st))
    } else {
        match plain_elems_spec(vs, i - 1, st, dur) {
            Ok((acc, st1)) => match read_pitch_spec(vs[i - 1], st1) {
                Ok((ds, st2)) => Ok((acc.push(RawNoteS { dur, state: st2, pitch: ds }), st2)),
                Err(e) => Err(e),
            },
            Err(e) => Err(e),
        }
    }
}

/// Once a prefix of trill elements fails, the whole list fails the same way.
proof fn lemma_trill_elems_err(vs: Seq<Sexp>, st: TrackStateS, n: int, i: int, j: int)
    requires
        1 <= i <= j <= vs.len(),
        trill_elems_spec(vs, i, st, n) matches Err(_),
    ensures
        trill_elems_spec(vs, j, st, n) == trill_elems_spec(vs, i, st, n),
    decreases j - i,
{
    if j > i {
        lemma_trill_elems_err(vs, st, n, i, j - 1);
    }
}

/// Once a prefix of grace elements fails, the whole list fails the same way.
proof fn lemma_acciac_elems_err(vs: Seq<Sexp>, st: TrackStateS, i: int, j: int)
    requires
        1 <= i <= j <= vs.len(),
        acciac_elems_spec(vs, i, st) matches Err(_),
    ensures
        acciac_elems_spec(vs, j, st) == acciac_elems_spec(vs, i, st),
    decreases j - i,
{
    if j > i {
        lemma_acciac_elems_err(vs, st, i, j - 1);
    }
}

/// Once a prefix of pitch tokens fails, the whole list fails the same way.
proof fn lemma_plain_elems_err(vs: Seq<Sexp>, st: TrackStateS, dur: Duration, i: int, j: int)
    requires
        1 <= i <= j <= vs.len(),
        plain_elems_spec(vs, i, st, dur) matches Err(_),
    ensures
        plain_elems_spec(vs, j, st, dur) == plain_elems_spec(vs, i, st, dur),
    decreases j - i,
{
    if j > i {
        lemma_plain_elems_err(vs, st, dur, i, j - 1);
    }
}

/// Read one note element: a rest token or a compound note form.
pub fn try_read_rawnote(v: &Sexp, st: &mut TrackState) -> (r: Result<Vec<RawNote>, ParseError>)
    requires
        old(st)@.wf(),
    ensures
        match try_read_rawnote_spec(*v, old(st)@) {
            Ok((rns, st2)) => r matches Ok(x) && x.deep_view() == rns && final(st)@ == st2
                && forall|i: int| 0 <= i < rns.len() ==> (#[trigger] rns[i]).wf(),
            Err(e) => r matches Err(e2) && e2 == e,
        },
        final(st)@.wf(),
    decreases v, 0int, 0int,
{
    match v {
        Sexp::Sym(sy) => {
            match try_read_duration(sy.as_str()) {
                Some(d) => {
                    let mut out: Vec<RawNote> = Vec::new();
                    out.push(RawNote { dur: d, state: st.snapshot(), pitch: Vec::new() });
                    proof {
                        assert(out.deep_view() =~= seq![
                            RawNoteS { dur: d, state: old(st)@, pitch: Seq::empty() },
                        ]);
                    }
                    Ok(out)
                },
                None => Err(ParseError::BadNote),
            }
        },
        Sexp::Int(_) => Err(ParseError::BadNote),
        Sexp::List(l) => try_read_rawnote_from_list(l, st),
    }
}

/// Read one compound note form, dispatching on its head tag.
#[verifier::loop_isolation(false)]
#[verifier::rlimit(50)]
pub fn try_read_rawnote_from_list(l: &Vec<Sexp>, st: &mut TrackState) -> (r: Result<
    Vec<RawNote>,
    ParseError,
>)
    requires
        old(st)@.wf(),
    ensures
        match rawnotes_from_list_spec(l@, old(st)@) {
            Ok((rns, st2)) => r matches Ok(x) && x.deep_view() == rns && final(st)@ == st2
                && forall|i: int| 0 <= i < rns.len() ==> (#[trigger] rns[i]).wf(),
            Err(e) => r matches Err(e2) && e2 == e,
        },
        final(st)@.wf(),
    decreases l@, 3int, 0int,
{
    if l.len() == 0 {
        return Err(ParseError::BadNote);
    }
    match &l[0] {
        Sexp::Sym(tag) => {
            let ts = tag.as_str();
            let ts_len = ts.unicode_len();
            let is_trill = ts_len >= 2 && ts.get_char(0) == 't' && ts.get_char(1) == 'r';
            if is_trill {
                let n = read_trill_count(ts);
                let mut out: Vec<RawNote> = Vec::new();
                let mut i: usize = 1;
                proof {
                    assert(out.deep_view() =~= Seq::<RawNoteS>::empty());
                }
                while i < l.len()
                    invariant
                        1 <= i <= l@.len(),
                        trill_elems_spec(l@, i as int, old(st)@, n as int) == Ok::<
                            (Seq<RawNoteS>, TrackStateS),
                            ParseError,
                        >((out.deep_view(), st@)),
                        st@.wf(),
                        forall|k: int|
                            0 <= k < out@.len() ==> (#[trigger] out.deep_view()[k]).wf(),
                    decreases l@.len() - i,
                {
                    match try_read_rawnote(&l[i], st) {
                        Ok(rns) => {
                            match trill_all(&rns, n) {
                                Ok(mut ex) => {
                                    let ghost old_out = out.deep_view();
                                    let ghost ex_dv = ex.deep_view();
                                    out.append(&mut ex);
                                    proof {
                                        assert(out.deep_view() =~= old_out + ex_dv);
                                    }
                                },
                                Err(e) => {
                                    proof {
                                        lemma_trill_elems_err(
                                            l@,
                                            old(st)@,
                                            n as int,
                                            i + 1,
                                            l@.len() as int,
                                        );
                                    }
                                    return Err(e);
                                },
                            }
                        },
                        Err(e) => {
                            proof {
                                lemma_trill_elems_err(
                                    l@,
                                    old(st)@,
                                    n as int,
                                    i + 1,
                                    l@.len() as int,
                                );
                            }
                            return Err(e);
                        },
                    }
                    i += 1;
                }
                Ok(out)
            } else if str_eq(ts, "acciac") {
                let mut out: Vec<RawNote> = Vec::new();
                let mut i: usize = 1;
                proof {
                    assert(out.deep_view() =~= Seq::<RawNoteS>::empty());
                }
                while i < l.len()
                    invariant
                        1 <= i <= l@.len(),
                        acciac_elems_spec(l@, i as int, old(st)@) == Ok::<
                            (Seq<RawNoteS>, TrackStateS),
                            ParseError,
                        >((out.deep_view(), st@)),
                        st@.wf(),
                        forall|k: int|
                            0 <= k < out@.len() ==> (#[trigger] out.deep_view()[k]).wf(),
                    decreases l@.len() - i,
                {
                    match try_read_rawnote(&l[i], st) {
                        Ok(rns) => {
                            match acciac_all(&rns, st) {
                                Ok(mut ex) => {
                                    let ghost old_out = out.deep_view();
                                    let ghost ex_dv = ex.deep_view();
                                    out.append(&mut ex);
                                    proof {
                                        assert(out.deep_view() =~= old_out + ex_dv);
                                    }
                                },
                                Err(e) => {
                                    proof {
                                        lemma_acciac_elems_err(
                                            l@,
                                            old(st)@,
                                            i + 1,
                                            l@.len() as int,
                                        );
                                    }
                                    return Err(e);
                                },
                            }
                        },
                        Err(e) => {
                            proof {
                                lemma_acciac_elems_err(l@, old(st)@, i + 1, l@.len() as int);
                            }
                            return Err(e);
                        },
                    }
                    i += 1;
                }
                Ok(out)
            } else {
                match try_read_duration(ts) {
                    Some(d) => {
                        let mut out: Vec<RawNote> = Vec::new();
                        let mut i: usize = 1;
                        proof {
                            assert(out.deep_view() =~= Seq::<RawNoteS>::empty());
                        }
                        while i < l.len()
                            invariant
                                1 <= i <= l@.len(),
                                plain_elems_spec(l@, i as int, old(st)@, d) == Ok::<
                                    (Seq<RawNoteS>, TrackStateS),
                                    ParseError,
                                >((out.deep_view(), st@)),
                                st@.wf(),
                                forall|k: int|
                                    0 <= k < out@.len() ==> (#[trigger] out.deep_view()[k]).wf(),
                            decreases l@.len() - i,
                        {
                            match read_pitch(&l[i], st) {
                                Ok(ds) => {
                                    let ghost old_out = out.deep_view();
                                    out.push(RawNote { dur: d, state: st.snapshot(), pitch: ds });
                                    proof {
                                        assert(out.deep_view() =~= old_out.push(
                                            RawNoteS { dur: d, state: st@, pitch: ds@ },
                                        ));
                                        assert(d.wf());
                                    }
                                },
                                Err(e) => {
                                    proof {
                                        lemma_plain_elems_err(
                                            l@,
                                            old(st)@,
                                            d,
                                            i + 1,
                                            l@.len() as int,
                                        );
                                    }
                                    return Err(e);
                                },
                            }
                            i += 1;
                        }
                        Ok(out)
                    },
                    None => Err(ParseError::BadNote),
                }
            }
        },
        _ => Err(ParseError::BadNote),
    }
}

/// The notes a sequence of raw notes resolves to.
pub open spec fn notes_of(rns: Seq<RawNoteS>) -> Seq<NoteS> {
    rns.map_values(|rn: RawNoteS| to_note_spec(rn))
}

/// Every note of the sequence is well formed.
pub open spec fn notes_wf(ns: Seq<NoteS>) -> bool {
    forall|i: int| 0 <= i < ns.len() ==> (#[trigger] ns[i]).wf()
}

/// An independent copy of a pitch.
#[verifier::loop_isolation(false)]
pub fn clone_pitch(p: &Pitch) -> (r: Pitch)
    ensures
        r@ == p@,
{
    match p {
        Pitch::Rest => Pitch::Rest,
        Pitch::Single(f) => Pitch::Single(*f),
        Pitch::Chord(fs) => {
            let mut out: Vec<Freq> = Vec::new();
            let mut i: usize = 0;
            while i < fs.len()
                invariant
                    i <= fs@.len(),
                    out@ =~= fs@.take(i as int),
                decreases fs@.len() - i,
            {
                out.push(fs[i]);
                proof {
                    assert(out@ =~= fs@.take(i + 1));
                }
                i += 1;
            }
            proof {
                assert(fs@.take(fs@.len() as int) =~= fs@);
            }
            Pitch::Chord(out)
        },
    }
}

/// The same note with another fade and silent-tail fraction.
pub fn with_envelope(n: &Note, easing_pct: u32, rest_after_pct: u32) -> (r: Note)
    ensures
        r@ == (NoteS { easing_pct, rest_after_pct, ..n@ }),
{
    let r = Note {
        duration: n.duration,
        pitch: clone_pitch(&n.pitch),
        amp_pct: n.amp_pct,
        easing_pct,
        rest_after_pct,
    };
    proof {
        assert(r@ =~= (NoteS { easing_pct, rest_after_pct, ..n@ }));
    }
    r
}

/// Resolve each raw note of a vector to its note.
#[verifier::loop_isolation(false)]
pub fn notes_of_rawnotes(rns: &Vec<RawNote>) -> (r: Vec<Note>)
    requires
        forall|i: int| 0 <= i < rns@.len() ==> (#[trigger] rns.deep_view()[i]).wf(),
    ensures
        r.deep_view() == notes_of(rns.deep_view()),
        notes_wf(r.deep_view()),
{
    let ghost dv = rns.deep_view();
    let mut out: Vec<Note> = Vec::new();
    let mut i: usize = 0;
    proof {
        assert(rns.deep_view().len() == rns@.len());
    }
    while i < rns.len()
        invariant
            i <= rns@.len(),
            out.deep_view() =~= notes_of(dv.take(i as int)),
            notes_wf(out.deep_view()),
        decreases rns@.len() - i,
    {
        proof {
            assert(rns.deep_view()[i as int].wf());
        }
        let ghost prev = out.deep_view();
        let n = rns[i].to_note();
        proof {
            assert(n@ == to_note_spec(dv[i as int]));
        }
        out.push(n);
        proof {
            assert(out.deep_view() =~= prev.push(n@));
            assert forall|k: int| 0 <= k < i + 1 implies out.deep_view()[k] == notes_of(
                dv.take(i + 1),
            )[k] by {
                assert(notes_of(dv.take(i + 1))[k] == to_note_spec(dv.take(i + 1)[k]));
                if k < i {
                    assert(out.deep_view()[k] == prev[k]);
                    assert(prev[k] == notes_of(dv.take(i as int))[k]);
                    assert(notes_of(dv.take(i as int))[k] == to_note_spec(dv.take(i as int)[k]));
                }
            }
            assert(out.deep_view() =~= notes_of(dv.take(i + 1)));
            assert forall|k: int| 0 <= k < out@.len() implies (#[trigger] out.deep_view()[k]).wf()
                by {
                if k < i {
                    assert(out.deep_view()[k] == prev[k]);
                }
            }
        }
        i += 1;
    }
    proof {
        assert(dv.take(dv.len() as int) =~= dv);
    }
    out
}

/// What a simple (atom) command denotes: a clef change mutates the state; a
/// bare duration token is a rest of that length.
pub open spec fn read_simple_cmd_spec(sy: Seq<char>, st: TrackStateS) -> Result<
    (Seq<NoteS>, TrackStateS),
    ParseError,
> {
    match clef_of_token(sy) {
        Some(c) => Ok((Seq::empty(), TrackStateS { clef: c, ..st })),
        None => match duration_of_token(sy) {
            Some(d) => Ok(
                (
                    seq![to_note_spec(RawNoteS { dur: d, state: st, pitch: Seq::empty() })],
                    st,
                ),
            ),
            None => Err(ParseError::UnknownCommand),
        },
    }
}

/// All but the last note of a slur fade fast and leave no silent tail.
pub open spec fn slur_adjust(ns: Seq<NoteS>) -> Seq<NoteS> {
    ns.map(
        |i: int, n: NoteS|
            if i < ns.len() - 1 {
                NoteS { easing_pct: SLUR_EASING_PCT, rest_after_pct: 0, ..n }
            } else {
                n
            },
    )
}

/// All but the last note of a staccato run leave half the slot silent.
pub open spec fn staccato_adjust(ns: Seq<NoteS>) -> Seq<NoteS> {
    ns.map(
        |i: int, n: NoteS|
            if i < ns.len() - 1 {
                NoteS { rest_after_pct: STACCATO_REST_PCT, ..n }
            } else {
                n
            },
    )
}

/// Read the note elements `vs[1 .. i]` and resolve them to notes, threading
/// the state left to right.
pub open spec fn notes_elems_spec(vs: Seq<Sexp>, i: int, st: TrackStateS) -> Result<
    (Seq<NoteS>, TrackStateS),
    ParseError,
>
    decreases vs, 2int, i,
{
    if !(1 < i <= vs.len()) {
        Ok((Seq::empty(), st))
    } else {
        match notes_elems_spec(vs, i - 1, st) {
            Ok((acc, st1)) => match try_read_rawnote_spec(vs[i - 1], st1) {
                Ok((rns, st2)) => Ok((acc + notes_of(rns), st2)),
                Err(e) => Err(e),
            },
            Err(e) => Err(e),
        }
    }
}

/// Once a prefix of note elements fails, the whole list fails the same way.
proof fn lemma_notes_elems_err(vs: Seq<Sexp>, st: TrackStateS, i: int, j: int)
    requires
        1 <= i <= j <= vs.len(),
        notes_elems_spec(vs, i, st) matches Err(_),
    ensures
        notes_elems_spec(vs, j, st) == notes_elems_spec(vs, i, st),
    decreases j - i,
{
    if j > i {
        lemma_notes_elems_err(vs, st, i, j - 1);
    }
}

/// What a compound (list) command denotes: the nested sharp-grace form, a
/// slur, a staccato run, or a plain compound note form. Opaque so that
/// callers reason about it only through `read_compound_cmd`'s contract.
#[verifier::opaque]
pub open spec fn read_compound_cmd_spec(vs: Seq<Sexp>, st: TrackStateS) -> Result<
    (Seq<NoteS>, TrackStateS),
    ParseError,
>
    decreases vs, 4int, 0int,
{
    if vs.len() == 0 {
        Err(ParseError::UnknownCommand)
    } else {
        match vs[0] {
            Sexp::List(tags) => if tags@.len() != 2 {
                Err(ParseError::WrongArity)
            } else {
                match (tags@[0], tags@[1]) {
                    (Sexp::Sym(t0), Sexp::Sym(t1)) => if t0@ == "acciac"@ && t1@ == "sharp"@ {
                        if vs.len() != 2 {
                            Err(ParseError::WrongArity)
                        } else {
                            match try_read_rawnote_spec(vs[1], st) {
                                Ok((rns, st1)) => if rns.len() != 1 {
                                    Err(ParseError::WrongCardinality)
                                } else {
                                    match acciac_all_spec(rns, st1) {
                                        Ok((ex, st2)) => Ok((notes_of(ex), st2)),
                                        Err(e) => Err(e),
                                    }
                                },
                                Err(e) => Err(e),
                            }
                        }
                    } else {
                        Err(ParseError::UnknownCommand)
                    },
                    _ => Err(ParseError::UnknownCommand),
                }
            },
            Sexp::Sym(tag) => if tag@ == "^"@ {
                match notes_elems_spec(vs, vs.len() as int, st) {
                    Ok((ns, st2)) => if ns.len() == 0 {
                        Err(ParseError::WrongArity)
                    } else {
                        Ok((slur_adjust(ns), st2))
                    },
                    Err(e) => Err(e),
                }
            } else if tag@ == "staccato"@ {
                match notes_elems_spec(vs, vs.len() as int, st) {
                    Ok((ns, st2)) => if ns.len() == 0 {
                        Err(ParseError::WrongArity)
                    } else {
                        Ok((staccato_adjust(ns), st2))
                    },
                    Err(e) => Err(e),
                }
            } else {
                match rawnotes_from_list_spec(vs, st) {
                    Ok((rns, st2)) => Ok((notes_of(rns), st2)),
                    Err(e) => Err(e),
                }
            },
            Sexp::Int(_) => Err(ParseError::UnknownCommand),
        }
    }
}

/// What one bar command denotes: an atom is a simple command, a list a
/// compound one.
pub open spec fn read_cmd_spec(v: Sexp, st: TrackStateS) -> Result<
    (Seq<NoteS>, TrackStateS),
    ParseError,
>
    decreases v, 5int, 0int,
{
    match v {
        Sexp::Sym(sy) => read_simple_cmd_spec(sy@, st),
        Sexp::List(l) => read_compound_cmd_spec(l@, st),
        Sexp::Int(_) => Err(ParseError::UnknownCommand),
    }
}

/// What the first `i` commands of a bar denote, threading the state.
pub open spec fn read_bar_spec(cmds: Seq<Sexp>, i: int, st: TrackStateS) -> Result<
    (Seq<NoteS>, TrackStateS),
    ParseError,
>
    decreases cmds, 6int, i,
{
    if !(0 < i <= cmds.len()) {
        Ok((Seq::empty(), st))
    } else {
        match read_bar_spec(cmds, i - 1, st) {
            Ok((acc, st1)) => match read_cmd_spec(cmds[i - 1], st1) {
                Ok((ns, st2)) => Ok((acc + ns, st2)),
                Err(e) => Err(e),
            },
            Err(e) => Err(e),
        }
    }
}

/// Well-formed note sequences concatenate to a well-formed one.
proof fn lemma_notes_wf_concat(a: Seq<NoteS>, b: Seq<NoteS>)
    requires
        notes_wf(a),
        notes_wf(b),
    ensures
        notes_wf(a + b),
{
    assert forall|k: int| 0 <= k < (a + b).len() implies (#[trigger] (a + b)[k]).wf() by {
        if k < a.len() {
            assert((a + b)[k] == a[k]);
        } else {
            assert((a + b)[k] == b[k - a.len()]);
        }
    }
}

/// One successful command extends a successfully read bar prefix.
proof fn lemma_read_bar_step(
    cmds: Seq<Sexp>,
    i: int,
    st0: TrackStateS,
    acc: Seq<NoteS>,
    st1: TrackStateS,
    ns: Seq<NoteS>,
    st2: TrackStateS,
)
    requires
        0 <= i < cmds.len(),
        read_bar_spec(cmds, i, st0) == Ok::<(Seq<NoteS>, TrackStateS), ParseError>((acc, st1)),
        read_cmd_spec(cmds[i], st1) == Ok::<(Seq<NoteS>, TrackStateS), ParseError>((ns, st2)),
        notes_wf(acc),
        notes_wf(ns),
    ensures
        read_bar_spec(cmds, i + 1, st0) == Ok::<(Seq<NoteS>, TrackStateS), ParseError>(
            (acc + ns, st2),
        ),
        notes_wf(acc + ns),
{
    lemma_notes_wf_concat(acc, ns);
}

/// One failing command fails the bar prefix it ends.
proof fn lemma_read_bar_step_err(
    cmds: Seq<Sexp>,
    i: int,
    st0: TrackStateS,
    acc: Seq<NoteS>,
    st1: TrackStateS,
    e: ParseError,
)
    requires
        0 <= i < cmds.len(),
        read_bar_spec(cmds, i, st0) == Ok::<(Seq<NoteS>, TrackStateS), ParseError>((acc, st1)),
        read_cmd_spec(cmds[i], st1) == Err::<(Seq<NoteS>, TrackStateS), ParseError>(e),
    ensures
        read_bar_spec(cmds, i + 1, st0) == Err::<(Seq<NoteS>, TrackStateS), ParseError>(e),
{
}

/// Once a prefix of a bar fails, the whole bar fails the same way.
proof fn lemma_read_bar_err(cmds: Seq<Sexp>, st: TrackStateS, i: int, j: int)
    requires
        0 <= i <= j <= cmds.len(),
        read_bar_spec(cmds, i, st) matches Err(_),
    ensures
        read_bar_spec(cmds, j, st) == read_bar_spec(cmds, i, st),
    decreases j - i,
{
    if j > i {
        lemma_read_bar_err(cmds, st, i, j - 1);
    }
}

/// Read one simple (atom) command: a clef change or a bare rest.
pub fn read_simple_cmd(s: &str, st: &mut TrackState, out: &mut Vec<Note>) -> (r: Result<
    (),
    ParseError,
>)
    requires
        old(st)@.wf(),
    ensures
        match read_simple_cmd_spec(s@, old(st)@) {
            Ok((ns, st2)) => r == Ok::<(), ParseError>(()) && final(out).deep_view() == old(
                out,
            ).deep_view() + ns && final(st)@ == st2 && notes_wf(ns),
            Err(e) => r == Err::<(), ParseError>(e) && final(st)@ == old(st)@ && final(out)@
                == old(out)@,
        },
        final(st)@.wf(),
{
    match try_read_clef(s) {
        Some(c) => {
            st.clef = c;
            proof {
                assert(final(out).deep_view() =~= old(out).deep_view() + Seq::<NoteS>::empty());
                assert(final(st)@ =~= (TrackStateS { clef: c, ..old(st)@ }));
            }
            Ok(())
        },
        None => {
            match try_read_duration(s) {
                Some(d) => {
                    let n = mk_rest(d);
                    proof {
                        assert(n@ =~= to_note_spec(
                            RawNoteS { dur: d, state: old(st)@, pitch: Seq::empty() },
                        ));
                        assert(n@.wf());
                    }
                    let ghost prev = out.deep_view();
                    out.push(n);
                    proof {
                        assert(out.deep_view() =~= prev.push(n@));
                        assert(out.deep_view() =~= prev + seq![n@]);
                    }
                    Ok(())
                },
                None => Err(ParseError::UnknownCommand),
            }
        },
    }
}

/// Append a vector of notes to `out`, relating the views.
fn push_notes(out: &mut Vec<Note>, notes: Vec<Note>)
    ensures
        final(out).deep_view() == old(out).deep_view() + notes.deep_view(),
{
    let ghost prev = out.deep_view();
    let ghost ns = notes.deep_view();
    let mut notes = notes;
    out.append(&mut notes);
    proof {
        assert(out.deep_view() =~= prev + ns);
    }
}

/// Read one compound (list) command, appending the notes it denotes.
#[verifier::loop_isolation(false)]
#[verifier::rlimit(50)]
pub fn read_compound_cmd(vs: &Vec<Sexp>, st: &mut TrackState, out: &mut Vec<Note>) -> (r: Result<
    (),
    ParseError,
>)
    requires
        old(st)@.wf(),
    ensures
        match read_compound_cmd_spec(vs@, old(st)@) {
            Ok((ns, st2)) => r == Ok::<(), ParseError>(()) && final(out).deep_view() == old(
                out,
            ).deep_view() + ns && final(st)@ == st2 && notes_wf(ns),
            Err(e) => r == Err::<(), ParseError>(e),
        },
        final(st)@.wf(),
{
    proof {
        reveal(read_compound_cmd_spec);
    }
    if vs.len() == 0 {
        return Err(ParseError::UnknownCommand);
    }
    match &vs[0] {
        Sexp::List(tags) => {
            if tags.len() != 2 {
                return Err(ParseError::WrongArity);
            }
            let t0_ok = match &tags[0] {
                Sexp::Sym(t0) => str_eq(t0.as_str(), "acciac"),
                _ => {
                    return Err(ParseError::UnknownCommand);
                },
            };
            let t1_ok = match &tags[1] {
                Sexp::Sym(t1) => str_eq(t1.as_str(), "sharp"),
                _ => {
                    return Err(ParseError::UnknownCommand);
                },
            };
            if !(t0_ok && t1_ok) {
                return Err(ParseError::UnknownCommand);
            }
            if vs.len() != 2 {
                return Err(ParseError::WrongArity);
            }
            match try_read_rawnote(&vs[1], st) {
                Ok(rns) => {
                    if rns.len() != 1 {
                        return Err(ParseError::WrongCardinality);
                    }
                    match acciac_all(&rns, st) {
                        Ok(ex) => {
                            let notes = notes_of_rawnotes(&ex);
                            push_notes(out, notes);
                            Ok(())
                        },
                        Err(e) => Err(e),
                    }
                },
                Err(e) => Err(e),
            }
        },
        Sexp::Sym(tag) => {
            let is_slur = str_eq(tag.as_str(), "^");
            let is_stacc = str_eq(tag.as_str(), "staccato");
            if is_slur || is_stacc {
                let mut to_slur: Vec<Note> = Vec::new();
                let mut i: usize = 1;
                proof {
                    assert(to_slur.deep_view() =~= Seq::<NoteS>::empty());
                }
                while i < vs.len()
                    invariant
                        1 <= i <= vs@.len(),
                        notes_elems_spec(vs@, i as int, old(st)@) == Ok::<
                            (Seq<NoteS>, TrackStateS),
                            ParseError,
                        >((to_slur.deep_view(), st@)),
                        st@.wf(),
                        notes_wf(to_slur.deep_view()),
                    decreases vs@.len() - i,
                {
                    match try_read_rawnote(&vs[i], st) {
                        Ok(rns) => {
                            let notes = notes_of_rawnotes(&rns);
                            push_notes(&mut to_slur, notes);
                        },
                        Err(e) => {
                            proof {
                                lemma_notes_elems_err(vs@, old(st)@, i + 1, vs@.len() as int);
                            }
                            return Err(e);
                        },
                    }
                    i += 1;
                }
                if to_slur.len() == 0 {
                    return Err(ParseError::WrongArity);
                }
                let ghost ns = to_slur.deep_view();
                let last = match to_slur.pop() {
                    Some(n) => n,
                    None => {
                        return Err(ParseError::WrongArity);
                    },
                };
                let mut adjusted: Vec<Note> = Vec::new();
                let mut j: usize = 0;
                let ghost target = if is_slur {
                    slur_adjust(ns)
                } else {
                    staccato_adjust(ns)
                };
                proof {
                    assert(adjusted.deep_view() =~= target.take(0));
                }
                while j < to_slur.len()
                    invariant
                        j <= to_slur@.len(),
                        to_slur@.len() == ns.len() - 1,
                        to_slur.deep_view() == ns.drop_last(),
                        last@ == ns.last(),
                        adjusted.deep_view() == target.take(j as int),
                        target == (if is_slur {
                            slur_adjust(ns)
                        } else {
                            staccato_adjust(ns)
                        }),
                        notes_wf(ns),
                    decreases to_slur@.len() - j,
                {
                    let ghost prev = adjusted.deep_view();
                    let a = if is_slur {
                        with_envelope(&to_slur[j], SLUR_EASING_PCT, 0)
                    } else {
                        let e = to_slur[j].easing_pct;
                        with_envelope(&to_slur[j], e, STACCATO_REST_PCT)
                    };
                    proof {
                        assert(to_slur.deep_view()[j as int] == ns[j as int]);
                        assert(a@ == target[j as int]);
                    }
                    adjusted.push(a);
                    proof {
                        assert(adjusted.deep_view() =~= prev.push(a@));
                        assert(adjusted.deep_view() =~= target.take(j + 1));
                    }
                    j += 1;
                }
                let ghost prev2 = adjusted.deep_view();
                adjusted.push(last);
                proof {
                    assert(target[ns.len() - 1] == ns.last());
                    assert(adjusted.deep_view() =~= prev2.push(last@));
                    assert(adjusted.deep_view() =~= target);
                    assert(notes_wf(target)) by {
                        assert forall|k: int| 0 <= k < target.len() implies (
                        #[trigger] target[k]).wf() by {
                            assert(ns[k].wf());
                        }
                    }
                }
                push_notes(out, adjusted);
                Ok(())
            } else {
                match try_read_rawnote_from_list(vs, st) {
                    Ok(rns) => {
                        let notes = notes_of_rawnotes(&rns);
                        push_notes(out, notes);
                        Ok(())
                    },
                    Err(e) => Err(e),
                }
            }
        },
        Sexp::Int(_) => Err(ParseError::UnknownCommand),
    }
}

/// Read one bar command: an atom or a list.
pub fn read_cmd(v: &Sexp, st: &mut TrackState, out: &mut Vec<Note>) -> (r: Result<(), ParseError>)
    requires
        old(st)@.wf(),
    ensures
        match read_cmd_spec(*v, old(st)@) {
            Ok((ns, st2)) => r == Ok::<(), ParseError>(()) && final(out).deep_view() == old(
                out,
            ).deep_view() + ns && final(st)@ == st2 && notes_wf(ns),
            Err(e) => r == Err::<(), ParseError>(e),
        },
        final(st)@.wf(),
{
    match v {
        Sexp::Sym(sy) => read_simple_cmd(sy.as_str(), st, out),
        Sexp::List(l) => read_compound_cmd(l, st, out),
        Sexp::Int(_) => Err(ParseError::UnknownCommand),
    }
}

/// Read one bar: its commands left to right, appending their notes.
#[verifier::loop_isolation(false)]
#[verifier::rlimit(100)]
#[verifier::spinoff_prover]
pub fn read_bar(vs: &Vec<Sexp>, st: &mut TrackState, out: &mut Vec<Note>) -> (r: Result<
    (),
    ParseError,
>)
    requires
        old(st)@.wf(),
    ensures
        match read_bar_spec(vs@, vs@.len() as int, old(st)@) {
            Ok((ns, st2)) => r == Ok::<(), ParseError>(()) && final(out).deep_view() == old(
                out,
            ).deep_view() + ns && final(st)@ == st2 && notes_wf(ns),
            Err(e) => r == Err::<(), ParseError>(e),
        },
        final(st)@.wf(),
{
    let ghost init = out.deep_view();
    let mut i: usize = 0;
    proof {
        assert(out.deep_view() =~= init + Seq::<NoteS>::empty());
    }
    while i < vs.len()
        invariant
            i <= vs@.len(),
            ({
                let r = read_bar_spec(vs@, i as int, old(st)@);
                r matches Ok(p) && out.deep_view() == init + p.0 && st@ == p.1 && notes_wf(p.0)
            }),
            st@.wf(),
        decreases vs@.len() - i,
    {
        let ghost prefix = read_bar_spec(vs@, i as int, old(st)@)->Ok_0;
        match read_cmd(&vs[i], st, out) {
            Ok(()) => {
                proof {
                    let step = read_cmd_spec(vs@[i as int], prefix.1);
                    lemma_read_bar_step(
                        vs@,
                        i as int,
                        old(st)@,
                        prefix.0,
                        prefix.1,
                        step->Ok_0.0,
                        step->Ok_0.1,
                    );
                    assert(out.deep_view() == init + (prefix.0 + step->Ok_0.0)) by {
                        assert(out.deep_view() == (init + prefix.0) + step->Ok_0.0);
                        assert((init + prefix.0) + step->Ok_0.0 =~= init + (prefix.0
                            + step->Ok_0.0));
                    }
                }
            },
            Err(e) => {
                proof {
                    lemma_read_bar_step_err(vs@, i as int, old(st)@, prefix.0, prefix.1, e);
                    lemma_read_bar_err(vs@, old(st)@, i + 1, vs@.len() as int);
                }
                return Err(e);
            },
        }
        i += 1;
    }
    Ok(())
}

/// The atom is the `drop` marker.
pub open spec fn is_drop_sym(x: Sexp) -> bool {
    match x {
        Sexp::Sym(sy) => sy@ == "drop"@,
        _ => false,
    }
}

/// A fresh reading state under a piece-wide sharp offset.
pub open spec fn init_state(gsharp: i64) -> TrackStateS {
    TrackStateS { clef: Clef::Treble, sharps: Seq::empty(), global_sharp: gsharp }
}

/// The effect of one bar pair: a `(drop N)` marker adds `N` pairs to skip;
/// while pairs remain to skip, one is consumed; otherwise both bars are
/// read, each with its track's accidental map cleared first.
pub open spec fn pair_step_spec(
    x: Sexp,
    y: Sexp,
    xs: Seq<NoteS>,
    ys: Seq<NoteS>,
    xst: TrackStateS,
    yst: TrackStateS,
    dr: int,
) -> Result<(Seq<NoteS>, Seq<NoteS>, TrackStateS, TrackStateS, int), ParseError> {
    if is_drop_sym(x) {
        match y {
            Sexp::Int(n) => if i64::MIN <= dr + n <= i64::MAX {
                Ok((xs, ys, xst, yst, dr + n))
            } else {
                Err(ParseError::NumberTooLarge)
            },
            _ => Err(ParseError::UnknownCommand),
        }
    } else if dr > 0 {
        Ok((xs, ys, xst, yst, dr - 1))
    } else {
        match x {
            Sexp::List(xl) => match y {
                Sexp::List(yl) => {
                    match read_bar_spec(
                        xl@,
                        xl@.len() as int,
                        TrackStateS { sharps: Seq::empty(), ..xst },
                    ) {
                        Ok((xb, xst2)) => match read_bar_spec(
                            yl@,
                            yl@.len() as int,
                            TrackStateS { sharps: Seq::empty(), ..yst },
                        ) {
                            Ok((yb, yst2)) => Ok((xs + xb, ys + yb, xst2, yst2, dr)),
                            Err(e) => Err(e),
                        },
                        Err(e) => Err(e),
                    }
                },
                _ => Err(ParseError::ExpectedList),
            },
            _ => Err(ParseError::ExpectedList),
        }
    }
}

/// What the first `i` bar pairs denote: the two tracks' notes so far, the
/// two reading states, and how many pairs remain to skip. A trailing
/// unpaired element is ignored.
pub open spec fn read_pairs_spec(vs: Seq<Sexp>, i: int, xst: TrackStateS, yst: TrackStateS) -> Result<
    (Seq<NoteS>, Seq<NoteS>, TrackStateS, TrackStateS, int),
    ParseError,
>
    decreases i,
{
    if !(0 < i && 2 * i <= vs.len()) {
        Ok((Seq::empty(), Seq::empty(), xst, yst, 0))
    } else {
        match read_pairs_spec(vs, i - 1, xst, yst) {
            Ok((xs, ys, xst1, yst1, dr)) => pair_step_spec(
                vs[2 * (i - 1)],
                vs[2 * (i - 1) + 1],
                xs,
                ys,
                xst1,
                yst1,
                dr,
            ),
            Err(e) => Err(e),
        }
    }
}

/// Once a prefix of bar pairs fails, the whole list fails the same way.
proof fn lemma_read_pairs_err(vs: Seq<Sexp>, xst: TrackStateS, yst: TrackStateS, i: int, j: int)
    requires
        0 < i <= j,
        2 * j <= vs.len(),
        read_pairs_spec(vs, i, xst, yst) matches Err(_),
    ensures
        read_pairs_spec(vs, j, xst, yst) == read_pairs_spec(vs, i, xst, yst),
    decreases j - i,
{
    if j > i {
        lemma_read_pairs_err(vs, xst, yst, i, j - 1);
    }
}

/// What a whole score tree denotes: a sheet of two tracks.
pub open spec fn read_toplevel_spec(v: Sexp) -> Result<Seq<Seq<NoteS>>, ParseError> {
    match v {
        Sexp::List(l) => if l@.len() != 4 {
            Err(ParseError::ExpectedToplevel)
        } else {
            match (l@[0], l@[2]) {
                (Sexp::Sym(t), Sexp::Int(gs)) => if t@ != "piano"@ {
                    Err(ParseError::ExpectedToplevel)
                } else if !(-DEGREE_LIMIT <= gs <= DEGREE_LIMIT) {
                    Err(ParseError::DegreeOutOfRange)
                } else {
                    match l@[3] {
                        Sexp::List(pairs) => match read_pairs_spec(
                            pairs@,
                            pairs@.len() as int / 2,
                            init_state(gs),
                            init_state(gs),
                        ) {
                            Ok((xs, ys, _xst, _yst, _dr)) => Ok(seq![xs, ys]),
                            Err(e) => Err(e),
                        },
                        _ => Err(ParseError::ExpectedToplevel),
                    }
                },
                _ => Err(ParseError::ExpectedToplevel),
            }
        },
        _ => Err(ParseError::ExpectedToplevel),
    }
}

/// Read the bar pairs of a score into the two tracks, two bars at a time.
#[verifier::loop_isolation(false)]
#[verifier::rlimit(60)]
pub fn read_piano_tracks(vs: &Vec<Sexp>, gsharp: i64) -> (r: Result<Sheet, ParseError>)
    requires
        -DEGREE_LIMIT <= gsharp <= DEGREE_LIMIT,
    ensures
        match read_pairs_spec(vs@, vs@.len() as int / 2, init_state(gsharp), init_state(gsharp)) {
            Ok((xs, ys, xst, yst, dr)) => r matches Ok(sh) && sh.deep_view() == seq![xs, ys]
                && notes_wf(xs) && notes_wf(ys),
            Err(e) => r matches Err(e2) && e2 == e,
        },
{
    let ghost init = init_state(gsharp);
    let mut xst = TrackState { clef: Clef::Treble, sharps: Vec::new(), global_sharp: gsharp };
    let mut yst = TrackState { clef: Clef::Treble, sharps: Vec::new(), global_sharp: gsharp };
    let mut xs: Vec<Note> = Vec::new();
    let mut ys: Vec<Note> = Vec::new();
    let mut dr: i64 = 0;
    let n_pairs = vs.len() / 2;
    let mut k: usize = 0;
    proof {
        assert(xst@ =~= init);
        assert(yst@ =~= init);
        assert(xs.deep_view() =~= Seq::<NoteS>::empty());
        assert(ys.deep_view() =~= Seq::<NoteS>::empty());
    }
    while k < n_pairs
        invariant
            k <= n_pairs,
            n_pairs == vs@.len() as int / 2,
            read_pairs_spec(vs@, k as int, init, init) == Ok::<
                (Seq<NoteS>, Seq<NoteS>, TrackStateS, TrackStateS, int),
                ParseError,
            >((xs.deep_view(), ys.deep_view(), xst@, yst@, dr as int)),
            xst@.wf(),
            yst@.wf(),
            notes_wf(xs.deep_view()),
            notes_wf(ys.deep_view()),
        decreases n_pairs - k,
    {
        let x = &vs[2 * k];
        let y = &vs[2 * k + 1];
        let is_drop = match x {
            Sexp::Sym(sy) => str_eq(sy.as_str(), "drop"),
            _ => false,
        };
        if is_drop {
            match y {
                Sexp::Int(n) => {
                    if (*n > 0 && dr > i64::MAX - *n) || (*n < 0 && dr < i64::MIN - *n) {
                        proof {
                            lemma_read_pairs_err(vs@, init, init, k + 1, n_pairs as int);
                        }
                        return Err(ParseError::NumberTooLarge);
                    }
                    dr = dr + *n;
                },
                _ => {
                    proof {
                        lemma_read_pairs_err(vs@, init, init, k + 1, n_pairs as int);
                    }
                    return Err(ParseError::UnknownCommand);
                },
            }
        } else if dr > 0 {
            dr = dr - 1;
        } else {
            match x {
                Sexp::List(xl) => {
                    match y {
                        Sexp::List(yl) => {
                            let ghost xst_b = xst@;
                            let ghost yst_b = yst@;
                            xst.sharps = Vec::new();
                            yst.sharps = Vec::new();
                            proof {
                                assert(xst@ =~= (TrackStateS { sharps: Seq::empty(), ..xst_b }));
                                assert(yst@ =~= (TrackStateS { sharps: Seq::empty(), ..yst_b }));
                            }
                            match read_bar(xl, &mut xst, &mut xs) {
                                Ok(()) => {},
                                Err(e) => {
                                    proof {
                                        lemma_read_pairs_err(
                                            vs@,
                                            init,
                                            init,
                                            k + 1,
                                            n_pairs as int,
                                        );
                                    }
                                    return Err(e);
                                },
                            }
                            match read_bar(yl, &mut yst, &mut ys) {
                                Ok(()) => {},
                                Err(e) => {
                                    proof {
                                        lemma_read_pairs_err(
                                            vs@,
                                            init,
                                            init,
                                            k + 1,
                                            n_pairs as int,
                                        );
                                    }
                                    return Err(e);
                                },
                            }
                        },
                        _ => {
                            proof {
                                lemma_read_pairs_err(vs@, init, init, k + 1, n_pairs as int);
                            }
                            return Err(ParseError::ExpectedList);
                        },
                    }
                },
                _ => {
                    proof {
                        lemma_read_pairs_err(vs@, init, init, k + 1, n_pairs as int);
                    }
                    return Err(ParseError::ExpectedList);
                },
            }
        }
        k += 1;
    }
    let mut sh: Sheet = Vec::new();
    sh.push(xs);
    sh.push(ys);
    proof {
        assert(sh.deep_view() =~= seq![sh@[0].deep_view(), sh@[1].deep_view()]);
    }
    Ok(sh)
}

/// Read a whole score tree: `(piano <beat> <global-sharp> (<bar-pair>...))`.
/// The beat element is ignored. On success the sheet holds exactly two
/// tracks, read concurrently from the bar pairs.
pub fn read_toplevel(v: &Sexp) -> (r: Result<Sheet, ParseError>)
    ensures
        match read_toplevel_spec(*v) {
            Ok(sh) => r matches Ok(x) && x.deep_view() == sh && forall|t: int|
                0 <= t < x.deep_view().len() ==> notes_wf(#[trigger] x.deep_view()[t]),
            Err(e) => r matches Err(e2) && e2 == e,
        },
{
    match v {
        Sexp::List(l) => {
            if l.len() != 4 {
                return Err(ParseError::ExpectedToplevel);
            }
            let t_ok = match &l[0] {
                Sexp::Sym(t) => str_eq(t.as_str(), "piano"),
                _ => {
                    return Err(ParseError::ExpectedToplevel);
                },
            };
            if !t_ok {
                return Err(ParseError::ExpectedToplevel);
            }
            let gs: i64 = match &l[2] {
                Sexp::Int(g) => *g,
                _ => {
                    return Err(ParseError::ExpectedToplevel);
                },
            };
            if gs < -DEGREE_LIMIT || gs > DEGREE_LIMIT {
                return Err(ParseError::DegreeOutOfRange);
            }
            match &l[3] {
                Sexp::List(pairs) => read_piano_tracks(pairs, gs),
                _ => Err(ParseError::ExpectedToplevel),
            }
        },
        _ => Err(ParseError::ExpectedToplevel),
    }
}

} // verus!
