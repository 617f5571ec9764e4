//! The symbolic score tree, and the character-level utilities that the
//! notation reader uses on its atoms.
//!
//! A score is a tree of atoms (symbols and integers) and nested lists.
//! Unverified front-end code builds this tree from score text; everything
//! that reads meaning out of it is verified.

use vstd::prelude::*;

verus! {

/// One node of a symbolic score tree.
#[derive(Debug, PartialEq)]
pub enum Sexp {
    /// A symbol atom, such as a clef name or a duration token.
    Sym(String),
    /// An integer atom: a scale degree or a count.
    Int(i64),
    /// A list of nodes.
    List(Vec<Sexp>),
}

/// Character-for-character equality of two string slices.
pub fn str_eq(a: &str, b: &str) -> (r: bool)
    ensures
        r <==> a@ == b@,
{
    let na = a.unicode_len();
    let nb = b.unicode_len();
    if na != nb {
        proof {
            assert(a@ != b@) by {
                if a@ == b@ {
                    assert(a@.len() == b@.len());
                }
            }
        }
        return false;
    }
    let mut i: usize = 0;
    while i < na
        invariant
            i <= na,
            na == a@.len(),
            na == b@.len(),
            forall|j: int| 0 <= j < i ==> a@[j] == b@[j],
        decreases na - i,
    {
        if a.get_char(i) != b.get_char(i) {
            return false;
        }
        i += 1;
    }
    proof {
        assert(a@ =~= b@);
    }
    true
}

/// The character is a decimal digit.
pub open spec fn is_digit(c: char) -> bool {
    '0' <= c && c <= '9'
}

/// The numeric value of a decimal digit.
pub open spec fn digit_val(c: char) -> int {
    c as int - '0' as int
}

/// Every character of the sequence is a decimal digit.
pub open spec fn all_digits(s: Seq<char>) -> bool {
    forall|i: int| 0 <= i < s.len() ==> is_digit(#[trigger] s[i])
}

/// The number a sequence of decimal digits denotes, most significant first.
pub open spec fn digits_val(s: Seq<char>) -> int
    decreases s.len(),
{
    if s.len() == 0 {
        0
    } else {
        digits_val(s.drop_last()) * 10 + digit_val(s.last())
    }
}

/// How many `'.'` characters end the sequence.
pub open spec fn trailing_dots(s: Seq<char>) -> int
    decreases s.len(),
{
    if s.len() > 0 && s.last() == '.' {
        1 + trailing_dots(s.drop_last())
    } else {
        0
    }
}

/// If everything from position `k` on is a dot and the character before `k`
/// (if any) is not, then exactly `len - k` dots end the sequence.
pub proof fn lemma_trailing_dots_chars(s: Seq<char>, k: int)
    requires
        0 <= k <= s.len(),
        forall|i: int| k <= i < s.len() ==> s[i] == '.',
        k == 0 || s[k - 1] != '.',
    ensures
        trailing_dots(s) == s.len() - k,
    decreases s.len(),
{
    if k == s.len() {
        if k == 0 {
        } else {
            assert(s.last() != '.');
        }
    } else {
        assert(s.last() == '.');
        lemma_trailing_dots_chars(s.drop_last(), k);
    }
}

/// A digit string's value only grows as digits are appended.
pub proof fn lemma_digits_val_prefix(s: Seq<char>, j: int)
    requires
        all_digits(s),
        0 <= j <= s.len(),
    ensures
        digits_val(s) >= digits_val(s.take(j)),
        digits_val(s) >= 0,
    decreases s.len(),
{
    if s.len() == 0 {
    } else {
        let j2 = if j > s.len() - 1 {
            s.len() - 1
        } else {
            j
        };
        lemma_digits_val_prefix(s.drop_last(), j2);
        assert(digits_val(s.drop_last()) * 10 >= digits_val(s.drop_last())) by (nonlinear_arith)
            requires
                digits_val(s.drop_last()) >= 0,
        ;
        assert(is_digit(s.last()));
        if j > s.len() - 1 {
            assert(s.take(j) =~= s);
        } else {
            assert(s.drop_last().take(j) =~= s.take(j));
        }
    }
}

/// Parse the digit characters `s[from .. to]` as a number, refusing one
/// that does not fit in `u32`. Returns the value exactly when every
/// character in the range is a digit and the value fits.
pub fn parse_digits_u32(s: &str, from: usize, to: usize) -> (r: Option<u32>)
    requires
        from <= to <= s@.len(),
    ensures
        match r {
            Some(v) => all_digits(s@.subrange(from as int, to as int)) && v == digits_val(
                s@.subrange(from as int, to as int),
            ) && v <= u32::MAX,
            None => !(all_digits(s@.subrange(from as int, to as int)) && digits_val(
                s@.subrange(from as int, to as int),
            ) <= u32::MAX),
        },
{
    let mut i: usize = from;
    let mut val: u64 = 0;
    while i < to
        invariant
            from <= i <= to <= s@.len(),
            all_digits(s@.subrange(from as int, i as int)),
            val == digits_val(s@.subrange(from as int, i as int)),
            val <= u32::MAX,
        decreases to - i,
    {
        let c = s.get_char(i);
        if c < '0' || c > '9' {
            proof {
                assert(s@.subrange(from as int, to as int)[i - from] == s@[i as int]);
            }
            return None;
        }
        let d: u32 = (c as u32) - ('0' as u32);
        let next: u64 = val * 10 + (d as u64);
        proof {
            assert(s@.subrange(from as int, i + 1).drop_last() =~= s@.subrange(
                from as int,
                i as int,
            ));
            assert(s@.subrange(from as int, i + 1).last() == s@[i as int]);
        }
        if next > u32::MAX as u64 {
            proof {
                let full = s@.subrange(from as int, to as int);
                let pref = s@.subrange(from as int, i + 1);
                if all_digits(full) {
                    lemma_digits_val_prefix(full, i + 1 - from);
                    assert(full.take(i + 1 - from) =~= pref);
                }
            }
            return None;
        }
        val = next;
        i += 1;
    }
    proof {
        assert(s@.subrange(from as int, to as int) =~= s@.subrange(from as int, i as int));
    }
    Some(val as u32)
}

} // verus!
