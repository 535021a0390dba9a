//! Edit-distance predicates and numeric parameter parsing.
//!
//! The exact distances (Levenshtein, Hamming) are specified by recursive
//! spec functions and obtained at run time from the `strsim` crate through
//! trusted wrappers.  Score thresholds arrive as decimal strings; integer
//! thresholds are parsed by a verified parser, floating-point thresholds are
//! compared inside the trusted wrappers and the outcome is named by
//! uninterpreted spec functions.

use vstd::prelude::*;
use vstd::string::*;

verus! {

/// Minimum number of single-character insertions, deletions and
/// substitutions required to turn `a` into `b`.
pub open spec fn lev(a: Seq<char>, b: Seq<char>) -> nat
    decreases a.len() + b.len(),
{
    if a.len() == 0 {
        b.len()
    } else if b.len() == 0 {
        a.len()
    } else {
        let del = lev(a.drop_first(), b) + 1;
        let ins = lev(a, b.drop_first()) + 1;
        let sub = lev(a.drop_first(), b.drop_first()) + (if a[0] == b[0] {
            0nat
        } else {
            1nat
        });
        min3(del as nat, ins as nat, sub as nat)
    }
}

pub open spec fn min3(a: nat, b: nat, c: nat) -> nat {
    if a <= b && a <= c {
        a
    } else if b <= c {
        b
    } else {
        c
    }
}

/// Number of positions at which the two sequences differ, counted over the
/// common prefix length.  Both predicates that use it first require equal
/// lengths.
pub open spec fn ham(a: Seq<char>, b: Seq<char>) -> nat
    decreases a.len(),
{
    if a.len() == 0 || b.len() == 0 {
        0
    } else {
        (if a[0] != b[0] {
            1nat
        } else {
            0nat
        }) + ham(a.drop_first(), b.drop_first())
    }
}

/// Relies on strsim::levenshtein: the minimum number of single-character
/// insertions, deletions and substitutions turning one string into the
/// other, computed over characters.
#[verifier::external_body]
pub(crate) fn levenshtein_distance(a: &str, b: &str) -> (r: usize)
    ensures
        r == lev(a@, b@),
{
    strsim::levenshtein(a, b)
}

/// Relies on strsim::hamming: the number of differing character positions,
/// or an error when the character lengths differ.
#[verifier::external_body]
pub(crate) fn hamming_distance(a: &str, b: &str) -> (r: Option<usize>)
    ensures
        (r is Some) == (a@.len() == b@.len()),
        r matches Some(d) ==> d == ham(a@, b@),
{
    match strsim::hamming(a, b) {
        Ok(d) => Some(d),
        Err(strsim::StrSimError::DifferentLengthArgs) => None,
    }
}

/// The Damerau-Levenshtein distance of two character sequences, as
/// strsim computes it.  The value depends on the two sequences alone.
pub uninterp spec fn damerau_of(a: Seq<char>, b: Seq<char>) -> nat;

/// Relies on strsim::damerau_levenshtein: the edit distance that also
/// allows transposition of two characters, computed over characters.
#[verifier::external_body]
pub(crate) fn damerau_distance(a: &str, b: &str) -> (r: usize)
    ensures
        r == damerau_of(a@, b@),
{
    strsim::damerau_levenshtein(a, b)
}

/// Whether a string parses as a 64-bit float, as str::parse does it.
pub uninterp spec fn parses_f64(s: Seq<char>) -> bool;

/// Whether the Jaro similarity of the two sequences reaches the threshold
/// written in the third.  The value depends on the three sequences alone.
pub uninterp spec fn jaro_meets(a: Seq<char>, b: Seq<char>, threshold: Seq<char>) -> bool;

/// Whether the Jaro-Winkler similarity of the two sequences reaches the
/// threshold written in the third.
pub uninterp spec fn jaro_winkler_meets(a: Seq<char>, b: Seq<char>, threshold: Seq<char>) -> bool;

/// Relies on strsim::jaro for the similarity score and on str::parse for
/// the threshold; the comparison score >= threshold happens here because
/// both sides are 64-bit floats.  None exactly when the threshold string
/// does not parse.
#[verifier::external_body]
pub(crate) fn jaro_matches(a: &str, b: &str, min_score: &str) -> (r: Option<bool>)
    ensures
        (r is Some) == parses_f64(min_score@),
        r matches Some(m) ==> m == jaro_meets(a@, b@, min_score@),
{
    match min_score.parse() {
        Ok(t) => Some(strsim::jaro(a, b) >= t),
        Err(_) => None,
    }
}

/// Relies on strsim::jaro_winkler (prefix weight 0.1, prefix cap 4) and on
/// str::parse for the threshold; see jaro_matches.
#[verifier::external_body]
pub(crate) fn jaro_winkler_matches(a: &str, b: &str, min_score: &str) -> (r: Option<bool>)
    ensures
        (r is Some) == parses_f64(min_score@),
        r matches Some(m) ==> m == jaro_winkler_meets(a@, b@, min_score@),
{
    match min_score.parse() {
        Ok(t) => Some(strsim::jaro_winkler(a, b) >= t),
        Err(_) => None,
    }
}

/// Relies on String::push: appends one character.
pub assume_specification[ String::push ](s: &mut String, ch: char)
    ensures
        final(s)@ == old(s)@.push(ch),
;

/// Character-wise string equality, proved against the string views.
pub fn str_eq(a: &str, b: &str) -> (r: bool)
    ensures
        r == (a@ == b@),
{
    let alen = a.unicode_len();
    let blen = b.unicode_len();
    if alen != blen {
        return false;
    }
    let mut i: usize = 0;
    while i < alen
        invariant
            alen == a@.len(),
            alen == b@.len(),
            0 <= i <= alen,
            forall|j: int| 0 <= j < i ==> a@[j] == b@[j],
        decreases alen - i,
    {
        if a.get_char(i) != b.get_char(i) {
            return false;
        }
        i += 1;
    }
    proof {
        assert(a@ =~= b@);
    }
    true
}

pub open spec fn is_digit(c: char) -> bool {
    48 <= c as u32 && c as u32 <= 57
}

pub open spec fn digit_val(c: char) -> nat {
    (c as u32 - 48) as nat
}

/// The value of a digit string read in base ten.
pub open spec fn digits_value(s: Seq<char>) -> nat
    decreases s.len(),
{
    if s.len() == 0 {
        0
    } else {
        digits_value(s.drop_last()) * 10 + digit_val(s.last())
    }
}

pub open spec fn all_digits(s: Seq<char>) -> bool {
    forall|i: int| 0 <= i < s.len() ==> is_digit(#[trigger] s[i])
}

pub open spec fn decimal_body(s: Seq<char>) -> Seq<char> {
    if s.len() > 0 && s[0] == '+' {
        s.drop_first()
    } else {
        s
    }
}

/// What an unsigned integer parameter string denotes: an optional leading
/// plus sign, then one or more digits, with a value that fits in usize.
pub open spec fn parse_usize_spec(s: Seq<char>) -> Option<nat> {
    let b = decimal_body(s);
    if b.len() > 0 && all_digits(b) && digits_value(b) <= usize::MAX {
        Some(digits_value(b))
    } else {
        None
    }
}

pub(crate) proof fn lemma_digits_value_mono(s: Seq<char>, k: int)
    requires
        0 <= k <= s.len(),
    ensures
        digits_value(s.take(k)) <= digits_value(s),
    decreases s.len() - k,
{
    if k == s.len() {
        assert(s.take(k) =~= s);
    } else {
        assert(s.take(k + 1).drop_last() =~= s.take(k));
        assert(s.take(k + 1).last() == s[k]);
        assert(digits_value(s.take(k)) <= digits_value(s.take(k + 1)));
        lemma_digits_value_mono(s, k + 1);
    }
}

/// Parses an unsigned decimal parameter, None exactly on the strings that
/// parse_usize_spec rejects.
pub fn parse_usize(s: &str) -> (r: Option<usize>)
    ensures
        (r is Some) == (parse_usize_spec(s@) is Some),
        r matches Some(v) ==> parse_usize_spec(s@) == Some(v as nat),
{
    let len = s.unicode_len();
    if len == 0 {
        return None;
    }
    let start: usize = if s.get_char(0) == '+' {
        1
    } else {
        0
    };
    if start == len {
        return None;
    }
    let ghost body = decimal_body(s@);
    proof {
        assert(body =~= s@.subrange(start as int, len as int));
    }
    let mut val: usize = 0;
    let mut i: usize = start;
    while i < len
        invariant
            start <= i <= len,
            len == s@.len(),
            start < len,
            start == 1 ==> s@[0] == '+',
            start == 0 ==> !(s@.len() > 0 && s@[0] == '+'),
            body == decimal_body(s@),
            body =~= s@.subrange(start as int, len as int),
            all_digits(s@.subrange(start as int, i as int)),
            val == digits_value(s@.subrange(start as int, i as int)),
        decreases len - i,
    {
        let c = s.get_char(i);
        let cu = c as u32;
        if cu < 48 || cu > 57 {
            proof {
                assert(body[i - start] == s@[i as int]);
                assert(!is_digit(body[i - start]));
            }
            return None;
        }
        let d: usize = (cu - 48) as usize;
        let ghost prefix = s@.subrange(start as int, i as int);
        let ghost prefix1 = s@.subrange(start as int, i as int + 1);
        proof {
            assert(prefix1.drop_last() =~= prefix);
            assert(prefix1.last() == s@[i as int]);
            assert(digits_value(prefix1) == digits_value(prefix) * 10 + digit_val(s@[i as int]));
            assert(prefix1 =~= body.take(i - start + 1));
        }
        let v10 = match val.checked_mul(10) {
            Some(v) => v,
            None => {
                proof {
                    lemma_digits_value_mono(body, i - start + 1);
                }
                return None;
            },
        };
        let v = match v10.checked_add(d) {
            Some(v) => v,
            None => {
                proof {
                    lemma_digits_value_mono(body, i - start + 1);
                }
                return None;
            },
        };
        val = v;
        i += 1;
    }
    proof {
        assert(s@.subrange(start as int, len as int) =~= body);
        assert(body.len() > 0);
    }
    Some(val)
}

/// Law: the Levenshtein distance of a sequence to itself is zero.
pub proof fn lemma_lev_self(a: Seq<char>)
    ensures
        lev(a, a) == 0,
    decreases a.len(),
{
    if a.len() > 0 {
        lemma_lev_self(a.drop_first());
    }
}

/// Law: the Levenshtein distance is symmetric in its two arguments.
pub proof fn lemma_lev_symmetric(a: Seq<char>, b: Seq<char>)
    ensures
        lev(a, b) == lev(b, a),
    decreases a.len() + b.len(),
{
    if a.len() > 0 && b.len() > 0 {
        lemma_lev_symmetric(a.drop_first(), b);
        lemma_lev_symmetric(a, b.drop_first());
        lemma_lev_symmetric(a.drop_first(), b.drop_first());
    }
}

/// Law: the Hamming distance of a sequence to itself is zero.
pub proof fn lemma_ham_self(a: Seq<char>)
    ensures
        ham(a, a) == 0,
    decreases a.len(),
{
    if a.len() > 0 {
        lemma_ham_self(a.drop_first());
    }
}

/// Law: the Hamming distance is symmetric in its two arguments.
pub proof fn lemma_ham_symmetric(a: Seq<char>, b: Seq<char>)
    ensures
        ham(a, b) == ham(b, a),
    decreases a.len(),
{
    if a.len() > 0 && b.len() > 0 {
        lemma_ham_symmetric(a.drop_first(), b.drop_first());
    }
}

} // verus!
