//! The phonetic predicate.
//!
//! The encoding keeps the first character as typed.  Every later character
//! is classified by its lowercase form (a letter's class, a vowel
//! placeholder for anything else, a space kept as separator), the class
//! for h and w is dropped, consecutive duplicate codes collapse to one,
//! and finally the vowel placeholders are dropped.  Two strings match when
//! their encodings are equal.
//!
//! The lowercase form of an ASCII character is written out below; for any
//! other character it is the first character of its Unicode lowercase
//! mapping, which only the name `lower_first_of` describes.

use vstd::prelude::*;
use vstd::string::*;
use crate::metrics::str_eq;

verus! {

/// The first character of a character's Unicode lowercase mapping, as
/// char::to_lowercase yields it.  It depends on the character alone.
pub uninterp spec fn lower_first_of(c: char) -> char;

/// Relies on char::to_lowercase: its iterator always yields at least one
/// character, and the first one depends on the character alone.
#[verifier::external_body]
fn lowercase_char(c: char) -> (r: char)
    ensures
        r == lower_first_of(c),
{
    c.to_lowercase().next().unwrap()
}

/// The lowercase form of an ASCII character; anything else is untouched.
pub open spec fn ascii_lower(c: char) -> char {
    if c == 'A' {
        'a'
    } else if c == 'B' {
        'b'
    } else if c == 'C' {
        'c'
    } else if c == 'D' {
        'd'
    } else if c == 'E' {
        'e'
    } else if c == 'F' {
        'f'
    } else if c == 'G' {
        'g'
    } else if c == 'H' {
        'h'
    } else if c == 'I' {
        'i'
    } else if c == 'J' {
        'j'
    } else if c == 'K' {
        'k'
    } else if c == 'L' {
        'l'
    } else if c == 'M' {
        'm'
    } else if c == 'N' {
        'n'
    } else if c == 'O' {
        'o'
    } else if c == 'P' {
        'p'
    } else if c == 'Q' {
        'q'
    } else if c == 'R' {
        'r'
    } else if c == 'S' {
        's'
    } else if c == 'T' {
        't'
    } else if c == 'U' {
        'u'
    } else if c == 'V' {
        'v'
    } else if c == 'W' {
        'w'
    } else if c == 'X' {
        'x'
    } else if c == 'Y' {
        'y'
    } else if c == 'Z' {
        'z'
    } else {
        c
    }
}

/// The class of one lowercase character.
pub open spec fn class_of_lower(c: char) -> char {
    if c == 'b' || c == 'f' || c == 'p' || c == 'v' {
        '1'
    } else if c == 'c' || c == 'g' || c == 'j' || c == 'k' || c == 'q' || c == 's' || c == 'x'
        || c == 'z' {
        '2'
    } else if c == 'd' || c == 't' {
        '3'
    } else if c == 'l' {
        '4'
    } else if c == 'm' || c == 'n' {
        '5'
    } else if c == 'r' {
        '6'
    } else if c == 'h' || c == 'w' {
        '7'
    } else if c == ' ' {
        ' '
    } else {
        'v'
    }
}

/// The class code of one character, classified by its lowercase form.
pub open spec fn soundex_code(c: char) -> char {
    if c as u32 <= 127 {
        class_of_lower(ascii_lower(c))
    } else {
        class_of_lower(lower_first_of(c))
    }
}

/// The tail of the encoding before collapsing: each character's code, with
/// the dropped class 7 already removed.
pub open spec fn coded_tail(s: Seq<char>) -> Seq<char>
    decreases s.len(),
{
    if s.len() == 0 {
        Seq::empty()
    } else {
        coded_tail(s.drop_last()) + (if soundex_code(s.last()) == '7' {
            Seq::<char>::empty()
        } else {
            seq![soundex_code(s.last())]
        })
    }
}

/// Collapses runs of consecutive equal characters to one.
pub open spec fn collapse_runs(s: Seq<char>) -> Seq<char>
    decreases s.len(),
{
    if s.len() <= 1 {
        s
    } else if s.last() == s[s.len() - 2] {
        collapse_runs(s.drop_last())
    } else {
        collapse_runs(s.drop_last()).push(s.last())
    }
}

/// Drops the vowel placeholders.
pub open spec fn drop_vowel_marks(s: Seq<char>) -> Seq<char>
    decreases s.len(),
{
    if s.len() == 0 {
        Seq::empty()
    } else {
        drop_vowel_marks(s.drop_last()) + (if s.last() == 'v' {
            Seq::<char>::empty()
        } else {
            seq![s.last()]
        })
    }
}

/// The full encoding: first character as typed, then the collapsed codes.
pub open spec fn soundex_spec(s: Seq<char>) -> Seq<char> {
    if s.len() == 0 {
        Seq::empty()
    } else {
        seq![s[0]] + drop_vowel_marks(collapse_runs(coded_tail(s.drop_first())))
    }
}

/// Classifies one character by its lowercase form.
pub fn soundex_encode_char(c: char) -> (r: char)
    ensures
        r == soundex_code(c),
{
    let l: char = if (c as u32) <= 127 {
        match c {
            'A' => 'a',
            'B' => 'b',
            'C' => 'c',
            'D' => 'd',
            'E' => 'e',
            'F' => 'f',
            'G' => 'g',
            'H' => 'h',
            'I' => 'i',
            'J' => 'j',
            'K' => 'k',
            'L' => 'l',
            'M' => 'm',
            'N' => 'n',
            'O' => 'o',
            'P' => 'p',
            'Q' => 'q',
            'R' => 'r',
            'S' => 's',
            'T' => 't',
            'U' => 'u',
            'V' => 'v',
            'W' => 'w',
            'X' => 'x',
            'Y' => 'y',
            'Z' => 'z',
            _ => c,
        }
    } else {
        lowercase_char(c)
    };
    match l {
        'b' | 'f' | 'p' | 'v' => '1',
        'c' | 'g' | 'j' | 'k' | 'q' | 's' | 'x' | 'z' => '2',
        'd' | 't' => '3',
        'l' => '4',
        'm' | 'n' => '5',
        'r' => '6',
        'h' | 'w' => '7',
        ' ' => ' ',
        _ => 'v',
    }
}

proof fn lemma_collapse_runs_last(s: Seq<char>)
    requires
        s.len() > 0,
    ensures
        collapse_runs(s).len() >= 1,
        collapse_runs(s).last() == s.last(),
    decreases s.len(),
{
    if s.len() > 1 {
        lemma_collapse_runs_last(s.drop_last());
    }
}

/// Encodes a string; the empty string encodes to the empty string.
pub fn soundex_encode_str(s: &str) -> (r: String)
    ensures
        r@ == soundex_spec(s@),
{
    let len = s.unicode_len();
    if len == 0 {
        return String::new();
    }
    // codes of the tail, class 7 dropped
    let mut t: Vec<char> = Vec::new();
    let mut i: usize = 1;
    while i < len
        invariant
            1 <= i <= len,
            len == s@.len(),
            t@ == coded_tail(s@.subrange(1, i as int)),
        decreases len - i,
    {
        let c = soundex_encode_char(s.get_char(i));
        proof {
            assert(s@.subrange(1, i as int + 1).drop_last() =~= s@.subrange(1, i as int));
            assert(s@.subrange(1, i as int + 1).last() == s@[i as int]);
        }
        if c != '7' {
            t.push(c);
        }
        i += 1;
    }
    proof {
        assert(s@.subrange(1, len as int) =~= s@.drop_first());
    }
    // collapse runs of equal codes
    let mut d: Vec<char> = Vec::new();
    let mut j: usize = 0;
    while j < t.len()
        invariant
            0 <= j <= t@.len(),
            d@ == collapse_runs(t@.take(j as int)),
        decreases t@.len() - j,
    {
        let c = t[j];
        proof {
            assert(t@.take(j as int + 1).drop_last() =~= t@.take(j as int));
            assert(t@.take(j as int + 1).last() == t@[j as int]);
            if t@.take(j as int).len() > 0 {
                lemma_collapse_runs_last(t@.take(j as int));
            }
        }
        if d.len() == 0 {
            proof {
                if t@.take(j as int).len() > 0 {
                    assert(collapse_runs(t@.take(j as int)).len() >= 1);
                }
                assert(t@.take(j as int).len() == 0);
                assert(t@.take(j as int + 1) =~= seq![t@[j as int]]);
            }
            d.push(c);
        } else {
            let last = d[d.len() - 1];
            if last != c {
                d.push(c);
            }
        }
        j += 1;
    }
    proof {
        assert(t@.take(t@.len() as int) =~= t@);
    }
    // first character as typed, then the codes without vowel placeholders
    let mut r = String::new();
    r.push(s.get_char(0));
    let mut k: usize = 0;
    while k < d.len()
        invariant
            0 <= k <= d@.len(),
            r@ == seq![s@[0]] + drop_vowel_marks(d@.take(k as int)),
        decreases d@.len() - k,
    {
        let c = d[k];
        proof {
            assert(d@.take(k as int + 1).drop_last() =~= d@.take(k as int));
            assert(d@.take(k as int + 1).last() == d@[k as int]);
        }
        if c != 'v' {
            r.push(c);
        }
        k += 1;
    }
    proof {
        assert(d@.take(d@.len() as int) =~= d@);
    }
    r
}

/// Whether the two strings have equal encodings.
pub fn soundex(a: &str, b: &str) -> (r: bool)
    ensures
        r == (soundex_spec(a@) == soundex_spec(b@)),
{
    let e1 = soundex_encode_str(a);
    let e2 = soundex_encode_str(b);
    str_eq(e1.as_str(), e2.as_str())
}

/// Law: appending a trailing h or w (in either case) never changes the
/// encoding of a non-empty string, because their class is dropped before
/// the codes are collapsed.
pub proof fn lemma_soundex_trailing_hw(s: Seq<char>, c: char)
    requires
        s.len() > 0,
        c == 'h' || c == 'w' || c == 'H' || c == 'W',
    ensures
        soundex_spec(s.push(c)) == soundex_spec(s),
{
    assert(soundex_code(c) == '7');
    assert(s.push(c).drop_first() =~= s.drop_first().push(c));
    assert(s.drop_first().push(c).drop_last() =~= s.drop_first());
    assert(coded_tail(s.drop_first().push(c)) =~= coded_tail(s.drop_first()));
    assert(s.push(c)[0] == s[0]);
}

pub open spec fn is_code_digit(c: char) -> bool {
    c == '1' || c == '2' || c == '3' || c == '4' || c == '5' || c == '6'
}

proof fn lemma_coded_tail_classes(x: Seq<char>)
    requires
        forall|i: int| 0 <= i < x.len() ==> (#[trigger] x[i]) != ' ' && (x[i] as u32) <= 127,
    ensures
        forall|j: int|
            0 <= j < coded_tail(x).len() ==> is_code_digit(#[trigger] coded_tail(x)[j])
                || coded_tail(x)[j] == 'v',
    decreases x.len(),
{
    if x.len() > 0 {
        assert(forall|i: int|
            0 <= i < x.drop_last().len() ==> (#[trigger] x.drop_last()[i]) != ' ' && (
            x.drop_last()[i] as u32) <= 127);
        lemma_coded_tail_classes(x.drop_last());
        let last = x[x.len() - 1];
        assert(ascii_lower(last) != ' ');
        assert(soundex_code(last) != ' ');
        let pre = coded_tail(x.drop_last());
        assert forall|j: int|
            0 <= j < coded_tail(x).len() implies is_code_digit(#[trigger] coded_tail(x)[j])
            || coded_tail(x)[j] == 'v' by {
            if j < pre.len() {
                assert(coded_tail(x)[j] == pre[j]);
            } else {
                assert(coded_tail(x)[j] == soundex_code(last));
            }
        }
    }
}

proof fn lemma_collapse_classes(x: Seq<char>)
    requires
        forall|i: int|
            0 <= i < x.len() ==> is_code_digit(#[trigger] x[i]) || x[i] == 'v',
    ensures
        forall|j: int|
            0 <= j < collapse_runs(x).len() ==> is_code_digit(#[trigger] collapse_runs(x)[j])
                || collapse_runs(x)[j] == 'v',
    decreases x.len(),
{
    if x.len() > 1 {
        assert(forall|i: int|
            0 <= i < x.drop_last().len() ==> is_code_digit(#[trigger] x.drop_last()[i])
                || x.drop_last()[i] == 'v');
        lemma_collapse_classes(x.drop_last());
        assert(x.last() == x[x.len() - 1]);
        let pre = collapse_runs(x.drop_last());
        assert forall|j: int|
            0 <= j < collapse_runs(x).len() implies is_code_digit(
            #[trigger] collapse_runs(x)[j],
        ) || collapse_runs(x)[j] == 'v' by {
            if x.last() != x[x.len() - 2] {
                if j < pre.len() {
                    assert(collapse_runs(x)[j] == pre[j]);
                } else {
                    assert(collapse_runs(x)[j] == x.last());
                }
            }
        }
    }
}

proof fn lemma_dvm_digits(x: Seq<char>)
    requires
        forall|i: int|
            0 <= i < x.len() ==> is_code_digit(#[trigger] x[i]) || x[i] == 'v',
    ensures
        forall|j: int|
            0 <= j < drop_vowel_marks(x).len() ==> is_code_digit(
                #[trigger] drop_vowel_marks(x)[j],
            ),
    decreases x.len(),
{
    if x.len() > 0 {
        assert(forall|i: int|
            0 <= i < x.drop_last().len() ==> is_code_digit(#[trigger] x.drop_last()[i])
                || x.drop_last()[i] == 'v');
        lemma_dvm_digits(x.drop_last());
        assert(x.last() == x[x.len() - 1]);
        let pre = drop_vowel_marks(x.drop_last());
        assert forall|j: int|
            0 <= j < drop_vowel_marks(x).len() implies is_code_digit(
            #[trigger] drop_vowel_marks(x)[j],
        ) by {
            if j < pre.len() {
                assert(drop_vowel_marks(x)[j] == pre[j]);
            } else {
                assert(drop_vowel_marks(x)[j] == x.last());
            }
        }
    }
}

proof fn lemma_coded_tail_of_digits(x: Seq<char>)
    requires
        forall|i: int| 0 <= i < x.len() ==> is_code_digit(#[trigger] x[i]),
    ensures
        coded_tail(x).len() == x.len(),
        forall|j: int| 0 <= j < coded_tail(x).len() ==> #[trigger] coded_tail(x)[j] == 'v',
    decreases x.len(),
{
    if x.len() > 0 {
        assert(forall|i: int|
            0 <= i < x.drop_last().len() ==> is_code_digit(#[trigger] x.drop_last()[i]));
        lemma_coded_tail_of_digits(x.drop_last());
        assert(is_code_digit(x[x.len() - 1]));
        assert(soundex_code(x.last()) == 'v');
        let pre = coded_tail(x.drop_last());
        assert forall|j: int|
            0 <= j < coded_tail(x).len() implies #[trigger] coded_tail(x)[j] == 'v' by {
            if j < pre.len() {
                assert(coded_tail(x)[j] == pre[j]);
            } else {
                assert(coded_tail(x)[j] == soundex_code(x.last()));
            }
        }
    }
}

proof fn lemma_collapse_all_same(x: Seq<char>, e: char)
    requires
        x.len() >= 1,
        forall|i: int| 0 <= i < x.len() ==> #[trigger] x[i] == e,
    ensures
        collapse_runs(x) == seq![e],
    decreases x.len(),
{
    if x.len() == 1 {
        assert(collapse_runs(x) =~= seq![e]);
    } else {
        assert(forall|i: int| 0 <= i < x.drop_last().len() ==> #[trigger] x.drop_last()[i] == e);
        lemma_collapse_all_same(x.drop_last(), e);
        assert(x.last() == x[x.len() - 1]);
        assert(x[x.len() - 2] == e);
    }
}

/// Law: re-encoding an encoding erases everything but the first character,
/// which an encoding keeps as typed: every code digit classifies as a
/// vowel placeholder and vanishes.  Stated for non-empty strings of
/// non-space ASCII characters; any other character classifies through a
/// named lowercase form of which nothing more is known.
pub proof fn lemma_soundex_reencode(s: Seq<char>)
    requires
        s.len() >= 1,
        forall|i: int| 0 <= i < s.len() ==> (#[trigger] s[i]) != ' ' && (s[i] as u32) <= 127,
    ensures
        soundex_spec(soundex_spec(s)) == seq![s[0]],
{
    let rest = s.drop_first();
    assert(forall|i: int|
        0 <= i < rest.len() ==> (#[trigger] rest[i]) != ' ' && (rest[i] as u32) <= 127);
    let t0 = coded_tail(rest);
    lemma_coded_tail_classes(rest);
    lemma_collapse_classes(t0);
    let t = drop_vowel_marks(collapse_runs(t0));
    lemma_dvm_digits(collapse_runs(t0));
    let e = soundex_spec(s);
    assert(e == seq![s[0]] + t);
    assert(e.len() == 1 + t.len());
    assert(e[0] == s[0]);
    assert(e.drop_first() =~= t);
    lemma_coded_tail_of_digits(t);
    if t.len() == 0 {
        assert(coded_tail(t) =~= Seq::<char>::empty());
        assert(collapse_runs(coded_tail(t)) =~= Seq::<char>::empty());
        assert(drop_vowel_marks(collapse_runs(coded_tail(t))) =~= Seq::<char>::empty());
    } else {
        lemma_collapse_all_same(coded_tail(t), 'v');
        assert(seq!['v'].len() == 1);
        assert(seq!['v'].last() == 'v');
        assert(seq!['v'].drop_last() =~= Seq::<char>::empty());
        assert(drop_vowel_marks(Seq::<char>::empty()) =~= Seq::<char>::empty());
        assert(drop_vowel_marks(seq!['v']) =~= drop_vowel_marks(seq!['v'].drop_last()) + Seq::<
            char,
        >::empty());
        assert(drop_vowel_marks(seq!['v']) =~= Seq::<char>::empty());
    }
    assert(soundex_spec(e) =~= seq![s[0]]);
}

} // verus!
