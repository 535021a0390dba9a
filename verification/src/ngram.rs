//! The n-gram similarity predicate.
//!
//! The n-gram tokens of a string are its windows of n consecutive
//! characters.  The score of two strings is I / (|A| + D), where A is the
//! set of distinct tokens of the first, I the number of tokens of the
//! second that lie in A and D the number that do not.  The threshold is a
//! plain decimal with at most nine fractional digits, and the comparison
//! score >= threshold is decided exactly, over the integers:
//! I * 10^k >= p * (|A| + D) for a threshold p / 10^k.
//!
//! Windows count characters, not bytes, so multi-byte text is never cut
//! through.  An empty string, a string shorter than the window, and a
//! window size of zero all yield the zero score.

use vstd::prelude::*;
use vstd::string::*;
use crate::metrics::{all_digits, decimal_body, digits_value, is_digit, str_eq};

verus! {

/// The n-character windows of a sequence, in order.
pub open spec fn tokens(s: Seq<char>, n: nat) -> Seq<Seq<char>> {
    if n > s.len() || n == 0 {
        Seq::empty()
    } else {
        Seq::new((s.len() - n + 1) as nat, |i: int| s.subrange(i, i + n))
    }
}

/// Order-preserving deduplication: keeps the first occurrence of each
/// element.
pub open spec fn dedup_first(x: Seq<Seq<char>>) -> Seq<Seq<char>>
    decreases x.len(),
{
    if x.len() == 0 {
        Seq::empty()
    } else if x.drop_last().contains(x.last()) {
        dedup_first(x.drop_last())
    } else {
        dedup_first(x.drop_last()).push(x.last())
    }
}

/// How many elements of `x` lie in `within`.
pub open spec fn inter_count(x: Seq<Seq<char>>, within: Seq<Seq<char>>) -> nat
    decreases x.len(),
{
    if x.len() == 0 {
        0
    } else {
        inter_count(x.drop_last(), within) + (if within.contains(x.last()) {
            1nat
        } else {
            0nat
        })
    }
}

/// How many elements of `x` lie outside `within`.
pub open spec fn diff_count(x: Seq<Seq<char>>, within: Seq<Seq<char>>) -> nat
    decreases x.len(),
{
    if x.len() == 0 {
        0
    } else {
        diff_count(x.drop_last(), within) + (if within.contains(x.last()) {
            0nat
        } else {
            1nat
        })
    }
}

pub open spec fn pow10(k: nat) -> nat
    decreases k,
{
    if k == 0 {
        1
    } else {
        10 * pow10((k - 1) as nat)
    }
}

/// The position of the first dot, if any.
pub open spec fn is_first_dot(b: Seq<char>, d: int) -> bool {
    0 <= d < b.len() && b[d] == '.' && (forall|j: int| 0 <= j < d ==> b[j] != '.')
}

/// What an n-gram threshold string denotes: an optional leading plus sign,
/// then digits with at most one dot and one to nine fractional digits,
/// read as the rational p / 10^k.  The result is (p, k).
pub open spec fn threshold_spec(s: Seq<char>) -> Option<(nat, nat)> {
    let b = decimal_body(s);
    if exists|d: int| is_first_dot(b, d) {
        let d = choose|d: int| is_first_dot(b, d);
        let ip = b.take(d);
        let fp = b.subrange(d + 1, b.len() as int);
        if ip.len() > 0 && all_digits(ip) && 1 <= fp.len() <= 9 && all_digits(fp)
            && digits_value(ip) * pow10(fp.len()) + digits_value(fp) <= u64::MAX {
            Some(((digits_value(ip) * pow10(fp.len()) + digits_value(fp)) as nat, fp.len()))
        } else {
            None
        }
    } else {
        if b.len() > 0 && all_digits(b) && digits_value(b) <= u64::MAX {
            Some((digits_value(b), 0))
        } else {
            None
        }
    }
}

/// Whether the n-gram score of `a` and `b` with window `n` reaches the
/// threshold p / 10^k.
pub open spec fn ngram_match_spec(a: Seq<char>, b: Seq<char>, n: nat, p: nat, k: nat) -> bool {
    if a.len() == 0 || b.len() == 0 || n == 0 {
        p == 0
    } else {
        let aset = dedup_first(tokens(a, n));
        let num = inter_count(tokens(b, n), aset);
        let den = aset.len() + diff_count(tokens(b, n), aset);
        if den == 0 {
            p == 0
        } else {
            num * pow10(k) >= p * den
        }
    }
}

proof fn lemma_contains_split(x: Seq<Seq<char>>, e: Seq<char>)
    requires
        x.len() > 0,
    ensures
        x.contains(e) == (x.drop_last().contains(e) || x.last() == e),
{
    if x.contains(e) {
        let i = choose|i: int| 0 <= i < x.len() && x[i] == e;
        if i < x.len() - 1 {
            assert(x.drop_last()[i] == e);
        }
    }
    if x.drop_last().contains(e) {
        let i = choose|i: int| 0 <= i < x.drop_last().len() && x.drop_last()[i] == e;
        assert(x[i] == e);
    }
    if x.last() == e {
        assert(x[x.len() - 1] == e);
    }
}

proof fn lemma_push_contains(u: Seq<Seq<char>>, l: Seq<char>, e: Seq<char>)
    ensures
        u.push(l).contains(e) == (u.contains(e) || l == e),
{
    lemma_contains_split(u.push(l), e);
    assert(u.push(l).drop_last() =~= u);
}

/// Deduplication keeps exactly the elements of the original sequence.
pub proof fn lemma_dedup_contains(x: Seq<Seq<char>>, e: Seq<char>)
    ensures
        dedup_first(x).contains(e) == x.contains(e),
    decreases x.len(),
{
    if x.len() > 0 {
        lemma_dedup_contains(x.drop_last(), e);
        lemma_contains_split(x, e);
        if x.drop_last().contains(x.last()) {
            if x.last() == e {
                assert(x.drop_last().contains(e));
            }
        } else {
            lemma_push_contains(dedup_first(x.drop_last()), x.last(), e);
        }
    }
}

proof fn lemma_dedup_len_le(x: Seq<Seq<char>>)
    ensures
        dedup_first(x).len() <= x.len(),
    decreases x.len(),
{
    if x.len() > 0 {
        lemma_dedup_len_le(x.drop_last());
    }
}

proof fn lemma_inter_all(x: Seq<Seq<char>>, within: Seq<Seq<char>>)
    requires
        forall|i: int| 0 <= i < x.len() ==> within.contains(#[trigger] x[i]),
    ensures
        inter_count(x, within) == x.len(),
        diff_count(x, within) == 0,
    decreases x.len(),
{
    if x.len() > 0 {
        assert(forall|i: int|
            0 <= i < x.drop_last().len() ==> within.contains(#[trigger] x.drop_last()[i]));
        lemma_inter_all(x.drop_last(), within);
        assert(x.last() == x[x.len() - 1]);
    }
}

/// Scans the digits of `s` in the half-open character range lo..hi and
/// returns their base-ten value; None when a non-digit occurs or the value
/// exceeds u64::MAX.
fn digits_to_u64(s: &str, lo: usize, hi: usize) -> (r: Option<u64>)
    requires
        lo <= hi <= s@.len(),
    ensures
        (r is Some) == (all_digits(s@.subrange(lo as int, hi as int)) && digits_value(
            s@.subrange(lo as int, hi as int),
        ) <= u64::MAX),
        r matches Some(v) ==> v == digits_value(s@.subrange(lo as int, hi as int)),
{
    let ghost whole = s@.subrange(lo as int, hi as int);
    let mut val: u64 = 0;
    let mut i: usize = lo;
    while i < hi
        invariant
            lo <= i <= hi <= s@.len(),
            whole == s@.subrange(lo as int, hi as int),
            all_digits(s@.subrange(lo as int, i as int)),
            val == digits_value(s@.subrange(lo as int, i as int)),
        decreases hi - i,
    {
        let c = s.get_char(i);
        let cu = c as u32;
        if cu < 48 || cu > 57 {
            proof {
                assert(whole[i - lo] == s@[i as int]);
                assert(!is_digit(whole[i - lo]));
            }
            return None;
        }
        let d: u64 = (cu - 48) as u64;
        let ghost prefix = s@.subrange(lo as int, i as int);
        let ghost prefix1 = s@.subrange(lo as int, i as int + 1);
        proof {
            assert(prefix1.drop_last() =~= prefix);
            assert(prefix1.last() == s@[i as int]);
            assert(prefix1 =~= whole.take(i - lo + 1));
        }
        let v10 = match val.checked_mul(10) {
            Some(v) => v,
            None => {
                proof {
                    crate::metrics::lemma_digits_value_mono(whole, i - lo + 1);
                }
                return None;
            },
        };
        let v = match v10.checked_add(d) {
            Some(v) => v,
            None => {
                proof {
                    crate::metrics::lemma_digits_value_mono(whole, i - lo + 1);
                }
                return None;
            },
        };
        val = v;
        i += 1;
    }
    proof {
        assert(s@.subrange(lo as int, hi as int) =~= whole);
    }
    Some(val)
}

proof fn lemma_pow10_nine()
    ensures
        pow10(9) == 1000000000,
{
    assert(pow10(0nat) == 1);
    assert(pow10(1nat) == 10);
    assert(pow10(2nat) == 100);
    assert(pow10(3nat) == 1000);
    assert(pow10(4nat) == 10000);
    assert(pow10(5nat) == 100000);
    assert(pow10(6nat) == 1000000);
    assert(pow10(7nat) == 10000000);
    assert(pow10(8nat) == 100000000);
    assert(pow10(9nat) == 1000000000);
}

proof fn lemma_pow10_bound(k: nat)
    requires
        k <= 9,
    ensures
        pow10(k) <= 1000000000,
{
    lemma_pow10_nine();
    lemma_pow10_mono(k, 9nat);
}

proof fn lemma_pow10_mono(j: nat, k: nat)
    requires
        j <= k,
    ensures
        pow10(j) <= pow10(k),
        pow10(j) >= 1,
    decreases k,
{
    if j < k {
        lemma_pow10_mono(j, (k - 1) as nat);
    } else if k > 0 {
        lemma_pow10_mono((j - 1) as nat, (k - 1) as nat);
    }
}

/// Parses a threshold string into (p, q) with q == 10^k, so that the
/// denoted rational is p / q; None exactly on the strings that
/// threshold_spec rejects.
fn parse_threshold(s: &str) -> (r: Option<(u64, u64)>)
    ensures
        (r is Some) == (threshold_spec(s@) is Some),
        r matches Some(pq) ==> threshold_spec(s@) matches Some(t) && pq.0 == t.0 && pq.1 == pow10(
            t.1,
        ) && pq.1 <= 1000000000,
{
    let len = s.unicode_len();
    let start: usize = if len > 0 && s.get_char(0) == '+' {
        1
    } else {
        0
    };
    let ghost b = decimal_body(s@);
    proof {
        assert(b =~= s@.subrange(start as int, len as int));
    }
    // find the first dot
    let mut i: usize = start;
    let mut dot: Option<usize> = None;
    while i < len
        invariant
            start <= i <= len,
            len == s@.len(),
            b =~= s@.subrange(start as int, len as int),
            dot is None ==> forall|j: int| start <= j < i ==> s@[j] != '.',
            dot matches Some(di) ==> start <= di < i && s@[di as int] == '.' && (forall|j: int|
                start <= j < di ==> s@[j] != '.'),
        decreases len - i,
    {
        if dot.is_none() {
            if s.get_char(i) == '.' {
                dot = Some(i);
            }
        }
        i += 1;
    }
    match dot {
        None => {
            proof {
                assert(forall|d: int| 0 <= d < b.len() ==> b[d] == s@[d + start]);
                if exists|d: int| is_first_dot(b, d) {
                    let d = choose|d: int| is_first_dot(b, d);
                    assert(b[d] == s@[d + start]);
                    assert(false);
                }
            }
            match digits_to_u64(s, start, len) {
                Some(v) => {
                    if start == len {
                        proof {
                            assert(b.len() == 0);
                        }
                        None
                    } else {
                        Some((v, 1))
                    }
                },
                None => None,
            }
        },
        Some(di) => {
            let ghost d = di - start;
            proof {
                assert(b[d] == s@[di as int]);
                assert(is_first_dot(b, d));
                let d0 = choose|d0: int| is_first_dot(b, d0);
                assert(d0 == d) by {
                    if d0 < d {
                        assert(b[d0] == s@[d0 + start]);
                    }
                    if d0 > d {
                        assert(b[d] != '.');
                    }
                };
            }
            let klen = len - di - 1;
            if di == start || klen < 1 || klen > 9 {
                return None;
            }
            let ip = match digits_to_u64(s, start, di) {
                Some(v) => v,
                None => {
                    proof {
                        assert(b.take(d) =~= s@.subrange(start as int, di as int));
                        let fplen = (b.len() - d - 1) as nat;
                        lemma_pow10_mono(0nat, fplen);
                        if all_digits(b.take(d)) {
                            let v = digits_value(b.take(d));
                            assert(v * pow10(fplen) >= v) by (nonlinear_arith)
                                requires
                                    pow10(fplen) >= 1,
                                    v >= 0,
                            ;
                        }
                    }
                    return None;
                },
            };
            let fp = match digits_to_u64(s, di + 1, len) {
                Some(v) => v,
                None => {
                    proof {
                        assert(b.subrange(d + 1, b.len() as int) =~= s@.subrange(
                            di + 1,
                            len as int,
                        ));
                    }
                    return None;
                },
            };
            proof {
                assert(b.take(d) =~= s@.subrange(start as int, di as int));
                assert(b.subrange(d + 1, b.len() as int) =~= s@.subrange(di + 1, len as int));
                lemma_pow10_bound((klen) as nat);
            }
            let mut q: u64 = 1;
            let mut kk: usize = 0;
            while kk < klen
                invariant
                    0 <= kk <= klen <= 9,
                    q == pow10(kk as nat),
                    q <= 1000000000,
                decreases klen - kk,
            {
                proof {
                    lemma_pow10_mono((kk + 1) as nat, 9nat);
                    lemma_pow10_bound((kk + 1) as nat);
                }
                q = q * 10;
                kk += 1;
            }
            // p = ip * 10^k + fp
            let ghost fplen = (len - di - 1) as nat;
            let p1 = match ip.checked_mul(q) {
                Some(v) => v,
                None => {
                    proof {
                        let m = digits_value(b.take(d)) * pow10(fplen);
                        assert(m + digits_value(b.subrange(d + 1, b.len() as int)) >= m);
                    }
                    return None;
                },
            };
            let p = match p1.checked_add(fp) {
                Some(v) => v,
                None => {
                    return None;
                },
            };
            Some((p, q))
        },
    }
}

/// Tests whether `x` equals one of the strings in `v`.
fn contains_str(v: &Vec<&str>, x: &str) -> (r: bool)
    ensures
        r == v@.map_values(|t: &str| t@).contains(x@),
{
    let mut i: usize = 0;
    while i < v.len()
        invariant
            0 <= i <= v@.len(),
            forall|j: int| 0 <= j < i ==> (#[trigger] v@[j])@ != x@,
        decreases v@.len() - i,
    {
        if str_eq(v[i], x) {
            proof {
                assert(v@.map_values(|t: &str| t@)[i as int] == x@);
            }
            return true;
        }
        i += 1;
    }
    proof {
        let m = v@.map_values(|t: &str| t@);
        assert forall|j: int| 0 <= j < m.len() implies #[trigger] m[j] != x@ by {
            assert(m[j] == v@[j]@);
        }
    }
    false
}

/// Whether the n-gram score of `a` against `b` with the given window size
/// reaches the threshold; None exactly when the threshold string does not
/// parse.  An empty string on either side and a window size of zero yield
/// the zero score, which reaches only thresholds of zero.
pub fn ngram_match(a: &str, b: &str, size: usize, min_score: &str) -> (r: Option<bool>)
    ensures
        (r is Some) == (threshold_spec(min_score@) is Some),
        r matches Some(m) ==> threshold_spec(min_score@) matches Some(t) && m == ngram_match_spec(
            a@,
            b@,
            size as nat,
            t.0,
            t.1,
        ),
{
    let (p, q) = match parse_threshold(min_score) {
        Some(pq) => pq,
        None => {
            return None;
        },
    };
    let alen = a.unicode_len();
    let blen = b.unicode_len();
    if alen == 0 || blen == 0 || size == 0 {
        return Some(p == 0);
    }
    let ghost n = size as nat;
    let ghost atoks = tokens(a@, n);
    // distinct n-gram tokens of a, first occurrences first
    let mut aset: Vec<&str> = Vec::new();
    if size <= alen {
        let mut i: usize = 0;
        while i <= alen - size
            invariant
                size >= 1,
                alen == a@.len(),
                size <= alen,
                0 <= i <= (alen - size) + 1,
                atoks == tokens(a@, size as nat),
                atoks.len() == (alen - size) + 1,
                aset@.map_values(|t: &str| t@) == dedup_first(atoks.take(i as int)),
            decreases alen - i,
        {
            let tok = a.substring_char(i, i + size);
            proof {
                assert(atoks[i as int] == a@.subrange(i as int, i + size));
                assert(atoks.take(i as int + 1).drop_last() =~= atoks.take(i as int));
                assert(atoks.take(i as int + 1).last() == atoks[i as int]);
                lemma_dedup_contains(atoks.take(i as int), atoks[i as int]);
            }
            if !contains_str(&aset, tok) {
                aset.push(tok);
                proof {
                    assert(aset@.map_values(|t: &str| t@) =~= dedup_first(
                        atoks.take(i as int),
                    ).push(tok@));
                }
            }
            i += 1;
        }
        proof {
            assert(atoks.take(atoks.len() as int) =~= atoks);
        }
    } else {
        proof {
            assert(atoks =~= Seq::<Seq<char>>::empty());
            assert(aset@.map_values(|t: &str| t@) =~= Seq::<Seq<char>>::empty());
        }
    }
    let ghost asetv = aset@.map_values(|t: &str| t@);
    proof {
        assert(asetv == dedup_first(atoks));
    }
    // count the tokens of b inside and outside the set
    let ghost btoks = tokens(b@, n);
    let mut inter: usize = 0;
    let mut diff: usize = 0;
    if size <= blen {
        let mut j: usize = 0;
        while j <= blen - size
            invariant
                size >= 1,
                blen == b@.len(),
                size <= blen,
                0 <= j <= (blen - size) + 1,
                btoks == tokens(b@, size as nat),
                btoks.len() == (blen - size) + 1,
                asetv == aset@.map_values(|t: &str| t@),
                inter == inter_count(btoks.take(j as int), asetv),
                diff == diff_count(btoks.take(j as int), asetv),
                inter + diff == j,
            decreases blen - j,
        {
            let tok = b.substring_char(j, j + size);
            proof {
                assert(btoks[j as int] == b@.subrange(j as int, j + size));
                assert(btoks.take(j as int + 1).drop_last() =~= btoks.take(j as int));
                assert(btoks.take(j as int + 1).last() == btoks[j as int]);
            }
            if contains_str(&aset, tok) {
                inter += 1;
            } else {
                diff += 1;
            }
            j += 1;
        }
        proof {
            assert(btoks.take(btoks.len() as int) =~= btoks);
        }
    } else {
        proof {
            assert(btoks =~= Seq::<Seq<char>>::empty());
        }
    }
    proof {
        assert(inter == inter_count(btoks, asetv));
        assert(diff == diff_count(btoks, asetv));
    }
    let den: u128 = (aset.len() as u128) + (diff as u128);
    if den == 0 {
        return Some(p == 0);
    }
    let num: u128 = inter as u128;
    proof {
        assert((num as int) * (q as int) <= 0xffffffffffffffffu128 as int * 1000000000) by (
        nonlinear_arith)
            requires
                0 <= num as int <= 0xffffffffffffffffu128 as int,
                0 <= q as int <= 1000000000,
        ;
    }
    let lhs = num * (q as u128);
    let rhs = match (p as u128).checked_mul(den) {
        Some(v) => v,
        None => {
            proof {
                assert((p as int) * (den as int) > u128::MAX);
            }
            return Some(false);
        },
    };
    proof {
        assert(den as int == asetv.len() + diff_count(btoks, asetv));
        assert(lhs as int == (inter as int) * (q as int));
        assert(rhs as int == (p as int) * (den as int));
    }
    Some(lhs >= rhs)
}

/// Law: for a window that fits the string and any threshold at most one,
/// a string always n-gram-matches itself: every token of the string lies
/// in its own distinct-token set, so the score is at least one.
pub proof fn lemma_ngram_self_match(a: Seq<char>, n: nat, p: nat, k: nat)
    requires
        1 <= n <= a.len(),
        p <= pow10(k),
    ensures
        ngram_match_spec(a, a, n, p, k),
{
    let toks = tokens(a, n);
    let aset = dedup_first(toks);
    assert(toks.len() == a.len() - n + 1);
    assert forall|i: int| 0 <= i < toks.len() implies aset.contains(#[trigger] toks[i]) by {
        assert(toks.contains(toks[i]));
        lemma_dedup_contains(toks, toks[i]);
    }
    lemma_inter_all(toks, aset);
    lemma_dedup_len_le(toks);
    assert(aset.contains(toks[0]));
    assert(aset.len() >= 1);
    let num = inter_count(toks, aset);
    let den = aset.len() + diff_count(toks, aset);
    assert(num >= den);
    assert(num * pow10(k) >= p * den) by (nonlinear_arith)
        requires
            num >= den,
            pow10(k) >= p,
            den >= 0,
            p >= 0,
    ;
}

} // verus!
