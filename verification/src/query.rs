//! The query evaluator.
//!
//! A query is a non-empty conjunction of filters; each filter names a
//! field, a predicate and a reference value, with predicate-specific
//! parameters carried as strings.  One filter's candidate set is the union
//! of the posting lists of the field's values that the predicate accepts;
//! the query's result is the intersection of the candidate sets.
//!
//! A filter on a field the index does not know contributes the empty set,
//! as does an unrecognized predicate name; neither is an error.  A
//! parameter that does not parse is an error.

use vstd::prelude::*;
use vstd::string::*;
use crate::metrics::{
    str_eq, parse_usize, parse_usize_spec, lev, ham, damerau_of, jaro_meets, jaro_winkler_meets,
    parses_f64, levenshtein_distance, hamming_distance, damerau_distance, jaro_matches,
    jaro_winkler_matches,
};
use crate::ngram::{ngram_match, ngram_match_spec, threshold_spec};
use crate::soundex::{soundex, soundex_spec};
use crate::index::{FieldIndex, FieldEntry, Database, lemma_field_at, lemma_push_contains};

verus! {

/// One predicate of a query.
pub struct Filter {
    pub field_name: String,
    pub filter_type: String,
    pub value: String,
    pub params: Vec<String>,
}

/// The one request-fatal error: a predicate parameter that does not parse.
#[derive(Clone, Copy, PartialEq, Eq, Structural, Debug)]
pub enum QueryError {
    ParameterError,
}

pub open spec fn params_view(ps: Seq<String>) -> Seq<Seq<char>> {
    ps.map_values(|p: String| p@)
}

/// The recognized predicate names.
pub open spec fn known_filter_type(ft: Seq<char>) -> bool {
    ||| ft == "equality"@
    ||| ft == "hamming"@
    ||| ft == "levenshtein"@
    ||| ft == "damerau_levenshtein"@
    ||| ft == "jaro"@
    ||| ft == "jaro_winkler"@
    ||| ft == "ngram"@
    ||| ft == "soundex"@
}

/// Whether the parameters parse for the given predicate.
pub open spec fn filter_params_ok(ft: Seq<char>, ps: Seq<Seq<char>>) -> bool {
    if ft == "hamming"@ || ft == "levenshtein"@ || ft == "damerau_levenshtein"@ {
        ps.len() >= 1 && parse_usize_spec(ps[0]) is Some
    } else if ft == "jaro"@ || ft == "jaro_winkler"@ {
        ps.len() >= 1 && parses_f64(ps[0])
    } else if ft == "ngram"@ {
        ps.len() >= 2 && parse_usize_spec(ps[0]) is Some && threshold_spec(ps[1]) is Some
    } else {
        true
    }
}

pub open spec fn some_nat(o: Option<nat>) -> nat {
    match o {
        Some(v) => v,
        None => 0,
    }
}

pub open spec fn thr_p(o: Option<(nat, nat)>) -> nat {
    match o {
        Some(t) => t.0,
        None => 0,
    }
}

pub open spec fn thr_k(o: Option<(nat, nat)>) -> nat {
    match o {
        Some(t) => t.1,
        None => 0,
    }
}

/// Whether one indexed value satisfies the predicate against the reference
/// value, under the given parameters.
pub open spec fn value_matches(ft: Seq<char>, v: Seq<char>, rf: Seq<char>, ps: Seq<Seq<char>>) -> bool {
    if ft == "equality"@ {
        v == rf
    } else if ft == "hamming"@ {
        v.len() == rf.len() && ham(v, rf) <= some_nat(parse_usize_spec(ps[0]))
    } else if ft == "levenshtein"@ {
        lev(v, rf) <= some_nat(parse_usize_spec(ps[0]))
    } else if ft == "damerau_levenshtein"@ {
        damerau_of(v, rf) <= some_nat(parse_usize_spec(ps[0]))
    } else if ft == "jaro"@ {
        jaro_meets(v, rf, ps[0])
    } else if ft == "jaro_winkler"@ {
        jaro_winkler_meets(v, rf, ps[0])
    } else if ft == "ngram"@ {
        ngram_match_spec(
            v,
            rf,
            some_nat(parse_usize_spec(ps[0])),
            thr_p(threshold_spec(ps[1])),
            thr_k(threshold_spec(ps[1])),
        )
    } else if ft == "soundex"@ {
        soundex_spec(v) == soundex_spec(rf)
    } else {
        false
    }
}

/// The candidate set of one filter: the ids posted under some value of the
/// field that the predicate accepts.  Empty when the field or the
/// predicate name is unknown or a parameter does not parse.
pub open spec fn candidates(
    idx: FieldIndex,
    fname: Seq<char>,
    ft: Seq<char>,
    rf: Seq<char>,
    ps: Seq<Seq<char>>,
) -> Set<u64> {
    if !idx.has_field(fname) || !known_filter_type(ft) || !filter_params_ok(ft, ps) {
        Set::empty()
    } else {
        Set::new(
            |id: u64|
                exists|vi: int|
                    0 <= vi < idx.entry_of(fname).values@.len() && value_matches(
                        ft,
                        (#[trigger] idx.entry_of(fname).values@[vi]).value@,
                        rf,
                        ps,
                    ) && idx.entry_of(fname).values@[vi].ids@.contains(id),
        )
    }
}

/// The parsed form of one predicate, paired by kind_ok with the strings it
/// came from.
#[derive(Clone, Copy)]
enum FilterKind {
    Equality,
    Hamming(usize),
    Levenshtein(usize),
    Damerau(usize),
    Jaro,
    JaroWinkler,
    Ngram(usize),
    Soundex,
}

/// The parameter facts that evaluating one value needs.
spec fn kind_params_ok(kind: FilterKind, ps: Seq<Seq<char>>) -> bool {
    match kind {
        FilterKind::Jaro => ps.len() >= 1 && parses_f64(ps[0]),
        FilterKind::JaroWinkler => ps.len() >= 1 && parses_f64(ps[0]),
        FilterKind::Ngram(m) => ps.len() >= 2 && threshold_spec(ps[1]) is Some,
        _ => true,
    }
}

/// How the parsed kind relates to the predicate name and parameter strings.
spec fn kind_ok(kind: FilterKind, ft: Seq<char>, ps: Seq<Seq<char>>) -> bool {
    match kind {
        FilterKind::Equality => ft == "equality"@,
        FilterKind::Hamming(m) => ft == "hamming"@ && ps.len() >= 1 && parse_usize_spec(ps[0])
            == Some(m as nat),
        FilterKind::Levenshtein(m) => ft == "levenshtein"@ && ps.len() >= 1 && parse_usize_spec(
            ps[0],
        ) == Some(m as nat),
        FilterKind::Damerau(m) => ft == "damerau_levenshtein"@ && ps.len() >= 1
            && parse_usize_spec(ps[0]) == Some(m as nat),
        FilterKind::Jaro => ft == "jaro"@ && ps.len() >= 1 && parses_f64(ps[0]),
        FilterKind::JaroWinkler => ft == "jaro_winkler"@ && ps.len() >= 1 && parses_f64(ps[0]),
        FilterKind::Ngram(m) => ft == "ngram"@ && ps.len() >= 2 && parse_usize_spec(ps[0]) == Some(
            m as nat,
        ) && threshold_spec(ps[1]) is Some,
        FilterKind::Soundex => ft == "soundex"@,
    }
}

/// What one parsed predicate says of one value.
spec fn kind_matches(kind: FilterKind, v: Seq<char>, rf: Seq<char>, ps: Seq<Seq<char>>) -> bool {
    match kind {
        FilterKind::Equality => v == rf,
        FilterKind::Hamming(m) => v.len() == rf.len() && ham(v, rf) <= m,
        FilterKind::Levenshtein(m) => lev(v, rf) <= m,
        FilterKind::Damerau(m) => damerau_of(v, rf) <= m,
        FilterKind::Jaro => jaro_meets(v, rf, ps[0]),
        FilterKind::JaroWinkler => jaro_winkler_meets(v, rf, ps[0]),
        FilterKind::Ngram(m) => ngram_match_spec(
            v,
            rf,
            m as nat,
            thr_p(threshold_spec(ps[1])),
            thr_k(threshold_spec(ps[1])),
        ),
        FilterKind::Soundex => soundex_spec(v) == soundex_spec(rf),
    }
}

/// The eight predicate names are pairwise distinct character sequences.
proof fn lemma_filter_names_distinct()
    ensures
        "equality"@ != "hamming"@,
        "equality"@ != "levenshtein"@,
        "equality"@ != "damerau_levenshtein"@,
        "equality"@ != "jaro"@,
        "equality"@ != "jaro_winkler"@,
        "equality"@ != "ngram"@,
        "equality"@ != "soundex"@,
        "hamming"@ != "levenshtein"@,
        "hamming"@ != "damerau_levenshtein"@,
        "hamming"@ != "jaro"@,
        "hamming"@ != "jaro_winkler"@,
        "hamming"@ != "ngram"@,
        "hamming"@ != "soundex"@,
        "levenshtein"@ != "damerau_levenshtein"@,
        "levenshtein"@ != "jaro"@,
        "levenshtein"@ != "jaro_winkler"@,
        "levenshtein"@ != "ngram"@,
        "levenshtein"@ != "soundex"@,
        "damerau_levenshtein"@ != "jaro"@,
        "damerau_levenshtein"@ != "jaro_winkler"@,
        "damerau_levenshtein"@ != "ngram"@,
        "damerau_levenshtein"@ != "soundex"@,
        "jaro"@ != "jaro_winkler"@,
        "jaro"@ != "ngram"@,
        "jaro"@ != "soundex"@,
        "jaro_winkler"@ != "ngram"@,
        "jaro_winkler"@ != "soundex"@,
        "ngram"@ != "soundex"@,
{
    reveal_strlit("equality");
    reveal_strlit("hamming");
    reveal_strlit("levenshtein");
    reveal_strlit("damerau_levenshtein");
    reveal_strlit("jaro");
    reveal_strlit("jaro_winkler");
    reveal_strlit("ngram");
    reveal_strlit("soundex");
    assert("equality"@.len() == 8);
    assert("hamming"@.len() == 7);
    assert("levenshtein"@.len() == 11);
    assert("damerau_levenshtein"@.len() == 19);
    assert("jaro"@.len() == 4);
    assert("jaro_winkler"@.len() == 12);
    assert("ngram"@.len() == 5);
    assert("soundex"@.len() == 7);
    assert("soundex"@[0] == 's');
    assert("hamming"@[0] == 'h');
    assert("soundex"@ != "hamming"@);
}

/// A parsed predicate means on each value what the named predicate means.
proof fn lemma_kind_value(kind: FilterKind, ft: Seq<char>, v: Seq<char>, rf: Seq<char>, ps: Seq<Seq<char>>)
    requires
        kind_ok(kind, ft, ps),
    ensures
        kind_matches(kind, v, rf, ps) == value_matches(ft, v, rf, ps),
        known_filter_type(ft),
        filter_params_ok(ft, ps),
        kind_params_ok(kind, ps),
{
    lemma_filter_names_distinct();
    match kind {
        FilterKind::Equality => {
            assert(kind_matches(kind, v, rf, ps) == value_matches(ft, v, rf, ps));
        },
        FilterKind::Hamming(m) => {
            assert(kind_matches(kind, v, rf, ps) == value_matches(ft, v, rf, ps));
        },
        FilterKind::Levenshtein(m) => {
            assert(kind_matches(kind, v, rf, ps) == value_matches(ft, v, rf, ps));
        },
        FilterKind::Damerau(m) => {
            assert(kind_matches(kind, v, rf, ps) == value_matches(ft, v, rf, ps));
        },
        FilterKind::Jaro => {
            assert(kind_matches(kind, v, rf, ps) == value_matches(ft, v, rf, ps));
        },
        FilterKind::JaroWinkler => {
            assert(kind_matches(kind, v, rf, ps) == value_matches(ft, v, rf, ps));
        },
        FilterKind::Ngram(m) => {
            assert(kind_matches(kind, v, rf, ps) == value_matches(ft, v, rf, ps));
        },
        FilterKind::Soundex => {
            assert(kind_matches(kind, v, rf, ps) == value_matches(ft, v, rf, ps));
        },
    }
}

/// Evaluates one parsed predicate on one indexed value.
fn eval_value(kind: FilterKind, val: &str, field_value: &str, params: &Vec<String>) -> (r: bool)
    requires
        kind_params_ok(kind, params_view(params@)),
    ensures
        r == kind_matches(kind, val@, field_value@, params_view(params@)),
{
    proof {
        if params@.len() >= 1 {
            assert(params_view(params@)[0] == params@[0]@);
        }
        if params@.len() >= 2 {
            assert(params_view(params@)[1] == params@[1]@);
        }
    }
    match kind {
        FilterKind::Equality => str_eq(val, field_value),
        FilterKind::Hamming(maxd) => {
            match hamming_distance(val, field_value) {
                Some(d) => d <= maxd,
                None => false,
            }
        },
        FilterKind::Levenshtein(maxd) => levenshtein_distance(val, field_value) <= maxd,
        FilterKind::Damerau(maxd) => damerau_distance(val, field_value) <= maxd,
        FilterKind::Jaro => {
            match jaro_matches(val, field_value, params[0].as_str()) {
                Some(m) => m,
                None => {
                    proof {
                        assert(false);
                    }
                    false
                },
            }
        },
        FilterKind::JaroWinkler => {
            match jaro_winkler_matches(val, field_value, params[0].as_str()) {
                Some(m) => m,
                None => {
                    proof {
                        assert(false);
                    }
                    false
                },
            }
        },
        FilterKind::Ngram(size) => {
            match ngram_match(val, field_value, size, params[1].as_str()) {
                Some(m) => m,
                None => {
                    proof {
                        assert(false);
                    }
                    false
                },
            }
        },
        FilterKind::Soundex => soundex(val, field_value),
    }
}

/// Parses the predicate name and its parameters.  Ok(None) when the name
/// is not recognized; Err exactly when a parameter of a recognized
/// predicate does not parse.
fn classify(filter_type: &str, params: &Vec<String>, field_value: &str) -> (r: Result<
    Option<FilterKind>,
    QueryError,
>)
    ensures
        (r is Err) == (known_filter_type(filter_type@) && !filter_params_ok(
            filter_type@,
            params_view(params@),
        )),
        r matches Ok(Some(kind)) ==> kind_ok(kind, filter_type@, params_view(params@)),
        r matches Ok(None) ==> !known_filter_type(filter_type@),
{
    let ghost ft = filter_type@;
    let ghost ps = params_view(params@);
    proof {
        lemma_filter_names_distinct();
        if params@.len() >= 1 {
            assert(ps[0] == params@[0]@);
        }
        if params@.len() >= 2 {
            assert(ps[1] == params@[1]@);
        }
    }
    if str_eq(filter_type, "equality") {
        Ok(Some(FilterKind::Equality))
    } else if str_eq(filter_type, "hamming") {
        if params.len() < 1 {
            return Err(QueryError::ParameterError);
        }
        match parse_usize(params[0].as_str()) {
            Some(m) => Ok(Some(FilterKind::Hamming(m))),
            None => Err(QueryError::ParameterError),
        }
    } else if str_eq(filter_type, "levenshtein") {
        if params.len() < 1 {
            return Err(QueryError::ParameterError);
        }
        match parse_usize(params[0].as_str()) {
            Some(m) => Ok(Some(FilterKind::Levenshtein(m))),
            None => Err(QueryError::ParameterError),
        }
    } else if str_eq(filter_type, "damerau_levenshtein") {
        if params.len() < 1 {
            return Err(QueryError::ParameterError);
        }
        match parse_usize(params[0].as_str()) {
            Some(m) => Ok(Some(FilterKind::Damerau(m))),
            None => Err(QueryError::ParameterError),
        }
    } else if str_eq(filter_type, "jaro") {
        if params.len() < 1 {
            return Err(QueryError::ParameterError);
        }
        match jaro_matches(field_value, field_value, params[0].as_str()) {
            Some(_) => Ok(Some(FilterKind::Jaro)),
            None => Err(QueryError::ParameterError),
        }
    } else if str_eq(filter_type, "jaro_winkler") {
        if params.len() < 1 {
            return Err(QueryError::ParameterError);
        }
        match jaro_winkler_matches(field_value, field_value, params[0].as_str()) {
            Some(_) => Ok(Some(FilterKind::JaroWinkler)),
            None => Err(QueryError::ParameterError),
        }
    } else if str_eq(filter_type, "ngram") {
        if params.len() < 2 {
            return Err(QueryError::ParameterError);
        }
        let size = match parse_usize(params[0].as_str()) {
            Some(m) => m,
            None => {
                return Err(QueryError::ParameterError);
            },
        };
        match ngram_match(field_value, field_value, size, params[1].as_str()) {
            Some(_) => Ok(Some(FilterKind::Ngram(size))),
            None => Err(QueryError::ParameterError),
        }
    } else if str_eq(filter_type, "soundex") {
        Ok(Some(FilterKind::Soundex))
    } else {
        Ok(None)
    }
}

/// Evaluates one filter against the index: the ids, without duplicates, of
/// the entities whose value for the field satisfies the predicate.  An
/// unknown field or predicate name yields the empty result; a parameter
/// that does not parse on a known predicate over a known field is the one
/// error.
pub fn query_field(
    field_name: &str,
    filter_type: &str,
    params: &Vec<String>,
    field_value: &str,
    index: &FieldIndex,
) -> (r: Result<Vec<u64>, QueryError>)
    requires
        index.wf(),
    ensures
        (r is Err) == (index.has_field(field_name@) && known_filter_type(filter_type@)
            && !filter_params_ok(filter_type@, params_view(params@))),
        r matches Ok(ids) ==> ids@.no_duplicates() && (forall|id: u64|
            ids@.contains(id) == candidates(
                *index,
                field_name@,
                filter_type@,
                field_value@,
                params_view(params@),
            ).contains(id)),
{
    let ghost ft = filter_type@;
    let ghost ps = params_view(params@);
    let fi = match index.find_field(field_name) {
        None => {
            proof {
                assert(forall|id: u64|
                    !candidates(*index, field_name@, ft, field_value@, ps).contains(id));
            }
            return Ok(Vec::new());
        },
        Some(fi) => fi,
    };
    let kind: FilterKind = match classify(filter_type, params, field_value) {
        Err(e) => {
            return Err(e);
        },
        Ok(None) => {
            proof {
                assert(forall|id: u64|
                    !candidates(*index, field_name@, ft, field_value@, ps).contains(id));
            }
            return Ok(Vec::new());
        },
        Ok(Some(kind)) => kind,
    };
    proof {
        lemma_field_at(*index, fi as int);
        lemma_kind_value(kind, ft, Seq::empty(), Seq::empty(), ps);
    }
    let entry: &FieldEntry = &index.fields[fi];
    let ghost values = entry.values@;
    let mut result: Vec<u64> = Vec::new();
    let mut vi: usize = 0;
    while vi < entry.values.len()
        invariant
            index.wf(),
            fi < index.fields@.len(),
            *entry == index.fields@[fi as int],
            values == entry.values@,
            index.entry_of(field_name@) == *entry,
            index.has_field(field_name@),
            kind_ok(kind, ft, ps),
            kind_params_ok(kind, ps),
            ft == filter_type@,
            ps == params_view(params@),
            0 <= vi <= values.len(),
            result@.no_duplicates(),
            forall|id: u64|
                result@.contains(id) == exists|vj: int|
                    0 <= vj < vi && value_matches(ft, (#[trigger] values[vj]).value@, field_value@, ps)
                        && values[vj].ids@.contains(id),
        decreases values.len() - vi,
    {
        let val: &str = entry.values[vi].value.as_str();
        let m: bool = eval_value(kind, val, field_value, params);
        proof {
            lemma_kind_value(kind, ft, values[vi as int].value@, field_value@, ps);
            assert(m == value_matches(ft, values[vi as int].value@, field_value@, ps));
        }
        if m {
            let ids: &Vec<u64> = &entry.values[vi].ids;
            let mut k: usize = 0;
            while k < ids.len()
                invariant
                    values == entry.values@,
                    vi < values.len(),
                    *ids == values[vi as int].ids,
                    value_matches(ft, values[vi as int].value@, field_value@, ps),
                    0 <= k <= ids@.len(),
                    result@.no_duplicates(),
                    forall|id: u64|
                        result@.contains(id) == ((exists|vj: int|
                            0 <= vj < vi && value_matches(
                                ft,
                                (#[trigger] values[vj]).value@,
                                field_value@,
                                ps,
                            ) && values[vj].ids@.contains(id)) || ids@.take(k as int).contains(id)),
                decreases ids@.len() - k,
            {
                let id = ids[k];
                proof {
                    assert forall|e: u64| #[trigger]
                        ids@.take(k as int + 1).contains(e) == (ids@.take(k as int).contains(e)
                            || e == id) by {
                        lemma_push_contains(ids@.take(k as int), id, e);
                        assert(ids@.take(k as int + 1) =~= ids@.take(k as int).push(id));
                    }
                }
                if !FieldIndex::contains_id(&result, id) {
                    let ghost oldres = result@;
                    result.push(id);
                    proof {
                        assert forall|e: u64| #[trigger]
                            result@.contains(e) == (oldres.contains(e) || e == id) by {
                            lemma_push_contains(oldres, id, e);
                        }
                        assert(result@.no_duplicates()) by {
                            assert(forall|x: int|
                                0 <= x < oldres.len() ==> oldres.contains(#[trigger] oldres[x]));
                        }
                    }
                }
                k += 1;
            }
            proof {
                assert(ids@.take(ids@.len() as int) =~= ids@);
            }
        }
        proof {
            assert forall|id: u64|
                result@.contains(id) == exists|vj: int|
                    0 <= vj < vi + 1 && value_matches(
                        ft,
                        (#[trigger] values[vj]).value@,
                        field_value@,
                        ps,
                    ) && values[vj].ids@.contains(id) by {
                if exists|vj: int|
                    0 <= vj < vi + 1 && value_matches(
                        ft,
                        (#[trigger] values[vj]).value@,
                        field_value@,
                        ps,
                    ) && values[vj].ids@.contains(id) {
                    let vj = choose|vj: int|
                        0 <= vj < vi + 1 && value_matches(
                            ft,
                            (#[trigger] values[vj]).value@,
                            field_value@,
                            ps,
                        ) && values[vj].ids@.contains(id);
                    if vj < vi {
                        assert(result@.contains(id));
                    }
                }
            }
        }
        vi += 1;
    }
    proof {
        let cand = candidates(*index, field_name@, ft, field_value@, ps);
        assert forall|id: u64| result@.contains(id) == cand.contains(id) by {
            assert(cand.contains(id) == exists|vj: int|
                0 <= vj < values.len() && value_matches(
                    ft,
                    (#[trigger] values[vj]).value@,
                    field_value@,
                    ps,
                ) && values[vj].ids@.contains(id));
        }
    }
    Ok(result)
}

/// Whether a filter is the kind that errs: known predicate over a known
/// field with a parameter that does not parse.
pub open spec fn filter_errs(idx: FieldIndex, f: Filter) -> bool {
    idx.has_field(f.field_name@) && known_filter_type(f.filter_type@) && !filter_params_ok(
        f.filter_type@,
        params_view(f.params@),
    )
}

/// The candidate set of one filter.
pub open spec fn filter_candidates(idx: FieldIndex, f: Filter) -> Set<u64> {
    candidates(idx, f.field_name@, f.filter_type@, f.value@, params_view(f.params@))
}

/// Ids present in both lists, in the order of the first.
fn intersect(a: &Vec<u64>, b: &Vec<u64>) -> (r: Vec<u64>)
    requires
        a@.no_duplicates(),
    ensures
        r@.no_duplicates(),
        forall|id: u64| r@.contains(id) == (a@.contains(id) && b@.contains(id)),
{
    let mut r: Vec<u64> = Vec::new();
    let mut i: usize = 0;
    while i < a.len()
        invariant
            a@.no_duplicates(),
            0 <= i <= a@.len(),
            r@.no_duplicates(),
            forall|id: u64|
                r@.contains(id) == (a@.take(i as int).contains(id) && b@.contains(id)),
        decreases a@.len() - i,
    {
        let id = a[i];
        proof {
            assert forall|e: u64| #[trigger]
                a@.take(i as int + 1).contains(e) == (a@.take(i as int).contains(e) || e == id) by {
                lemma_push_contains(a@.take(i as int), id, e);
                assert(a@.take(i as int + 1) =~= a@.take(i as int).push(id));
            }
            assert(!a@.take(i as int).contains(id)) by {
                if a@.take(i as int).contains(id) {
                    let j = choose|j: int| 0 <= j < i && a@.take(i as int)[j] == id;
                    assert(a@[j] == a@[i as int]);
                }
            }
        }
        if FieldIndex::contains_id(b, id) {
            let ghost oldr = r@;
            r.push(id);
            proof {
                assert forall|e: u64| #[trigger]
                    r@.contains(e) == (oldr.contains(e) || e == id) by {
                    lemma_push_contains(oldr, id, e);
                }
                assert(r@.no_duplicates()) by {
                    assert(forall|x: int|
                        0 <= x < oldr.len() ==> oldr.contains(#[trigger] oldr[x]));
                }
            }
        }
        i += 1;
    }
    proof {
        assert(a@.take(a@.len() as int) =~= a@);
    }
    r
}

/// Evaluates a conjunction of filters: the ids, without duplicates, that
/// lie in every filter's candidate set.  The one error is a parameter that
/// does not parse, on any filter.
pub fn evaluate(index: &FieldIndex, filters: &Vec<Filter>) -> (r: Result<Vec<u64>, QueryError>)
    requires
        index.wf(),
        filters@.len() >= 1,
    ensures
        (r is Err) == (exists|k: int|
            0 <= k < filters@.len() && filter_errs(*index, #[trigger] filters@[k])),
        r matches Ok(ids) ==> ids@.no_duplicates() && (forall|id: u64|
            ids@.contains(id) == (forall|k: int|
                0 <= k < filters@.len() ==> #[trigger] filter_candidates(
                    *index,
                    filters@[k],
                ).contains(id))),
{
    let f0 = &filters[0];
    let mut acc = match query_field(
        f0.field_name.as_str(),
        f0.filter_type.as_str(),
        &f0.params,
        f0.value.as_str(),
        index,
    ) {
        Ok(v) => v,
        Err(e) => {
            proof {
                assert(filter_errs(*index, filters@[0]));
            }
            return Err(e);
        },
    };
    proof {
        assert forall|id: u64|
            acc@.contains(id) == (forall|j: int|
                0 <= j < 1 ==> #[trigger] filter_candidates(*index, filters@[j]).contains(
                    id,
                )) by {
            if acc@.contains(id) {
                assert(filter_candidates(*index, filters@[0]).contains(id));
            } else {
                assert(!filter_candidates(*index, filters@[0]).contains(id));
            }
        }
    }
    let mut k: usize = 1;
    while k < filters.len()
        invariant
            index.wf(),
            1 <= k <= filters@.len(),
            acc@.no_duplicates(),
            forall|id: u64|
                acc@.contains(id) == (forall|j: int|
                    0 <= j < k ==> #[trigger] filter_candidates(*index, filters@[j]).contains(id)),
            forall|j: int| 0 <= j < k ==> !filter_errs(*index, #[trigger] filters@[j]),
        decreases filters@.len() - k,
    {
        let f = &filters[k];
        let ids_k = match query_field(
            f.field_name.as_str(),
            f.filter_type.as_str(),
            &f.params,
            f.value.as_str(),
            index,
        ) {
            Ok(v) => v,
            Err(e) => {
                proof {
                    assert(filter_errs(*index, filters@[k as int]));
                }
                return Err(e);
            },
        };
        let next = intersect(&acc, &ids_k);
        proof {
            assert forall|id: u64|
                next@.contains(id) == (forall|j: int|
                    0 <= j < k + 1 ==> #[trigger] filter_candidates(*index, filters@[j]).contains(
                        id,
                    )) by {
                if next@.contains(id) {
                    assert(acc@.contains(id) && ids_k@.contains(id));
                }
                if forall|j: int|
                    0 <= j < k + 1 ==> #[trigger] filter_candidates(*index, filters@[j]).contains(
                        id,
                    ) {
                    assert(filter_candidates(*index, filters@[k as int]).contains(id));
                    assert(acc@.contains(id));
                }
            }
        }
        acc = next;
        k += 1;
    }
    Ok(acc)
}

/// Law: adding a filter to a conjunction never enlarges the result set: an
/// id in every candidate set of the longer query is in every candidate set
/// of the shorter one.
pub proof fn lemma_conjunction_monotone(
    idx: FieldIndex,
    filters: Seq<Filter>,
    extra: Filter,
    id: u64,
)
    requires
        forall|k: int|
            0 <= k < filters.push(extra).len() ==> #[trigger] filter_candidates(
                idx,
                filters.push(extra)[k],
            ).contains(id),
    ensures
        forall|k: int|
            0 <= k < filters.len() ==> #[trigger] filter_candidates(idx, filters[k]).contains(id),
{
    assert forall|k: int|
        0 <= k < filters.len() implies #[trigger] filter_candidates(idx, filters[k]).contains(
        id,
    ) by {
        assert(filters.push(extra)[k] == filters[k]);
        assert(filter_candidates(idx, filters.push(extra)[k]).contains(id));
    }
}

/// Law: a reflexive predicate over any (name, value) pair of a stored
/// entity has that entity's id among its candidates: the value matches
/// itself under equality, hamming, levenshtein and soundex, whatever the
/// parsed distance bound.
pub proof fn lemma_reflexive_match_found(
    db: Database,
    e: int,
    p: int,
    ft: Seq<char>,
    ps: Seq<Seq<char>>,
)
    requires
        db.wf(),
        0 <= e < db.store@.len(),
        0 <= p < db.store@[e].fields@.len(),
        ft == "equality"@ || ft == "hamming"@ || ft == "levenshtein"@ || ft == "soundex"@,
        filter_params_ok(ft, ps),
    ensures
        candidates(
            db.index,
            db.store@[e].fields@[p].name@,
            ft,
            db.store@[e].fields@[p].value@,
            ps,
        ).contains(e as u64),
{
    lemma_filter_names_distinct();
    let n = db.store@[e].fields@[p].name@;
    let v = db.store@[e].fields@[p].value@;
    assert(db.index.postings(n, v).contains(e as u64));
    assert(db.index.has_field(n));
    let entry = db.index.entry_of(n);
    assert(entry.has_value(v)) by {
        if !entry.has_value(v) {
            assert(entry.postings_of(v) == Seq::<u64>::empty());
        }
    }
    let vi = choose|vi: int|
        0 <= vi < entry.values@.len() && (#[trigger] entry.values@[vi]).value@ == v;
    assert(entry.postings_of(v) == entry.values@[vi].ids@);
    crate::metrics::lemma_ham_self(v);
    crate::metrics::lemma_lev_self(v);
    assert(value_matches(ft, entry.values@[vi].value@, v, ps));
    assert(known_filter_type(ft));
}

/// Law: an equality query on any (name, value) pair of a stored entity has
/// that entity's id among its candidates.
pub proof fn lemma_insert_equality_query(db: Database, e: int, p: int, ps: Seq<Seq<char>>)
    requires
        db.wf(),
        0 <= e < db.store@.len(),
        0 <= p < db.store@[e].fields@.len(),
    ensures
        candidates(
            db.index,
            db.store@[e].fields@[p].name@,
            "equality"@,
            db.store@[e].fields@[p].value@,
            ps,
        ).contains(e as u64),
{
    lemma_filter_names_distinct();
    lemma_reflexive_match_found(db, e, p, "equality"@, ps);
}

/// Law: the predicates with symmetric definitions judge a pair of strings
/// the same in either order: equality, hamming, levenshtein and soundex.
pub proof fn lemma_symmetric_predicates(
    ft: Seq<char>,
    a: Seq<char>,
    b: Seq<char>,
    ps: Seq<Seq<char>>,
)
    requires
        ft == "equality"@ || ft == "hamming"@ || ft == "levenshtein"@ || ft == "soundex"@,
    ensures
        value_matches(ft, a, b, ps) == value_matches(ft, b, a, ps),
{
    lemma_filter_names_distinct();
    crate::metrics::lemma_ham_symmetric(a, b);
    crate::metrics::lemma_lev_symmetric(a, b);
}

/// Whether a predicate name is one the evaluator recognizes; an unknown
/// name makes a filter match nothing, without an error.
pub fn is_known_filter_type(filter_type: &str) -> (r: bool)
    ensures
        r == known_filter_type(filter_type@),
{
    str_eq(filter_type, "equality") || str_eq(filter_type, "hamming") || str_eq(
        filter_type,
        "levenshtein",
    ) || str_eq(filter_type, "damerau_levenshtein") || str_eq(filter_type, "jaro") || str_eq(
        filter_type,
        "jaro_winkler",
    ) || str_eq(filter_type, "ngram") || str_eq(filter_type, "soundex")
}

} // verus!

