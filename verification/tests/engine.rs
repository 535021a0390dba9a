use fuzzydb::index::{Database, Field};
use fuzzydb::query::{evaluate, query_field, Filter, QueryError};
use fuzzydb::ngram::ngram_match;
use fuzzydb::soundex::{soundex, soundex_encode_char, soundex_encode_str};
use fuzzydb::metrics::{parse_usize, str_eq};
use fuzzydb::format::{column_values, column_width, pad_cell, render_row, rule_line};

fn field(n: &str, v: &str) -> Field {
    Field { name: n.to_string(), value: v.to_string() }
}

fn filter(name: &str, ftype: &str, value: &str, params: &[&str]) -> Filter {
    Filter {
        field_name: name.to_string(),
        filter_type: ftype.to_string(),
        value: value.to_string(),
        params: params.iter().map(|p| p.to_string()).collect(),
    }
}

fn scenario_db() -> Database {
    let mut db = Database::new();
    let id0 = db.insert(vec![field("name", "john"), field("city", "boston")]);
    let id1 = db.insert(vec![field("name", "jon"), field("city", "boston")]);
    assert_eq!(id0, 0);
    assert_eq!(id1, 1);
    db
}

fn run_one(db: &Database, f: Filter) -> Vec<u64> {
    let mut r = query_field(
        f.field_name.as_str(),
        f.filter_type.as_str(),
        &f.params,
        f.value.as_str(),
        &db.index,
    )
    .unwrap();
    r.sort();
    r
}

#[test]
fn levenshtein_widens_equality() {
    let db = scenario_db();
    let lev = run_one(&db, filter("name", "levenshtein", "john", &["1"]));
    assert_eq!(lev, vec![0, 1]);
    let eq = run_one(&db, filter("name", "equality", "john", &[]));
    assert_eq!(eq, vec![0]);
}

#[test]
fn two_filter_conjunction() {
    let db = scenario_db();
    let q = vec![
        filter("city", "equality", "boston", &[]),
        filter("name", "levenshtein", "john", &["1"]),
    ];
    let mut r = evaluate(&db.index, &q).unwrap();
    r.sort();
    assert_eq!(r, vec![0, 1]);
}

#[test]
fn conjunction_shrinks_result() {
    let db = scenario_db();
    let broad = vec![filter("city", "equality", "boston", &[])];
    let narrow = vec![
        filter("city", "equality", "boston", &[]),
        filter("name", "equality", "jon", &[]),
    ];
    let rb = evaluate(&db.index, &broad).unwrap();
    let rn = evaluate(&db.index, &narrow).unwrap();
    assert_eq!(rb.len(), 2);
    assert_eq!(rn, vec![1]);
    for id in &rn {
        assert!(rb.contains(id));
    }
}

#[test]
fn unknown_field_is_empty_not_error() {
    let db = scenario_db();
    let r = run_one(&db, filter("nope", "equality", "x", &[]));
    assert!(r.is_empty());
    let q = vec![filter("nope", "equality", "x", &[])];
    assert_eq!(evaluate(&db.index, &q).unwrap(), Vec::<u64>::new());
}

#[test]
fn unknown_filter_type_is_empty_not_error() {
    let db = scenario_db();
    let r = run_one(&db, filter("name", "mystery", "john", &[]));
    assert!(r.is_empty());
}

#[test]
fn parameter_error_on_unparseable_distance() {
    let db = scenario_db();
    let r = query_field("name", "levenshtein", &vec!["abc".to_string()], "john", &db.index);
    assert_eq!(r, Err(QueryError::ParameterError));
    let r = query_field("name", "levenshtein", &Vec::new(), "john", &db.index);
    assert_eq!(r, Err(QueryError::ParameterError));
}

#[test]
fn parameter_error_on_unparseable_score() {
    let db = scenario_db();
    let r = query_field("name", "jaro", &vec!["high".to_string()], "john", &db.index);
    assert_eq!(r, Err(QueryError::ParameterError));
    let r = query_field(
        "name",
        "ngram",
        &vec!["2".to_string(), "a.b".to_string()],
        "john",
        &db.index,
    );
    assert_eq!(r, Err(QueryError::ParameterError));
}

#[test]
fn parameter_error_skipped_on_unknown_field() {
    let db = scenario_db();
    // the field is checked first, as the evaluation order has it
    let r = query_field("nope", "levenshtein", &vec!["abc".to_string()], "john", &db.index);
    assert_eq!(r, Ok(Vec::new()));
}

#[test]
fn soundex_groups_names() {
    let mut db = Database::new();
    db.insert(vec![field("name", "smith")]);
    db.insert(vec![field("name", "smyth")]);
    db.insert(vec![field("name", "jones")]);
    let r = run_one(&db, filter("name", "soundex", "smith", &[]));
    assert_eq!(r, vec![0, 1]);
    let r = run_one(&db, filter("name", "soundex", "jones", &[]));
    assert_eq!(r, vec![2]);
}

#[test]
fn soundex_encoding_values() {
    assert_eq!(soundex_encode_str("smith"), "s53");
    assert_eq!(soundex_encode_str("smyth"), "s53");
    assert_eq!(soundex_encode_str("jones"), "j52");
    assert_eq!(soundex_encode_str("robert"), "r163");
    assert_eq!(soundex_encode_str(""), "");
    assert_eq!(soundex_encode_str("a"), "a");
    // trailing h and w never change a non-empty encoding
    assert_eq!(soundex_encode_str("smithh"), soundex_encode_str("smith"));
    assert_eq!(soundex_encode_str("smithw"), soundex_encode_str("smith"));
    // uppercase classifies like lowercase, first character kept as typed
    assert_eq!(soundex_encode_str("SMITH"), "S53");
}

#[test]
fn soundex_char_classes() {
    assert_eq!(soundex_encode_char('b'), '1');
    assert_eq!(soundex_encode_char('V'), '1');
    assert_eq!(soundex_encode_char('c'), '2');
    assert_eq!(soundex_encode_char('t'), '3');
    assert_eq!(soundex_encode_char('l'), '4');
    assert_eq!(soundex_encode_char('n'), '5');
    assert_eq!(soundex_encode_char('r'), '6');
    assert_eq!(soundex_encode_char('h'), '7');
    assert_eq!(soundex_encode_char('w'), '7');
    assert_eq!(soundex_encode_char(' '), ' ');
    assert_eq!(soundex_encode_char('a'), 'v');
    assert_eq!(soundex_encode_char('é'), 'v');
    // classification uses the lowercase form: the kelvin sign lowercases
    // to k, class 2
    assert_eq!(soundex_encode_char('K'), '2');
    assert_eq!(soundex_encode_char('\u{212A}'), '2');
    assert_eq!(soundex_encode_str("\u{212A}im"), "\u{212A}5");
}

#[test]
fn soundex_matches_empty_only_with_empty() {
    assert!(soundex("", ""));
    assert!(!soundex("", "a"));
    assert!(soundex("smith", "smyth"));
    assert!(!soundex("smith", "jones"));
}

#[test]
fn ngram_night_nacht() {
    // distinct bigrams of "night": ni ig gh ht; of "nacht": na ac ch ht
    // intersection 1, difference 3, score 1 / (4 + 3)
    assert_eq!(ngram_match("night", "nacht", 2, "0.1"), Some(true));
    assert_eq!(ngram_match("night", "nacht", 2, "0.2"), Some(false));
    assert_eq!(ngram_match("night", "nacht", 2, "bad"), None);
}

#[test]
fn ngram_edge_cases() {
    // empty strings and windows longer than the string give the zero score
    assert_eq!(ngram_match("", "night", 2, "0.1"), Some(false));
    assert_eq!(ngram_match("night", "", 2, "0"), Some(true));
    assert_eq!(ngram_match("ab", "ab", 5, "0.1"), Some(false));
    // a string matches itself at threshold one
    assert_eq!(ngram_match("night", "night", 2, "1.0"), Some(true));
    // non-ASCII text is windowed by characters, not bytes
    assert_eq!(ngram_match("über", "über", 2, "1"), Some(true));
}

#[test]
fn ngram_through_query() {
    let db = scenario_db();
    // bigrams of "john" are jo oh hn; of "jon" jo on: score 1 / (3 + 1)
    let r = run_one(&db, filter("name", "ngram", "jon", &["2", "0.2"]));
    assert_eq!(r, vec![0, 1]);
    let r = run_one(&db, filter("name", "ngram", "jon", &["2", "0.9"]));
    assert_eq!(r, vec![1]);
}

#[test]
fn jaro_winkler_martha() {
    let mut db = Database::new();
    db.insert(vec![field("name", "martha")]);
    let r = run_one(&db, filter("name", "jaro_winkler", "marhta", &["0.95"]));
    assert_eq!(r, vec![0]);
    let r = run_one(&db, filter("name", "jaro_winkler", "marhta", &["0.97"]));
    assert_eq!(r, Vec::<u64>::new());
}

#[test]
fn jaro_similarity_threshold() {
    let mut db = Database::new();
    db.insert(vec![field("name", "martha")]);
    // jaro("martha", "marhta") is about 0.944
    let r = run_one(&db, filter("name", "jaro", "marhta", &["0.9"]));
    assert_eq!(r, vec![0]);
    let r = run_one(&db, filter("name", "jaro", "marhta", &["0.95"]));
    assert_eq!(r, Vec::<u64>::new());
    // identical strings have similarity one
    let r = run_one(&db, filter("name", "jaro", "martha", &["1.0"]));
    assert_eq!(r, vec![0]);
}

#[test]
fn hamming_requires_equal_lengths() {
    let mut db = Database::new();
    db.insert(vec![field("name", "john")]);
    db.insert(vec![field("name", "jahn")]);
    db.insert(vec![field("name", "jo")]);
    let r = run_one(&db, filter("name", "hamming", "john", &["1"]));
    assert_eq!(r, vec![0, 1]);
    // a value of another length never matches, whatever the bound
    let r = run_one(&db, filter("name", "hamming", "jo", &["99"]));
    assert_eq!(r, vec![2]);
}

#[test]
fn damerau_counts_transposition_once() {
    let mut db = Database::new();
    db.insert(vec![field("name", "abcd")]);
    // one adjacent transposition away
    let r = run_one(&db, filter("name", "damerau_levenshtein", "abdc", &["1"]));
    assert_eq!(r, vec![0]);
    // plain levenshtein needs two edits for the same pair
    let r = run_one(&db, filter("name", "levenshtein", "abdc", &["1"]));
    assert_eq!(r, Vec::<u64>::new());
}

#[test]
fn levenshtein_kitten_sitting() {
    let mut db = Database::new();
    db.insert(vec![field("w", "kitten")]);
    let r = run_one(&db, filter("w", "levenshtein", "sitting", &["3"]));
    assert_eq!(r, vec![0]);
    let r = run_one(&db, filter("w", "levenshtein", "sitting", &["2"]));
    assert_eq!(r, Vec::<u64>::new());
}

#[test]
fn store_returns_inserted_fields() {
    let db = scenario_db();
    let e = db.get(0).unwrap();
    assert_eq!(e.fields.len(), 2);
    assert_eq!(e.fields[0].name, "name");
    assert_eq!(e.fields[0].value, "john");
    assert_eq!(e.fields[1].name, "city");
    assert_eq!(e.fields[1].value, "boston");
    assert!(db.get(2).is_none());
}

#[test]
fn equality_query_finds_every_inserted_pair() {
    let db = scenario_db();
    for id in 0..2u64 {
        let e = db.get(id).unwrap();
        let pairs: Vec<(String, String)> =
            e.fields.iter().map(|f| (f.name.clone(), f.value.clone())).collect();
        for (n, v) in pairs {
            let r = run_one(&db, filter(&n, "equality", &v, &[]));
            assert!(r.contains(&id));
        }
    }
}

#[test]
fn duplicate_pairs_post_once() {
    let mut db = Database::new();
    db.insert(vec![field("tag", "x"), field("tag", "x")]);
    let r = run_one(&db, filter("tag", "equality", "x", &[]));
    assert_eq!(r, vec![0]);
}

#[test]
fn parse_usize_forms() {
    assert_eq!(parse_usize("0"), Some(0));
    assert_eq!(parse_usize("42"), Some(42));
    assert_eq!(parse_usize("+7"), Some(7));
    assert_eq!(parse_usize(""), None);
    assert_eq!(parse_usize("+"), None);
    assert_eq!(parse_usize("4a"), None);
    assert_eq!(parse_usize("-1"), None);
    assert_eq!(parse_usize("99999999999999999999999999"), None);
}

#[test]
fn str_eq_by_characters() {
    assert!(str_eq("", ""));
    assert!(str_eq("grüße", "grüße"));
    assert!(!str_eq("grüße", "grüsse"));
    assert!(!str_eq("a", "ab"));
}

#[test]
fn formatter_pads_and_renders() {
    assert_eq!(pad_cell("ab", 5), "   ab");
    assert_eq!(pad_cell("abc", 2), "abc");
    assert_eq!(rule_line(4), "----");
    let vals = vec!["x".to_string(), "longer".to_string()];
    assert_eq!(column_width("name", &vals), 6);
    assert_eq!(column_width("name", &Vec::new()), 4);
    let row = vec!["a".to_string(), "bc".to_string()];
    let widths = vec![3usize, 2usize];
    assert_eq!(render_row(&row, &widths), "|   a | bc |");
    let rows = vec![
        vec![
            fuzzydb::index::Field { name: "name".to_string(), value: "john".to_string() },
            fuzzydb::index::Field { name: "city".to_string(), value: "boston".to_string() },
        ],
        vec![fuzzydb::index::Field { name: "city".to_string(), value: "selma".to_string() }],
    ];
    let cells = column_values("city", &rows);
    assert_eq!(cells, vec!["boston".to_string(), "selma".to_string()]);
    let cells = column_values("name", &rows);
    assert_eq!(cells, vec!["john".to_string(), "".to_string()]);
}

#[test]
fn identity_matches() {
    let mut db = Database::new();
    db.insert(vec![field("name", "martha")]);
    // a string is at distance zero from itself and at similarity one
    assert_eq!(run_one(&db, filter("name", "levenshtein", "martha", &["0"])), vec![0]);
    assert_eq!(run_one(&db, filter("name", "hamming", "martha", &["0"])), vec![0]);
    assert_eq!(run_one(&db, filter("name", "damerau_levenshtein", "martha", &["0"])), vec![0]);
    assert_eq!(run_one(&db, filter("name", "jaro_winkler", "martha", &["1.0"])), vec![0]);
    assert_eq!(run_one(&db, filter("name", "soundex", "martha", &[])), vec![0]);
}

#[test]
fn reencoding_keeps_only_the_first_character() {
    // code digits classify as vowel placeholders and vanish
    assert_eq!(soundex_encode_str(&soundex_encode_str("robert")), "r");
    assert_eq!(soundex_encode_str(&soundex_encode_str("smith")), "s");
}

#[test]
fn filter_type_names() {
    assert!(fuzzydb::query::is_known_filter_type("soundex"));
    assert!(fuzzydb::query::is_known_filter_type("ngram"));
    assert!(!fuzzydb::query::is_known_filter_type("mystery"));
    assert!(!fuzzydb::query::is_known_filter_type(""));
}

#[test]
fn jaro_threshold_full_float_grammar() {
    // jaro thresholds go through the full float grammar of str::parse
    let mut db = Database::new();
    db.insert(vec![field("name", "martha")]);
    let r = run_one(&db, filter("name", "jaro", "marhta", &["1e-1"]));
    assert_eq!(r, vec![0]);
}

#[test]
fn symmetric_distances() {
    // levenshtein and hamming judge a pair the same in either order
    let mut db = Database::new();
    db.insert(vec![field("name", "john")]);
    db.insert(vec![field("name", "jahn")]);
    let a = run_one(&db, filter("name", "levenshtein", "john", &["1"]));
    assert_eq!(a, vec![0, 1]);
    let mut db2 = Database::new();
    db2.insert(vec![field("name", "jahn")]);
    let b = run_one(&db2, filter("name", "levenshtein", "john", &["1"]));
    let c = run_one(&db, filter("name", "hamming", "jahn", &["1"]));
    assert_eq!(b, vec![0]);
    assert_eq!(c, vec![0, 1]);
}
