use phinetwork::age::{
    fingerprint_name, name_code, parse_age_answer, parse_samples, random_age_token_code,
    random_seed, valid_fingerprint, AgeAnswer, AgeDataError,
};
use phinetwork::age_snapshot::{format_age_snapshot, knows_name, parse_age_snapshot};

fn unit(code: u64) -> f64 {
    code as f64 / u64::MAX as f64
}

fn name_input(code: u64) -> f64 {
    0.05 + 0.95 * unit(code)
}

fn age_token(code: u64) -> f64 {
    0.05 + 0.90 * unit(code)
}

#[test]
fn parses_name_and_age_rows() {
    let samples = parse_samples("Alice\t17\nBob\t18\n").expect("valid dataset");

    assert_eq!(samples.len(), 2);
    assert_eq!(samples[0].age, 17);
    assert_eq!(samples[1].age, 18);
    assert!(samples
        .iter()
        .all(|sample| name_input(sample.name_code) >= 0.05));
    assert!(samples
        .iter()
        .all(|sample| valid_fingerprint(&sample.name_fingerprint)));
}

#[test]
fn rejects_conflicting_ages_for_one_name() {
    let error = parse_samples("Alice\t17\nAlice\t18\n").expect_err("conflict");

    assert_eq!(
        error.to_string(),
        "line 2: the same name has conflicting ages"
    );
}

#[test]
fn exact_ages_receive_distinct_random_vocabulary_tokens() {
    let seed = [0x5a; 32];

    let age_12 = age_token(random_age_token_code(&seed, 12));
    let age_35 = age_token(random_age_token_code(&seed, 35));

    assert!((0.05..=0.95).contains(&age_12));
    assert!((0.05..=0.95).contains(&age_35));
    assert_ne!(age_12, age_35);
}

#[test]
fn reports_each_kind_of_bad_row() {
    let message = |source: &str| parse_samples(source).expect_err("invalid").to_string();
    assert_eq!(message("Alice 17\n"), "line 1: expected name<TAB>age");
    assert_eq!(message("Alice\tseventeen\n"), "line 1: age must be an integer");
    assert_eq!(message("\n \t17\n"), "line 2: expected name<TAB>age");
    assert_eq!(message("Alice\t121\n"), "line 1: age must be between 0 and 120");
    assert_eq!(message("\n  \n"), "the dataset is empty");
}

#[test]
fn samples_come_sorted_by_name_once_each() {
    let samples = parse_samples("  bob \t 30 \n\nAlice\t12\r\nbob\t30\n").expect("valid");
    assert_eq!(samples.len(), 2);
    assert_eq!(samples[0].age, 12);
    assert_eq!(samples[0].name_fingerprint, fingerprint_name("Alice"));
    assert_eq!(samples[1].age, 30);
    assert_eq!(samples[1].name_code, name_code("bob"));
}

#[test]
fn fingerprints_ignore_case_and_surrounding_space() {
    assert_eq!(fingerprint_name(" Alice "), fingerprint_name("alice"));
    assert_eq!(
        fingerprint_name("abc"),
        "ba7816bf8f01cfea414140de5dae2223b00361a396177a9cb410ff61f20015ad"
    );
    assert!(valid_fingerprint(&fingerprint_name("Bob")));
    assert!(!valid_fingerprint(&fingerprint_name("Bob").to_uppercase()));
    assert!(!valid_fingerprint("abc"));
}

#[test]
fn name_code_is_the_digest_prefix() {
    assert_eq!(name_code("abc"), 0xba7816bf8f01cfea);
}

#[test]
fn data_errors_show_their_line() {
    assert_eq!(AgeDataError::new(3, "bad").to_string(), "line 3: bad");
    assert_eq!(AgeDataError::new(0, "empty").to_string(), "empty");
}

#[test]
fn seed_prefers_the_random_source() {
    assert_eq!(random_seed(Some([7; 32]), 1, 2, 3), [7; 32]);
    let fallback = random_seed(None, 1, 2, 3);
    assert_eq!(fallback, random_seed(None, 1, 2, 3));
    assert_ne!(fallback, random_seed(None, 1, 3, 3));
}

#[test]
fn snapshot_round_trips_curves_and_known_names() {
    let known = vec![fingerprint_name("Alice"), fingerprint_name("Bob")];
    let mut sorted = known.clone();
    sorted.sort();
    let text = format_age_snapshot("0,0.5,1", "1,0.25", &sorted);

    assert!(text.starts_with("max_age\t120\nadult_age\t18\nphi2\tcurve\t0,0.5,1\nphi1\tcurve\t1,0.25\n"));
    assert!(text.contains("known\t"));
    assert!(!text.contains("Alice"));

    let snapshot = parse_age_snapshot(&text).expect("stored curves");
    assert_eq!(snapshot.phi2_points.as_deref(), Some("0,0.5,1"));
    assert_eq!(snapshot.phi1_points.as_deref(), Some("1,0.25"));
    assert_eq!(snapshot.known_names, sorted);
    assert!(knows_name(&snapshot.known_names, "Alice"));
    assert!(knows_name(&snapshot.known_names, " BOB"));
    assert!(!knows_name(&snapshot.known_names, "Charlie"));
}

#[test]
fn snapshot_rejects_foreign_lines_and_missing_names() {
    let fp = fingerprint_name("Alice");
    assert!(parse_age_snapshot(&format!("known\t{fp}\n")).is_some());
    assert!(parse_age_snapshot(&format!("max_age\t99\nknown\t{fp}\n")).is_none());
    assert!(parse_age_snapshot(&format!("known\t{fp}\nsomething\n")).is_none());
    assert!(parse_age_snapshot("phi2\tcurve\t0,1\n").is_none());
    assert!(parse_age_snapshot(&format!("known\t{}\n", fp.to_uppercase())).is_none());
    let later = parse_age_snapshot(&format!("phi2\tcurve\ta\nphi2\tcurve\tb\nknown\t{fp}\n")).unwrap();
    assert_eq!(later.phi2_points.as_deref(), Some("b"));
    assert_eq!(later.phi1_points, None);
}

#[test]
fn reads_the_age_typed_for_an_unknown_name() {
    assert_eq!(parse_age_answer("  \n"), AgeAnswer::Skip);
    assert_eq!(parse_age_answer(""), AgeAnswer::Skip);
    assert_eq!(parse_age_answer(" 42\n"), AgeAnswer::Age(42));
    assert_eq!(parse_age_answer("+7"), AgeAnswer::Age(7));
    assert_eq!(parse_age_answer("120"), AgeAnswer::Age(120));
    assert_eq!(parse_age_answer("121"), AgeAnswer::Invalid);
    assert_eq!(parse_age_answer("-3"), AgeAnswer::Invalid);
    assert_eq!(parse_age_answer("forty"), AgeAnswer::Invalid);
}
