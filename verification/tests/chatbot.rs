use phinetwork::chain::{
    chain_step, remembered_transition, ChainAction, ChainOutcome, MAX_RECURSIVE_RESULT_DEPTH,
};
use phinetwork::chatbot::{escape_tsv, parse_model_choice, tokenize, unescape_tsv, ChatModelMode};
use phinetwork::features::{build_responses, build_vocabulary, message_feature_indices};
use phinetwork::memory::parse_memory_rows;
use phinetwork::sparse_phi::SparsePhiKind;

fn strings(items: &[&str]) -> Vec<String> {
    items.iter().map(|item| item.to_string()).collect()
}

#[test]
fn tokenizes_words_case_and_punctuation_insensitively() {
    assert_eq!(
        tokenize("Hello, Rust-world! 2026"),
        vec!["hello", "rust", "world", "2026"]
    );
}

#[test]
fn tokenize_keeps_only_ascii_letters_and_digits() {
    assert_eq!(tokenize("  café x2\tY_z  "), vec!["caf", "x2", "y", "z"]);
    assert!(tokenize("!!! ...").is_empty());
}

#[test]
fn escapes_tabs_newlines_and_backslashes() {
    assert_eq!(escape_tsv("a\tb\nc\\d"), "a\\tb\\nc\\\\d");
    assert_eq!(unescape_tsv("a\\tb\\nc\\\\d"), "a\tb\nc\\d");
}

#[test]
fn escaping_round_trips() {
    let value = "tab\there\nnew \\ back \\t literal";
    let escaped = escape_tsv(value);
    assert!(!escaped.contains('\t'));
    assert!(!escaped.contains('\n'));
    assert_eq!(unescape_tsv(&escaped), value);
}

#[test]
fn unescape_keeps_unknown_and_trailing_backslashes() {
    assert_eq!(unescape_tsv("a\\qb"), "a\\qb");
    assert_eq!(unescape_tsv("end\\"), "end\\");
}

#[test]
fn model_modes_have_names_and_sparse_kinds() {
    assert_eq!(ChatModelMode::DenseCurve.name(), "dense curve");
    assert_eq!(ChatModelMode::SparseScalar.name(), "sparse scalar");
    assert_eq!(ChatModelMode::SparseCurve.name(), "sparse curve");
    assert!(SparsePhiKind::for_mode(ChatModelMode::DenseCurve).is_none());
    assert!(matches!(
        SparsePhiKind::for_mode(ChatModelMode::SparseScalar),
        Some(SparsePhiKind::Scalar)
    ));
    assert!(matches!(
        SparsePhiKind::for_mode(ChatModelMode::SparseCurve),
        Some(SparsePhiKind::Curve)
    ));
}

#[test]
fn vocabulary_is_sorted_and_unique() {
    let messages = strings(&["Rust borrow checker", "rust pizza"]);
    let context = strings(&["msg:previous", "msg:rust"]);
    assert_eq!(
        build_vocabulary(&messages, &context),
        strings(&[
            "msg:borrow",
            "msg:checker",
            "msg:pizza",
            "msg:previous",
            "msg:rust"
        ])
    );
}

#[test]
fn responses_are_sorted_and_unique() {
    let responses = strings(&["Pizza answer", "Goodbye.", "Pizza answer", "Hello."]);
    assert_eq!(
        build_responses(&responses),
        strings(&["Goodbye.", "Hello.", "Pizza answer"])
    );
}

#[test]
fn message_features_index_the_vocabulary() {
    let vocabulary = strings(&["msg:borrow", "msg:checker", "msg:pizza", "other:rust", "msg:rust"]);
    assert_eq!(
        message_feature_indices(&vocabulary, "Rust, borrow!"),
        vec![0, 4]
    );
    assert!(message_feature_indices(&vocabulary, "zebra").is_empty());
}

#[test]
fn memory_rows_read_messages_responses_and_context() {
    let text = "# comment\n\nhello\tHi there\n  spaced \\t msg\tReply\\nline\tmsg:previous=0.150000\r\nno tab here\n";
    let rows = parse_memory_rows(text);
    assert_eq!(rows.len(), 2);
    assert_eq!(rows[0].message, "hello");
    assert_eq!(rows[0].response, "Hi there");
    assert_eq!(rows[0].context, None);
    assert_eq!(rows[1].message, "spaced \t msg");
    assert_eq!(rows[1].response, "Reply\nline");
    assert_eq!(rows[1].context.as_deref(), Some("msg:previous=0.150000"));
}

#[test]
fn persists_and_reloads_memory_examples() {
    let line = format!(
        "{}\t{}\t{}\n",
        escape_tsv("remember espresso"),
        escape_tsv("Coffee mode"),
        escape_tsv("msg:previous=0.150000")
    );
    let rows = parse_memory_rows(&line);

    assert_eq!(rows.len(), 1);
    assert_eq!(rows[0].message, "remember espresso");
    assert_eq!(rows[0].response, "Coffee mode");
    assert_eq!(rows[0].context.as_deref(), Some("msg:previous=0.150000"));
}

#[test]
fn chain_stops_on_missing_or_weak_answers() {
    let mut seen = Vec::new();
    assert_eq!(
        chain_step(&mut seen, 0, ChainOutcome::NoPrediction, "x", false),
        ChainAction::Stop
    );
    assert_eq!(
        chain_step(&mut seen, 0, ChainOutcome::BelowThreshold, "x", false),
        ChainAction::StopWithTerminal
    );
    assert!(seen.is_empty());
}

#[test]
fn chain_stops_on_repeats_and_at_the_cap() {
    let mut seen = Vec::new();
    assert_eq!(
        chain_step(&mut seen, 0, ChainOutcome::Confident, "b", false),
        ChainAction::AcceptAndContinue
    );
    assert_eq!(
        chain_step(&mut seen, 1, ChainOutcome::Confident, "a", true),
        ChainAction::AcceptAndContinue
    );
    assert_eq!(seen, strings(&["a", "b"]));
    assert_eq!(
        chain_step(&mut seen, 2, ChainOutcome::Confident, "b", true),
        ChainAction::AcceptAndStop
    );
    let mut fresh = Vec::new();
    assert_eq!(
        chain_step(
            &mut fresh,
            MAX_RECURSIVE_RESULT_DEPTH - 1,
            ChainOutcome::Confident,
            "c",
            true
        ),
        ChainAction::AcceptAndStop
    );
}

#[test]
fn written_memory_lines_read_back_in_order() {
    let rows = [
        ("rust\tborrow", "Rust answer", None),
        ("pizza", "Cheese\nanswer", Some("msg:rust=0.150000")),
        ("back\\slash", "ok", None),
    ];
    let mut text = String::new();
    for (message, response, context) in rows {
        text.push_str(&escape_tsv(message));
        text.push('\t');
        text.push_str(&escape_tsv(response));
        if let Some(context) = context {
            text.push('\t');
            text.push_str(&escape_tsv(context));
        }
        text.push('\n');
    }
    let read = parse_memory_rows(&text);
    assert_eq!(read.len(), 3);
    for (row, (message, response, context)) in read.iter().zip(rows) {
        assert_eq!(row.message, message);
        assert_eq!(row.response, response);
        assert_eq!(row.context.as_deref(), context);
    }
}

#[test]
fn memory_lines_starting_with_a_hash_are_comments() {
    let text = format!("{}\t{}\n", escape_tsv("#rust"), escape_tsv("answer"));
    assert!(parse_memory_rows(&text).is_empty());
}

#[test]
fn chain_stops_without_a_remembered_transition() {
    let examples = vec![
        ("hello".to_string(), "Hi there".to_string()),
        ("Hi there".to_string(), "How are you?".to_string()),
    ];
    assert!(remembered_transition(&examples, "Hi there", "How are you?"));
    assert!(!remembered_transition(&examples, "Hi there", "Hi there"));
    assert!(!remembered_transition(&examples, "How are you?", "hello"));

    let mut seen = Vec::new();
    assert_eq!(
        chain_step(&mut seen, 0, ChainOutcome::Confident, "Hi there", false),
        ChainAction::AcceptAndContinue
    );
    assert_eq!(
        chain_step(&mut seen, 1, ChainOutcome::Confident, "Rust answer", false),
        ChainAction::Stop
    );
    assert_eq!(seen, strings(&["Hi there"]));
    assert_eq!(
        chain_step(&mut seen, 1, ChainOutcome::Confident, "How are you?", true),
        ChainAction::AcceptAndContinue
    );
}

#[test]
fn tokens_are_lowercase_words_that_tokenize_back() {
    let tokens = tokenize("Hello, WORLD!  rust_2024 -- é42x");
    assert_eq!(tokens, strings(&["hello", "world", "rust", "2024", "42x"]));
    assert!(tokens.iter().all(|token| !token.is_empty()
        && token.chars().all(|c| c.is_ascii_lowercase() || c.is_ascii_digit())));
    assert_eq!(tokenize(&tokens.join(" ")), tokens);
    assert!(tokenize(" ,;! ").is_empty());
}

#[test]
fn model_prompt_answers_choose_a_mode() {
    assert_eq!(parse_model_choice("1\n"), ChatModelMode::DenseCurve);
    assert_eq!(parse_model_choice(" dense curve "), ChatModelMode::DenseCurve);
    assert_eq!(parse_model_choice("dense"), ChatModelMode::DenseCurve);
    assert_eq!(parse_model_choice("2"), ChatModelMode::SparseScalar);
    assert_eq!(parse_model_choice("scalar\n"), ChatModelMode::SparseScalar);
    assert_eq!(parse_model_choice("sparse scalar"), ChatModelMode::SparseScalar);
    assert_eq!(parse_model_choice("\n"), ChatModelMode::SparseCurve);
    assert_eq!(parse_model_choice("3"), ChatModelMode::SparseCurve);
    assert_eq!(parse_model_choice("Dense"), ChatModelMode::SparseCurve);
}
