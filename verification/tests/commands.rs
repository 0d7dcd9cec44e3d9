use phinetwork::commands::{
    parse_age_train_args, parse_command, parse_share_count, parse_suggest_args,
    parse_train_args, CommandKind, DEFAULT_SUGGESTION_LIMIT, DEFAULT_TRAIN_EPOCHS,
};

fn command(line: &str) -> (CommandKind, String) {
    let parsed = parse_command(line);
    (parsed.kind, parsed.argument)
}

#[test]
fn names_commands() {
    assert_eq!(command("quit"), (CommandKind::Quit, String::new()));
    assert_eq!(command("exit"), (CommandKind::Quit, String::new()));
    assert_eq!(command("help"), (CommandKind::Help, String::new()));
    assert_eq!(command("clear context"), (CommandKind::ClearContext, String::new()));
    assert_eq!(command("add a => b"), (CommandKind::Add, "a => b".to_string()));
    assert_eq!(command("train 10 0.1"), (CommandKind::Train, " 10 0.1".to_string()));
    assert_eq!(command("train"), (CommandKind::Train, String::new()));
    assert_eq!(command("train age data.tsv"), (CommandKind::TrainAge, "data.tsv".to_string()));
    assert_eq!(command("ask hello"), (CommandKind::Ask, "hello".to_string()));
    assert_eq!(command("examples"), (CommandKind::Examples, String::new()));
    assert_eq!(command("responses"), (CommandKind::Responses, String::new()));
    assert_eq!(command("curve"), (CommandKind::Curve, String::new()));
    assert_eq!(command("tokens Hi!"), (CommandKind::Tokens, "Hi!".to_string()));
    assert_eq!(command("vocab"), (CommandKind::Vocab, String::new()));
    assert_eq!(command("suggest 3 rust"), (CommandKind::Suggest, "3 rust".to_string()));
    assert_eq!(command("keypair 3"), (CommandKind::Keypair, "3".to_string()));
    assert_eq!(command("keypair"), (CommandKind::Keypair, String::new()));
    assert_eq!(command("phil o phi hello"), (CommandKind::Phil, "hello".to_string()));
    assert_eq!(command("phil hello"), (CommandKind::Phil, "hello".to_string()));
    assert_eq!(command("over18 Alice"), (CommandKind::Over18, "Alice".to_string()));
}

#[test]
fn plain_text_is_a_question() {
    assert_eq!(command("what is rust"), (CommandKind::Ask, "what is rust".to_string()));
    assert_eq!(command("examplesx"), (CommandKind::Ask, "examplesx".to_string()));
}

#[test]
fn reads_share_counts() {
    assert_eq!(parse_share_count(""), Some(1));
    assert_eq!(parse_share_count("   "), Some(1));
    assert_eq!(parse_share_count(" 3 "), Some(3));
    assert_eq!(parse_share_count("+4"), Some(4));
    assert_eq!(parse_share_count("0"), None);
    assert_eq!(parse_share_count("3 4"), None);
    assert_eq!(parse_share_count("three"), None);
}

#[test]
fn reads_suggest_arguments() {
    assert_eq!(parse_suggest_args(" 3  rust borrow "), (3, "rust borrow".to_string()));
    assert_eq!(
        parse_suggest_args("rust borrow"),
        (DEFAULT_SUGGESTION_LIMIT, "rust borrow".to_string())
    );
    assert_eq!(
        parse_suggest_args("0 rust"),
        (DEFAULT_SUGGESTION_LIMIT, "0 rust".to_string())
    );
    assert_eq!(parse_suggest_args(" 7 "), (DEFAULT_SUGGESTION_LIMIT, "7".to_string()));
    assert_eq!(parse_suggest_args(""), (DEFAULT_SUGGESTION_LIMIT, String::new()));
}

#[test]
fn reads_train_arguments() {
    let args = parse_train_args(" 10 0.5");
    assert_eq!(args.epochs, 10);
    assert_eq!(args.epsilon_word.as_deref(), Some("0.5"));
    let args = parse_train_args("");
    assert_eq!(args.epochs, DEFAULT_TRAIN_EPOCHS);
    assert_eq!(args.epsilon_word, None);
    let args = parse_train_args(" many");
    assert_eq!(args.epochs, DEFAULT_TRAIN_EPOCHS);
}

#[test]
fn reads_age_train_arguments() {
    let args = parse_age_train_args("data.tsv 50 0.1").unwrap();
    assert_eq!(args.path, "data.tsv");
    assert_eq!(args.epochs, 50);
    assert_eq!(args.epsilon_word.as_deref(), Some("0.1"));
    let args = parse_age_train_args("data.tsv").unwrap();
    assert_eq!(args.epochs, DEFAULT_TRAIN_EPOCHS);
    assert_eq!(args.epsilon_word, None);
    assert!(parse_age_train_args("").is_none());
    assert!(parse_age_train_args("data.tsv 0").is_none());
    assert!(parse_age_train_args("data.tsv x").is_none());
    assert!(parse_age_train_args("data.tsv 1 2 3").is_none());
}
