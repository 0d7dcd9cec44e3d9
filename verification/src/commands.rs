//! Reading the command line of the chatbot: which command a line names, and the
//! arguments of `keypair`, `suggest`, `train` and `train age`.
use vstd::prelude::*;
use crate::order::str_equal;
use crate::text::{
    char_views, first_space, parse_usize, parse_usize_spec, split_once_space, split_words,
    strip_prefix, strip_prefix_spec, trim, trim_spec, ws_words,
};

verus! {

/// How many suggestions `suggest` lists when no limit is given.
pub const DEFAULT_SUGGESTION_LIMIT: usize = 5;

/// How many epochs `train` runs when none are given.
pub const DEFAULT_TRAIN_EPOCHS: usize = 2_000;

/// The commands of the chatbot's command line.
#[derive(Clone, Copy, Debug, PartialEq, Eq, Structural)]
pub enum CommandKind {
    Quit,
    Help,
    ClearContext,
    Add,
    Train,
    TrainAge,
    Ask,
    Examples,
    Responses,
    Curve,
    Tokens,
    Vocab,
    Suggest,
    Keypair,
    Phil,
    Over18,
}

/// A command and the text that follows its name.
#[derive(Clone, Debug)]
pub struct ParsedCommand {
    pub kind: CommandKind,
    pub argument: String,
}

/// The command a line names, tried in this order: `quit` or `exit`, `help`,
/// `clear context`, `add <message> => <reply>`, `train age ...`, `train ...`,
/// `ask <message>`, `examples`, `responses`, `curve`, `tokens <message>`,
/// `vocab`, `suggest ...`, `keypair ...`, `phil o phi <message>`,
/// `phil <message>`, `over18 <name>`; any other line is a question.
pub open spec fn parse_command_spec(line: Seq<char>) -> (CommandKind, Seq<char>) {
    if line == "quit"@ || line == "exit"@ {
        (CommandKind::Quit, Seq::empty())
    } else if line == "help"@ {
        (CommandKind::Help, Seq::empty())
    } else if line == "clear context"@ {
        (CommandKind::ClearContext, Seq::empty())
    } else if strip_prefix_spec(line, "add "@) is Some {
        (CommandKind::Add, strip_prefix_spec(line, "add "@)->0)
    } else if line == "train age"@ {
        (CommandKind::TrainAge, Seq::empty())
    } else if strip_prefix_spec(line, "train age "@) is Some {
        (CommandKind::TrainAge, strip_prefix_spec(line, "train age "@)->0)
    } else if strip_prefix_spec(line, "train"@) is Some {
        (CommandKind::Train, strip_prefix_spec(line, "train"@)->0)
    } else if strip_prefix_spec(line, "ask "@) is Some {
        (CommandKind::Ask, strip_prefix_spec(line, "ask "@)->0)
    } else if line == "examples"@ {
        (CommandKind::Examples, Seq::empty())
    } else if line == "responses"@ {
        (CommandKind::Responses, Seq::empty())
    } else if line == "curve"@ {
        (CommandKind::Curve, Seq::empty())
    } else if strip_prefix_spec(line, "tokens "@) is Some {
        (CommandKind::Tokens, strip_prefix_spec(line, "tokens "@)->0)
    } else if line == "vocab"@ {
        (CommandKind::Vocab, Seq::empty())
    } else if line == "suggest"@ {
        (CommandKind::Suggest, Seq::empty())
    } else if strip_prefix_spec(line, "suggest "@) is Some {
        (CommandKind::Suggest, strip_prefix_spec(line, "suggest "@)->0)
    } else if line == "keypair"@ {
        (CommandKind::Keypair, Seq::empty())
    } else if strip_prefix_spec(line, "keypair "@) is Some {
        (CommandKind::Keypair, strip_prefix_spec(line, "keypair "@)->0)
    } else if strip_prefix_spec(line, "phil o phi "@) is Some {
        (CommandKind::Phil, strip_prefix_spec(line, "phil o phi "@)->0)
    } else if strip_prefix_spec(line, "phil "@) is Some {
        (CommandKind::Phil, strip_prefix_spec(line, "phil "@)->0)
    } else if line == "over18"@ {
        (CommandKind::Over18, Seq::empty())
    } else if strip_prefix_spec(line, "over18 "@) is Some {
        (CommandKind::Over18, strip_prefix_spec(line, "over18 "@)->0)
    } else {
        (CommandKind::Ask, line)
    }
}

fn command(kind: CommandKind, argument: String) -> (r: ParsedCommand)
    ensures
        r.kind == kind,
        r.argument@ == argument@,
{
    ParsedCommand { kind, argument }
}

/// Names the command of one (already trimmed) input line.
pub fn parse_command(line: &str) -> (r: ParsedCommand)
    ensures
        (r.kind, r.argument@) == parse_command_spec(line@),
{
    if str_equal(line, "quit") || str_equal(line, "exit") {
        return command(CommandKind::Quit, String::new());
    }
    if str_equal(line, "help") {
        return command(CommandKind::Help, String::new());
    }
    if str_equal(line, "clear context") {
        return command(CommandKind::ClearContext, String::new());
    }
    if let Some(rest) = strip_prefix(line, "add ") {
        return command(CommandKind::Add, rest);
    }
    if str_equal(line, "train age") {
        return command(CommandKind::TrainAge, String::new());
    }
    if let Some(rest) = strip_prefix(line, "train age ") {
        return command(CommandKind::TrainAge, rest);
    }
    if let Some(rest) = strip_prefix(line, "train") {
        return command(CommandKind::Train, rest);
    }
    if let Some(rest) = strip_prefix(line, "ask ") {
        return command(CommandKind::Ask, rest);
    }
    if str_equal(line, "examples") {
        return command(CommandKind::Examples, String::new());
    }
    if str_equal(line, "responses") {
        return command(CommandKind::Responses, String::new());
    }
    if str_equal(line, "curve") {
        return command(CommandKind::Curve, String::new());
    }
    if let Some(rest) = strip_prefix(line, "tokens ") {
        return command(CommandKind::Tokens, rest);
    }
    if str_equal(line, "vocab") {
        return command(CommandKind::Vocab, String::new());
    }
    if str_equal(line, "suggest") {
        return command(CommandKind::Suggest, String::new());
    }
    if let Some(rest) = strip_prefix(line, "suggest ") {
        return command(CommandKind::Suggest, rest);
    }
    if str_equal(line, "keypair") {
        return command(CommandKind::Keypair, String::new());
    }
    if let Some(rest) = strip_prefix(line, "keypair ") {
        return command(CommandKind::Keypair, rest);
    }
    if let Some(rest) = strip_prefix(line, "phil o phi ") {
        return command(CommandKind::Phil, rest);
    }
    if let Some(rest) = strip_prefix(line, "phil ") {
        return command(CommandKind::Phil, rest);
    }
    if str_equal(line, "over18") {
        return command(CommandKind::Over18, String::new());
    }
    if let Some(rest) = strip_prefix(line, "over18 ") {
        return command(CommandKind::Over18, rest);
    }
    let mut whole = String::new();
    crate::text::push_str(&mut whole, line);
    command(CommandKind::Ask, whole)
}

/// The share count of `keypair [shares]`: one when no argument is given, else a
/// single positive decimal number.
pub open spec fn share_count_spec(rest: Seq<char>) -> Option<usize> {
    let words = ws_words(rest);
    if words.len() == 0 {
        Some(1)
    } else {
        match parse_usize_spec(words[0]) {
            Some(n) => if n > 0 && words.len() == 1 {
                Some(n)
            } else {
                None
            },
            None => None,
        }
    }
}

/// Reads the argument of `keypair [shares]`.
pub fn parse_share_count(rest: &str) -> (r: Option<usize>)
    ensures
        r == share_count_spec(rest@),
{
    let words = split_words(rest);
    if words.len() == 0 {
        return Some(1);
    }
    proof {
        assert(words@[0]@ == ws_words(rest@)[0]);
    }
    let n = parse_usize(words[0].as_str())?;
    if n > 0 && words.len() == 1 {
        Some(n)
    } else {
        None
    }
}

/// The limit and message of `suggest [limit] <message>`: when the trimmed text
/// starts with a positive number followed by whitespace, that number and the
/// trimmed rest; otherwise the default limit and the whole trimmed text.
pub open spec fn suggest_args_spec(rest: Seq<char>) -> (usize, Seq<char>) {
    let t = trim_spec(rest);
    match first_space(t) {
        None => (DEFAULT_SUGGESTION_LIMIT, t),
        Some(k) => match parse_usize_spec(t.take(k as int)) {
            Some(limit) => if limit > 0 {
                (limit, trim_spec(t.skip(k as int + 1)))
            } else {
                (DEFAULT_SUGGESTION_LIMIT, t)
            },
            None => (DEFAULT_SUGGESTION_LIMIT, t),
        },
    }
}

/// Reads the arguments of `suggest [limit] <message>`.
pub fn parse_suggest_args(rest: &str) -> (r: (usize, String))
    ensures
        (r.0, r.1@) == suggest_args_spec(rest@),
{
    let t = trim(rest);
    let (first, message) = match split_once_space(t.as_str()) {
        Some(parts) => parts,
        None => {
            return (DEFAULT_SUGGESTION_LIMIT, t);
        },
    };
    match parse_usize(first.as_str()) {
        Some(limit) => {
            if limit > 0 {
                (limit, trim(message.as_str()))
            } else {
                (DEFAULT_SUGGESTION_LIMIT, t)
            }
        },
        None => (DEFAULT_SUGGESTION_LIMIT, t),
    }
}

/// The arguments of `train [epochs] [epsilon]`: the epochs, or the default where
/// the first word is missing or not a number, and the second word, which the
/// caller reads as the epsilon.
pub struct TrainArgs {
    pub epochs: usize,
    pub epsilon_word: Option<String>,
}

pub open spec fn train_epochs_spec(rest: Seq<char>) -> usize {
    let words = ws_words(rest);
    if words.len() == 0 {
        DEFAULT_TRAIN_EPOCHS
    } else {
        match parse_usize_spec(words[0]) {
            Some(n) => n,
            None => DEFAULT_TRAIN_EPOCHS,
        }
    }
}

/// The `i`-th word of `rest`, if there is one.
pub open spec fn word_at(rest: Seq<char>, i: int) -> Option<Seq<char>> {
    if 0 <= i < ws_words(rest).len() {
        Some(ws_words(rest)[i])
    } else {
        None
    }
}

fn word_of(words: &Vec<String>, i: usize) -> (r: Option<String>)
    ensures
        i < words@.len() ==> (r matches Some(w) && w@ == words@[i as int]@),
        i >= words@.len() ==> r is None,
{
    if i < words.len() {
        let mut w = String::new();
        crate::text::push_str(&mut w, words[i].as_str());
        Some(w)
    } else {
        None
    }
}

/// Reads the arguments of `train [epochs] [epsilon]`.
pub fn parse_train_args(rest: &str) -> (r: TrainArgs)
    ensures
        r.epochs == train_epochs_spec(rest@),
        match word_at(rest@, 1) {
            Some(w) => r.epsilon_word matches Some(s) && s@ == w,
            None => r.epsilon_word is None,
        },
{
    let words = split_words(rest);
    proof {
        assert(char_views(words@).len() == words@.len());
        if words@.len() > 0 {
            assert(words@[0]@ == ws_words(rest@)[0]);
        }
        if words@.len() > 1 {
            assert(words@[1]@ == ws_words(rest@)[1]);
        }
    }
    let epochs = if words.len() == 0 {
        DEFAULT_TRAIN_EPOCHS
    } else {
        match parse_usize(words[0].as_str()) {
            Some(n) => n,
            None => DEFAULT_TRAIN_EPOCHS,
        }
    };
    TrainArgs { epochs, epsilon_word: word_of(&words, 1) }
}

/// The arguments of `train age <tsv> [epochs] [epsilon]`: the data file, the
/// epochs, and the epsilon word, which the caller reads and checks.
pub struct AgeTrainArgs {
    pub path: String,
    pub epochs: usize,
    pub epsilon_word: Option<String>,
}

/// `train age` needs a path, at most three words, and, where the second word is
/// given, a positive number of epochs.
pub open spec fn age_train_args_ok(rest: Seq<char>) -> bool {
    let words = ws_words(rest);
    &&& 1 <= words.len() <= 3
    &&& words.len() >= 2 ==> (parse_usize_spec(words[1]) matches Some(n) && n > 0)
}

pub open spec fn age_train_epochs_spec(rest: Seq<char>) -> usize {
    let words = ws_words(rest);
    if words.len() >= 2 {
        parse_usize_spec(words[1])->0
    } else {
        DEFAULT_TRAIN_EPOCHS
    }
}

/// Reads the arguments of `train age <tsv> [epochs] [epsilon]`.
pub fn parse_age_train_args(rest: &str) -> (r: Option<AgeTrainArgs>)
    ensures
        r is Some <==> age_train_args_ok(rest@),
        r matches Some(a) ==> {
            &&& a.path@ == ws_words(rest@)[0]
            &&& a.epochs == age_train_epochs_spec(rest@)
            &&& match word_at(rest@, 2) {
                Some(w) => a.epsilon_word matches Some(s) && s@ == w,
                None => a.epsilon_word is None,
            }
        },
{
    let words = split_words(rest);
    proof {
        assert(char_views(words@).len() == words@.len());
        if words@.len() > 0 {
            assert(words@[0]@ == ws_words(rest@)[0]);
        }
        if words@.len() > 1 {
            assert(words@[1]@ == ws_words(rest@)[1]);
        }
        if words@.len() > 2 {
            assert(words@[2]@ == ws_words(rest@)[2]);
        }
    }
    if words.len() == 0 || words.len() > 3 {
        return None;
    }
    let epochs = if words.len() >= 2 {
        match parse_usize(words[1].as_str()) {
            Some(n) => n,
            None => {
                return None;
            },
        }
    } else {
        DEFAULT_TRAIN_EPOCHS
    };
    if epochs == 0 {
        return None;
    }
    let path = match word_of(&words, 0) {
        Some(p) => p,
        None => {
            return None;
        },
    };
    Some(AgeTrainArgs { path, epochs, epsilon_word: word_of(&words, 2) })
}

} // verus!
