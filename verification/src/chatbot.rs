//! The chatbot's text handling: model modes, word tokens and the escaping used by
//! the tab-separated memory file.
use vstd::prelude::*;
use crate::text::{join_spec, join_tail};

verus! {

/// The three classifier families a chatbot can be trained with.
#[derive(Clone, Copy, Debug, PartialEq, Eq, Structural)]
pub enum ChatModelMode {
    DenseCurve,
    SparseScalar,
    SparseCurve,
}

pub open spec fn mode_name_spec(mode: ChatModelMode) -> Seq<char> {
    match mode {
        ChatModelMode::DenseCurve => "dense curve"@,
        ChatModelMode::SparseScalar => "sparse scalar"@,
        ChatModelMode::SparseCurve => "sparse curve"@,
    }
}

impl ChatModelMode {
    /// The name printed at startup for this mode.
    pub fn name(self) -> (r: &'static str)
        ensures
            r@ == mode_name_spec(self),
    {
        match self {
            ChatModelMode::DenseCurve => "dense curve",
            ChatModelMode::SparseScalar => "sparse scalar",
            ChatModelMode::SparseCurve => "sparse curve",
        }
    }
}

/// The model chosen at the startup prompt; anything unrecognised, the empty
/// answer included, chooses the sparse curve model.
pub open spec fn model_choice_spec(line: Seq<char>) -> ChatModelMode {
    let t = crate::text::trim_spec(line);
    if t == "1"@ || t == "dense"@ || t == "dense curve"@ {
        ChatModelMode::DenseCurve
    } else if t == "2"@ || t == "sparse scalar"@ || t == "scalar"@ {
        ChatModelMode::SparseScalar
    } else {
        ChatModelMode::SparseCurve
    }
}

/// Reads the answer to the model prompt.
pub fn parse_model_choice(line: &str) -> (r: ChatModelMode)
    ensures
        r == model_choice_spec(line@),
{
    let t = crate::text::trim(line);
    let t = t.as_str();
    if crate::order::str_equal(t, "1") || crate::order::str_equal(t, "dense")
        || crate::order::str_equal(t, "dense curve") {
        ChatModelMode::DenseCurve
    } else if crate::order::str_equal(t, "2") || crate::order::str_equal(t, "sparse scalar")
        || crate::order::str_equal(t, "scalar") {
        ChatModelMode::SparseScalar
    } else {
        ChatModelMode::SparseCurve
    }
}

pub open spec fn is_ascii_alnum(c: char) -> bool {
    ('a' <= c && c <= 'z') || ('A' <= c && c <= 'Z') || ('0' <= c && c <= '9')
}

pub open spec fn ascii_lower(c: char) -> char {
    if 'A' <= c && c <= 'Z' {
        ((c as u32 + 32) as u8) as char
    } else {
        c
    }
}

/// The word under construction, as a list of zero or one finished words.
pub open spec fn finished_word(cur: Seq<char>) -> Seq<Seq<char>> {
    if cur.len() == 0 {
        Seq::empty()
    } else {
        seq![cur]
    }
}

/// The words of `s` given that `cur` has already been read of the current word:
/// maximal runs of ASCII letters and digits, lowercased; every other character
/// separates words.
pub open spec fn words_from(s: Seq<char>, cur: Seq<char>) -> Seq<Seq<char>>
    decreases s.len(),
{
    if s.len() == 0 {
        finished_word(cur)
    } else if is_ascii_alnum(s[0]) {
        words_from(s.drop_first(), cur.push(ascii_lower(s[0])))
    } else {
        finished_word(cur) + words_from(s.drop_first(), Seq::empty())
    }
}

pub open spec fn tokenize_spec(s: Seq<char>) -> Seq<Seq<char>> {
    words_from(s, Seq::empty())
}

pub open spec fn string_views(v: Seq<String>) -> Seq<Seq<char>> {
    v.map_values(|t: String| t@)
}

fn ascii_lower_char(c: char) -> (r: char)
    ensures
        r == ascii_lower(c),
{
    if 'A' <= c && c <= 'Z' {
        let x: u32 = (c as u32) + 32;
        (x as u8) as char
    } else {
        c
    }
}

/// Splits a message into lowercase words of ASCII letters and digits.
pub fn tokenize(message: &str) -> (r: Vec<String>)
    ensures
        string_views(r@) == tokenize_spec(message@),
{
    let mut out: Vec<String> = Vec::new();
    let mut cur = String::new();
    proof {
        assert(message@.skip(0) == message@);
        assert(string_views(out@) + tokenize_spec(message@) == tokenize_spec(message@));
    }
    for c in it: message.chars()
        invariant
            it.seq() == message@,
            tokenize_spec(message@) == string_views(out@) + words_from(
                message@.skip(it.index() as int),
                cur@,
            ),
    {
        let ghost rest = message@.skip(it.index() as int);
        let ghost old_cur = cur@;
        proof {
            assert(rest[0] == c);
            assert(rest.drop_first() == message@.skip(it.index() + 1));
        }
        if ('a' <= c && c <= 'z') || ('A' <= c && c <= 'Z') || ('0' <= c && c <= '9') {
            let l = ascii_lower_char(c);
            cur.push(l);
            proof {
                assert(words_from(rest, old_cur) == words_from(rest.drop_first(), cur@));
                assert(tokenize_spec(message@) == string_views(out@) + words_from(
                    message@.skip(it.index() + 1),
                    cur@,
                ));
            }
        } else if !cur.as_str().is_empty() {
            let word = cur;
            cur = String::new();
            let ghost before = out@;
            out.push(word);
            proof {
                assert(string_views(out@) == string_views(before) + seq![word@]);
                assert(string_views(out@) + words_from(message@.skip(it.index() + 1), cur@)
                    == string_views(before) + (finished_word(word@) + words_from(
                    message@.skip(it.index() + 1),
                    Seq::empty(),
                )));
                assert(words_from(rest, old_cur) == finished_word(word@) + words_from(
                    rest.drop_first(),
                    Seq::empty(),
                ));
                assert(tokenize_spec(message@) == string_views(out@) + words_from(
                    message@.skip(it.index() + 1),
                    cur@,
                ));
            }
        } else {
            proof {
                assert(cur@ == Seq::<char>::empty());
                assert(words_from(rest, old_cur) == finished_word(old_cur) + words_from(
                    rest.drop_first(),
                    Seq::empty(),
                ));
                assert(finished_word(cur@) + words_from(
                    message@.skip(it.index() + 1),
                    Seq::empty(),
                ) == words_from(message@.skip(it.index() + 1), Seq::empty()));
                assert(tokenize_spec(message@) == string_views(out@) + words_from(
                    message@.skip(it.index() + 1),
                    cur@,
                ));
            }
        }
    }
    proof {
        assert(message@.skip(message@.len() as int) == Seq::<char>::empty());
    }
    if !cur.as_str().is_empty() {
        let ghost before = out@;
        out.push(cur);
        proof {
            assert(string_views(out@) == string_views(before) + seq![cur@]);
        }
    } else {
        proof {
            assert(string_views(out@) + finished_word(cur@) == string_views(out@));
        }
    }
    out
}

/// A character a token can hold: a lowercase ASCII letter or a digit.
pub open spec fn is_token_char(c: char) -> bool {
    ('a' <= c && c <= 'z') || ('0' <= c && c <= '9')
}

/// A non-empty word of lowercase ASCII letters and digits.
pub open spec fn is_token(w: Seq<char>) -> bool {
    w.len() > 0 && forall|i: int| 0 <= i < w.len() ==> is_token_char(#[trigger] w[i])
}

proof fn lemma_lower_is_token_char(c: char)
    requires
        is_ascii_alnum(c),
    ensures
        is_token_char(ascii_lower(c)),
{
    if 'A' <= c && c <= 'Z' {
        let x = (c as u32 + 32) as u8;
        assert(97 <= x <= 122);
    }
}

proof fn lemma_words_are_tokens(s: Seq<char>, cur: Seq<char>)
    requires
        forall|i: int| 0 <= i < cur.len() ==> is_token_char(#[trigger] cur[i]),
    ensures
        forall|k: int| 0 <= k < words_from(s, cur).len() ==> is_token(#[trigger] words_from(s, cur)[k]),
    decreases s.len(),
{
    if s.len() == 0 {
        if cur.len() > 0 {
            assert(words_from(s, cur)[0] == cur);
        }
    } else if is_ascii_alnum(s[0]) {
        let next = cur.push(ascii_lower(s[0]));
        lemma_lower_is_token_char(s[0]);
        assert forall|i: int| 0 <= i < next.len() implies is_token_char(#[trigger] next[i]) by {
            if i < cur.len() {
                assert(next[i] == cur[i]);
            }
        }
        lemma_words_are_tokens(s.drop_first(), next);
        assert(words_from(s, cur) == words_from(s.drop_first(), next));
    } else {
        lemma_words_are_tokens(s.drop_first(), Seq::empty());
        let head = finished_word(cur);
        let tail = words_from(s.drop_first(), Seq::empty());
        assert(words_from(s, cur) == head + tail);
        assert forall|k: int| 0 <= k < (head + tail).len() implies is_token(#[trigger] (head + tail)[k]) by {
            if k < head.len() {
                assert(head == seq![cur]);
                assert((head + tail)[k] == cur);
            } else {
                assert((head + tail)[k] == tail[k - head.len()]);
            }
        }
    }
}

/// Reading a whole token continues the current word with it.
proof fn lemma_read_token(w: Seq<char>, t: Seq<char>, cur: Seq<char>)
    requires
        forall|i: int| 0 <= i < w.len() ==> is_token_char(#[trigger] w[i]),
    ensures
        words_from(w + t, cur) == words_from(t, cur + w),
    decreases w.len(),
{
    if w.len() == 0 {
        assert(w + t == t);
        assert(cur + w == cur);
    } else {
        let rest = w.drop_first();
        assert((w + t)[0] == w[0]);
        assert((w + t).drop_first() == rest + t);
        assert(ascii_lower(w[0]) == w[0]);
        assert forall|i: int| 0 <= i < rest.len() implies is_token_char(#[trigger] rest[i]) by {
            assert(rest[i] == w[i + 1]);
        }
        lemma_read_token(rest, t, cur.push(w[0]));
        assert(cur.push(w[0]) + rest == cur + w);
    }
}

proof fn lemma_tokens_of_tail(parts: Seq<Seq<char>>, cur: Seq<char>)
    requires
        forall|k: int| 0 <= k < parts.len() ==> is_token(#[trigger] parts[k]),
    ensures
        words_from(join_tail(parts, ' '), cur) == finished_word(cur) + parts,
    decreases parts.len(),
{
    if parts.len() == 0 {
        assert(finished_word(cur) + parts == finished_word(cur));
    } else {
        let rest = parts.drop_first();
        let w = parts[0];
        let t = join_tail(rest, ' ');
        let text = seq![' '] + w + t;
        assert(text[0] == ' ');
        assert(text.drop_first() == w + t);
        assert(is_token(w));
        lemma_read_token(w, t, Seq::empty());
        assert(Seq::<char>::empty() + w == w);
        assert forall|k: int| 0 <= k < rest.len() implies is_token(#[trigger] rest[k]) by {
            assert(rest[k] == parts[k + 1]);
        }
        lemma_tokens_of_tail(rest, w);
        assert(finished_word(w) == seq![w]);
        assert(seq![w] + rest == parts);
        assert(finished_word(cur) + (seq![w] + rest) == finished_word(cur) + parts);
    }
}

/// Every token is a non-empty word of lowercase ASCII letters and digits, and
/// tokenizing the tokens joined with spaces gives the same tokens back.
pub proof fn tokens_are_stable(message: Seq<char>)
    ensures
        forall|k: int| 0 <= k < tokenize_spec(message).len() ==> is_token(#[trigger] tokenize_spec(message)[k]),
        tokenize_spec(join_spec(tokenize_spec(message), ' ')) == tokenize_spec(message),
{
    let tokens = tokenize_spec(message);
    lemma_words_are_tokens(message, Seq::empty());
    if tokens.len() > 0 {
        let w = tokens[0];
        let rest = tokens.drop_first();
        lemma_read_token(w, join_tail(rest, ' '), Seq::empty());
        assert(Seq::<char>::empty() + w == w);
        assert forall|k: int| 0 <= k < rest.len() implies is_token(#[trigger] rest[k]) by {
            assert(rest[k] == tokens[k + 1]);
        }
        lemma_tokens_of_tail(rest, w);
        assert(seq![w] + rest == tokens);
    }
}

/// How one character is written to the memory file.
pub open spec fn escape_char(c: char) -> Seq<char> {
    if c == '\\' {
        seq!['\\', '\\']
    } else if c == '\t' {
        seq!['\\', 't']
    } else if c == '\n' {
        seq!['\\', 'n']
    } else {
        seq![c]
    }
}

pub open spec fn escape_spec(s: Seq<char>) -> Seq<char>
    decreases s.len(),
{
    if s.len() == 0 {
        Seq::empty()
    } else {
        escape_char(s[0]) + escape_spec(s.drop_first())
    }
}

/// Reading back an escaped field: `\t`, `\n` and `\\` become a tab, a newline
/// and a backslash; any other backslash is kept as it is.
pub open spec fn unescape_spec(s: Seq<char>) -> Seq<char>
    decreases s.len(),
{
    if s.len() == 0 {
        Seq::empty()
    } else if s[0] != '\\' {
        seq![s[0]] + unescape_spec(s.drop_first())
    } else if s.len() == 1 {
        seq!['\\']
    } else {
        let next = s[1];
        let decoded = if next == 't' {
            seq!['\t']
        } else if next == 'n' {
            seq!['\n']
        } else if next == '\\' {
            seq!['\\']
        } else {
            seq!['\\', next]
        };
        decoded + unescape_spec(s.subrange(2, s.len() as int))
    }
}

/// Escapes backslashes, tabs and newlines so a field fits on one TSV line.
pub fn escape_tsv(value: &str) -> (r: String)
    ensures
        r@ == escape_spec(value@),
{
    let mut out = String::new();
    proof {
        assert(value@.skip(0) == value@);
        assert(out@ + escape_spec(value@) == escape_spec(value@));
    }
    for c in it: value.chars()
        invariant
            it.seq() == value@,
            escape_spec(value@) == out@ + escape_spec(value@.skip(it.index() as int)),
    {
        let ghost rest = value@.skip(it.index() as int);
        let ghost before = out@;
        proof {
            assert(rest[0] == c);
            assert(rest.drop_first() == value@.skip(it.index() + 1));
        }
        if c == '\\' {
            out.push('\\');
            out.push('\\');
        } else if c == '\t' {
            out.push('\\');
            out.push('t');
        } else if c == '\n' {
            out.push('\\');
            out.push('n');
        } else {
            out.push(c);
        }
        proof {
            assert(out@ == before + escape_char(c));
        }
    }
    proof {
        assert(value@.skip(value@.len() as int) == Seq::<char>::empty());
    }
    out
}

/// Decodes a field written by `escape_tsv`.
pub fn unescape_tsv(value: &str) -> (r: String)
    ensures
        r@ == unescape_spec(value@),
{
    let chars = crate::text::chars_of(value);
    let n = chars.len();
    let mut out = String::new();
    let mut i: usize = 0;
    proof {
        assert(value@.skip(0) == value@);
        assert(out@ + unescape_spec(value@) == unescape_spec(value@));
    }
    while i < n
        invariant
            i <= n == chars@.len(),
            chars@ == value@,
            unescape_spec(value@) == out@ + unescape_spec(value@.skip(i as int)),
        decreases n - i,
    {
        let ghost rest = value@.skip(i as int);
        let ghost before = out@;
        let ch = chars[i];
        proof {
            assert(rest[0] == ch);
        }
        if ch != '\\' {
            out.push(ch);
            proof {
                assert(rest.drop_first() == value@.skip(i + 1));
            }
            i = i + 1;
        } else if i + 1 == n {
            out.push('\\');
            proof {
                assert(rest.len() == 1);
                assert(value@.skip(i + 1) == Seq::<char>::empty());
            }
            i = i + 1;
        } else {
            let next = chars[i + 1];
            proof {
                assert(rest[1] == next);
                assert(rest.subrange(2, rest.len() as int) == value@.skip(i + 2));
            }
            if next == 't' {
                out.push('\t');
            } else if next == 'n' {
                out.push('\n');
            } else if next == '\\' {
                out.push('\\');
            } else {
                out.push('\\');
                out.push(next);
            }
            i = i + 2;
        }
    }
    proof {
        assert(value@.skip(n as int) == Seq::<char>::empty());
    }
    out
}

/// Reading back what was written gives back the text: for every string,
/// `unescape_tsv(escape_tsv(s)) == s`.
pub proof fn escape_round_trip(s: Seq<char>)
    ensures
        unescape_spec(escape_spec(s)) == s,
    decreases s.len(),
{
    if s.len() > 0 {
        let rest = s.drop_first();
        let e = escape_spec(rest);
        escape_round_trip(rest);
        let c = s[0];
        let x = escape_char(c) + e;
        assert(escape_spec(s) == x);
        if c == '\\' || c == '\t' || c == '\n' {
            assert(x[0] == '\\');
            assert(x.subrange(2, x.len() as int) == e);
        } else {
            assert(x.drop_first() == e);
        }
        assert(s == seq![c] + rest);
    } else {
        assert(s == Seq::<char>::empty());
    }
}

/// An escaped field holds no tab and no newline, so it stays inside one
/// tab-separated column of one line.
pub proof fn escaped_field_has_no_separator(s: Seq<char>)
    ensures
        forall|i: int|
            0 <= i < escape_spec(s).len() ==> #[trigger] escape_spec(s)[i] != '\t'
                && escape_spec(s)[i] != '\n',
    decreases s.len(),
{
    if s.len() > 0 {
        escaped_field_has_no_separator(s.drop_first());
        let e = escape_spec(s.drop_first());
        let x = escape_char(s[0]) + e;
        assert forall|i: int| 0 <= i < x.len() implies #[trigger] x[i] != '\t' && x[i] != '\n' by {
            if i >= escape_char(s[0]).len() {
                assert(x[i] == e[i - escape_char(s[0]).len()]);
            }
        }
    }
}

} // verus!
