//! The rows of the chatbot's memory file: `message<TAB>response`, optionally
//! followed by `<TAB>context`, each field escaped; blank lines and lines starting
//! with `#` are skipped.
use vstd::prelude::*;
use crate::age_snapshot::{lemma_split_terminated, terminated};
use crate::chatbot::{escape_round_trip, escape_spec, escaped_field_has_no_separator, unescape_spec, unescape_tsv};
use crate::text::{
    char_views, first_index_of, is_space, leading_space, lemma_first_index_of, split_char,
    split_once_char, split_once_spec, split_spec, trailing_space, trim, trim_spec,
};

verus! {

/// One remembered example as read from the file, its fields unescaped; the
/// context is the encoded list of context features, when the row has one.
pub struct MemoryRow {
    pub message: String,
    pub response: String,
    pub context: Option<String>,
}

pub open spec fn row_view(row: MemoryRow) -> (Seq<char>, Seq<char>, Option<Seq<char>>) {
    (
        row.message@,
        row.response@,
        match row.context {
            Some(c) => Some(c@),
            None => None,
        },
    )
}

pub open spec fn rows_view(rows: Seq<MemoryRow>) -> Seq<(Seq<char>, Seq<char>, Option<Seq<char>>)> {
    rows.map_values(|row: MemoryRow| row_view(row))
}

/// The row a trimmed line holds, if any: nothing for a blank line, a comment or
/// a line without a tab.
pub open spec fn line_row(line: Seq<char>) -> Seq<(Seq<char>, Seq<char>, Option<Seq<char>>)> {
    if line.len() == 0 || line[0] == '#' {
        Seq::empty()
    } else {
        match split_once_spec(line, '\t') {
            None => Seq::empty(),
            Some((message, rest)) => match split_once_spec(rest, '\t') {
                Some((response, context)) => seq![
                    (unescape_spec(message), unescape_spec(response), Some(unescape_spec(context))),
                ],
                None => seq![(unescape_spec(message), unescape_spec(rest), None)],
            },
        }
    }
}

/// The rows of the first `k` lines.
pub open spec fn rows_upto(lines: Seq<Seq<char>>, k: nat) -> Seq<(Seq<char>, Seq<char>, Option<Seq<char>>)>
    decreases k,
{
    if k == 0 {
        Seq::empty()
    } else {
        rows_upto(lines, (k - 1) as nat) + line_row(trim_spec(lines[k - 1]))
    }
}

/// The rows of a memory file. Lines are split at `\n`; a carriage return before
/// it is whitespace, which trimming removes.
pub open spec fn memory_rows_spec(text: Seq<char>) -> Seq<(Seq<char>, Seq<char>, Option<Seq<char>>)> {
    let lines = split_spec(text, '\n');
    rows_upto(lines, lines.len())
}

fn read_line_row(line: &str, rows: &mut Vec<MemoryRow>)
    ensures
        rows_view(final(rows)@) == rows_view(old(rows)@) + line_row(trim_spec(line@)),
{
    let ghost before = rows_view(rows@);
    let t = trim(line);
    let chars = crate::text::chars_of(t.as_str());
    if chars.len() == 0 || chars[0] == '#' {
        proof {
            assert(before + Seq::<(Seq<char>, Seq<char>, Option<Seq<char>>)>::empty() == before);
        }
        return;
    }
    let (message, rest) = match split_once_char(t.as_str(), '\t') {
        Some(parts) => parts,
        None => {
            proof {
                assert(before + Seq::<(Seq<char>, Seq<char>, Option<Seq<char>>)>::empty()
                    == before);
            }
            return;
        },
    };
    let row = match split_once_char(rest.as_str(), '\t') {
        Some((response, context)) => MemoryRow {
            message: unescape_tsv(message.as_str()),
            response: unescape_tsv(response.as_str()),
            context: Some(unescape_tsv(context.as_str())),
        },
        None => MemoryRow {
            message: unescape_tsv(message.as_str()),
            response: unescape_tsv(rest.as_str()),
            context: None,
        },
    };
    rows.push(row);
    proof {
        assert(rows_view(rows@) == before.push(row_view(row)));
    }
}

/// Reads the rows of a memory file, in file order.
pub fn parse_memory_rows(text: &str) -> (r: Vec<MemoryRow>)
    ensures
        rows_view(r@) == memory_rows_spec(text@),
{
    let lines = split_char(text, '\n');
    let ghost ls = split_spec(text@, '\n');
    let mut rows: Vec<MemoryRow> = Vec::new();
    let mut i: usize = 0;
    proof {
        assert(rows_view(rows@) == Seq::<(Seq<char>, Seq<char>, Option<Seq<char>>)>::empty());
    }
    while i < lines.len()
        invariant
            i <= lines@.len(),
            char_views(lines@) == ls,
            ls == split_spec(text@, '\n'),
            rows_view(rows@) == rows_upto(ls, i as nat),
        decreases lines@.len() - i,
    {
        proof {
            assert(ls[i as int] == lines@[i as int]@);
        }
        read_line_row(lines[i].as_str(), &mut rows);
        i = i + 1;
    }
    rows
}


/// The line `append_example_to_file` writes for a row: the escaped message and
/// response, and the escaped context when there is one, separated by tabs.
pub open spec fn memory_line(row: (Seq<char>, Seq<char>, Option<Seq<char>>)) -> Seq<char> {
    escape_spec(row.0) + seq!['\t'] + escape_spec(row.1) + match row.2 {
        Some(context) => seq!['\t'] + escape_spec(context),
        None => Seq::empty(),
    }
}

/// A written line reads back as it is: it is not empty, it neither begins nor
/// ends with whitespace, and it does not begin with `#`.
pub open spec fn readable_line(line: Seq<char>) -> bool {
    &&& line.len() > 0
    &&& !is_space(line[0])
    &&& !is_space(line.last())
    &&& line[0] != '#'
}

proof fn lemma_trim_unchanged(s: Seq<char>)
    requires
        s.len() > 0,
        !is_space(s[0]),
        !is_space(s.last()),
    ensures
        trim_spec(s) == s,
{
    assert(leading_space(s) == 0);
    let t = s.subrange(0, s.len() as int);
    assert(t == s);
    assert(trailing_space(t) == 0);
    assert(t.subrange(0, t.len() as int) == t);
}

proof fn lemma_split_once_at(a: Seq<char>, b: Seq<char>, c: char)
    requires
        forall|i: int| 0 <= i < a.len() ==> #[trigger] a[i] != c,
    ensures
        split_once_spec(a + seq![c] + b, c) == Some((a, b)),
{
    let s = a + seq![c] + b;
    assert forall|i: int| 0 <= i < a.len() implies #[trigger] s[i] != c by {
        assert(s[i] == a[i]);
    }
    lemma_first_index_of(s, c, a.len() as int);
    assert(s.take(a.len() as int) == a);
    assert(s.skip(a.len() as int + 1) == b);
}

proof fn lemma_no_char(a: Seq<char>, c: char)
    requires
        forall|i: int| 0 <= i < a.len() ==> #[trigger] a[i] != c,
    ensures
        first_index_of(a, c) is None,
{
    lemma_first_index_of(a, c, a.len() as int);
}

/// A written line reads back as its row.
proof fn lemma_line_row(row: (Seq<char>, Seq<char>, Option<Seq<char>>))
    requires
        readable_line(memory_line(row)),
    ensures
        line_row(trim_spec(memory_line(row))) == seq![row],
{
    let line = memory_line(row);
    lemma_trim_unchanged(line);
    let em = escape_spec(row.0);
    let er = escape_spec(row.1);
    escaped_field_has_no_separator(row.0);
    escaped_field_has_no_separator(row.1);
    escape_round_trip(row.0);
    escape_round_trip(row.1);
    match row.2 {
        Some(context) => {
            let ec = escape_spec(context);
            escaped_field_has_no_separator(context);
            escape_round_trip(context);
            let rest = er + seq!['\t'] + ec;
            assert(line == em + seq!['\t'] + rest);
            lemma_split_once_at(em, rest, '\t');
            lemma_split_once_at(er, ec, '\t');
        },
        None => {
            assert(line == em + seq!['\t'] + er);
            lemma_split_once_at(em, er, '\t');
            lemma_no_char(er, '\t');
        },
    }
}

/// The rows of the first `k` written lines, with the empty piece after the last
/// newline at the end.
proof fn lemma_rows_prefix(rows: Seq<(Seq<char>, Seq<char>, Option<Seq<char>>)>, k: nat)
    requires
        k <= rows.len(),
        forall|i: int| 0 <= i < rows.len() ==> readable_line(memory_line(#[trigger] rows[i])),
    ensures
        rows_upto(rows.map_values(|row: (Seq<char>, Seq<char>, Option<Seq<char>>)| memory_line(row)).push(
            Seq::<char>::empty(),
        ), k) == rows.take(k as int),
    decreases k,
{
    let lines = rows.map_values(|row: (Seq<char>, Seq<char>, Option<Seq<char>>)| memory_line(row)).push(
        Seq::<char>::empty(),
    );
    if k > 0 {
        lemma_rows_prefix(rows, (k - 1) as nat);
        assert(lines[k - 1] == memory_line(rows[k - 1]));
        lemma_line_row(rows[k - 1]);
        assert(rows.take(k as int) == rows.take(k - 1).push(rows[k - 1]));
    } else {
        assert(rows.take(0) == Seq::<(Seq<char>, Seq<char>, Option<Seq<char>>)>::empty());
    }
}

/// What `append_example_to_file` writes, `load_examples_from_file` reads back: a
/// file of written lines gives back its rows, in order, when each line is not
/// empty, neither begins nor ends with whitespace, and does not begin with `#`.
pub proof fn memory_rows_round_trip(rows: Seq<(Seq<char>, Seq<char>, Option<Seq<char>>)>)
    requires
        forall|i: int| 0 <= i < rows.len() ==> readable_line(memory_line(#[trigger] rows[i])),
    ensures
        memory_rows_spec(
            terminated(rows.map_values(|row: (Seq<char>, Seq<char>, Option<Seq<char>>)| memory_line(row))),
        ) == rows,
{
    let written = rows.map_values(|row: (Seq<char>, Seq<char>, Option<Seq<char>>)| memory_line(row));
    assert forall|j: int, i: int| 0 <= j < written.len() && 0 <= i < written[j].len() implies #[trigger] written[j][i]
        != '\n' by {
        let row = rows[j];
        escaped_field_has_no_separator(row.0);
        escaped_field_has_no_separator(row.1);
        let line = memory_line(row);
        let em = escape_spec(row.0);
        let er = escape_spec(row.1);
        if i < em.len() {
            assert(line[i] == em[i]);
        } else if i == em.len() {
        } else if i < em.len() + 1 + er.len() {
            assert(line[i] == er[i - em.len() - 1]);
        } else {
            match row.2 {
                Some(context) => {
                    escaped_field_has_no_separator(context);
                    let ec = escape_spec(context);
                    if i == em.len() + 1 + er.len() {
                    } else {
                        assert(line[i] == ec[i - em.len() - 2 - er.len()]);
                    }
                },
                None => {},
            }
        }
    }
    lemma_split_terminated(written);
    let lines = written.push(Seq::<char>::empty());
    lemma_rows_prefix(rows, rows.len());
    assert(rows.take(rows.len() as int) == rows);
    assert(lines.len() == rows.len() + 1);
    assert(trim_spec(lines[rows.len() as int]) == Seq::<char>::empty()) by {
        assert(lines[rows.len() as int] == Seq::<char>::empty());
    }
    assert(line_row(Seq::<char>::empty()) == Seq::<(Seq<char>, Seq<char>, Option<Seq<char>>)>::empty());
    assert(rows_upto(lines, lines.len()) == rows_upto(lines, rows.len()) + Seq::<
        (Seq<char>, Seq<char>, Option<Seq<char>>),
    >::empty());
}

} // verus!
