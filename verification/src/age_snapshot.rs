//! The stored age model: a tab-separated snapshot with the model's constants,
//! the two curves as encoded point lists, and the fingerprints of the known names.
use vstd::prelude::*;
use vstd::utf8::encode_utf8;
use crate::age::{fingerprint_name, valid_fingerprint, valid_fingerprint_spec, fingerprint_spec};
use crate::order::{find_position, insert_sorted, sorted_strict, str_equal};
use crate::hex::hex_spec;
use crate::text::{
    char_views, fields_from, join_spec, join_tail, lemma_fields_no_sep, lemma_split_join, lines_of,
    lines_spec, push_str, split_char, split_spec, strip_cr,
};

verus! {

/// What a snapshot holds: the encoded points of `phi2` and `phi1`, when given, and
/// the fingerprints of the known names.
pub struct AgeSnapshot {
    pub phi2_points: Option<String>,
    pub phi1_points: Option<String>,
    pub known_names: Vec<String>,
}

pub open spec fn opt_view(o: Option<String>) -> Option<Seq<char>> {
    match o {
        Some(s) => Some(s@),
        None => None,
    }
}

/// The lines of a snapshot, before the separators are written.
pub open spec fn snapshot_lines(phi2: Seq<char>, phi1: Seq<char>, known: Seq<Seq<char>>) -> Seq<Seq<Seq<char>>> {
    seq![
        seq!["max_age"@, "120"@],
        seq!["adult_age"@, "18"@],
        seq!["phi2"@, "curve"@, phi2],
        seq!["phi1"@, "curve"@, phi1],
    ] + known.map_values(|fingerprint: Seq<char>| seq!["known"@, fingerprint])
}

/// Lines of tab-separated fields, each line ended by `\n`.
pub open spec fn tsv_text(lines: Seq<Seq<Seq<char>>>) -> Seq<char>
    decreases lines.len(),
{
    if lines.len() == 0 {
        Seq::empty()
    } else {
        join_spec(lines[0], '\t') + seq!['\n'] + tsv_text(lines.drop_first())
    }
}

/// The snapshot text of the curves and the known names, in the given order.
pub open spec fn snapshot_text(phi2: Seq<char>, phi1: Seq<char>, known: Seq<Seq<char>>) -> Seq<char> {
    tsv_text(snapshot_lines(phi2, phi1, known))
}

/// The state of a snapshot after one more line, or `None` for a line that does
/// not belong: the constants must have their values, a curve line replaces the
/// curve, and a known line adds a well-formed fingerprint.
pub open spec fn snapshot_step(
    state: (Option<Seq<char>>, Option<Seq<char>>, Set<Seq<char>>),
    line: Seq<char>,
) -> Option<(Option<Seq<char>>, Option<Seq<char>>, Set<Seq<char>>)> {
    let f = split_spec(line, '\t');
    if f == seq!["max_age"@, "120"@] || f == seq!["adult_age"@, "18"@] {
        Some(state)
    } else if f.len() == 3 && f[0] == "phi2"@ && f[1] == "curve"@ {
        Some((Some(f[2]), state.1, state.2))
    } else if f.len() == 3 && f[0] == "phi1"@ && f[1] == "curve"@ {
        Some((state.0, Some(f[2]), state.2))
    } else if f.len() == 2 && f[0] == "known"@ && valid_fingerprint_spec(encode_utf8(f[1])) {
        Some((state.0, state.1, state.2.insert(f[1])))
    } else {
        None
    }
}

/// The state after the first `k` lines.
pub open spec fn snapshot_upto(lines: Seq<Seq<char>>, k: nat) -> Option<
    (Option<Seq<char>>, Option<Seq<char>>, Set<Seq<char>>),
>
    decreases k,
{
    if k == 0 {
        Some((None, None, Set::empty()))
    } else {
        match snapshot_upto(lines, (k - 1) as nat) {
            None => None,
            Some(state) => snapshot_step(state, lines[k - 1]),
        }
    }
}

/// A snapshot read line by line; `None` when a line does not belong or no name is
/// known.
pub open spec fn age_snapshot_spec(text: Seq<char>) -> Option<
    (Option<Seq<char>>, Option<Seq<char>>, Set<Seq<char>>),
> {
    let lines = lines_spec(text);
    match snapshot_upto(lines, lines.len()) {
        None => None,
        Some(state) => if state.2 == Set::<Seq<char>>::empty() {
            None
        } else {
            Some(state)
        },
    }
}

fn fields_are(fields: &Vec<String>, first: &str, second: &str) -> (r: bool)
    ensures
        r == (char_views(fields@) == seq![first@, second@]),
{
    if fields.len() != 2 {
        proof {
            assert(char_views(fields@).len() != 2);
        }
        return false;
    }
    let r = str_equal(fields[0].as_str(), first) && str_equal(fields[1].as_str(), second);
    proof {
        if r {
            assert(char_views(fields@) =~= seq![first@, second@]);
        } else if char_views(fields@) == seq![first@, second@] {
            assert(char_views(fields@)[0] == fields@[0]@);
            assert(char_views(fields@)[1] == fields@[1]@);
        }
    }
    r
}

fn curve_line(fields: &Vec<String>, name: &str) -> (r: bool)
    ensures
        r == (char_views(fields@).len() == 3 && char_views(fields@)[0] == name@
            && char_views(fields@)[1] == "curve"@),
{
    if fields.len() != 3 {
        return false;
    }
    proof {
        assert(char_views(fields@)[0] == fields@[0]@);
        assert(char_views(fields@)[1] == fields@[1]@);
    }
    str_equal(fields[0].as_str(), name) && str_equal(fields[1].as_str(), "curve")
}

fn copy_string(s: &String) -> (r: String)
    ensures
        r@ == s@,
{
    let mut out = String::new();
    push_str(&mut out, s.as_str());
    out
}

/// Reads a stored age snapshot.
pub fn parse_age_snapshot(text: &str) -> (r: Option<AgeSnapshot>)
    ensures
        match age_snapshot_spec(text@) {
            None => r is None,
            Some(state) => r matches Some(s) && opt_view(s.phi2_points) == state.0 && opt_view(
                s.phi1_points,
            ) == state.1 && sorted_strict(char_views(s.known_names@)) && char_views(
                s.known_names@,
            ).to_set() == state.2,
        },
{
    let lines = lines_of(text);
    let ghost ls = lines_spec(text@);
    let mut phi2: Option<String> = None;
    let mut phi1: Option<String> = None;
    let mut known: Vec<String> = Vec::new();
    let mut i: usize = 0;
    proof {
        assert(char_views(known@).to_set() =~= Set::<Seq<char>>::empty());
    }
    while i < lines.len()
        invariant
            i <= lines@.len(),
            char_views(lines@) == ls,
            ls == lines_spec(text@),
            sorted_strict(char_views(known@)),
            snapshot_upto(ls, i as nat) == Some(
                (opt_view(phi2), opt_view(phi1), char_views(known@).to_set()),
            ),
        decreases lines@.len() - i,
    {
        let fields = split_char(lines[i].as_str(), '\t');
        let ghost state = (opt_view(phi2), opt_view(phi1), char_views(known@).to_set());
        proof {
            assert(ls[i as int] == lines@[i as int]@);
            assert(char_views(fields@) == split_spec(ls[i as int], '\t'));
        }
        if fields_are(&fields, "max_age", "120") || fields_are(&fields, "adult_age", "18") {
        } else if curve_line(&fields, "phi2") {
            proof {
                assert(char_views(fields@)[2] == fields@[2]@);
            }
            phi2 = Some(copy_string(&fields[2]));
        } else if curve_line(&fields, "phi1") {
            proof {
                assert(char_views(fields@)[2] == fields@[2]@);
            }
            phi1 = Some(copy_string(&fields[2]));
        } else if fields.len() == 2 && str_equal(fields[0].as_str(), "known") && valid_fingerprint(
            fields[1].as_str(),
        ) {
            proof {
                assert(char_views(fields@)[0] == fields@[0]@);
                assert(char_views(fields@)[1] == fields@[1]@);
            }
            insert_sorted(&mut known, copy_string(&fields[1]));
        } else {
            proof {
                if char_views(fields@).len() == 2 {
                    assert(char_views(fields@)[0] == fields@[0]@);
                    assert(char_views(fields@)[1] == fields@[1]@);
                }
                assert(snapshot_step(state, ls[i as int]) is None);
                lemma_snapshot_none(ls, (i + 1) as nat);
            }
            return None;
        }
        i = i + 1;
    }
    proof {
        assert(ls.len() == i);
    }
    if known.len() == 0 {
        proof {
            assert(char_views(known@).to_set() =~= Set::<Seq<char>>::empty());
        }
        return None;
    }
    proof {
        assert(char_views(known@).to_set().contains(known@[0]@)) by {
            assert(char_views(known@)[0] == known@[0]@);
        }
    }
    Some(AgeSnapshot { phi2_points: phi2, phi1_points: phi1, known_names: known })
}

/// Once a line does not belong, the snapshot is rejected.
pub proof fn lemma_snapshot_none(lines: Seq<Seq<char>>, k: nat)
    requires
        k <= lines.len(),
        snapshot_upto(lines, k) is None,
    ensures
        snapshot_upto(lines, lines.len()) is None,
    decreases lines.len() - k,
{
    if k < lines.len() {
        lemma_snapshot_none(lines, k + 1);
    }
}

fn push_fields_line(out: &mut String, fields: &Vec<String>)
    requires
        fields@.len() >= 1,
    ensures
        final(out)@ == old(out)@ + join_spec(char_views(fields@), '\t') + seq!['\n'],
{
    let ghost parts = char_views(fields@);
    push_str(out, fields[0].as_str());
    let mut i: usize = 1;
    proof {
        assert(parts.drop_first().skip(0) == parts.drop_first());
    }
    while i < fields.len()
        invariant
            1 <= i <= fields@.len(),
            parts == char_views(fields@),
            out@ + join_tail(parts.skip(i as int), '\t') == old(out)@ + join_spec(
                parts,
                '\t',
            ),
        decreases fields@.len() - i,
    {
        let ghost rest = parts.skip(i as int);
        proof {
            assert(rest[0] == fields@[i as int]@);
            assert(rest.drop_first() == parts.skip(i + 1));
        }
        out.push('\t');
        push_str(out, fields[i].as_str());
        proof {
            assert(join_tail(rest, '\t') == seq!['\t'] + rest[0]
                + join_tail(rest.drop_first(), '\t'));
        }
        i = i + 1;
    }
    proof {
        assert(parts.skip(i as int) == Seq::<Seq<char>>::empty());
    }
    out.push('\n');
}

fn text_field(s: &str) -> (r: String)
    ensures
        r@ == s@,
{
    let mut out = String::new();
    push_str(&mut out, s);
    out
}

/// Writes the snapshot of the curves, given as encoded point lists, and of the
/// known names' fingerprints, in the given order.
pub fn format_age_snapshot(phi2: &str, phi1: &str, known: &Vec<String>) -> (r: String)
    ensures
        r@ == snapshot_text(phi2@, phi1@, char_views(known@)),
{
    let mut lines: Vec<Vec<String>> = Vec::new();
    lines.push(vec![text_field("max_age"), text_field("120")]);
    lines.push(vec![text_field("adult_age"), text_field("18")]);
    lines.push(vec![text_field("phi2"), text_field("curve"), text_field(phi2)]);
    lines.push(vec![text_field("phi1"), text_field("curve"), text_field(phi1)]);
    proof {
        let all = snapshot_lines(phi2@, phi1@, char_views(known@));
        assert(char_views(lines@[0]@) =~= all[0]);
        assert(char_views(lines@[1]@) =~= all[1]);
        assert(char_views(lines@[2]@) =~= all[2]);
        assert(char_views(lines@[3]@) =~= all[3]);
        assert(lines@.map_values(|l: Vec<String>| char_views(l@)) =~= all.take(4));
    }
    let mut k: usize = 0;
    while k < known.len()
        invariant
            k <= known@.len(),
            lines@.len() == 4 + k,
            forall|j: int| 0 <= j < lines@.len() ==> (#[trigger] lines@[j])@.len() >= 1,
            lines@.map_values(|l: Vec<String>| char_views(l@)) == snapshot_lines(
                phi2@,
                phi1@,
                char_views(known@),
            ).take(4 + k),
        decreases known@.len() - k,
    {
        let ghost before = lines@;
        lines.push(vec![text_field("known"), copy_string(&known[k])]);
        proof {
            let all = snapshot_lines(phi2@, phi1@, char_views(known@));
            assert(all[4 + k] == seq!["known"@, known@[k as int]@]);
            assert(char_views(lines@[4 + k]@) =~= seq!["known"@, known@[k as int]@]);
            assert(lines@.map_values(|l: Vec<String>| char_views(l@)) =~= all.take(4 + k + 1));
        }
        k = k + 1;
    }
    let ghost all = snapshot_lines(phi2@, phi1@, char_views(known@));
    proof {
        assert(all.take(4 + k) == all);
    }
    let mut out = String::new();
    let mut i: usize = 0;
    proof {
        assert(all.skip(0) == all);
    }
    while i < lines.len()
        invariant
            i <= lines@.len(),
            forall|j: int| 0 <= j < lines@.len() ==> (#[trigger] lines@[j])@.len() >= 1,
            lines@.map_values(|l: Vec<String>| char_views(l@)) == all,
            out@ + tsv_text(all.skip(i as int)) == tsv_text(all),
        decreases lines@.len() - i,
    {
        let ghost rest = all.skip(i as int);
        proof {
            assert(rest[0] == char_views(lines@[i as int]@));
            assert(rest.drop_first() == all.skip(i + 1));
        }
        push_fields_line(&mut out, &lines[i]);
        i = i + 1;
    }
    proof {
        assert(all.skip(i as int) == Seq::<Seq<Seq<char>>>::empty());
    }
    out
}

/// Whether the snapshot knows a name: whether its fingerprint is stored.
pub fn knows_name(known: &Vec<String>, name: &str) -> (r: bool)
    requires
        sorted_strict(char_views(known@)),
    ensures
        r == char_views(known@).contains(fingerprint_spec(name@)),
{
    let fingerprint = fingerprint_name(name);
    let (_, found) = find_position(known, fingerprint.as_str());
    found
}


/// No character of `s` is a tab, a newline or a carriage return.
pub open spec fn single_field(s: Seq<char>) -> bool {
    forall|i: int| 0 <= i < s.len() ==> #[trigger] s[i] != '\t' && s[i] != '\n' && s[i] != '\r'
}

/// The text of lines, each followed by `\n`.
pub open spec fn terminated(lines: Seq<Seq<char>>) -> Seq<char>
    decreases lines.len(),
{
    if lines.len() == 0 {
        Seq::empty()
    } else {
        lines[0] + seq!['\n'] + terminated(lines.drop_first())
    }
}

proof fn lemma_tsv_text(lines: Seq<Seq<Seq<char>>>)
    ensures
        tsv_text(lines) == terminated(lines.map_values(|l: Seq<Seq<char>>| join_spec(l, '\t'))),
    decreases lines.len(),
{
    if lines.len() > 0 {
        lemma_tsv_text(lines.drop_first());
        assert(lines.drop_first().map_values(|l: Seq<Seq<char>>| join_spec(l, '\t'))
            == lines.map_values(|l: Seq<Seq<char>>| join_spec(l, '\t')).drop_first());
    }
}

pub proof fn lemma_split_terminated(lines: Seq<Seq<char>>)
    requires
        forall|j: int, i: int|
            0 <= j < lines.len() && 0 <= i < lines[j].len() ==> #[trigger] lines[j][i] != '\n',
    ensures
        split_spec(terminated(lines), '\n') == lines.push(Seq::<char>::empty()),
    decreases lines.len(),
{
    if lines.len() == 0 {
        assert(split_spec(Seq::<char>::empty(), '\n') == seq![Seq::<char>::empty()]);
    } else {
        let l = lines[0];
        let rest = lines.drop_first();
        assert forall|j: int, i: int| 0 <= j < rest.len() && 0 <= i < rest[j].len() implies #[trigger] rest[j][i]
            != '\n' by {
            assert(rest[j] == lines[j + 1]);
        }
        lemma_split_terminated(rest);
        assert forall|i: int| 0 <= i < l.len() implies #[trigger] l[i] != '\n' by {
            assert(lines[0][i] == l[i]);
        }
        let tail = seq!['\n'] + terminated(rest);
        assert(terminated(lines) == l + tail);
        lemma_fields_no_sep(l, tail, '\n', Seq::empty());
        assert(Seq::<char>::empty() + l == l);
        assert(tail.drop_first() == terminated(rest));
        assert(fields_from(tail, '\n', l) == seq![l] + fields_from(
            terminated(rest),
            '\n',
            Seq::empty(),
        ));
        assert(lines.push(Seq::<char>::empty()) == seq![l] + rest.push(Seq::<char>::empty()));
    }
}

proof fn lemma_lines_terminated(lines: Seq<Seq<char>>)
    requires
        forall|j: int, i: int|
            0 <= j < lines.len() && 0 <= i < lines[j].len() ==> #[trigger] lines[j][i] != '\n',
        forall|j: int| 0 <= j < lines.len() ==> strip_cr(#[trigger] lines[j]) == lines[j],
    ensures
        lines_spec(terminated(lines)) == lines,
{
    lemma_split_terminated(lines);
    let parts = lines.push(Seq::<char>::empty());
    assert(parts.drop_last() == lines);
    assert(lines.map_values(|l: Seq<char>| strip_cr(l)) =~= lines);
}

proof fn lemma_join_chars(parts: Seq<Seq<char>>, sep: char, c: char)
    requires
        c != sep,
        forall|j: int, i: int| 0 <= j < parts.len() && 0 <= i < parts[j].len() ==> #[trigger] parts[j][i] != c,
    ensures
        forall|i: int| 0 <= i < join_spec(parts, sep).len() ==> #[trigger] join_spec(parts, sep)[i] != c,
    decreases parts.len(),
{
    if parts.len() > 0 {
        lemma_join_tail_chars(parts.drop_first(), sep, c);
        let p0 = parts[0];
        let t = join_tail(parts.drop_first(), sep);
        assert forall|i: int| 0 <= i < (p0 + t).len() implies #[trigger] (p0 + t)[i] != c by {
            if i < p0.len() {
                assert(parts[0][i] != c);
            } else {
                assert((p0 + t)[i] == t[i - p0.len()]);
            }
        }
    }
}

proof fn lemma_join_tail_chars(parts: Seq<Seq<char>>, sep: char, c: char)
    requires
        c != sep,
        forall|j: int, i: int| 0 <= j < parts.len() && 0 <= i < parts[j].len() ==> #[trigger] parts[j][i] != c,
    ensures
        forall|i: int| 0 <= i < join_tail(parts, sep).len() ==> #[trigger] join_tail(parts, sep)[i] != c,
    decreases parts.len(),
{
    if parts.len() > 0 {
        let rest = parts.drop_first();
        assert forall|j: int, i: int| 0 <= j < rest.len() && 0 <= i < rest[j].len() implies #[trigger] rest[j][i]
            != c by {
            assert(rest[j] == parts[j + 1]);
        }
        lemma_join_tail_chars(rest, sep, c);
        let p0 = parts[0];
        let t = join_tail(rest, sep);
        let whole = seq![sep] + p0 + t;
        assert forall|i: int| 0 <= i < whole.len() implies #[trigger] whole[i] != c by {
            if i == 0 {
            } else if i < 1 + p0.len() {
                assert(whole[i] == p0[i - 1]);
                assert(parts[0][i - 1] != c);
            } else {
                assert(whole[i] == t[i - 1 - p0.len()]);
            }
        }
    }
}

/// No character of `join(parts)` is `c` when no part holds it and it is not the
/// separator.
pub proof fn lemma_join_chars_pub(parts: Seq<Seq<char>>, sep: char, c: char)
    requires
        c != sep,
        forall|j: int, i: int| 0 <= j < parts.len() && 0 <= i < parts[j].len() ==> #[trigger] parts[j][i] != c,
    ensures
        forall|i: int| 0 <= i < join_spec(parts, sep).len() ==> #[trigger] join_spec(parts, sep)[i] != c,
{
    lemma_join_chars(parts, sep, c);
}

/// The last character of `join(parts)` is that of its last part, when the last
/// part is not empty.
proof fn lemma_join_last(parts: Seq<Seq<char>>, sep: char)
    requires
        parts.len() >= 2,
        parts.last().len() > 0,
    ensures
        join_spec(parts, sep).len() > 0,
        join_spec(parts, sep).last() == parts.last().last(),
    decreases parts.len(),
{
    lemma_join_tail_last(parts.drop_first(), sep);
}

proof fn lemma_join_tail_last(parts: Seq<Seq<char>>, sep: char)
    requires
        parts.len() >= 1,
    ensures
        join_tail(parts, sep).len() > 0,
        join_tail(parts, sep).last() == if parts.last().len() > 0 {
            parts.last().last()
        } else {
            sep
        },
    decreases parts.len(),
{
    if parts.len() > 1 {
        lemma_join_tail_last(parts.drop_first(), sep);
        assert(parts.drop_first().last() == parts.last());
    } else {
        assert(join_tail(parts.drop_first(), sep) == Seq::<char>::empty());
    }
}

proof fn lemma_hex_single_field(digest: Seq<u8>)
    ensures
        single_field(hex_spec(digest)),
        hex_spec(digest).len() == 2 * digest.len(),
{
    crate::hex::lemma_hex_spec_len(digest);
    let h = hex_spec(digest);
    assert forall|i: int| 0 <= i < h.len() implies #[trigger] h[i] != '\t' && h[i] != '\n' && h[i]
        != '\r' by {
        let j = i / 2;
        let d = if i == 2 * j {
            digest[j] / 16
        } else {
            digest[j] % 16
        };
        assert(h[i] == crate::hex::hex_digit(d as nat));
        crate::hex::lemma_hex_digit_byte(d as nat);
    }
}

/// Reading a written snapshot gives back its curves and the set of its known
/// names: for encoded point lists without tabs or line breaks and the fingerprints
/// of at least one 32-byte name digest.
pub proof fn snapshot_round_trip(phi2: Seq<char>, phi1: Seq<char>, digests: Seq<Seq<u8>>)
    requires
        single_field(phi2),
        single_field(phi1),
        digests.len() >= 1,
        forall|i: int| 0 <= i < digests.len() ==> (#[trigger] digests[i]).len() == 32,
    ensures
        age_snapshot_spec(
            snapshot_text(phi2, phi1, digests.map_values(|d: Seq<u8>| hex_spec(d))),
        ) == Some((Some(phi2), Some(phi1), digests.map_values(|d: Seq<u8>| hex_spec(d)).to_set())),
{
    reveal_strlit("max_age");
    reveal_strlit("120");
    reveal_strlit("adult_age");
    reveal_strlit("18");
    reveal_strlit("phi2");
    reveal_strlit("phi1");
    reveal_strlit("curve");
    reveal_strlit("known");
    let known = digests.map_values(|d: Seq<u8>| hex_spec(d));
    let fields = snapshot_lines(phi2, phi1, known);
    let joined = fields.map_values(|l: Seq<Seq<char>>| join_spec(l, '\t'));
    assert forall|j: int| 0 <= j < known.len() implies single_field(#[trigger] known[j]) && known[j].len()
        == 64 by {
        lemma_hex_single_field(digests[j]);
    }
    // Every field of every line is a single field, and every line has one.
    assert forall|j: int, f: int|
        0 <= j < fields.len() && 0 <= f < fields[j].len() implies single_field(
        #[trigger] fields[j][f],
    ) by {
        if j >= 4 {
            assert(fields[j] == seq!["known"@, known[j - 4]]);
        }
    }
    // Splitting each line at tabs gives back its fields.
    assert forall|j: int| 0 <= j < fields.len() implies split_spec(#[trigger] joined[j], '\t')
        == fields[j] by {
        assert(fields[j].len() >= 2);
        assert forall|a: int, b: int|
            0 <= a < fields[j].len() && 0 <= b < fields[j][a].len() implies #[trigger] fields[j][a][b]
            != '\t' by {
            assert(single_field(fields[j][a]));
        }
        lemma_split_join(fields[j], '\t');
    }
    // No line holds a newline or ends with a carriage return.
    assert forall|j: int, i: int|
        0 <= j < joined.len() && 0 <= i < joined[j].len() implies #[trigger] joined[j][i] != '\n' by {
        assert forall|a: int, b: int|
            0 <= a < fields[j].len() && 0 <= b < fields[j][a].len() implies #[trigger] fields[j][a][b]
            != '\n' by {
            assert(single_field(fields[j][a]));
        }
        lemma_join_chars(fields[j], '\t', '\n');
    }
    assert forall|j: int| 0 <= j < joined.len() implies strip_cr(#[trigger] joined[j]) == joined[j] by {
        let parts = fields[j];
        if parts.last().len() > 0 {
            lemma_join_last(parts, '\t');
            assert(single_field(parts.last()));
            assert(parts.last().last() == parts.last()[parts.last().len() - 1]);
        } else {
            lemma_join_tail_last(parts.drop_first(), '\t');
            assert(parts.drop_first().last() == parts.last());
        }
    }
    lemma_tsv_text(fields);
    lemma_lines_terminated(joined);
    assert(lines_spec(snapshot_text(phi2, phi1, known)) == joined);
    // The lines read one by one.
    let s4 = (Some(phi2), Some(phi1), Set::<Seq<char>>::empty());
    assert(snapshot_upto(joined, 1) == Some((None::<Seq<char>>, None::<Seq<char>>, Set::<Seq<char>>::empty()))) by {
        assert(snapshot_upto(joined, 0) == Some((None::<Seq<char>>, None::<Seq<char>>, Set::<Seq<char>>::empty())));
        assert(split_spec(joined[0], '\t') == seq!["max_age"@, "120"@]);
    }
    assert(snapshot_upto(joined, 2) == Some((None::<Seq<char>>, None::<Seq<char>>, Set::<Seq<char>>::empty()))) by {
        assert(split_spec(joined[1], '\t') == seq!["adult_age"@, "18"@]);
    }
    assert(snapshot_upto(joined, 3) == Some((Some(phi2), None::<Seq<char>>, Set::<Seq<char>>::empty()))) by {
        let f = split_spec(joined[2], '\t');
        assert(f == seq!["phi2"@, "curve"@, phi2]);
        assert(f.len() == 3);
    }
    assert(snapshot_upto(joined, 4) == Some(s4)) by {
        let f = split_spec(joined[3], '\t');
        assert(f == seq!["phi1"@, "curve"@, phi1]);
        assert(f[0] != "phi2"@) by {
            assert(f[0][3] != "phi2"@[3]);
        }
    }
    assert forall|k: nat| k <= known.len() implies #[trigger] snapshot_upto(joined, 4 + k) == Some(
        (Some(phi2), Some(phi1), known.take(k as int).to_set()),
    ) by {
        lemma_known_lines(phi2, phi1, digests, known, fields, joined, k);
    }
    assert(known.take(known.len() as int) == known);
    assert(known.to_set().contains(known[0]));
}

proof fn lemma_known_lines(
    phi2: Seq<char>,
    phi1: Seq<char>,
    digests: Seq<Seq<u8>>,
    known: Seq<Seq<char>>,
    fields: Seq<Seq<Seq<char>>>,
    joined: Seq<Seq<char>>,
    k: nat,
)
    requires
        known == digests.map_values(|d: Seq<u8>| hex_spec(d)),
        forall|i: int| 0 <= i < digests.len() ==> (#[trigger] digests[i]).len() == 32,
        fields == snapshot_lines(phi2, phi1, known),
        joined == fields.map_values(|l: Seq<Seq<char>>| join_spec(l, '\t')),
        forall|j: int| 0 <= j < fields.len() ==> split_spec(#[trigger] joined[j], '\t') == fields[j],
        snapshot_upto(joined, 4) == Some((Some(phi2), Some(phi1), Set::<Seq<char>>::empty())),
        k <= known.len(),
    ensures
        snapshot_upto(joined, 4 + k) == Some((Some(phi2), Some(phi1), known.take(k as int).to_set())),
    decreases k,
{
    if k == 0 {
        assert(known.take(0).to_set() =~= Set::<Seq<char>>::empty());
    } else {
        let m = (k - 1) as nat;
        lemma_known_lines(phi2, phi1, digests, known, fields, joined, m);
        reveal_strlit("max_age");
        reveal_strlit("adult_age");
        reveal_strlit("phi2");
        reveal_strlit("phi1");
        reveal_strlit("known");
        let fp = known[m as int];
        let f = split_spec(joined[4 + m as int], '\t');
        assert(fields[4 + m as int] == seq!["known"@, fp]);
        assert(f == seq!["known"@, fp]);
        assert(f != seq!["max_age"@, "120"@]) by {
            assert(f[0].len() != "max_age"@.len());
        }
        assert(f != seq!["adult_age"@, "18"@]) by {
            assert(f[0].len() != "adult_age"@.len());
        }
        crate::hex::lemma_hex_utf8(digests[m as int]);
        crate::age::fingerprints_are_valid(digests[m as int]);
        assert(valid_fingerprint_spec(encode_utf8(fp)));
        assert(known.take(k as int).to_set() =~= known.take(m as int).to_set().insert(fp)) by {
            assert(known.take(k as int) == known.take(m as int).push(fp));
            assert forall|x: Seq<char>| known.take(k as int).to_set().contains(x) implies known.take(
                m as int,
            ).to_set().insert(fp).contains(x) by {
                let t = choose|t: int| 0 <= t < known.take(k as int).len() && known.take(k as int)[t]
                    == x;
                if t < m {
                    assert(known.take(m as int)[t] == x);
                }
            }
            assert forall|x: Seq<char>| known.take(m as int).to_set().insert(fp).contains(
                x,
            ) implies known.take(k as int).to_set().contains(x) by {
                if x == fp {
                    assert(known.take(k as int)[m as int] == x);
                } else {
                    let t = choose|t: int| 0 <= t < known.take(m as int).len() && known.take(
                        m as int,
                    )[t] == x;
                    assert(known.take(k as int)[t] == x);
                }
            }
        }
    }
}

} // verus!
