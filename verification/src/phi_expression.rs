//! The text form of learned sparse phi curves: `term[<key>]{<formula>}` components
//! joined with `;`, grouped per response as `response[<index>]{<components>}`
//! joined with `||`, and polynomial formulas `y=<c0>*x^0 + <c1>*x^1 + ...`. The
//! structure is read here; the coefficients, decimal numbers, are handed back as
//! text.
use vstd::prelude::*;
use crate::sparse_phi::{
    format_index_list, index_list_round_trip, index_list_spec, parse_index_list,
    parse_index_list_spec,
};
use crate::text::{
    char_views, decimal, join_spec, join_str_spec, join_tail, lacks_char, lemma_find_str,
    lemma_parse_decimal, lemma_split_join, lemma_split_str_join, occurs_at, parse_usize,
    parse_usize_spec, push_str, split_char, split_once_str, split_once_str_spec, split_spec,
    split_str, split_str_spec, strip_prefix, strip_prefix_spec, strip_suffix_char,
};

verus! {

/// One `term[<key>]{<formula>}` component: the term key and the formula text.
pub open spec fn merged_component_spec(c: Seq<char>) -> Option<(Seq<usize>, Seq<char>)> {
    match strip_prefix_spec(c, "term["@) {
        None => None,
        Some(rest) => match split_once_str_spec(rest, "]{"@) {
            None => None,
            Some((key, body)) => if body.len() > 0 && body.last() == '}' {
                match parse_index_list_spec(key) {
                    Some(k) => Some((k, body.drop_last())),
                    None => None,
                }
            } else {
                None
            },
        },
    }
}

/// The components of the non-empty pieces, in order; `None` when one is malformed.
pub open spec fn merged_pieces(pieces: Seq<Seq<char>>) -> Option<Seq<(Seq<usize>, Seq<char>)>>
    decreases pieces.len(),
{
    if pieces.len() == 0 {
        Some(Seq::empty())
    } else {
        match merged_pieces(pieces.drop_last()) {
            None => None,
            Some(done) => if pieces.last().len() == 0 {
                Some(done)
            } else {
                match merged_component_spec(pieces.last()) {
                    Some(c) => Some(done.push(c)),
                    None => None,
                }
            },
        }
    }
}

/// A merged phi expression: the empty text, or `;`-separated components, empty
/// pieces skipped.
pub open spec fn merged_expression_spec(encoded: Seq<char>) -> Option<Seq<(Seq<usize>, Seq<char>)>> {
    if encoded.len() == 0 {
        Some(Seq::empty())
    } else {
        merged_pieces(split_spec(encoded, ';'))
    }
}

pub open spec fn term_view(t: (Vec<usize>, String)) -> (Seq<usize>, Seq<char>) {
    (t.0@, t.1@)
}

pub open spec fn terms_view(v: Seq<(Vec<usize>, String)>) -> Seq<(Seq<usize>, Seq<char>)> {
    v.map_values(|t: (Vec<usize>, String)| term_view(t))
}

/// Reads one `term[<key>]{<formula>}` component.
fn parse_merged_component(c: &str) -> (r: Option<(Vec<usize>, String)>)
    ensures
        match merged_component_spec(c@) {
            Some(v) => r matches Some(t) && term_view(t) == v,
            None => r is None,
        },
{
    let rest = strip_prefix(c, "term[")?;
    let (key, body) = split_once_str(rest.as_str(), "]{")?;
    let formula = strip_suffix_char(body.as_str(), '}')?;
    let k = parse_index_list(key.as_str())?;
    Some((k, formula))
}

fn parse_merged_pieces(pieces: &Vec<String>) -> (r: Option<Vec<(Vec<usize>, String)>>)
    ensures
        match merged_pieces(char_views(pieces@)) {
            Some(v) => r matches Some(out) && terms_view(out@) == v,
            None => r is None,
        },
{
    let ghost ps = char_views(pieces@);
    let mut out: Vec<(Vec<usize>, String)> = Vec::new();
    let mut i: usize = 0;
    proof {
        assert(ps.take(0) == Seq::<Seq<char>>::empty());
        assert(terms_view(out@) =~= Seq::<(Seq<usize>, Seq<char>)>::empty());
    }
    while i < pieces.len()
        invariant
            i <= pieces@.len(),
            ps == char_views(pieces@),
            merged_pieces(ps.take(i as int)) == Some(terms_view(out@)),
        decreases pieces@.len() - i,
    {
        let ghost t = ps.take(i + 1);
        proof {
            assert(t.drop_last() == ps.take(i as int));
            assert(t.last() == pieces@[i as int]@);
        }
        if !pieces[i].as_str().is_empty() {
            match parse_merged_component(pieces[i].as_str()) {
                Some(c) => {
                    let ghost before = out@;
                    out.push(c);
                    proof {
                        assert(terms_view(out@) == terms_view(before).push(term_view(c)));
                    }
                },
                None => {
                    proof {
                        lemma_merged_none(ps, (i + 1) as nat);
                    }
                    return None;
                },
            }
        }
        i = i + 1;
    }
    proof {
        assert(ps.take(i as int) == ps);
    }
    Some(out)
}

pub proof fn lemma_merged_none(pieces: Seq<Seq<char>>, k: nat)
    requires
        k <= pieces.len(),
        merged_pieces(pieces.take(k as int)) is None,
    ensures
        merged_pieces(pieces) is None,
    decreases pieces.len() - k,
{
    if k < pieces.len() {
        assert(pieces.take(k as int + 1).drop_last() == pieces.take(k as int));
        lemma_merged_none(pieces, k + 1);
    } else {
        assert(pieces.take(k as int) == pieces);
    }
}

/// Reads a merged phi expression into term keys and formula texts.
pub fn parse_merged_phi_expression(encoded: &str) -> (r: Option<Vec<(Vec<usize>, String)>>)
    ensures
        match merged_expression_spec(encoded@) {
            Some(v) => r matches Some(out) && terms_view(out@) == v,
            None => r is None,
        },
{
    if encoded.is_empty() {
        let out: Vec<(Vec<usize>, String)> = Vec::new();
        proof {
            assert(terms_view(out@) =~= Seq::<(Seq<usize>, Seq<char>)>::empty());
        }
        return Some(out);
    }
    let pieces = split_char(encoded, ';');
    parse_merged_pieces(&pieces)
}

/// One `response[<index>]{<expression>}` component: the response index and the
/// merged expression's components.
pub open spec fn global_component_spec(c: Seq<char>) -> Option<(usize, Seq<(Seq<usize>, Seq<char>)>)> {
    match strip_prefix_spec(c, "response["@) {
        None => None,
        Some(rest) => match split_once_str_spec(rest, "]{"@) {
            None => None,
            Some((index, body)) => if body.len() > 0 && body.last() == '}' {
                match (parse_usize_spec(index), merged_expression_spec(body.drop_last())) {
                    (Some(n), Some(terms)) => Some((n, terms)),
                    _ => None,
                }
            } else {
                None
            },
        },
    }
}

pub open spec fn global_pieces(pieces: Seq<Seq<char>>) -> Option<Seq<(usize, Seq<(Seq<usize>, Seq<char>)>)>>
    decreases pieces.len(),
{
    if pieces.len() == 0 {
        Some(Seq::empty())
    } else {
        match global_pieces(pieces.drop_last()) {
            None => None,
            Some(done) => if pieces.last().len() == 0 {
                Some(done)
            } else {
                match global_component_spec(pieces.last()) {
                    Some(c) => Some(done.push(c)),
                    None => None,
                }
            },
        }
    }
}

/// A global phi expression: the empty text, or `||`-separated response
/// components, empty pieces skipped.
pub open spec fn global_expression_spec(encoded: Seq<char>) -> Option<Seq<(usize, Seq<(Seq<usize>, Seq<char>)>)>> {
    if encoded.len() == 0 {
        Some(Seq::empty())
    } else {
        global_pieces(split_str_spec(encoded, "||"@))
    }
}

pub open spec fn response_view(c: (usize, Vec<(Vec<usize>, String)>)) -> (usize, Seq<(Seq<usize>, Seq<char>)>) {
    (c.0, terms_view(c.1@))
}

pub open spec fn responses_view(v: Seq<(usize, Vec<(Vec<usize>, String)>)>) -> Seq<(usize, Seq<(Seq<usize>, Seq<char>)>)> {
    v.map_values(|c: (usize, Vec<(Vec<usize>, String)>)| response_view(c))
}

fn parse_global_component(c: &str) -> (r: Option<(usize, Vec<(Vec<usize>, String)>)>)
    ensures
        match global_component_spec(c@) {
            Some(v) => r matches Some(t) && response_view(t) == v,
            None => r is None,
        },
{
    let rest = strip_prefix(c, "response[")?;
    let (index, body) = split_once_str(rest.as_str(), "]{")?;
    let expression = strip_suffix_char(body.as_str(), '}')?;
    let n = parse_usize(index.as_str());
    let terms = parse_merged_phi_expression(expression.as_str());
    match (n, terms) {
        (Some(n), Some(terms)) => Some((n, terms)),
        _ => None,
    }
}

proof fn lemma_global_none(pieces: Seq<Seq<char>>, k: nat)
    requires
        k <= pieces.len(),
        global_pieces(pieces.take(k as int)) is None,
    ensures
        global_pieces(pieces) is None,
    decreases pieces.len() - k,
{
    if k < pieces.len() {
        assert(pieces.take(k as int + 1).drop_last() == pieces.take(k as int));
        lemma_global_none(pieces, k + 1);
    } else {
        assert(pieces.take(k as int) == pieces);
    }
}

/// Reads a global phi expression into response indices and their components.
pub fn parse_global_phi_expression(encoded: &str) -> (r: Option<Vec<(usize, Vec<(Vec<usize>, String)>)>>)
    ensures
        match global_expression_spec(encoded@) {
            Some(v) => r matches Some(out) && responses_view(out@) == v,
            None => r is None,
        },
{
    let mut out: Vec<(usize, Vec<(Vec<usize>, String)>)> = Vec::new();
    proof {
        assert(responses_view(out@) =~= Seq::<(usize, Seq<(Seq<usize>, Seq<char>)>)>::empty());
    }
    if encoded.is_empty() {
        return Some(out);
    }
    proof {
        reveal_strlit("||");
    }
    let pieces = split_str(encoded, "||");
    let ghost ps = char_views(pieces@);
    let mut i: usize = 0;
    proof {
        assert(ps.take(0) == Seq::<Seq<char>>::empty());
    }
    while i < pieces.len()
        invariant
            i <= pieces@.len(),
            ps == char_views(pieces@),
            ps == split_str_spec(encoded@, "||"@),
            encoded@.len() > 0,
            global_pieces(ps.take(i as int)) == Some(responses_view(out@)),
        decreases pieces@.len() - i,
    {
        let ghost t = ps.take(i + 1);
        proof {
            assert(t.drop_last() == ps.take(i as int));
            assert(t.last() == pieces@[i as int]@);
        }
        if !pieces[i].as_str().is_empty() {
            match parse_global_component(pieces[i].as_str()) {
                Some(c) => {
                    let ghost before = out@;
                    out.push(c);
                    proof {
                        assert(responses_view(out@) == responses_view(before).push(response_view(c)));
                    }
                },
                None => {
                    proof {
                        lemma_global_none(ps, (i + 1) as nat);
                    }
                    return None;
                },
            }
        }
        i = i + 1;
    }
    proof {
        assert(ps.take(i as int) == ps);
    }
    Some(out)
}

/// One `<coefficient>*x^<power>` term: the coefficient text and the power.
pub open spec fn formula_term_spec(t: Seq<char>) -> Option<(Seq<char>, usize)> {
    match split_once_str_spec(t, "*x^"@) {
        Some((coefficient, power)) => match parse_usize_spec(power) {
            Some(p) => Some((coefficient, p)),
            None => None,
        },
        None => None,
    }
}

pub open spec fn formula_pieces(pieces: Seq<Seq<char>>) -> Option<Seq<(Seq<char>, usize)>>
    decreases pieces.len(),
{
    if pieces.len() == 0 {
        Some(Seq::empty())
    } else {
        match formula_pieces(pieces.drop_last()) {
            None => None,
            Some(done) => match formula_term_spec(pieces.last()) {
                Some(c) => Some(done.push(c)),
                None => None,
            },
        }
    }
}

/// A polynomial formula: `y=` and ` + `-separated terms.
pub open spec fn formula_spec(encoded: Seq<char>) -> Option<Seq<(Seq<char>, usize)>> {
    match strip_prefix_spec(encoded, "y="@) {
        Some(rest) => formula_pieces(split_str_spec(rest, " + "@)),
        None => None,
    }
}

pub open spec fn coefficient_terms_view(v: Seq<(String, usize)>) -> Seq<(Seq<char>, usize)> {
    v.map_values(|t: (String, usize)| (t.0@, t.1))
}

proof fn lemma_formula_none(pieces: Seq<Seq<char>>, k: nat)
    requires
        k <= pieces.len(),
        formula_pieces(pieces.take(k as int)) is None,
    ensures
        formula_pieces(pieces) is None,
    decreases pieces.len() - k,
{
    if k < pieces.len() {
        assert(pieces.take(k as int + 1).drop_last() == pieces.take(k as int));
        lemma_formula_none(pieces, k + 1);
    } else {
        assert(pieces.take(k as int) == pieces);
    }
}

/// Reads the terms of a polynomial formula: each coefficient's text, which the
/// caller reads as a number, and its power.
pub fn formula_terms(encoded: &str) -> (r: Option<Vec<(String, usize)>>)
    ensures
        match formula_spec(encoded@) {
            Some(v) => r matches Some(out) && coefficient_terms_view(out@) == v,
            None => r is None,
        },
{
    let rest = strip_prefix(encoded, "y=")?;
    proof {
        reveal_strlit(" + ");
    }
    let pieces = split_str(rest.as_str(), " + ");
    let ghost ps = char_views(pieces@);
    let mut out: Vec<(String, usize)> = Vec::new();
    let mut i: usize = 0;
    proof {
        assert(ps.take(0) == Seq::<Seq<char>>::empty());
        assert(coefficient_terms_view(out@) =~= Seq::<(Seq<char>, usize)>::empty());
    }
    while i < pieces.len()
        invariant
            i <= pieces@.len(),
            ps == char_views(pieces@),
            ps == split_str_spec(rest@, " + "@),
            strip_prefix_spec(encoded@, "y="@) == Some(rest@),
            formula_pieces(ps.take(i as int)) == Some(coefficient_terms_view(out@)),
        decreases pieces@.len() - i,
    {
        let ghost t = ps.take(i + 1);
        proof {
            assert(t.drop_last() == ps.take(i as int));
            assert(t.last() == pieces@[i as int]@);
        }
        let (coefficient, power) = match split_once_str(pieces[i].as_str(), "*x^") {
            Some(parts) => parts,
            None => {
                proof {
                    lemma_formula_none(ps, (i + 1) as nat);
                }
                return None;
            },
        };
        match parse_usize(power.as_str()) {
            Some(p) => {
                let ghost before = out@;
                out.push((coefficient, p));
                proof {
                    assert(coefficient_terms_view(out@) == coefficient_terms_view(before).push(
                        (coefficient@, p),
                    ));
                }
            },
            None => {
                proof {
                    lemma_formula_none(ps, (i + 1) as nat);
                }
                return None;
            },
        }
        i = i + 1;
    }
    proof {
        assert(ps.take(i as int) == ps);
    }
    Some(out)
}

/// The text of one component: `term[<key>]{<formula>}`.
pub open spec fn component_text(key: Seq<usize>, formula: Seq<char>) -> Seq<char> {
    "term["@ + index_list_spec(key) + "]{"@ + formula + "}"@
}

/// The text of a merged expression: its components joined with `;`.
pub open spec fn merged_text(terms: Seq<(Seq<usize>, Seq<char>)>) -> Seq<char> {
    join_spec(terms.map_values(|t: (Seq<usize>, Seq<char>)| component_text(t.0, t.1)), ';')
}

/// Writes term keys and their formulas as a merged phi expression.
pub fn format_merged_phi_expression(terms: &Vec<(Vec<usize>, String)>) -> (r: String)
    ensures
        r@ == merged_text(terms_view(terms@)),
{
    let ghost parts = terms_view(terms@).map_values(
        |t: (Seq<usize>, Seq<char>)| component_text(t.0, t.1),
    );
    let mut out = String::new();
    let mut i: usize = 0;
    proof {
        assert(parts.skip(0) == parts);
        if parts.len() > 0 {
            assert(join_spec(parts, ';') == parts[0] + join_tail(parts.drop_first(), ';'));
        }
    }
    while i < terms.len()
        invariant
            i <= terms@.len(),
            parts == terms_view(terms@).map_values(
                |t: (Seq<usize>, Seq<char>)| component_text(t.0, t.1),
            ),
            i == 0 ==> out@ == Seq::<char>::empty(),
            i > 0 ==> join_spec(parts, ';') == out@ + join_tail(parts.skip(i as int), ';'),
        decreases terms@.len() - i,
    {
        let ghost before = out@;
        if i > 0 {
            out.push(';');
        }
        push_str(&mut out, "term[");
        let key = format_index_list(terms[i].0.as_slice());
        push_str(&mut out, key.as_str());
        push_str(&mut out, "]{");
        push_str(&mut out, terms[i].1.as_str());
        push_str(&mut out, "}");
        proof {
            let rest = parts.skip(i as int);
            assert(rest[0] == parts[i as int]);
            assert(rest.drop_first() == parts.skip(i + 1));
            assert(parts[i as int] == component_text(terms@[i as int].0@, terms@[i as int].1@));
            if i == 0 {
                assert(out@ == parts[0]);
                assert(parts.drop_first() == parts.skip(1));
            } else {
                assert(out@ == before + (seq![';'] + parts[i as int]));
            }
        }
        i = i + 1;
    }
    proof {
        if parts.len() == 0 {
            assert(join_spec(parts, ';') == Seq::<char>::empty());
        } else {
            assert(parts.skip(i as int) == Seq::<Seq<char>>::empty());
        }
    }
    out
}

proof fn lemma_component_reads_back(key: Seq<usize>, formula: Seq<char>)
    ensures
        merged_component_spec(component_text(key, formula)) == Some((key, formula)),
        component_text(key, formula).len() > 0,
{
    reveal_strlit("term[");
    reveal_strlit("]{");
    reveal_strlit("}");
    let list = index_list_spec(key);
    let c = component_text(key, formula);
    assert(strip_prefix_spec(c, "term["@) == Some(list + "]{"@ + formula + "}"@)) by {
        assert("term["@.is_prefix_of(c));
        assert(c.skip(5) =~= list + "]{"@ + formula + "}"@);
    }
    let rest = list + "]{"@ + formula + "}"@;
    lemma_index_list_chars(key);
    assert forall|i: int| 0 <= i < list.len() implies !occurs_at(rest, "]{"@, i) by {
        if occurs_at(rest, "]{"@, i) {
            assert(rest.subrange(i, i + 2)[0] == rest[i]);
            assert(rest[i] == list[i]);
        }
    }
    assert(occurs_at(rest, "]{"@, list.len() as int)) by {
        assert(rest.subrange(list.len() as int, list.len() as int + 2) =~= "]{"@);
    }
    lemma_find_str(rest, "]{"@, list.len() as int);
    let body = formula + "}"@;
    assert(rest.take(list.len() as int) == list);
    assert(rest.skip(list.len() as int + 2) == body);
    assert(body.drop_last() == formula);
    index_list_round_trip(key);
}

/// The characters of a written key are digits and commas.
proof fn lemma_index_list_chars(key: Seq<usize>)
    ensures
        forall|i: int|
            0 <= i < index_list_spec(key).len() ==> #[trigger] index_list_spec(key)[i] != ']'
                && index_list_spec(key)[i] != ';' && index_list_spec(key)[i] != '|',
{
    let parts = crate::sparse_phi::decimals(key);
    assert forall|j: int, i: int| 0 <= j < parts.len() && 0 <= i < parts[j].len() implies #[trigger] parts[j][i]
        != ']' by {
        crate::text::lemma_decimal_digits(key[j] as nat);
        assert(crate::text::is_digit(parts[j][i]));
    }
    assert forall|j: int, i: int| 0 <= j < parts.len() && 0 <= i < parts[j].len() implies #[trigger] parts[j][i]
        != ';' by {
        crate::text::lemma_decimal_digits(key[j] as nat);
        assert(crate::text::is_digit(parts[j][i]));
    }
    assert forall|j: int, i: int| 0 <= j < parts.len() && 0 <= i < parts[j].len() implies #[trigger] parts[j][i]
        != '|' by {
        crate::text::lemma_decimal_digits(key[j] as nat);
        assert(crate::text::is_digit(parts[j][i]));
    }
    crate::age_snapshot::lemma_join_chars_pub(parts, ',', ']');
    crate::age_snapshot::lemma_join_chars_pub(parts, ',', ';');
    crate::age_snapshot::lemma_join_chars_pub(parts, ',', '|');
}

/// Term curves survive a write and a read: the merged expression of term keys and
/// formulas without `;` reads back as the same keys and formulas, in order.
pub proof fn merged_expression_round_trip(terms: Seq<(Seq<usize>, Seq<char>)>)
    requires
        forall|t: int, i: int| 0 <= t < terms.len() && 0 <= i < terms[t].1.len() ==> #[trigger] terms[t].1[i] != ';',
    ensures
        merged_expression_spec(merged_text(terms)) == Some(terms),
{
    reveal_strlit("term[");
    reveal_strlit("]{");
    reveal_strlit("}");
    let parts = terms.map_values(|t: (Seq<usize>, Seq<char>)| component_text(t.0, t.1));
    if terms.len() == 0 {
        assert(merged_text(terms) == Seq::<char>::empty());
        assert(terms == Seq::<(Seq<usize>, Seq<char>)>::empty());
    } else {
        assert forall|j: int, i: int| 0 <= j < parts.len() && 0 <= i < parts[j].len() implies #[trigger] parts[j][i]
            != ';' by {
            let list = index_list_spec(terms[j].0);
            lemma_index_list_chars(terms[j].0);
            let c = parts[j];
            assert(c == "term["@ + list + "]{"@ + terms[j].1 + "}"@);
            if i < 5 {
            } else if i < 5 + list.len() {
                assert(c[i] == list[i - 5]);
            } else if i < 7 + list.len() {
            } else if i < 7 + list.len() + terms[j].1.len() {
                assert(c[i] == terms[j].1[i - 7 - list.len()]);
            }
        }
        lemma_split_join(parts, ';');
        lemma_component_reads_back(terms[0].0, terms[0].1);
        assert(merged_text(terms).len() > 0);
        lemma_merged_parts(terms, terms.len() as nat);
        assert(terms.take(terms.len() as int) == terms);
        assert(parts.take(parts.len() as int) == parts);
    }
}

proof fn lemma_merged_parts(terms: Seq<(Seq<usize>, Seq<char>)>, k: nat)
    requires
        k <= terms.len(),
    ensures
        merged_pieces(
            terms.map_values(|t: (Seq<usize>, Seq<char>)| component_text(t.0, t.1)).take(k as int),
        ) == Some(terms.take(k as int)),
    decreases k,
{
    let parts = terms.map_values(|t: (Seq<usize>, Seq<char>)| component_text(t.0, t.1));
    if k > 0 {
        lemma_merged_parts(terms, (k - 1) as nat);
        let p = parts.take(k as int);
        assert(p.drop_last() == parts.take(k - 1));
        assert(p.last() == component_text(terms[k - 1].0, terms[k - 1].1));
        lemma_component_reads_back(terms[k - 1].0, terms[k - 1].1);
        assert(terms.take(k as int) == terms.take(k - 1).push(terms[k - 1]));
    } else {
        assert(parts.take(0) == Seq::<Seq<char>>::empty());
        assert(terms.take(0) == Seq::<(Seq<usize>, Seq<char>)>::empty());
    }
}

/// The text of one polynomial term: `<coefficient>*x^<power>`.
pub open spec fn formula_term_text(coefficient: Seq<char>, power: usize) -> Seq<char> {
    coefficient + "*x^"@ + decimal(power as nat)
}

/// The text of a polynomial formula: `y=` and its terms joined with ` + `.
pub open spec fn formula_text(terms: Seq<(Seq<char>, usize)>) -> Seq<char> {
    "y="@ + join_str_spec(terms.map_values(|t: (Seq<char>, usize)| formula_term_text(t.0, t.1)), " + "@)
}

proof fn lemma_term_reads_back(coefficient: Seq<char>, power: usize)
    requires
        lacks_char(coefficient, '*'),
    ensures
        formula_term_spec(formula_term_text(coefficient, power)) == Some((coefficient, power)),
        lacks_char(coefficient, ' ') ==> lacks_char(formula_term_text(coefficient, power), ' '),
{
    reveal_strlit("*x^");
    let d = decimal(power as nat);
    let t = formula_term_text(coefficient, power);
    let n = coefficient.len() as int;
    crate::text::lemma_decimal_digits(power as nat);
    assert forall|i: int| 0 <= i < n implies !occurs_at(t, "*x^"@, i) by {
        if occurs_at(t, "*x^"@, i) {
            assert(t.subrange(i, i + 3)[0] == t[i]);
            assert(t[i] == coefficient[i]);
        }
    }
    assert(occurs_at(t, "*x^"@, n)) by {
        assert(t.subrange(n, n + 3) =~= "*x^"@);
    }
    lemma_find_str(t, "*x^"@, n);
    assert(t.take(n) == coefficient);
    assert(t.skip(n + 3) == d);
    lemma_parse_decimal(power);
    if lacks_char(coefficient, ' ') {
        assert forall|i: int| 0 <= i < t.len() implies t[i] != ' ' by {
            if i < n {
                assert(t[i] == coefficient[i]);
            } else if i < n + 3 {
            } else {
                assert(t[i] == d[i - n - 3]);
                assert(crate::text::is_digit(d[i - n - 3]));
            }
        }
    }
}

proof fn lemma_formula_parts(terms: Seq<(Seq<char>, usize)>, k: nat)
    requires
        k <= terms.len(),
        forall|j: int| 0 <= j < terms.len() ==> lacks_char(#[trigger] terms[j].0, '*'),
    ensures
        formula_pieces(
            terms.map_values(|t: (Seq<char>, usize)| formula_term_text(t.0, t.1)).take(k as int),
        ) == Some(terms.take(k as int)),
    decreases k,
{
    let parts = terms.map_values(|t: (Seq<char>, usize)| formula_term_text(t.0, t.1));
    if k > 0 {
        lemma_formula_parts(terms, (k - 1) as nat);
        let p = parts.take(k as int);
        assert(p.drop_last() == parts.take(k - 1));
        assert(p.last() == formula_term_text(terms[k - 1].0, terms[k - 1].1));
        lemma_term_reads_back(terms[k - 1].0, terms[k - 1].1);
        assert(terms.take(k as int) == terms.take(k - 1).push(terms[k - 1]));
    } else {
        assert(parts.take(0) == Seq::<Seq<char>>::empty());
        assert(terms.take(0) == Seq::<(Seq<char>, usize)>::empty());
    }
}

/// A written polynomial formula reads back as its terms: every coefficient, in
/// order, with its power, for coefficients without spaces or `*` (as decimal
/// numbers are written).
pub proof fn formula_round_trip(terms: Seq<(Seq<char>, usize)>)
    requires
        terms.len() > 0,
        forall|j: int|
            0 <= j < terms.len() ==> lacks_char(#[trigger] terms[j].0, ' ') && lacks_char(terms[j].0, '*'),
    ensures
        formula_spec(formula_text(terms)) == Some(terms),
{
    reveal_strlit("y=");
    reveal_strlit(" + ");
    let parts = terms.map_values(|t: (Seq<char>, usize)| formula_term_text(t.0, t.1));
    let joined = join_str_spec(parts, " + "@);
    let text = formula_text(terms);
    assert("y="@.is_prefix_of(text));
    assert(text.skip(2) =~= joined);
    assert forall|j: int| 0 <= j < parts.len() implies lacks_char(#[trigger] parts[j], " + "@[0]) by {
        lemma_term_reads_back(terms[j].0, terms[j].1);
    }
    lemma_split_str_join(parts, " + "@);
    lemma_formula_parts(terms, terms.len() as nat);
    assert(terms.take(terms.len() as int) == terms);
    assert(parts.take(parts.len() as int) == parts);
}

/// The text of one response component: `response[<index>]{<merged expression>}`.
pub open spec fn response_text(index: usize, terms: Seq<(Seq<usize>, Seq<char>)>) -> Seq<char> {
    "response["@ + decimal(index as nat) + "]{"@ + merged_text(terms) + "}"@
}

proof fn lemma_response_shape(index: usize, m: Seq<char>)
    ensures
        ({
            let d = decimal(index as nat);
            let rest = d + "]{"@ + m + "}"@;
            &&& strip_prefix_spec("response["@ + d + "]{"@ + m + "}"@, "response["@) == Some(rest)
            &&& split_once_str_spec(rest, "]{"@) == Some((d, m + "}"@))
        }),
{
    reveal_strlit("response[");
    reveal_strlit("]{");
    reveal_strlit("}");
    let d = decimal(index as nat);
    let c = "response["@ + d + "]{"@ + m + "}"@;
    let rest = d + "]{"@ + m + "}"@;
    assert("response["@.is_prefix_of(c));
    assert(c.skip(9) =~= rest);
    crate::text::lemma_decimal_digits(index as nat);
    let n = d.len() as int;
    assert forall|i: int| 0 <= i < n implies !occurs_at(rest, "]{"@, i) by {
        if occurs_at(rest, "]{"@, i) {
            assert(rest.subrange(i, i + 2)[0] == rest[i]);
            assert(rest[i] == d[i]);
            assert(crate::text::is_digit(d[i]));
        }
    }
    assert(occurs_at(rest, "]{"@, n)) by {
        assert(rest.subrange(n, n + 2) =~= "]{"@);
    }
    lemma_find_str(rest, "]{"@, n);
    assert(rest.take(n) =~= d);
    assert(rest.skip(n + 2) =~= m + "}"@);
}

/// A written response component reads back as its index and every one of its
/// terms, in order, for formulas without `;`.
pub proof fn response_component_round_trip(index: usize, terms: Seq<(Seq<usize>, Seq<char>)>)
    requires
        forall|t: int, i: int| 0 <= t < terms.len() && 0 <= i < terms[t].1.len() ==> #[trigger] terms[t].1[i] != ';',
    ensures
        global_component_spec(response_text(index, terms)) == Some((index, terms)),
{
    reveal_strlit("}");
    let m = merged_text(terms);
    lemma_response_shape(index, m);
    let body = m + "}"@;
    assert(body.len() > 0 && body.last() == '}');
    assert(body.drop_last() =~= m);
    lemma_parse_decimal(index);
    merged_expression_round_trip(terms);
}

/// The text of a global phi expression: its response components joined with `||`.
pub open spec fn global_text(responses: Seq<(usize, Seq<(Seq<usize>, Seq<char>)>)>) -> Seq<char> {
    join_str_spec(
        responses.map_values(|r: (usize, Seq<(Seq<usize>, Seq<char>)>)| response_text(r.0, r.1)),
        "||"@,
    )
}

/// The formulas of the terms hold neither `;` nor `|`.
pub open spec fn plain_formulas(terms: Seq<(Seq<usize>, Seq<char>)>) -> bool {
    forall|t: int, i: int|
        0 <= t < terms.len() && 0 <= i < terms[t].1.len() ==> #[trigger] terms[t].1[i] != ';' && terms[t].1[i]
            != '|'
}

proof fn lemma_response_text_plain(index: usize, terms: Seq<(Seq<usize>, Seq<char>)>)
    requires
        plain_formulas(terms),
    ensures
        lacks_char(response_text(index, terms), '|'),
        response_text(index, terms).len() > 0,
{
    reveal_strlit("response[");
    reveal_strlit("]{");
    reveal_strlit("}");
    reveal_strlit("term[");
    let parts = terms.map_values(|t: (Seq<usize>, Seq<char>)| component_text(t.0, t.1));
    assert forall|j: int, i: int| 0 <= j < parts.len() && 0 <= i < parts[j].len() implies #[trigger] parts[j][i]
        != '|' by {
        let list = index_list_spec(terms[j].0);
        lemma_index_list_chars(terms[j].0);
        let c = parts[j];
        assert(c == "term["@ + list + "]{"@ + terms[j].1 + "}"@);
        if i < 5 {
        } else if i < 5 + list.len() {
            assert(c[i] == list[i - 5]);
        } else if i < 7 + list.len() {
        } else if i < 7 + list.len() + terms[j].1.len() {
            assert(c[i] == terms[j].1[i - 7 - list.len()]);
        }
    }
    crate::age_snapshot::lemma_join_chars_pub(parts, ';', '|');
    let m = merged_text(terms);
    let d = decimal(index as nat);
    crate::text::lemma_decimal_digits(index as nat);
    let c = response_text(index, terms);
    assert(c == "response["@ + d + "]{"@ + m + "}"@);
    assert forall|i: int| 0 <= i < c.len() implies c[i] != '|' by {
        if i < 9 {
        } else if i < 9 + d.len() {
            assert(c[i] == d[i - 9]);
            assert(crate::text::is_digit(d[i - 9]));
        } else if i < 11 + d.len() {
        } else if i < 11 + d.len() + m.len() {
            assert(c[i] == m[i - 11 - d.len()]);
        }
    }
}

proof fn lemma_global_parts(responses: Seq<(usize, Seq<(Seq<usize>, Seq<char>)>)>, k: nat)
    requires
        k <= responses.len(),
        forall|j: int| 0 <= j < responses.len() ==> plain_formulas(#[trigger] responses[j].1),
    ensures
        global_pieces(
            responses.map_values(|r: (usize, Seq<(Seq<usize>, Seq<char>)>)| response_text(r.0, r.1)).take(
                k as int,
            ),
        ) == Some(responses.take(k as int)),
    decreases k,
{
    let parts = responses.map_values(|r: (usize, Seq<(Seq<usize>, Seq<char>)>)| response_text(r.0, r.1));
    if k > 0 {
        lemma_global_parts(responses, (k - 1) as nat);
        let p = parts.take(k as int);
        let r = responses[k - 1];
        assert(p.drop_last() == parts.take(k - 1));
        assert(p.last() == response_text(r.0, r.1));
        assert(plain_formulas(r.1));
        lemma_response_text_plain(r.0, r.1);
        response_component_round_trip(r.0, r.1);
        assert(responses.take(k as int) == responses.take(k - 1).push(r));
    } else {
        assert(parts.take(0) == Seq::<Seq<char>>::empty());
        assert(responses.take(0) == Seq::<(usize, Seq<(Seq<usize>, Seq<char>)>)>::empty());
    }
}

/// A written global phi expression reads back as every response component, in
/// order, each with its index and all of its terms, for formulas without `;` or
/// `|`.
pub proof fn global_expression_round_trip(responses: Seq<(usize, Seq<(Seq<usize>, Seq<char>)>)>)
    requires
        forall|j: int| 0 <= j < responses.len() ==> plain_formulas(#[trigger] responses[j].1),
    ensures
        global_expression_spec(global_text(responses)) == Some(responses),
{
    reveal_strlit("||");
    let parts = responses.map_values(|r: (usize, Seq<(Seq<usize>, Seq<char>)>)| response_text(r.0, r.1));
    if responses.len() == 0 {
        assert(global_text(responses) == Seq::<char>::empty());
        assert(responses =~= Seq::<(usize, Seq<(Seq<usize>, Seq<char>)>)>::empty());
    } else {
        assert forall|j: int| 0 <= j < parts.len() implies lacks_char(#[trigger] parts[j], "||"@[0]) by {
            lemma_response_text_plain(responses[j].0, responses[j].1);
        }
        lemma_response_text_plain(responses[0].0, responses[0].1);
        assert(global_text(responses).len() > 0) by {
            if parts.len() == 1 {
                assert(global_text(responses) == parts[0]);
            } else {
                assert(global_text(responses) == parts[0] + "||"@ + join_str_spec(parts.drop_first(), "||"@));
            }
        }
        lemma_split_str_join(parts, "||"@);
        lemma_global_parts(responses, responses.len() as nat);
        assert(responses.take(responses.len() as int) == responses);
        assert(parts.take(parts.len() as int) == parts);
    }
}

} // verus!
