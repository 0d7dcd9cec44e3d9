//! The discrete side of a PhiNetwork: its product terms and their names.
use vstd::prelude::*;
use crate::labels::{index_label, label_for_index};
use crate::text::{decimal, join_str_spec, lacks_char, lemma_split_str_join, split_str_spec};

verus! {

/// The name of input variable `index`: `a`..`z`, then `x26`, `x27`, ...
pub open spec fn variable_name_spec(index: nat) -> Seq<char> {
    index_label('x', index)
}

pub fn variable_name(index: usize) -> (r: String)
    ensures
        r@ == variable_name_spec(index as nat),
{
    label_for_index('x', index)
}

/// The variable names of `indices`, written one after another.
pub open spec fn variables_spec(indices: Seq<usize>) -> Seq<char>
    decreases indices.len(),
{
    if indices.len() == 0 {
        Seq::empty()
    } else {
        variables_spec(indices.drop_last()) + variable_name_spec(indices.last() as nat)
    }
}

/// A product term of a PhiNetwork: the inputs whose values are multiplied.
#[derive(Debug)]
pub struct PhiTerm {
    pub input_indices: Vec<usize>,
}

pub open spec fn term_name_spec(indices: Seq<usize>) -> Seq<char> {
    "phi("@ + variables_spec(indices) + ")"@
}

impl PhiTerm {
    /// `phi(` followed by the term's variable names and `)`, e.g. `phi(ab)`.
    pub fn name(&self) -> (r: String)
        ensures
            r@ == term_name_spec(self.input_indices@),
    {
        let mut out = String::new();
        out.push('p');
        out.push('h');
        out.push('i');
        out.push('(');
        let ghost head = out@;
        let mut i: usize = 0;
        while i < self.input_indices.len()
            invariant
                i <= self.input_indices@.len(),
                head.len() == 4,
                out@ == head + variables_spec(self.input_indices@.take(i as int)),
            decreases self.input_indices@.len() - i,
        {
            let v = variable_name(self.input_indices[i]);
            let vs = v.as_str();
            let ghost before = out@;
            let mut j: usize = 0;
            let vc = crate::text::chars_of(vs);
            while j < vc.len()
                invariant
                    j <= vc@.len(),
                    vc@ == v@,
                    out@ == before + vc@.take(j as int),
                decreases vc@.len() - j,
            {
                out.push(vc[j]);
                proof {
                    assert(vc@.take(j + 1) == vc@.take(j as int).push(vc@[j as int]));
                }
                j = j + 1;
            }
            proof {
                assert(vc@.take(j as int) == vc@);
                let t = self.input_indices@.take(i + 1);
                assert(t.drop_last() == self.input_indices@.take(i as int));
                assert(t.last() == self.input_indices@[i as int]);
            }
            i = i + 1;
        }
        out.push(')');
        proof {
            reveal_strlit("phi(");
            reveal_strlit(")");
            assert(self.input_indices@.take(i as int) == self.input_indices@);
            assert(head == "phi("@);
        }
        out
    }
}

/// The names of the terms, joined with ` + `.
pub open spec fn formula_spec(terms: Seq<Seq<usize>>) -> Seq<char>
    decreases terms.len(),
{
    if terms.len() == 0 {
        Seq::empty()
    } else if terms.len() == 1 {
        term_name_spec(terms[0])
    } else {
        formula_spec(terms.drop_last()) + " + "@ + term_name_spec(terms.last())
    }
}

pub open spec fn term_indices_view(terms: Seq<PhiTerm>) -> Seq<Seq<usize>> {
    terms.map_values(|t: PhiTerm| t.input_indices@)
}

/// The network's formula: its terms' names joined with ` + `, e.g.
/// `phi(a) + phi(b) + phi(ab)`.
pub fn formula(terms: &Vec<PhiTerm>) -> (r: String)
    ensures
        r@ == formula_spec(term_indices_view(terms@)),
{
    let ghost all = term_indices_view(terms@);
    let mut out = String::new();
    let mut i: usize = 0;
    while i < terms.len()
        invariant
            i <= terms@.len(),
            all == term_indices_view(terms@),
            out@ == formula_spec(all.take(i as int)),
        decreases terms@.len() - i,
    {
        let ghost t = all.take(i + 1);
        proof {
            assert(t.drop_last() == all.take(i as int));
            assert(t.last() == terms@[i as int].input_indices@);
        }
        if i > 0 {
            out.push(' ');
            out.push('+');
            out.push(' ');
            proof {
                reveal_strlit(" + ");
                assert(" + "@ == seq![' ', '+', ' ']);
            }
        } else {
            proof {
                assert(formula_spec(all.take(0)) == Seq::<char>::empty());
                assert(t.len() == 1 && t[0] == t.last());
            }
        }
        let name = terms[i].name();
        crate::text::push_str(&mut out, name.as_str());
        proof {
            if i > 0 {
                assert(out@ == formula_spec(all.take(i as int)) + " + "@ + term_name_spec(t.last()));
            } else {
                assert(out@ =~= Seq::<char>::empty() + term_name_spec(t.last()));
            }
        }
        i = i + 1;
    }
    proof {
        assert(all.take(i as int) == all);
    }
    out
}

proof fn lemma_join_str_push(ps: Seq<Seq<char>>, x: Seq<char>, p: Seq<char>)
    requires
        ps.len() > 0,
    ensures
        join_str_spec(ps.push(x), p) == join_str_spec(ps, p) + p + x,
    decreases ps.len(),
{
    if ps.len() == 1 {
        let q = ps.push(x);
        assert(q.drop_first() =~= seq![x]);
        assert(join_str_spec(seq![x], p) == x);
        assert(q[0] == ps[0]);
        assert(join_str_spec(q, p) == q[0] + p + join_str_spec(q.drop_first(), p));
        assert(join_str_spec(ps, p) == ps[0]);
    } else {
        let rest = ps.drop_first();
        assert(ps.push(x).drop_first() =~= rest.push(x));
        assert(ps.push(x)[0] == ps[0]);
        lemma_join_str_push(rest, x, p);
        assert(join_str_spec(ps, p) == ps[0] + p + join_str_spec(rest, p));
        assert(join_str_spec(ps.push(x), p) == ps[0] + p + join_str_spec(rest.push(x), p));
        assert(ps[0] + p + (join_str_spec(rest, p) + p + x) =~= (ps[0] + p + join_str_spec(rest, p)) + p
            + x);
    }
}

pub open spec fn term_names(terms: Seq<Seq<usize>>) -> Seq<Seq<char>> {
    terms.map_values(|t: Seq<usize>| term_name_spec(t))
}

proof fn lemma_formula_joins_names(terms: Seq<Seq<usize>>)
    ensures
        formula_spec(terms) == join_str_spec(term_names(terms), " + "@),
    decreases terms.len(),
{
    if terms.len() == 0 {
        assert(term_names(terms) =~= Seq::<Seq<char>>::empty());
    } else if terms.len() == 1 {
        assert(term_names(terms) =~= seq![term_name_spec(terms[0])]);
    } else {
        let init = terms.drop_last();
        lemma_formula_joins_names(init);
        assert(term_names(terms) =~= term_names(init).push(term_name_spec(terms.last())));
        lemma_join_str_push(term_names(init), term_name_spec(terms.last()), " + "@);
    }
}

proof fn lemma_variables_lack_space(indices: Seq<usize>)
    ensures
        lacks_char(variables_spec(indices), ' '),
    decreases indices.len(),
{
    if indices.len() > 0 {
        let init = indices.drop_last();
        lemma_variables_lack_space(init);
        let v = variables_spec(init);
        let k = indices.last() as nat;
        let name = variable_name_spec(k);
        assert(lacks_char(name, ' ')) by {
            if k < 26 {
                let x = (97 + k) as u8;
                assert(97 <= x <= 122);
                assert(name == seq![crate::labels::letter(k)]);
            } else {
                crate::text::lemma_decimal_digits(k);
                let d = decimal(k);
                assert(name == seq!['x'] + d);
                assert forall|i: int| 0 <= i < name.len() implies name[i] != ' ' by {
                    if i > 0 {
                        assert(name[i] == d[i - 1]);
                        assert(crate::text::is_digit(d[i - 1]));
                    }
                }
            }
        }
        let all = variables_spec(indices);
        assert(all == v + name);
        assert forall|i: int| 0 <= i < all.len() implies all[i] != ' ' by {
            if i < v.len() {
                assert(all[i] == v[i]);
            } else {
                assert(all[i] == name[i - v.len()]);
            }
        }
    }
}

/// The formula splits back on ` + ` into the names of its terms, one per term, in
/// order.
pub proof fn formula_lists_every_term(terms: Seq<Seq<usize>>)
    requires
        terms.len() > 0,
    ensures
        split_str_spec(formula_spec(terms), " + "@) == term_names(terms),
{
    reveal_strlit(" + ");
    reveal_strlit("phi(");
    reveal_strlit(")");
    lemma_formula_joins_names(terms);
    let names = term_names(terms);
    assert forall|j: int| 0 <= j < names.len() implies lacks_char(#[trigger] names[j], " + "@[0]) by {
        lemma_variables_lack_space(terms[j]);
        let v = variables_spec(terms[j]);
        let n = names[j];
        assert(n == "phi("@ + v + ")"@);
        assert forall|i: int| 0 <= i < n.len() implies n[i] != ' ' by {
            if 4 <= i < 4 + v.len() {
                assert(n[i] == v[i - 4]);
            }
        }
    }
    lemma_split_str_join(names, " + "@);
}

} // verus!
