//! The product terms of a phi network: every combination of inputs, by degree,
//! each listed as its input positions in increasing order.
use vstd::prelude::*;

verus! {

/// The combinations of `d` positions from `start..n`, as increasing sequences in
/// lexicographic order: first those that take `start`, then those that do not.
pub open spec fn combos_from(start: nat, n: nat, d: nat) -> Seq<Seq<usize>>
    decreases n - start,
{
    if d == 0 {
        seq![Seq::<usize>::empty()]
    } else if start >= n {
        Seq::empty()
    } else {
        combos_from(start + 1, n, (d - 1) as nat).map_values(
            |c: Seq<usize>| seq![start as usize] + c,
        ) + combos_from(start + 1, n, d)
    }
}

/// The terms of a network over `n` inputs trained up to degree `max_degree`: the
/// combinations of degree 1, then of degree 2, and so on.
pub open spec fn terms_upto(n: nat, degrees: nat) -> Seq<Seq<usize>>
    decreases degrees,
{
    if degrees == 0 {
        Seq::empty()
    } else {
        terms_upto(n, (degrees - 1) as nat) + combos_from(0, n, degrees)
    }
}

/// The number of ways to choose `d` of `m` items.
pub open spec fn binomial(m: nat, d: nat) -> nat
    decreases m,
{
    if d == 0 {
        1
    } else if m == 0 {
        0
    } else {
        binomial((m - 1) as nat, (d - 1) as nat) + binomial((m - 1) as nat, d)
    }
}

pub open spec fn with_prefix(prefix: Seq<usize>, combos: Seq<Seq<usize>>) -> Seq<Seq<usize>> {
    combos.map_values(|c: Seq<usize>| prefix + c)
}

proof fn lemma_with_prefix_concat(prefix: Seq<usize>, a: Seq<Seq<usize>>, b: Seq<Seq<usize>>)
    ensures
        with_prefix(prefix, a + b) == with_prefix(prefix, a) + with_prefix(prefix, b),
{
    assert(with_prefix(prefix, a + b) =~= with_prefix(prefix, a) + with_prefix(prefix, b));
}

proof fn lemma_with_prefix_push(prefix: Seq<usize>, i: usize, combos: Seq<Seq<usize>>)
    ensures
        with_prefix(prefix.push(i), combos) == with_prefix(
            prefix,
            combos.map_values(|c: Seq<usize>| seq![i] + c),
        ),
{
    assert forall|k: int| 0 <= k < combos.len() implies #[trigger] with_prefix(
        prefix.push(i),
        combos,
    )[k] == with_prefix(prefix, combos.map_values(|c: Seq<usize>| seq![i] + c))[k] by {
        assert(prefix.push(i) + combos[k] =~= prefix + (seq![i] + combos[k]));
    }
    assert(with_prefix(prefix.push(i), combos) =~= with_prefix(
        prefix,
        combos.map_values(|c: Seq<usize>| seq![i] + c),
    ));
}

/// Appends, after `terms`, every combination of `degree - indices.len()` positions
/// from `start..n`, each preceded by `indices`.
fn add_combinations(
    n: usize,
    degree: usize,
    start: usize,
    indices: &mut Vec<usize>,
    terms: &mut Vec<Vec<usize>>,
)
    requires
        old(indices)@.len() <= degree,
        start <= n,
    ensures
        final(indices)@ == old(indices)@,
        terms_view(final(terms)@) == terms_view(old(terms)@) + with_prefix(
            old(indices)@,
            combos_from(start as nat, n as nat, (degree - old(indices)@.len()) as nat),
        ),
    decreases degree - old(indices)@.len(),
{
    let ghost prefix = indices@;
    let ghost before = terms_view(terms@);
    let ghost r = (degree - indices@.len()) as nat;
    if indices.len() == degree {
        let term = indices.clone();
        terms.push(term);
        proof {
            assert(terms_view(terms@) == before.push(term@));
            assert(with_prefix(prefix, seq![Seq::<usize>::empty()]) =~= seq![prefix]);
            assert(prefix + Seq::<usize>::empty() == prefix);
        }
        return;
    }
    let mut index = start;
    proof {
        assert(with_prefix(prefix, Seq::<Seq<usize>>::empty()) =~= Seq::<Seq<usize>>::empty());
    }
    while index < n
        invariant
            start <= index <= n,
            r >= 1,
            r == degree - prefix.len(),
            prefix.len() < degree,
            indices@ == prefix,
            prefix == old(indices)@,
            before + with_prefix(prefix, combos_from(start as nat, n as nat, r)) == terms_view(terms@)
                + with_prefix(prefix, combos_from(index as nat, n as nat, r)),
        decreases n - index,
    {
        indices.push(index);
        let ghost mid = terms_view(terms@);
        add_combinations(n, degree, index + 1, indices, terms);
        indices.pop();
        proof {
            assert(indices@ =~= prefix);
            let rest = combos_from((index + 1) as nat, n as nat, (r - 1) as nat);
            assert(degree - prefix.push(index).len() == r - 1);
            lemma_with_prefix_push(prefix, index, rest);
            lemma_with_prefix_concat(
                prefix,
                rest.map_values(|c: Seq<usize>| seq![index as usize] + c),
                combos_from((index + 1) as nat, n as nat, r),
            );
        }
        index = index + 1;
    }
    proof {
        assert(combos_from(n as nat, n as nat, r) == Seq::<Seq<usize>>::empty());
        assert(with_prefix(prefix, Seq::<Seq<usize>>::empty()) =~= Seq::<Seq<usize>>::empty());
    }
}

pub open spec fn terms_view(terms: Seq<Vec<usize>>) -> Seq<Seq<usize>> {
    terms.map_values(|t: Vec<usize>| t@)
}

/// The combinations of `degree` positions out of `n`, in lexicographic order.
pub fn term_combinations(n: usize, degree: usize) -> (r: Vec<Vec<usize>>)
    ensures
        terms_view(r@) == combos_from(0, n as nat, degree as nat),
{
    let mut indices: Vec<usize> = Vec::new();
    let mut terms: Vec<Vec<usize>> = Vec::new();
    add_combinations(n, degree, 0, &mut indices, &mut terms);
    proof {
        assert(terms_view(Seq::<Vec<usize>>::empty()) =~= Seq::<Seq<usize>>::empty());
        let c = combos_from(0, n as nat, degree as nat);
        assert(with_prefix(Seq::<usize>::empty(), c) =~= c) by {
            assert forall|k: int| 0 <= k < c.len() implies #[trigger] with_prefix(
                Seq::<usize>::empty(),
                c,
            )[k] == c[k] by {
                assert(Seq::<usize>::empty() + c[k] =~= c[k]);
            }
        }
    }
    terms
}

/// The terms a network over `n` inputs builds when trained up to degree
/// `max_degree`: the combinations of each degree from one to `min(max_degree, n)`.
pub fn term_positions(n: usize, max_degree: usize) -> (r: Vec<Vec<usize>>)
    ensures
        terms_view(r@) == terms_upto(n as nat, if max_degree < n { max_degree as nat } else { n as nat }),
{
    let top = if max_degree < n {
        max_degree
    } else {
        n
    };
    let mut terms: Vec<Vec<usize>> = Vec::new();
    let mut done: usize = 0;
    proof {
        assert(terms_view(terms@) =~= terms_upto(n as nat, 0));
    }
    while done < top
        invariant
            done <= top,
            top <= n,
            terms_view(terms@) == terms_upto(n as nat, done as nat),
        decreases top - done,
    {
        let degree = done + 1;
        let mut indices: Vec<usize> = Vec::new();
        add_combinations(n, degree, 0, &mut indices, &mut terms);
        proof {
            let c = combos_from(0, n as nat, degree as nat);
            assert(with_prefix(Seq::<usize>::empty(), c) =~= c) by {
                assert forall|k: int| 0 <= k < c.len() implies #[trigger] with_prefix(
                    Seq::<usize>::empty(),
                    c,
                )[k] == c[k] by {
                    assert(Seq::<usize>::empty() + c[k] =~= c[k]);
                }
            }
        }
        done = degree;
    }
    terms
}

/// There are `binomial(n - start, d)` combinations of `d` positions from
/// `start..n`.
pub proof fn combinations_are_counted(start: nat, n: nat, d: nat)
    requires
        start <= n,
    ensures
        combos_from(start, n, d).len() == binomial((n - start) as nat, d),
    decreases n - start,
{
    if d > 0 && start < n {
        combinations_are_counted(start + 1, n, (d - 1) as nat);
        combinations_are_counted(start + 1, n, d);
    }
}

/// `c` has `d` positions, strictly increasing, each in `lo..hi`.
pub open spec fn increasing_within(c: Seq<usize>, lo: nat, hi: nat, d: nat) -> bool {
    &&& c.len() == d
    &&& forall|a: int| 0 <= a < c.len() ==> lo <= #[trigger] c[a] < hi
    &&& forall|a: int, b: int| 0 <= a < b < c.len() ==> #[trigger] c[a] < #[trigger] c[b]
}

/// Every combination of `d` positions from `start..n` has `d` positions, strictly
/// increasing, each in `start..n`.
pub proof fn combinations_are_increasing(start: nat, n: nat, d: nat)
    requires
        n <= usize::MAX,
    ensures
        forall|k: int|
            0 <= k < combos_from(start, n, d).len() ==> increasing_within(
                #[trigger] combos_from(start, n, d)[k],
                start,
                n,
                d,
            ),
    decreases n - start,
{
    if d > 0 && start < n {
        combinations_are_increasing(start + 1, n, (d - 1) as nat);
        combinations_are_increasing(start + 1, n, d);
        let left = combos_from(start + 1, n, (d - 1) as nat);
        let with_start = left.map_values(|c: Seq<usize>| seq![start as usize] + c);
        let right = combos_from(start + 1, n, d);
        let all = combos_from(start, n, d);
        assert(all == with_start + right);
        assert forall|k: int| 0 <= k < all.len() implies increasing_within(
            #[trigger] all[k],
            start,
            n,
            d,
        ) by {
            if k < with_start.len() {
                let t = left[k];
                assert(increasing_within(t, start + 1, n, (d - 1) as nat));
                let c = seq![start as usize] + t;
                assert(all[k] == c);
                assert forall|a: int| 0 <= a < c.len() implies start <= #[trigger] c[a] < n by {
                    if a > 0 {
                        assert(c[a] == t[a - 1]);
                    }
                }
                assert forall|a: int, b: int| 0 <= a < b < c.len() implies #[trigger] c[a]
                    < #[trigger] c[b] by {
                    assert(c[b] == t[b - 1]);
                    if a > 0 {
                        assert(c[a] == t[a - 1]);
                    }
                }
            } else {
                assert(all[k] == right[k - with_start.len()]);
                assert(increasing_within(right[k - with_start.len()], start + 1, n, d));
            }
        }
    }
}

} // verus!
