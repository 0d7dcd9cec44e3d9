//! The order of strings (`String`'s `Ord`: code point by code point, a proper prefix
//! first) and sorted collections of distinct strings, as `BTreeSet<String>` keeps them.
use vstd::prelude::*;
use crate::text::{char_views, chars_of};

verus! {

/// `a` sorts strictly before `b`.
pub open spec fn str_lt(a: Seq<char>, b: Seq<char>) -> bool
    decreases a.len(),
{
    if a.len() == 0 {
        b.len() > 0
    } else if b.len() == 0 {
        false
    } else if a[0] != b[0] {
        a[0] < b[0]
    } else {
        str_lt(a.drop_first(), b.drop_first())
    }
}

pub proof fn lemma_str_lt_irreflexive(a: Seq<char>)
    ensures
        !str_lt(a, a),
    decreases a.len(),
{
    if a.len() > 0 {
        lemma_str_lt_irreflexive(a.drop_first());
    }
}

pub proof fn lemma_str_lt_transitive(a: Seq<char>, b: Seq<char>, c: Seq<char>)
    requires
        str_lt(a, b),
        str_lt(b, c),
    ensures
        str_lt(a, c),
    decreases a.len(),
{
    if a.len() > 0 && b.len() > 0 && c.len() > 0 {
        if a[0] == b[0] && b[0] == c[0] {
            lemma_str_lt_transitive(a.drop_first(), b.drop_first(), c.drop_first());
        }
    }
}

pub proof fn lemma_str_lt_total(a: Seq<char>, b: Seq<char>)
    ensures
        a == b || str_lt(a, b) || str_lt(b, a),
    decreases a.len(),
{
    if a.len() > 0 && b.len() > 0 {
        if a[0] == b[0] {
            lemma_str_lt_total(a.drop_first(), b.drop_first());
            if a.drop_first() == b.drop_first() {
                assert(a == seq![a[0]] + a.drop_first());
                assert(b == seq![b[0]] + b.drop_first());
            }
        }
    } else if a.len() == 0 && b.len() == 0 {
        assert(a == b);
    }
}

pub proof fn lemma_str_lt_asymmetric(a: Seq<char>, b: Seq<char>)
    requires
        str_lt(a, b),
    ensures
        !str_lt(b, a),
        a != b,
{
    if str_lt(b, a) {
        lemma_str_lt_transitive(a, b, a);
        lemma_str_lt_irreflexive(a);
    }
    if a == b {
        lemma_str_lt_irreflexive(a);
    }
}

/// `a < b` on strings.
pub fn str_less(a: &str, b: &str) -> (r: bool)
    ensures
        r == str_lt(a@, b@),
{
    let x = chars_of(a);
    let y = chars_of(b);
    let mut i: usize = 0;
    proof {
        assert(a@.skip(0) == a@);
        assert(b@.skip(0) == b@);
    }
    while i < x.len() && i < y.len() && x[i] == y[i]
        invariant
            i <= x@.len(),
            i <= y@.len(),
            x@ == a@,
            y@ == b@,
            str_lt(a@, b@) == str_lt(a@.skip(i as int), b@.skip(i as int)),
        decreases x@.len() - i,
    {
        proof {
            let s = a@.skip(i as int);
            let t = b@.skip(i as int);
            assert(s.drop_first() == a@.skip(i + 1));
            assert(t.drop_first() == b@.skip(i + 1));
        }
        i = i + 1;
    }
    let ghost s = a@.skip(i as int);
    let ghost t = b@.skip(i as int);
    if i == x.len() {
        proof {
            assert(s.len() == 0);
        }
        i < y.len()
    } else if i == y.len() {
        false
    } else {
        proof {
            assert(s[0] == x@[i as int]);
            assert(t[0] == y@[i as int]);
        }
        x[i] < y[i]
    }
}

/// Strictly increasing: sorted, without repetitions.
pub open spec fn sorted_strict(s: Seq<Seq<char>>) -> bool {
    forall|i: int, j: int| 0 <= i < j < s.len() ==> str_lt(#[trigger] s[i], #[trigger] s[j])
}

/// Where `item` stands in a strictly increasing list of strings: every string before
/// the position sorts before `item`; the position holds `item` when the list has
/// it, and otherwise every string from the position on sorts after it.
pub fn find_position(set: &Vec<String>, item: &str) -> (r: (usize, bool))
    requires
        sorted_strict(char_views(set@)),
    ensures
        r.0 <= set@.len(),
        forall|k: int| 0 <= k < r.0 ==> str_lt(#[trigger] set@[k]@, item@),
        r.1 <==> char_views(set@).contains(item@),
        r.1 ==> r.0 < set@.len() && set@[r.0 as int]@ == item@,
        !r.1 ==> forall|k: int| r.0 <= k < set@.len() ==> str_lt(item@, #[trigger] set@[k]@),
{
    let ghost before = char_views(set@);
    let mut i: usize = 0;
    while i < set.len() && str_less(set[i].as_str(), item)
        invariant
            i <= set@.len(),
            before == char_views(set@),
            sorted_strict(before),
            forall|k: int| 0 <= k < i ==> str_lt(#[trigger] set@[k]@, item@),
        decreases set@.len() - i,
    {
        i = i + 1;
    }
    proof {
        assert forall|k: int| 0 <= k < i implies before[k] != item@ by {
            assert(before[k] == set@[k]@);
            lemma_str_lt_asymmetric(before[k], item@);
        }
    }
    if i < set.len() && str_equal(set[i].as_str(), item) {
        proof {
            assert(before[i as int] == item@);
        }
        return (i, true);
    }
    proof {
        if i < before.len() {
            assert(before[i as int] == set@[i as int]@);
            assert(!str_lt(before[i as int], item@));
            lemma_str_lt_total(before[i as int], item@);
            assert(str_lt(item@, before[i as int]));
        }
        assert forall|k: int| i <= k < set@.len() implies str_lt(item@, #[trigger] set@[k]@) by {
            assert(before[k] == set@[k]@);
            if k > i {
                lemma_str_lt_transitive(item@, before[i as int], before[k]);
            }
        }
        assert forall|k: int| 0 <= k < before.len() implies before[k] != item@ by {
            if k >= i {
                assert(before[k] == set@[k]@);
                lemma_str_lt_asymmetric(item@, before[k]);
            }
        }
    }
    (i, false)
}

/// Whether two strings hold the same characters.
pub fn str_equal(a: &str, b: &str) -> (r: bool)
    ensures
        r == (a@ == b@),
{
    let x = chars_of(a);
    let y = chars_of(b);
    if x.len() != y.len() {
        return false;
    }
    let mut i: usize = 0;
    while i < x.len()
        invariant
            i <= x@.len() == y@.len(),
            x@ == a@,
            y@ == b@,
            forall|k: int| 0 <= k < i ==> #[trigger] x@[k] == y@[k],
        decreases x@.len() - i,
    {
        if x[i] != y[i] {
            return false;
        }
        i = i + 1;
    }
    proof {
        assert(x@ =~= y@);
    }
    true
}

/// Inserting `item` at position `i` of a strictly increasing list, where it sorts
/// after everything before `i` and before everything from `i` on, keeps the list
/// strictly increasing and adds `item` to its set.
pub proof fn lemma_insert_sorted(before: Seq<Seq<char>>, i: int, item: Seq<char>)
    requires
        sorted_strict(before),
        0 <= i <= before.len(),
        forall|k: int| 0 <= k < i ==> str_lt(#[trigger] before[k], item),
        forall|k: int| i <= k < before.len() ==> str_lt(item, #[trigger] before[k]),
    ensures
        sorted_strict(before.insert(i, item)),
        before.insert(i, item).to_set() == before.to_set().insert(item),
{
    let after = before.insert(i, item);
    assert forall|a: int, b: int| 0 <= a < b < after.len() implies str_lt(
        #[trigger] after[a],
        #[trigger] after[b],
    ) by {
        if b < i {
        } else if a < i && b == i {
        } else if a < i && b > i {
            assert(after[b] == before[b - 1]);
            lemma_str_lt_transitive(after[a], item, after[b]);
        } else if a == i {
            assert(after[b] == before[b - 1]);
        } else {
            assert(after[a] == before[a - 1]);
            assert(after[b] == before[b - 1]);
        }
    }
    assert(after.to_set() =~= before.to_set().insert(item)) by {
        assert forall|x: Seq<char>| after.to_set().contains(x) implies before.to_set().insert(
            item,
        ).contains(x) by {
            let k = choose|k: int| 0 <= k < after.len() && after[k] == x;
            if k < i {
                assert(before[k] == x);
            } else if k > i {
                assert(before[k - 1] == x);
            }
        }
        assert forall|x: Seq<char>| before.to_set().insert(item).contains(x) implies after.to_set().contains(x) by {
            if x == item {
                assert(after[i] == x);
            } else {
                let k = choose|k: int| 0 <= k < before.len() && before[k] == x;
                if k < i {
                    assert(after[k] == x);
                } else {
                    assert(after[k + 1] == x);
                }
            }
        }
    }
}

/// Adds `item` to a strictly increasing list of strings, keeping it strictly
/// increasing (`BTreeSet::insert`); returns whether it was new.
pub fn insert_sorted(set: &mut Vec<String>, item: String) -> (added: bool)
    requires
        sorted_strict(char_views(old(set)@)),
    ensures
        sorted_strict(char_views(final(set)@)),
        char_views(final(set)@).to_set() == char_views(old(set)@).to_set().insert(item@),
        added <==> !char_views(old(set)@).contains(item@),
{
    let ghost before = char_views(set@);
    let (i, found) = find_position(set, item.as_str());
    if found {
        proof {
            assert(before[i as int] == item@);
            assert(before.to_set().insert(item@) =~= before.to_set());
        }
        return false;
    }
    let ghost item_view = item@;
    proof {
        assert forall|k: int| 0 <= k < i implies str_lt(#[trigger] before[k], item_view) by {
            assert(before[k] == set@[k]@);
        }
        assert forall|k: int| i <= k < before.len() implies str_lt(
            item_view,
            #[trigger] before[k],
        ) by {
            assert(before[k] == set@[k]@);
        }
        lemma_insert_sorted(before, i as int, item_view);
    }
    set.insert(i, item);
    proof {
        assert(char_views(set@) =~= before.insert(i as int, item_view));
    }
    true
}

} // verus!
