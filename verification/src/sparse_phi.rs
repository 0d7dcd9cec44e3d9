//! Bookkeeping of the sparse phi classifiers: which kind a mode trains, how term keys
//! are written to and read from the phi state file, and how they are carried over to
//! a new vocabulary.
use vstd::prelude::*;
use crate::chatbot::ChatModelMode;
use crate::text::{
    char_views, decimal, join_spec, lemma_parse_decimal, lemma_split_join, parse_usize_spec,
    split_spec,
};

verus! {

/// Whether a sparse classifier learns one scalar weight or one curve per term.
#[derive(Clone, Copy, Debug, PartialEq, Eq, Structural)]
pub enum SparsePhiKind {
    Scalar,
    Curve,
}

impl SparsePhiKind {
    /// The sparse kind a mode trains; `None` for the dense mode.
    pub fn for_mode(mode: ChatModelMode) -> (r: Option<Self>)
        ensures
            r == (match mode {
                ChatModelMode::DenseCurve => None,
                ChatModelMode::SparseScalar => Some(SparsePhiKind::Scalar),
                ChatModelMode::SparseCurve => Some(SparsePhiKind::Curve),
            }),
    {
        match mode {
            ChatModelMode::DenseCurve => None,
            ChatModelMode::SparseScalar => Some(SparsePhiKind::Scalar),
            ChatModelMode::SparseCurve => Some(SparsePhiKind::Curve),
        }
    }
}

pub open spec fn decimals(values: Seq<usize>) -> Seq<Seq<char>> {
    values.map_values(|v: usize| decimal(v as nat))
}

/// A term key as written to the phi state file: decimal indices separated by commas.
pub open spec fn index_list_spec(values: Seq<usize>) -> Seq<char> {
    join_spec(decimals(values), ',')
}

/// Reading a term key: the empty string is the empty key; otherwise every
/// comma-separated field must be a `usize`.
pub open spec fn parse_index_list_spec(encoded: Seq<char>) -> Option<Seq<usize>> {
    if encoded.len() == 0 {
        Some(Seq::empty())
    } else {
        let fields = split_spec(encoded, ',');
        if forall|i: int| 0 <= i < fields.len() ==> #[trigger] parse_usize_spec(fields[i]) is Some {
            Some(Seq::new(fields.len(), |i: int| parse_usize_spec(fields[i])->0))
        } else {
            None
        }
    }
}

/// Writes a term key as comma-separated decimal indices.
pub fn format_index_list(values: &[usize]) -> (r: String)
    ensures
        r@ == index_list_spec(values@),
{
    let mut out = String::new();
    if values.len() == 0 {
        return out;
    }
    crate::text::push_decimal(values[0], &mut out);
    let ghost parts = decimals(values@);
    proof {
        assert(out@ == parts[0]);
        assert(parts.drop_first() == parts.skip(1));
    }
    let mut i: usize = 1;
    while i < values.len()
        invariant
            1 <= i <= values@.len(),
            parts == decimals(values@),
            join_spec(parts, ',') == out@ + crate::text::join_tail(parts.skip(i as int), ','),
        decreases values@.len() - i,
    {
        let ghost rest = parts.skip(i as int);
        let ghost before = out@;
        proof {
            assert(rest[0] == parts[i as int]);
            assert(rest.drop_first() == parts.skip(i + 1));
        }
        out.push(',');
        crate::text::push_decimal(values[i], &mut out);
        proof {
            assert(out@ == before + (seq![','] + parts[i as int]));
        }
        i = i + 1;
    }
    proof {
        assert(parts.skip(i as int) == Seq::<Seq<char>>::empty());
    }
    out
}

/// Reads a term key written by `format_index_list`.
pub fn parse_index_list(encoded: &str) -> (r: Option<Vec<usize>>)
    ensures
        r is Some <==> parse_index_list_spec(encoded@) is Some,
        r matches Some(v) ==> parse_index_list_spec(encoded@) == Some(v@),
{
    if encoded.is_empty() {
        return Some(Vec::new());
    }
    let fields = crate::text::split_char(encoded, ',');
    let ghost fv = char_views(fields@);
    let mut out: Vec<usize> = Vec::new();
    let mut i: usize = 0;
    while i < fields.len()
        invariant
            i <= fields@.len(),
            fv == char_views(fields@),
            fv == split_spec(encoded@, ','),
            encoded@.len() != 0,
            out@.len() == i,
            forall|k: int| 0 <= k < i ==> #[trigger] parse_usize_spec(fv[k]) == Some(out@[k]),
        decreases fields@.len() - i,
    {
        proof {
            assert(fv[i as int] == fields@[i as int]@);
        }
        match crate::text::parse_usize(fields[i].as_str()) {
            Some(value) => {
                out.push(value);
            },
            None => {
                proof {
                    assert(parse_usize_spec(fv[i as int]) is None);
                    assert(encoded@.len() != 0);
                    assert(!(forall|k: int|
                        0 <= k < fv.len() ==> #[trigger] parse_usize_spec(fv[k]) is Some));
                }
                return None;
            },
        }
        i = i + 1;
    }
    proof {
        let d = parse_index_list_spec(encoded@);
        assert(d is Some);
        assert(d->0 =~= out@);
    }
    Some(out)
}

/// A term key survives a write and a read: `parse_index_list(format_index_list(v))`
/// is `Some(v)` for every list of indices.
pub proof fn index_list_round_trip(values: Seq<usize>)
    ensures
        parse_index_list_spec(index_list_spec(values)) == Some(values),
{
    let parts = decimals(values);
    if values.len() == 0 {
        assert(index_list_spec(values) == Seq::<char>::empty());
        assert(values == Seq::<usize>::empty());
    } else {
        assert forall|i: int, j: int| 0 <= i < parts.len() && 0 <= j < parts[i].len() implies #[trigger] parts[i][j] != ',' by {
            crate::text::lemma_decimal_digits(values[i] as nat);
            assert(crate::text::is_digit(parts[i][j]));
        }
        lemma_split_join(parts, ',');
        crate::text::lemma_decimal_digits(values[0] as nat);
        assert(index_list_spec(values).len() > 0);
        let fields = split_spec(index_list_spec(values), ',');
        assert(fields == parts);
        assert forall|i: int| 0 <= i < fields.len() implies #[trigger] parse_usize_spec(
            fields[i],
        ) == Some(values[i]) by {
            lemma_parse_decimal(values[i]);
        }
        let d = parse_index_list_spec(index_list_spec(values));
        assert(d->0 =~= values);
    }
}

/// A term key of the stored vocabulary, rewritten against the current one: each
/// index names a feature of `snapshot_vocabulary`, and is replaced by an index of
/// the same feature in `current_vocabulary`.
pub open spec fn remaps_to(
    term_key: Seq<usize>,
    snapshot_vocabulary: Seq<Seq<char>>,
    current_vocabulary: Seq<Seq<char>>,
    result: Seq<usize>,
) -> bool {
    &&& result.len() == term_key.len()
    &&& forall|k: int|
        0 <= k < term_key.len() ==> {
            &&& #[trigger] term_key[k] < snapshot_vocabulary.len()
            &&& result[k] < current_vocabulary.len()
            &&& current_vocabulary[result[k] as int] == snapshot_vocabulary[term_key[k] as int]
        }
}

/// Some remapping exists: every index names a stored feature that the current
/// vocabulary also holds.
pub open spec fn remappable(
    term_key: Seq<usize>,
    snapshot_vocabulary: Seq<Seq<char>>,
    current_vocabulary: Seq<Seq<char>>,
) -> bool {
    forall|k: int|
        0 <= k < term_key.len() ==> #[trigger] term_key[k] < snapshot_vocabulary.len()
            && current_vocabulary.contains(snapshot_vocabulary[term_key[k] as int])
}

/// The position of `feature` in `vocabulary`, if it occurs there.
fn find_feature(vocabulary: &[String], feature: &String) -> (r: Option<usize>)
    ensures
        r is Some <==> char_views(vocabulary@).contains(feature@),
        r matches Some(i) ==> i < vocabulary@.len() && vocabulary@[i as int]@ == feature@,
        r matches Some(i) ==> forall|k: int| 0 <= k < i ==> #[trigger] vocabulary@[k]@ != feature@,
{
    let mut i: usize = 0;
    while i < vocabulary.len()
        invariant
            i <= vocabulary@.len(),
            forall|k: int| 0 <= k < i ==> #[trigger] vocabulary@[k]@ != feature@,
        decreases vocabulary@.len() - i,
    {
        if vocabulary[i] == *feature {
            proof {
                assert(char_views(vocabulary@)[i as int] == feature@);
            }
            return Some(i);
        }
        i = i + 1;
    }
    proof {
        if char_views(vocabulary@).contains(feature@) {
            let k = choose|k: int|
                0 <= k < char_views(vocabulary@).len() && char_views(vocabulary@)[k] == feature@;
            assert(vocabulary@[k]@ == feature@);
        }
    }
    None
}

/// Rewrites a stored term key against the current vocabulary; `None` when one of
/// its features is unknown to the stored or to the current vocabulary.
pub fn remap_term_key(
    term_key: &[usize],
    snapshot_vocabulary: &[String],
    current_vocabulary: &[String],
) -> (r: Option<Vec<usize>>)
    ensures
        r is Some <==> remappable(
            term_key@,
            char_views(snapshot_vocabulary@),
            char_views(current_vocabulary@),
        ),
        r matches Some(v) ==> remaps_to(
            term_key@,
            char_views(snapshot_vocabulary@),
            char_views(current_vocabulary@),
            v@,
        ),
{
    let ghost sv = char_views(snapshot_vocabulary@);
    let ghost cv = char_views(current_vocabulary@);
    let mut out: Vec<usize> = Vec::new();
    let mut i: usize = 0;
    while i < term_key.len()
        invariant
            i <= term_key@.len(),
            sv == char_views(snapshot_vocabulary@),
            cv == char_views(current_vocabulary@),
            out@.len() == i,
            forall|k: int|
                0 <= k < i ==> {
                    &&& #[trigger] term_key@[k] < sv.len()
                    &&& out@[k] < cv.len()
                    &&& cv[out@[k] as int] == sv[term_key@[k] as int]
                },
        decreases term_key@.len() - i,
    {
        let index = term_key[i];
        if index >= snapshot_vocabulary.len() {
            return None;
        }
        match find_feature(current_vocabulary, &snapshot_vocabulary[index]) {
            Some(position) => {
                out.push(position);
            },
            None => {
                return None;
            },
        }
        i = i + 1;
    }
    proof {
        assert forall|k: int| 0 <= k < term_key@.len() implies #[trigger] term_key@[k] < sv.len()
            && cv.contains(sv[term_key@[k] as int]) by {
            assert(cv[out@[k] as int] == sv[term_key@[k] as int]);
        }
    }
    Some(out)
}

/// The learned terms of one response class as stored: a weight or a curve, of
/// any type, per term key.
pub struct SparseSnapshotState<W, C> {
    pub weights: Vec<(Vec<usize>, W)>,
    pub curves: Vec<(Vec<usize>, C)>,
}

/// The position of the first `x` in `v`, or `v.len()` when there is none.
pub open spec fn position_in(v: Seq<Seq<char>>, x: Seq<char>) -> nat
    decreases v.len(),
{
    if v.len() == 0 || v[0] == x {
        0
    } else {
        1 + position_in(v.drop_first(), x)
    }
}

pub proof fn lemma_position_in(v: Seq<Seq<char>>, x: Seq<char>, i: int)
    requires
        0 <= i < v.len(),
        v[i] == x,
        forall|k: int| 0 <= k < i ==> v[k] != x,
    ensures
        position_in(v, x) == i,
    decreases i,
{
    if i > 0 {
        let t = v.drop_first();
        assert forall|k: int| 0 <= k < i - 1 implies t[k] != x by {
            assert(t[k] == v[k + 1]);
        }
        lemma_position_in(t, x, i - 1);
    }
}

/// Every key of the entries can be remapped.
pub open spec fn entries_remappable<T>(entries: Seq<(Vec<usize>, T)>, sv: Seq<Seq<char>>, cv: Seq<Seq<char>>) -> bool {
    forall|t: int| 0 <= t < entries.len() ==> remappable((#[trigger] entries[t]).0@, sv, cv)
}

/// `out` holds the entries of `src`, in order, with their values and their keys
/// remapped.
pub open spec fn entries_remapped<T>(
    out: Seq<(Vec<usize>, T)>,
    src: Seq<(Vec<usize>, T)>,
    sv: Seq<Seq<char>>,
    cv: Seq<Seq<char>>,
) -> bool {
    &&& out.len() == src.len()
    &&& forall|t: int|
        0 <= t < out.len() ==> (#[trigger] out[t]).1 == src[t].1 && remaps_to(
            src[t].0@,
            sv,
            cv,
            out[t].0@,
        )
}

/// Remaps the keys of stored entries, keeping their order and values; `None`
/// when a key cannot be remapped.
fn remap_entries<T>(entries: Vec<(Vec<usize>, T)>, sv: &[String], cv: &[String]) -> (r: Option<
    Vec<(Vec<usize>, T)>,
>)
    ensures
        r is Some <==> entries_remappable(entries@, char_views(sv@), char_views(cv@)),
        r matches Some(out) ==> entries_remapped(out@, entries@, char_views(sv@), char_views(cv@)),
{
    let ghost src = entries@;
    let mut rest = entries;
    let mut reversed: Vec<(Vec<usize>, T)> = Vec::new();
    while rest.len() > 0
        invariant
            rest@.len() + reversed@.len() == src.len(),
            rest@ == src.take(rest@.len() as int),
            forall|t: int| 0 <= t < reversed@.len() ==> #[trigger] reversed@[t] == src[src.len() - 1 - t],
        decreases rest@.len(),
    {
        let item = rest.pop().unwrap();
        reversed.push(item);
    }
    let mut out: Vec<(Vec<usize>, T)> = Vec::new();
    while reversed.len() > 0
        invariant
            src == entries@,
            reversed@.len() + out@.len() == src.len(),
            forall|t: int| 0 <= t < reversed@.len() ==> #[trigger] reversed@[t] == src[src.len() - 1 - t],
            entries_remapped(out@, src.take(out@.len() as int), char_views(sv@), char_views(cv@)),
            entries_remappable(src.take(out@.len() as int), char_views(sv@), char_views(cv@)),
        decreases reversed@.len(),
    {
        let (key, value) = reversed.pop().unwrap();
        let ghost t = out@.len();
        proof {
            assert((key, value) == src[t as int]);
        }
        let key_slice = key.as_slice();
        match remap_term_key(key_slice, sv, cv) {
            Some(new_key) => {
                out.push((new_key, value));
                proof {
                    let p = src.take(t as int + 1);
                    assert forall|u: int| 0 <= u < p.len() implies remappable(
                        (#[trigger] p[u]).0@,
                        char_views(sv@),
                        char_views(cv@),
                    ) by {
                        if u < t {
                            assert(p[u] == src.take(t as int)[u]);
                        }
                    }
                    assert forall|u: int| 0 <= u < out@.len() implies (#[trigger] out@[u]).1 == p[u].1
                        && remaps_to(p[u].0@, char_views(sv@), char_views(cv@), out@[u].0@) by {
                        if u < t {
                            assert(p[u] == src.take(t as int)[u]);
                        }
                    }
                }
            },
            None => {
                proof {
                    assert(key_slice@ == key@);
                    assert(src[t as int].0@ == key@);
                    assert(!remappable(src[t as int].0@, char_views(sv@), char_views(cv@)));
                    assert(!entries_remappable(src, char_views(sv@), char_views(cv@)));
                }
                return None;
            },
        }
    }
    proof {
        assert(src.take(src.len() as int) == src);
    }
    Some(out)
}

/// The entries stored for current response `j`: those of each stored response
/// class `i < k` whose response now stands at `j`, class by class.
pub open spec fn slot_weights<W, C>(states: Seq<SparseSnapshotState<W, C>>, positions: Seq<nat>, j: nat, k: nat) -> Seq<
    (Vec<usize>, W),
>
    decreases k,
{
    if k == 0 {
        Seq::empty()
    } else {
        slot_weights(states, positions, j, (k - 1) as nat) + if positions[k - 1] == j {
            states[k - 1].weights@
        } else {
            Seq::empty()
        }
    }
}

pub open spec fn slot_curves<W, C>(states: Seq<SparseSnapshotState<W, C>>, positions: Seq<nat>, j: nat, k: nat) -> Seq<
    (Vec<usize>, C),
>
    decreases k,
{
    if k == 0 {
        Seq::empty()
    } else {
        slot_curves(states, positions, j, (k - 1) as nat) + if positions[k - 1] == j {
            states[k - 1].curves@
        } else {
            Seq::empty()
        }
    }
}

/// Where each stored response class stands among the current ones.
pub open spec fn response_positions(sr: Seq<Seq<char>>, cr: Seq<Seq<char>>) -> Seq<nat> {
    Seq::new(sr.len(), |i: int| position_in(cr, sr[i]))
}

/// A stored state can be read against the current vocabularies: every stored
/// response is a current one, and every key of the stored classes (those with a
/// state) can be remapped.
pub open spec fn snapshot_remappable<W, C>(
    states: Seq<SparseSnapshotState<W, C>>,
    sv: Seq<Seq<char>>,
    sr: Seq<Seq<char>>,
    cv: Seq<Seq<char>>,
    cr: Seq<Seq<char>>,
) -> bool {
    &&& forall|i: int| 0 <= i < sr.len() ==> cr.contains(#[trigger] sr[i])
    &&& forall|i: int|
        0 <= i < sr.len() && i < states.len() ==> entries_remappable(
            (#[trigger] states[i]).weights@,
            sv,
            cv,
        ) && entries_remappable(states[i].curves@, sv, cv)
}

fn empty_state<W, C>() -> (r: SparseSnapshotState<W, C>)
    ensures
        r.weights@ == Seq::<(Vec<usize>, W)>::empty(),
        r.curves@ == Seq::<(Vec<usize>, C)>::empty(),
{
    SparseSnapshotState { weights: Vec::new(), curves: Vec::new() }
}

/// Moves stored sparse states from the stored vocabularies onto the current ones:
/// the state of each stored response class goes to the position of that response
/// among the current ones, its term keys remapped, in stored class order; `None`
/// when a stored response or term feature is no longer known.
pub fn remap_sparse_snapshot_states<W, C>(
    states: Vec<SparseSnapshotState<W, C>>,
    snapshot_vocabulary: &[String],
    snapshot_responses: &[String],
    current_vocabulary: &[String],
    current_responses: &[String],
) -> (r: Option<Vec<SparseSnapshotState<W, C>>>)
    ensures
        r is Some <==> snapshot_remappable(
            states@,
            char_views(snapshot_vocabulary@),
            char_views(snapshot_responses@),
            char_views(current_vocabulary@),
            char_views(current_responses@),
        ),
        r matches Some(out) ==> {
            let sv = char_views(snapshot_vocabulary@);
            let cv = char_views(current_vocabulary@);
            let positions = response_positions(
                char_views(snapshot_responses@),
                char_views(current_responses@),
            );
            let k = if snapshot_responses@.len() < states@.len() {
                snapshot_responses@.len() as nat
            } else {
                states@.len() as nat
            };
            &&& out@.len() == current_responses@.len()
            &&& forall|j: int|
                0 <= j < out@.len() ==> entries_remapped(
                    (#[trigger] out@[j]).weights@,
                    slot_weights(states@, positions, j as nat, k),
                    sv,
                    cv,
                ) && entries_remapped(out@[j].curves@, slot_curves(states@, positions, j as nat, k), sv, cv)
        },
{
    let ghost sv = char_views(snapshot_vocabulary@);
    let ghost cv = char_views(current_vocabulary@);
    let ghost sr = char_views(snapshot_responses@);
    let ghost cr = char_views(current_responses@);
    let ghost positions = response_positions(sr, cr);
    let mut targets: Vec<usize> = Vec::new();
    let mut i: usize = 0;
    while i < snapshot_responses.len()
        invariant
            i <= snapshot_responses@.len(),
            sr == char_views(snapshot_responses@),
            cr == char_views(current_responses@),
            positions == response_positions(sr, cr),
            targets@.len() == i,
            forall|t: int| 0 <= t < i ==> cr.contains(#[trigger] sr[t]),
            forall|t: int| 0 <= t < i ==> #[trigger] targets@[t] == positions[t] && targets@[t] < cr.len(),
        decreases snapshot_responses@.len() - i,
    {
        match find_feature(current_responses, &snapshot_responses[i]) {
            Some(position) => {
                proof {
                    assert(sr[i as int] == snapshot_responses@[i as int]@);
                    assert forall|k: int| 0 <= k < position implies cr[k] != sr[i as int] by {
                        assert(cr[k] == current_responses@[k]@);
                    }
                    lemma_position_in(cr, sr[i as int], position as int);
                }
                targets.push(position);
            },
            None => {
                proof {
                    assert(sr[i as int] == snapshot_responses@[i as int]@);
                }
                return None;
            },
        }
        i = i + 1;
    }
    let mut out: Vec<SparseSnapshotState<W, C>> = Vec::new();
    let mut j: usize = 0;
    while j < current_responses.len()
        invariant
            j <= current_responses@.len(),
            out@.len() == j,
            forall|t: int|
                0 <= t < j ==> (#[trigger] out@[t]).weights@ == Seq::<(Vec<usize>, W)>::empty()
                    && out@[t].curves@ == Seq::<(Vec<usize>, C)>::empty(),
        decreases current_responses@.len() - j,
    {
        out.push(empty_state());
        j = j + 1;
    }
    let ghost src = states@;
    let n = states.len();
    let count = if snapshot_responses.len() < n {
        snapshot_responses.len()
    } else {
        n
    };
    let mut rest = states;
    let mut reversed: Vec<SparseSnapshotState<W, C>> = Vec::new();
    while rest.len() > 0
        invariant
            rest@.len() + reversed@.len() == src.len(),
            rest@ == src.take(rest@.len() as int),
            forall|t: int| 0 <= t < reversed@.len() ==> #[trigger] reversed@[t] == src[src.len() - 1 - t],
        decreases rest@.len(),
    {
        let item = rest.pop().unwrap();
        reversed.push(item);
    }
    let mut k: usize = 0;
    proof {
        assert forall|x: int| 0 <= x < out@.len() implies entries_remapped(
            (#[trigger] out@[x]).weights@,
            slot_weights(src, positions, x as nat, 0),
            sv,
            cv,
        ) && entries_remapped(out@[x].curves@, slot_curves(src, positions, x as nat, 0), sv, cv) by {}
    }
    while k < count
        invariant
            k <= count,
            count <= n,
            count <= snapshot_responses@.len(),
            n == src.len(),
            reversed@.len() == n - k,
            src == states@,
            forall|t: int| 0 <= t < reversed@.len() ==> #[trigger] reversed@[t] == src[n - 1 - t],
            targets@.len() == snapshot_responses@.len(),
            positions == response_positions(sr, cr),
            sr == char_views(snapshot_responses@),
            forall|t: int| 0 <= t < targets@.len() ==> #[trigger] targets@[t] == positions[t] && targets@[t] < cr.len(),
            forall|t: int| 0 <= t < sr.len() ==> cr.contains(#[trigger] sr[t]),
            out@.len() == current_responses@.len(),
            cr == char_views(current_responses@),
            sv == char_views(snapshot_vocabulary@),
            cv == char_views(current_vocabulary@),
            forall|t: int|
                0 <= t < k ==> entries_remappable((#[trigger] src[t]).weights@, sv, cv)
                    && entries_remappable(src[t].curves@, sv, cv),
            forall|x: int|
                0 <= x < out@.len() ==> entries_remapped(
                    (#[trigger] out@[x]).weights@,
                    slot_weights(src, positions, x as nat, k as nat),
                    sv,
                    cv,
                ) && entries_remapped(out@[x].curves@, slot_curves(src, positions, x as nat, k as nat), sv, cv),
        decreases count - k,
    {
        let state = reversed.pop().unwrap();
        proof {
            assert(state == src[k as int]);
        }
        let SparseSnapshotState { weights, curves } = state;
        proof {
            assert(weights@ == src[k as int].weights@);
            assert(curves@ == src[k as int].curves@);
        }
        let mut new_weights = match remap_entries(weights, snapshot_vocabulary, current_vocabulary) {
            Some(w) => w,
            None => {
                proof {
                    assert(!entries_remappable(src[k as int].weights@, sv, cv));
                }
                return None;
            },
        };
        let mut new_curves = match remap_entries(curves, snapshot_vocabulary, current_vocabulary) {
            Some(c) => c,
            None => {
                proof {
                    assert(!entries_remappable(src[k as int].curves@, sv, cv));
                }
                return None;
            },
        };
        let target = targets[k];
        let ghost before = out@;
        let mut slot = out.remove(target);
        let ghost old_w = slot.weights@;
        let ghost old_c = slot.curves@;
        let ghost nw = new_weights@;
        let ghost nc = new_curves@;
        slot.weights.append(&mut new_weights);
        slot.curves.append(&mut new_curves);
        out.insert(target, slot);
        proof {
            assert forall|x: int| 0 <= x < out@.len() implies entries_remapped(
                (#[trigger] out@[x]).weights@,
                slot_weights(src, positions, x as nat, (k + 1) as nat),
                sv,
                cv,
            ) && entries_remapped(
                out@[x].curves@,
                slot_curves(src, positions, x as nat, (k + 1) as nat),
                sv,
                cv,
            ) by {
                if x == target {
                    assert(out@[x] == slot);
                    assert(before[x].weights@ == old_w);
                    let pw = slot_weights(src, positions, x as nat, k as nat);
                    let pc = slot_curves(src, positions, x as nat, k as nat);
                    assert(slot_weights(src, positions, x as nat, (k + 1) as nat) == pw + src[k as int].weights@);
                    assert(slot_curves(src, positions, x as nat, (k + 1) as nat) == pc + src[k as int].curves@);
                    assert forall|t: int| 0 <= t < slot.weights@.len() implies (#[trigger] slot.weights@[t]).1
                        == (pw + src[k as int].weights@)[t].1 && remaps_to(
                        (pw + src[k as int].weights@)[t].0@,
                        sv,
                        cv,
                        slot.weights@[t].0@,
                    ) by {
                        if t >= old_w.len() {
                            let u = t - old_w.len();
                            assert(slot.weights@[t] == nw[u]);
                        }
                    }
                    assert forall|t: int| 0 <= t < slot.curves@.len() implies (#[trigger] slot.curves@[t]).1
                        == (pc + src[k as int].curves@)[t].1 && remaps_to(
                        (pc + src[k as int].curves@)[t].0@,
                        sv,
                        cv,
                        slot.curves@[t].0@,
                    ) by {
                        if t >= old_c.len() {
                            let u = t - old_c.len();
                            assert(slot.curves@[t] == nc[u]);
                        }
                    }
                } else {
                    assert(out@[x] == before[x]);
                    assert(slot_weights(src, positions, x as nat, (k + 1) as nat) == slot_weights(
                        src,
                        positions,
                        x as nat,
                        k as nat,
                    ) + Seq::<(Vec<usize>, W)>::empty());
                    assert(slot_curves(src, positions, x as nat, (k + 1) as nat) == slot_curves(
                        src,
                        positions,
                        x as nat,
                        k as nat,
                    ) + Seq::<(Vec<usize>, C)>::empty());
                }
            }
        }
        k = k + 1;
    }
    Some(out)
}

} // verus!
