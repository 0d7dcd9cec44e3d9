//! Recovering the quantized `phi_all` points from the public shares: every public
//! point is unmasked under its share's secret and looked up among the encodings
//! of the quantized values in range.
use vstd::prelude::*;
use crate::crypto::{g1_mul, g1_mul_spec, g1_unmask, g1_unmask_spec};
use crate::hex::hex_decode_spec;
use crate::bytes::{le_value, pow256};
use crate::crypto::{canonical_scalar, scalar_modulus};
use crate::phi_key::{
    entries_upto, key_pair_spec, point_mask, point_mask_value, public_point_spec,
    quantized_point_scalar, quantized_scalar_value, scalar_bytes, scalar_from_hex,
    scalar_from_hex_spec, valid_quantized, PhiKeyPair, PhiKeyShare, PhiPoint, NAN_POINT,
    NEGATIVE_INFINITY_POINT, POINT_LIMIT, POSITIVE_INFINITY_POINT,
};
use vstd::utf8::encode_utf8;
use crate::hex::hex_spec;
use vstd::string::StringSliceAdditionalSpecFns;

verus! {

/// The quantized values a lookup can find, in the order in which they are
/// tabled: `-limit..=limit`, then the values reserved for NaN and the infinities.
pub open spec fn lookup_candidates(limit: int) -> Seq<i64> {
    Seq::new((2 * limit + 1) as nat, |i: int| (i - limit) as i64) + seq![
        NAN_POINT,
        POSITIVE_INFINITY_POINT,
        NEGATIVE_INFINITY_POINT,
    ]
}

/// The compressed G1 point that stands for a quantized value.
pub open spec fn candidate_point(q: i64) -> Seq<u8> {
    g1_mul_spec(scalar_bytes(quantized_scalar_value(q)))@
}

/// The value whose point is `target`; where several are, the one tabled last.
pub open spec fn lookup_spec(cands: Seq<i64>, target: Seq<u8>) -> Option<i64>
    decreases cands.len(),
{
    if cands.len() == 0 {
        None
    } else if candidate_point(cands.last()) == target {
        Some(cands.last())
    } else {
        lookup_spec(cands.drop_last(), target)
    }
}

/// One more than the largest point index among the entries, or zero.
pub open spec fn entries_point_count(entries: Seq<(usize, String)>) -> nat
    decreases entries.len(),
{
    if entries.len() == 0 {
        0
    } else {
        let rest = entries_point_count(entries.drop_last());
        let here = entries.last().0 as nat + 1;
        if here > rest {
            here
        } else {
            rest
        }
    }
}

/// One more than the largest point index of any share, or zero.
pub open spec fn shares_point_count(shares: Seq<PhiKeyShare>) -> nat
    decreases shares.len(),
{
    if shares.len() == 0 {
        0
    } else {
        let rest = shares_point_count(shares.drop_last());
        let here = entries_point_count(shares.last().public_phi_points_hex@);
        if here > rest {
            here
        } else {
            rest
        }
    }
}

/// The point indices of all shares are below `usize::MAX`.
pub open spec fn indices_fit(shares: Seq<PhiKeyShare>) -> bool {
    forall|i: int, t: int|
        0 <= i < shares.len() && 0 <= t < shares[i].public_phi_points_hex@.len()
            ==> #[trigger] shares[i].public_phi_points_hex@[t].0 < usize::MAX
}

/// The slots after the entries of one share are read in order: each entry's point
/// is decoded, unmasked under the share's secret and looked up; `None` when a
/// point does not decode.
pub open spec fn recover_entries(
    rec: Seq<Option<i64>>,
    secret: Seq<u8>,
    entries: Seq<(usize, String)>,
    cands: Seq<i64>,
) -> Option<Seq<Option<i64>>>
    decreases entries.len(),
{
    if entries.len() == 0 {
        Some(rec)
    } else {
        match recover_entries(rec, secret, entries.drop_last(), cands) {
            None => None,
            Some(r) => {
                let e = entries.last();
                match hex_decode_spec(encode_utf8(e.1@), 48) {
                    None => None,
                    Some(p) => match g1_unmask_spec(
                        p,
                        scalar_bytes(point_mask_value(secret, e.0 as nat)),
                    ) {
                        None => None,
                        Some(u) => Some(r.update(e.0 as int, lookup_spec(cands, u@))),
                    },
                }
            },
        }
    }
}

/// The slots after the shares are read in order; `None` when a share's secret
/// does not decode to a scalar or one of its points does not decode.
pub open spec fn recover_shares(rec: Seq<Option<i64>>, shares: Seq<PhiKeyShare>, cands: Seq<i64>) -> Option<Seq<Option<i64>>>
    decreases shares.len(),
{
    if shares.len() == 0 {
        Some(rec)
    } else {
        match recover_shares(rec, shares.drop_last(), cands) {
            None => None,
            Some(r) => {
                let s = shares.last();
                match scalar_from_hex_spec(encode_utf8(s.share_hex@)) {
                    None => None,
                    Some(secret) => recover_entries(r, secret, s.public_phi_points_hex@, cands),
                }
            },
        }
    }
}

/// The recovered points: one slot per index up to the largest one, filled from
/// the shares; `None` when there are no points, when something does not decode,
/// or when a slot stays empty.
pub open spec fn recover_spec(shares: Seq<PhiKeyShare>, cands: Seq<i64>) -> Option<Seq<i64>> {
    let n = shares_point_count(shares);
    if n == 0 {
        None
    } else {
        match recover_shares(Seq::new(n, |i: int| None::<i64>), shares, cands) {
            None => None,
            Some(r) => if forall|i: int| 0 <= i < r.len() ==> #[trigger] r[i] is Some {
                Some(r.map_values(|o: Option<i64>| o->0))
            } else {
                None
            },
        }
    }
}

pub proof fn lemma_entries_point_count(entries: Seq<(usize, String)>)
    ensures
        forall|t: int| 0 <= t < entries.len() ==> (#[trigger] entries[t]).0 < entries_point_count(entries),
    decreases entries.len(),
{
    if entries.len() > 0 {
        lemma_entries_point_count(entries.drop_last());
        assert forall|t: int| 0 <= t < entries.len() implies (#[trigger] entries[t]).0
            < entries_point_count(entries) by {
            if t < entries.len() - 1 {
                assert(entries[t] == entries.drop_last()[t]);
            }
        }
    }
}

pub proof fn lemma_shares_point_count(shares: Seq<PhiKeyShare>)
    ensures
        forall|i: int|
            0 <= i < shares.len() ==> entries_point_count((#[trigger] shares[i]).public_phi_points_hex@)
                <= shares_point_count(shares),
    decreases shares.len(),
{
    if shares.len() > 0 {
        lemma_shares_point_count(shares.drop_last());
        assert forall|i: int| 0 <= i < shares.len() implies entries_point_count(
            (#[trigger] shares[i]).public_phi_points_hex@,
        ) <= shares_point_count(shares) by {
            if i < shares.len() - 1 {
                assert(shares[i] == shares.drop_last()[i]);
            }
        }
    }
}


/// The values a lookup within `limit` can find.
pub open spec fn in_lookup_range(q: i64, limit: int) -> bool {
    (-limit <= q <= limit) || q == NAN_POINT || q == POSITIVE_INFINITY_POINT || q
        == NEGATIVE_INFINITY_POINT
}

/// The table tells its candidates apart: the only canonical scalar whose point is
/// the `i`-th entry is the scalar of the `i`-th candidate.
pub open spec fn table_identifies(table: Seq<[u8; 48]>, cands: Seq<i64>) -> bool {
    forall|i: int, t: Seq<u8>|
        0 <= i < table.len() && canonical_scalar(t) && #[trigger] g1_mul_spec(t) == #[trigger] table[i]
            ==> t == scalar_bytes(quantized_scalar_value(cands[i]))
}

/// The key was derived from some `phi_all` points: its shares and fingerprint are
/// those `from_phi_all_points` gives for them.
pub open spec fn derived_from_points(pair: PhiKeyPair) -> bool {
    exists|points: Seq<PhiPoint>| #[trigger] key_pair_spec(pair, points, pair.shares@.len() as nat)
}

pub proof fn lemma_pow256_32()
    ensures
        pow256(32) == 0x1_0000_0000_0000_0000_0000_0000_0000_0000_0000_0000_0000_0000_0000_0000_0000_0000nat,
{
    reveal_with_fuel(pow256, 33);
}

/// The encoding of a value below the modulus is canonical and reads back as it.
pub proof fn lemma_scalar_bytes(v: nat)
    requires
        v < scalar_modulus(),
    ensures
        canonical_scalar(scalar_bytes(v)),
        le_value(scalar_bytes(v)) == v,
{
    lemma_pow256_32();
    crate::bytes::lemma_le_bytes_len(v, 32);
    crate::bytes::lemma_le_value_of_bytes(v, 32);
    vstd::arithmetic::div_mod::lemma_small_mod(v, pow256(32));
}

pub proof fn lemma_candidates_contain(q: i64, limit: int)
    requires
        0 <= limit <= POINT_LIMIT,
        in_lookup_range(q, limit),
    ensures
        lookup_candidates(limit).contains(q),
{
    let c = lookup_candidates(limit);
    let w = 2 * limit + 1;
    if -limit <= q <= limit {
        assert(c[q + limit] == q);
    } else if q == NAN_POINT {
        assert(c[w] == q);
    } else if q == POSITIVE_INFINITY_POINT {
        assert(c[w + 1] == q);
    } else {
        assert(c[w + 2] == q);
    }
}

pub proof fn lemma_lookup_finds(cands: Seq<i64>, q: i64, target: Seq<u8>)
    requires
        cands.contains(q),
        candidate_point(q) == target,
        forall|i: int| 0 <= i < cands.len() && #[trigger] candidate_point(cands[i]) == target ==> cands[i] == q,
    ensures
        lookup_spec(cands, target) == Some(q),
    decreases cands.len(),
{
    if cands.len() > 0 {
        let last = cands.last();
        if candidate_point(last) == target {
            assert(cands[cands.len() - 1] == last);
        } else {
            let rest = cands.drop_last();
            let k = choose|k: int| 0 <= k < cands.len() && cands[k] == q;
            if k == cands.len() - 1 {
                assert(false);
            }
            assert(rest[k] == q);
            assert forall|i: int| 0 <= i < rest.len() && #[trigger] candidate_point(rest[i]) == target implies rest[i]
                == q by {
                assert(rest[i] == cands[i]);
            }
            lemma_lookup_finds(rest, q, target);
        }
    }
}

/// The entries of a public share name points of that share, below `k`, each
/// holding the point's masked encoding.
pub proof fn lemma_entries_shape(qs: Seq<i64>, k: nat, share: nat, share_count: nat, secret: Seq<u8>)
    requires
        share_count >= 1,
        k <= qs.len() <= usize::MAX,
    ensures
        forall|t: int|
            0 <= t < entries_upto(qs, k, share, share_count, secret).len() ==> {
                let e = #[trigger] entries_upto(qs, k, share, share_count, secret)[t];
                &&& (e.0 as nat) < k
                &&& (e.0 as nat) % share_count == share
                &&& e.1 == public_point_spec(qs[e.0 as int], secret, e.0 as nat)
            },
    decreases k,
{
    if k > 0 {
        let m = (k - 1) as nat;
        lemma_entries_shape(qs, m, share, share_count, secret);
        let prev = entries_upto(qs, m, share, share_count, secret);
        let e = entries_upto(qs, k, share, share_count, secret);
        assert forall|t: int| 0 <= t < e.len() implies {
            let x = #[trigger] e[t];
            &&& (x.0 as nat) < k
            &&& (x.0 as nat) % share_count == share
            &&& x.1 == public_point_spec(qs[x.0 as int], secret, x.0 as nat)
        } by {
            if t < prev.len() {
                assert(e[t] == prev[t]);
            } else {
                assert(e[t] == (m as usize, public_point_spec(qs[m as int], secret, m)));
            }
        }
    }
}

pub proof fn lemma_entries_count_upper(entries: Seq<(usize, String)>, bound: nat)
    requires
        forall|t: int| 0 <= t < entries.len() ==> (#[trigger] entries[t]).0 < bound,
    ensures
        entries_point_count(entries) <= bound,
    decreases entries.len(),
{
    if entries.len() > 0 {
        let rest = entries.drop_last();
        assert forall|t: int| 0 <= t < rest.len() implies (#[trigger] rest[t]).0 < bound by {
            assert(rest[t] == entries[t]);
        }
        lemma_entries_count_upper(rest, bound);
        assert(entries[entries.len() - 1].0 < bound);
    }
}

pub proof fn lemma_shares_count_upper(shares: Seq<PhiKeyShare>, bound: nat)
    requires
        forall|i: int| 0 <= i < shares.len() ==> entries_point_count((#[trigger] shares[i]).public_phi_points_hex@) <= bound,
    ensures
        shares_point_count(shares) <= bound,
    decreases shares.len(),
{
    if shares.len() > 0 {
        let rest = shares.drop_last();
        assert forall|i: int| 0 <= i < rest.len() implies entries_point_count(
            (#[trigger] rest[i]).public_phi_points_hex@,
        ) <= bound by {
            assert(rest[i] == shares[i]);
        }
        lemma_shares_count_upper(rest, bound);
        assert(shares[shares.len() - 1] == shares.last());
    }
}

pub proof fn lemma_quantized_scalar_small(q: i64)
    requires
        valid_quantized(q),
    ensures
        quantized_scalar_value(q) < scalar_modulus(),
        quantized_scalar_value(q) == q + 50_000_003,
{
}

/// A table that tells its candidates apart finds every candidate's point.
pub proof fn lemma_identified_lookup(table: Seq<[u8; 48]>, limit: int, q: i64)
    requires
        0 <= limit <= POINT_LIMIT,
        table.len() == lookup_candidates(limit).len(),
        forall|i: int|
            0 <= i < table.len() ==> #[trigger] table[i] == g1_mul_spec(
                scalar_bytes(quantized_scalar_value(lookup_candidates(limit)[i])),
            ),
        table_identifies(table, lookup_candidates(limit)),
        valid_quantized(q),
        in_lookup_range(q, limit),
    ensures
        lookup_spec(lookup_candidates(limit), candidate_point(q)) == Some(q),
{
    let cands = lookup_candidates(limit);
    let a = scalar_bytes(quantized_scalar_value(q));
    lemma_quantized_scalar_small(q);
    lemma_scalar_bytes(quantized_scalar_value(q));
    lemma_candidates_contain(q, limit);
    assert forall|i: int| 0 <= i < cands.len() && #[trigger] candidate_point(cands[i]) == candidate_point(q) implies cands[i]
        == q by {
        let c = cands[i];
        let w = 2 * limit + 1;
        assert(valid_quantized(c)) by {
            if i < w {
                assert(c == i - limit);
            } else if i == w {
            } else if i == w + 1 {
            } else {
            }
        }
        assert(table[i] =~= g1_mul_spec(a));
        lemma_quantized_scalar_small(c);
        lemma_scalar_bytes(quantized_scalar_value(c));
    }
    lemma_lookup_finds(cands, q, candidate_point(q));
}

/// Whether `x` is the point index of one of the first `t` entries.
pub open spec fn entry_seen(entries: Seq<(usize, String)>, t: int, x: int) -> bool {
    exists|s: int| 0 <= s < t && #[trigger] entries[s].0 == x
}

/// The entries of public share `share` of `n`, as `from_phi_all_points` writes them
/// for the quantized points `qs`, every one of which a lookup within `limit` finds.
pub open spec fn genuine_share(
    entries: Seq<(usize, String)>,
    secret: Seq<u8>,
    qs: Seq<i64>,
    share: nat,
    n: nat,
    limit: int,
) -> bool {
    &&& n >= 1
    &&& share < n
    &&& qs.len() <= usize::MAX
    &&& canonical_scalar(secret)
    &&& crate::phi_key::entry_views(entries) == entries_upto(qs, qs.len(), share, n, secret)
    &&& forall|j: int| 0 <= j < qs.len() ==> valid_quantized(#[trigger] qs[j]) && in_lookup_range(qs[j], limit)
}

/// A key derived from at least one point, every one of which a lookup within
/// `limit` finds.
pub open spec fn genuine_pair(pair: PhiKeyPair, limit: int) -> bool {
    &&& derived_from_points(pair)
    &&& pair.wf()
    &&& 0 < pair.quantized_points@.len() <= usize::MAX
    &&& forall|j: int|
        0 <= j < pair.quantized_points@.len() ==> in_lookup_range(#[trigger] pair.quantized_points@[j], limit)
}

/// Every key `from_phi_all_points` gives is derived from the points it was given.
pub proof fn lemma_key_is_derived(pair: PhiKeyPair, points: Seq<PhiPoint>, share_count: nat)
    requires
        key_pair_spec(pair, points, share_count),
    ensures
        derived_from_points(pair),
{
    assert(key_pair_spec(pair, points, pair.shares@.len() as nat));
}

/// A key that `from_phi_all_points` gives meets what recovery asks of it: its point
/// indices fit, and it is genuine for a lookup among all the values a point can be
/// quantized to, so recovery gives its points back.
pub proof fn derived_keys_are_recoverable(pair: PhiKeyPair, points: Seq<PhiPoint>, share_count: nat)
    requires
        crate::phi_key::quantized_all_spec(points) is Ok,
        key_pair_spec(pair, points, share_count),
        pair.wf(),
        0 < points.len() <= usize::MAX,
    ensures
        indices_fit(pair.shares@),
        genuine_pair(pair, POINT_LIMIT as int),
{
    lemma_key_is_derived(pair, points, share_count);
    let qs = pair.quantized_points@;
    let len = qs.len();
    let encoded = crate::phi_key::encoded_points_spec(points);
    assert(qs == crate::phi_key::quantized_all_spec(points)->Ok_0);
    assert(qs.len() == points.len());
    assert forall|i: int, t: int|
        0 <= i < pair.shares@.len() && 0 <= t < pair.shares@[i].public_phi_points_hex@.len() implies #[trigger] pair.shares@[i].public_phi_points_hex@[t].0
        < usize::MAX by {
        let secret = crate::phi_key::share_secret_bytes(encoded, i as nat);
        assert(crate::phi_key::share_spec(pair.shares@[i], qs, i as nat, share_count, encoded));
        lemma_entries_shape(qs, len, i as nat, share_count, secret);
        let e = pair.shares@[i].public_phi_points_hex@;
        assert(crate::phi_key::entry_views(e)[t].0 == e[t].0);
    }
}

/// The secret of share `i` of a derived key decodes from its hex, and the share's
/// entries are genuine.
pub proof fn lemma_genuine_share(pair: PhiKeyPair, limit: int, i: nat) -> (secret: Seq<u8>)
    requires
        genuine_pair(pair, limit),
        i < pair.shares@.len(),
    ensures
        scalar_from_hex_spec(encode_utf8(pair.shares@[i as int].share_hex@)) == Some(secret),
        genuine_share(
            pair.shares@[i as int].public_phi_points_hex@,
            secret,
            pair.quantized_points@,
            i,
            pair.shares@.len() as nat,
            limit,
        ),
{
    let n = pair.shares@.len() as nat;
    let points = choose|points: Seq<PhiPoint>| #[trigger] key_pair_spec(pair, points, n);
    let encoded = crate::phi_key::encoded_points_spec(points);
    let secret = crate::phi_key::share_secret_bytes(encoded, i);
    assert(crate::phi_key::share_spec(pair.shares@[i as int], pair.quantized_points@, i, n, encoded));
    lemma_scalar_bytes(crate::phi_key::share_secret_value(encoded, i));
    crate::hex::lemma_hex_decode_encoding(secret);
    secret
}

/// A derived key has one slot per point.
pub proof fn lemma_genuine_count(pair: PhiKeyPair, limit: int)
    requires
        genuine_pair(pair, limit),
    ensures
        shares_point_count(pair.shares@) == pair.quantized_points@.len(),
{
    let shares = pair.shares@;
    let n = shares.len() as nat;
    let qs = pair.quantized_points@;
    let len = qs.len();
    assert forall|i: int| 0 <= i < shares.len() implies entries_point_count(
        (#[trigger] shares[i]).public_phi_points_hex@,
    ) <= len by {
        let secret = lemma_genuine_share(pair, limit, i as nat);
        let e = shares[i].public_phi_points_hex@;
        lemma_entries_shape(qs, len, i as nat, n, secret);
        assert forall|t: int| 0 <= t < e.len() implies (#[trigger] e[t]).0 < len by {
            assert(crate::phi_key::entry_views(e)[t].0 == e[t].0);
        }
        lemma_entries_count_upper(e, len);
    }
    lemma_shares_count_upper(shares, len);
    let last = (len - 1) as nat;
    let s = last % n;
    let secret = lemma_genuine_share(pair, limit, s);
    let e = shares[s as int].public_phi_points_hex@;
    crate::phi_key::each_point_in_one_share(qs, len, s, n, secret, last);
    let u = entries_upto(qs, len, s, n, secret);
    let t = choose|t: int| 0 <= t < u.len() && #[trigger] u[t].0 == last;
    assert(crate::phi_key::entry_views(e)[t].0 == e[t].0);
    lemma_entries_point_count(e);
    lemma_shares_point_count(shares);
}

/// The `i`-th lookup candidate.
fn candidate_at(limit: i64, i: usize) -> (r: i64)
    requires
        0 <= limit <= POINT_LIMIT,
        i < 2 * limit + 4,
    ensures
        r == lookup_candidates(limit as int)[i as int],
        valid_quantized(r),
{
    let width: usize = (2 * limit + 1) as usize;
    if i < width {
        (i as i64) - limit
    } else if i == width {
        NAN_POINT
    } else if i == width + 1 {
        POSITIVE_INFINITY_POINT
    } else {
        NEGATIVE_INFINITY_POINT
    }
}

/// The points of all lookup candidates, in order.
fn candidate_table(limit: i64) -> (r: Vec<[u8; 48]>)
    requires
        0 <= limit <= POINT_LIMIT,
    ensures
        r@.len() == lookup_candidates(limit as int).len(),
        forall|i: int|
            0 <= i < r@.len() ==> (#[trigger] r@[i])@ == candidate_point(
                lookup_candidates(limit as int)[i],
            ),
        forall|i: int|
            0 <= i < r@.len() ==> #[trigger] r@[i] == g1_mul_spec(
                scalar_bytes(quantized_scalar_value(lookup_candidates(limit as int)[i])),
            ),
        table_identifies(r@, lookup_candidates(limit as int)),
{
    let count: usize = (2 * limit + 4) as usize;
    let mut table: Vec<[u8; 48]> = Vec::new();
    let mut i: usize = 0;
    while i < count
        invariant
            0 <= limit <= POINT_LIMIT,
            count == 2 * limit + 4,
            count == lookup_candidates(limit as int).len(),
            i <= count,
            table@.len() == i,
            forall|k: int|
                0 <= k < i ==> (#[trigger] table@[k])@ == candidate_point(
                    lookup_candidates(limit as int)[k],
                ),
            forall|k: int|
                0 <= k < i ==> #[trigger] table@[k] == g1_mul_spec(
                    scalar_bytes(quantized_scalar_value(lookup_candidates(limit as int)[k])),
                ),
            table_identifies(table@, lookup_candidates(limit as int)),
        decreases count - i,
    {
        let q = candidate_at(limit, i);
        let scalar = quantized_point_scalar(q);
        table.push(g1_mul(&scalar));
        i = i + 1;
    }
    table
}

/// Finds the quantized value whose point is `target`, searching from the last
/// candidate down.
fn lookup(limit: i64, table: &Vec<[u8; 48]>, target: &[u8; 48]) -> (r: Option<i64>)
    requires
        0 <= limit <= POINT_LIMIT,
        table@.len() == lookup_candidates(limit as int).len(),
        forall|i: int|
            0 <= i < table@.len() ==> (#[trigger] table@[i])@ == candidate_point(
                lookup_candidates(limit as int)[i],
            ),
    ensures
        r == lookup_spec(lookup_candidates(limit as int), target@),
{
    let ghost cands = lookup_candidates(limit as int);
    let mut i: usize = table.len();
    proof {
        assert(cands.take(i as int) == cands);
    }
    while i > 0
        invariant
            0 <= limit <= POINT_LIMIT,
            i <= table@.len() == cands.len(),
            cands == lookup_candidates(limit as int),
            forall|k: int| 0 <= k < table@.len() ==> (#[trigger] table@[k])@ == candidate_point(cands[k]),
            lookup_spec(cands, target@) == lookup_spec(cands.take(i as int), target@),
        decreases i,
    {
        let ghost prefix = cands.take(i as int);
        proof {
            assert(prefix.last() == cands[i - 1]);
            assert(prefix.drop_last() == cands.take(i - 1));
        }
        if crate::bytes::bytes_equal(&table[i - 1], target) {
            proof {
                assert(table@[i - 1]@ == target@);
            }
            return Some(candidate_at(limit, i - 1));
        }
        proof {
            assert(table@[i - 1]@ != target@);
        }
        i = i - 1;
    }
    None
}

/// Reads the entries of one share into the slots: each point is decoded,
/// unmasked under the share's secret and looked up. False when a point does not
/// decode, and the slots are then of no further use. For a genuine share, every
/// point of the share is found.
fn apply_entries(
    rec: &mut Vec<Option<i64>>,
    secret: &[u8; 32],
    entries: &Vec<(usize, String)>,
    limit: i64,
    table: &Vec<[u8; 48]>,
    count: usize,
    Ghost(qs): Ghost<Seq<i64>>,
    Ghost(share): Ghost<nat>,
    Ghost(n): Ghost<nat>,
) -> (ok: bool)
    requires
        0 <= limit <= POINT_LIMIT,
        table@.len() == lookup_candidates(limit as int).len(),
        forall|t: int|
            0 <= t < table@.len() ==> (#[trigger] table@[t])@ == candidate_point(
                lookup_candidates(limit as int)[t],
            ),
        forall|t: int|
            0 <= t < table@.len() ==> #[trigger] table@[t] == g1_mul_spec(
                scalar_bytes(quantized_scalar_value(lookup_candidates(limit as int)[t])),
            ),
        table_identifies(table@, lookup_candidates(limit as int)),
        forall|t: int| 0 <= t < entries@.len() ==> (#[trigger] entries@[t]).0 < count,
        old(rec)@.len() == count,
    ensures
        ok ==> recover_entries(old(rec)@, secret@, entries@, lookup_candidates(limit as int))
            == Some(final(rec)@),
        !ok ==> recover_entries(old(rec)@, secret@, entries@, lookup_candidates(limit as int)) is None,
        final(rec)@.len() == count,
        genuine_share(entries@, secret@, qs, share, n, limit as int) && qs.len() <= count ==> ok
            && forall|x: int|
            0 <= x < count ==> #[trigger] final(rec)@[x] == if x < qs.len() && (x as nat) % n == share {
                Some(qs[x])
            } else {
                old(rec)@[x]
            },
{
    let ghost cands = lookup_candidates(limit as int);
    let ghost start = rec@;
    let ghost genuine = genuine_share(entries@, secret@, qs, share, n, limit as int) && qs.len() <= count;
    proof {
        if genuine {
            lemma_entries_shape(qs, qs.len(), share, n, secret@);
        }
    }
    let mut j: usize = 0;
    while j < entries.len()
        invariant
            cands == lookup_candidates(limit as int),
            0 <= limit <= POINT_LIMIT,
            table@.len() == cands.len(),
            forall|t: int| 0 <= t < table@.len() ==> (#[trigger] table@[t])@ == candidate_point(cands[t]),
            forall|t: int|
                0 <= t < table@.len() ==> #[trigger] table@[t] == g1_mul_spec(
                    scalar_bytes(quantized_scalar_value(cands[t])),
                ),
            table_identifies(table@, cands),
            forall|t: int| 0 <= t < entries@.len() ==> (#[trigger] entries@[t]).0 < count,
            j <= entries@.len(),
            rec@.len() == count,
            start == old(rec)@,
            recover_entries(start, secret@, entries@.take(j as int), cands) == Some(rec@),
            genuine == (genuine_share(entries@, secret@, qs, share, n, limit as int) && qs.len() <= count),
            genuine ==> forall|t: int|
                0 <= t < entries_upto(qs, qs.len(), share, n, secret@).len() ==> {
                    let e = #[trigger] entries_upto(qs, qs.len(), share, n, secret@)[t];
                    &&& (e.0 as nat) < qs.len()
                    &&& (e.0 as nat) % n == share
                    &&& e.1 == public_point_spec(qs[e.0 as int], secret@, e.0 as nat)
                },
            genuine ==> forall|x: int|
                0 <= x < count ==> #[trigger] rec@[x] == if entry_seen(entries@, j as int, x) {
                    Some(qs[x])
                } else {
                    start[x]
                },
        decreases entries@.len() - j,
    {
        let ghost prefix = entries@.take(j + 1);
        proof {
            assert(prefix.drop_last() == entries@.take(j as int));
            assert(prefix.last() == entries@[j as int]);
        }
        let index = entries[j].0;
        let point_str = entries[j].1.as_str();
        let ghost q: i64 = if genuine { qs[index as int] } else { 0 };
        let ghost masked = g1_mul_spec(
            scalar_bytes((quantized_scalar_value(q) + point_mask_value(secret@, index as nat)) % scalar_modulus()),
        );
        proof {
            assert(point_str.spec_bytes() == encode_utf8(entries@[j as int].1@));
            if genuine {
                let ev = crate::phi_key::entry_views(entries@);
                assert(ev[j as int] == (index, entries@[j as int].1@));
                assert(entries_upto(qs, qs.len(), share, n, secret@)[j as int] == ev[j as int]);
                assert(entries@[j as int].1@ == hex_spec(masked@));
                crate::hex::lemma_hex_decode_encoding(masked@);
            }
        }
        let point = match crate::hex::hex_decode_array::<48>(point_str) {
            Some(point) => point,
            None => {
                proof {
                    lemma_recover_entries_none(start, secret@, entries@, cands, (j + 1) as nat);
                }
                return false;
            },
        };
        let mask = point_mask(secret, index);
        proof {
            if genuine {
                assert(point@ =~= masked@);
                lemma_quantized_scalar_small(q);
                lemma_scalar_bytes(quantized_scalar_value(q));
                assert(g1_mul_spec(scalar_bytes(quantized_scalar_value(q))) == g1_mul_spec(
                    scalar_bytes(quantized_scalar_value(q)),
                ));
            }
        }
        let unmasked = match g1_unmask(&point, &mask) {
            Some(unmasked) => unmasked,
            None => {
                proof {
                    lemma_recover_entries_none(start, secret@, entries@, cands, (j + 1) as nat);
                }
                return false;
            },
        };
        let found = lookup(limit, table, &unmasked);
        proof {
            if genuine {
                assert(unmasked == g1_mul_spec(scalar_bytes(quantized_scalar_value(q))));
                lemma_identified_lookup(table@, limit as int, q);
                assert(found == Some(q));
            }
        }
        let ghost before = rec@;
        rec.set(index, found);
        proof {
            if genuine {
                assert forall|x: int| 0 <= x < count implies #[trigger] rec@[x] == if entry_seen(
                    entries@,
                    j + 1,
                    x,
                ) {
                    Some(qs[x])
                } else {
                    start[x]
                } by {
                    if x == index {
                        assert(entries@[j as int].0 == x);
                    } else {
                        assert(before[x] == rec@[x]);
                        if entry_seen(entries@, j + 1, x) {
                            let s = choose|s: int| 0 <= s < j + 1 && #[trigger] entries@[s].0 == x;
                            assert(s < j);
                        }
                    }
                }
            }
        }
        j = j + 1;
    }
    proof {
        assert(entries@.take(j as int) == entries@);
        if genuine {
            assert forall|x: int| 0 <= x < count implies #[trigger] rec@[x] == if x < qs.len() && (
            x as nat) % n == share {
                Some(qs[x])
            } else {
                start[x]
            } by {
                crate::phi_key::each_point_in_one_share(qs, qs.len(), share, n, secret@, x as nat);
                let u = entries_upto(qs, qs.len(), share, n, secret@);
                let ev = crate::phi_key::entry_views(entries@);
                if entry_seen(entries@, j as int, x) {
                    let s = choose|s: int| 0 <= s < j && #[trigger] entries@[s].0 == x;
                    assert(ev[s].0 == entries@[s].0);
                    assert(u[s].0 == x);
                }
                if x < qs.len() && (x as nat) % n == share {
                    let t = choose|t: int| 0 <= t < u.len() && #[trigger] u[t].0 == x;
                    assert(ev[t].0 == entries@[t].0);
                    assert(entries@[t].0 == x);
                }
            }
        }
    }
    true
}

impl PhiKeyPair {
    /// Recovers the quantized points from the public shares, looking each up among
    /// the values within `lookup_limit` and the reserved ones.
    #[verifier::rlimit(40)]
    pub fn recover_phi_all_points_within(&self, lookup_limit: i64) -> (r: Option<Vec<i64>>)
        requires
            0 <= lookup_limit <= POINT_LIMIT,
            indices_fit(self.shares@),
        ensures
            r matches Some(v) ==> recover_spec(self.shares@, lookup_candidates(lookup_limit as int))
                == Some(v@),
            r is None ==> recover_spec(self.shares@, lookup_candidates(lookup_limit as int)) is None,
            genuine_pair(*self, lookup_limit as int) ==> (r matches Some(v) && v@
                == self.quantized_points@),
    {
        let ghost cands = lookup_candidates(lookup_limit as int);
        let ghost shares = self.shares@;
        let ghost genuine = genuine_pair(*self, lookup_limit as int);
        // The number of slots: one more than the largest point index.
        let mut count: usize = 0;
        let mut i: usize = 0;
        while i < self.shares.len()
            invariant
                shares == self.shares@,
                indices_fit(shares),
                i <= shares.len(),
                count == shares_point_count(shares.take(i as int)),
            decreases shares.len() - i,
        {
            let entries = &self.shares[i].public_phi_points_hex;
            let mut here: usize = 0;
            let mut j: usize = 0;
            while j < entries.len()
                invariant
                    shares == self.shares@,
                    indices_fit(shares),
                    i < shares.len(),
                    entries@ == shares[i as int].public_phi_points_hex@,
                    j <= entries@.len(),
                    here == entries_point_count(entries@.take(j as int)),
                decreases entries@.len() - j,
            {
                proof {
                    assert(entries@.take(j + 1).drop_last() == entries@.take(j as int));
                    assert(shares[i as int].public_phi_points_hex@[j as int].0 < usize::MAX);
                }
                let index = entries[j].0;
                if index + 1 > here {
                    here = index + 1;
                }
                j = j + 1;
            }
            proof {
                assert(entries@.take(j as int) == entries@);
                assert(shares.take(i + 1).drop_last() == shares.take(i as int));
            }
            if here > count {
                count = here;
            }
            i = i + 1;
        }
        proof {
            assert(shares.take(i as int) == shares);
            lemma_shares_point_count(shares);
            if genuine {
                lemma_genuine_count(*self, lookup_limit as int);
            }
        }
        if count == 0 {
            return None;
        }
        let table = candidate_table(lookup_limit);
        let mut rec: Vec<Option<i64>> = Vec::new();
        let mut k: usize = 0;
        while k < count
            invariant
                k <= count,
                rec@.len() == k,
                forall|t: int| 0 <= t < k ==> (#[trigger] rec@[t]) is None,
            decreases count - k,
        {
            rec.push(None);
            k = k + 1;
        }
        let ghost init = rec@;
        proof {
            assert(init == Seq::new(count as nat, |t: int| None::<i64>));
        }
        let mut i: usize = 0;
        while i < self.shares.len()
            invariant
                shares == self.shares@,
                cands == lookup_candidates(lookup_limit as int),
                0 <= lookup_limit <= POINT_LIMIT,
                table@.len() == cands.len(),
                forall|t: int| 0 <= t < table@.len() ==> (#[trigger] table@[t])@ == candidate_point(cands[t]),
                forall|t: int|
                    0 <= t < table@.len() ==> #[trigger] table@[t] == g1_mul_spec(
                        scalar_bytes(quantized_scalar_value(cands[t])),
                    ),
                table_identifies(table@, cands),
                count == shares_point_count(shares),
                init == Seq::new(count as nat, |t: int| None::<i64>),
                genuine == genuine_pair(*self, lookup_limit as int),
                genuine ==> count == self.quantized_points@.len(),
                genuine ==> forall|x: int|
                    0 <= x < count ==> #[trigger] rec@[x] == if (x as nat) % (shares.len() as nat) < i {
                        Some(self.quantized_points@[x])
                    } else {
                        None
                    },
                forall|s: int|
                    0 <= s < shares.len() ==> entries_point_count(
                        (#[trigger] shares[s]).public_phi_points_hex@,
                    ) <= count,
                i <= shares.len(),
                rec@.len() == count,
                recover_shares(init, shares.take(i as int), cands) == Some(rec@),
            decreases shares.len() - i,
        {
            let share = &self.shares[i];
            proof {
                lemma_recover_shares_take(init, shares, cands, i as nat);
            }
            let hex_str = share.share_hex.as_str();
            proof {
                assert(hex_str.spec_bytes() == encode_utf8(shares[i as int].share_hex@));
            }
            proof {
                if genuine {
                    lemma_genuine_share(*self, lookup_limit as int, i as nat);
                }
            }
            let secret = match scalar_from_hex(hex_str) {
                Some(secret) => secret,
                None => {
                    proof {
                        lemma_recover_shares_none(init, shares, cands, (i + 1) as nat);
                        assert(!genuine);
                    }
                    return None;
                },
            };
            let ghost before = rec@;
            let entries = &share.public_phi_points_hex;
            proof {
                lemma_entries_point_count(entries@);
                if genuine {
                    let sec = lemma_genuine_share(*self, lookup_limit as int, i as nat);
                    assert(secret@ == sec);
                }
            }
            if !apply_entries(
                &mut rec,
                &secret,
                entries,
                lookup_limit,
                &table,
                count,
                Ghost(self.quantized_points@),
                Ghost(i as nat),
                Ghost(self.shares@.len() as nat),
            ) {
                proof {
                    lemma_recover_shares_after_none(init, shares, cands, i as nat, secret@);
                    assert(!genuine);
                }
                return None;
            }
            proof {
                if genuine {
                    let n = shares.len() as nat;
                    assert forall|x: int| 0 <= x < count implies #[trigger] rec@[x] == if (x as nat) % n < i
                        + 1 {
                        Some(self.quantized_points@[x])
                    } else {
                        None
                    } by {
                        assert(before[x] == if (x as nat) % n < i {
                            Some(self.quantized_points@[x])
                        } else {
                            None
                        });
                    }
                }
            }
            i = i + 1;
        }
        proof {
            assert(shares.take(i as int) == shares);
        }
        let mut out: Vec<i64> = Vec::new();
        let mut k: usize = 0;
        while k < count
            invariant
                k <= count,
                rec@.len() == count,
                count == shares_point_count(shares),
                shares == self.shares@,
                cands == lookup_candidates(lookup_limit as int),
                init == Seq::new(count as nat, |t: int| None::<i64>),
                recover_shares(init, shares, cands) == Some(rec@),
                out@.len() == k,
                forall|t: int| 0 <= t < k ==> (#[trigger] rec@[t]) is Some && out@[t] == rec@[t]->0,
                genuine == genuine_pair(*self, lookup_limit as int),
                genuine ==> count == self.quantized_points@.len(),
                genuine ==> forall|x: int|
                    0 <= x < count ==> #[trigger] rec@[x] == if (x as nat) % (shares.len() as nat) < shares.len() {
                        Some(self.quantized_points@[x])
                    } else {
                        None
                    },
            decreases count - k,
        {
            proof {
                if genuine {
                    assert(((k as nat) % (shares.len() as nat)) < shares.len());
                }
            }
            match rec[k] {
                Some(q) => out.push(q),
                None => {
                    proof {
                        assert(rec@[k as int] is None);
                    }
                    return None;
                },
            }
            k = k + 1;
        }
        proof {
            assert(out@ == rec@.map_values(|o: Option<i64>| o->0));
            if genuine {
                assert(out@ =~= self.quantized_points@);
            }
        }
        Some(out)
    }

    /// Recovers the quantized points from the public shares, looking each up among
    /// all the values a point can be quantized to.
    pub fn recover_phi_all_points(&self) -> (r: Option<Vec<i64>>)
        requires
            indices_fit(self.shares@),
        ensures
            r matches Some(v) ==> recover_spec(self.shares@, lookup_candidates(POINT_LIMIT as int))
                == Some(v@),
            r is None ==> recover_spec(self.shares@, lookup_candidates(POINT_LIMIT as int)) is None,
            genuine_pair(*self, POINT_LIMIT as int) ==> (r matches Some(v) && v@
                == self.quantized_points@),
    {
        self.recover_phi_all_points_within(POINT_LIMIT)
    }
}

/// Reading one more share: the step of `recover_shares` on a prefix.
pub proof fn lemma_recover_shares_take(rec: Seq<Option<i64>>, shares: Seq<PhiKeyShare>, cands: Seq<i64>, i: nat)
    requires
        i < shares.len(),
    ensures
        recover_shares(rec, shares.take((i + 1) as int), cands) == match recover_shares(
            rec,
            shares.take(i as int),
            cands,
        ) {
            None => None,
            Some(r) => match scalar_from_hex_spec(encode_utf8(shares[i as int].share_hex@)) {
                None => None,
                Some(secret) => recover_entries(
                    r,
                    secret,
                    shares[i as int].public_phi_points_hex@,
                    cands,
                ),
            },
        },
{
    let p = shares.take((i + 1) as int);
    assert(p.drop_last() == shares.take(i as int));
    assert(p.last() == shares[i as int]);
}

/// Once the entries fail at some prefix, every longer prefix fails too.
pub proof fn lemma_recover_entries_none(
    rec: Seq<Option<i64>>,
    secret: Seq<u8>,
    entries: Seq<(usize, String)>,
    cands: Seq<i64>,
    k: nat,
)
    requires
        k <= entries.len(),
        recover_entries(rec, secret, entries.take(k as int), cands) is None,
    ensures
        recover_entries(rec, secret, entries, cands) is None,
    decreases entries.len() - k,
{
    if k < entries.len() {
        assert(entries.take((k + 1) as int).drop_last() == entries.take(k as int));
        lemma_recover_entries_none(rec, secret, entries, cands, k + 1);
    } else {
        assert(entries.take(k as int) == entries);
    }
}

/// Once the shares fail at some prefix, every longer prefix fails too.
pub proof fn lemma_recover_shares_none(
    rec: Seq<Option<i64>>,
    shares: Seq<PhiKeyShare>,
    cands: Seq<i64>,
    k: nat,
)
    requires
        k <= shares.len(),
        recover_shares(rec, shares.take(k as int), cands) is None,
    ensures
        recover_shares(rec, shares, cands) is None,
    decreases shares.len() - k,
{
    if k < shares.len() {
        assert(shares.take((k + 1) as int).drop_last() == shares.take(k as int));
        lemma_recover_shares_none(rec, shares, cands, k + 1);
    } else {
        assert(shares.take(k as int) == shares);
    }
}

/// When share `i`'s entries fail, the whole recovery fails.
pub proof fn lemma_recover_shares_after_none(
    rec: Seq<Option<i64>>,
    shares: Seq<PhiKeyShare>,
    cands: Seq<i64>,
    i: nat,
    secret: Seq<u8>,
)
    requires
        i < shares.len(),
        recover_shares(rec, shares.take(i as int), cands) matches Some(r) && recover_entries(
            r,
            secret,
            shares[i as int].public_phi_points_hex@,
            cands,
        ) is None,
        scalar_from_hex_spec(encode_utf8(shares[i as int].share_hex@)) == Some(secret),
    ensures
        recover_shares(rec, shares, cands) is None,
{
    let p = shares.take((i + 1) as int);
    assert(p.drop_last() == shares.take(i as int));
    assert(p.last() == shares[i as int]);
    lemma_recover_shares_none(rec, shares, cands, i + 1);
}

} // verus!
