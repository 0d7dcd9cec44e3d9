//! Key material derived from the `phi_all` curve points: BLS12-381-inspired,
//! deterministic, application-specific encodings of the quantized points, the
//! public shares they are split into, and the masked additive phin shares.
use vstd::prelude::*;
use crate::bytes::{le_bytes, le_value, push_all, push_ascii, push_le};
use crate::crypto::{canonical_scalar, scalar_modulus, sha512, sha512_spec};
use crate::hex::{ascii_bytes, hex_encode, hex_spec};
use vstd::string::StringSliceAdditionalSpecFns;
use crate::labels::{index_label, label_for_index};

verus! {

pub const POINT_LIMIT: i64 = 50_000_000;

pub const POINT_SCALAR_OFFSET: i64 = 50_000_003;

pub const NAN_POINT: i64 = 50_000_001;

pub const POSITIVE_INFINITY_POINT: i64 = 50_000_002;

pub const NEGATIVE_INFINITY_POINT: i64 = -50_000_002;

/// The bit pattern of negative zero.
pub const NEGATIVE_ZERO_BITS: u64 = 0x8000_0000_0000_0000;

/// The bit pattern of `f64::NAN`.
pub const CANONICAL_NAN_BITS: u64 = 0x7ff8_0000_0000_0000;

pub const POSITIVE_INFINITY_BITS: u64 = 0x7ff0_0000_0000_0000;

pub const NEGATIVE_INFINITY_BITS: u64 = 0xfff0_0000_0000_0000;

/// One `phi_all` curve point as the key derivation reads it: the bits of the
/// `f64` and, for a finite point, the point times ten rounded to an integer.
#[derive(Clone, Copy, Debug)]
pub struct PhiPoint {
    pub bits: u64,
    pub scaled: i64,
}

/// The point is a NaN: all exponent bits set and a non-zero mantissa.
pub open spec fn is_nan_bits(bits: u64) -> bool {
    (bits >> 52u64) & 0x7ffu64 == 0x7ffu64 && bits & 0x000f_ffff_ffff_ffffu64 != 0
}

/// Both zeros are written as positive zero and every NaN as `f64::NAN`.
pub open spec fn canonical_bits_spec(bits: u64) -> u64 {
    if bits == NEGATIVE_ZERO_BITS {
        0
    } else if is_nan_bits(bits) {
        CANONICAL_NAN_BITS
    } else {
        bits
    }
}

/// The errors of the key derivation.
#[derive(Clone, Copy, Debug, PartialEq, Eq, Structural)]
pub enum PhiKeyError {
    EmptyPhiAll,
    InvalidShareCount,
    PointOutOfRange { point_bits: u64 },
    InvalidShare,
}

/// The quantized value of a point: reserved values for NaN and the infinities,
/// otherwise its scaled value, which must lie within `POINT_LIMIT`.
pub open spec fn quantize_spec(point: PhiPoint) -> Result<i64, PhiKeyError> {
    if is_nan_bits(point.bits) {
        Ok(NAN_POINT)
    } else if point.bits == POSITIVE_INFINITY_BITS {
        Ok(POSITIVE_INFINITY_POINT)
    } else if point.bits == NEGATIVE_INFINITY_BITS {
        Ok(NEGATIVE_INFINITY_POINT)
    } else if point.scaled > POINT_LIMIT || point.scaled < -POINT_LIMIT {
        Err(PhiKeyError::PointOutOfRange { point_bits: point.bits })
    } else {
        Ok(point.scaled)
    }
}

/// The values a quantized point can take.
pub open spec fn valid_quantized(q: i64) -> bool {
    (-POINT_LIMIT <= q <= POINT_LIMIT) || q == NAN_POINT || q == POSITIVE_INFINITY_POINT || q
        == NEGATIVE_INFINITY_POINT
}

pub fn canonical_bits(bits: u64) -> (r: u64)
    ensures
        r == canonical_bits_spec(bits),
{
    if bits == NEGATIVE_ZERO_BITS {
        0
    } else if (bits >> 52u64) & 0x7ffu64 == 0x7ffu64 && bits & 0x000f_ffff_ffff_ffffu64 != 0 {
        CANONICAL_NAN_BITS
    } else {
        bits
    }
}

pub fn quantize_point(point: PhiPoint) -> (r: Result<i64, PhiKeyError>)
    ensures
        r == quantize_spec(point),
        r matches Ok(q) ==> valid_quantized(q),
{
    if (point.bits >> 52u64) & 0x7ffu64 == 0x7ffu64 && point.bits & 0x000f_ffff_ffff_ffffu64
        != 0 {
        return Ok(NAN_POINT);
    }
    if point.bits == POSITIVE_INFINITY_BITS {
        return Ok(POSITIVE_INFINITY_POINT);
    }
    if point.bits == NEGATIVE_INFINITY_BITS {
        return Ok(NEGATIVE_INFINITY_POINT);
    }
    if point.scaled > POINT_LIMIT || point.scaled < -POINT_LIMIT {
        return Err(PhiKeyError::PointOutOfRange { point_bits: point.bits });
    }
    Ok(point.scaled)
}

/// The canonical encoding of the scalar with value `v < 2^256`.
pub open spec fn scalar_bytes(v: nat) -> Seq<u8> {
    le_bytes(v, 32)
}

/// The scalar reduced from the SHA-512 digest of `input`.
pub open spec fn wide_value(input: Seq<u8>) -> nat {
    le_value(sha512_spec(input)) % scalar_modulus()
}

pub open spec fn domain() -> Seq<u8> {
    ascii_bytes("phi-chatbot:phi-all-points:bls12-381-keypair:v1"@)
}

pub open spec fn mask_domain() -> Seq<u8> {
    ascii_bytes("phi-chatbot:phi-all-point-mask:v1"@)
}

/// The scalar added to a quantized point at `index` under `secret`.
pub open spec fn point_mask_value(secret: Seq<u8>, index: nat) -> nat {
    wide_value(mask_domain() + seq![0u8] + secret + le_bytes(index, 8))
}

/// The secret of the directly encoded `phi_all` points.
pub open spec fn phi_secret_value() -> nat {
    wide_value(domain() + ascii_bytes(":encoded-phi"@))
}

/// The random-looking part of phin share `share` at point `point`.
pub open spec fn phin_split_value(q: i64, share: nat, point: nat) -> nat {
    wide_value(domain() + ascii_bytes(":phin-split"@) + le_bytes((q as u64) as nat, 8) + le_bytes(
        share,
        8,
    ) + le_bytes(point, 8))
}

/// The mask secret of phin share `share`.
pub open spec fn phin_share_secret_value(share: nat) -> nat {
    wide_value(domain() + ascii_bytes(":phin-share"@) + le_bytes(share, 8))
}

/// The secret of public share `share` of the points encoded as `encoded`.
pub open spec fn share_secret_value(encoded: Seq<u8>, share: nat) -> nat {
    wide_value(domain() + seq![0u8] + encoded + le_bytes(share, 8))
}

/// The scalar a quantized point stands for.
pub open spec fn quantized_scalar_value(q: i64) -> nat {
    (q + POINT_SCALAR_OFFSET) as nat
}

/// The scalar whose value is `le_value(sha512(data)) mod r`.
fn hash_to_scalar(data: &Vec<u8>) -> (r: [u8; 32])
    ensures
        r@ == scalar_bytes(wide_value(data@)),
        canonical_scalar(r@),
        le_value(r@) == wide_value(data@),
{
    let digest = sha512(data.as_slice());
    let scalar = crate::crypto::scalar_from_bytes_wide(&digest);
    proof {
        crate::bytes::lemma_le_bytes_of_value(scalar@);
    }
    scalar
}

/// `Scalar::from(q + POINT_SCALAR_OFFSET)`: the canonical encoding of a
/// quantized point's scalar, the offset value's bytes, least significant first.
pub fn quantized_point_scalar(q: i64) -> (r: [u8; 32])
    requires
        valid_quantized(q),
    ensures
        r@ == scalar_bytes(quantized_scalar_value(q)),
        canonical_scalar(r@),
        le_value(r@) == quantized_scalar_value(q),
{
    let v: u64 = (q + POINT_SCALAR_OFFSET) as u64;
    let mut out: Vec<u8> = Vec::new();
    push_le(&mut out, v as u128, 32);
    proof {
        crate::bytes::lemma_le_bytes_len(v as nat, 32);
        assert(out@ =~= le_bytes(v as nat, 32));
        crate::bytes::lemma_le_value_of_bytes(v as nat, 32);
        lemma_u64_below_pow256_32(v as nat);
    }
    crate::bytes::vec_into_array(out)
}

pub proof fn lemma_u64_below_pow256_32(v: nat)
    requires
        v < 0x1_0000_0000_0000_0000,
    ensures
        v % crate::bytes::pow256(32) == v,
{
    crate::bytes::lemma_pow256_mono(8, 32);
    vstd::arithmetic::div_mod::lemma_small_mod(v, crate::bytes::pow256(32));
}

/// The scalar added to a quantized point at `index` under `secret_key`.
pub fn point_mask(secret_key: &[u8; 32], index: usize) -> (r: [u8; 32])
    ensures
        r@ == scalar_bytes(point_mask_value(secret_key@, index as nat)),
        canonical_scalar(r@),
        le_value(r@) == point_mask_value(secret_key@, index as nat),
{
    let mut data: Vec<u8> = Vec::new();
    push_ascii(&mut data, "phi-chatbot:phi-all-point-mask:v1");
    data.push(0u8);
    push_all(&mut data, secret_key);
    push_le(&mut data, index as u128, 8);
    proof {
        assert(data@ =~= mask_domain() + seq![0u8] + secret_key@ + le_bytes(index as nat, 8));
    }
    hash_to_scalar(&data)
}

/// The secret of the directly encoded `phi_all` points.
pub fn phi_secret() -> (r: [u8; 32])
    ensures
        r@ == scalar_bytes(phi_secret_value()),
        canonical_scalar(r@),
        le_value(r@) == phi_secret_value(),
{
    let mut data: Vec<u8> = Vec::new();
    push_ascii(&mut data, "phi-chatbot:phi-all-points:bls12-381-keypair:v1");
    push_ascii(&mut data, ":encoded-phi");
    hash_to_scalar(&data)
}

/// The random-looking part of phin share `share_index` at point `point_index`.
pub fn phin_split_component(quantized_point: i64, share_index: usize, point_index: usize) -> (r: [u8; 32])
    ensures
        r@ == scalar_bytes(phin_split_value(quantized_point, share_index as nat, point_index as nat)),
        canonical_scalar(r@),
        le_value(r@) == phin_split_value(quantized_point, share_index as nat, point_index as nat),
{
    let mut data: Vec<u8> = Vec::new();
    push_ascii(&mut data, "phi-chatbot:phi-all-points:bls12-381-keypair:v1");
    push_ascii(&mut data, ":phin-split");
    push_le(&mut data, (quantized_point as u64) as u128, 8);
    push_le(&mut data, share_index as u128, 8);
    push_le(&mut data, point_index as u128, 8);
    hash_to_scalar(&data)
}

/// The mask secret of phin share `share_index`.
pub fn phin_share_secret(share_index: usize) -> (r: [u8; 32])
    ensures
        r@ == scalar_bytes(phin_share_secret_value(share_index as nat)),
        canonical_scalar(r@),
        le_value(r@) == phin_share_secret_value(share_index as nat),
{
    let mut data: Vec<u8> = Vec::new();
    push_ascii(&mut data, "phi-chatbot:phi-all-points:bls12-381-keypair:v1");
    push_ascii(&mut data, ":phin-share");
    push_le(&mut data, share_index as u128, 8);
    hash_to_scalar(&data)
}

/// The secret of public share `share_index` of the points encoded as
/// `encoded_points`.
pub fn share_secret(encoded_points: &[u8], share_index: usize) -> (r: [u8; 32])
    ensures
        r@ == scalar_bytes(share_secret_value(encoded_points@, share_index as nat)),
        canonical_scalar(r@),
        le_value(r@) == share_secret_value(encoded_points@, share_index as nat),
{
    let mut data: Vec<u8> = Vec::new();
    push_ascii(&mut data, "phi-chatbot:phi-all-points:bls12-381-keypair:v1");
    data.push(0u8);
    push_all(&mut data, encoded_points);
    push_le(&mut data, share_index as u128, 8);
    proof {
        assert(data@ =~= domain() + seq![0u8] + encoded_points@ + le_bytes(share_index as nat, 8));
    }
    hash_to_scalar(&data)
}

/// The hex-encoded compressed G1 point `generator * ((value + mask) mod r)`.
pub open spec fn masked_point_hex(value: nat, mask: nat) -> Seq<char> {
    hex_spec(crate::crypto::g1_mul_spec(scalar_bytes((value + mask) % scalar_modulus()))@)
}

/// Writes `generator * (value + mask)` as hex.
fn encode_masked(value: &[u8; 32], mask: &[u8; 32]) -> (r: String)
    requires
        canonical_scalar(value@),
        canonical_scalar(mask@),
    ensures
        r@ == masked_point_hex(le_value(value@), le_value(mask@)),
        forall|other: nat|
            other < scalar_modulus() && other != le_value(value@) ==> #[trigger] masked_point_hex(
                other,
                le_value(mask@),
            ) != r@,
{
    let sum = crate::crypto::scalar_add(value, mask);
    proof {
        crate::bytes::lemma_le_bytes_of_value(sum@);
    }
    let point = crate::crypto::g1_mul(&sum);
    let r = hex_encode(&point);
    proof {
        let m = le_value(mask@);
        let v = le_value(value@);
        let q = scalar_modulus();
        assert forall|other: nat| other < q && other != v implies #[trigger] masked_point_hex(other, m) != r@ by {
            let s2 = (other + m) % q;
            let t2 = scalar_bytes(s2);
            crate::recovery::lemma_scalar_bytes(s2);
            if masked_point_hex(other, m) == r@ {
                let g = crate::crypto::g1_mul_spec(t2);
                crate::hex::hex_round_trip(g@);
                crate::hex::hex_round_trip(point@);
                assert(g@.len() == 48 && point@.len() == 48);
                assert(g@ == point@);
                assert(g =~= point);
                assert(t2 == sum@);
                assert(s2 == (v + m) % q);
                assert(false) by (nonlinear_arith)
                    requires
                        other < q,
                        v < q,
                        m < q,
                        other != v,
                        (other + m) % q == (v + m) % q,
                        q > 0,
                ;
            }
        }
    }
    r
}

/// The hex encoding of a quantized point in the direct `phi_all` encoding.
pub open spec fn encoded_phi_point_spec(q: i64, point_index: nat) -> Seq<char> {
    masked_point_hex(quantized_scalar_value(q), point_mask_value(scalar_bytes(phi_secret_value()), point_index))
}

fn encode_quantized_phi_point(q: i64, point_index: usize) -> (r: String)
    requires
        valid_quantized(q),
    ensures
        r@ == encoded_phi_point_spec(q, point_index as nat),
        forall|other: i64|
            valid_quantized(other) && other != q ==> #[trigger] encoded_phi_point_spec(other, point_index as nat)
                != r@,
{
    let secret = phi_secret();
    let mask = point_mask(&secret, point_index);
    let value = quantized_point_scalar(q);
    let r = encode_masked(&value, &mask);
    proof {
        assert forall|other: i64| valid_quantized(other) && other != q implies #[trigger] encoded_phi_point_spec(
            other,
            point_index as nat,
        ) != r@ by {
            assert(quantized_scalar_value(other) < scalar_modulus());
            assert(quantized_scalar_value(other) != quantized_scalar_value(q));
        }
    }
    r
}

/// A point in the direct `phi_all` encoding.
pub fn encode_phi_point(point: PhiPoint, point_index: usize) -> (r: Result<String, PhiKeyError>)
    ensures
        match quantize_spec(point) {
            Ok(q) => r matches Ok(s) && s@ == encoded_phi_point_spec(q, point_index as nat),
            Err(e) => r == Err::<String, PhiKeyError>(e),
        },
        r matches Ok(s) ==> forall|other: i64|
            valid_quantized(other) && other != quantize_spec(point)->Ok_0 ==> #[trigger] encoded_phi_point_spec(
                other,
                point_index as nat,
            ) != s@,
{
    let q = quantize_point(point)?;
    Ok(encode_quantized_phi_point(q, point_index))
}

/// The hex encoding of a quantized point in the public share with secret `secret`.
pub open spec fn public_point_spec(q: i64, secret: Seq<u8>, point_index: nat) -> Seq<char> {
    masked_point_hex(quantized_scalar_value(q), point_mask_value(secret, point_index))
}

/// A point of a public share, masked under the share's scalar.
pub fn encode_public_phi_point(point: PhiPoint, share_scalar: &[u8; 32], point_index: usize) -> (r: Result<String, PhiKeyError>)
    ensures
        match quantize_spec(point) {
            Ok(q) => r matches Ok(s) && s@ == public_point_spec(q, share_scalar@, point_index as nat),
            Err(e) => r == Err::<String, PhiKeyError>(e),
        },
{
    let q = quantize_point(point)?;
    let mask = point_mask(share_scalar, point_index);
    let value = quantized_point_scalar(q);
    Ok(encode_masked(&value, &mask))
}

/// The sum of the split parts of the first `count` phin shares at a point.
pub open spec fn split_sum(q: i64, count: nat, point: nat) -> nat
    decreases count,
{
    if count == 0 {
        0
    } else {
        split_sum(q, (count - 1) as nat, point) + phin_split_value(q, (count - 1) as nat, point)
    }
}

/// The unmasked value of phin share `share` of `share_count` at a point: a split
/// part for every share but the last, which takes the quantized point's scalar
/// minus the other parts.
pub open spec fn phin_share_value_spec(q: i64, share: nat, share_count: nat, point: nat) -> nat {
    if share_count == 1 {
        quantized_scalar_value(q)
    } else if share + 1 < share_count {
        phin_split_value(q, share, point)
    } else {
        ((quantized_scalar_value(q) - split_sum(q, (share_count - 1) as nat, point)) % (
        scalar_modulus() as int)) as nat
    }
}

pub fn phin_share_value(quantized_point: i64, share_index: usize, share_count: usize, point_index: usize) -> (r: [u8; 32])
    requires
        valid_quantized(quantized_point),
        share_count >= 1,
    ensures
        canonical_scalar(r@),
        le_value(r@) == phin_share_value_spec(
            quantized_point,
            share_index as nat,
            share_count as nat,
            point_index as nat,
        ),
{
    if share_count == 1 {
        return quantized_point_scalar(quantized_point);
    }
    if share_index < share_count - 1 {
        return phin_split_component(quantized_point, share_index, point_index);
    }
    let ghost m = scalar_modulus() as int;
    let ghost whole = quantized_scalar_value(quantized_point) as int;
    let mut value = quantized_point_scalar(quantized_point);
    proof {
        vstd::arithmetic::div_mod::lemma_small_mod(whole as nat, m as nat);
    }
    let mut index: usize = 0;
    while index < share_count - 1
        invariant
            share_count >= 2,
            index <= share_count - 1,
            m == scalar_modulus(),
            whole == quantized_scalar_value(quantized_point),
            canonical_scalar(value@),
            le_value(value@) == (whole - split_sum(quantized_point, index as nat, point_index as nat)) % m,
        decreases share_count - 1 - index,
    {
        let component = phin_split_component(quantized_point, index, point_index);
        let ghost before = le_value(value@) as int;
        let ghost c = le_value(component@) as int;
        let ghost s = split_sum(quantized_point, index as nat, point_index as nat) as int;
        value = crate::crypto::scalar_sub(&value, &component);
        proof {
            vstd::arithmetic::div_mod::lemma_sub_mod_noop(whole - s, c, m);
            vstd::arithmetic::div_mod::lemma_small_mod(c as nat, m as nat);
            vstd::arithmetic::div_mod::lemma_mod_mod(whole - s, m, 1);
            assert(before % m == before) by {
                vstd::arithmetic::div_mod::lemma_small_mod(before as nat, m as nat);
            }
            assert(split_sum(quantized_point, (index + 1) as nat, point_index as nat) == s + c);
        }
        index = index + 1;
    }
    value
}

/// A point of phin share `share_index`: its unmasked value, masked under the
/// share's own secret.
pub open spec fn phin_share_point_spec(q: i64, share: nat, share_count: nat, point: nat) -> Seq<char> {
    masked_point_hex(
        phin_share_value_spec(q, share, share_count, point),
        point_mask_value(scalar_bytes(phin_share_secret_value(share)), point),
    )
}

pub fn encode_phin_share_point(quantized_point: i64, share_index: usize, share_count: usize, point_index: usize) -> (r: String)
    requires
        valid_quantized(quantized_point),
        share_count >= 1,
    ensures
        r@ == phin_share_point_spec(
            quantized_point,
            share_index as nat,
            share_count as nat,
            point_index as nat,
        ),
{
    let value = phin_share_value(quantized_point, share_index, share_count, point_index);
    let secret = phin_share_secret(share_index);
    let mask = point_mask(&secret, point_index);
    encode_masked(&value, &mask)
}

/// The sum of the unmasked values of the first `k` phin shares at a point.
pub open spec fn phin_values_sum(q: i64, k: nat, share_count: nat, point: nat) -> nat
    decreases k,
{
    if k == 0 {
        0
    } else {
        phin_values_sum(q, (k - 1) as nat, share_count, point) + phin_share_value_spec(
            q,
            (k - 1) as nat,
            share_count,
            point,
        )
    }
}

pub proof fn lemma_phin_values_sum_prefix(q: i64, k: nat, share_count: nat, point: nat)
    requires
        share_count >= 2,
        k <= share_count - 1,
    ensures
        phin_values_sum(q, k, share_count, point) == split_sum(q, k, point),
    decreases k,
{
    if k > 0 {
        lemma_phin_values_sum_prefix(q, (k - 1) as nat, share_count, point);
    }
}

pub proof fn lemma_mod_combine(s: int, whole: int, m: int)
    requires
        m > 0,
        0 <= whole < m,
    ensures
        (s + (whole - s) % m) % m == whole,
{
    vstd::arithmetic::div_mod::lemma_add_mod_noop(s, whole - s, m);
    vstd::arithmetic::div_mod::lemma_mod_mod(whole - s, m, 1);
    vstd::arithmetic::div_mod::lemma_add_mod_noop(s, (whole - s) % m, m);
    vstd::arithmetic::div_mod::lemma_small_mod(whole as nat, m as nat);
}

/// The phin shares are additive shares of the point: for every valid quantized
/// point, share count and point index, the unmasked values of all the shares add
/// up, modulo the scalar field order, to the point's scalar.
pub proof fn phin_shares_combine_to_point(q: i64, share_count: nat, point: nat)
    requires
        valid_quantized(q),
        share_count >= 1,
    ensures
        phin_values_sum(q, share_count, share_count, point) % scalar_modulus()
            == quantized_scalar_value(q),
{
    let whole = quantized_scalar_value(q);
    assert(whole < scalar_modulus());
    if share_count == 1 {
        assert(phin_values_sum(q, 0, 1, point) == 0);
        assert(phin_values_sum(q, 1, 1, point) == whole);
        vstd::arithmetic::div_mod::lemma_small_mod(whole, scalar_modulus());
    } else {
        let n1 = (share_count - 1) as nat;
        lemma_phin_values_sum_prefix(q, n1, share_count, point);
        let s = split_sum(q, n1, point);
        assert(phin_share_value_spec(q, n1, share_count, point) == ((whole - s) % (
        scalar_modulus() as int)) as nat);
        lemma_mod_combine(s as int, whole as int, scalar_modulus() as int);
    }
}

/// The label of share `index`: `a`..`z`, then `s26`, `s27`, ...
pub open spec fn share_label_spec(index: nat) -> Seq<char> {
    index_label('s', index)
}

pub fn share_label(index: usize) -> (r: String)
    ensures
        r@ == share_label_spec(index as nat),
{
    label_for_index('s', index)
}

/// The label of the pair of shares `left` and `right`, the smaller index first.
pub open spec fn pair_label_spec(left: nat, right: nat) -> Seq<char> {
    if left <= right {
        share_label_spec(left) + share_label_spec(right)
    } else {
        share_label_spec(right) + share_label_spec(left)
    }
}

pub fn pair_label(left: usize, right: usize) -> (r: String)
    ensures
        r@ == pair_label_spec(left as nat, right as nat),
{
    let first = if left <= right {
        left
    } else {
        right
    };
    let second = if left <= right {
        right
    } else {
        left
    };
    let mut out = share_label(first);
    let tail = share_label(second);
    crate::text::push_str(&mut out, tail.as_str());
    out
}

/// The formula of phin share `index` of `share_count`: its own term, then one
/// pair term for every other share, joined with ` + `.
pub open spec fn component_formula_spec(index: nat, share_count: nat) -> Seq<char> {
    "phi("@ + share_label_spec(index) + ")"@ + pair_terms_spec(index, share_count, share_count)
}

/// The pair terms of share `index` with the shares below `k`.
pub open spec fn pair_terms_spec(index: nat, share_count: nat, k: nat) -> Seq<char>
    decreases k,
{
    if k == 0 {
        Seq::empty()
    } else {
        let other = (k - 1) as nat;
        pair_terms_spec(index, share_count, other) + if other == index {
            Seq::empty()
        } else {
            " + phi("@ + pair_label_spec(index, other) + ")"@
        }
    }
}

pub fn component_formula(index: usize, share_count: usize) -> (r: String)
    ensures
        r@ == component_formula_spec(index as nat, share_count as nat),
{
    let mut out = String::new();
    crate::text::push_str(&mut out, "phi(");
    let label = share_label(index);
    crate::text::push_str(&mut out, label.as_str());
    crate::text::push_str(&mut out, ")");
    let ghost head = out@;
    let mut other: usize = 0;
    while other < share_count
        invariant
            other <= share_count,
            out@ == head + pair_terms_spec(index as nat, share_count as nat, other as nat),
        decreases share_count - other,
    {
        if other != index {
            crate::text::push_str(&mut out, " + phi(");
            let pair = pair_label(index, other);
            crate::text::push_str(&mut out, pair.as_str());
            crate::text::push_str(&mut out, ")");
        }
        proof {
            assert(pair_terms_spec(index as nat, share_count as nat, (other + 1) as nat)
                == pair_terms_spec(index as nat, share_count as nat, other as nat) + if other
                == index {
                Seq::empty()
            } else {
                " + phi("@ + pair_label_spec(index as nat, other as nat) + ")"@
            });
        }
        other = other + 1;
    }
    proof {
        assert(head == "phi("@ + share_label_spec(index as nat) + ")"@);
    }
    out
}

/// The canonical bits of the points, eight little-endian bytes each.
pub open spec fn points_bits_bytes(points: Seq<PhiPoint>) -> Seq<u8>
    decreases points.len(),
{
    if points.len() == 0 {
        Seq::empty()
    } else {
        points_bits_bytes(points.drop_last()) + le_bytes(
            canonical_bits_spec(points.last().bits) as nat,
            8,
        )
    }
}

/// The byte encoding of the points that the shares and the fingerprint are derived
/// from: their count, then their canonical bits.
pub open spec fn encoded_points_spec(points: Seq<PhiPoint>) -> Seq<u8> {
    le_bytes(points.len(), 8) + points_bits_bytes(points)
}

pub fn encode_phi_all_points(points: &[PhiPoint]) -> (r: Vec<u8>)
    ensures
        r@ == encoded_points_spec(points@),
{
    let mut output: Vec<u8> = Vec::new();
    push_le(&mut output, points.len() as u128, 8);
    let ghost head = output@;
    let mut i: usize = 0;
    while i < points.len()
        invariant
            i <= points@.len(),
            head == le_bytes(points@.len() as nat, 8),
            output@ == head + points_bits_bytes(points@.take(i as int)),
        decreases points@.len() - i,
    {
        let bits = canonical_bits(points[i].bits);
        push_le(&mut output, bits as u128, 8);
        proof {
            let t = points@.take(i + 1);
            assert(t.drop_last() == points@.take(i as int));
            assert(t.last() == points@[i as int]);
        }
        i = i + 1;
    }
    proof {
        assert(points@.take(i as int) == points@);
    }
    output
}

/// The index of the first point, from `k` on, that cannot be quantized.
pub open spec fn first_bad_from(points: Seq<PhiPoint>, k: nat) -> Option<nat>
    decreases points.len() - k,
{
    if k >= points.len() {
        None
    } else if quantize_spec(points[k as int]) is Err {
        Some(k)
    } else {
        first_bad_from(points, k + 1)
    }
}

/// All the points quantized, or the error of the first one that cannot be.
pub open spec fn quantized_all_spec(points: Seq<PhiPoint>) -> Result<Seq<i64>, PhiKeyError> {
    match first_bad_from(points, 0) {
        Some(k) => Err(quantize_spec(points[k as int])->Err_0),
        None => Ok(Seq::new(points.len(), |j: int| quantize_spec(points[j])->Ok_0)),
    }
}

pub proof fn lemma_first_bad_none(points: Seq<PhiPoint>, k: nat)
    requires
        first_bad_from(points, k) is None,
    ensures
        forall|j: int| k <= j < points.len() ==> #[trigger] quantize_spec(points[j]) is Ok,
    decreases points.len() - k,
{
    if k < points.len() {
        lemma_first_bad_none(points, k + 1);
    }
}

fn quantize_all(points: &[PhiPoint]) -> (r: Result<Vec<i64>, PhiKeyError>)
    ensures
        match quantized_all_spec(points@) {
            Ok(qs) => r matches Ok(v) && v@ == qs,
            Err(e) => r == Err::<Vec<i64>, PhiKeyError>(e),
        },
        r matches Ok(v) ==> forall|j: int| 0 <= j < v@.len() ==> valid_quantized(#[trigger] v@[j]),
{
    let mut out: Vec<i64> = Vec::new();
    let mut i: usize = 0;
    while i < points.len()
        invariant
            i <= points@.len(),
            out@.len() == i,
            first_bad_from(points@, 0) == first_bad_from(points@, i as nat),
            forall|j: int| 0 <= j < i ==> quantize_spec(points@[j]) == Ok::<i64, PhiKeyError>(#[trigger] out@[j]),
            forall|j: int| 0 <= j < i ==> valid_quantized(#[trigger] out@[j]),
        decreases points@.len() - i,
    {
        let q = quantize_point(points[i])?;
        out.push(q);
        i = i + 1;
    }
    proof {
        let qs = quantized_all_spec(points@);
        assert(qs is Ok);
        assert(qs->Ok_0 =~= out@);
    }
    Ok(out)
}

/// The entries of a public share among the first `k` points: the points whose
/// index leaves remainder `share` when divided by `share_count`, in order, each
/// masked under the share's secret.
pub open spec fn entries_upto(qs: Seq<i64>, k: nat, share: nat, share_count: nat, secret: Seq<u8>) -> Seq<(usize, Seq<char>)>
    decreases k,
{
    if k == 0 {
        Seq::empty()
    } else {
        let j = (k - 1) as nat;
        entries_upto(qs, j, share, share_count, secret) + if j % share_count == share {
            seq![(j as usize, public_point_spec(qs[j as int], secret, j))]
        } else {
            Seq::empty()
        }
    }
}

pub open spec fn entry_views(v: Seq<(usize, String)>) -> Seq<(usize, Seq<char>)> {
    v.map_values(|e: (usize, String)| (e.0, e.1@))
}

/// One public share: its index, its secret scalar in hex, and the points
/// assigned to it, each masked under that scalar.
#[derive(Clone, Debug, PartialEq, Eq)]
pub struct PhiKeyShare {
    pub index: usize,
    pub share_hex: String,
    pub public_phi_points_hex: Vec<(usize, String)>,
}

/// The secret scalar of public share `share`.
pub open spec fn share_secret_bytes(encoded: Seq<u8>, share: nat) -> Seq<u8> {
    scalar_bytes(share_secret_value(encoded, share))
}

/// Share `share` of `share_count` for the quantized points `qs` encoded as `encoded`.
pub open spec fn share_spec(s: PhiKeyShare, qs: Seq<i64>, share: nat, share_count: nat, encoded: Seq<u8>) -> bool {
    &&& s.index == share
    &&& s.share_hex@ == hex_spec(share_secret_bytes(encoded, share))
    &&& entry_views(s.public_phi_points_hex@) == entries_upto(
        qs,
        qs.len(),
        share,
        share_count,
        share_secret_bytes(encoded, share),
    )
}

/// `Scalar::from_bytes` of 32 hex-encoded bytes.
pub open spec fn scalar_from_hex_spec(encoded: Seq<u8>) -> Option<Seq<u8>> {
    match crate::hex::hex_decode_spec(encoded, 32) {
        Some(bytes) => if le_value(bytes) < scalar_modulus() {
            Some(bytes)
        } else {
            None
        },
        None => None,
    }
}

pub fn scalar_from_hex(encoded: &str) -> (r: Option<[u8; 32]>)
    ensures
        match scalar_from_hex_spec(encoded.spec_bytes()) {
            Some(bytes) => r matches Some(s) && s@ == bytes,
            None => r is None,
        },
{
    let bytes = crate::hex::hex_decode_array::<32>(encoded)?;
    crate::crypto::scalar_from_bytes(&bytes)
}

fn build_share(qs: &Vec<i64>, encoded: &Vec<u8>, share_index: usize, share_count: usize) -> (r: Result<PhiKeyShare, PhiKeyError>)
    requires
        share_count >= 1,
        share_index < share_count,
        forall|j: int| 0 <= j < qs@.len() ==> valid_quantized(#[trigger] qs@[j]),
    ensures
        r matches Ok(s) && share_spec(s, qs@, share_index as nat, share_count as nat, encoded@),
{
    let secret = share_secret(encoded.as_slice(), share_index);
    let share_hex = hex_encode(&secret);
    let scalar = match scalar_from_hex(share_hex.as_str()) {
        Some(scalar) => scalar,
        None => {
            proof {
                crate::hex::lemma_hex_decode_encoding(secret@);
            }
            return Err(PhiKeyError::InvalidShare);
        },
    };
    proof {
        crate::hex::lemma_hex_decode_encoding(secret@);
        assert(scalar@ == secret@);
    }
    let mut entries: Vec<(usize, String)> = Vec::new();
    let mut j: usize = 0;
    while j < qs.len()
        invariant
            j <= qs@.len(),
            share_count >= 1,
            scalar@ == share_secret_bytes(encoded@, share_index as nat),
            canonical_scalar(scalar@),
            forall|k: int| 0 <= k < qs@.len() ==> valid_quantized(#[trigger] qs@[k]),
            entry_views(entries@) == entries_upto(
                qs@,
                j as nat,
                share_index as nat,
                share_count as nat,
                scalar@,
            ),
        decreases qs@.len() - j,
    {
        let ghost before = entries@;
        if j % share_count == share_index {
            let mask = point_mask(&scalar, j);
            let value = quantized_point_scalar(qs[j]);
            let point = encode_masked(&value, &mask);
            entries.push((j, point));
            proof {
                assert(entry_views(entries@) == entry_views(before).push((j, point@)));
            }
        } else {
            proof {
                assert(entry_views(before) + Seq::<(usize, Seq<char>)>::empty() == entry_views(
                    before,
                ));
            }
        }
        j = j + 1;
    }
    Ok(PhiKeyShare { index: share_index, share_hex, public_phi_points_hex: entries })
}

/// The key derived from the `phi_all` curve points.
#[derive(Clone, Debug, PartialEq, Eq)]
pub struct PhiKeyPair {
    pub shares: Vec<PhiKeyShare>,
    pub fingerprint_hex: String,
    /// The quantized points the key was derived from; the points themselves are
    /// these values divided by ten, or NaN and the infinities for the reserved
    /// values.
    pub quantized_points: Vec<i64>,
}

/// `pair` is the key of `points` split into `share_count` public shares.
pub open spec fn key_pair_spec(pair: PhiKeyPair, points: Seq<PhiPoint>, share_count: nat) -> bool {
    let qs = quantized_all_spec(points)->Ok_0;
    let encoded = encoded_points_spec(points);
    &&& pair.quantized_points@ == qs
    &&& pair.shares@.len() == share_count
    &&& forall|i: int|
        0 <= i < share_count ==> share_spec(#[trigger] pair.shares@[i], qs, i as nat, share_count, encoded)
    &&& pair.fingerprint_hex@ == hex_spec(sha512_spec(encoded).take(16))
}

impl PhiKeyPair {
    /// At least one share, shares numbered by their position, and points that are
    /// valid quantized values.
    pub open spec fn wf(&self) -> bool {
        &&& self.shares@.len() >= 1
        &&& forall|i: int| 0 <= i < self.shares@.len() ==> (#[trigger] self.shares@[i]).index == i
        &&& forall|j: int| 0 <= j < self.quantized_points@.len() ==> valid_quantized(#[trigger] self.quantized_points@[j])
    }

    /// Derives the key of the `phi_all` points: the points are quantized, the
    /// point at index `j` goes to public share `j % share_count`, and the key's
    /// fingerprint is the first 16 bytes of the SHA-512 digest of the points.
    pub fn from_phi_all_points(points: &[PhiPoint], share_count: usize) -> (r: Result<Self, PhiKeyError>)
        ensures
            share_count == 0 ==> r == Err::<Self, PhiKeyError>(PhiKeyError::InvalidShareCount),
            share_count > 0 && points@.len() == 0 ==> r == Err::<Self, PhiKeyError>(PhiKeyError::EmptyPhiAll),
            share_count > 0 && points@.len() > 0 ==> match quantized_all_spec(points@) {
                Err(e) => r == Err::<Self, PhiKeyError>(e),
                Ok(qs) => r matches Ok(pair) && pair.wf() && key_pair_spec(pair, points@, share_count as nat),
            },
            r matches Ok(pair) ==> crate::recovery::indices_fit(pair.shares@) && crate::recovery::genuine_pair(
                pair,
                POINT_LIMIT as int,
            ),
            r matches Ok(pair) ==> pair.fingerprint_hex@.len() == 32,
    {
        if share_count == 0 {
            return Err(PhiKeyError::InvalidShareCount);
        }
        if points.len() == 0 {
            return Err(PhiKeyError::EmptyPhiAll);
        }
        let encoded = encode_phi_all_points(points);
        let quantized = quantize_all(points)?;
        let mut shares: Vec<PhiKeyShare> = Vec::new();
        let mut i: usize = 0;
        while i < share_count
            invariant
                i <= share_count,
                share_count >= 1,
                encoded@ == encoded_points_spec(points@),
                quantized_all_spec(points@) == Ok::<Seq<i64>, PhiKeyError>(quantized@),
                forall|j: int| 0 <= j < quantized@.len() ==> valid_quantized(#[trigger] quantized@[j]),
                shares@.len() == i,
                forall|k: int|
                    0 <= k < i ==> share_spec(#[trigger] shares@[k], quantized@, k as nat, share_count as nat, encoded@),
            decreases share_count - i,
        {
            let share = build_share(&quantized, &encoded, i, share_count)?;
            shares.push(share);
            i = i + 1;
        }
        let digest = sha512(encoded.as_slice());
        let head = crate::bytes::prefix_bytes(&digest, 16);
        let fingerprint_hex = hex_encode(head.as_slice());
        proof {
            assert(head@.len() == 16);
            crate::hex::lemma_hex_spec_len(head@);
        }
        let pair = PhiKeyPair { shares, fingerprint_hex, quantized_points: quantized };
        proof {
            crate::recovery::derived_keys_are_recoverable(pair, points@, share_count as nat);
        }
        Ok(pair)
    }

    /// The formula of each phin share, by share index.
    pub fn component_terms(&self) -> (r: Vec<(usize, String)>)
        ensures
            r@.len() == self.shares@.len(),
            forall|i: int|
                0 <= i < r@.len() ==> (#[trigger] r@[i]).0 == self.shares@[i].index && r@[i].1@
                    == component_formula_spec(self.shares@[i].index as nat, self.shares@.len() as nat),
    {
        let share_count = self.shares.len();
        let mut out: Vec<(usize, String)> = Vec::new();
        let mut i: usize = 0;
        while i < share_count
            invariant
                i <= share_count == self.shares@.len(),
                out@.len() == i,
                forall|k: int|
                    0 <= k < i ==> (#[trigger] out@[k]).0 == self.shares@[k].index && out@[k].1@
                        == component_formula_spec(self.shares@[k].index as nat, share_count as nat),
            decreases share_count - i,
        {
            let index = self.shares[i].index;
            out.push((index, component_formula(index, share_count)));
            i = i + 1;
        }
        out
    }
}

/// The points in the direct `phi_all` encoding, by point index.
pub open spec fn direct_entries(qs: Seq<i64>) -> Seq<(usize, Seq<char>)> {
    Seq::new(qs.len(), |j: int| (j as usize, encoded_phi_point_spec(qs[j], j as nat)))
}

/// The points of phin share `share` of `share_count`, by point index.
pub open spec fn phin_entries(qs: Seq<i64>, share: nat, share_count: nat) -> Seq<(usize, Seq<char>)> {
    Seq::new(qs.len(), |j: int| (j as usize, phin_share_point_spec(qs[j], share, share_count, j as nat)))
}

/// No other valid quantized value at an entry's index has the entry's encoding:
/// each directly encoded point determines its quantized value.
pub open spec fn distinct_direct_entries(qs: Seq<i64>, entries: Seq<(usize, Seq<char>)>) -> bool {
    forall|j: int, other: i64|
        0 <= j < qs.len() && valid_quantized(other) && other != qs[j] ==> #[trigger] encoded_phi_point_spec(
            other,
            j as nat,
        ) != entries[j].1
}

fn encode_direct_entries(qs: &Vec<i64>) -> (r: Vec<(usize, String)>)
    requires
        forall|j: int| 0 <= j < qs@.len() ==> valid_quantized(#[trigger] qs@[j]),
    ensures
        entry_views(r@) == direct_entries(qs@),
        distinct_direct_entries(qs@, entry_views(r@)),
{
    let mut out: Vec<(usize, String)> = Vec::new();
    let mut j: usize = 0;
    while j < qs.len()
        invariant
            j <= qs@.len(),
            forall|k: int| 0 <= k < qs@.len() ==> valid_quantized(#[trigger] qs@[k]),
            entry_views(out@) == direct_entries(qs@).take(j as int),
            distinct_direct_entries(qs@.take(j as int), entry_views(out@)),
        decreases qs@.len() - j,
    {
        let point = encode_quantized_phi_point(qs[j], j);
        let ghost before = entry_views(out@);
        out.push((j, point));
        proof {
            assert(direct_entries(qs@).take(j + 1) == direct_entries(qs@).take(j as int).push(
                (j, point@),
            ));
            let t = qs@.take(j + 1);
            assert(entry_views(out@) == before.push((j, point@)));
            assert forall|k: int, other: i64|
                0 <= k < t.len() && valid_quantized(other) && other != t[k] implies #[trigger] encoded_phi_point_spec(
                other,
                k as nat,
            ) != entry_views(out@)[k].1 by {
                if k < j {
                    assert(t[k] == qs@.take(j as int)[k]);
                    assert(entry_views(out@)[k] == before[k]);
                }
            }
        }
        j = j + 1;
    }
    proof {
        assert(direct_entries(qs@).take(j as int) == direct_entries(qs@));
    }
    out
}

/// The `phi_all` points in the direct encoding, each with its index; the error of
/// the first point that cannot be quantized.
pub fn encoded_phi_points_from_points(points: &[PhiPoint]) -> (r: Result<Vec<(usize, String)>, PhiKeyError>)
    ensures
        match quantized_all_spec(points@) {
            Ok(qs) => r matches Ok(v) && entry_views(v@) == direct_entries(qs) && distinct_direct_entries(
                qs,
                entry_views(v@),
            ),
            Err(e) => r == Err::<Vec<(usize, String)>, PhiKeyError>(e),
        },
{
    let qs = quantize_all(points)?;
    Ok(encode_direct_entries(&qs))
}

fn encode_phin_entries(qs: &Vec<i64>, share_index: usize, share_count: usize) -> (r: Vec<(usize, String)>)
    requires
        share_count >= 1,
        forall|j: int| 0 <= j < qs@.len() ==> valid_quantized(#[trigger] qs@[j]),
    ensures
        entry_views(r@) == phin_entries(qs@, share_index as nat, share_count as nat),
{
    let mut out: Vec<(usize, String)> = Vec::new();
    let mut j: usize = 0;
    while j < qs.len()
        invariant
            j <= qs@.len(),
            share_count >= 1,
            forall|k: int| 0 <= k < qs@.len() ==> valid_quantized(#[trigger] qs@[k]),
            entry_views(out@) == phin_entries(qs@, share_index as nat, share_count as nat).take(
                j as int,
            ),
        decreases qs@.len() - j,
    {
        let point = encode_phin_share_point(qs[j], share_index, share_count, j);
        out.push((j, point));
        proof {
            let all = phin_entries(qs@, share_index as nat, share_count as nat);
            assert(all.take(j + 1) == all.take(j as int).push((j, point@)));
        }
        j = j + 1;
    }
    proof {
        let all = phin_entries(qs@, share_index as nat, share_count as nat);
        assert(all.take(j as int) == all);
    }
    out
}

impl PhiKeyPair {
    /// The key's points in the direct `phi_all` encoding, each with its index.
    pub fn encoded_phi_points(&self) -> (r: Result<Vec<(usize, String)>, PhiKeyError>)
        requires
            self.wf(),
        ensures
            r matches Ok(v) && entry_views(v@) == direct_entries(self.quantized_points@)
                && distinct_direct_entries(self.quantized_points@, entry_views(v@)),
    {
        Ok(encode_direct_entries(&self.quantized_points))
    }

    /// The encrypted phin shares: for each share its index, its component formula
    /// and its masked value at every point.
    pub fn encrypted_phin_shares(&self) -> (r: Result<Vec<(usize, String, Vec<(usize, String)>)>, PhiKeyError>)
        requires
            self.wf(),
        ensures
            r matches Ok(v) && v@.len() == self.shares@.len() && forall|i: int|
                0 <= i < v@.len() ==> {
                    &&& (#[trigger] v@[i]).0 == i
                    &&& v@[i].1@ == component_formula_spec(i as nat, self.shares@.len() as nat)
                    &&& entry_views(v@[i].2@) == phin_entries(
                        self.quantized_points@,
                        i as nat,
                        self.shares@.len() as nat,
                    )
                },
    {
        let terms = self.component_terms();
        let share_count = self.shares.len();
        let mut out: Vec<(usize, String, Vec<(usize, String)>)> = Vec::new();
        let mut i: usize = 0;
        while i < terms.len()
            invariant
                self.wf(),
                share_count == self.shares@.len(),
                terms@.len() == share_count,
                forall|k: int|
                    0 <= k < terms@.len() ==> (#[trigger] terms@[k]).0 == self.shares@[k].index
                        && terms@[k].1@ == component_formula_spec(
                        self.shares@[k].index as nat,
                        share_count as nat,
                    ),
                i <= terms@.len(),
                out@.len() == i,
                forall|k: int|
                    0 <= k < i ==> {
                        &&& (#[trigger] out@[k]).0 == k
                        &&& out@[k].1@ == component_formula_spec(k as nat, share_count as nat)
                        &&& entry_views(out@[k].2@) == phin_entries(
                            self.quantized_points@,
                            k as nat,
                            share_count as nat,
                        )
                    },
            decreases terms@.len() - i,
        {
            let share_index = terms[i].0;
            let formula = terms[i].1.clone();
            let points = encode_phin_entries(&self.quantized_points, share_index, share_count);
            proof {
                assert(self.shares@[i as int].index == i);
            }
            out.push((share_index, formula, points));
            i = i + 1;
        }
        Ok(out)
    }
}

/// The two points are the same, or both are zeros, of either sign, scaled to 0.
pub open spec fn same_up_to_zero_sign(a: PhiPoint, b: PhiPoint) -> bool {
    ||| a == b
    ||| {
        &&& a.scaled == 0
        &&& b.scaled == 0
        &&& (a.bits == 0 || a.bits == NEGATIVE_ZERO_BITS)
        &&& (b.bits == 0 || b.bits == NEGATIVE_ZERO_BITS)
    }
}

proof fn lemma_zero_sign_point(a: PhiPoint, b: PhiPoint)
    requires
        same_up_to_zero_sign(a, b),
    ensures
        quantize_spec(a) == quantize_spec(b),
        canonical_bits_spec(a.bits) == canonical_bits_spec(b.bits),
{
    assert(!is_nan_bits(0u64)) by (bit_vector);
    assert(!is_nan_bits(0x8000_0000_0000_0000u64)) by (bit_vector);
}

proof fn lemma_zero_sign_first_bad(points: Seq<PhiPoint>, other: Seq<PhiPoint>, k: nat)
    requires
        points.len() == other.len(),
        forall|j: int| 0 <= j < points.len() ==> same_up_to_zero_sign(#[trigger] points[j], other[j]),
    ensures
        first_bad_from(points, k) == first_bad_from(other, k),
    decreases points.len() - k,
{
    if k < points.len() {
        lemma_zero_sign_point(points[k as int], other[k as int]);
        lemma_zero_sign_first_bad(points, other, k + 1);
    }
}

proof fn lemma_first_bad_in_range(points: Seq<PhiPoint>, m: nat)
    ensures
        first_bad_from(points, m) matches Some(k) ==> m <= k < points.len(),
    decreases points.len() - m,
{
    if m < points.len() {
        lemma_first_bad_in_range(points, m + 1);
    }
}

proof fn lemma_zero_sign_bits(points: Seq<PhiPoint>, other: Seq<PhiPoint>)
    requires
        points.len() == other.len(),
        forall|j: int| 0 <= j < points.len() ==> same_up_to_zero_sign(#[trigger] points[j], other[j]),
    ensures
        points_bits_bytes(points) == points_bits_bytes(other),
    decreases points.len(),
{
    if points.len() > 0 {
        let p = points.drop_last();
        let o = other.drop_last();
        assert forall|j: int| 0 <= j < p.len() implies same_up_to_zero_sign(#[trigger] p[j], o[j]) by {
            assert(p[j] == points[j] && o[j] == other[j]);
        }
        lemma_zero_sign_bits(p, o);
        lemma_zero_sign_point(points.last(), other.last());
    }
}

/// The sign of a zero point does not matter: points that differ only in the signs
/// of their zeros quantize alike, are encoded alike, and have the same keys.
pub proof fn zero_sign_does_not_matter(points: Seq<PhiPoint>, other: Seq<PhiPoint>, share_count: nat)
    requires
        points.len() == other.len(),
        forall|j: int| 0 <= j < points.len() ==> same_up_to_zero_sign(#[trigger] points[j], other[j]),
    ensures
        quantized_all_spec(points) == quantized_all_spec(other),
        encoded_points_spec(points) == encoded_points_spec(other),
        forall|pair: PhiKeyPair|
            #[trigger] key_pair_spec(pair, points, share_count) == key_pair_spec(pair, other, share_count),
{
    lemma_zero_sign_first_bad(points, other, 0);
    lemma_zero_sign_bits(points, other);
    match first_bad_from(points, 0) {
        Some(k) => {
            lemma_first_bad_in_range(points, 0);
            lemma_zero_sign_point(points[k as int], other[k as int]);
        },
        None => {
            assert forall|j: int| 0 <= j < points.len() implies quantize_spec(#[trigger] points[j]) == quantize_spec(other[j]) by {
                lemma_zero_sign_point(points[j], other[j]);
            }
            assert(Seq::new(points.len(), |j: int| quantize_spec(points[j])->Ok_0) =~= Seq::new(
                other.len(),
                |j: int| quantize_spec(other[j])->Ok_0,
            ));
        },
    }
}

/// Every point belongs to exactly one public share: the entry for point `j` is in
/// share `j % share_count` and in no other.
pub proof fn each_point_in_one_share(qs: Seq<i64>, k: nat, share: nat, share_count: nat, secret: Seq<u8>, j: nat)
    requires
        share_count >= 1,
        k <= qs.len() <= usize::MAX,
    ensures
        (exists|t: int| 0 <= t < entries_upto(qs, k, share, share_count, secret).len()
            && #[trigger] entries_upto(qs, k, share, share_count, secret)[t].0 == j) <==> (j < k
            && j % share_count == share),
    decreases k,
{
    let e = entries_upto(qs, k, share, share_count, secret);
    if k > 0 {
        let m = (k - 1) as nat;
        let prev = entries_upto(qs, m, share, share_count, secret);
        each_point_in_one_share(qs, m, share, share_count, secret, j);
        lemma_entries_below(qs, m, share, share_count, secret);
        if m % share_count == share {
            assert(e == prev.push((m as usize, public_point_spec(qs[m as int], secret, m))));
            assert(e[prev.len() as int].0 == m);
        } else {
            assert(e =~= prev);
        }
        if j < m && j % share_count == share {
            let t = choose|t: int| 0 <= t < prev.len() && #[trigger] prev[t].0 == j;
            assert(e[t] == prev[t]);
        }
        if exists|t: int| 0 <= t < e.len() && #[trigger] e[t].0 == j {
            let t = choose|t: int| 0 <= t < e.len() && #[trigger] e[t].0 == j;
            if t < prev.len() {
                assert(prev[t] == e[t]);
            }
        }
    }
}

/// The entries among the first `k` points name points below `k`.
pub proof fn lemma_entries_below(qs: Seq<i64>, k: nat, share: nat, share_count: nat, secret: Seq<u8>)
    ensures
        forall|t: int|
            0 <= t < entries_upto(qs, k, share, share_count, secret).len() ==> (
            #[trigger] entries_upto(qs, k, share, share_count, secret)[t]).0 < k,
    decreases k,
{
    if k > 0 {
        lemma_entries_below(qs, (k - 1) as nat, share, share_count, secret);
        let prev = entries_upto(qs, (k - 1) as nat, share, share_count, secret);
        let e = entries_upto(qs, k, share, share_count, secret);
        assert forall|t: int| 0 <= t < e.len() implies (#[trigger] e[t]).0 < k by {
            if t < prev.len() {
                assert(e[t] == prev[t]);
            }
        }
    }
}

} // verus!
