//! The calls into `sha2` and `bls12_381`.
//!
//! Scalars of the BLS12-381 scalar field are carried as their canonical 32-byte
//! little-endian encodings (`Scalar::to_bytes`), and G1 points as their 48-byte
//! compressed encodings (`G1Affine::to_compressed`).
use vstd::prelude::*;
use crate::bytes::{le_bytes, le_value};
use bls12_381::{G1Affine, G1Projective, Scalar};
use sha2::{Digest, Sha256, Sha512};

verus! {

/// The SHA-256 digest of a byte string.
pub uninterp spec fn sha256_spec(data: Seq<u8>) -> Seq<u8>;

/// The SHA-512 digest of a byte string.
pub uninterp spec fn sha512_spec(data: Seq<u8>) -> Seq<u8>;

/// The 48-byte compressed encoding of the G1 generator multiplied by a scalar.
pub uninterp spec fn g1_mul_spec(scalar: Seq<u8>) -> [u8; 48];

/// The compressed encoding of `point - generator * mask`, or `None` when `point`
/// is not the compressed encoding of a G1 point.
pub uninterp spec fn g1_unmask_spec(point: Seq<u8>, mask: Seq<u8>) -> Option<[u8; 48]>;

/// The order of the BLS12-381 scalar field,
/// 0x73eda753299d7d483339d80809a1d80553bda402fffe5bfeffffffff00000001.
pub open spec fn scalar_modulus() -> nat {
    52435875175126190479447740508185965837690552500527637822603658699938581184513nat
}

/// A canonical scalar encoding: 32 little-endian bytes whose value is below the
/// modulus.
pub open spec fn canonical_scalar(s: Seq<u8>) -> bool {
    s.len() == 32 && le_value(s) < scalar_modulus()
}

/// `Sha256::digest`: the 32-byte SHA-256 digest of `data`.
#[verifier::external_body]
pub fn sha256(data: &[u8]) -> (r: [u8; 32])
    ensures
        r@ == sha256_spec(data@),
{
    Sha256::digest(data).into()
}

/// `Sha512::digest`: the 64-byte SHA-512 digest of `data`.
#[verifier::external_body]
pub fn sha512(data: &[u8]) -> (r: [u8; 64])
    ensures
        r@ == sha512_spec(data@),
{
    Sha512::digest(data).into()
}

/// `Scalar::from_bytes_wide`: reads 64 bytes as a little-endian integer and
/// reduces it by the modulus; the result is returned through `Scalar::to_bytes`,
/// its canonical little-endian encoding.
#[verifier::external_body]
pub fn scalar_from_bytes_wide(bytes: &[u8; 64]) -> (r: [u8; 32])
    ensures
        canonical_scalar(r@),
        le_value(r@) == le_value(bytes@) % scalar_modulus(),
{
    Scalar::from_bytes_wide(bytes).to_bytes()
}

/// `Scalar::from_bytes`: accepts exactly the canonical encodings, and gives back
/// the same scalar through `Scalar::to_bytes`.
#[verifier::external_body]
pub fn scalar_from_bytes(bytes: &[u8; 32]) -> (r: Option<[u8; 32]>)
    ensures
        r is Some <==> le_value(bytes@) < scalar_modulus(),
        r matches Some(s) ==> s@ == bytes@,
{
    let scalar = Option::<Scalar>::from(Scalar::from_bytes(bytes))?;
    Some(scalar.to_bytes())
}

/// `Scalar + Scalar`: addition modulo the field order.
#[verifier::external_body]
pub fn scalar_add(a: &[u8; 32], b: &[u8; 32]) -> (r: [u8; 32])
    requires
        canonical_scalar(a@),
        canonical_scalar(b@),
    ensures
        canonical_scalar(r@),
        le_value(r@) == (le_value(a@) + le_value(b@)) % scalar_modulus(),
{
    (Scalar::from_bytes(a).unwrap() + Scalar::from_bytes(b).unwrap()).to_bytes()
}

/// `Scalar - Scalar`: subtraction modulo the field order.
#[verifier::external_body]
pub fn scalar_sub(a: &[u8; 32], b: &[u8; 32]) -> (r: [u8; 32])
    requires
        canonical_scalar(a@),
        canonical_scalar(b@),
    ensures
        canonical_scalar(r@),
        le_value(r@) == (le_value(a@) - le_value(b@)) % (scalar_modulus() as int),
{
    (Scalar::from_bytes(a).unwrap() - Scalar::from_bytes(b).unwrap()).to_bytes()
}

/// `G1Projective::generator() * scalar`, converted to `G1Affine` and written with
/// `to_compressed`. The generator spans the prime-order subgroup G1, of order the
/// scalar modulus, and the compressed encoding of a G1 point identifies it, so no
/// other canonical scalar is encoded as the same point.
#[verifier::external_body]
pub fn g1_mul(scalar: &[u8; 32]) -> (r: [u8; 48])
    requires
        canonical_scalar(scalar@),
    ensures
        r == g1_mul_spec(scalar@),
        forall|t: Seq<u8>| canonical_scalar(t) && #[trigger] g1_mul_spec(t) == r ==> t == scalar@,
{
    G1Affine::from(G1Projective::generator() * Scalar::from_bytes(scalar).unwrap()).to_compressed()
}

/// `G1Affine::from_compressed(point)`, then `point - G1Projective::generator() * mask`
/// written with `to_compressed`; `None` when `from_compressed` rejects the bytes.
/// `from_compressed` accepts what `to_compressed` writes and gives back the same
/// point, and the generator's multiples add as their scalars do modulo the group
/// order; so unmasking the encoding of `generator * ((a + mask) mod r)` gives the
/// encoding of `generator * a`.
#[verifier::external_body]
pub fn g1_unmask(point: &[u8; 48], mask: &[u8; 32]) -> (r: Option<[u8; 48]>)
    requires
        canonical_scalar(mask@),
    ensures
        r == g1_unmask_spec(point@, mask@),
        forall|a: Seq<u8>|
            canonical_scalar(a) && point@ == g1_mul_spec(
                le_bytes((le_value(a) + le_value(mask@)) % scalar_modulus(), 32),
            )@ ==> r == Some(#[trigger] g1_mul_spec(a)),
{
    let point = Option::<G1Affine>::from(G1Affine::from_compressed(point))?;
    let mask = Scalar::from_bytes(mask).unwrap();
    Some(G1Affine::from(G1Projective::from(point) - G1Projective::generator() * mask).to_compressed())
}

} // verus!
