use bls12_381::{G1Affine, G1Projective, Scalar};
use sha2::{Digest, Sha512};
use phinetwork::hex::hex_decode_array;
use phinetwork::phi_key::{
    component_formula, encode_phi_point, pair_label, phin_share_secret, point_mask, quantize_point,
    quantized_point_scalar, share_label, PhiKeyError, PhiKeyPair, PhiPoint, NAN_POINT,
    NEGATIVE_INFINITY_POINT, POSITIVE_INFINITY_POINT,
};

fn point(x: f64) -> PhiPoint {
    let canonical = if x == 0.0 { 0.0 } else { x };
    PhiPoint {
        bits: x.to_bits(),
        scaled: (canonical * 10.0).round() as i64,
    }
}

fn points(xs: &[f64]) -> Vec<PhiPoint> {
    xs.iter().map(|x| point(*x)).collect()
}

fn g1_from_hex(encoded: &str) -> Option<G1Affine> {
    let bytes = hex_decode_array::<48>(encoded)?;
    Option::from(G1Affine::from_compressed(&bytes))
}

fn scalar(bytes: &[u8; 32]) -> Scalar {
    Scalar::from_bytes(bytes).unwrap()
}

#[test]
fn key_pair_is_deterministic_for_same_phi_points() {
    let points = points(&[0.0, 0.25, -0.5, 1.0]);

    assert_eq!(
        PhiKeyPair::from_phi_all_points(&points, 3),
        PhiKeyPair::from_phi_all_points(&points, 3)
    );
}

#[test]
fn key_pair_changes_when_phi_points_change() {
    let left = PhiKeyPair::from_phi_all_points(&points(&[0.0, 0.25, 0.5, 1.0]), 2).unwrap();
    let right = PhiKeyPair::from_phi_all_points(&points(&[0.0, 0.25, 0.75, 1.0]), 2).unwrap();

    assert_ne!(left.shares, right.shares);
}

#[test]
fn key_pair_uses_bls12_381_serialized_share_lengths() {
    let key_pair = PhiKeyPair::from_phi_all_points(&points(&[0.0, 0.5, 1.0]), 2).unwrap();

    assert_eq!(key_pair.shares.len(), 2);
    assert!(key_pair
        .shares
        .iter()
        .all(|share| share.share_hex.len() == 64));
    assert_eq!(
        key_pair
            .shares
            .iter()
            .map(|share| share.public_phi_points_hex.len())
            .sum::<usize>(),
        3
    );
    assert!(key_pair.shares.iter().all(|share| share
        .public_phi_points_hex
        .iter()
        .all(|(_, point)| point.len() == 96)));
    assert_eq!(key_pair.fingerprint_hex.len(), 32);
}

#[test]
fn negative_zero_and_positive_zero_encode_the_same() {
    assert_eq!(
        PhiKeyPair::from_phi_all_points(&points(&[-0.0, 1.0]), 2),
        PhiKeyPair::from_phi_all_points(&points(&[0.0, 1.0]), 2)
    );
}

#[test]
fn shares_recover_phi_points_from_public_encoded_points() {
    let xs = [-1.2, 0.0, 0.1, 1.5];
    let key_pair = PhiKeyPair::from_phi_all_points(&points(&xs), 3).unwrap();
    let recovered = key_pair.recover_phi_all_points_within(20).unwrap();

    assert_eq!(
        recovered
            .iter()
            .map(|q| *q as f64 / 10.0)
            .collect::<Vec<_>>(),
        xs
    );
}

#[test]
fn encodes_non_finite_phi_points_as_reserved_values() {
    let key_pair = PhiKeyPair::from_phi_all_points(
        &points(&[f64::NAN, f64::INFINITY, f64::NEG_INFINITY]),
        2,
    )
    .unwrap();

    assert_eq!(key_pair.shares.len(), 2);
    assert_eq!(
        key_pair
            .shares
            .iter()
            .map(|share| share.public_phi_points_hex.len())
            .sum::<usize>(),
        3
    );
}

#[test]
fn each_phi_point_belongs_to_one_share() {
    let key_pair = PhiKeyPair::from_phi_all_points(&points(&[-1.2, 0.0, 0.1, 1.5]), 3).unwrap();
    let mut assigned_indices = key_pair
        .shares
        .iter()
        .flat_map(|share| {
            share
                .public_phi_points_hex
                .iter()
                .map(|(point_index, _)| *point_index)
        })
        .collect::<Vec<_>>();
    assigned_indices.sort_unstable();

    assert_eq!(assigned_indices, vec![0, 1, 2, 3]);
}

#[test]
fn encrypted_phin_shares_use_component_formulas() {
    let key_pair = PhiKeyPair::from_phi_all_points(&points(&[0.0, 0.1]), 3).unwrap();
    let shares = key_pair.encrypted_phin_shares().unwrap();

    assert_eq!(shares.len(), 3);
    assert_eq!(shares[0].1, "phi(a) + phi(ab) + phi(ac)");
    assert_eq!(shares[1].1, "phi(b) + phi(ab) + phi(bc)");
    assert_eq!(shares[2].1, "phi(c) + phi(ac) + phi(bc)");
    assert!(shares
        .iter()
        .all(|(_, _, points)| points.len() == 2
            && points.iter().all(|(_, point)| point.len() == 96)));
}

#[test]
fn all_encrypted_phin_shares_combine_to_phi() {
    let key_pair = PhiKeyPair::from_phi_all_points(&points(&[0.0, 0.1]), 3).unwrap();
    let shares = key_pair.encrypted_phin_shares().unwrap();

    for point_index in 0..2 {
        let mut combined = G1Projective::identity();

        for (share_index, _, points) in &shares {
            let encoded_point = points
                .iter()
                .find(|(index, _)| *index == point_index)
                .map(|(_, point)| point)
                .expect("share point");
            let point = g1_from_hex(encoded_point).expect("valid g1");
            let mask = scalar(&point_mask(&phin_share_secret(*share_index), point_index));

            combined += G1Projective::from(point) - (G1Projective::generator() * mask);
        }

        let quantized = key_pair.quantized_points[point_index];
        let expected =
            G1Affine::from(G1Projective::generator() * scalar(&quantized_point_scalar(quantized)));

        assert_eq!(
            G1Affine::from(combined).to_compressed(),
            expected.to_compressed()
        );
    }
}

#[test]
fn encoded_phi_points_include_all_phi_points() {
    let key_pair = PhiKeyPair::from_phi_all_points(&points(&[0.0, 0.1, f64::NAN]), 2).unwrap();
    let encoded_phi_points = key_pair.encoded_phi_points().unwrap();

    assert_eq!(encoded_phi_points.len(), 3);
    assert_eq!(
        encoded_phi_points
            .iter()
            .map(|(point_index, _)| *point_index)
            .collect::<Vec<_>>(),
        vec![0, 1, 2]
    );
    assert!(encoded_phi_points
        .iter()
        .all(|(_, point)| point.len() == 96));
}

#[test]
fn rejects_points_outside_recoverable_range() {
    assert!(matches!(
        PhiKeyPair::from_phi_all_points(&points(&[5_000_001.0]), 1),
        Err(PhiKeyError::PointOutOfRange { .. })
    ));
}

#[test]
fn rejects_zero_shares() {
    assert!(matches!(
        PhiKeyPair::from_phi_all_points(&points(&[0.0]), 0),
        Err(PhiKeyError::InvalidShareCount)
    ));
}

#[test]
fn rejects_an_empty_phi_all() {
    assert_eq!(
        PhiKeyPair::from_phi_all_points(&[], 2),
        Err(PhiKeyError::EmptyPhiAll)
    );
}

#[test]
fn out_of_range_error_names_the_point() {
    let big = 5_000_001.0_f64;
    assert_eq!(
        PhiKeyPair::from_phi_all_points(&points(&[0.0, big]), 1),
        Err(PhiKeyError::PointOutOfRange {
            point_bits: big.to_bits()
        })
    );
}

#[test]
fn quantizes_points_and_reserved_values() {
    assert_eq!(quantize_point(point(-1.2)), Ok(-12));
    assert_eq!(quantize_point(point(-0.0)), Ok(0));
    assert_eq!(quantize_point(point(5_000_000.0)), Ok(50_000_000));
    assert_eq!(quantize_point(point(f64::NAN)), Ok(NAN_POINT));
    assert_eq!(quantize_point(point(f64::INFINITY)), Ok(POSITIVE_INFINITY_POINT));
    assert_eq!(
        quantize_point(point(f64::NEG_INFINITY)),
        Ok(NEGATIVE_INFINITY_POINT)
    );
    assert!(quantize_point(point(-5_000_000.1)).is_err());
}

#[test]
fn quantized_scalar_is_the_offset_value() {
    let bytes = quantized_point_scalar(-12);
    assert_eq!(scalar(&bytes), Scalar::from(49_999_991u64));
    assert_eq!(&bytes[..4], &[0x77, 0xf0, 0xfa, 0x02]);
}

#[test]
fn recovery_reports_values_outside_the_lookup_range() {
    let key_pair = PhiKeyPair::from_phi_all_points(&points(&[2.5, 0.0]), 2).unwrap();
    assert_eq!(key_pair.recover_phi_all_points_within(20), None);
    assert_eq!(
        key_pair.recover_phi_all_points_within(25),
        Some(vec![25, 0])
    );
}

#[test]
fn recovery_reads_the_reserved_values() {
    let key_pair = PhiKeyPair::from_phi_all_points(
        &points(&[f64::NAN, f64::INFINITY, f64::NEG_INFINITY, 0.3]),
        2,
    )
    .unwrap();
    assert_eq!(
        key_pair.recover_phi_all_points_within(3),
        Some(vec![
            NAN_POINT,
            POSITIVE_INFINITY_POINT,
            NEGATIVE_INFINITY_POINT,
            3
        ])
    );
}

#[test]
fn recovery_needs_decodable_shares() {
    let mut key_pair = PhiKeyPair::from_phi_all_points(&points(&[0.1, 0.2]), 2).unwrap();
    key_pair.shares[1].share_hex = "zz".to_string();
    assert_eq!(key_pair.recover_phi_all_points_within(5), None);
}

#[test]
fn labels_shares_and_pairs() {
    assert_eq!(share_label(0), "a");
    assert_eq!(share_label(25), "z");
    assert_eq!(share_label(26), "s26");
    assert_eq!(pair_label(2, 0), "ac");
    assert_eq!(pair_label(1, 27), "bs27");
    assert_eq!(component_formula(1, 3), "phi(b) + phi(ab) + phi(bc)");
    assert_eq!(component_formula(0, 1), "phi(a)");
}

#[test]
fn fingerprint_is_the_digest_prefix_of_the_points() {
    let key_pair = PhiKeyPair::from_phi_all_points(&points(&[1.0]), 1).unwrap();
    let mut encoded = Vec::new();
    encoded.extend_from_slice(&1u64.to_le_bytes());
    encoded.extend_from_slice(&1.0f64.to_le_bytes());
    let digest = Sha512::digest(&encoded);
    let expected = digest[..16]
        .iter()
        .map(|byte| format!("{byte:02x}"))
        .collect::<String>();
    assert_eq!(key_pair.fingerprint_hex, expected);
}

#[test]
fn distinct_points_have_distinct_direct_encodings() {
    let a = encode_phi_point(point(0.5), 2).unwrap();
    let b = encode_phi_point(point(0.7), 2).unwrap();
    let c = encode_phi_point(point(0.5), 2).unwrap();
    assert_ne!(a, b);
    assert_eq!(a, c);
    assert_eq!(encode_phi_point(point(-0.0), 1), encode_phi_point(point(0.0), 1));
}
