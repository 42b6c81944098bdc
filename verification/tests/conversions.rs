use logproof::{
    bfv_delta, convert_to_polynomial, convert_to_polynomial_by_small_coeffs,
    convert_to_small_coeffs, convert_to_smallint, EncodedPolyArray, Error, FixedUint,
};

fn pa(num: usize, degree: usize, chunk: usize, words: Vec<u64>) -> EncodedPolyArray {
    EncodedPolyArray {
        num_polynomials: num,
        poly_modulus_degree: degree,
        coeff_modulus_size: chunk,
        words,
    }
}

#[test]
fn smallint_centers_words() {
    // m = 17, half = 8: words at most 8 stay, words above 8 wrap negative.
    let moduli = vec![17u64];
    let buf = pa(1, 4, 2, vec![0, 8, 9, 16, 1, 2, 3, 4]);
    let r = convert_to_smallint(&moduli, &buf).unwrap();
    assert_eq!(r, vec![vec![0i64, 8, -8, -1]]);
}

#[test]
fn smallint_two_polynomials() {
    let moduli = vec![17u64, 23u64];
    let buf = pa(2, 2, 1, vec![1, 16, 9, 0]);
    let r = convert_to_smallint(&moduli, &buf).unwrap();
    assert_eq!(r, vec![vec![1i64, -1], vec![-8i64, 0]]);
}

#[test]
fn smallint_rejects_word_at_modulus() {
    let moduli = vec![17u64];
    let buf = pa(1, 2, 1, vec![3, 17]);
    assert_eq!(
        convert_to_smallint(&moduli, &buf),
        Err(Error::PreconditionViolation)
    );
}

#[test]
fn smallint_rejects_bad_shape() {
    let moduli = vec![17u64];
    let buf = pa(1, 4, 2, vec![0, 8, 9]);
    assert_eq!(
        convert_to_smallint(&moduli, &buf),
        Err(Error::PreconditionViolation)
    );
}

#[test]
fn smallint_rejects_empty_modulus_list() {
    let moduli: Vec<u64> = vec![];
    let buf = pa(1, 1, 1, vec![0]);
    assert_eq!(
        convert_to_smallint(&moduli, &buf),
        Err(Error::PreconditionViolation)
    );
}

#[test]
fn smallint_round_trip() {
    // Centered representatives of m = 101 lie in (-50, 50]. Encoding each
    // as a residue word and decoding reproduces it exactly.
    let m = 101u64;
    let values: Vec<i64> = vec![-50, -1, 0, 1, 50];
    let words: Vec<u64> = values
        .iter()
        .map(|&v| if v < 0 { (v + m as i64) as u64 } else { v as u64 })
        .collect();
    let buf = pa(1, 5, 1, words);
    let r = convert_to_smallint(&vec![m], &buf).unwrap();
    assert_eq!(r, vec![values]);
}

#[test]
fn small_coeffs_trims_trailing_zeros() {
    let moduli = vec![17u64];
    let buf = pa(1, 4, 1, vec![3, 16, 0, 0]);
    let r = convert_to_small_coeffs(&moduli, &buf).unwrap();
    assert_eq!(r, vec![vec![3i64, -1]]);
}

#[test]
fn small_coeffs_all_zero_row_becomes_empty() {
    let moduli = vec![17u64];
    let buf = pa(1, 3, 1, vec![0, 0, 0]);
    let r = convert_to_small_coeffs(&moduli, &buf).unwrap();
    assert_eq!(r, vec![Vec::<i64>::new()]);
}

#[test]
fn by_small_coeffs_builds_residues() {
    // Decoded row [2, -1, 0] is trimmed to [2, -1]; in the ring with
    // modulus 17 that is residues [2, 16].
    let moduli = vec![17u64];
    let buf = pa(1, 3, 1, vec![2, 16, 0]);
    let ring = FixedUint { limbs: vec![17u64] };
    let polys = convert_to_polynomial_by_small_coeffs(&moduli, &buf, &ring).unwrap();
    assert_eq!(polys.len(), 1);
    assert_eq!(polys[0].coeffs.len(), 2);
    assert_eq!(polys[0].coeffs[0].residue.limbs, vec![2u64]);
    assert_eq!(polys[0].coeffs[1].residue.limbs, vec![16u64]);
}

#[test]
fn by_small_coeffs_smaller_ring_still_holds_centered_values() {
    // The ring modulus 13 is smaller than the RNS modulus 17, but contains
    // every centered representative: -1 becomes 12.
    let moduli = vec![17u64];
    let buf = pa(1, 2, 1, vec![2, 16]);
    let ring = FixedUint { limbs: vec![13u64] };
    let polys = convert_to_polynomial_by_small_coeffs(&moduli, &buf, &ring).unwrap();
    assert_eq!(polys[0].coeffs[0].residue.limbs, vec![2u64]);
    assert_eq!(polys[0].coeffs[1].residue.limbs, vec![12u64]);
}

#[test]
fn by_small_coeffs_rejects_too_small_ring() {
    // Twice the ring modulus must exceed the RNS modulus: 2 * 8 = 16 < 17.
    let moduli = vec![17u64];
    let buf = pa(1, 2, 1, vec![2, 16]);
    let ring = FixedUint { limbs: vec![8u64] };
    assert!(matches!(
        convert_to_polynomial_by_small_coeffs(&moduli, &buf, &ring),
        Err(Error::PreconditionViolation)
    ));
}

#[test]
fn by_small_coeffs_all_zero_polynomial_is_empty() {
    let moduli = vec![17u64];
    let buf = pa(1, 3, 1, vec![0, 0, 0]);
    let ring = FixedUint { limbs: vec![17u64] };
    let polys = convert_to_polynomial_by_small_coeffs(&moduli, &buf, &ring).unwrap();
    assert_eq!(polys.len(), 1);
    assert_eq!(polys[0].coeffs.len(), 0);
}

#[test]
fn multiprecision_discards_zero_padding() {
    // Each coefficient occupies 3 backend words; the ring keeps 2 limbs.
    // The padding words are zero, so the value is the one formed from the
    // first two words.
    let ring = FixedUint { limbs: vec![0u64, 5] };
    let buf = pa(1, 2, 3, vec![7, 2, 0, 0, 0, 0]);
    let polys = convert_to_polynomial(&buf, &ring).unwrap();
    assert_eq!(polys.len(), 1);
    assert_eq!(polys[0].coeffs.len(), 1);
    assert_eq!(polys[0].coeffs[0].residue.limbs, vec![7u64, 2]);
}

#[test]
fn multiprecision_rejects_nonzero_discarded_word() {
    let ring = FixedUint { limbs: vec![0u64, 5] };
    let buf = pa(1, 2, 3, vec![7, 2, 1, 0, 0, 0]);
    assert!(matches!(
        convert_to_polynomial(&buf, &ring),
        Err(Error::PreconditionViolation)
    ));
}

#[test]
fn multiprecision_rejects_out_of_range_coefficient() {
    // 6 * 2^64 exceeds the ring modulus 5 * 2^64.
    let ring = FixedUint { limbs: vec![0u64, 5] };
    let buf = pa(1, 2, 3, vec![0, 6, 0, 0, 0, 0]);
    assert!(matches!(
        convert_to_polynomial(&buf, &ring),
        Err(Error::OutOfRangeConversion)
    ));
}

#[test]
fn multiprecision_rejects_chunk_narrower_than_ring() {
    let ring = FixedUint { limbs: vec![0u64, 5] };
    let buf = pa(1, 2, 1, vec![1, 2]);
    assert!(matches!(
        convert_to_polynomial(&buf, &ring),
        Err(Error::PreconditionViolation)
    ));
}

#[test]
fn multiprecision_rejects_bad_shape() {
    let ring = FixedUint { limbs: vec![0u64, 5] };
    let buf = pa(2, 2, 3, vec![0; 11]);
    assert!(matches!(
        convert_to_polynomial(&buf, &ring),
        Err(Error::PreconditionViolation)
    ));
}

#[test]
fn multiprecision_trims_trailing_zero_coefficients() {
    let ring = FixedUint { limbs: vec![0u64, 5] };
    let buf = pa(1, 3, 2, vec![3, 1, 0, 0, 0, 0]);
    let polys = convert_to_polynomial(&buf, &ring).unwrap();
    assert_eq!(polys[0].coeffs.len(), 1);
    assert_eq!(polys[0].coeffs[0].residue.limbs, vec![3u64, 1]);
}

#[test]
fn bfv_delta_exact_small_values() {
    // q = 100, t = 7: delta = floor(100 / 7) = 14.
    let q = FixedUint { limbs: vec![100u64, 0, 0, 0] };
    let d = bfv_delta(&q, 7, 4).unwrap();
    assert_eq!(d.limbs, vec![14u64, 0, 0, 0]);
}

#[test]
fn bfv_delta_rejects_zero_plaintext_modulus() {
    let q = FixedUint { limbs: vec![100u64, 0, 0, 0] };
    assert_eq!(bfv_delta(&q, 0, 4), Err(Error::ZeroModulus));
}

#[test]
fn bfv_delta_multi_limb_quotient() {
    // q = 2^128 - 1 is divisible by 3; the quotient fills two limbs.
    let q = FixedUint { limbs: vec![u64::MAX, u64::MAX, 0, 0] };
    let d = bfv_delta(&q, 3, 2).unwrap();
    assert_eq!(
        d.limbs,
        vec![0x5555_5555_5555_5555u64, 0x5555_5555_5555_5555u64]
    );
}

#[test]
fn bfv_delta_rejects_truncating_width() {
    // The quotient 2^192 does not fit in three limbs.
    let q = FixedUint { limbs: vec![0u64, 0, 0, 9] };
    assert_eq!(bfv_delta(&q, 9, 3), Err(Error::PreconditionViolation));
}

#[test]
fn bfv_delta_wide_enough_width_round_trips() {
    let q = FixedUint { limbs: vec![0u64, 0, 0, 9] };
    let d = bfv_delta(&q, 9, 4).unwrap();
    assert_eq!(d.limbs, vec![0u64, 0, 0, 1]);
}

#[test]
fn bfv_delta_pads_wider_targets_with_zeros() {
    let q = FixedUint { limbs: vec![0u64, 0, 0, 9] };
    let d = bfv_delta(&q, 1, 6).unwrap();
    assert_eq!(d.limbs, vec![0u64, 0, 0, 9, 0, 0]);
}
