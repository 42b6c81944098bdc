use logproof::{
    strip_trailing_value, Bounds, Error, FixedUint, LatticeProblem, Matrix, Polynomial, ZqElem,
};

#[test]
fn strip_removes_trailing_run() {
    let v = vec![5i64, 0, 3, 0, 0];
    assert_eq!(strip_trailing_value(v, 0), vec![5i64, 0, 3]);
}

#[test]
fn strip_keeps_interior_values() {
    let v = vec![0u64, 7, 0, 7];
    assert_eq!(strip_trailing_value(v, 7), vec![0u64, 7, 0]);
}

#[test]
fn strip_empties_uniform_vector() {
    let v = vec![4u32, 4, 4];
    assert_eq!(strip_trailing_value(v, 4), Vec::<u32>::new());
}

#[test]
fn strip_of_empty_is_empty() {
    let v: Vec<i64> = vec![];
    assert_eq!(strip_trailing_value(v, 0), Vec::<i64>::new());
}

#[test]
fn strip_is_idempotent() {
    let v = vec![9i64, 1, 0, 0];
    let once = strip_trailing_value(v, 0);
    let twice = strip_trailing_value(once.clone(), 0);
    assert_eq!(once, twice);
}

#[test]
fn strip_works_on_fixed_limb_integers() {
    let zero = FixedUint { limbs: vec![0u64, 0] };
    let v = vec![
        FixedUint { limbs: vec![1u64, 2] },
        FixedUint { limbs: vec![0u64, 0] },
        FixedUint { limbs: vec![0u64, 0] },
    ];
    let t = strip_trailing_value(v, zero);
    assert_eq!(t.len(), 1);
    assert_eq!(t[0].limbs, vec![1u64, 2]);
}

#[test]
fn fixed_uint_comparisons() {
    let a = FixedUint { limbs: vec![5u64, 1] };
    let b = FixedUint { limbs: vec![3u64, 2] };
    assert!(a.lt(&b));
    assert!(!b.lt(&a));
    assert!(!a.lt(&a));
    assert!(a.ge_u64(5));
    assert!(a.ge_u64(u64::MAX));
    assert!(!FixedUint { limbs: vec![4u64] }.ge_u64(5));
    assert!(FixedUint { limbs: vec![0u64, 0] }.is_zero());
    assert!(!a.is_zero());
}

#[test]
fn fixed_uint_subtracts_small_words() {
    // (1 * 2^64) - 2 borrows across the limb boundary.
    let a = FixedUint { limbs: vec![0u64, 1] };
    let d = a.sub_u64(2);
    assert_eq!(d.limbs, vec![u64::MAX - 1, 0]);
}

#[test]
fn zq_elem_fallible_conversion() {
    let m = FixedUint { limbs: vec![17u64] };
    let ok = ZqElem::try_from_uint(FixedUint { limbs: vec![16u64] }, &m).unwrap();
    assert_eq!(ok.residue.limbs, vec![16u64]);
    assert!(matches!(
        ZqElem::try_from_uint(FixedUint { limbs: vec![17u64] }, &m),
        Err(Error::OutOfRangeConversion)
    ));
}

#[test]
fn zq_elem_from_signed_values() {
    let m = FixedUint { limbs: vec![17u64] };
    assert_eq!(ZqElem::from_signed(5, &m).residue.limbs, vec![5u64]);
    assert_eq!(ZqElem::from_signed(-3, &m).residue.limbs, vec![14u64]);
    assert_eq!(ZqElem::from_signed(0, &m).residue.limbs, vec![0u64]);
}

fn constant_poly(value: u64, modulus: &FixedUint) -> Polynomial {
    let coeff = ZqElem::try_from_uint(
        FixedUint { limbs: vec![value] },
        modulus,
    )
    .unwrap();
    Polynomial { coeffs: vec![coeff] }
}

#[test]
fn matrix_construction_and_access() {
    let m = FixedUint { limbs: vec![17u64] };
    let entries = vec![
        constant_poly(1, &m),
        constant_poly(2, &m),
        constant_poly(3, &m),
        constant_poly(4, &m),
        constant_poly(5, &m),
        constant_poly(6, &m),
    ];
    let mat = Matrix::new(2, 3, entries).unwrap();
    assert_eq!(mat.get(1, 2).coeffs[0].residue.limbs, vec![6u64]);
    assert_eq!(mat.get(0, 0).coeffs[0].residue.limbs, vec![1u64]);
}

#[test]
fn matrix_rejects_wrong_entry_count() {
    let m = FixedUint { limbs: vec![17u64] };
    let entries = vec![constant_poly(1, &m)];
    assert!(matches!(
        Matrix::new(2, 3, entries),
        Err(Error::PreconditionViolation)
    ));
}

#[test]
fn lattice_problem_dimension_check() {
    let m = FixedUint { limbs: vec![17u64] };
    // A is 1x2, S is 2x1, T is 1x1, B parallels S.
    let a = Matrix::new(1, 2, vec![constant_poly(1, &m), constant_poly(2, &m)]).unwrap();
    let s = Matrix::new(2, 1, vec![constant_poly(3, &m), constant_poly(4, &m)]).unwrap();
    let t = Matrix::new(1, 1, vec![constant_poly(5, &m)]).unwrap();
    let b = Matrix::new(2, 1, vec![Bounds(vec![8u64]), Bounds(vec![8u64])]).unwrap();
    let f = constant_poly(1, &m);
    let p = LatticeProblem::new(a, s, t, f, b).unwrap();
    assert_eq!(p.a.rows, 1);
    assert_eq!(p.s.cols, 1);
}

#[test]
fn lattice_problem_rejects_mismatched_shapes() {
    let m = FixedUint { limbs: vec![17u64] };
    // A is 1x2 but S is 1x1: inner dimensions disagree.
    let a = Matrix::new(1, 2, vec![constant_poly(1, &m), constant_poly(2, &m)]).unwrap();
    let s = Matrix::new(1, 1, vec![constant_poly(3, &m)]).unwrap();
    let t = Matrix::new(1, 1, vec![constant_poly(5, &m)]).unwrap();
    let b = Matrix::new(1, 1, vec![Bounds(vec![8u64])]).unwrap();
    let f = constant_poly(1, &m);
    assert!(matches!(
        LatticeProblem::new(a, s, t, f, b),
        Err(Error::PreconditionViolation)
    ));
}
