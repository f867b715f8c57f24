use aether::simd::{dispatch, serving_backend, Avx2, Backend, MaskOps, Scalar, Sse42};

fn sample() -> (Vec<u64>, Vec<u64>) {
    // 64 words = one full sub-chunk mask, plus a tail that is not a multiple
    // of the 4-lane step, to exercise the remainder.
    let a: Vec<u64> = (0..66).map(|i| 0x0123_4567_89ab_cdef ^ (i as u64 * 0x9e37)).collect();
    let b: Vec<u64> = (0..66).map(|i| 0xfedc_ba98_7654_3210 ^ (i as u64 * 0x1234)).collect();
    (a, b)
}

fn assert_matches_scalar(ops: &dyn MaskOps) {
    let (a, b) = sample();
    let scalar = Scalar;
    let n = a.len();

    let (mut got, mut want) = (vec![0u64; n], vec![0u64; n]);
    ops.and_into(&mut got, &a, &b);
    scalar.and_into(&mut want, &a, &b);
    assert_eq!(got, want, "and mismatch for {:?}", ops.backend());

    ops.or_into(&mut got, &a, &b);
    scalar.or_into(&mut want, &a, &b);
    assert_eq!(got, want, "or mismatch for {:?}", ops.backend());

    ops.andnot_into(&mut got, &a, &b);
    scalar.andnot_into(&mut want, &a, &b);
    assert_eq!(got, want, "andnot mismatch for {:?}", ops.backend());

    assert_eq!(ops.popcount(&a), scalar.popcount(&a));
}

#[test]
fn dispatch_returns_something_and_matches_oracle() {
    for detected in [Backend::Scalar, Backend::Sse42, Backend::Avx2, Backend::Avx512] {
        let ops = dispatch(detected);
        assert_eq!(ops.backend(), serving_backend(detected));
        assert_matches_scalar(ops);
    }
}

#[test]
fn every_available_backend_matches_scalar() {
    assert_matches_scalar(&Scalar);
    assert_matches_scalar(&Sse42);
    assert_matches_scalar(&Avx2);
}

#[test]
fn scalar_results_are_exact() {
    let a = [0b1100u64, u64::MAX, 7];
    let b = [0b1010u64, 0, 1];
    let mut dst = [0u64; 3];
    Scalar.and_into(&mut dst, &a, &b);
    assert_eq!(dst, [0b1000, 0, 1]);
    Scalar.or_into(&mut dst, &a, &b);
    assert_eq!(dst, [0b1110, u64::MAX, 7]);
    Scalar.andnot_into(&mut dst, &a, &b);
    assert_eq!(dst, [0b0100, u64::MAX, 6]);
    assert_eq!(Scalar.popcount(&a), 2 + 64 + 3);
    assert_eq!(Backend::Avx512.name(), "avx512");
    assert_eq!(serving_backend(Backend::Avx512), Backend::Avx2);
}
