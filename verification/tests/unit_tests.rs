use extended_isolation_forest::{c_factor, ceil_log2, exp2_neg, Error};

#[test]
fn c_factor_is_zero_for_tiny_leaves() {
    assert_eq!(c_factor(0), 0);
    assert_eq!(c_factor(1), 0);
}

#[test]
fn c_factor_exact_values() {
    // c(2) = 2*H(1) - 2*(1/2) = 1, in fixed point
    assert_eq!(c_factor(2), 65536);
    // c(3) = 2*(1 + 1/2) - 2*(2/3), in fixed point with floored terms
    assert_eq!(c_factor(3), 2 * (65536 + 32768) + 2 * (65536 / 3) - 2 * 65536);
}

#[test]
fn c_factor_grows_with_the_sample() {
    let mut prev = c_factor(2);
    for n in 3..300usize {
        let cur = c_factor(n);
        assert!(cur > prev, "c-factor must grow at {}", n);
        prev = cur;
    }
}

#[test]
fn ceil_log2_values() {
    assert_eq!(ceil_log2(1), 0);
    assert_eq!(ceil_log2(2), 1);
    assert_eq!(ceil_log2(3), 2);
    assert_eq!(ceil_log2(4), 2);
    assert_eq!(ceil_log2(5), 3);
    assert_eq!(ceil_log2(200), 8);
    assert_eq!(ceil_log2(256), 8);
    assert_eq!(ceil_log2(257), 9);
}

#[test]
fn exp2_neg_values() {
    // 2^0 = 1
    assert_eq!(exp2_neg(0), 65536);
    // 2^-1 = 1/2
    assert_eq!(exp2_neg(65536), 32768);
    // 2^-1/2, the first table constant
    assert_eq!(exp2_neg(32768), 46341);
    // far underflow clamps to zero
    assert_eq!(exp2_neg(65536 * 80), 0);
}

#[test]
fn exp2_neg_is_monotone_on_samples() {
    let mut prev = exp2_neg(0);
    for x in 1..200u64 {
        let cur = exp2_neg(x * 1000);
        assert!(cur <= prev);
        prev = cur;
    }
}

#[test]
fn error_messages() {
    assert_eq!(
        Error::ExtensionLevelExceedsDimensions.message(),
        "Extension level has to be less than the number of dimensions"
    );
    assert_eq!(Error::InsufficientTrainingData.message(), "insufficient training data");
}
