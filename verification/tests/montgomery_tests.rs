use montgomery::gcd::{gcd_ensure_positive_x, gcd_extended};
use montgomery::montgomery::{modexp, montgomery_modexp, montgomery_monpro, InputError};
use montgomery::params::{build_parameters, ModulusParameters, ParamError};

fn demo_params() -> ModulusParameters {
    build_parameters(143, 16).unwrap()
}

fn naive_modexp(m: i64, e: i64, n: i64) -> i64 {
    let mut acc: i64 = 1 % n;
    let mut i: i64 = 0;
    while i < e {
        acc = (acc * m) % n;
        i += 1;
    }
    acc
}

#[test]
fn demo_parameters_fields() {
    let p = demo_params();
    assert_eq!(p.n, 143);
    assert_eq!(p.word_size, 16);
    assert_eq!(p.r, 65536);
    assert_eq!(p.r2_mod_n, (65536i64 * 65536) % 143);
}

#[test]
fn derived_reduction_constant_satisfies_invariant() {
    let p = demo_params();
    assert!(0 <= p.n_0_prime && p.n_0_prime < p.r);
    assert_eq!((p.n * p.n_0_prime + 1) % p.r, 0);
}

#[test]
fn demo_encryption_value() {
    let p = demo_params();
    // 130^7 mod 143
    assert_eq!(montgomery_modexp(130, 7, &p), 26);
    assert_eq!(naive_modexp(130, 7, 143), 26);
}

#[test]
fn demo_decryption_recovers_message() {
    let p = demo_params();
    let c = montgomery_modexp(130, 7, &p);
    assert_eq!(montgomery_modexp(c, 103, &p), 130);
}

#[test]
fn round_trip_every_message_of_demo_modulus() {
    let p = demo_params();
    let mut m: i64 = 0;
    while m < 143 {
        let c = montgomery_modexp(m, 7, &p);
        assert_eq!(montgomery_modexp(c, 103, &p), m);
        m += 1;
    }
}

#[test]
fn identity_exponent_returns_message() {
    let p = demo_params();
    for m in [0i64, 1, 2, 71, 130, 142] {
        assert_eq!(montgomery_modexp(m, 1, &p), m);
    }
}

#[test]
fn zero_exponent_returns_one() {
    let p = demo_params();
    for m in [0i64, 1, 2, 71, 130, 142] {
        assert_eq!(montgomery_modexp(m, 0, &p), 1);
    }
}

#[test]
fn montgomery_form_round_trip() {
    let p = demo_params();
    for m in [0i64, 1, 2, 71, 130, 142] {
        let m_bar = montgomery_monpro(m, p.r2_mod_n, &p);
        let back = montgomery_monpro(m_bar, 1, &p);
        assert_eq!(back, m);
    }
}

#[test]
fn boundary_messages_round_trip() {
    let p = demo_params();
    let c0 = montgomery_modexp(0, 7, &p);
    assert_eq!(montgomery_modexp(c0, 103, &p), 0);
    let c_max = montgomery_modexp(142, 7, &p);
    assert_eq!(montgomery_modexp(c_max, 103, &p), 142);
}

#[test]
fn message_at_or_above_modulus_rejected() {
    let p = demo_params();
    assert_eq!(modexp(143, 7, &p), Err(InputError::MessageOutOfRange));
    assert_eq!(modexp(200, 7, &p), Err(InputError::MessageOutOfRange));
    assert_eq!(modexp(-1, 7, &p), Err(InputError::MessageOutOfRange));
}

#[test]
fn exponent_out_of_range_rejected() {
    let p = demo_params();
    assert_eq!(modexp(5, 65536, &p), Err(InputError::ExponentOutOfRange));
    assert_eq!(modexp(5, -1, &p), Err(InputError::ExponentOutOfRange));
}

#[test]
fn checked_modexp_accepts_valid_input() {
    let p = demo_params();
    assert_eq!(modexp(130, 7, &p), Ok(26));
    assert_eq!(modexp(2, 10, &p), Ok(23)); // 1024 mod 143
}

#[test]
fn even_modulus_rejected() {
    assert_eq!(build_parameters(144, 16), Err(ParamError::EvenModulus));
    assert_eq!(build_parameters(2, 16), Err(ParamError::EvenModulus));
}

#[test]
fn modulus_out_of_range_rejected() {
    assert_eq!(build_parameters(1, 16), Err(ParamError::ModulusOutOfRange));
    assert_eq!(build_parameters(0, 16), Err(ParamError::ModulusOutOfRange));
    assert_eq!(build_parameters(-143, 16), Err(ParamError::ModulusOutOfRange));
    // 143 needs eight bits; a seven-bit radix is too small.
    assert_eq!(build_parameters(143, 7), Err(ParamError::ModulusOutOfRange));
    assert_eq!(build_parameters(65537, 16), Err(ParamError::ModulusOutOfRange));
}

#[test]
fn word_size_out_of_range_rejected() {
    assert_eq!(build_parameters(143, 0), Err(ParamError::WordSizeOutOfRange));
    assert_eq!(build_parameters(143, -3), Err(ParamError::WordSizeOutOfRange));
    assert_eq!(build_parameters(143, 32), Err(ParamError::WordSizeOutOfRange));
}

#[test]
fn gcd_extended_bezout_identity() {
    let (g, x, y) = gcd_extended(143, 65536);
    assert_eq!(g, 1);
    assert_eq!(143 * x + 65536 * y, 1);

    let (g2, x2, y2) = gcd_extended(12, 18);
    assert_eq!(g2, 6);
    assert_eq!(12 * x2 + 18 * y2, 6);

    let (g3, x3, y3) = gcd_extended(0, 5);
    assert_eq!((g3, x3, y3), (5, 0, 1));
}

#[test]
fn gcd_positive_x_in_range() {
    let (g, x, _y) = gcd_ensure_positive_x(143, 65536);
    assert_eq!(g, 1);
    assert!(0 <= x && x <= 65536);
    assert_eq!((143 * x) % 65536, 1);
}

#[test]
fn matches_naive_exponentiation() {
    let p = demo_params();
    for m in [0i64, 1, 5, 77, 142] {
        for e in [0i64, 1, 2, 3, 10, 50] {
            assert_eq!(montgomery_modexp(m, e, &p), naive_modexp(m, e, 143));
        }
    }
}

#[test]
fn larger_prime_modulus_round_trip() {
    // n = 9973 is prime; 5 * 3989 = 2 * 9972 + 1, so the exponents invert
    // each other modulo n - 1.
    let p = build_parameters(9973, 16).unwrap();
    assert_eq!((p.n * p.n_0_prime + 1) % p.r, 0);
    for m in [0i64, 1, 1234, 5000, 9972] {
        let c = montgomery_modexp(m, 5, &p);
        assert_eq!(c, naive_modexp(m, 5, 9973));
        assert_eq!(montgomery_modexp(c, 3989, &p), m);
    }
}

#[test]
fn widest_word_size_still_exact() {
    // n = 2^31 - 1 with word_size 31 drives the intermediate products to
    // the top of the i64 range.
    let n: i64 = 2147483647;
    let p = build_parameters(n, 31).unwrap();
    assert_eq!((p.n as i128 * p.n_0_prime as i128 + 1) % p.r as i128, 0);
    for m in [0i64, 1, 123456789, n - 1] {
        assert_eq!(montgomery_modexp(m, 1, &p), m);
        assert_eq!(montgomery_modexp(m, 0, &p), 1);
        assert_eq!(montgomery_modexp(m, 3, &p), naive_modexp(m, 3, n));
    }
}
