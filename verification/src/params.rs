//! Per-modulus Montgomery parameters.
//!
//! A parameter set fixes an odd modulus `n` and a radix `r = 2^word_size`
//! with `n < r`, and caches the two derived constants the multiplier
//! needs: the reduction constant `n_0_prime` with
//! `(n * n_0_prime + 1) % r == 0`, and `r2_mod_n = r^2 mod n`, used to
//! move an operand into the Montgomery domain with one multiplication.

use crate::gcd::{
    gcd_ensure_positive_x, lemma_divisor_of_odd_is_odd, lemma_gcd_divides, lemma_gcd_pos,
    lemma_odd_divides_pow2,
};
use vstd::arithmetic::div_mod::*;
use vstd::arithmetic::power2::*;
use vstd::prelude::*;

verus! {

/// Immutable per-modulus parameter set, built once by [`build_parameters`]
/// and reused for every exponentiation against the same modulus.
#[derive(Clone, Copy, Debug, PartialEq, Eq, Structural)]
pub struct ModulusParameters {
    /// The odd modulus.
    pub n: i64,
    /// Bit width `w` of the Montgomery radix.
    pub word_size: i64,
    /// The Montgomery radix `2^word_size`.
    pub r: i64,
    /// Reduction constant: `(n * n_0_prime + 1) % r == 0`.
    pub n_0_prime: i64,
    /// `r^2 mod n`, the Montgomery form of `r`.
    pub r2_mod_n: i64,
}

/// Invariants of a valid parameter set.
///
/// The bound `word_size <= 31` keeps every intermediate product of the
/// multiplier (at most `2*r*n < 2^(2*word_size + 1)`) inside `i64`.
pub open spec fn params_wf(p: ModulusParameters) -> bool {
    &&& 1 <= p.word_size <= 31
    &&& p.r == pow2(p.word_size as nat)
    &&& p.n % 2 == 1
    &&& 1 < p.n < p.r
    &&& 0 <= p.n_0_prime < p.r
    &&& (p.n * p.n_0_prime + 1) % (p.r as int) == 0
    &&& p.r2_mod_n == (p.r * p.r) % (p.n as int)
}

/// The inverse of the radix modulo `n`, read off the reduction constant:
/// since `r` divides `n * n_0_prime + 1`, the quotient `k` satisfies
/// `r * k == n * n_0_prime + 1`, hence `r * k == 1 (mod n)`.
pub open spec fn mont_r_inv(p: ModulusParameters) -> int {
    (p.n * p.n_0_prime + 1) / (p.r as int)
}

/// `mont_r_inv` really is an inverse of `r` modulo `n`.
pub proof fn lemma_mont_r_inv(p: ModulusParameters)
    requires
        params_wf(p),
    ensures
        (p.r * mont_r_inv(p)) % (p.n as int) == 1,
{
    let n = p.n as int;
    let r = p.r as int;
    let np = p.n_0_prime as int;
    let s = n * np + 1;
    lemma_fundamental_div_mod(s, r);
    assert(r * mont_r_inv(p) == n * np + 1);
    lemma_mod_multiples_vanish(np, 1, n);
    lemma_small_mod(1, p.n as nat);
}

/// Congruences modulo `n` may be cancelled by the radix: if
/// `x * r == y * r (mod n)` then `x == y (mod n)`, because `r` is
/// invertible modulo `n`.
pub proof fn lemma_cancel_r(p: ModulusParameters, x: int, y: int)
    requires
        params_wf(p),
        (x * p.r) % (p.n as int) == (y * p.r) % (p.n as int),
    ensures
        x % (p.n as int) == y % (p.n as int),
{
    let n = p.n as int;
    let r = p.r as int;
    let k = mont_r_inv(p);
    lemma_mont_r_inv(p);
    lemma_mul_mod_noop_right(x, r * k, n);
    assert(x * ((r * k) % n) == x);
    lemma_mul_mod_noop_right(y, r * k, n);
    assert(y * ((r * k) % n) == y);
    assert(x * (r * k) == (x * r) * k) by (nonlinear_arith);
    assert(y * (r * k) == (y * r) * k) by (nonlinear_arith);
    lemma_mul_mod_noop_left(x * r, k, n);
    lemma_mul_mod_noop_left(y * r, k, n);
    assert(x % n == ((x * r) % n * k) % n);
    assert(y % n == ((y * r) % n * k) % n);
}

/// Why a parameter build can be rejected.
#[derive(Clone, Copy, Debug, PartialEq, Eq, Structural)]
pub enum ParamError {
    /// `word_size` outside `[1, 31]`: the radix, or the multiplier's
    /// intermediate products, would not fit in `i64`.
    WordSizeOutOfRange,
    /// Modulus not in `(1, 2^word_size)`.
    ModulusOutOfRange,
    /// Even modulus: `gcd(r, n)` would not be one.
    EvenModulus,
}

/// Builds the Montgomery parameter set for an odd modulus `n` and radix
/// bit-width `word_size`.
///
/// Derives `n_0_prime` from the extended Euclidean solver as
/// `r - x` where `n*x == 1 (mod r)`, and caches `r^2 mod n`. Coprimality
/// of `r` and `n` is not checked at run time: it is proved, from `n`
/// being odd and `r` a power of two.
pub fn build_parameters(n: i64, word_size: i64) -> (res: Result<ModulusParameters, ParamError>)
    ensures
        !(1 <= word_size <= 31) ==> res == Err::<ModulusParameters, ParamError>(
            ParamError::WordSizeOutOfRange,
        ),
        1 <= word_size <= 31 && !(1 < n < pow2(word_size as nat)) ==> res == Err::<
            ModulusParameters,
            ParamError,
        >(ParamError::ModulusOutOfRange),
        1 <= word_size <= 31 && 1 < n < pow2(word_size as nat) && n % 2 == 0 ==> res == Err::<
            ModulusParameters,
            ParamError,
        >(ParamError::EvenModulus),
        1 <= word_size <= 31 && 1 < n < pow2(word_size as nat) && n % 2 == 1 ==> (res matches Ok(p)
            && params_wf(p) && p.n == n && p.word_size == word_size),
{
    if word_size < 1 || word_size > 31 {
        return Err(ParamError::WordSizeOutOfRange);
    }

    let mut r: i64 = 1;
    let mut j: i64 = 0;
    proof {
        lemma2_to64();
    }
    while j < word_size
        invariant
            0 <= j <= word_size,
            word_size <= 31,
            r == pow2(j as nat),
        decreases word_size - j,
    {
        proof {
            lemma_pow2_unfold((j + 1) as nat);
            if ((j + 1) as nat) < 31 {
                lemma_pow2_strictly_increases((j + 1) as nat, 31);
            }
            lemma2_to64();
        }
        r = r * 2;
        j = j + 1;
    }

    if n <= 1 || n >= r {
        return Err(ParamError::ModulusOutOfRange);
    }
    if n % 2 == 0 {
        return Err(ParamError::EvenModulus);
    }

    let (g, x, _y): (i64, i64, i64) = gcd_ensure_positive_x(n, r);

    proof {
        lemma_gcd_divides(n as nat, r as nat);
        lemma_gcd_pos(n as nat, r as nat);
        lemma_divisor_of_odd_is_odd(g as nat, n as nat);
        lemma_odd_divides_pow2(g as nat, word_size as nat);
        assert(g == 1);
        lemma_small_mod(1, r as nat);
        assert((n * x) % (r as int) == 1);
        if x == 0 {
            assert(n * 0 == 0);
            lemma_small_mod(0, r as nat);
            assert(false);
        }
        if x == r {
            lemma_mod_multiples_basic(n as int, r as int);
            assert(n * r == (n as int) * (r as int));
            assert(false);
        }
    }

    let n_0_prime: i64 = r - x;

    proof {
        let q = (n * x) as int / (r as int);
        lemma_fundamental_div_mod((n * x) as int, r as int);
        assert(n * x == r * q + 1);
        assert(n * n_0_prime + 1 == (n as int - q) * (r as int)) by (nonlinear_arith)
            requires
                n_0_prime == r - x,
                n as int * x as int == r as int * q + 1,
        ;
        lemma_mod_multiples_basic(n as int - q, r as int);
    }

    proof {
        lemma2_to64();
        if (word_size as nat) < 31 {
            lemma_pow2_strictly_increases(word_size as nat, 31);
        }
        assert(r as int * r as int <= 0x8000_0000int * 0x8000_0000int) by (nonlinear_arith)
            requires
                0 <= r as int <= 0x8000_0000int,
        ;
    }
    let r2_mod_n: i64 = (r * r) % n;

    Ok(ModulusParameters { n, word_size, r, n_0_prime, r2_mod_n })
}

} // verus!
