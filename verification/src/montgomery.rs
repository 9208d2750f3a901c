//! Montgomery multiplication (REDC) and square-and-multiply exponentiation.
//!
//! `montgomery_monpro` computes `a*b*r^-1 mod n` without division: the
//! reduction constant turns the low `word_size` bits of `t + m*n` into
//! zeros, so dividing by the radix is exact. Its contract is stated as a
//! congruence — the result times `r` equals `a*b` modulo `n` — which,
//! together with `0 <= result < n`, determines the result uniquely since
//! `r` is invertible modulo `n`.
//!
//! `montgomery_modexp` runs a left-to-right square-and-multiply loop over
//! exactly `word_size` exponent bits, entirely inside the Montgomery
//! domain, and returns `m^e mod n`.

use crate::params::{lemma_cancel_r, params_wf, ModulusParameters};
use vstd::arithmetic::div_mod::*;
use vstd::arithmetic::power::*;
use vstd::arithmetic::power2::*;
use vstd::prelude::*;

verus! {

/// The exponent bits already consumed after the loop has descended to bit
/// position `i`: the high `word_size - i` bits of `e`, read as a number.
pub open spec fn exp_prefix(e: int, i: nat) -> nat {
    (e / (pow2(i) as int)) as nat
}

/// `x` is the Montgomery representation of `v` modulo `p.n`.
pub open spec fn is_mont_form(p: ModulusParameters, x: int, v: int) -> bool {
    x == (v * p.r) % (p.n as int)
}

/// A value below the modulus is its own remainder.
proof fn lemma_small_mod_int(x: int, n: int)
    requires
        0 <= x < n,
    ensures
        x % n == x,
{
    lemma_small_mod(x as nat, n as nat);
}

/// Montgomery multiplication in the plain domain: if `a` and `b` are the
/// Montgomery forms of `va` and `vb`, a result `u` satisfying the
/// `montgomery_monpro` contract is the Montgomery form of `va * vb`.
pub proof fn lemma_monpro_multiplies(
    p: ModulusParameters,
    a: int,
    b: int,
    u: int,
    va: int,
    vb: int,
)
    requires
        params_wf(p),
        0 <= u < p.n,
        (u * p.r) % (p.n as int) == (a * b) % (p.n as int),
        is_mont_form(p, a, va),
        is_mont_form(p, b, vb),
    ensures
        is_mont_form(p, u, va * vb),
{
    let n = p.n as int;
    let r = p.r as int;
    lemma_mul_mod_noop(va * r, vb * r, n);
    assert((va * r) * (vb * r) == (va * vb * r) * r) by (nonlinear_arith);
    lemma_cancel_r(p, u, va * vb * r);
    lemma_small_mod_int(u, n);
}

/// Conversion into the Montgomery domain: one REDC multiplication against
/// `r^2 mod n` turns `m` into its Montgomery form `m*r mod n`.
pub proof fn lemma_monpro_converts_in(p: ModulusParameters, m: int, u: int)
    requires
        params_wf(p),
        0 <= u < p.n,
        (u * p.r) % (p.n as int) == (m * p.r2_mod_n) % (p.n as int),
    ensures
        is_mont_form(p, u, m),
{
    let n = p.n as int;
    let r = p.r as int;
    lemma_mul_mod_noop_right(m, r * r, n);
    assert(m * (r * r) == (m * r) * r) by (nonlinear_arith);
    lemma_cancel_r(p, u, m * r);
    lemma_small_mod_int(u, n);
}

/// Conversion out of the Montgomery domain: one REDC multiplication
/// against `1` turns the Montgomery form of `v` back into `v mod n`.
pub proof fn lemma_monpro_converts_out(p: ModulusParameters, v: int, x: int, u: int)
    requires
        params_wf(p),
        0 <= x < p.n,
        0 <= u < p.n,
        is_mont_form(p, x, v),
        (u * p.r) % (p.n as int) == (x * 1) % (p.n as int),
    ensures
        u == v % (p.n as int),
{
    let n = p.n as int;
    lemma_small_mod_int(x, n);
    lemma_cancel_r(p, u, v);
    lemma_small_mod_int(u, n);
}

/// REDC: the Montgomery product `a * b * r^-1 mod n`.
///
/// The quotient `(t + m*n) / r` is exact — the reduction constant makes
/// `t + m*n` divisible by the radix — and lies below `2n`, so one
/// conditional subtraction lands it in `[0, n)`.
pub fn montgomery_monpro(a: i64, b: i64, key_values: &ModulusParameters) -> (res: i64)
    requires
        params_wf(*key_values),
        0 <= a < key_values.n,
        0 <= b < key_values.n,
    ensures
        0 <= res < key_values.n,
        (res * key_values.r) % (key_values.n as int) == (a * b) % (key_values.n as int),
{
    let n: i64 = key_values.n;
    let r: i64 = key_values.r;
    let np: i64 = key_values.n_0_prime;

    proof {
        lemma2_to64();
        if (key_values.word_size as nat) < 31 {
            lemma_pow2_strictly_increases(key_values.word_size as nat, 31);
        }
        assert(r <= 0x8000_0000int);
        assert(a * b <= (n - 1) * (n - 1) && (n - 1) * (n - 1) < n * n && n * n <= r * n)
            by (nonlinear_arith)
            requires
                0 <= a < n,
                0 <= b < n,
                1 < n <= r,
        ;
        assert(r * n <= 0x4000_0000_0000_0000int - 0x8000_0000int) by (nonlinear_arith)
            requires
                0 < n,
                n < r,
                r <= 0x8000_0000int,
        ;
    }

    let t: i64 = a * b;
    let t_low: i64 = t % r;

    proof {
        assert(t_low * np < 0x4000_0000_0000_0000int && 0 <= t_low * np) by (nonlinear_arith)
            requires
                0 <= t_low < r,
                0 <= np < r,
                r <= 0x8000_0000int,
        ;
    }

    let m: i64 = (t_low * np) % r;

    proof {
        lemma_mul_mod_noop_left(t as int, np as int, r as int);
        assert(m == (t * np) % (r as int));
        assert(0 <= m * n && m * n < r * n) by (nonlinear_arith)
            requires
                0 <= m < r,
                0 < n,
        ;
    }

    let mn: i64 = m * n;
    let u: i64 = (t + mn) / r;

    proof {
        // t + m*n is divisible by r: modulo r it equals t * (1 + np*n),
        // and the reduction constant makes 1 + np*n a multiple of r.
        let c = (n as int * np + 1) / (r as int);
        lemma_fundamental_div_mod(n as int * np + 1, r as int);
        assert(r * c == n * np + 1);
        lemma_mul_mod_noop_left((t * np) as int, n as int, r as int);
        assert((mn as int) % (r as int) == (t * np * n) as int % (r as int));
        lemma_add_mod_noop(t as int, mn as int, r as int);
        lemma_add_mod_noop(t as int, (t * np * n) as int, r as int);
        assert(t + t * np * n == (t * c) * r) by (nonlinear_arith)
            requires
                r as int * c == n as int * (np as int) + 1,
        ;
        lemma_mod_multiples_basic(t as int * c, r as int);
        assert((t + mn) as int % (r as int) == 0);

        lemma_fundamental_div_mod((t + mn) as int, r as int);
        assert(u == (t as int + mn as int) / (r as int));
        assert(t + mn == r * ((t as int + mn as int) / (r as int)));
        assert(u * r == r * u) by (nonlinear_arith);
        assert(u * r == t + mn);

        lemma_div_pos_is_pos((t + mn) as int, r as int);
        assert(2 * (r * n) == r as int * (2 * n)) by (nonlinear_arith);
        lemma_multiply_divide_lt((t + mn) as int, r as int, 2 * (n as int));
        assert(0 <= u < 2 * (n as int));

        lemma_mod_multiples_vanish(m as int, t as int, n as int);
        assert((u * r) % (n as int) == (a * b) % (n as int));
    }

    if u >= n {
        proof {
            lemma_mod_multiples_vanish(-(r as int), (u * r) as int, n as int);
            assert((u - n) * r == n as int * -(r as int) + u * r) by (nonlinear_arith);
        }
        u - n
    } else {
        u
    }
}

/// Modular exponentiation `m^e mod n` by left-to-right square-and-multiply
/// in the Montgomery domain.
///
/// The exponent is consumed most-significant-bit-first over exactly
/// `word_size` bits; leading zero bits cost a squaring each, keeping the
/// round count fixed regardless of the exponent's actual bit length.
pub fn montgomery_modexp(m: i64, e: i64, key_values: &ModulusParameters) -> (res: i64)
    requires
        params_wf(*key_values),
        0 <= m < key_values.n,
        0 <= e < key_values.r,
    ensures
        res == pow(m as int, e as nat) % (key_values.n as int),
{
    let n: i64 = key_values.n;
    let r: i64 = key_values.r;
    let w: i64 = key_values.word_size;

    proof {
        lemma_mod_bound((r * r) as int, n as int);
    }
    let m_bar: i64 = montgomery_monpro(m, key_values.r2_mod_n, key_values);
    proof {
        lemma_monpro_converts_in(*key_values, m as int, m_bar as int);
    }

    let mut x_bar: i64 = r % n;
    let mut mask: i64 = r;
    let mut i: i64 = w;

    proof {
        lemma_basic_div(e as int, pow2(w as nat) as int);
        lemma_pow0(m as int);
        assert(exp_prefix(e as int, w as nat) == 0);
        assert(is_mont_form(*key_values, x_bar as int, 1)) by {
            assert(1 * (r as int) == r as int);
        }
    }

    while i > 0
        invariant
            params_wf(*key_values),
            n == key_values.n,
            r == key_values.r,
            w == key_values.word_size,
            0 <= m < n,
            0 <= e < r,
            0 <= i <= w,
            mask == pow2(i as nat),
            0 <= x_bar < n,
            is_mont_form(
                *key_values,
                x_bar as int,
                pow(m as int, exp_prefix(e as int, i as nat)),
            ),
            is_mont_form(*key_values, m_bar as int, m as int),
            0 <= m_bar < n,
        decreases i,
    {
        proof {
            lemma_pow2_unfold(i as nat);
            lemma_pow2_pos((i - 1) as nat);
        }
        mask = mask / 2;
        i = i - 1;
        let bit: i64 = (e / mask) % 2;

        let ghost k_old: nat = exp_prefix(e as int, (i + 1) as nat);
        let ghost q: int = e as int / (mask as int);

        proof {
            lemma_div_pos_is_pos(e as int, mask as int);
            lemma_div_denominator(e as int, mask as int, 2);
            lemma_fundamental_div_mod(q, 2);
            assert(q == 2 * k_old + bit);
        }

        let x_sq: i64 = montgomery_monpro(x_bar, x_bar, key_values);
        proof {
            lemma_monpro_multiplies(
                *key_values,
                x_bar as int,
                x_bar as int,
                x_sq as int,
                pow(m as int, k_old),
                pow(m as int, k_old),
            );
            lemma_pow_adds(m as int, k_old, k_old);
        }
        x_bar = x_sq;

        if bit == 1 {
            let x_mul: i64 = montgomery_monpro(m_bar, x_bar, key_values);
            proof {
                lemma_monpro_multiplies(
                    *key_values,
                    m_bar as int,
                    x_bar as int,
                    x_mul as int,
                    m as int,
                    pow(m as int, k_old + k_old),
                );
                lemma_pow_adds(m as int, 1, k_old + k_old);
                lemma_pow1(m as int);
                assert(exp_prefix(e as int, i as nat) == k_old + k_old + 1);
            }
            x_bar = x_mul;
        } else {
            proof {
                assert(exp_prefix(e as int, i as nat) == k_old + k_old);
            }
        }
    }

    let res: i64 = montgomery_monpro(x_bar, 1, key_values);
    proof {
        lemma2_to64();
        assert(exp_prefix(e as int, 0) == e);
        lemma_monpro_converts_out(
            *key_values,
            pow(m as int, e as nat),
            x_bar as int,
            res as int,
        );
    }
    res
}

/// Why an exponentiation request can be rejected.
#[derive(Clone, Copy, Debug, PartialEq, Eq, Structural)]
pub enum InputError {
    /// Message not in `[0, n)`.
    MessageOutOfRange,
    /// Exponent negative or not representable in `word_size` bits.
    ExponentOutOfRange,
}

/// [`montgomery_modexp`] with its preconditions surfaced as errors: the
/// call is rejected before any arithmetic runs instead of being the
/// caller's proof obligation.
pub fn modexp(message: i64, exponent: i64, key_values: &ModulusParameters) -> (res: Result<
    i64,
    InputError,
>)
    requires
        params_wf(*key_values),
    ensures
        !(0 <= message < key_values.n) ==> res == Err::<i64, InputError>(
            InputError::MessageOutOfRange,
        ),
        0 <= message < key_values.n && !(0 <= exponent < key_values.r) ==> res == Err::<
            i64,
            InputError,
        >(InputError::ExponentOutOfRange),
        0 <= message < key_values.n && 0 <= exponent < key_values.r ==> (res matches Ok(v)
            && v == pow(message as int, exponent as nat) % (key_values.n as int)),
{
    if message < 0 || message >= key_values.n {
        return Err(InputError::MessageOutOfRange);
    }
    if exponent < 0 || exponent >= key_values.r {
        return Err(InputError::ExponentOutOfRange);
    }
    Ok(montgomery_modexp(message, exponent, key_values))
}

/// Round trip of encryption and decryption: exponentiation by `e` and then
/// by `d` returns the message unchanged, whenever the pair satisfies
/// `m^(e*d) == m (mod n)`. Number theory grants that hypothesis for every
/// `0 <= m < n` when `e*d == 1 (mod lambda(n))` and `n` is squarefree (the
/// RSA setting, `lambda` being the Carmichael function); that step is
/// taken as the hypothesis here rather than re-proved.
pub proof fn lemma_modexp_round_trip(m: int, e: nat, d: nat, n: int)
    requires
        1 < n,
        0 <= m < n,
        pow(m, e * d) % n == m,
    ensures
        pow(pow(m, e) % n, d) % n == m,
{
    lemma_pow_mod_noop(pow(m, e), d, n);
    lemma_pow_multiplies(m, e, d);
}

/// Identity exponent: raising to the power one returns the message
/// unchanged, for every message below the modulus.
pub proof fn lemma_identity_exponent(m: int, n: int)
    requires
        0 <= m < n,
    ensures
        pow(m, 1) % n == m,
{
    lemma_pow1(m);
    lemma_small_mod_int(m, n);
}

/// Zero exponent: raising to the power zero returns `1 mod n == 1`, for
/// every message, as soon as the modulus exceeds one.
pub proof fn lemma_zero_exponent(m: int, n: int)
    requires
        1 < n,
    ensures
        pow(m, 0) % n == 1,
{
    lemma_pow0(m);
    lemma_small_mod_int(1, n);
}

/// Montgomery round trip: converting a value into Montgomery form (one
/// REDC multiplication against `r^2 mod n`) and straight back out (one
/// REDC multiplication against `1`) yields the value unchanged. The two
/// hypotheses are exactly the contract of `montgomery_monpro` at those
/// two call sites.
pub proof fn lemma_montgomery_round_trip(p: ModulusParameters, m: int, m_bar: int, back: int)
    requires
        params_wf(p),
        0 <= m < p.n,
        0 <= m_bar < p.n,
        (m_bar * p.r) % (p.n as int) == (m * p.r2_mod_n) % (p.n as int),
        0 <= back < p.n,
        (back * p.r) % (p.n as int) == (m_bar * 1) % (p.n as int),
    ensures
        back == m,
{
    lemma_monpro_converts_in(p, m, m_bar);
    lemma_monpro_converts_out(p, m, m_bar, back);
    lemma_small_mod_int(m, p.n as int);
}

} // verus!
