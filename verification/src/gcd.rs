//! Extended Euclidean solver.
//!
//! `gcd_extended` produces Bezout coefficients `(g, x, y)` with
//! `a*x + b*y == g == gcd(a, b)`; `gcd_ensure_positive_x` shifts `x` into
//! `[0, b]` (the branch of the Bezout identity the Montgomery parameter
//! derivation needs). The module also proves the divisibility facts that
//! let the parameter builder conclude `gcd(n, 2^w) == 1` for odd `n`.

use vstd::arithmetic::div_mod::*;
use vstd::arithmetic::power2::*;
use vstd::prelude::*;

verus! {

/// Greatest common divisor, by Euclid's recursion.
pub open spec fn gcd_spec(a: nat, b: nat) -> nat
    decreases a,
{
    if a == 0 {
        b
    } else {
        gcd_spec((b % a) as nat, a)
    }
}

/// `d` divides `m`.
pub open spec fn divides(d: nat, m: nat) -> bool {
    exists|k: nat| m == #[trigger] (d * k)
}

/// The gcd divides both of its arguments.
pub proof fn lemma_gcd_divides(a: nat, b: nat)
    ensures
        divides(gcd_spec(a, b), a),
        divides(gcd_spec(a, b), b),
    decreases a,
{
    let g = gcd_spec(a, b);
    if a == 0 {
        assert(a == g * 0);
        assert(b == g * 1);
    } else {
        let rem = (b % a) as nat;
        lemma_gcd_divides(rem, a);
        let k1 = choose|k: nat| rem == #[trigger] (g * k);
        let k2 = choose|k: nat| a == #[trigger] (g * k);
        lemma_fundamental_div_mod(b as int, a as int);
        let q = b as int / a as int;
        lemma_div_pos_is_pos(b as int, a as int);
        assert(b as int == g as int * (k2 as int * q + k1 as int)) by (nonlinear_arith)
            requires
                b as int == a as int * q + rem as int,
                rem == g * k1,
                a == g * k2,
        ;
        let w = (k2 as int * q + k1 as int) as nat;
        assert(b == g * w);
        assert(a == g * k2);
    }
}

/// The gcd is at least one as soon as the second argument is.
pub proof fn lemma_gcd_pos(a: nat, b: nat)
    requires
        1 <= b,
    ensures
        1 <= gcd_spec(a, b),
    decreases a,
{
    if a != 0 {
        lemma_gcd_pos((b % a) as nat, a);
    }
}

/// A divisor of an odd number is odd.
pub proof fn lemma_divisor_of_odd_is_odd(d: nat, m: nat)
    requires
        divides(d, m),
        m % 2 == 1,
    ensures
        d % 2 == 1,
{
    let k = choose|k: nat| m == #[trigger] (d * k);
    if d % 2 != 1 {
        lemma_fundamental_div_mod(d as int, 2);
        let c = d as int / 2;
        assert(m as int == (c * k as int) * 2) by (nonlinear_arith)
            requires
                m as int == d as int * k as int,
                d as int == 2 * c,
        ;
        lemma_mod_multiples_basic(c * k as int, 2);
        assert(m as int % 2 == 0);
        assert(false);
    }
}

/// An odd divisor of a power of two is one.
pub proof fn lemma_odd_divides_pow2(d: nat, w: nat)
    requires
        d % 2 == 1,
        divides(d, pow2(w)),
    ensures
        d == 1,
    decreases w,
{
    let k = choose|k: nat| pow2(w) == #[trigger] (d * k);
    if w == 0 {
        assert(pow2(0) == 1) by {
            lemma2_to64();
        }
        assert(d == 1) by (nonlinear_arith)
            requires
                d as int * k as int == 1,
                0 <= d as int,
                0 <= k as int,
        ;
    } else {
        lemma_pow2_unfold(w);
        let p = pow2((w - 1) as nat);
        lemma_fundamental_div_mod(k as int, 2);
        let half_k = k as int / 2;
        if k % 2 == 1 {
            let half_d = d as int / 2;
            lemma_fundamental_div_mod(d as int, 2);
            assert(d as int * k as int == 2 * (2 * half_d * half_k + half_d + half_k) + 1)
                by (nonlinear_arith)
                requires
                    d as int == 2 * half_d + 1,
                    k as int == 2 * half_k + 1,
            ;
            let odd_part = 2 * half_d * half_k + half_d + half_k;
            lemma_mod_multiples_vanish(odd_part, 1, 2);
            lemma_mod_multiples_basic(p as int, 2);
            assert((2 * odd_part + 1) % 2 == 1int % 2);
            assert((p as int * 2) % 2 == 0);
            assert(d as int * k as int == 2 * p as int);
            assert(false);
        }
        assert(d as int * half_k == p as int) by (nonlinear_arith)
            requires
                d as int * k as int == 2 * p as int,
                k as int == 2 * half_k,
        ;
        assert(p == d * (half_k as nat));
        lemma_odd_divides_pow2(d, (w - 1) as nat);
    }
}

/// Extended Euclidean algorithm: Bezout coefficients for `gcd(a, b)`.
///
/// Returns `(g, x, y)` with `g == gcd(a, b)` and `a*x + b*y == g`. The
/// coefficient bounds (`|x| <= b`, `|y| <= a`) are what keeps every
/// intermediate of the back-substitution inside `i64`.
pub fn gcd_extended(a: i64, b: i64) -> (res: (i64, i64, i64))
    requires
        0 <= a,
        1 <= b,
    ensures
        res.0 == gcd_spec(a as nat, b as nat),
        a * res.1 + b * res.2 == res.0,
        -b <= res.1 <= b,
        a == 0 ==> res.1 == 0 && res.2 == 1,
        1 <= a ==> -a <= res.2 <= a,
    decreases a,
{
    if a == 0 {
        return (b, 0, 1);
    }

    let rem: i64 = b % a;
    let quot: i64 = b / a;
    let (g, x1, y1): (i64, i64, i64) = gcd_extended(rem, a);

    proof {
        lemma_fundamental_div_mod(b as int, a as int);
        assert(rem as nat == (b as nat) % (a as nat));
        assert(gcd_spec(a as nat, b as nat) == gcd_spec(rem as nat, a as nat));
        assert(-(b - rem) <= quot * x1 <= b - rem) by (nonlinear_arith)
            requires
                0 <= quot,
                -a <= x1 <= a,
                quot * a == b - rem,
        ;
    }

    let x: i64 = y1 - quot * x1;
    let y: i64 = x1;

    proof {
        assert(a * x + b * y == g) by (nonlinear_arith)
            requires
                rem * x1 + a * y1 == g,
                b == a * quot + rem,
                x == y1 - quot * x1,
                y == x1,
        ;
    }

    (g, x, y)
}

/// `gcd_extended` with `x` normalized into `[0, b]` by one addition of `b`.
///
/// The shift keeps `a*x` in the same residue class modulo `b`, which is all
/// the Montgomery parameter derivation needs; `y` is returned as computed,
/// so the Bezout identity holds either for `x` or for `x - b`.
pub fn gcd_ensure_positive_x(a: i64, b: i64) -> (res: (i64, i64, i64))
    requires
        0 <= a,
        1 <= b,
    ensures
        res.0 == gcd_spec(a as nat, b as nat),
        0 <= res.1 <= b,
        a * res.1 + b * res.2 == res.0 || a * res.1 + b * res.2 == res.0 + a * b,
        (a * res.1) % (b as int) == (res.0 as int) % (b as int),
{
    let (g, mut x, y): (i64, i64, i64) = gcd_extended(a, b);
    if x < 0 {
        x = x + b;
        proof {
            assert(a * x + b * y == g + a * b) by (nonlinear_arith)
                requires
                    a * (x - b) + b * y == g,
            ;
        }
    }
    proof {
        if a * x + b * y == g {
            lemma_mod_multiples_vanish(-(y as int), g as int, b as int);
            assert(a * x == b * (-(y as int)) + g) by (nonlinear_arith)
                requires
                    a * x + b * y == g,
            ;
        } else {
            lemma_mod_multiples_vanish(a - y, g as int, b as int);
            assert(a * x == b * (a - y) + g) by (nonlinear_arith)
                requires
                    a * x + b * y == g + a * b,
            ;
        }
    }
    (g, x, y)
}

} // verus!
