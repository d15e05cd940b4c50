//! Divisibility lemmas that connect trial-division loops to the
//! mathematical definition of primality: transitivity of divisibility,
//! existence of a divisor below the square root, and Euclid's lemma.

use vstd::prelude::*;

verus! {

use vstd::arithmetic::div_mod::{
    lemma_fundamental_div_mod, lemma_mod_division_less_than_divisor, lemma_mod_multiples_basic,
    lemma_mul_mod_noop_right, lemma_small_mod, lemma_sub_mod_noop,
};

/// If `e` divides `d` and `d` divides `n`, then `e` divides `n`.
pub proof fn lemma_divides_transitive(e: int, d: int, n: int)
    requires
        0 < e,
        0 < d,
        d % e == 0,
        n % d == 0,
    ensures
        n % e == 0,
{
    let q1 = d / e;
    let q2 = n / d;
    lemma_fundamental_div_mod(d, e);
    lemma_fundamental_div_mod(n, d);
    assert(n == (q2 * q1) * e) by (nonlinear_arith)
        requires
            d == q1 * e,
            n == q2 * d,
    {}
    lemma_mod_multiples_basic(q2 * q1, e);
}

/// A number with a nontrivial divisor has one below `b` whenever `n < b * b`:
/// of the two cofactors, the smaller is at most the square root.
pub proof fn lemma_divisor_below_sqrt(n: int, d: int, b: int)
    requires
        2 <= d < n,
        n % d == 0,
        0 < b,
        n < b * b,
    ensures
        exists|e: int| 2 <= e < b && #[trigger] (n % e) == 0,
{
    let q = n / d;
    lemma_fundamental_div_mod(n, d);
    assert(2 <= q) by (nonlinear_arith)
        requires
            n == q * d,
            2 <= d < n,
    {}
    if d < b {
        assert(2 <= d < b && n % d == 0);
    } else {
        assert(q < b) by (nonlinear_arith)
            requires
                n == q * d,
                n < b * b,
                b <= d,
                0 < b,
                0 < q,
        {}
        lemma_mod_multiples_basic(d, q);
        assert(n == d * q);
        assert(n % q == 0);
        assert(2 <= q < b && n % q == 0);
    }
}

/// Descent step behind Euclid's lemma: if `p` has no nontrivial divisor and
/// `r * b` is a multiple of `p` for some `0 < r < p`, then `b` is a multiple
/// of `p`.
proof fn lemma_coprime_descent(p: int, r: int, b: int)
    requires
        2 <= p,
        0 < r < p,
        0 <= b,
        (r * b) % p == 0,
        forall|d: int| 2 <= d < p ==> #[trigger] (p % d) != 0,
    ensures
        b % p == 0,
    decreases r,
{
    if r == 1 {
        assert(r * b == b);
    } else {
        let s = p % r;
        let q = p / r;
        lemma_fundamental_div_mod(p, r);
        lemma_mod_division_less_than_divisor(p, r);
        assert(0 <= s < r);
        if s == 0 {
            assert(p % r != 0);
            assert(false);
        }
        let rb = r * b;
        lemma_mod_multiples_basic(b, p);
        assert(b * p == p * b) by (nonlinear_arith) {}
        assert((p * b) % p == 0);
        lemma_mul_mod_noop_right(q, rb, p);
        assert(q * (rb % p) == 0) by (nonlinear_arith)
            requires
                rb % p == 0,
        {}
        lemma_small_mod(0, p as nat);
        assert((q * rb) % p == 0);
        assert(s * b == p * b - q * (r * b)) by (nonlinear_arith)
            requires
                p == q * r + s,
        {}
        lemma_sub_mod_noop(p * b, q * rb, p);
        assert((s * b) % p == 0);
        lemma_coprime_descent(p, s, b);
    }
}

/// Euclid's lemma: a number without nontrivial divisors that divides a
/// product `a * b` divides `a` or divides `b`.
pub proof fn lemma_prime_divides_factor(p: int, a: int, b: int)
    requires
        2 <= p,
        0 <= a,
        0 <= b,
        (a * b) % p == 0,
        forall|d: int| 2 <= d < p ==> #[trigger] (p % d) != 0,
    ensures
        a % p == 0 || b % p == 0,
{
    if a % p != 0 {
        let r = a % p;
        lemma_mod_division_less_than_divisor(a, p);
        assert(0 < r < p);
        assert(((a % p) * b) % p == (a * b) % p) by {
            vstd::arithmetic::div_mod::lemma_mul_mod_noop_left(a, b, p);
        }
        lemma_coprime_descent(p, r, b);
    }
}

} // verus!
