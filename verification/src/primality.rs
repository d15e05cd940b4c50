//! The predicate library: primality and the predicates derived from it,
//! each verified against a direct mathematical statement.

use vstd::prelude::*;

verus! {

use crate::divisibility::{
    lemma_divides_transitive, lemma_divisor_below_sqrt, lemma_prime_divides_factor,
};
use vstd::arithmetic::div_mod::{
    lemma_div_multiples_vanish, lemma_fundamental_div_mod, lemma_fundamental_div_mod_converse_mod,
    lemma_mod_division_less_than_divisor, lemma_mod_multiples_basic, lemma_small_mod,
};
use vstd::arithmetic::mul::lemma_mul_inequality;
use vstd::arithmetic::power::{
    lemma_pow1, lemma_pow_increases, lemma_pow_positive, lemma_pow_strictly_increases,
    lemma_square_is_pow2, pow,
};
use vstd::arithmetic::power2::{is_pow2, is_pow2_equiv, lemma_pow2_unfold, pow2};

/// `n` is prime: at least 2, and no integer in `[2, n)` divides it.
pub open spec fn spec_is_prime(n: int) -> bool {
    n >= 2 && forall|d: int| 2 <= d < n ==> #[trigger] (n % d) != 0
}

/// `n` is the product of the two primes `p` and `q`.
pub open spec fn prime_pair_product(p: int, q: int, n: int) -> bool {
    spec_is_prime(p) && spec_is_prime(q) && n == p * q
}

/// `n` has exactly two prime factors, counted with multiplicity.
pub open spec fn spec_is_semiprime(n: int) -> bool {
    exists|p: int, q: int| #[trigger] prime_pair_product(p, q, n)
}

/// `n` is the product of two distinct primes.
pub open spec fn spec_is_squarefree_semiprime(n: int) -> bool {
    exists|p: int, q: int| #[trigger] prime_pair_product(p, q, n) && p != q
}

/// `n` is a prime congruent to 1 modulo 4.
pub open spec fn spec_is_pythagorean_prime(n: int) -> bool {
    spec_is_prime(n) && n % 4 == 1
}

/// The number of set bits in the binary representation of `n`.
pub open spec fn pop_count(n: nat) -> nat
    decreases n,
{
    if n == 0 {
        0
    } else {
        (n % 2) + pop_count(n / 2)
    }
}

/// `n` has a prime number of set bits.
pub open spec fn spec_is_pernicious(n: int) -> bool {
    spec_is_prime(pop_count(n as nat) as int)
}

/// `n` is `p^k` for a prime `p` and some `k >= 1`.
pub open spec fn prime_power_witness(p: int, k: nat, n: int) -> bool {
    spec_is_prime(p) && k >= 1 && n == pow(p, k)
}

/// `n` is 1, or a prime raised to a positive power.
pub open spec fn spec_is_prime_power(n: int) -> bool {
    n == 1 || exists|p: int, k: nat| #[trigger] prime_power_witness(p, k, n)
}

/// `n` is `p^(2^j)` for a prime `p` and some `j >= 0`.
pub open spec fn fermi_dirac_witness(p: int, j: nat, n: int) -> bool {
    spec_is_prime(p) && n == pow(p, pow2(j))
}

/// `n` is a prime raised to a power-of-two exponent (primes themselves
/// included, as the exponent `2^0`).
pub open spec fn spec_is_fermi_dirac(n: int) -> bool {
    exists|p: int, j: nat| #[trigger] fermi_dirac_witness(p, j, n)
}

/// 0 and 1 are not prime; 2 and 3 are.
pub proof fn lemma_prime_base_cases()
    ensures
        !spec_is_prime(0),
        !spec_is_prime(1),
        spec_is_prime(2),
        spec_is_prime(3),
{
    assert(3int % 2 == 1);
}

/// Every squarefree semiprime is a semiprime.
pub proof fn lemma_squarefree_semiprime_is_semiprime(n: int)
    requires
        spec_is_squarefree_semiprime(n),
    ensures
        spec_is_semiprime(n),
{
    let (p, q) = choose|p: int, q: int| #[trigger] prime_pair_product(p, q, n) && p != q;
    assert(prime_pair_product(p, q, n));
}

/// A divisor (other than 1) of a prime is that prime itself.
pub proof fn lemma_prime_divisor_of_prime(i: int, p: int)
    requires
        spec_is_prime(p),
        2 <= i,
        p % i == 0,
    ensures
        i == p,
{
    if i < p {
        assert(p % i != 0);
    }
    if i > p {
        lemma_small_mod(p as nat, i as nat);
    }
}

/// The smallest nontrivial divisor `i` of a product of two primes is one of
/// them, and the cofactor is the other.
proof fn lemma_first_divisor_factor(n: int, i: int, p: int, q: int)
    requires
        2 <= i,
        n % i == 0,
        spec_is_prime(i),
        prime_pair_product(p, q, n),
    ensures
        (i == p && n / i == q) || (i == q && n / i == p),
{
    assert((p * q) % i == 0);
    lemma_prime_divides_factor(i, p, q);
    if p % i == 0 {
        lemma_prime_divisor_of_prime(i, p);
        assert(n == i * q) by (nonlinear_arith)
            requires
                n == p * q,
                i == p,
        {}
        lemma_div_multiples_vanish(q, i);
        assert(n / i == q);
    } else {
        lemma_prime_divisor_of_prime(i, q);
        assert(n == i * p) by (nonlinear_arith)
            requires
                n == p * q,
                i == q,
        {}
        lemma_div_multiples_vanish(p, i);
        assert(n / i == p);
    }
}

/// One past the integer square root: the least `r` with `n < r * r`.
pub fn sqrt_ceil(n: usize) -> (r: usize)
    ensures
        1 <= r,
        (r - 1) * (r - 1) <= n < r * r,
{
    let mut r: usize = 1;
    while r <= n / r
        invariant
            1 <= r <= n + 1,
            (r - 1) * (r - 1) <= n,
        decreases n + 1 - r,
    {
        proof {
            lemma_fundamental_div_mod(n as int, r as int);
            lemma_mod_division_less_than_divisor(n as int, r as int);
            assert((n / r) * r <= n);
            lemma_mul_inequality(r as int, (n / r) as int, r as int);
            assert(r * r <= n);
            assert(r < usize::MAX) by (nonlinear_arith)
                requires
                    r * r <= n <= usize::MAX,
                    1 <= r,
            {}
        }
        r = r + 1;
    }
    proof {
        lemma_fundamental_div_mod(n as int, r as int);
        lemma_mod_division_less_than_divisor(n as int, r as int);
        lemma_mul_inequality((n / r) as int, r as int - 1, r as int);
        assert((r as int - 1) * (r as int) + r == r * r) by (nonlinear_arith) {}
        assert(n < r * r);
    }
    r
}

/// A multiple of an even (or of a multiple-of-three) number cannot be odd
/// (cannot avoid the factor 3): used to skip wheel positions.
proof fn lemma_wheel_skip(n: int, d: int, k: int)
    requires
        2 <= d,
        0 <= n,
        d == 2 * k || d == 3 * k,
    ensures
        d == 2 * k && n % d == 0 ==> n % 2 == 0,
        d == 3 * k && n % d == 0 ==> n % 3 == 0,
{
    if d == 2 * k && n % d == 0 {
        lemma_mod_multiples_basic(k, 2);
        lemma_divides_transitive(2, d, n);
    }
    if d == 3 * k && n % d == 0 {
        lemma_mod_multiples_basic(k, 3);
        lemma_divides_transitive(3, d, n);
    }
}

/// Trial division over the `6k ± 1` wheel, after ruling out multiples of 2
/// and 3, checking candidate divisors up to the square root.
pub fn is_prime(n: usize) -> (r: bool)
    ensures
        r == spec_is_prime(n as int),
{
    if n <= 3 {
        if n <= 1 {
            return false;
        }
        proof {
            assert(forall|d: int| 2 <= d < n ==> #[trigger] (n as int % d) != 0) by {
                assert(n as int == 2 || n as int == 3);
                assert(3int % 2 == 1);
            }
        }
        return true;
    }
    if n % 2 == 0 || n % 3 == 0 {
        proof {
            if n % 2 == 0 {
                assert(2 <= 2 < n && n as int % 2 == 0);
            } else {
                assert(2 <= 3 < n && n as int % 3 == 0);
            }
        }
        return false;
    }
    let b = sqrt_ceil(n);
    proof {
        assert forall|d: int| 2 <= d < 5 implies #[trigger] (n as int % d) != 0 by {
            if d == 4 && n as int % 4 == 0 {
                lemma_divides_transitive(2, 4, n as int);
            }
        }
    }
    let mut i: usize = 5;
    while i < b
        invariant
            5 <= i,
            i as int % 6 == 5,
            4 <= n,
            n as int % 2 != 0,
            n as int % 3 != 0,
            1 <= b,
            (b - 1) * (b - 1) <= n < b * b,
            forall|d: int| 2 <= d < i ==> #[trigger] (n as int % d) != 0,
        decreases b + 6 - i,
    {
        proof {
            assert(i + 8 <= n) by (nonlinear_arith)
                requires
                    5 <= i,
                    i <= b - 1,
                    (b - 1) * (b - 1) <= n,
            {}
        }
        if n % i == 0 || n % (i + 2) == 0 {
            proof {
                let ni = n as int;
                assert(i + 2 < ni);
                if n % i == 0 {
                    assert(2 <= i as int && (i as int) < ni && ni % (i as int) == 0);
                } else {
                    assert(2 <= i as int + 2 && i as int + 2 < ni && ni % (i as int + 2) == 0);
                }
            }
            return false;
        }
        proof {
            let ni = n as int;
            let ii = i as int;
            let k = ii / 6;
            lemma_fundamental_div_mod(ii, 6);
            assert(ii == 6 * k + 5);
            assert forall|d: int| 2 <= d < ii + 6 implies #[trigger] (ni % d) != 0 by {
                if d >= ii && ni % d == 0 {
                    if d == ii + 1 {
                        lemma_wheel_skip(ni, d, 3 * k + 3);
                    } else if d == ii + 3 {
                        lemma_wheel_skip(ni, d, 3 * k + 4);
                    } else if d == ii + 5 {
                        lemma_wheel_skip(ni, d, 3 * k + 5);
                    } else if d == ii + 4 {
                        lemma_wheel_skip(ni, d, 2 * k + 3);
                    }
                }
            }
            lemma_fundamental_div_mod_converse_mod(ii + 6, 6, k + 1, 5);
        }
        i = i + 6;
    }
    proof {
        let ni = n as int;
        assert forall|d: int| 2 <= d < ni implies #[trigger] (ni % d) != 0 by {
            if ni % d == 0 {
                lemma_divisor_below_sqrt(ni, d, b as int);
                let e = choose|e: int| 2 <= e < b && #[trigger] (ni % e) == 0;
                assert(ni % e != 0);
            }
        }
    }
    true
}

/// A prime of the form `4k + 1`.
pub fn is_pythagorean_prime(n: usize) -> (r: bool)
    ensures
        r == spec_is_pythagorean_prime(n as int),
{
    is_prime(n) && n % 4 == 1
}

/// Shared trial-division core for the two semiprime predicates: find the
/// smallest nontrivial divisor and test it together with its cofactor.
pub fn _is_semiprime(n: usize, square_free: bool) -> (r: bool)
    ensures
        square_free ==> r == spec_is_squarefree_semiprime(n as int),
        !square_free ==> r == spec_is_semiprime(n as int),
{
    if n < 4 {
        proof {
            let ni = n as int;
            if spec_is_semiprime(ni) {
                let (p, q) = choose|p: int, q: int| #[trigger] prime_pair_product(p, q, ni);
                assert(false) by (nonlinear_arith)
                    requires
                        2 <= p,
                        2 <= q,
                        ni == p * q,
                        ni < 4,
                {}
            }
            if spec_is_squarefree_semiprime(ni) {
                let (p, q) = choose|p: int, q: int|
                    #[trigger] prime_pair_product(p, q, ni) && p != q;
                assert(false) by (nonlinear_arith)
                    requires
                        2 <= p,
                        2 <= q,
                        ni == p * q,
                        ni < 4,
                {}
            }
        }
        return false;
    }
    let b = sqrt_ceil(n);
    let mut i: usize = 2;
    while i < b
        invariant
            2 <= i,
            1 <= b,
            (b - 1) * (b - 1) <= n < b * b,
            4 <= n,
            forall|d: int| 2 <= d < i ==> #[trigger] (n as int % d) != 0,
        decreases b - i,
    {
        if n % i == 0 {
            let factor = n / i;
            let prime_i = is_prime(i);
            let prime_f = is_prime(factor);
            let r = prime_i && prime_f && (!square_free || factor != i);
            proof {
                let ni = n as int;
                let ii = i as int;
                let ff = factor as int;
                lemma_fundamental_div_mod(ni, ii);
                assert(ni == ii * ff);
                assert(spec_is_prime(ii)) by {
                    assert forall|d: int| 2 <= d < ii implies #[trigger] (ii % d) != 0 by {
                        if ii % d == 0 {
                            lemma_divides_transitive(d, ii, ni);
                        }
                    }
                }
                assert(2 <= ff) by (nonlinear_arith)
                    requires
                        ni == ii * ff,
                        2 <= ii,
                        ii <= b - 1,
                        (b - 1) * (b - 1) <= ni,
                        1 <= b,
                {}
                if r {
                    if square_free {
                        assert(prime_pair_product(ii, ff, ni) && ii != ff);
                    } else {
                        assert(prime_pair_product(ii, ff, ni));
                    }
                } else {
                    if square_free {
                        if spec_is_squarefree_semiprime(ni) {
                            let (p, q) = choose|p: int, q: int|
                                #[trigger] prime_pair_product(p, q, ni) && p != q;
                            lemma_first_divisor_factor(ni, ii, p, q);
                            assert(false);
                        }
                    } else {
                        if spec_is_semiprime(ni) {
                            let (p, q) = choose|p: int, q: int|
                                #[trigger] prime_pair_product(p, q, ni);
                            lemma_first_divisor_factor(ni, ii, p, q);
                            assert(false);
                        }
                    }
                }
            }
            return r;
        }
        i = i + 1;
    }
    proof {
        let ni = n as int;
        if spec_is_semiprime(ni) {
            let (p, q) = choose|p: int, q: int| #[trigger] prime_pair_product(p, q, ni);
            lemma_semiprime_has_small_divisor(ni, p, q, b as int);
            assert(false);
        }
        if spec_is_squarefree_semiprime(ni) {
            let (p, q) = choose|p: int, q: int| #[trigger] prime_pair_product(p, q, ni) && p != q;
            lemma_semiprime_has_small_divisor(ni, p, q, b as int);
            assert(false);
        }
    }
    false
}

/// The smaller factor of a prime pair lies below `b` whenever `n < b * b`,
/// so a completed trial-division loop rules the pair out.
proof fn lemma_semiprime_has_small_divisor(n: int, p: int, q: int, b: int)
    requires
        prime_pair_product(p, q, n),
        0 < b,
        n < b * b,
    ensures
        exists|e: int| 2 <= e < b && #[trigger] (n % e) == 0,
{
    let m = if p <= q {
        p
    } else {
        q
    };
    assert(m * m <= n) by (nonlinear_arith)
        requires
            n == p * q,
            2 <= p,
            2 <= q,
            m <= p,
            m <= q,
            (m == p || m == q),
    {}
    assert(m < b) by (nonlinear_arith)
        requires
            m * m <= n,
            n < b * b,
            0 <= m,
            0 < b,
    {}
    if m == p {
        lemma_mod_multiples_basic(q, p);
        assert(q * p == n) by (nonlinear_arith)
            requires
                n == p * q,
        {}
    } else {
        lemma_mod_multiples_basic(p, q);
    }
    assert(2 <= m < b && n % m == 0);
}

/// A number with exactly two prime factors, multiplicity counted.
pub fn is_semiprime(n: usize) -> (r: bool)
    ensures
        r == spec_is_semiprime(n as int),
{
    _is_semiprime(n, false)
}

/// A product of two distinct primes.
pub fn is_squarefree_semiprime(n: usize) -> (r: bool)
    ensures
        r == spec_is_squarefree_semiprime(n as int),
{
    _is_semiprime(n, true)
}

proof fn lemma_pop_count_le(n: nat)
    ensures
        pop_count(n) <= n,
    decreases n,
{
    if n > 0 {
        lemma_pop_count_le(n / 2);
    }
}

proof fn lemma_pop_count_pos(n: nat)
    requires
        n >= 1,
    ensures
        pop_count(n) >= 1,
    decreases n,
{
    if n >= 2 && n % 2 == 0 {
        lemma_pop_count_pos(n / 2);
    }
}

/// The number of set bits of `n`, by repeated halving.
fn count_set_bits(n: usize) -> (c: usize)
    ensures
        c as nat == pop_count(n as nat),
{
    let mut m = n;
    let mut c: usize = 0;
    while m > 0
        invariant
            c as nat + pop_count(m as nat) == pop_count(n as nat),
        decreases m,
    {
        proof {
            lemma_pop_count_pos(m as nat);
            lemma_pop_count_le(n as nat);
        }
        c = c + (m % 2);
        m = m / 2;
    }
    c
}

/// The count of set bits of `n` is itself prime.
pub fn is_pernicious(n: usize) -> (r: bool)
    ensures
        r == spec_is_pernicious(n as int),
{
    is_prime(count_set_bits(n))
}

/// The mask test `w & (w - 1) == 0` recognises exactly the powers of two.
proof fn lemma_mask_pow2(w: u64)
    requires
        1 <= w,
    ensures
        ((w & ((w - 1) as u64)) == 0) == is_pow2(w as int),
    decreases w,
{
    reveal(vstd::arithmetic::power2::is_pow2);
    if w == 1 {
        assert((1u64 & 0u64) == 0) by (bit_vector);
    } else if w % 2 == 1 {
        assert((w & ((w - 1) as u64)) != 0) by (bit_vector)
            requires
                w >= 2 && w % 2 == 1,
        ;
    } else {
        let h = w / 2;
        assert(((w & ((w - 1) as u64)) == 0) == ((h & ((h - 1) as u64)) == 0)) by (bit_vector)
            requires
                w % 2 == 0 && w >= 2 && h == w / 2,
        ;
        lemma_mask_pow2(h);
    }
}

/// The exponent of a power of two.
proof fn lemma_pow2_log(n: int) -> (j: nat)
    requires
        is_pow2(n),
    ensures
        pow2(j) == n,
    decreases n,
{
    reveal(vstd::arithmetic::power2::is_pow2);
    if n == 1 {
        vstd::arithmetic::power2::lemma2_to64();
        0
    } else {
        let jj = lemma_pow2_log(n / 2);
        lemma_pow2_unfold(jj + 1);
        jj + 1
    }
}

/// The exponent test used by the Fermi–Dirac search.
fn is_power_of_two(e: usize) -> (r: bool)
    requires
        1 <= e,
    ensures
        r == is_pow2(e as int),
{
    let w = e as u64;
    proof {
        lemma_mask_pow2(w);
    }
    (w & (w - 1)) == 0
}

/// `2^e` is larger than `e`.
proof fn lemma_pow2_at_least(e: nat)
    ensures
        pow2(e) >= e + 1,
    decreases e,
{
    if e == 0 {
        assert(pow2(0) == 1) by {
            vstd::arithmetic::power2::lemma2_to64();
        }
    } else {
        lemma_pow2_at_least((e - 1) as nat);
        lemma_pow2_unfold(e);
    }
}

/// 1, every prime, and every higher power of a prime.
pub fn is_prime_power(n: usize) -> (r: bool)
    ensures
        r == spec_is_prime_power(n as int),
{
    if n == 1 {
        return true;
    }
    let b = sqrt_ceil(n);
    let mut i: usize = 2;
    while i < b
        invariant
            2 <= i,
            1 <= b,
            (b - 1) * (b - 1) <= n < b * b,
            n != 1,
            forall|j: int, k: nat| 2 <= j < i ==> !(#[trigger] prime_power_witness(j, k, n as int)),
        decreases b - i,
    {
        let ghost mut e: nat = 1;
        let mut pw = i;
        proof {
            lemma_pow1(i as int);
            assert(i <= n) by (nonlinear_arith)
                requires
                    2 <= i,
                    i <= b - 1,
                    (b - 1) * (b - 1) <= n,
            {}
        }
        loop
            invariant_except_break
                2 <= i,
                i < b,
                1 <= b,
                (b - 1) * (b - 1) <= n < b * b,
                1 <= e,
                pw as int == pow(i as int, e),
                1 <= pw,
                pw <= n,
                forall|k: nat| 1 <= k < e ==> pow(i as int, k) != n as int,
            ensures
                forall|k: nat| 1 <= k ==> !(spec_is_prime(i as int) && pow(i as int, k) == n as int),
            decreases n - pw,
        {
            if pw == n {
                if is_prime(i) {
                    proof {
                        assert(prime_power_witness(i as int, e, n as int));
                    }
                    return true;
                }
                proof {
                    assert(!spec_is_prime(i as int));
                }
                break;
            }
            if pw > n / i {
                proof {
                    let ii = i as int;
                    let ni = n as int;
                    lemma_fundamental_div_mod(ni, ii);
                    lemma_mod_division_less_than_divisor(ni, ii);
                    assert(pw * ii > ni) by (nonlinear_arith)
                        requires
                            pw > ni / ii,
                            ni == ii * (ni / ii) + ni % ii,
                            0 <= ni % ii,
                            ni % ii < ii,
                            2 <= ii,
                    {}
                    assert forall|k: nat| 1 <= k implies !(spec_is_prime(ii) && pow(ii, k)
                        == ni) by {
                        if k < e {
                        } else if k == e {
                            assert(pw != n);
                        } else {
                            assert(pow(ii, e + 1) == pow(ii, e) * ii) by {
                                vstd::arithmetic::power::lemma_pow_adds(ii, e, 1);
                                lemma_pow1(ii);
                            }
                            lemma_pow_increases(i as nat, e + 1, k);
                            assert(pow(ii, k) > ni);
                        }
                    }
                }
                break;
            }
            proof {
                let ii = i as int;
                let ni = n as int;
                lemma_fundamental_div_mod(ni, ii);
                lemma_mod_division_less_than_divisor(ni, ii);
                assert(pw * ii <= ni) by (nonlinear_arith)
                    requires
                        pw <= ni / ii,
                        ni == ii * (ni / ii) + ni % ii,
                        0 <= ni % ii,
                        2 <= ii,
                {}
                assert(pow(ii, e + 1) == pow(ii, e) * ii) by {
                    vstd::arithmetic::power::lemma_pow_adds(ii, e, 1);
                    lemma_pow1(ii);
                }
                assert(pw * ii > pw) by (nonlinear_arith)
                    requires
                        2 <= ii,
                        1 <= pw,
                {}
                e = e + 1;
            }
            pw = pw * i;
        }
        proof {
            assert forall|k: nat| !(#[trigger] prime_power_witness(i as int, k, n as int)) by {
                if prime_power_witness(i as int, k, n as int) {
                    assert(k >= 1 && spec_is_prime(i as int) && pow(i as int, k) == n as int);
                }
            }
        }
        i = i + 1;
    }
    let r = is_prime(n);
    proof {
        let ni = n as int;
        if r {
            lemma_pow1(ni);
            assert(prime_power_witness(ni, 1, ni));
        } else if spec_is_prime_power(ni) {
            let (p, k) = choose|p: int, k: nat| #[trigger] prime_power_witness(p, k, ni);
            if k == 1 {
                lemma_pow1(p);
                assert(false);
            } else {
                lemma_pow_increases(p as nat, 2, k);
                lemma_square_is_pow2(p);
                assert(p < b) by (nonlinear_arith)
                    requires
                        p * p <= ni,
                        ni < b * b,
                        0 <= p,
                        0 < b,
                {}
                assert(!prime_power_witness(p, k, ni));
                assert(false);
            }
        }
    }
    r
}

/// Primes and primes raised to power-of-two exponents.
pub fn is_fermi_dirac(n: usize) -> (r: bool)
    ensures
        r == spec_is_fermi_dirac(n as int),
{
    let b = sqrt_ceil(n);
    let mut i: usize = 2;
    while i < b
        invariant
            2 <= i,
            1 <= b,
            (b - 1) * (b - 1) <= n < b * b,
            forall|p: int, j: nat|
                2 <= p < i && j >= 1 ==> !(#[trigger] fermi_dirac_witness(p, j, n as int)),
        decreases b - i,
    {
        if is_prime(i) {
            proof {
                assert(i * i <= n) by (nonlinear_arith)
                    requires
                        2 <= i,
                        i <= b - 1,
                        (b - 1) * (b - 1) <= n,
                {}
                lemma_square_is_pow2(i as int);
            }
            let mut e: usize = 2;
            let mut pw = i * i;
            proof {
                vstd::arithmetic::power2::lemma2_to64();
                assert(pow2(2) <= pw as int) by (nonlinear_arith)
                    requires
                        pow2(2) == 4,
                        2 <= i,
                        pw == i * i,
                {}
            }
            loop
                invariant_except_break
                    2 <= i,
                    i < b,
                    1 <= b,
                    (b - 1) * (b - 1) <= n < b * b,
                    2 <= e,
                    pw as int == pow(i as int, e as nat),
                    1 <= pw,
                    pow2(e as nat) <= pw,
                    pw <= n,
                    spec_is_prime(i as int),
                    forall|k: nat| 2 <= k < e ==> pow(i as int, k) != n as int,
                ensures
                    forall|j: nat| j >= 1 ==> pow(i as int, pow2(j)) != n as int,
                decreases n - pw,
            {
                if pw == n {
                    if is_power_of_two(e) {
                        proof {
                            let j = lemma_pow2_log(e as int);
                            assert(fermi_dirac_witness(i as int, j, n as int));
                        }
                        return true;
                    }
                    proof {
                        is_pow2_equiv(e as int);
                        assert forall|j: nat| j >= 1 implies pow(i as int, pow2(j)) != n as int by {
                            let k = pow2(j);
                            vstd::arithmetic::power2::lemma_pow2_pos(j);
                            if k == e as nat {
                                lemma_pow_positive(2, j);
                                assert(pow(2, j) == e as int);
                                assert(is_pow2(e as int));
                                assert(false);
                            } else if k > e as nat {
                                lemma_pow_strictly_increases(i as nat, e as nat, k);
                            } else if k >= 2 {
                            } else {
                                assert(pow2(j) >= 2) by {
                                    vstd::arithmetic::power2::lemma_pow2_strictly_increases(0, j);
                                    vstd::arithmetic::power2::lemma2_to64();
                                }
                            }
                        }
                    }
                    break;
                }
                if pw > n / i {
                    proof {
                        let ii = i as int;
                        let ni = n as int;
                        lemma_fundamental_div_mod(ni, ii);
                        lemma_mod_division_less_than_divisor(ni, ii);
                        assert(pw * ii > ni) by (nonlinear_arith)
                            requires
                                pw > ni / ii,
                                ni == ii * (ni / ii) + ni % ii,
                                0 <= ni % ii,
                                ni % ii < ii,
                                2 <= ii,
                        {}
                        assert(pow(ii, e as nat + 1) == pow(ii, e as nat) * ii) by {
                            vstd::arithmetic::power::lemma_pow_adds(ii, e as nat, 1);
                            lemma_pow1(ii);
                        }
                        assert forall|j: nat| j >= 1 implies pow(i as int, pow2(j)) != n as int by {
                            let k = pow2(j);
                            vstd::arithmetic::power2::lemma_pow2_pos(j);
                            if k >= e as nat + 1 {
                                lemma_pow_increases(i as nat, e as nat + 1, k);
                            } else if k == e as nat {
                                assert(pw != n);
                            } else if k >= 2 {
                            } else {
                                assert(k == 1);
                                lemma_pow1(i as int);
                                assert(pow2(j) >= 2) by {
                                    vstd::arithmetic::power2::lemma_pow2_strictly_increases(0, j);
                                    vstd::arithmetic::power2::lemma2_to64();
                                }
                            }
                        }
                    }
                    break;
                }
                proof {
                    let ii = i as int;
                    let ni = n as int;
                    lemma_fundamental_div_mod(ni, ii);
                    assert(pw * ii <= ni) by (nonlinear_arith)
                        requires
                            pw <= ni / ii,
                            ni == ii * (ni / ii) + ni % ii,
                            0 <= ni % ii,
                            2 <= ii,
                    {}
                    assert(pow(ii, e as nat + 1) == pow(ii, e as nat) * ii) by {
                        vstd::arithmetic::power::lemma_pow_adds(ii, e as nat, 1);
                        lemma_pow1(ii);
                    }
                    assert(pw * ii >= pw * 2) by (nonlinear_arith)
                        requires
                            2 <= ii,
                            1 <= pw,
                    {}
                    lemma_pow2_unfold(e as nat + 1);
                    lemma_pow2_at_least(e as nat);
                    assert(e + 1 <= pw);
                }
                pw = pw * i;
                e = e + 1;
            }
        }
        proof {
            assert forall|p: int, j: nat|
                2 <= p < i + 1 && j >= 1 implies !(#[trigger] fermi_dirac_witness(
                p,
                j,
                n as int,
            )) by {
                if p == i as int && fermi_dirac_witness(p, j, n as int) {
                    assert(pow(i as int, pow2(j)) == n as int);
                }
            }
        }
        i = i + 1;
    }
    let r = is_prime(n);
    proof {
        let ni = n as int;
        if r {
            lemma_pow1(ni);
            assert(pow2(0) == 1) by {
                vstd::arithmetic::power2::lemma2_to64();
            }
            assert(fermi_dirac_witness(ni, 0, ni));
        } else if spec_is_fermi_dirac(ni) {
            let (p, j) = choose|p: int, j: nat| #[trigger] fermi_dirac_witness(p, j, ni);
            if j == 0 {
                assert(pow2(0) == 1) by {
                    vstd::arithmetic::power2::lemma2_to64();
                }
                lemma_pow1(p);
                assert(false);
            } else {
                assert(pow2(j) >= 2) by {
                    vstd::arithmetic::power2::lemma_pow2_strictly_increases(0, j);
                    vstd::arithmetic::power2::lemma2_to64();
                }
                lemma_pow_increases(p as nat, 2, pow2(j));
                lemma_square_is_pow2(p);
                assert(p < b) by (nonlinear_arith)
                    requires
                        p * p <= ni,
                        ni < b * b,
                        0 <= p,
                        0 < b,
                {}
                assert(!fermi_dirac_witness(p, j, ni));
                assert(false);
            }
        }
    }
    r
}

} // verus!
