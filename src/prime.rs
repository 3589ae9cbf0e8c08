//! Prime moduli: Euclid's lemma and Fermat's little theorem, which make
//! `b^(p-2)` the inverse of a nonzero `b` modulo a prime `p`.
use vstd::arithmetic::div_mod::*;
use vstd::arithmetic::mul::*;
use vstd::arithmetic::power::*;
use vstd::prelude::*;

verus! {

/// `p` is a prime number: above one, and with no divisor strictly between
/// one and itself.
pub open spec fn is_prime(p: int) -> bool {
    1 < p && forall|d: int| 1 < d < p ==> #[trigger] (p % d) != 0
}

/// Euclid's lemma: a prime that divides `a * b`, where `0 < a < p`, divides `b`.
pub proof fn lemma_euclid(p: int, a: int, b: int)
    requires
        is_prime(p),
        0 < a < p,
        (a * b) % p == 0,
    ensures
        b % p == 0,
    decreases a,
{
    if a > 1 {
        // p = q * a + r with 0 < r < a, and r * b = p * b - q * (a * b).
        let q = p / a;
        let r = p % a;
        lemma_fundamental_div_mod(p, a);
        assert(p % a != 0);
        lemma_mod_pos_bound(p, a);
        let k = (a * b) / p;
        lemma_fundamental_div_mod(a * b, p);
        assert(r * b == p * (b - q * k)) by (nonlinear_arith)
            requires
                p == a * q + r,
                a * b == p * k,
        ;
        lemma_mod_multiples_basic(b - q * k, p);
        assert((b - q * k) * p == p * (b - q * k)) by (nonlinear_arith);
        assert(0 < r < a);
        assert((r * b) % p == 0);
        lemma_euclid(p, r, b);
    } else {
        assert(a * b == b) by (nonlinear_arith)
            requires
                a == 1,
        ;
    }
}

/// The binomial coefficient `n` choose `k`, by Pascal's rule.
pub open spec fn binomial(n: nat, k: nat) -> nat
    decreases n,
{
    if k == 0 {
        1
    } else if n == 0 {
        0
    } else {
        binomial((n - 1) as nat, (k - 1) as nat) + binomial((n - 1) as nat, k)
    }
}

proof fn lemma_binomial_above(n: nat, k: nat)
    requires
        k > n,
    ensures
        binomial(n, k) == 0,
    decreases n,
{
    if n > 0 {
        lemma_binomial_above((n - 1) as nat, (k - 1) as nat);
        lemma_binomial_above((n - 1) as nat, k);
    }
}

proof fn lemma_binomial_diagonal(n: nat)
    ensures
        binomial(n, n) == 1,
    decreases n,
{
    if n > 0 {
        lemma_binomial_diagonal((n - 1) as nat);
        lemma_binomial_above((n - 1) as nat, n);
    }
}

/// The absorption identity `k * C(n, k) == n * C(n - 1, k - 1)`.
proof fn lemma_binomial_absorption(n: nat, k: nat)
    requires
        1 <= k,
        1 <= n,
    ensures
        k * binomial(n, k) == n * binomial((n - 1) as nat, (k - 1) as nat),
    decreases n,
{
    let m = (n - 1) as nat;
    if n == 1 {
        lemma_binomial_above(0, k);
        if k > 1 {
            lemma_binomial_above(0, (k - 1) as nat);
        }
        assert(binomial(1, k) == binomial(0, (k - 1) as nat));
        assert(k * binomial(1, k) == binomial(0, (k - 1) as nat)) by (nonlinear_arith)
            requires
                binomial(1, k) == binomial(0, (k - 1) as nat),
                k == 1 || binomial(1, k) == 0,
        ;
    } else if k == 1 {
        lemma_binomial_absorption(m, 1);
        let l = (m - 1) as nat;
        assert(binomial(n, 1) == binomial(m, 0) + binomial(m, 1));
        assert(binomial(m, 0) == 1);
        assert(binomial(l, 0) == 1);
        assert(k * binomial(n, k) == n * binomial(m, 0)) by (nonlinear_arith)
            requires
                k == 1,
                binomial(n, 1) == binomial(m, 0) + binomial(m, 1),
                binomial(m, 0) == 1,
                binomial(l, 0) == 1,
                1 * binomial(m, 1) == m * binomial(l, 0),
                m + 1 == n,
        ;
    } else {
        let j = (k - 1) as nat;
        let l = (m - 1) as nat;
        lemma_binomial_absorption(m, k);
        lemma_binomial_absorption(m, j);
        let c_mj = binomial(m, j);
        let c_mk = binomial(m, k);
        let c_lj = binomial(l, j);
        let c_ljj = binomial(l, (j - 1) as nat);
        assert(binomial(n, k) == c_mj + c_mk);
        assert(c_mj == c_ljj + c_lj);
        assert(k * (c_mj + c_mk) == n * c_mj) by (nonlinear_arith)
            requires
                k * c_mk == m * c_lj,
                j * c_mj == m * c_ljj,
                c_mj == c_ljj + c_lj,
                j + 1 == k,
                m + 1 == n,
        ;
    }
}

/// A prime `p` divides `C(p, k)` for `0 < k < p`.
proof fn lemma_prime_divides_binomial(p: nat, k: nat)
    requires
        is_prime(p as int),
        0 < k < p,
    ensures
        (binomial(p, k) as int) % (p as int) == 0,
{
    let c = binomial(((p - 1) as nat), (k - 1) as nat);
    lemma_binomial_absorption(p, k);
    lemma_mod_multiples_basic(c as int, p as int);
    assert(c * p == p * c) by (nonlinear_arith);
    lemma_euclid(p as int, k as int, binomial(p, k) as int);
}

/// The first `k` terms of the expansion of `(x + 1)^n`:
/// the sum of `C(n, j) * x^j` for `j < k`.
pub open spec fn binomial_sum(x: int, n: nat, k: nat) -> int
    decreases k,
{
    if k == 0 {
        0
    } else {
        binomial_sum(x, n, (k - 1) as nat) + binomial(n, (k - 1) as nat) * pow(x, (k - 1) as nat)
    }
}

proof fn lemma_binomial_sum_first(x: int, n: nat)
    ensures
        binomial_sum(x, n, 1) == 1,
{
    lemma_pow0(x);
    assert(binomial_sum(x, n, 0) == 0);
    assert(binomial_sum(x, n, 1) == binomial(n, 0) * pow(x, 0));
    assert(binomial(n, 0) == 1);
    assert(binomial(n, 0) * pow(x, 0) == 1) by (nonlinear_arith)
        requires
            binomial(n, 0) == 1,
            pow(x, 0) == 1,
    ;
}

proof fn lemma_binomial_sum_step(x: int, n: nat, k: nat)
    ensures
        binomial_sum(x, n + 1, k + 1) == x * binomial_sum(x, n, k) + binomial_sum(x, n, k + 1),
    decreases k,
{
    lemma_pow0(x);
    if k > 0 {
        let j = (k - 1) as nat;
        lemma_binomial_sum_step(x, n, j);
        let c = binomial(n, j);
        let s = binomial_sum(x, n, j);
        reveal(pow);
        assert(pow(x, k) == x * pow(x, j));
        assert(x * s + c * pow(x, k) == x * (s + c * pow(x, j))) by (nonlinear_arith)
            requires
                pow(x, k) == x * pow(x, j),
        ;
        assert(binomial(n + 1, k) == c + binomial(n, k));
        assert((c + binomial(n, k)) * pow(x, k) == c * pow(x, k) + binomial(n, k) * pow(x, k))
            by (nonlinear_arith);
        assert(binomial_sum(x, n, k) == s + c * pow(x, j));
        assert(binomial_sum(x, n, k + 1) == binomial_sum(x, n, k) + binomial(n, k) * pow(x, k));
        assert(binomial_sum(x, n + 1, k + 1) == binomial_sum(x, n + 1, k) + binomial(n + 1, k) * pow(
            x,
            k,
        ));
    } else {
        lemma_binomial_sum_first(x, n + 1);
        lemma_binomial_sum_first(x, n);
        assert(x * binomial_sum(x, n, 0) == 0) by (nonlinear_arith)
            requires
                binomial_sum(x, n, 0) == 0,
        ;
    }
}

/// The binomial theorem for `(x + 1)^n`.
proof fn lemma_binomial_theorem(x: int, n: nat)
    ensures
        pow(x + 1, n) == binomial_sum(x, n, n + 1),
    decreases n,
{
    lemma_pow0(x);
    lemma_pow0(x + 1);
    if n > 0 {
        let m = (n - 1) as nat;
        lemma_binomial_theorem(x, m);
        lemma_binomial_sum_step(x, m, m + 1);
        lemma_binomial_above(m, m + 1);
        reveal(pow);
        let s = binomial_sum(x, m, m + 1);
        assert(pow(x + 1, n) == (x + 1) * s);
        assert((x + 1) * s == x * s + s) by (nonlinear_arith);
        assert(binomial_sum(x, m, m + 2) == s + binomial(m, m + 1) * pow(x, m + 1));
        assert(binomial(m, m + 1) * pow(x, m + 1) == 0);
    } else {
        lemma_binomial_sum_first(x, 0);
    }
}

/// All the terms of the expansion of `(x + 1)^p` before `x^p` add up to
/// one modulo a prime `p`.
proof fn lemma_binomial_sum_mod_prime(x: int, p: nat, k: nat)
    requires
        is_prime(p as int),
        1 <= k <= p,
    ensures
        (binomial_sum(x, p, k) - 1) % (p as int) == 0,
    decreases k,
{
    if k > 1 {
        let j = (k - 1) as nat;
        lemma_binomial_sum_mod_prime(x, p, j);
        lemma_prime_divides_binomial(p, j);
        let s = binomial_sum(x, p, j);
        let c = binomial(p, j);
        lemma_fundamental_div_mod(s - 1, p as int);
        lemma_fundamental_div_mod(c as int, p as int);
        let u = (s - 1) / (p as int);
        let v = (c as int) / (p as int);
        assert(binomial_sum(x, p, k) - 1 == (u + v * pow(x, j)) * p) by (nonlinear_arith)
            requires
                binomial_sum(x, p, k) == s + c * pow(x, j),
                s - 1 == p * u,
                c == p * v,
        ;
        lemma_mod_multiples_basic(u + v * pow(x, j), p as int);
    } else {
        lemma_binomial_sum_first(x, p);
        lemma_small_mod(0, p);
    }
}

/// Fermat's little theorem, first form: `x^p` is congruent to `x` modulo a
/// prime `p`.
pub proof fn lemma_pow_prime_congruent(x: nat, p: nat)
    requires
        is_prime(p as int),
    ensures
        pow(x as int, p) % (p as int) == (x as int) % (p as int),
    decreases x,
{
    if x == 0 {
        lemma0_pow(p);
    } else {
        let y = (x - 1) as nat;
        lemma_pow_prime_congruent(y, p);
        lemma_binomial_theorem(y as int, p);
        lemma_binomial_diagonal(p);
        lemma_pow0(y as int);
        lemma_binomial_sum_mod_prime(y as int, p, p);
        let s = binomial_sum(y as int, p, p);
        let py = pow(y as int, p);
        assert(binomial_sum(y as int, p, p + 1) == s + py);
        lemma_mod_equivalence(py, y as int, p as int);
        lemma_fundamental_div_mod(s - 1, p as int);
        lemma_fundamental_div_mod(py - y, p as int);
        let u = (s - 1) / (p as int);
        let v = (py - y) / (p as int);
        assert(s + py - x == (u + v) * p) by (nonlinear_arith)
            requires
                s - 1 == p * u,
                py - y == p * v,
                x == y + 1,
        ;
        lemma_mod_multiples_basic(u + v, p as int);
        lemma_mod_equivalence(s + py, x as int, p as int);
    }
}

/// Fermat's little theorem: `a^(p-1)` is one modulo a prime `p` for every
/// `a` with `0 < a < p`.
pub proof fn lemma_fermat_little(a: int, p: int)
    requires
        is_prime(p),
        0 < a < p,
    ensures
        pow(a, (p - 1) as nat) % p == 1,
{
    let e = (p - 1) as nat;
    let t = pow(a, e);
    lemma_pow_prime_congruent(a as nat, p as nat);
    lemma_pow_adds(a, 1, e);
    lemma_pow1(a);
    assert(pow(a, p as nat) == a * t);
    lemma_small_mod(a as nat, p as nat);
    lemma_mod_equivalence(a * t, a, p);
    assert(a * t - a == a * (t - 1)) by (nonlinear_arith);
    lemma_euclid(p, a, t - 1);
    lemma_mod_equivalence(t, 1, p);
    lemma_small_mod(1, p as nat);
}

} // verus!
