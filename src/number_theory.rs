use crate::modular::lemma_reduced;
use vstd::arithmetic::div_mod::*;
use vstd::arithmetic::power::*;
use vstd::prelude::*;

verus! {

/// `p` is a prime number.
pub open spec fn is_prime(p: int) -> bool {
    p > 1 && forall|k: int| 1 < k < p ==> #[trigger] (p % k) != 0
}

/// Euclid's lemma for a first factor in `(0, p)`.
proof fn lemma_euclid_small(a: int, b: int, p: int)
    requires
        is_prime(p),
        0 < a < p,
        (a * b) % p == 0,
    ensures
        b % p == 0,
    decreases a,
{
    if a > 1 {
        let r = p % a;
        let t = p / a;
        lemma_fundamental_div_mod(p, a);
        lemma_mod_bound(p, a);
        assert(r != 0);
        let m = (a * b) / p;
        lemma_fundamental_div_mod(a * b, p);
        assert(r * b == (b - t * m) * p) by (nonlinear_arith)
            requires
                p == a * t + r,
                a * b == p * m + 0,
        ;
        lemma_mod_multiples_basic(b - t * m, p);
        assert((r * b) % p == 0);
        lemma_euclid_small(r, b, p);
    } else {
        assert(a * b == b) by (nonlinear_arith)
            requires
                a == 1,
        ;
    }
}

/// Euclid's lemma: a prime that divides a product divides one of its factors.
pub proof fn lemma_euclid(a: int, b: int, p: int)
    requires
        is_prime(p),
        (a * b) % p == 0,
    ensures
        a % p == 0 || b % p == 0,
{
    let a1 = a % p;
    if a1 != 0 {
        lemma_mul_mod_noop_left(a, b, p);
        lemma_mod_bound(a, p);
        lemma_euclid_small(a1, b, p);
    }
}

/// The binomial coefficient, by Pascal's rule.
pub open spec fn binom(n: nat, k: nat) -> nat
    decreases n,
{
    if k == 0 {
        1
    } else if n == 0 {
        0
    } else {
        binom((n - 1) as nat, (k - 1) as nat) + binom((n - 1) as nat, k)
    }
}

/// `sum of binom(n, k) * a^k` over `k < m`.
pub open spec fn binom_sum(a: int, n: nat, m: nat) -> int
    decreases m,
{
    if m == 0 {
        0
    } else {
        binom_sum(a, n, (m - 1) as nat) + binom(n, (m - 1) as nat) * pow(a, (m - 1) as nat)
    }
}

proof fn lemma_binom_above(n: nat, k: nat)
    requires
        k > n,
    ensures
        binom(n, k) == 0,
    decreases n,
{
    if n > 0 {
        lemma_binom_above((n - 1) as nat, (k - 1) as nat);
        lemma_binom_above((n - 1) as nat, k);
    }
}

proof fn lemma_binom_diag(n: nat)
    ensures
        binom(n, n) == 1,
    decreases n,
{
    if n > 0 {
        lemma_binom_diag((n - 1) as nat);
        lemma_binom_above((n - 1) as nat, n);
    }
}

/// The absorption identity `k * C(n, k) = n * C(n - 1, k - 1)`.
proof fn lemma_binom_absorb(n: nat, k: nat)
    requires
        n >= 1,
        k >= 1,
    ensures
        k * binom(n, k) == n * binom((n - 1) as nat, (k - 1) as nat),
    decreases n,
{
    let n1 = (n - 1) as nat;
    let k1 = (k - 1) as nat;
    if n == 1 {
        if k > 1 {
            lemma_binom_above(0, k1);
            lemma_binom_above(0, k);
            assert(binom(n, k) == binom(0, k1) + binom(0, k));
            assert(k * binom(n, k) == 0) by (nonlinear_arith)
                requires
                    binom(n, k) == 0,
            ;
        } else {
            assert(binom(1, 1) == binom(0, 0) + binom(0, 1));
            assert(k * binom(n, k) == 1) by (nonlinear_arith)
                requires
                    k == 1,
                    binom(n, k) == 1,
            ;
        }
    } else if k == 1 {
        lemma_binom_absorb(n1, 1);
        assert(binom(n1, 0) == 1);
        assert(binom(n, 1) == binom(n1, 0) + binom(n1, 1));
        assert(k * binom(n, k) == n * binom(n1, k1)) by (nonlinear_arith)
            requires
                k == 1,
                k1 == 0,
                binom(n, 1) == 1 + binom(n1, 1),
                1 * binom(n1, 1) == n1 * 1,
                binom(n1, 0) == 1,
                n == n1 + 1,
        ;
    } else {
        lemma_binom_absorb(n1, k1);
        lemma_binom_absorb(n1, k);
        let a = binom(n1, k1);
        let c = binom(n1, k);
        let a2 = binom((n1 - 1) as nat, (k1 - 1) as nat);
        let c2 = binom((n1 - 1) as nat, k1);
        assert(binom(n, k) == a + c);
        assert(a == a2 + c2);
        assert(k * binom(n, k) == n * a) by (nonlinear_arith)
            requires
                binom(n, k) == a + c,
                k1 * a == n1 * a2,
                k * c == n1 * c2,
                a == a2 + c2,
                k == k1 + 1,
                n == n1 + 1,
        ;
    }
}

/// A prime `p` divides `C(p, k)` for `0 < k < p`.
proof fn lemma_prime_divides_binom(p: int, k: nat)
    requires
        is_prime(p),
        0 < k < p,
    ensures
        binom(p as nat, k) as int % p == 0,
{
    lemma_binom_absorb(p as nat, k);
    let c = binom((p - 1) as nat, (k - 1) as nat);
    lemma_mod_multiples_basic(c as int, p);
    assert((k as int * binom(p as nat, k)) % p == 0) by {
        assert(p * c == c * p) by (nonlinear_arith);
    }
    lemma_euclid(k as int, binom(p as nat, k) as int, p);
    lemma_reduced(k as int, p);
}

/// `(a + 1)^n` is the binomial sum `sum of C(n, k) a^k` over `k <= n`.
proof fn lemma_binomial(a: int, n: nat)
    ensures
        pow(a + 1, n) == binom_sum(a, n, n + 1),
    decreases n,
{
    reveal(pow);
    if n > 0 {
        let n1 = (n - 1) as nat;
        lemma_binomial(a, n1);
        lemma_binom_sum_pascal(a, n1, n + 1);
        lemma_binom_above(n1, n);
        let s = binom_sum(a, n1, n);
        assert(binom_sum(a, n1, n + 1) == s + binom(n1, n) * pow(a, n));
        assert(binom_sum(a, n1, n + 1) == s);
        assert(binom_sum(a, n, n + 1) == a * s + s);
        assert(pow(a + 1, n) == (a + 1) * pow(a + 1, n1));
        assert(pow(a + 1, n) == binom_sum(a, n, n + 1)) by (nonlinear_arith)
            requires
                pow(a + 1, n) == (a + 1) * pow(a + 1, n1),
                pow(a + 1, n1) == s,
                binom_sum(a, n, n + 1) == a * s + s,
        ;
    } else {
        reveal_with_fuel(binom_sum, 2);
        lemma_pow0(a);
        lemma_pow0(a + 1);
    }
}

/// Pascal's rule summed: `S(n + 1, m) = a * S(n, m - 1) + S(n, m)`.
proof fn lemma_binom_sum_pascal(a: int, n: nat, m: nat)
    requires
        m >= 1,
    ensures
        binom_sum(a, n + 1, m) == a * binom_sum(a, n, (m - 1) as nat) + binom_sum(a, n, m),
    decreases m,
{
    reveal(pow);
    if m == 1 {
        reveal_with_fuel(binom_sum, 2);
        lemma_pow0(a);
        assert(binom_sum(a, n + 1, 1) == 1);
        assert(binom_sum(a, n, 1) == 1);
    } else {
        let m1 = (m - 1) as nat;
        let m2 = (m - 2) as nat;
        lemma_binom_sum_pascal(a, n, m1);
        let s1 = binom_sum(a, n, m2);
        let s2 = binom_sum(a, n, m1);
        let c1 = binom(n, m2);
        let c2 = binom(n, m1);
        assert(binom((n + 1) as nat, m1) == c1 + c2);
        let pw = pow(a, m2);
        assert(pow(a, m1) == a * pw);
        assert(a * s1 + s2 + (c1 + c2) * (a * pw) == a * (s1 + c1 * pw) + (s2 + c2 * (a * pw)))
            by (nonlinear_arith);
    }
}

/// The middle terms of `(a + 1)^p` vanish modulo `p`.
proof fn lemma_binom_sum_mod_prime(a: int, p: int, m: nat)
    requires
        is_prime(p),
        1 <= m <= p,
    ensures
        binom_sum(a, p as nat, m) % p == 1,
    decreases m,
{
    reveal(pow);
    if m == 1 {
        reveal_with_fuel(binom_sum, 2);
        lemma_pow0(a);
        assert(binom_sum(a, p as nat, 1) == 1);
        lemma_reduced(1, p);
    } else {
        let m1 = (m - 1) as nat;
        lemma_binom_sum_mod_prime(a, p, m1);
        lemma_prime_divides_binom(p, m1);
        let c = binom(p as nat, m1) as int;
        let pw = pow(a, m1);
        lemma_mul_mod_noop_left(c, pw, p);
        assert((c % p) * pw == 0) by (nonlinear_arith)
            requires
                c % p == 0,
        ;
        lemma_reduced(0, p);
        assert((c * pw) % p == 0);
        lemma_add_mod_noop(binom_sum(a, p as nat, m1), c * pw, p);
        lemma_reduced(1, p);
        assert(binom_sum(a, p as nat, m) == binom_sum(a, p as nat, m1) + c * pw);
    }
}

/// `(a + 1)^p = a^p + 1 (mod p)` for a prime `p`.
proof fn lemma_freshman(a: int, p: int)
    requires
        is_prime(p),
    ensures
        pow(a + 1, p as nat) % p == (pow(a, p as nat) + 1) % p,
{
    lemma_binomial(a, p as nat);
    lemma_binom_sum_mod_prime(a, p, p as nat);
    lemma_binom_diag(p as nat);
    let s = binom_sum(a, p as nat, p as nat);
    assert(binom_sum(a, p as nat, (p + 1) as nat) == s + pow(a, p as nat));
    lemma_add_mod_noop(s, pow(a, p as nat), p);
    lemma_add_mod_noop(1, pow(a, p as nat), p);
    lemma_reduced(1, p);
}

/// `a^p = a (mod p)` for a prime `p`.
proof fn lemma_pow_prime(a: nat, p: int)
    requires
        is_prime(p),
    ensures
        pow(a as int, p as nat) % p == a as int % p,
    decreases a,
{
    if a == 0 {
        lemma0_pow(p as nat);
    } else {
        let a1 = (a - 1) as nat;
        lemma_pow_prime(a1, p);
        lemma_freshman(a1 as int, p);
        lemma_add_mod_noop(pow(a1 as int, p as nat), 1, p);
        lemma_add_mod_noop(a1 as int, 1, p);
    }
}

/// Fermat's little theorem: `a^(p-1) = 1 (mod p)` for a prime `p` that does not divide `a`.
pub proof fn lemma_fermat(a: int, p: int)
    requires
        is_prime(p),
        a % p != 0,
    ensures
        pow(a, (p - 1) as nat) % p == 1,
{
    let a1 = a % p;
    lemma_mod_bound(a, p);
    lemma_pow_prime(a1 as nat, p);
    lemma_reduced(a1, p);
    let e = pow(a1, (p - 1) as nat);
    assert(pow(a1, p as nat) == a1 * e) by {
        reveal(pow);
    }
    assert(a1 * (e - 1) == a1 * e - a1) by (nonlinear_arith);
    lemma_sub_mod_noop(a1 * e, a1, p);
    lemma_reduced(0, p);
    assert((a1 * (e - 1)) % p == 0);
    lemma_euclid(a1, e - 1, p);
    lemma_reduced(a1, p);
    lemma_sub_mod_noop(e, 1, p);
    lemma_mod_bound(e, p);
    lemma_reduced(1, p);
    assert(e % p == 1) by {
        if e % p != 1 {
            lemma_mod_bound(e % p - 1, p);
            if e % p == 0 {
                lemma_mod_add_multiples_vanish(-1, p);
                lemma_reduced(p - 1, p);
            } else {
                lemma_reduced(e % p - 1, p);
            }
        }
    }
    lemma_pow_mod_noop(a, (p - 1) as nat, p);
}

/// In `[0, p)` for a prime `p`, two values with congruent squares are equal or opposite.
pub proof fn lemma_square_roots(u: int, v: int, p: int)
    requires
        is_prime(p),
        0 <= u < p,
        0 <= v < p,
        (u * u) % p == (v * v) % p,
    ensures
        u == v || u + v == p || (u == 0 && v == 0),
{
    assert((u - v) * (u + v) == u * u - v * v) by (nonlinear_arith);
    lemma_sub_mod_noop(u * u, v * v, p);
    lemma_mod_self_0(p);
    lemma_reduced(0, p);
    lemma_euclid(u - v, u + v, p);
    if (u - v) % p == 0 {
        crate::curve::lemma_diff_zero_mod(u, v, p);
    } else {
        if u + v < p {
            lemma_reduced(u + v, p);
        } else {
            lemma_mod_sub_multiples_vanish(u + v, p);
            lemma_reduced(u + v - p, p);
        }
    }
}

} // verus!
