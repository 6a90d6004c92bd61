use crate::scalar::{le_value, Scalar};
use vstd::arithmetic::div_mod::*;
use vstd::arithmetic::power::*;
use vstd::arithmetic::power2::*;
use vstd::prelude::*;

verus! {

/// The inverse of `x` modulo a prime `q` by Fermat's little theorem, `x^(q-2) mod q`.
/// It is 0 where `x` is a multiple of `q`.
pub open spec fn inv_spec(x: int, q: int) -> int {
    pow(x, (q - 2) as nat) % q
}

/// Congruent factors give congruent products.
pub proof fn lemma_mul_cong(a: int, a2: int, c: int, c2: int, m: int)
    requires
        m > 0,
        a % m == a2 % m,
        c % m == c2 % m,
    ensures
        (a * c) % m == (a2 * c2) % m,
{
    lemma_mul_mod_noop(a, c, m);
    lemma_mul_mod_noop(a2, c2, m);
}

/// Congruent terms give congruent sums.
pub proof fn lemma_add_cong(a: int, a2: int, c: int, c2: int, m: int)
    requires
        m > 0,
        a % m == a2 % m,
        c % m == c2 % m,
    ensures
        (a + c) % m == (a2 + c2) % m,
{
    lemma_add_mod_noop(a, c, m);
    lemma_add_mod_noop(a2, c2, m);
}

/// Congruent terms give congruent differences.
pub proof fn lemma_sub_cong(a: int, a2: int, c: int, c2: int, m: int)
    requires
        m > 0,
        a % m == a2 % m,
        c % m == c2 % m,
    ensures
        (a - c) % m == (a2 - c2) % m,
{
    lemma_sub_mod_noop(a, c, m);
    lemma_sub_mod_noop(a2, c2, m);
}

/// Congruent bases give congruent powers.
pub proof fn lemma_pow_cong(a: int, a2: int, e: nat, m: int)
    requires
        m > 0,
        a % m == a2 % m,
    ensures
        pow(a, e) % m == pow(a2, e) % m,
{
    lemma_pow_mod_noop(a, e, m);
    lemma_pow_mod_noop(a2, e, m);
}

/// A value in `[0, m)` is its own remainder.
pub proof fn lemma_reduced(x: int, m: int)
    requires
        0 <= x < m,
    ensures
        x % m == x,
{
    lemma_small_mod(x as nat, m as nat);
}

/// `(a * b) mod m`.
pub fn mul_mod(a: &Scalar, b: &Scalar, m: &Scalar) -> (r: Scalar)
    requires
        m@ > 0,
    ensures
        r@ == (a@ as int * b@ as int) % (m@ as int),
{
    a.product(b).rem_euclid(m)
}

/// `(a + b) mod m`.
pub fn add_mod(a: &Scalar, b: &Scalar, m: &Scalar) -> (r: Scalar)
    requires
        m@ > 0,
    ensures
        r@ == (a@ as int + b@ as int) % (m@ as int),
{
    a.sum(b).rem_euclid(m)
}

/// `(a - b) mod m`, in `[0, m)`.
pub fn sub_mod(a: &Scalar, b: &Scalar, m: &Scalar) -> (r: Scalar)
    requires
        m@ > 0,
    ensures
        r@ == (a@ as int - b@ as int) % (m@ as int),
{
    let b_red = b.rem_euclid(m);
    let t = a.sum(m).difference(&b_red);
    let r = t.rem_euclid(m);
    proof {
        let (av, bv, mv) = (a@ as int, b@ as int, m@ as int);
        let (qd, rm) = (bv / mv, bv % mv);
        lemma_fundamental_div_mod(bv, mv);
        let tv = t@ as int;
        assert(tv == av + mv - rm);
        assert(bv == mv * qd + rm);
        assert(mv * (1 + qd) == mv + mv * qd) by (nonlinear_arith);
        assert(tv == mv * (1 + qd) + (av - bv));
        lemma_mod_multiples_vanish(1 + qd, av - bv, mv);
    }
    r
}

/// Whether two scalars have the same value.
pub fn same_value(a: &Scalar, b: &Scalar) -> (r: bool)
    ensures
        r == (a@ == b@),
{
    !a.less_than(b) && !b.less_than(a)
}

/// One step of square-and-multiply: `acc * base^(2k + bit)` is congruent to
/// `acc' * (base^2)^k`, where `acc'` takes the factor `base` when the bit is set.
proof fn lemma_square_multiply_step(acc: int, base: int, k: nat, bit: nat, m: int)
    requires
        m > 0,
        bit < 2,
    ensures
        (acc * pow(base, 2 * k + bit)) % m == ((if bit == 1 {
            (acc * base) % m
        } else {
            acc
        }) * pow((base * base) % m, k)) % m,
{
    lemma_pow_adds(base, 2 * k, bit);
    lemma_pow_multiplies(base, 2, k);
    lemma_square_is_pow2(base);
    let sq = pow(base * base, k);
    lemma_pow_mod_noop(base * base, k, m);
    let bb = pow(base, bit);
    assert(acc * (bb * sq) == (acc * bb) * sq) by (nonlinear_arith);
    if bit == 1 {
        assert(bb == base) by {
            lemma_pow1(base);
        }
        lemma_mod_twice(acc * base, m);
        lemma_mul_cong((acc * base) % m, acc * base, pow((base * base) % m, k), sq, m);
    } else {
        assert(bb == 1) by {
            lemma_pow0(base);
        }
        lemma_mul_cong(acc, acc, pow((base * base) % m, k), sq, m);
    }
}

/// `base^exponent mod modulus`, by square-and-multiply over the bits of the exponent,
/// least significant first.
pub fn expmod(b_val: &Scalar, e: &Scalar, m: &Scalar) -> (r: Scalar)
    requires
        m@ > 0,
    ensures
        r@ == pow(b_val@ as int, e@) % (m@ as int),
        r@ < m@,
{
    let ghost target = pow(b_val@ as int, e@) % (m@ as int);
    let mut base = b_val.rem_euclid(m);
    let mut acc = Scalar::small(1).rem_euclid(m);
    let n = e.bytes.len();
    proof {
        assert(e.bytes@.subrange(0, n as int) =~= e.bytes@);
        lemma_pow_mod_noop(b_val@ as int, e@, m@ as int);
        lemma_mod_twice(1, m@ as int);
        lemma_mul_cong(acc@ as int, 1, pow(base@ as int, e@), pow(b_val@ as int, e@), m@ as int);
        assert(1 * pow(b_val@ as int, e@) == pow(b_val@ as int, e@));
    }
    let mut j: usize = 0;
    while j < n
        invariant
            m@ > 0,
            n == e.bytes@.len(),
            j <= n,
            acc@ < m@,
            target == (acc@ * pow(base@ as int, le_value(e.bytes@.subrange(j as int, n as int)))) % (m@ as int),
        decreases n - j,
    {
        let ghost rest = le_value(e.bytes@.subrange(j + 1, n as int));
        let mut w: u8 = e.bytes[j];
        proof {
            assert(e.bytes@.subrange(j as int, n as int).subrange(1, (n - j) as int)
                =~= e.bytes@.subrange(j + 1, n as int));
            lemma2_to64();
        }
        let mut t: usize = 0;
        while t < 8
            invariant
                m@ > 0,
                t <= 8,
                acc@ < m@,
                (w as nat) < pow2((8 - t) as nat),
                target == (acc@ * pow(base@ as int, (rest * pow2((8 - t) as nat) + w) as nat)) % (m@ as int),
            decreases 8 - t,
        {
            let bit: u8 = w & 1;
            let half: u8 = w >> 1;
            proof {
                assert(bit == w % 2 && half == w / 2) by (bit_vector)
                    requires
                        bit == w & 1,
                        half == w >> 1,
                ;
                lemma_pow2_unfold((8 - t) as nat);
                let k = (rest * pow2((8 - t - 1) as nat) + half) as nat;
                assert(rest * pow2((8 - t) as nat) + w == 2 * k + bit) by (nonlinear_arith)
                    requires
                        pow2((8 - t) as nat) == 2 * pow2((8 - t - 1) as nat),
                        k == rest * pow2((8 - t - 1) as nat) + half,
                        w == 2 * half + bit,
                ;
                lemma_square_multiply_step(acc@ as int, base@ as int, k, bit as nat, m@ as int);
            }
            if bit == 1 {
                acc = mul_mod(&acc, &base, m);
            }
            base = mul_mod(&base, &base, m);
            w = half;
            t = t + 1;
        }
        proof {
            assert(w == 0);
            assert(pow2(0) == 1) by {
                reveal(pow);
            }
            assert((rest * pow2(0) + w) as nat == rest);
        }
        j = j + 1;
    }
    proof {
        assert(e.bytes@.subrange(n as int, n as int) =~= Seq::<u8>::empty());
        reveal(pow);
        lemma_reduced(acc@ as int, m@ as int);
    }
    acc
}

/// The multiplicative inverse of `x` modulo a prime `q`: `x^(q-2) mod q`.
pub fn inv(x: &Scalar, q: &Scalar) -> (r: Scalar)
    requires
        q@ >= 2,
    ensures
        r@ == inv_spec(x@ as int, q@ as int),
        r@ < q@,
{
    let e = q.difference(&Scalar::small(2));
    expmod(x, &e, q)
}

} // verus!
