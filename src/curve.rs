use crate::modular::{
    add_mod, expmod, inv, inv_spec, lemma_add_cong, lemma_mul_cong, lemma_pow_cong, lemma_reduced,
    lemma_sub_cong, mul_mod, same_value, sub_mod,
};
use crate::scalar::Scalar;
use vstd::arithmetic::div_mod::*;
use vstd::arithmetic::power::*;
use vstd::arithmetic::power2::*;
use vstd::prelude::*;

verus! {

/// A point in affine coordinates `(x, y)`.
#[derive(Debug)]
pub struct Point {
    pub x: Scalar,
    pub y: Scalar,
}

impl View for Point {
    type V = (int, int);

    open spec fn view(&self) -> (int, int) {
        (self.x@ as int, self.y@ as int)
    }
}

impl Point {
    /// The point with the given coordinates.
    pub fn new(x: Scalar, y: Scalar) -> (r: Point)
        ensures
            r@ == (x@ as int, y@ as int),
    {
        Point { x, y }
    }

    /// A copy of this point.
    pub fn copy(&self) -> (r: Point)
        ensures
            r@ == self@,
    {
        Point { x: self.x.copy(), y: self.y.copy() }
    }
}

/// The neutral element `(0, 1)` of the twisted Edwards group.
pub open spec fn identity() -> (int, int) {
    (0, 1)
}

/// The twisted Edwards addition law, with divisions as multiplications by `inv_spec`.
pub open spec fn edwards_spec(p: (int, int), r: (int, int), q: int, d: int) -> (int, int) {
    let t = d * p.0 * r.0 * p.1 * r.1;
    (
        ((p.0 * r.1 + p.1 * r.0) * inv_spec(1 + t, q)) % q,
        ((p.1 * r.1 + p.0 * r.0) * inv_spec(1 - t, q)) % q,
    )
}

/// Double-and-add over the bits of `k`, least significant first: `acc` takes `base`
/// for each set bit, and `base` is doubled at each bit.
pub open spec fn double_and_add(acc: (int, int), base: (int, int), k: nat, q: int, d: int) -> (int, int)
    decreases k,
{
    if k == 0 {
        acc
    } else {
        double_and_add(
            if k % 2 == 1 {
                edwards_spec(acc, base, q, d)
            } else {
                acc
            },
            edwards_spec(base, base, q, d),
            k / 2,
            q,
            d,
        )
    }
}

/// `k` times `p` by double-and-add, starting from the identity.
pub open spec fn scalarmult_spec(p: (int, int), k: nat, q: int, d: int) -> (int, int) {
    double_and_add(identity(), p, k, q, d)
}

/// Whether `(x, y)` satisfies `y^2 - x^2 = 1 + d x^2 y^2 (mod q)`.
pub open spec fn on_curve(p: (int, int), q: int, d: int) -> bool {
    (p.1 * p.1 - p.0 * p.0) % q == (1 + d * p.0 * p.0 * p.1 * p.1) % q
}

/// The even square root of `(y^2 - 1) / (d y^2 + 1)` modulo `q`, for `q = 5 (mod 8)`: the
/// candidate `xx^((q+3)/8)`, times `i` (a square root of -1) where its square is not `xx`,
/// and then negated where it is odd.
pub open spec fn xrecover_spec(y: int, q: int, d: int, i: int) -> int {
    let xx = ((y * y - 1) * inv_spec(d * y * y + 1, q)) % q;
    let c = pow(xx, ((q + 3) / 8) as nat) % q;
    let x = if (c * c - xx) % q == 0 {
        c
    } else {
        (c * i) % q
    };
    if x % 2 == 1 {
        q - x
    } else {
        x
    }
}

/// Two values in `[0, q)` differ by a multiple of `q` only when they are equal.
pub proof fn lemma_diff_zero_mod(u: int, v: int, q: int)
    requires
        0 <= u < q,
        0 <= v < q,
    ensures
        ((u - v) % q == 0) == (u == v),
{
    if u >= v {
        lemma_reduced(u - v, q);
    } else {
        lemma_mod_add_multiples_vanish(u - v, q);
        lemma_reduced(q + (u - v), q);
    }
}

/// `v` is `e mod q` and `v < q`, so `v` is congruent to `e`.
proof fn lemma_cong_of(v: int, e: int, q: int)
    requires
        q > 0,
        v == e % q,
    ensures
        v % q == e % q,
{
    lemma_mod_twice(e, q);
}

/// The twisted Edwards sum of `p` and `r` modulo `q`.
pub fn edwards(p: &Point, r: &Point, q: &Scalar, d: &Scalar) -> (s: Point)
    requires
        q@ >= 2,
    ensures
        s@ == edwards_spec(p@, r@, q@ as int, d@ as int),
        0 <= s@.0 < q@,
        0 <= s@.1 < q@,
{
    let ghost (x1, y1, x2, y2, qv, dv) = (p@.0, p@.1, r@.0, r@.1, q@ as int, d@ as int);
    let ghost t = dv * x1 * x2 * y1 * y2;
    let one = Scalar::small(1);
    let x1y2 = mul_mod(&p.x, &r.y, q);
    let y1x2 = mul_mod(&p.y, &r.x, q);
    let y1y2 = mul_mod(&p.y, &r.y, q);
    let x1x2 = mul_mod(&p.x, &r.x, q);
    let dxx = mul_mod(d, &x1x2, q);
    let dxxyy = mul_mod(&dxx, &y1y2, q);
    let num_x = add_mod(&x1y2, &y1x2, q);
    let den_x = add_mod(&one, &dxxyy, q);
    let num_y = add_mod(&y1y2, &x1x2, q);
    let den_y = sub_mod(&one, &dxxyy, q);
    let inv_x = inv(&den_x, q);
    let inv_y = inv(&den_y, q);
    let x = mul_mod(&num_x, &inv_x, q);
    let y = mul_mod(&num_y, &inv_y, q);
    proof {
        lemma_cong_of(x1y2@ as int, x1 * y2, qv);
        lemma_cong_of(y1x2@ as int, y1 * x2, qv);
        lemma_cong_of(y1y2@ as int, y1 * y2, qv);
        lemma_cong_of(x1x2@ as int, x1 * x2, qv);
        lemma_mul_cong(dv, dv, x1x2@ as int, x1 * x2, qv);
        lemma_cong_of(dxx@ as int, dv * (x1 * x2), qv);
        lemma_mul_cong(dxx@ as int, dv * (x1 * x2), y1y2@ as int, y1 * y2, qv);
        assert(dv * (x1 * x2) * (y1 * y2) == t) by (nonlinear_arith)
            requires
                t == dv * x1 * x2 * y1 * y2,
        ;
        lemma_cong_of(dxxyy@ as int, t, qv);
        lemma_add_cong(x1y2@ as int, x1 * y2, y1x2@ as int, y1 * x2, qv);
        lemma_cong_of(num_x@ as int, x1 * y2 + y1 * x2, qv);
        lemma_add_cong(y1y2@ as int, y1 * y2, x1x2@ as int, x1 * x2, qv);
        lemma_cong_of(num_y@ as int, y1 * y2 + x1 * x2, qv);
        lemma_add_cong(1, 1, dxxyy@ as int, t, qv);
        lemma_cong_of(den_x@ as int, 1 + t, qv);
        lemma_sub_cong(1, 1, dxxyy@ as int, t, qv);
        lemma_cong_of(den_y@ as int, 1 - t, qv);
        lemma_pow_cong(den_x@ as int, 1 + t, (qv - 2) as nat, qv);
        lemma_pow_cong(den_y@ as int, 1 - t, (qv - 2) as nat, qv);
        lemma_mul_cong(num_x@ as int, x1 * y2 + y1 * x2, inv_x@ as int, inv_spec(1 + t, qv), qv);
        lemma_mul_cong(num_y@ as int, y1 * y2 + x1 * x2, inv_y@ as int, inv_spec(1 - t, qv), qv);
        lemma_mod_bound(x@ as int, qv);
    }
    Point { x, y }
}

/// One bit of double-and-add: with `k = 2h + bit`, the result from `(acc, base)` over `k`
/// equals the result from the next accumulator and the doubled base over `h`.
proof fn lemma_double_and_add_step(acc: (int, int), base: (int, int), h: nat, bit: nat, q: int, d: int)
    requires
        bit < 2,
    ensures
        double_and_add(acc, base, 2 * h + bit, q, d) == double_and_add(
            if bit == 1 {
                edwards_spec(acc, base, q, d)
            } else {
                acc
            },
            edwards_spec(base, base, q, d),
            h,
            q,
            d,
        ),
{
    if 2 * h + bit == 0 {
        assert(h == 0);
    } else {
        assert((2 * h + bit) % 2 == bit);
        assert((2 * h + bit) / 2 == h);
    }
}

/// `k` times `p` on the curve, by double-and-add over the bits of `k`, least significant
/// first, starting from the identity `(0, 1)`.
pub fn scalarmult(p: &Point, k: &Scalar, q: &Scalar, d: &Scalar) -> (r: Point)
    requires
        q@ >= 2,
    ensures
        r@ == scalarmult_spec(p@, k@, q@ as int, d@ as int),
        k@ == 0 ==> r@ == identity(),
        0 <= r@.0 < q@,
        0 <= r@.1 < q@,
{
    let ghost (qv, dv) = (q@ as int, d@ as int);
    let ghost target = scalarmult_spec(p@, k@, qv, dv);
    let mut acc = Point { x: Scalar::small(0), y: Scalar::small(1) };
    let mut base = p.copy();
    let n = k.bytes.len();
    proof {
        assert(k.bytes@.subrange(0, n as int) =~= k.bytes@);
    }
    let mut j: usize = 0;
    while j < n
        invariant
            q@ >= 2,
            qv == q@,
            dv == d@,
            n == k.bytes@.len(),
            j <= n,
            0 <= acc@.0 < qv,
            0 <= acc@.1 < qv,
            target == double_and_add(acc@, base@, crate::scalar::le_value(k.bytes@.subrange(j as int, n as int)), qv, dv),
        decreases n - j,
    {
        let ghost rest = crate::scalar::le_value(k.bytes@.subrange(j + 1, n as int));
        let mut w: u8 = k.bytes[j];
        proof {
            assert(k.bytes@.subrange(j as int, n as int).subrange(1, (n - j) as int)
                =~= k.bytes@.subrange(j + 1, n as int));
            lemma2_to64();
        }
        let mut t: usize = 0;
        while t < 8
            invariant
                q@ >= 2,
                qv == q@,
                dv == d@,
                t <= 8,
                0 <= acc@.0 < qv,
                0 <= acc@.1 < qv,
                (w as nat) < pow2((8 - t) as nat),
                target == double_and_add(acc@, base@, (rest * pow2((8 - t) as nat) + w) as nat, qv, dv),
            decreases 8 - t,
        {
            let bit: u8 = w & 1;
            let half: u8 = w >> 1;
            proof {
                assert(bit == w % 2 && half == w / 2) by (bit_vector)
                    requires
                        bit == w & 1,
                        half == w >> 1,
                ;
                lemma_pow2_unfold((8 - t) as nat);
                let h = (rest * pow2((8 - t - 1) as nat) + half) as nat;
                assert(rest * pow2((8 - t) as nat) + w == 2 * h + bit) by (nonlinear_arith)
                    requires
                        pow2((8 - t) as nat) == 2 * pow2((8 - t - 1) as nat),
                        h == rest * pow2((8 - t - 1) as nat) + half,
                        w == 2 * half + bit,
                ;
                lemma_double_and_add_step(acc@, base@, h, bit as nat, qv, dv);
            }
            if bit == 1 {
                acc = edwards(&acc, &base, q, d);
            }
            base = edwards(&base, &base, q, d);
            w = half;
            t = t + 1;
        }
        proof {
            assert(w == 0);
            assert(pow2(0) == 1) by {
                reveal(pow);
            }
            assert((rest * pow2(0) + w) as nat == rest);
        }
        j = j + 1;
    }
    proof {
        assert(k.bytes@.subrange(n as int, n as int) =~= Seq::<u8>::empty());
        if k@ == 0 {
            assert(target == identity());
        }
    }
    acc
}

/// Whether `p` satisfies the curve equation modulo `q`.
pub fn isoncurve(p: &Point, q: &Scalar, d: &Scalar) -> (r: bool)
    requires
        q@ >= 2,
    ensures
        r == on_curve(p@, q@ as int, d@ as int),
{
    let ghost (x, y, qv, dv) = (p@.0, p@.1, q@ as int, d@ as int);
    let one = Scalar::small(1);
    let x2 = mul_mod(&p.x, &p.x, q);
    let y2 = mul_mod(&p.y, &p.y, q);
    let left = sub_mod(&y2, &x2, q);
    let dx2 = mul_mod(d, &x2, q);
    let dx2y2 = mul_mod(&dx2, &y2, q);
    let right = add_mod(&one, &dx2y2, q);
    proof {
        lemma_cong_of(x2@ as int, x * x, qv);
        lemma_cong_of(y2@ as int, y * y, qv);
        lemma_sub_cong(y2@ as int, y * y, x2@ as int, x * x, qv);
        lemma_mul_cong(dv, dv, x2@ as int, x * x, qv);
        lemma_cong_of(dx2@ as int, dv * (x * x), qv);
        lemma_mul_cong(dx2@ as int, dv * (x * x), y2@ as int, y * y, qv);
        assert(dv * (x * x) * (y * y) == dv * x * x * y * y) by (nonlinear_arith);
        lemma_cong_of(dx2y2@ as int, dv * x * x * y * y, qv);
        lemma_add_cong(1, 1, dx2y2@ as int, dv * x * x * y * y, qv);
    }
    same_value(&left, &right)
}

/// The even square root `x` of `(y^2 - 1) / (d y^2 + 1)` modulo `q` (see `xrecover_spec`).
pub fn xrecover(y: &Scalar, q: &Scalar, d: &Scalar, i_const: &Scalar) -> (r: Scalar)
    requires
        q@ >= 2,
    ensures
        r@ == xrecover_spec(y@ as int, q@ as int, d@ as int, i_const@ as int),
{
    let ghost (yv, qv, dv, iv) = (y@ as int, q@ as int, d@ as int, i_const@ as int);
    let one = Scalar::small(1);
    let y2 = mul_mod(y, y, q);
    let num = sub_mod(&y2, &one, q);
    let den = add_mod(&mul_mod(d, &y2, q), &one, q);
    let den_inv = inv(&den, q);
    let xx = mul_mod(&num, &den_inv, q);
    let ghost xxv = ((yv * yv - 1) * inv_spec(dv * yv * yv + 1, qv)) % qv;
    proof {
        lemma_cong_of(y2@ as int, yv * yv, qv);
        lemma_sub_cong(y2@ as int, yv * yv, 1, 1, qv);
        lemma_cong_of(num@ as int, yv * yv - 1, qv);
        lemma_mul_cong(dv, dv, y2@ as int, yv * yv, qv);
        assert(dv * (yv * yv) == dv * yv * yv) by (nonlinear_arith);
        lemma_mod_twice(dv * yv * yv, qv);
        lemma_add_cong((dv * (y2@ as int)) % qv, dv * yv * yv, 1, 1, qv);
        lemma_cong_of(den@ as int, dv * yv * yv + 1, qv);
        lemma_pow_cong(den@ as int, dv * yv * yv + 1, (qv - 2) as nat, qv);
        lemma_mul_cong(num@ as int, yv * yv - 1, den_inv@ as int, inv_spec(dv * yv * yv + 1, qv), qv);
        assert(xx@ == xxv);
    }
    let exp = q.sum(&Scalar::small(3)).shr(3);
    proof {
        assert(pow2(3) == 8) by {
            lemma2_to64();
        }
    }
    let mut x = expmod(&xx, &exp, q);
    let ghost c = x@ as int;
    let x2 = mul_mod(&x, &x, q);
    proof {
        lemma_mod_bound(xxv, qv);
        lemma_mod_bound(c * c, qv);
        lemma_cong_of(x2@ as int, c * c, qv);
        lemma_sub_cong(x2@ as int, c * c, xxv, xxv, qv);
        lemma_diff_zero_mod(x2@ as int, xxv, qv);
    }
    if !same_value(&x2, &xx) {
        x = mul_mod(&x, i_const, q);
    }
    if x.is_odd() {
        let ghost xv = x@ as int;
        x = sub_mod(q, &x, q);
        proof {
            lemma_mod_bound(c * iv, qv);
            lemma_reduced(qv - xv, qv);
        }
    }
    x
}

} // verus!
