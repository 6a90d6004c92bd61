use crate::curve::{
    double_and_add, edwards_spec, identity, on_curve, scalarmult_spec, xrecover_spec,
};
use crate::encoding::{
    decode_point_spec, decoded_x, encode_point_spec, encoded_y, le_bytes, lemma_le_bytes_last,
    lemma_le_bytes_len, lemma_le_value_of_bytes, lemma_pow256_pos, pow256, sign_bit, CodecError,
};
use crate::modular::{
    inv_spec, lemma_add_cong, lemma_mul_cong, lemma_pow_cong, lemma_reduced, lemma_sub_cong,
};
use crate::number_theory::{is_prime, lemma_euclid, lemma_fermat, lemma_square_roots};
use crate::protocol::{
    checkvalid_spec, publickey_spec, secret_scalar, sha512_of, signature_spec,
};
use crate::scalar::le_value;
use vstd::arithmetic::div_mod::*;
use vstd::arithmetic::power::*;
use vstd::prelude::*;

verus! {

/// Decoding rejects a byte string of the wrong length with `Shape`, one whose `y` is not
/// below `q` with `Range`, and one that does not give a point on the curve with `Curve`.
pub proof fn lemma_decode_rejection(s: Seq<u8>, n: nat, q: int, d: int, i: int)
    ensures
        s.len() != n ==> decode_point_spec(s, n, q, d, i) == Err::<(int, int), CodecError>(
            CodecError::Shape,
        ),
        s.len() == n && encoded_y(s) >= q ==> decode_point_spec(s, n, q, d, i) == Err::<
            (int, int),
            CodecError,
        >(CodecError::Range),
        s.len() == n && encoded_y(s) < q && !on_curve(
            (decoded_x(encoded_y(s) as int, sign_bit(s), q, d, i), encoded_y(s) as int),
            q,
            d,
        ) ==> decode_point_spec(s, n, q, d, i) == Err::<(int, int), CodecError>(
            CodecError::Curve,
        ),
        decode_point_spec(s, n, q, d, i) is Ok ==> on_curve(
            decode_point_spec(s, n, q, d, i)->Ok_0,
            q,
            d,
        ),
{
}

/// Signing is deterministic: two signatures computed from the same message, seed, public
/// key and parameters are the same bytes.
pub proof fn lemma_signature_deterministic(
    sig1: Seq<u8>,
    sig2: Seq<u8>,
    m: Seq<u8>,
    seed: Seq<u8>,
    pk: Seq<u8>,
    n: nat,
    q: int,
    l: int,
    d: int,
    base: (int, int),
)
    requires
        sig1 == signature_spec(m, seed, pk, n, q, l, d, base),
        sig2 == signature_spec(m, seed, pk, n, q, l, d, base),
    ensures
        sig1 == sig2,
{
}

/// Zero times any point is the identity `(0, 1)`.
pub proof fn lemma_scalarmult_zero(p: (int, int), q: int, d: int)
    ensures
        scalarmult_spec(p, 0, q, d) == identity(),
{
}

/// A parameter set under which decoding inverts encoding: `q` a prime with `q = 5 (mod 8)`,
/// `i` a square root of -1 modulo `q`, `d` not a square modulo `q`, and every value below
/// `q` fitting in the `8n - 1` bits below the sign bit.
pub open spec fn valid_curve(n: nat, q: int, d: int, i: int) -> bool {
    &&& is_prime(q)
    &&& q % 8 == 5
    &&& (i * i) % q == q - 1
    &&& forall|z: int| #[trigger] ((z * z) % q) != d % q
    &&& n >= 1
    &&& q <= 128 * pow256((n - 1) as nat)
}

/// On the curve, `d y^2 + 1` is not a multiple of `q`.
proof fn lemma_denominator_nonzero(x: int, y: int, q: int, d: int, i: int)
    requires
        is_prime(q),
        (i * i) % q == q - 1,
        forall|z: int| #[trigger] ((z * z) % q) != d % q,
        on_curve((x, y), q, d),
    ensures
        (d * y * y + 1) % q != 0,
{
    let u = d * y * y + 1;
    let xx = x * x;
    if u % q == 0 {
        assert(1 + d * x * x * y * y == 1 - xx + xx * u) by (nonlinear_arith)
            requires
                xx == x * x,
                u == d * y * y + 1,
        ;
        lemma_reduced(0, q);
        lemma_mul_cong(xx, xx, u, 0, q);
        lemma_add_cong(1 - xx, 1 - xx, xx * u, 0, q);
        lemma_add_cong(y * y - xx, 1 - xx, xx, xx, q);
        lemma_reduced(1, q);
        assert((y * y) % q == 1);
        lemma_mul_cong(d, d, y * y, 1, q);
        assert(d * (y * y) == d * y * y) by (nonlinear_arith);
        lemma_add_cong(d * y * y, d, 1, 1, q);
        lemma_sub_cong(d + 1, 0, 1, 1, q);
        lemma_mod_add_multiples_vanish(-1, q);
        lemma_reduced(q - 1, q);
        assert(d % q == (i * i) % q);
    }
}

/// On the curve, `(y^2 - 1) / (d y^2 + 1)` is congruent to `x^2`.
proof fn lemma_ratio_is_x_squared(x: int, y: int, q: int, d: int)
    requires
        is_prime(q),
        on_curve((x, y), q, d),
        (d * y * y + 1) % q != 0,
    ensures
        ((y * y - 1) * inv_spec(d * y * y + 1, q)) % q == (x * x) % q,
{
    let u = d * y * y + 1;
    let xx = x * x;
    let a = y * y - x * x;
    let b = 1 + d * x * x * y * y;
    assert(a - b == (y * y - 1) - xx * u) by (nonlinear_arith)
        requires
            a == y * y - x * x,
            b == 1 + d * x * x * y * y,
            xx == x * x,
            u == d * y * y + 1,
    ;
    lemma_sub_cong(a, b, b, b, q);
    lemma_reduced(0, q);
    lemma_add_cong((y * y - 1) - xx * u, 0, xx * u, xx * u, q);
    let w = pow(u, (q - 2) as nat);
    lemma_mod_twice(w, q);
    lemma_mul_cong(y * y - 1, xx * u, w % q, w, q);
    assert(pow(u, (q - 1) as nat) == u * w) by {
        reveal(pow);
    }
    assert((xx * u) * w == xx * (u * w)) by (nonlinear_arith);
    lemma_fermat(u, q);
    lemma_mod_twice(xx, q);
    lemma_reduced(1, q);
    lemma_mul_cong(xx, xx, u * w, 1, q);
}

/// Under a valid parameter set, the root that decoding recovers for the `y` of a point on
/// the curve, with the parity of its `x` as the sign, is that `x`.
proof fn lemma_recovered_x(x: int, y: int, sign: u8, q: int, d: int, i: int)
    requires
        is_prime(q),
        q % 8 == 5,
        (i * i) % q == q - 1,
        forall|z: int| #[trigger] ((z * z) % q) != d % q,
        on_curve((x, y), q, d),
        0 <= x < q,
        sign as int == x % 2,
    ensures
        decoded_x(y, sign, q, d, i) == x,
{
    let u = d * y * y + 1;
    lemma_denominator_nonzero(x, y, q, d, i);
    lemma_ratio_is_x_squared(x, y, q, d);
    let xx = ((y * y - 1) * inv_spec(u, q)) % q;
    let big_x = x * x;
    let e = ((q + 3) / 8) as nat;
    let c = pow(xx, e) % q;
    let j = q / 8;
    assert(e == j + 1);
    lemma_mod_bound(xx, q);
    lemma_mod_bound(c, q);
    lemma_mod_bound(pow(xx, e), q);
    let x1 = if (c * c - xx) % q == 0 {
        c
    } else {
        (c * i) % q
    };
    let x0 = xrecover_spec(y, q, d, i);
    assert(x0 == if x1 % 2 == 1 {
        q - x1
    } else {
        x1
    });
    if x == 0 {
        lemma_reduced(0, q);
        assert(xx == 0);
        lemma0_pow(e);
        assert(c == 0);
        assert(x1 == 0);
    } else {
        if big_x % q == 0 {
            lemma_euclid(x, x, q);
            lemma_reduced(x, q);
        }
        // c^2 = xx^(2e) = x^(4e) = x^((q-1)/2) * x^2
        let pe = pow(xx, e);
        lemma_mod_twice(pe, q);
        lemma_mod_twice((y * y - 1) * inv_spec(u, q), q);
        lemma_mul_cong(c, pe, c, pe, q);
        lemma_pow_adds(xx, e, e);
        lemma_pow_cong(xx, big_x, e + e, q);
        lemma_square_is_pow2(x);
        lemma_pow_multiplies(x, 2, e + e);
        let h = ((q - 1) / 2) as nat;
        assert(2 * (e + e) == h + 2);
        lemma_pow_adds(x, h, 2);
        let z = pow(x, h);
        assert((c * c) % q == (z * big_x) % q);
        // z^2 = x^(q-1) = 1
        lemma_pow_adds(x, h, h);
        assert(h + h == (q - 1) as nat);
        lemma_reduced(x, q);
        lemma_fermat(x, q);
        let zr = z % q;
        lemma_mod_bound(z, q);
        lemma_mod_twice(z, q);
        lemma_mul_cong(zr, z, zr, z, q);
        lemma_reduced(1, q);
        assert((1int * 1int) % q == 1);
        lemma_square_roots(zr, 1, q);
        lemma_mul_cong(zr, z, big_x, big_x, q);
        lemma_mod_twice(big_x, q);
        if zr == 1 {
            assert((c * c) % q == xx % q) by {
                lemma_reduced(xx, q);
            }
            lemma_sub_cong(c * c, xx, xx, xx, q);
            lemma_reduced(0, q);
            assert(x1 == c);
            assert((x1 * x1) % q == big_x % q) by {
                lemma_reduced(xx, q);
            }
        } else {
            assert(zr == q - 1);
            // c^2 = -x^2
            assert((q - 1) * big_x == q * big_x + (-big_x)) by (nonlinear_arith);
            lemma_mod_multiples_vanish(big_x, -big_x, q);
            assert((c * c) % q == (-big_x) % q);
            // c^2 - xx = -2 x^2, which q does not divide
            lemma_reduced(xx, q);
            lemma_sub_cong(c * c, -big_x, xx, big_x, q);
            assert(-big_x - big_x == (-2) * big_x);
            if (c * c - xx) % q == 0 {
                lemma_euclid(-2, big_x, q);
                lemma_mod_add_multiples_vanish(-2, q);
                lemma_reduced(q - 2, q);
            }
            assert(x1 == (c * i) % q);
            // (c i)^2 = c^2 i^2 = (-x^2)(-1) = x^2
            lemma_mod_twice(c * i, q);
            lemma_mul_cong(x1, c * i, x1, c * i, q);
            assert((c * i) * (c * i) == (c * c) * (i * i)) by (nonlinear_arith);
            lemma_mod_add_multiples_vanish(-1, q);
            lemma_reduced(q - 1, q);
            lemma_mul_cong(c * c, -big_x, i * i, -1, q);
            assert((-big_x) * (-1) == big_x) by (nonlinear_arith);
            assert((x1 * x1) % q == big_x % q);
        }
        lemma_mod_bound(c * i, q);
        lemma_square_roots(x1, x, q);
    }
    assert(q % 2 == 1);
    if x0 != x {
        assert(x0 == q - x);
        lemma_reduced(x, q);
    }
}

/// Decoding the encoding of a point on the curve, with coordinates below `q`, gives the
/// point back.
pub proof fn lemma_round_trip(x: int, y: int, n: nat, q: int, d: int, i: int)
    requires
        valid_curve(n, q, d, i),
        0 <= x < q,
        0 <= y < q,
        on_curve((x, y), q, d),
    ensures
        decode_point_spec(encode_point_spec((x, y), n), n, q, d, i) == Ok::<(int, int), CodecError>(
            (x, y),
        ),
{
    let s = encode_point_spec((x, y), n);
    let e = le_bytes(y as nat, n);
    lemma_le_bytes_len(y as nat, n);
    lemma_le_bytes_last(y as nat, n);
    lemma_pow256_pos((n - 1) as nat);
    let w = pow256((n - 1) as nat);
    assert(y / (w as int) < 128) by {
        lemma_div_is_ordered(y, 128 * w - 1, w as int);
        lemma_fundamental_div_mod_converse(128 * w - 1, w as int, 127, w - 1);
    }
    let last = e[n - 1];
    lemma_small_mod((y / (w as int)) as nat, 256);
    assert(last < 128);
    let sign: u8 = if x % 2 == 1 {
        0x80u8
    } else {
        0u8
    };
    assert(((last | sign) >> 7) as int == x % 2 && ((last | sign) & 0x7f) == last) by {
        assert(((last | 0x80u8) >> 7) == 1u8 && ((last | 0x80u8) & 0x7fu8) == last) by (bit_vector)
            requires
                last < 128u8,
        ;
        assert(((last | 0u8) >> 7) == 0u8 && ((last | 0u8) & 0x7fu8) == last) by (bit_vector)
            requires
                last < 128u8,
        ;
    }
    assert(s.update(n - 1, s[n - 1] & 0x7f) =~= e);
    assert(pow256(n) == 256 * w);
    lemma_le_value_of_bytes(y as nat, n);
    assert(encoded_y(s) == y);
    assert(sign_bit(s) as int == x % 2);
    lemma_recovered_x(x, y, sign_bit(s), q, d, i);
}

/// Double-and-add from a point with coordinates in `[0, q)` stays in `[0, q)`.
proof fn lemma_double_and_add_reduced(acc: (int, int), base: (int, int), k: nat, q: int, d: int)
    requires
        q > 0,
        0 <= acc.0 < q,
        0 <= acc.1 < q,
    ensures
        0 <= double_and_add(acc, base, k, q, d).0 < q,
        0 <= double_and_add(acc, base, k, q, d).1 < q,
    decreases k,
{
    if k > 0 {
        let next = if k % 2 == 1 {
            edwards_spec(acc, base, q, d)
        } else {
            acc
        };
        let t = d * acc.0 * base.0 * acc.1 * base.1;
        lemma_mod_bound((acc.0 * base.1 + acc.1 * base.0) * inv_spec(1 + t, q), q);
        lemma_mod_bound((acc.1 * base.1 + acc.0 * base.0) * inv_spec(1 - t, q), q);
        lemma_double_and_add_reduced(next, edwards_spec(base, base, q, d), k / 2, q, d);
    }
}

/// Verifying a genuine signature comes down to the group equation. Under a valid parameter
/// set in which every multiple of `B` lies on the curve, with `pk` the public key of `seed`:
/// `checkvalid` accepts the signature of `m` exactly when `s * B` and `R + h * A` have the
/// same encoding, for the signer's own nonce point `R = r * B`, key point `A = a * B`,
/// challenge `h` and scalar `s = (r + h a) mod l`.
pub proof fn lemma_genuine_signature_check(
    m: Seq<u8>,
    seed: Seq<u8>,
    n: nat,
    q: int,
    l: int,
    d: int,
    i: int,
    base: (int, int),
)
    requires
        valid_curve(n, q, d, i),
        0 < l <= pow256(n),
        forall|k: nat| on_curve(#[trigger] scalarmult_spec(base, k, q, d), q, d),
    ensures
        ({
            let pk = publickey_spec(seed, n, q, d, base);
            let a = secret_scalar(seed);
            let r = le_value(sha512_of(sha512_of(seed).subrange(32, 64) + m)) as int % l;
            let r_pt = scalarmult_spec(base, r as nat, q, d);
            let a_pt = scalarmult_spec(base, a, q, d);
            let h = le_value(sha512_of(encode_point_spec(r_pt, n) + pk + m)) as int % l;
            let s = (r + h * a) % l;
            checkvalid_spec(signature_spec(m, seed, pk, n, q, l, d, base), m, pk, n, q, l, d, i, base)
                == (encode_point_spec(scalarmult_spec(base, s as nat, q, d), n) == encode_point_spec(
                edwards_spec(r_pt, scalarmult_spec(a_pt, h as nat, q, d), q, d),
                n,
            ))
        }),
{
    let pk = publickey_spec(seed, n, q, d, base);
    let a = secret_scalar(seed);
    let r = le_value(sha512_of(sha512_of(seed).subrange(32, 64) + m)) as int % l;
    let r_pt = scalarmult_spec(base, r as nat, q, d);
    let a_pt = scalarmult_spec(base, a, q, d);
    let r_enc = encode_point_spec(r_pt, n);
    let h = le_value(sha512_of(r_enc + pk + m)) as int % l;
    let s = (r + h * a) % l;
    let sig = signature_spec(m, seed, pk, n, q, l, d, base);
    lemma_mod_bound(r, l);
    lemma_mod_bound(r + h * a, l);
    lemma_double_and_add_reduced(identity(), base, r as nat, q, d);
    lemma_double_and_add_reduced(identity(), base, a, q, d);
    assert(on_curve(r_pt, q, d));
    assert(on_curve(a_pt, q, d));
    lemma_le_bytes_len(r_pt.1 as nat, n);
    lemma_le_bytes_len(a_pt.1 as nat, n);
    lemma_le_bytes_len(s as nat, n);
    let s_enc = le_bytes(s as nat, n);
    assert(sig == r_enc + s_enc);
    assert(sig.subrange(0, n as int) =~= r_enc);
    assert(sig.subrange(n as int, 2 * n as int) =~= s_enc);
    lemma_le_value_of_bytes(s as nat, n);
    lemma_reduced(s, l);
    lemma_round_trip(r_pt.0, r_pt.1, n, q, d, i);
    lemma_round_trip(a_pt.0, a_pt.1, n, q, d, i);
}

} // verus!
