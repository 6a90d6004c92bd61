use crate::curve::{isoncurve, on_curve, xrecover, xrecover_spec, Point};
use crate::modular::sub_mod;
use crate::scalar::{le_value, Scalar};
use vstd::arithmetic::div_mod::*;
use vstd::prelude::*;

verus! {

/// Why a byte string could not be encoded or decoded.
#[derive(Debug, Clone, Copy, PartialEq, Eq, Structural)]
pub enum CodecError {
    /// The byte string has the wrong length.
    Shape,
    /// The integer is too large: it does not fit the width, or a coordinate is not
    /// below the modulus.
    Range,
    /// The decoded coordinates do not satisfy the curve equation.
    Curve,
}

/// `256^n`.
pub open spec fn pow256(n: nat) -> nat
    decreases n,
{
    if n == 0 {
        1
    } else {
        256 * pow256((n - 1) as nat)
    }
}

/// The `n`-byte little-endian encoding of `v` (of `v mod 256^n`).
pub open spec fn le_bytes(v: nat, n: nat) -> Seq<u8>
    decreases n,
{
    if n == 0 {
        Seq::empty()
    } else {
        seq![(v % 256) as u8] + le_bytes(v / 256, (n - 1) as nat)
    }
}

/// The `n`-byte encoding of a point: `y` little-endian, with the parity of `x` in the
/// top bit of the last byte.
pub open spec fn encode_point_spec(p: (int, int), n: nat) -> Seq<u8> {
    let e = le_bytes(p.1 as nat, n);
    e.update(
        n - 1,
        e[n - 1] | (if p.0 % 2 == 1 {
            0x80u8
        } else {
            0u8
        }),
    )
}

/// The sign bit of an encoded point: the top bit of its last byte.
pub open spec fn sign_bit(s: Seq<u8>) -> u8 {
    s[s.len() - 1] >> 7
}

/// The `y`-coordinate of an encoded point: the value of the bytes with the sign bit cleared.
pub open spec fn encoded_y(s: Seq<u8>) -> nat {
    le_value(s.update(s.len() - 1, s[s.len() - 1] & 0x7f))
}

/// The `x`-coordinate that decoding gives for `y` and a sign bit: the root from
/// `xrecover_spec`, negated modulo `q` where its parity is not the sign bit.
pub open spec fn decoded_x(y: int, sign: u8, q: int, d: int, i: int) -> int {
    let x = xrecover_spec(y, q, d, i);
    if x % 2 != sign as int {
        (q - x) % q
    } else {
        x
    }
}

/// The result of decoding `s` as an `n`-byte point.
pub open spec fn decode_point_spec(s: Seq<u8>, n: nat, q: int, d: int, i: int) -> Result<
    (int, int),
    CodecError,
> {
    if s.len() != n {
        Err(CodecError::Shape)
    } else if encoded_y(s) >= q {
        Err(CodecError::Range)
    } else {
        let y = encoded_y(s) as int;
        let p = (decoded_x(y, sign_bit(s), q, d, i), y);
        if on_curve(p, q, d) {
            Ok(p)
        } else {
            Err(CodecError::Curve)
        }
    }
}

/// The value of a byte string is the value of its first `k` bytes plus `256^k` times the
/// value of the rest.
pub proof fn lemma_le_split(s: Seq<u8>, k: nat)
    requires
        k <= s.len(),
    ensures
        le_value(s) == le_value(s.subrange(0, k as int)) + pow256(k) * le_value(
            s.subrange(k as int, s.len() as int),
        ),
    decreases k,
{
    if k == 0 {
        assert(s.subrange(0, 0) =~= Seq::<u8>::empty());
        assert(s.subrange(0, s.len() as int) =~= s);
        let x = le_value(s);
        assert(pow256(k) * x == x) by (nonlinear_arith)
            requires
                pow256(k) == 1,
        ;
    } else {
        let rest = s.subrange(1, s.len() as int);
        lemma_le_split(rest, (k - 1) as nat);
        assert(rest.subrange((k - 1) as int, rest.len() as int) =~= s.subrange(
            k as int,
            s.len() as int,
        ));
        let head = s.subrange(0, k as int);
        assert(head.subrange(1, head.len() as int) =~= rest.subrange(0, (k - 1) as int));
        let a = le_value(rest.subrange(0, (k - 1) as int));
        let b = le_value(s.subrange(k as int, s.len() as int));
        let w = pow256((k - 1) as nat);
        assert(head[0] == s[0]);
        assert(le_value(head) == head[0] + 256 * a);
        assert(le_value(s) == s[0] + 256 * le_value(rest));
        assert(pow256(k) == 256 * w);
        assert(256 * (a + w * b) == 256 * a + (256 * w) * b) by (nonlinear_arith);
        assert(le_value(rest) == a + w * b);
    }
}

/// A byte string of length `n` has a value below `256^n`.
pub proof fn lemma_le_bound(s: Seq<u8>)
    ensures
        le_value(s) < pow256(s.len()),
    decreases s.len(),
{
    if s.len() > 0 {
        let rest = s.subrange(1, s.len() as int);
        lemma_le_bound(rest);
        assert(256 * le_value(rest) <= 256 * (pow256(rest.len()) - 1)) by (nonlinear_arith)
            requires
                le_value(rest) < pow256(rest.len()),
        ;
    }
}

/// A byte string has value zero exactly when all its bytes are zero.
pub proof fn lemma_le_zero(s: Seq<u8>)
    ensures
        (le_value(s) == 0) == (forall|i: int| 0 <= i < s.len() ==> s[i] == 0),
    decreases s.len(),
{
    if s.len() > 0 {
        let rest = s.subrange(1, s.len() as int);
        lemma_le_zero(rest);
        if le_value(s) == 0 {
            assert forall|i: int| 0 <= i < s.len() implies s[i] == 0 by {
                if i > 0 {
                    assert(s[i] == rest[i - 1]);
                }
            }
        }
        if forall|i: int| 0 <= i < s.len() ==> s[i] == 0 {
            assert forall|i: int| 0 <= i < rest.len() implies rest[i] == 0 by {
                assert(rest[i] == s[i + 1]);
            }
        }
    }
}

/// The encoding of a byte string's value, at the string's own length, is the string.
pub proof fn lemma_le_bytes_of_value(s: Seq<u8>)
    ensures
        le_bytes(le_value(s), s.len()) == s,
    decreases s.len(),
{
    if s.len() == 0 {
        assert(le_bytes(le_value(s), 0) =~= s);
    } else {
        let rest = s.subrange(1, s.len() as int);
        lemma_le_bytes_of_value(rest);
        let v = le_value(s);
        lemma_fundamental_div_mod_converse(v as int, 256, le_value(rest) as int, s[0] as int);
        assert(le_bytes(v, s.len()) =~= s);
    }
}

/// The `n`-byte encoding has `n` bytes.
pub proof fn lemma_le_bytes_len(v: nat, n: nat)
    ensures
        le_bytes(v, n).len() == n,
    decreases n,
{
    if n > 0 {
        lemma_le_bytes_len(v / 256, (n - 1) as nat);
    }
}

/// `256^n` is positive.
pub proof fn lemma_pow256_pos(n: nat)
    ensures
        pow256(n) > 0,
    decreases n,
{
    if n > 0 {
        lemma_pow256_pos((n - 1) as nat);
    }
}

/// The last of the `n` bytes of `v` is its digit of weight `256^(n-1)`.
pub proof fn lemma_le_bytes_last(v: nat, n: nat)
    requires
        n >= 1,
    ensures
        le_bytes(v, n)[n - 1] == (v / pow256((n - 1) as nat)) % 256,
    decreases n,
{
    lemma_le_bytes_len(v, n);
    if n > 1 {
        lemma_le_bytes_last(v / 256, (n - 1) as nat);
        lemma_le_bytes_len(v / 256, (n - 1) as nat);
        lemma_pow256_pos((n - 2) as nat);
        lemma_div_denominator(v as int, 256, pow256((n - 2) as nat) as int);
        assert(pow256((n - 1) as nat) == 256 * pow256((n - 2) as nat));
        assert(le_bytes(v, n)[n - 1] == le_bytes(v / 256, (n - 1) as nat)[n - 2]);
        assert((v / 256) / pow256((n - 2) as nat) == v / pow256((n - 1) as nat));
    } else {
        reveal_with_fuel(le_bytes, 2);
        assert(pow256(0) == 1);
        assert(v / 1 == v);
    }
}

/// The bytes of a value below `256^n` read back as that value.
pub proof fn lemma_le_value_of_bytes(v: nat, n: nat)
    requires
        v < pow256(n),
    ensures
        le_value(le_bytes(v, n)) == v,
    decreases n,
{
    if n > 0 {
        let e = le_bytes(v, n);
        let rest = le_bytes(v / 256, (n - 1) as nat);
        lemma_fundamental_div_mod(v as int, 256);
        assert(v / 256 < pow256((n - 1) as nat)) by {
            lemma_div_is_ordered(v as int, 256 * pow256((n - 1) as nat) - 1, 256);
            lemma_fundamental_div_mod_converse(
                256 * pow256((n - 1) as nat) - 1,
                256,
                pow256((n - 1) as nat) - 1,
                255,
            );
        }
        lemma_le_value_of_bytes(v / 256, (n - 1) as nat);
        lemma_le_bytes_len(v / 256, (n - 1) as nat);
        assert(e.subrange(1, e.len() as int) =~= rest);
    } else {
        assert(v == 0);
    }
}

/// `y` as exactly `b / 8` little-endian bytes; `Range` where it does not fit.
pub fn encodeint(y: &Scalar, b: usize) -> (r: Result<Vec<u8>, CodecError>)
    ensures
        r is Ok <==> y@ < pow256((b / 8) as nat),
        r is Ok ==> r->Ok_0@ == le_bytes(y@, (b / 8) as nat),
        r is Err ==> r->Err_0 == CodecError::Range,
{
    let n = b / 8;
    let len = y.bytes.len();
    let ghost s = y.bytes@;
    let mut out: Vec<u8> = Vec::new();
    let mut i: usize = 0;
    while i < n
        invariant
            i <= n,
            len == s.len(),
            s == y.bytes@,
            out@ =~= Seq::new(i as nat, |j: int| if j < len { s[j] } else { 0u8 }),
        decreases n - i,
    {
        if i < len {
            out.push(y.bytes[i]);
        } else {
            out.push(0);
        }
        i = i + 1;
    }
    let mut k: usize = n;
    while k < len
        invariant
            n == b / 8,
            n <= k,
            k <= len || len <= n,
            len == s.len(),
            s == y.bytes@,
            forall|j: int| n <= j < k ==> s[j] == 0,
        decreases len - k,
    {
        if y.bytes[k] != 0 {
            proof {
                let tail = s.subrange(n as int, len as int);
                assert(tail[k - n] != 0);
                lemma_le_zero(tail);
                lemma_le_split(s, n as nat);
                assert(le_value(tail) != 0);
                assert(pow256(n as nat) * le_value(tail) >= pow256(n as nat)) by (nonlinear_arith)
                    requires
                        le_value(tail) >= 1,
                ;
                assert(y@ >= pow256(n as nat));
            }
            return Err(CodecError::Range);
        }
        k = k + 1;
    }
    proof {
        if len <= n {
            lemma_le_split(out@, len as nat);
            assert(out@.subrange(0, len as int) =~= s);
            let pad = out@.subrange(len as int, n as int);
            assert(forall|j: int| 0 <= j < pad.len() ==> pad[j] == 0);
            lemma_le_zero(pad);
            assert(pow256(len as nat) * le_value(pad) == 0) by (nonlinear_arith)
                requires
                    le_value(pad) == 0,
            ;
            assert(le_value(out@) == le_value(s));
            lemma_le_bound(s);
            lemma_pow256_mono(len as nat, n as nat);
        } else {
            let tail = s.subrange(n as int, len as int);
            assert(out@ =~= s.subrange(0, n as int));
            assert(forall|j: int| 0 <= j < tail.len() ==> tail[j] == 0);
            lemma_le_zero(tail);
            lemma_le_split(s, n as nat);
            assert(pow256(n as nat) * le_value(tail) == 0) by (nonlinear_arith)
                requires
                    le_value(tail) == 0,
            ;
            assert(le_value(out@) == le_value(s));
            lemma_le_bound(out@);
        }
        assert(out@.len() == n);
        lemma_le_bytes_of_value(out@);
    }
    Ok(out)
}

/// `256^k` grows with `k`.
pub proof fn lemma_pow256_mono(k: nat, n: nat)
    requires
        k <= n,
    ensures
        pow256(k) <= pow256(n),
    decreases n,
{
    if k < n {
        lemma_pow256_mono(k, (n - 1) as nat);
    }
}

/// The `b / 8`-byte encoding of `p`: `y` little-endian, with the parity of `x` in the top
/// bit of the last byte; `Range` where `y` does not fit.
pub fn encodepoint(p: &Point, b: usize) -> (r: Result<Vec<u8>, CodecError>)
    requires
        b >= 8,
    ensures
        r is Ok <==> p@.1 < pow256((b / 8) as nat),
        r is Ok ==> r->Ok_0@ == encode_point_spec(p@, (b / 8) as nat),
        r is Err ==> r->Err_0 == CodecError::Range,
{
    let n = b / 8;
    match encodeint(&p.y, b) {
        Err(e) => Err(e),
        Ok(enc) => {
            let mut enc = enc;
            proof {
                lemma_le_bytes_len(p@.1 as nat, n as nat);
            }
            let sign: u8 = if p.x.is_odd() {
                0x80
            } else {
                0
            };
            let last = enc[n - 1];
            enc.set(n - 1, last | sign);
            Ok(enc)
        },
    }
}

/// The value of little-endian bytes.
pub fn decodeint(s: &[u8]) -> (r: Scalar)
    ensures
        r@ == le_value(s@),
{
    Scalar::from_bytes_le(vstd::slice::slice_to_vec(s))
}

/// The point that `s` encodes: `Shape` unless `s` has `b / 8` bytes, `Range` where its
/// `y` is not below `q`, `Curve` where the recovered point is not on the curve.
pub fn decodepoint(s: &[u8], b: usize, q: &Scalar, d: &Scalar, i_const: &Scalar) -> (r: Result<
    Point,
    CodecError,
>)
    requires
        b >= 8,
        q@ >= 2,
    ensures
        match decode_point_spec(s@, (b / 8) as nat, q@ as int, d@ as int, i_const@ as int) {
            Ok(pt) => r is Ok && r->Ok_0@ == pt,
            Err(e) => r is Err && r->Err_0 == e,
        },
{
    let n = b / 8;
    if s.len() != n {
        return Err(CodecError::Shape);
    }
    let mut y_bytes = vstd::slice::slice_to_vec(s);
    let last: u8 = y_bytes[n - 1];
    let sign: u8 = last >> 7;
    y_bytes.set(n - 1, last & 0x7f);
    let y = Scalar::from_bytes_le(y_bytes);
    if !y.less_than(q) {
        return Err(CodecError::Range);
    }
    let mut x = xrecover(&y, q, d, i_const);
    let x_sign: u8 = if x.is_odd() {
        1
    } else {
        0
    };
    if x_sign != sign {
        x = sub_mod(q, &x, q);
    }
    let p = Point::new(x, y);
    if !isoncurve(&p, q, d) {
        return Err(CodecError::Curve);
    }
    Ok(p)
}

} // verus!
