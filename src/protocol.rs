use crate::curve::{edwards, edwards_spec, scalarmult, scalarmult_spec, Point};
use crate::encoding::{
    decode_point_spec, decodeint, decodepoint, encode_point_spec, encodeint, encodepoint, le_bytes,
    lemma_le_bytes_len, pow256,
};
use crate::scalar::{le_value, Scalar};
use sha2::{Digest, Sha512};
use vstd::prelude::*;

verus! {

/// The SHA-512 digest of a byte string.
pub uninterp spec fn sha512_of(m: Seq<u8>) -> Seq<u8>;

/// Relies on sha2's `Sha512::digest`: the 64-byte SHA-512 digest, which depends on the
/// input bytes alone.
#[verifier::external_body]
fn h(m: &[u8]) -> (r: Vec<u8>)
    ensures
        r@ == sha512_of(m@),
        r@.len() == 64,
{
    Sha512::digest(m).to_vec()
}

/// The first 32 bytes of a digest with the secret-scalar clamping applied: the low three
/// bits of the first byte cleared, the top bit of the last byte cleared and the one below
/// it set.
pub open spec fn clamp(digest: Seq<u8>) -> Seq<u8> {
    let a = digest.subrange(0, 32);
    a.update(0, a[0] & 248).update(31, (a[31] & 63) | 64)
}

/// The secret scalar that a seed derives.
pub open spec fn secret_scalar(seed: Seq<u8>) -> nat {
    le_value(clamp(sha512_of(seed)))
}

/// The public key of a seed: the encoding of `a * B` for its secret scalar `a`.
pub open spec fn publickey_spec(seed: Seq<u8>, n: nat, q: int, d: int, base: (int, int)) -> Seq<u8> {
    encode_point_spec(scalarmult_spec(base, secret_scalar(seed), q, d), n)
}

/// The signature of `m` under `seed` with public key `pk`: the encoding of `R = r * B`,
/// for the nonce `r = H(prefix || m) mod l`, followed by the `n`-byte encoding of
/// `s = (r + h a) mod l`, for the challenge `h = H(enc(R) || pk || m) mod l`.
pub open spec fn signature_spec(
    m: Seq<u8>,
    seed: Seq<u8>,
    pk: Seq<u8>,
    n: nat,
    q: int,
    l: int,
    d: int,
    base: (int, int),
) -> Seq<u8> {
    let digest = sha512_of(seed);
    let a = secret_scalar(seed);
    let r = le_value(sha512_of(digest.subrange(32, 64) + m)) as int % l;
    let r_enc = encode_point_spec(scalarmult_spec(base, r as nat, q, d), n);
    let h = le_value(sha512_of(r_enc + pk + m)) as int % l;
    r_enc + le_bytes(((r + h * a) % l) as nat, n)
}

/// Whether `sig` is a valid signature of `m` under the public key `pk`: both have their
/// lengths, `R` and `pk` decode to points `R` and `A`, and `(s mod l) * B` and
/// `R + h * A` have the same encoding, for `h = H(enc(R) || pk || m) mod l`.
pub open spec fn checkvalid_spec(
    sig: Seq<u8>,
    m: Seq<u8>,
    pk: Seq<u8>,
    n: nat,
    q: int,
    l: int,
    d: int,
    i: int,
    base: (int, int),
) -> bool {
    if sig.len() != 2 * n || pk.len() != n {
        false
    } else {
        let r_enc = sig.subrange(0, n as int);
        let s = le_value(sig.subrange(n as int, 2 * n as int));
        match (decode_point_spec(r_enc, n, q, d, i), decode_point_spec(pk, n, q, d, i)) {
            (Ok(r_pt), Ok(a_pt)) => {
                let h = le_value(sha512_of(r_enc + pk + m)) as int % l;
                encode_point_spec(scalarmult_spec(base, (s as int % l) as nat, q, d), n)
                    == encode_point_spec(
                    edwards_spec(r_pt, scalarmult_spec(a_pt, h as nat, q, d), q, d),
                    n,
                )
            },
            _ => false,
        }
    }
}

/// The digest of `m` read as a little-endian integer.
fn hint(m: &[u8]) -> (r: Scalar)
    ensures
        r@ == le_value(sha512_of(m@)),
{
    let hh = h(m);
    decodeint(hh.as_slice())
}

/// The clamped secret scalar of a 64-byte digest.
fn clamped_scalar(digest: &Vec<u8>) -> (r: Scalar)
    requires
        digest@.len() == 64,
    ensures
        r@ == le_value(clamp(digest@)),
{
    let mut a_bytes: Vec<u8> = Vec::new();
    let mut i: usize = 0;
    while i < 32
        invariant
            i <= 32,
            digest@.len() == 64,
            a_bytes@ =~= digest@.subrange(0, i as int),
        decreases 32 - i,
    {
        a_bytes.push(digest[i]);
        i = i + 1;
    }
    let first = a_bytes[0];
    a_bytes.set(0, first & 248);
    let last = a_bytes[31];
    a_bytes.set(31, (last & 63) | 64);
    proof {
        assert(a_bytes@ =~= clamp(digest@));
    }
    Scalar::from_bytes_le(a_bytes)
}

/// `a || b`.
fn concat(a: &[u8], b: &[u8]) -> (r: Vec<u8>)
    ensures
        r@ == a@ + b@,
{
    let mut out = vstd::slice::slice_to_vec(a);
    out.extend_from_slice(b);
    out
}

/// Whether two byte strings are equal.
fn bytes_equal(a: &[u8], b: &[u8]) -> (r: bool)
    ensures
        r == (a@ == b@),
{
    if a.len() != b.len() {
        return false;
    }
    let mut i: usize = 0;
    while i < a.len()
        invariant
            i <= a@.len(),
            a@.len() == b@.len(),
            forall|j: int| 0 <= j < i ==> a@[j] == b@[j],
        decreases a@.len() - i,
    {
        if a[i] != b[i] {
            return false;
        }
        i = i + 1;
    }
    proof {
        assert(a@ =~= b@);
    }
    true
}

/// The public key of the seed `sk`: the `b / 8`-byte encoding of `a * B`, where `a` is the
/// clamped first half of `H(sk)`.
pub fn publickey(sk: &[u8], b: usize, q: &Scalar, d: &Scalar, b_point: &Point) -> (r: Vec<u8>)
    requires
        b >= 8,
        q@ >= 2,
        q@ <= pow256((b / 8) as nat),
    ensures
        r@ == publickey_spec(sk@, (b / 8) as nat, q@ as int, d@ as int, b_point@),
{
    let digest = h(sk);
    let a = clamped_scalar(&digest);
    let a_point = scalarmult(b_point, &a, q, d);
    match encodepoint(&a_point, b) {
        Ok(enc) => enc,
        Err(_) => {
            proof {
                assert(false);
            }
            Vec::new()
        },
    }
}

/// The signature of `m` under the seed `sk` whose public key is `pk`: `enc(R) || enc(s)`,
/// `2 * (b / 8)` bytes (see `signature_spec`).
pub fn signature(
    m: &[u8],
    sk: &[u8],
    pk: &[u8],
    b: usize,
    q: &Scalar,
    l: &Scalar,
    d: &Scalar,
    b_point: &Point,
) -> (r: Vec<u8>)
    requires
        b >= 8,
        q@ >= 2,
        q@ <= pow256((b / 8) as nat),
        l@ > 0,
        l@ <= pow256((b / 8) as nat),
    ensures
        r@ == signature_spec(
            m@,
            sk@,
            pk@,
            (b / 8) as nat,
            q@ as int,
            l@ as int,
            d@ as int,
            b_point@,
        ),
        r@.len() == 2 * (b / 8),
{
    let digest = h(sk);
    let a = clamped_scalar(&digest);
    let prefix = vstd::slice::slice_subrange(digest.as_slice(), 32, 64);
    let r_inp = concat(prefix, m);
    let r = hint(r_inp.as_slice()).rem_euclid(l);
    let r_point = scalarmult(b_point, &r, q, d);
    let r_enc = match encodepoint(&r_point, b) {
        Ok(enc) => enc,
        Err(_) => {
            proof {
                assert(false);
            }
            Vec::new()
        },
    };
    let rp = concat(r_enc.as_slice(), pk);
    let h_in = concat(rp.as_slice(), m);
    let h_val = hint(h_in.as_slice()).rem_euclid(l);
    let s = r.sum(&h_val.product(&a)).rem_euclid(l);
    let s_enc = match encodeint(&s, b) {
        Ok(enc) => enc,
        Err(_) => {
            proof {
                assert(false);
            }
            Vec::new()
        },
    };
    proof {
        assert(prefix@ =~= digest@.subrange(32, 64));
        lemma_le_bytes_len(s@, (b / 8) as nat);
        lemma_le_bytes_len(r_point@.1 as nat, (b / 8) as nat);
    }
    concat(r_enc.as_slice(), s_enc.as_slice())
}

/// Whether `s` is a valid signature of `m` under the public key `pk` (see
/// `checkvalid_spec`). Any byte strings are accepted as input; the wrong lengths and
/// undecodable points give `false`.
pub fn checkvalid(
    s: &[u8],
    m: &[u8],
    pk: &[u8],
    b: usize,
    q: &Scalar,
    l: &Scalar,
    d: &Scalar,
    i_const: &Scalar,
    b_point: &Point,
) -> (r: bool)
    requires
        b >= 8,
        q@ >= 2,
        q@ <= pow256((b / 8) as nat),
        l@ > 0,
    ensures
        r == checkvalid_spec(
            s@,
            m@,
            pk@,
            (b / 8) as nat,
            q@ as int,
            l@ as int,
            d@ as int,
            i_const@ as int,
            b_point@,
        ),
{
    let nbytes = b / 8;
    if s.len() != 2 * nbytes || pk.len() != nbytes {
        return false;
    }
    let r_enc = vstd::slice::slice_subrange(s, 0, nbytes);
    let s_enc = vstd::slice::slice_subrange(s, nbytes, 2 * nbytes);
    let r_point = match decodepoint(r_enc, b, q, d, i_const) {
        Ok(p) => p,
        Err(_) => {
            return false;
        },
    };
    let s_int = decodeint(s_enc);
    let a_point = match decodepoint(pk, b, q, d, i_const) {
        Ok(p) => p,
        Err(_) => {
            return false;
        },
    };
    let rp = concat(r_enc, pk);
    let h_in = concat(rp.as_slice(), m);
    let h_val = hint(h_in.as_slice()).rem_euclid(l);
    let sb = scalarmult(b_point, &s_int.rem_euclid(l), q, d);
    let ha = scalarmult(&a_point, &h_val, q, d);
    let r_plus_ha = edwards(&r_point, &ha, q, d);
    let left = encodepoint(&sb, b);
    let right = encodepoint(&r_plus_ha, b);
    match (left, right) {
        (Ok(x), Ok(y)) => bytes_equal(x.as_slice(), y.as_slice()),
        _ => {
            proof {
                assert(false);
            }
            false
        },
    }
}

} // verus!
