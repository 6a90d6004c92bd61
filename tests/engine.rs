use edsig::curve::{edwards, isoncurve, scalarmult, xrecover, Point};
use edsig::encoding::{decodeint, decodepoint, encodeint, encodepoint, CodecError};
use edsig::modular::{add_mod, expmod, inv, mul_mod, same_value, sub_mod};
use edsig::protocol::{checkvalid, publickey, signature};
use edsig::scalar::Scalar;
use ed25519_dalek::{Signer, SigningKey};
use num_bigint::{BigInt, Sign};

fn sc(v: &BigInt) -> Scalar {
    Scalar::from_bytes_le(v.to_bytes_le().1)
}

fn small(v: u64) -> Scalar {
    sc(&BigInt::from(v))
}

fn big(s: &Scalar) -> BigInt {
    BigInt::from_bytes_le(Sign::Plus, &s.bytes)
}

fn dec(s: &str) -> BigInt {
    BigInt::parse_bytes(s.as_bytes(), 10).unwrap()
}

fn hex(s: &str) -> Vec<u8> {
    (0..s.len() / 2).map(|i| u8::from_str_radix(&s[2 * i..2 * i + 2], 16).unwrap()).collect()
}

struct Params {
    b: usize,
    q: Scalar,
    l: Scalar,
    d: Scalar,
    i: Scalar,
    base: Point,
}

const BX: &str = "15112221349535400772501151409588531511454012693041857206046113283949847762202";
const BY: &str = "46316835694926478169428394003475163141307993866256225615783033603165251855960";

fn ed25519() -> Params {
    let q: BigInt = (BigInt::from(1) << 255) - 19;
    let l: BigInt = (BigInt::from(1) << 252) + dec("27742317777372353535851937790883648493");
    let qs = sc(&q);
    let inv_121666 = big(&inv(&small(121666), &qs));
    let d = ((&q - 121665) * inv_121666) % &q;
    let i = BigInt::from(2).modpow(&((&q - 1) / 4), &q);
    Params {
        b: 256,
        q: qs,
        l: sc(&l),
        d: sc(&d),
        i: sc(&i),
        base: Point::new(sc(&dec(BX)), sc(&dec(BY))),
    }
}

fn same_point(p: &Point, x: &BigInt, y: &BigInt) -> bool {
    big(&p.x) == *x && big(&p.y) == *y
}

#[test]
fn expmod_matches_modpow() {
    let m = BigInt::from(1_000_003u64);
    let r = expmod(&small(3), &small(200), &sc(&m));
    assert_eq!(big(&r), BigInt::from(3).modpow(&BigInt::from(200), &m));
    assert_eq!(big(&expmod(&small(2), &small(10), &small(1000))), BigInt::from(24));
}

#[test]
fn expmod_reduces_base_and_result() {
    assert_eq!(big(&expmod(&small(5), &small(0), &small(1))), BigInt::from(0));
    assert_eq!(big(&expmod(&small(5), &small(0), &small(7))), BigInt::from(1));
    assert_eq!(big(&expmod(&small(10), &small(3), &small(7))), BigInt::from(6));
}

#[test]
fn field_operations_reduce() {
    let m = small(7);
    assert_eq!(big(&mul_mod(&small(3), &small(5), &m)), BigInt::from(1));
    assert_eq!(big(&add_mod(&small(5), &small(4), &m)), BigInt::from(2));
    assert_eq!(big(&sub_mod(&small(3), &small(5), &m)), BigInt::from(5));
    assert_eq!(big(&sub_mod(&small(3), &small(12), &m)), BigInt::from(5));
    assert!(same_value(&small(9), &Scalar::from_bytes_le(vec![9, 0, 0])));
    assert!(!same_value(&small(9), &small(10)));
    assert!(small(9).is_odd());
    assert!(!Scalar::from_bytes_le(Vec::new()).is_odd());
}

#[test]
fn inv_is_fermat_inverse() {
    assert_eq!(big(&inv(&small(3), &small(7))), BigInt::from(5));
    assert_eq!(big(&inv(&small(0), &small(7))), BigInt::from(0));
    let p = ed25519();
    let x = inv(&small(121666), &p.q);
    let q = big(&p.q);
    assert_eq!((big(&x) * 121666) % &q, BigInt::from(1));
}

#[test]
fn ed25519_constants() {
    let p = ed25519();
    assert_eq!(
        big(&p.d),
        dec("37095705934669439343138083508754565189542113879843219016388785533085940283555")
    );
    assert_eq!(
        big(&p.i),
        dec("19681161376707505956807079304988542015446066515923890162744021073123829784752")
    );
}

#[test]
fn xrecover_gives_base_x() {
    let p = ed25519();
    let x = xrecover(&sc(&dec(BY)), &p.q, &p.d, &p.i);
    assert_eq!(big(&x), dec(BX));
}

#[test]
fn base_point_is_on_curve() {
    let p = ed25519();
    assert!(isoncurve(&p.base, &p.q, &p.d));
    assert!(!isoncurve(&Point::new(small(1), small(1)), &p.q, &p.d));
    assert!(isoncurve(&Point::new(small(0), small(1)), &p.q, &p.d));
}

#[test]
fn edwards_identity_and_doubling() {
    let p = ed25519();
    let id = Point::new(small(0), small(1));
    let s = edwards(&id, &p.base, &p.q, &p.d);
    assert!(same_point(&s, &dec(BX), &dec(BY)));
    let two = edwards(&p.base, &p.base, &p.q, &p.d);
    assert!(same_point(
        &two,
        &dec("24727413235106541002554574571675588834622768167397638456726423682521233608206"),
        &dec("15549675580280190176352668710449542251549572066445060580507079593062643049417"),
    ));
    assert!(isoncurve(&two, &p.q, &p.d));
}

#[test]
fn scalarmult_by_zero_is_identity() {
    let p = ed25519();
    let r = scalarmult(&p.base, &small(0), &p.q, &p.d);
    assert!(same_point(&r, &BigInt::from(0), &BigInt::from(1)));
    let empty = scalarmult(&p.base, &Scalar::from_bytes_le(Vec::new()), &p.q, &p.d);
    assert!(same_point(&empty, &BigInt::from(0), &BigInt::from(1)));
}

#[test]
fn scalarmult_by_group_order_is_identity() {
    let p = ed25519();
    let r = scalarmult(&p.base, &p.l, &p.q, &p.d);
    let z = scalarmult(&p.base, &small(0), &p.q, &p.d);
    assert!(same_point(&r, &big(&z.x), &big(&z.y)));
    assert!(same_point(&r, &BigInt::from(0), &BigInt::from(1)));
}

#[test]
fn scalarmult_by_two_is_doubling() {
    let p = ed25519();
    let r = scalarmult(&p.base, &small(2), &p.q, &p.d);
    let two = edwards(&p.base, &p.base, &p.q, &p.d);
    assert!(same_point(&r, &big(&two.x), &big(&two.y)));
}

#[test]
fn encodeint_fixed_width() {
    assert_eq!(encodeint(&small(258), 16), Ok(vec![2, 1]));
    assert_eq!(encodeint(&small(0), 16), Ok(vec![0, 0]));
    assert_eq!(encodeint(&Scalar::from_bytes_le(vec![7, 0, 0, 0]), 16), Ok(vec![7, 0]));
    assert_eq!(encodeint(&small(65535), 16), Ok(vec![255, 255]));
}

#[test]
fn encodeint_rejects_too_large() {
    assert_eq!(encodeint(&small(65536), 16), Err(CodecError::Range));
    assert_eq!(encodeint(&Scalar::from_bytes_le(vec![1, 0, 1]), 16), Err(CodecError::Range));
}

#[test]
fn decodeint_little_endian() {
    assert_eq!(big(&decodeint(&[1, 2])), BigInt::from(513));
    assert_eq!(big(&decodeint(&[])), BigInt::from(0));
}

#[test]
fn encodepoint_base() {
    let p = ed25519();
    let e = encodepoint(&p.base, p.b).unwrap();
    assert_eq!(e, hex("5866666666666666666666666666666666666666666666666666666666666666"));
}

#[test]
fn encodepoint_sets_sign_bit() {
    let pt = Point::new(small(3), small(5));
    assert_eq!(encodepoint(&pt, 16), Ok(vec![5, 0x80]));
    let pt = Point::new(small(4), small(5));
    assert_eq!(encodepoint(&pt, 16), Ok(vec![5, 0]));
    let pt = Point::new(small(1), small(65536));
    assert_eq!(encodepoint(&pt, 16), Err(CodecError::Range));
}

#[test]
fn decode_encode_round_trip() {
    let p = ed25519();
    for k in [1u64, 2, 3, 7, 12345] {
        let pt = scalarmult(&p.base, &small(k), &p.q, &p.d);
        let e = encodepoint(&pt, p.b).unwrap();
        let back = decodepoint(&e, p.b, &p.q, &p.d, &p.i).unwrap();
        assert!(same_point(&back, &big(&pt.x), &big(&pt.y)));
    }
    let id = Point::new(small(0), small(1));
    let e = encodepoint(&id, p.b).unwrap();
    let back = decodepoint(&e, p.b, &p.q, &p.d, &p.i).unwrap();
    assert!(same_point(&back, &BigInt::from(0), &BigInt::from(1)));
}

#[test]
fn decodepoint_rejects_wrong_length() {
    let p = ed25519();
    let e = encodepoint(&p.base, p.b).unwrap();
    assert_eq!(decodepoint(&e[..31], p.b, &p.q, &p.d, &p.i).unwrap_err(), CodecError::Shape);
    let mut long = e.clone();
    long.push(0);
    assert_eq!(decodepoint(&long, p.b, &p.q, &p.d, &p.i).unwrap_err(), CodecError::Shape);
    assert_eq!(decodepoint(&[], p.b, &p.q, &p.d, &p.i).unwrap_err(), CodecError::Shape);
}

#[test]
fn decodepoint_rejects_y_out_of_range() {
    let p = ed25519();
    let mut q_bytes = encodeint(&p.q, p.b).unwrap();
    assert_eq!(decodepoint(&q_bytes, p.b, &p.q, &p.d, &p.i).unwrap_err(), CodecError::Range);
    q_bytes[31] |= 0x80;
    assert_eq!(decodepoint(&q_bytes, p.b, &p.q, &p.d, &p.i).unwrap_err(), CodecError::Range);
    let all = vec![0xffu8; 32];
    assert_eq!(decodepoint(&all, p.b, &p.q, &p.d, &p.i).unwrap_err(), CodecError::Range);
}

#[test]
fn decodepoint_rejects_point_off_curve() {
    let p = ed25519();
    let mut e = vec![0u8; 32];
    e[0] = 2;
    assert_eq!(decodepoint(&e, p.b, &p.q, &p.d, &p.i).unwrap_err(), CodecError::Curve);
}

#[test]
fn publickey_zero_seed() {
    let p = ed25519();
    let pk = publickey(&[0u8; 32], p.b, &p.q, &p.d, &p.base);
    assert_eq!(pk, hex("3b6a27bcceb6a42d62a3a8d02a6f0d73653215771de243a63ac048a18b59da29"));
}

const SIG0: &str = "8f895b3cafe2c9506039d0e2a66382568004674fe8d237785092e40d6aaf483e\
4fc60168705f31f101596138ce21aa357c0d32a064f423dc3ee4aa3abf53f803";

#[test]
fn signature_zero_seed_empty_message() {
    let p = ed25519();
    let pk = hex("3b6a27bcceb6a42d62a3a8d02a6f0d73653215771de243a63ac048a18b59da29");
    let sig = signature(&[], &[0u8; 32], &pk, p.b, &p.q, &p.l, &p.d, &p.base);
    assert_eq!(sig, hex(SIG0));
}

#[test]
fn checkvalid_zero_seed_empty_message() {
    let p = ed25519();
    let pk = hex("3b6a27bcceb6a42d62a3a8d02a6f0d73653215771de243a63ac048a18b59da29");
    assert!(checkvalid(&hex(SIG0), &[], &pk, p.b, &p.q, &p.l, &p.d, &p.i, &p.base));
}

#[test]
fn matches_reference_implementation() {
    let p = ed25519();
    let seed: Vec<u8> = (0u8..32).collect();
    let m = b"abc";
    let key = SigningKey::from_bytes(&seed.clone().try_into().unwrap());
    let pk = publickey(&seed, p.b, &p.q, &p.d, &p.base);
    assert_eq!(pk, key.verifying_key().to_bytes().to_vec());
    assert_eq!(pk, hex("03a107bff3ce10be1d70dd18e74bc09967e4d6309ba50d5f1ddc8664125531b8"));
    let sig = signature(m, &seed, &pk, p.b, &p.q, &p.l, &p.d, &p.base);
    assert_eq!(sig, key.sign(m).to_bytes().to_vec());
}

const SEED1_PK: &str = "8be56a995344d8d564ecd06a0b1de3d90ff1020daaad7ec9fb908099422171f3";
const SEED1_SIG: &str = "da652bb947a8146ce5c50137d036ad2ebe70641a75f7f66af614edefacc7eb68\
411ae24fba0d436a68b0c22ee702a0c0d46c552066299093b3305627b6839e01";

#[test]
fn publickey_of_long_seed() {
    let p = ed25519();
    let pk = publickey(b"a seed of any length", p.b, &p.q, &p.d, &p.base);
    assert_eq!(pk, hex(SEED1_PK));
}

#[test]
fn sign_long_seed() {
    let p = ed25519();
    let sig = signature(
        b"the message",
        b"a seed of any length",
        &hex(SEED1_PK),
        p.b,
        &p.q,
        &p.l,
        &p.d,
        &p.base,
    );
    assert_eq!(sig.len(), 64);
    assert_eq!(sig, hex(SEED1_SIG));
}

#[test]
fn verify_long_seed_signature() {
    let p = ed25519();
    let ok = checkvalid(
        &hex(SEED1_SIG),
        b"the message",
        &hex(SEED1_PK),
        p.b,
        &p.q,
        &p.l,
        &p.d,
        &p.i,
        &p.base,
    );
    assert!(ok);
}

#[test]
fn signing_is_deterministic() {
    let p = ed25519();
    let seed = [7u8; 32];
    let pk = hex("ea4a6c63e29c520abef5507b132ec5f9954776aebebe7b92421eea691446d22c");
    let s1 = signature(b"hello", &seed, &pk, p.b, &p.q, &p.l, &p.d, &p.base);
    let s2 = signature(b"hello", &seed, &pk, p.b, &p.q, &p.l, &p.d, &p.base);
    assert_eq!(s1, s2);
}

fn flipped(v: &[u8], bit: usize) -> Vec<u8> {
    let mut t = v.to_vec();
    t[bit / 8] ^= 1 << (bit % 8);
    t
}

fn zero_seed_pk() -> Vec<u8> {
    hex("3b6a27bcceb6a42d62a3a8d02a6f0d73653215771de243a63ac048a18b59da29")
}

#[test]
fn flipped_low_bit_of_r_is_rejected() {
    let p = ed25519();
    let t = flipped(&hex(SIG0), 0);
    assert!(!checkvalid(&t, &[], &zero_seed_pk(), p.b, &p.q, &p.l, &p.d, &p.i, &p.base));
}

#[test]
fn flipped_sign_bit_of_r_is_rejected() {
    let p = ed25519();
    let t = flipped(&hex(SIG0), 255);
    assert!(!checkvalid(&t, &[], &zero_seed_pk(), p.b, &p.q, &p.l, &p.d, &p.i, &p.base));
}

#[test]
fn flipped_low_bit_of_s_is_rejected() {
    let p = ed25519();
    let t = flipped(&hex(SIG0), 256);
    assert!(!checkvalid(&t, &[], &zero_seed_pk(), p.b, &p.q, &p.l, &p.d, &p.i, &p.base));
}

#[test]
fn flipped_high_bit_of_s_is_rejected() {
    let p = ed25519();
    let t = flipped(&hex(SIG0), 500);
    assert!(!checkvalid(&t, &[], &zero_seed_pk(), p.b, &p.q, &p.l, &p.d, &p.i, &p.base));
}

const PAY_PK: &str = "8a88e3dd7409f195fd52db2d3cba5d72ca6709bf1d94121bf3748801b40f6f5c";
const PAY_SIG: &str = "4bae3d2806ef63258bcf03460d256c7d435459704ed93a25f35778d0373b15d7\
828898de3c218b3ffe25af3dc130b816cc5e4abe33d9b67e085e042e79683b02";

#[test]
fn untampered_message_is_accepted() {
    let p = ed25519();
    let ok = checkvalid(&hex(PAY_SIG), b"pay 10", &hex(PAY_PK), p.b, &p.q, &p.l, &p.d, &p.i, &p.base);
    assert!(ok);
}

#[test]
fn flipped_message_bit_is_rejected() {
    let p = ed25519();
    let t = flipped(b"pay 10", 47);
    let ok = checkvalid(&hex(PAY_SIG), &t, &hex(PAY_PK), p.b, &p.q, &p.l, &p.d, &p.i, &p.base);
    assert!(!ok);
}

#[test]
fn flipped_public_key_bit_is_rejected() {
    let p = ed25519();
    let t = flipped(&hex(PAY_PK), 3);
    let ok = checkvalid(&hex(PAY_SIG), b"pay 10", &t, p.b, &p.q, &p.l, &p.d, &p.i, &p.base);
    assert!(!ok);
}

#[test]
fn checkvalid_rejects_wrong_lengths() {
    let p = ed25519();
    let pk = hex("3b6a27bcceb6a42d62a3a8d02a6f0d73653215771de243a63ac048a18b59da29");
    let sig = hex(SIG0);
    assert!(!checkvalid(&sig[..63], &[], &pk, p.b, &p.q, &p.l, &p.d, &p.i, &p.base));
    assert!(!checkvalid(&[], &[], &pk, p.b, &p.q, &p.l, &p.d, &p.i, &p.base));
    assert!(!checkvalid(&sig, &[], &pk[..31], p.b, &p.q, &p.l, &p.d, &p.i, &p.base));
}

#[test]
fn checkvalid_rejects_undecodable_points() {
    let p = ed25519();
    let pk = hex("3b6a27bcceb6a42d62a3a8d02a6f0d73653215771de243a63ac048a18b59da29");
    let mut sig = hex(SIG0);
    for b in sig[..32].iter_mut() {
        *b = 0xff;
    }
    assert!(!checkvalid(&sig, &[], &pk, p.b, &p.q, &p.l, &p.d, &p.i, &p.base));
    let mut bad_pk = vec![0u8; 32];
    bad_pk[0] = 2;
    assert!(!checkvalid(&hex(SIG0), &[], &bad_pk, p.b, &p.q, &p.l, &p.d, &p.i, &p.base));
}

#[test]
fn toy_curve_round_trip_every_point() {
    let (q, d, i) = (small(13), small(2), small(5));
    let mut count = 0;
    for x in 0..13u64 {
        for y in 0..13u64 {
            let pt = Point::new(small(x), small(y));
            if !isoncurve(&pt, &q, &d) {
                continue;
            }
            count += 1;
            let e = encodepoint(&pt, 8).unwrap();
            let back = decodepoint(&e, 8, &q, &d, &i).unwrap();
            assert!(same_point(&back, &BigInt::from(x), &BigInt::from(y)));
        }
    }
    assert_eq!(count, 16);
}

#[test]
fn toy_curve_rejects_bad_encodings() {
    let (q, d, i) = (small(13), small(2), small(5));
    assert_eq!(decodepoint(&[13], 8, &q, &d, &i).unwrap_err(), CodecError::Range);
    assert_eq!(decodepoint(&[1, 0], 8, &q, &d, &i).unwrap_err(), CodecError::Shape);
    assert_eq!(decodepoint(&[5], 8, &q, &d, &i).unwrap_err(), CodecError::Curve);
    assert_eq!(decodepoint(&[1], 8, &q, &d, &i).map(|p| big(&p.x)), Ok(BigInt::from(0)));
}
