use num_bigint::{BigInt, Sign};
use num_traits::Euclid;
use vstd::prelude::*;

verus! {

/// The value of a little-endian byte string.
pub open spec fn le_value(s: Seq<u8>) -> nat
    decreases s.len(),
{
    if s.len() == 0 {
        0
    } else {
        s[0] as nat + 256 * le_value(s.subrange(1, s.len() as int))
    }
}

/// An arbitrary-precision non-negative integer, held as little-endian bytes.
/// Any byte string is a valid scalar; trailing zero bytes do not change its value.
#[derive(Debug)]
pub struct Scalar {
    pub bytes: Vec<u8>,
}

impl View for Scalar {
    type V = nat;

    open spec fn view(&self) -> nat {
        le_value(self.bytes@)
    }
}

impl Scalar {
    /// The scalar whose little-endian bytes are `bytes`.
    pub fn from_bytes_le(bytes: Vec<u8>) -> (r: Scalar)
        ensures
            r@ == le_value(bytes@),
    {
        Scalar { bytes }
    }

    /// A copy of this scalar.
    pub fn copy(&self) -> (r: Scalar)
        ensures
            r@ == self@,
    {
        Scalar { bytes: self.bytes.clone() }
    }

    /// A scalar below 256.
    pub fn small(v: u8) -> (r: Scalar)
        ensures
            r@ == v as nat,
    {
        let r = Scalar { bytes: vec![v] };
        proof {
            assert(r.bytes@.subrange(1, 1) =~= Seq::<u8>::empty());
            reveal_with_fuel(le_value, 2);
        }
        r
    }

    /// Whether the value is odd.
    pub fn is_odd(&self) -> (r: bool)
        ensures
            r == (self@ % 2 == 1),
    {
        if self.bytes.len() == 0 {
            false
        } else {
            let low: u8 = self.bytes[0];
            proof {
                let rest = le_value(self.bytes@.subrange(1, self.bytes@.len() as int));
                vstd::arithmetic::div_mod::lemma_mod_multiples_vanish(
                    128 * rest as int,
                    low as int,
                    2,
                );
                assert((low & 1 == 1) == (low % 2 == 1)) by (bit_vector);
            }
            low & 1 == 1
        }
    }

    /// Relies on num-bigint's `BigInt * BigInt`: the exact product. This and the wrappers
    /// below convert with `BigInt::from_bytes_le(Sign::Plus, ..)` and `BigInt::to_bytes_le`,
    /// which keep the value of a non-negative integer.
    #[verifier::external_body]
    pub(crate) fn product(&self, o: &Scalar) -> (r: Scalar)
        ensures
            r@ == self@ * o@,
    {
        let a = BigInt::from_bytes_le(Sign::Plus, &self.bytes);
        let b = BigInt::from_bytes_le(Sign::Plus, &o.bytes);
        Scalar { bytes: (a * b).to_bytes_le().1 }
    }

    /// Relies on num-bigint's `BigInt + BigInt`: the exact sum.
    #[verifier::external_body]
    pub(crate) fn sum(&self, o: &Scalar) -> (r: Scalar)
        ensures
            r@ == self@ + o@,
    {
        let a = BigInt::from_bytes_le(Sign::Plus, &self.bytes);
        let b = BigInt::from_bytes_le(Sign::Plus, &o.bytes);
        Scalar { bytes: (a + b).to_bytes_le().1 }
    }

    /// Relies on num-bigint's `BigInt - BigInt`: the exact difference, which is
    /// non-negative here.
    #[verifier::external_body]
    pub(crate) fn difference(&self, o: &Scalar) -> (r: Scalar)
        requires
            o@ <= self@,
        ensures
            r@ == self@ - o@,
    {
        let a = BigInt::from_bytes_le(Sign::Plus, &self.bytes);
        let b = BigInt::from_bytes_le(Sign::Plus, &o.bytes);
        Scalar { bytes: (a - b).to_bytes_le().1 }
    }

    /// Relies on num-traits' `Euclid::rem_euclid` for `BigInt`: the remainder in `[0, m)`.
    /// It panics on a zero modulus, which `requires` leaves out.
    #[verifier::external_body]
    pub(crate) fn rem_euclid(&self, m: &Scalar) -> (r: Scalar)
        requires
            m@ > 0,
        ensures
            r@ == self@ % m@,
    {
        let a = BigInt::from_bytes_le(Sign::Plus, &self.bytes);
        let b = BigInt::from_bytes_le(Sign::Plus, &m.bytes);
        Scalar { bytes: a.rem_euclid(&b).to_bytes_le().1 }
    }

    /// Relies on num-bigint's `BigInt >> usize`: floor division by a power of two
    /// for a non-negative value.
    #[verifier::external_body]
    pub(crate) fn shr(&self, n: usize) -> (r: Scalar)
        ensures
            r@ == self@ / vstd::arithmetic::power2::pow2(n as nat),
    {
        let a = BigInt::from_bytes_le(Sign::Plus, &self.bytes);
        Scalar { bytes: (a >> n).to_bytes_le().1 }
    }

    /// Relies on num-bigint's ordering of `BigInt` (`<`).
    #[verifier::external_body]
    pub(crate) fn less_than(&self, o: &Scalar) -> (r: bool)
        ensures
            r == (self@ < o@),
    {
        let a = BigInt::from_bytes_le(Sign::Plus, &self.bytes);
        let b = BigInt::from_bytes_le(Sign::Plus, &o.bytes);
        a < b
    }
}

} // verus!
