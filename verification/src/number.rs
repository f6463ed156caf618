//! Arbitrary-precision integers. The digits are held as plain bytes (two's
//! complement, least significant first); the arithmetic itself is done by
//! `num-bigint`, called through the wrappers below.

use vstd::prelude::*;
use vstd::arithmetic::power::pow;
use num_bigint::BigInt;
use num_traits::{One, Signed, ToPrimitive, Zero};
use num_integer::{Integer, Roots};

verus! {

/// Value of little-endian base-256 digits.
pub open spec fn le_value(s: Seq<u8>) -> nat
    decreases s.len(),
{
    if s.len() == 0 {
        0
    } else {
        s[0] as nat + 256 * le_value(s.drop_first())
    }
}

/// Value of a two's-complement little-endian byte string (empty means 0).
pub open spec fn twos_value(s: Seq<u8>) -> int {
    if s.len() > 0 && s.last() >= 128 {
        le_value(s) - pow(256, s.len())
    } else {
        le_value(s) as int
    }
}

/// Decimal value of a string of ASCII digits.
pub open spec fn digits_value(s: Seq<char>) -> nat
    decreases s.len(),
{
    if s.len() == 0 {
        0
    } else {
        (10 * digits_value(s.drop_last()) + (s.last() as int - '0' as int)) as nat
    }
}

pub open spec fn is_digit(c: char) -> bool {
    '0' <= c && c <= '9'
}

pub open spec fn all_digits(s: Seq<char>) -> bool {
    forall|k: int| 0 <= k < s.len() ==> is_digit(#[trigger] s[k])
}

/// Decimal text of an integer, with a leading '-' when negative.
pub open spec fn int_text(v: int) -> Seq<char> {
    if v < 0 {
        seq!['-'] + crate::text::decimal_text((-v) as nat)
    } else {
        crate::text::decimal_text(v as nat)
    }
}

/// An integer of any size.
#[derive(Debug, Clone, PartialEq, Eq, Hash)]
pub struct Int {
    pub bytes: Vec<u8>,
}

impl View for Int {
    type V = int;

    open spec fn view(&self) -> int {
        twos_value(self.bytes@)
    }
}

impl Int {
    /// A copy with the same digits.
    pub fn copy(&self) -> (r: Int)
        ensures
            r@ == self@,
            r.bytes@ == self.bytes@,
    {
        let b = self.bytes.clone();
        assert(b@ =~= self.bytes@);
        Int { bytes: b }
    }

    /// Calls `BigInt::from(i64)`.
    #[verifier::external_body]
    pub(crate) fn from_i64(n: i64) -> (r: Int)
        ensures
            r@ == n as int,
    {
        Int { bytes: BigInt::from(n).to_signed_bytes_le() }
    }

    /// Calls `BigInt::from(u64)`.
    #[verifier::external_body]
    pub(crate) fn from_u64(n: u64) -> (r: Int)
        ensures
            r@ == n as int,
    {
        Int { bytes: BigInt::from(n).to_signed_bytes_le() }
    }

    /// Parses ASCII decimal digits with `BigInt`'s `FromStr`.
    #[verifier::external_body]
    pub(crate) fn parse_digits(digits: &str) -> (r: Int)
        requires
            digits@.len() > 0,
            all_digits(digits@),
        ensures
            r@ == digits_value(digits@),
    {
        Int { bytes: digits.parse::<BigInt>().unwrap().to_signed_bytes_le() }
    }

    /// Calls `BigInt`'s `Add`.
    #[verifier::external_body]
    pub(crate) fn add(&self, other: &Int) -> (r: Int)
        ensures
            r@ == self@ + other@,
    {
        let (a, b) = (BigInt::from_signed_bytes_le(&self.bytes), BigInt::from_signed_bytes_le(&other.bytes));
        Int { bytes: (a + b).to_signed_bytes_le() }
    }

    /// Calls `BigInt`'s `Sub`.
    #[verifier::external_body]
    pub(crate) fn sub(&self, other: &Int) -> (r: Int)
        ensures
            r@ == self@ - other@,
    {
        let (a, b) = (BigInt::from_signed_bytes_le(&self.bytes), BigInt::from_signed_bytes_le(&other.bytes));
        Int { bytes: (a - b).to_signed_bytes_le() }
    }

    /// Calls `BigInt`'s `Mul`.
    #[verifier::external_body]
    pub(crate) fn mul(&self, other: &Int) -> (r: Int)
        ensures
            r@ == self@ * other@,
    {
        let (a, b) = (BigInt::from_signed_bytes_le(&self.bytes), BigInt::from_signed_bytes_le(&other.bytes));
        Int { bytes: (a * b).to_signed_bytes_le() }
    }

    /// Calls `BigInt`'s `Neg`.
    #[verifier::external_body]
    pub(crate) fn neg(&self) -> (r: Int)
        ensures
            r@ == -self@,
    {
        Int { bytes: (-BigInt::from_signed_bytes_le(&self.bytes)).to_signed_bytes_le() }
    }

    /// Calls `num_traits::pow` on a `BigInt`.
    #[verifier::external_body]
    pub(crate) fn pow(&self, e: usize) -> (r: Int)
        ensures
            r@ == pow(self@, e as nat),
    {
        Int { bytes: num_traits::pow(BigInt::from_signed_bytes_le(&self.bytes), e).to_signed_bytes_le() }
    }

    /// Calls `Roots::nth_root`: for a non-negative integer, the largest `r`
    /// with `r^q <= self`.
    #[verifier::external_body]
    pub(crate) fn nth_root(&self, q: u32) -> (r: Int)
        requires
            self@ >= 0,
            q >= 1,
        ensures
            r@ >= 0,
            pow(r@, q as nat) <= self@ < pow(r@ + 1, q as nat),
    {
        Int { bytes: BigInt::from_signed_bytes_le(&self.bytes).nth_root(q).to_signed_bytes_le() }
    }

    /// Calls `BigInt`'s `PartialEq`.
    #[verifier::external_body]
    pub(crate) fn eq(&self, other: &Int) -> (r: bool)
        ensures
            r == (self@ == other@),
    {
        BigInt::from_signed_bytes_le(&self.bytes) == BigInt::from_signed_bytes_le(&other.bytes)
    }

    /// Calls `Zero::is_zero`.
    #[verifier::external_body]
    pub(crate) fn is_zero(&self) -> (r: bool)
        ensures
            r == (self@ == 0),
    {
        BigInt::from_signed_bytes_le(&self.bytes).is_zero()
    }

    /// Calls `One::is_one`.
    #[verifier::external_body]
    pub(crate) fn is_one(&self) -> (r: bool)
        ensures
            r == (self@ == 1),
    {
        BigInt::from_signed_bytes_le(&self.bytes).is_one()
    }

    /// Calls `Signed::is_negative`.
    #[verifier::external_body]
    pub(crate) fn is_negative(&self) -> (r: bool)
        ensures
            r == (self@ < 0),
    {
        BigInt::from_signed_bytes_le(&self.bytes).is_negative()
    }

    /// Calls `Integer::is_odd`.
    #[verifier::external_body]
    pub(crate) fn is_odd(&self) -> (r: bool)
        ensures
            r == (self@ % 2 == 1),
    {
        BigInt::from_signed_bytes_le(&self.bytes).is_odd()
    }

    /// Calls `ToPrimitive::to_i64`.
    #[verifier::external_body]
    pub(crate) fn to_i64(&self) -> (r: Option<i64>)
        ensures
            r matches Some(n) ==> n as int == self@,
            r is None <==> !(i64::MIN <= self@ <= i64::MAX),
    {
        BigInt::from_signed_bytes_le(&self.bytes).to_i64()
    }

    /// Calls `ToPrimitive::to_u64`.
    #[verifier::external_body]
    pub(crate) fn to_u64(&self) -> (r: Option<u64>)
        ensures
            r matches Some(n) ==> n as int == self@,
            r is None <==> !(0 <= self@ <= u64::MAX),
    {
        BigInt::from_signed_bytes_le(&self.bytes).to_u64()
    }

    /// Calls `ToPrimitive::to_u32`.
    #[verifier::external_body]
    pub(crate) fn to_u32(&self) -> (r: Option<u32>)
        ensures
            r matches Some(n) ==> n as int == self@,
            r is None <==> !(0 <= self@ <= u32::MAX),
    {
        BigInt::from_signed_bytes_le(&self.bytes).to_u32()
    }

    /// Calls `ToString::to_string` (`BigInt`'s `Display`): decimal digits
    /// with a leading '-' for negative numbers.
    #[verifier::external_body]
    pub(crate) fn to_text(&self) -> (r: String)
        ensures
            r@ == int_text(self@),
    {
        BigInt::from_signed_bytes_le(&self.bytes).to_string()
    }
}

} // verus!
