//! Arbitrary-precision integers.
//!
//! A [`BigNum`] holds a two's-complement little-endian byte string; its view
//! is the mathematical integer that the bytes denote. All arithmetic is done
//! by `num::BigInt`. The private functions `num_*` call it: each turns its
//! arguments into `BigInt` with `BigInt::from_signed_bytes_le`, makes one
//! call, and turns a `BigInt` that comes back into bytes with
//! `BigInt::to_signed_bytes_le`. What they say of the results is what `num`
//! documents, and is not proved here; the methods of [`BigNum`] are proved
//! from it. The numbers grow as far as memory allows.

use num::BigInt;
use num::ToPrimitive;
use vstd::arithmetic::power2::pow2;
use vstd::prelude::*;

verus! {

/// The value of a little-endian string of base-256 digits.
pub open spec fn unsigned_le(bytes: Seq<u8>) -> int
    decreases bytes.len(),
{
    if bytes.len() == 0 {
        0
    } else {
        bytes[0] as int + 256 * unsigned_le(bytes.drop_first())
    }
}

/// The value of a little-endian two's-complement byte string: the empty
/// string is zero, and a string whose last byte has its top bit set is
/// negative.
pub open spec fn signed_le(bytes: Seq<u8>) -> int {
    if bytes.len() > 0 && bytes.last() >= 128 {
        unsigned_le(bytes) - pow2(8 * bytes.len())
    } else {
        unsigned_le(bytes)
    }
}

/// An integer of any size.
#[derive(Clone, Debug, PartialEq, Eq, Hash)]
pub struct BigNum {
    /// Two's-complement digits, least significant byte first.
    pub bytes: Vec<u8>,
}

impl View for BigNum {
    type V = int;

    open spec fn view(&self) -> int {
        signed_le(self.bytes@)
    }
}

/// Calls `BigInt::from(i64)` and `BigInt::to_signed_bytes_le`: the result
/// denotes `x`.
#[verifier::external_body]
fn num_from_i64(x: i64) -> (r: BigNum)
    ensures
        r@ == x,
{
    BigNum { bytes: BigInt::from(x).to_signed_bytes_le() }
}

/// Calls `BigInt::from(u64)`: the result denotes `x`.
#[verifier::external_body]
fn num_from_u64(x: u64) -> (r: BigNum)
    ensures
        r@ == x,
{
    BigNum { bytes: BigInt::from(x).to_signed_bytes_le() }
}

/// Calls `ToPrimitive::to_i64` of `BigInt`: the value, where an `i64` can
/// hold it.
#[verifier::external_body]
fn num_to_i64(a: &BigNum) -> (r: Option<i64>)
    ensures
        r == if i64::MIN <= a@ <= i64::MAX {
            Some(a@ as i64)
        } else {
            None
        },
{
    BigInt::from_signed_bytes_le(&a.bytes).to_i64()
}

/// Calls `Add::add` of `BigInt`: the sum.
#[verifier::external_body]
fn num_add(a: &BigNum, b: &BigNum) -> (r: BigNum)
    ensures
        r@ == a@ + b@,
{
    let x = BigInt::from_signed_bytes_le(&a.bytes);
    let y = BigInt::from_signed_bytes_le(&b.bytes);
    BigNum { bytes: (x + y).to_signed_bytes_le() }
}

/// Calls `Sub::sub` of `BigInt`: the difference.
#[verifier::external_body]
fn num_sub(a: &BigNum, b: &BigNum) -> (r: BigNum)
    ensures
        r@ == a@ - b@,
{
    let x = BigInt::from_signed_bytes_le(&a.bytes);
    let y = BigInt::from_signed_bytes_le(&b.bytes);
    BigNum { bytes: (x - y).to_signed_bytes_le() }
}

/// Calls `Shl::<usize>::shl` of `BigInt`: the value times `2^n`.
#[verifier::external_body]
fn num_shl(a: &BigNum, n: usize) -> (r: BigNum)
    ensures
        r@ == a@ * pow2(n as nat),
{
    let x = BigInt::from_signed_bytes_le(&a.bytes);
    BigNum { bytes: (x << n).to_signed_bytes_le() }
}

/// Calls `Shr::<usize>::shr` of `BigInt`, which rounds toward negative
/// infinity: the floor of the value divided by `2^n`.
#[verifier::external_body]
fn num_shr(a: &BigNum, n: usize) -> (r: BigNum)
    ensures
        r@ == a@ / (pow2(n as nat) as int),
{
    let x = BigInt::from_signed_bytes_le(&a.bytes);
    BigNum { bytes: (x >> n).to_signed_bytes_le() }
}

/// Calls `PartialOrd::lt` of `BigInt`: whether `a` is below `b`.
#[verifier::external_body]
fn num_lt(a: &BigNum, b: &BigNum) -> (r: bool)
    ensures
        r == (a@ < b@),
{
    BigInt::from_signed_bytes_le(&a.bytes) < BigInt::from_signed_bytes_le(&b.bytes)
}

/// Calls `PartialEq::eq` of `BigInt`: whether both denote one integer.
#[verifier::external_body]
fn num_eq(a: &BigNum, b: &BigNum) -> (r: bool)
    ensures
        r == (a@ == b@),
{
    BigInt::from_signed_bytes_le(&a.bytes) == BigInt::from_signed_bytes_le(&b.bytes)
}

/// Calls `BigInt::bit`, which for a value that is not negative gives the
/// binary digit of weight `2^i`.
#[verifier::external_body]
fn num_bit(a: &BigNum, i: u64) -> (r: bool)
    requires
        a@ >= 0,
    ensures
        r == ((a@ / (pow2(i as nat) as int)) % 2 == 1),
{
    BigInt::from_signed_bytes_le(&a.bytes).bit(i)
}

/// Calls `BigInt::bits`: the least number of binary digits that hold the
/// magnitude.
#[verifier::external_body]
fn num_bits(a: &BigNum) -> (r: u64)
    requires
        a@ >= 0,
    ensures
        a@ < pow2(r as nat),
        r > 0 ==> pow2((r - 1) as nat) <= a@,
{
    BigInt::from_signed_bytes_le(&a.bytes).bits()
}

impl BigNum {
    /// Zero, in the one byte that the other constructors give it.
    pub fn zero() -> (r: BigNum)
        ensures
            r@ == 0,
            r.bytes@ == seq![0u8],
    {
        let mut bytes: Vec<u8> = Vec::new();
        bytes.push(0);
        let r = BigNum { bytes };
        assert(r.bytes@ =~= seq![0u8]);
        assert(unsigned_le(r.bytes@) == 0) by {
            assert(r.bytes@.drop_first() =~= Seq::<u8>::empty());
            assert(unsigned_le(r.bytes@.drop_first()) == 0);
        }
        r
    }

    /// A copy of the value.
    pub fn copy(&self) -> (r: BigNum)
        ensures
            r@ == self@,
            r.bytes@ == self.bytes@,
    {
        let bytes = self.bytes.clone();
        assert(bytes@ =~= self.bytes@);
        BigNum { bytes }
    }

    /// The integer `x`.
    pub fn from_i64(x: i64) -> (r: BigNum)
        ensures
            r@ == x,
    {
        num_from_i64(x)
    }

    /// The integer `x`.
    pub fn from_u64(x: u64) -> (r: BigNum)
        ensures
            r@ == x,
    {
        num_from_u64(x)
    }

    /// The integer `x`.
    pub fn from_usize(x: usize) -> (r: BigNum)
        ensures
            r@ == x,
    {
        num_from_u64(x as u64)
    }

    /// The value as an `i64`, or `None` where it does not fit.
    pub fn to_i64(&self) -> (r: Option<i64>)
        ensures
            r == if i64::MIN <= self@ <= i64::MAX {
                Some(self@ as i64)
            } else {
                None
            },
    {
        num_to_i64(self)
    }

    /// `self + other`.
    pub fn add(&self, other: &BigNum) -> (r: BigNum)
        ensures
            r@ == self@ + other@,
    {
        num_add(self, other)
    }

    /// `self - other`.
    pub fn sub(&self, other: &BigNum) -> (r: BigNum)
        ensures
            r@ == self@ - other@,
    {
        num_sub(self, other)
    }

    /// `2^n`.
    pub fn pow2(n: usize) -> (r: BigNum)
        ensures
            r@ == pow2(n as nat),
    {
        let one = num_from_u64(1);
        num_shl(&one, n)
    }

    /// `self * 2^n`.
    pub fn shl(&self, n: usize) -> (r: BigNum)
        ensures
            r@ == self@ * pow2(n as nat),
    {
        num_shl(self, n)
    }

    /// The floor of `self / 2^n`.
    pub fn shr(&self, n: usize) -> (r: BigNum)
        ensures
            r@ == self@ / (pow2(n as nat) as int),
    {
        num_shr(self, n)
    }

    /// Whether `self < other`.
    pub fn lt(&self, other: &BigNum) -> (r: bool)
        ensures
            r == (self@ < other@),
    {
        num_lt(self, other)
    }

    /// Whether `self <= other`.
    pub fn le(&self, other: &BigNum) -> (r: bool)
        ensures
            r == (self@ <= other@),
    {
        !num_lt(other, self)
    }

    /// Whether both hold the same bytes.
    fn same_bytes(&self, other: &BigNum) -> (r: bool)
        ensures
            r == (self.bytes@ == other.bytes@),
    {
        if self.bytes.len() != other.bytes.len() {
            return false;
        }
        let mut k: usize = 0;
        while k < self.bytes.len()
            invariant
                self.bytes@.len() == other.bytes@.len(),
                k <= self.bytes@.len(),
                forall|j: int| 0 <= j < k ==> self.bytes@[j] == other.bytes@[j],
            decreases self.bytes@.len() - k,
        {
            if self.bytes[k] != other.bytes[k] {
                return false;
            }
            k += 1;
        }
        assert(self.bytes@ =~= other.bytes@);
        true
    }

    /// Whether both denote the same integer.
    pub fn equals(&self, other: &BigNum) -> (r: bool)
        ensures
            r == (self@ == other@),
    {
        if self.same_bytes(other) {
            true
        } else {
            num_eq(self, other)
        }
    }

    /// Whether the value is zero.
    pub fn is_zero(&self) -> (r: bool)
        ensures
            r == (self@ == 0),
    {
        let mut k: usize = 0;
        while k < self.bytes.len()
            invariant
                k <= self.bytes@.len(),
                forall|j: int| 0 <= j < k ==> self.bytes@[j] == 0,
            decreases self.bytes@.len() - k,
        {
            if self.bytes[k] != 0 {
                proof {
                    lemma_unsigned_le(self.bytes@);
                }
                return false;
            }
            k += 1;
        }
        proof {
            lemma_unsigned_le(self.bytes@);
        }
        true
    }

    /// Whether the value is below zero: whether the top bit of the last
    /// byte is set.
    pub fn is_negative(&self) -> (r: bool)
        ensures
            r == (self@ < 0),
    {
        proof {
            lemma_unsigned_le(self.bytes@);
        }
        let n = self.bytes.len();
        n > 0 && self.bytes[n - 1] >= 128
    }

    /// Whether the value is above zero.
    pub fn is_positive(&self) -> (r: bool)
        ensures
            r == (self@ > 0),
    {
        !self.is_negative() && !self.is_zero()
    }

    /// The binary digit of weight `2^i` of a value that is not negative.
    pub fn bit(&self, i: usize) -> (r: bool)
        requires
            self@ >= 0,
        ensures
            r == ((self@ / (pow2(i as nat) as int)) % 2 == 1),
    {
        num_bit(self, i as u64)
    }

    /// The least `k` with `self < 2^k`, for a value that is not negative.
    pub fn bits(&self) -> (r: u64)
        requires
            self@ >= 0,
        ensures
            r == bit_length(self@),
            self@ < pow2(r as nat),
            r > 0 ==> pow2((r - 1) as nat) <= self@,
    {
        let r = num_bits(self);
        proof {
            lemma_bit_length(self@, r as nat);
        }
        r
    }
}

/// A string of `n` digits in base 256 denotes a number from 0 up to, and
/// not including, `2^(8n)`, and denotes 0 only where all digits are 0.
pub proof fn lemma_unsigned_le(bytes: Seq<u8>)
    ensures
        0 <= unsigned_le(bytes) < pow2(8 * bytes.len()),
        unsigned_le(bytes) == 0 <==> forall|j: int| 0 <= j < bytes.len() ==> bytes[j] == 0,
    decreases bytes.len(),
{
    vstd::arithmetic::power2::lemma2_to64();
    if bytes.len() > 0 {
        let rest = bytes.drop_first();
        lemma_unsigned_le(rest);
        vstd::arithmetic::power2::lemma_pow2_adds(8, 8 * rest.len());
        assert(8 * bytes.len() == 8 + 8 * rest.len());
        let high = unsigned_le(rest);
        let top = pow2(8 * rest.len()) as int;
        assert(256 * high <= 256 * (top - 1)) by (nonlinear_arith)
            requires
                high <= top - 1,
        ;
        assert(256 * high >= 0) by (nonlinear_arith)
            requires
                high >= 0,
        ;
        if unsigned_le(bytes) == 0 {
            assert(high == 0) by (nonlinear_arith)
                requires
                    bytes[0] as int + 256 * high == 0,
                    high >= 0,
                    bytes[0] as int >= 0,
            ;
            assert forall|j: int| 0 <= j < bytes.len() implies bytes[j] == 0 by {
                if j > 0 {
                    assert(rest[j - 1] == bytes[j]);
                }
            }
        }
        if forall|j: int| 0 <= j < bytes.len() ==> bytes[j] == 0 {
            assert forall|j: int| 0 <= j < rest.len() implies rest[j] == 0 by {
                assert(rest[j] == bytes[j + 1]);
            }
        }
    }
}

/// The number of binary digits of `t`: the least `k` with `t < 2^k`.
pub open spec fn bit_length(t: int) -> nat
    decreases t,
{
    if t <= 0 {
        0
    } else {
        1 + bit_length(t / 2)
    }
}

/// The number `k` with `2^(k-1) <= t < 2^k` is the number of binary digits
/// of `t`.
pub proof fn lemma_bit_length(t: int, k: nat)
    requires
        0 <= t < pow2(k),
        k > 0 ==> pow2((k - 1) as nat) <= t,
    ensures
        k == bit_length(t),
    decreases k,
{
    vstd::arithmetic::power2::lemma2_to64();
    if k == 0 {
    } else {
        vstd::arithmetic::power2::lemma_pow2_unfold(k);
        vstd::arithmetic::power2::lemma_pow2_pos((k - 1) as nat);
        if k > 1 {
            vstd::arithmetic::power2::lemma_pow2_unfold((k - 1) as nat);
        }
        lemma_bit_length(t / 2, (k - 1) as nat);
    }
}

} // verus!
