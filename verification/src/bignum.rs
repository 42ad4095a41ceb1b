//! Arbitrary-precision integers.
//!
//! A [`BigNum`] holds the two's-complement little-endian bytes of an integer;
//! its view is that integer. All arithmetic is carried out by `num_bigint`;
//! the functions of this module that call it state what it computes and are
//! not verified against it.

use num_bigint::BigInt;
use num_bigint::Sign;
use vstd::arithmetic::power::pow;
use vstd::prelude::*;

verus! {

/// The natural number that `bytes` spells in base 256, least significant
/// digit first.
pub open spec fn le_value(bytes: Seq<u8>) -> nat
    decreases bytes.len(),
{
    if bytes.len() == 0 {
        0
    } else {
        bytes[0] as nat + 256 * le_value(bytes.skip(1))
    }
}

/// The integer that `bytes` spells in two's complement, least significant
/// byte first. The empty string spells zero.
pub open spec fn signed_le_value(bytes: Seq<u8>) -> int {
    if bytes.len() > 0 && bytes.last() >= 128 {
        le_value(bytes) - pow(256, bytes.len())
    } else {
        le_value(bytes) as int
    }
}

/// `bytes` is the shortest little-endian spelling of its value: one byte for
/// zero, no zero byte at the top otherwise.
pub open spec fn is_minimal_le(bytes: Seq<u8>) -> bool {
    bytes.len() >= 1 && (bytes.len() > 1 ==> bytes.last() != 0)
}

/// The shortest little-endian spelling of `n`: one byte for zero, no zero
/// byte at the top otherwise.
pub open spec fn le_bytes(n: nat) -> Seq<u8>
    decreases n,
{
    if n < 256 {
        seq![n as u8]
    } else {
        seq![(n % 256) as u8] + le_bytes(n / 256)
    }
}

/// `bytes` followed by as many zero bytes as it takes to reach `width`.
pub open spec fn zero_padded(bytes: Seq<u8>, width: nat) -> Seq<u8> {
    bytes + Seq::new((width - bytes.len()) as nat, |i: int| 0u8)
}

/// Absolute value.
pub open spec fn abs(a: int) -> int {
    if a < 0 {
        -a
    } else {
        a
    }
}

/// Quotient of the division that rounds towards zero.
pub open spec fn trunc_div(a: int, b: int) -> int
    recommends
        b != 0,
{
    if (a < 0) == (b < 0) {
        abs(a) / abs(b)
    } else {
        -(abs(a) / abs(b))
    }
}

/// Remainder of the division that rounds towards zero; it has the sign of `a`.
pub open spec fn trunc_rem(a: int, b: int) -> int
    recommends
        b != 0,
{
    if a < 0 {
        -(abs(a) % abs(b))
    } else {
        abs(a) % abs(b)
    }
}

/// An integer of any size.
#[derive(Debug)]
pub struct BigNum {
    bytes: Vec<u8>,
}

impl View for BigNum {
    type V = int;

    closed spec fn view(&self) -> int {
        signed_le_value(self.bytes@)
    }
}

/// `BigInt::from` on an `i64`: the integer with the value of `v`.
#[verifier::external_body]
pub(crate) fn big_from_i64(v: i64) -> (r: BigNum)
    ensures
        r@ == v,
{
    BigNum { bytes: BigInt::from(v).to_signed_bytes_le() }
}

/// `BigInt::from_bytes_le` with a positive sign: the natural number that
/// `bytes` spells, least significant byte first.
#[verifier::external_body]
fn big_from_bytes_le(bytes: &Vec<u8>) -> (r: BigNum)
    ensures
        r@ == le_value(bytes@),
{
    BigNum { bytes: BigInt::from_bytes_le(Sign::Plus, bytes).to_signed_bytes_le() }
}

/// `BigInt::to_bytes_le`, without the sign: the shortest little-endian
/// spelling of the absolute value.
#[verifier::external_body]
fn big_to_bytes_le(a: &BigNum) -> (r: Vec<u8>)
    ensures
        le_value(r@) == abs(a@),
        is_minimal_le(r@),
{
    BigInt::from_signed_bytes_le(&a.bytes).to_bytes_le().1
}

/// `+` on `BigInt`.
#[verifier::external_body]
pub(crate) fn big_add(a: &BigNum, b: &BigNum) -> (r: BigNum)
    ensures
        r@ == a@ + b@,
{
    let x = BigInt::from_signed_bytes_le(&a.bytes);
    let y = BigInt::from_signed_bytes_le(&b.bytes);
    BigNum { bytes: (x + y).to_signed_bytes_le() }
}

/// `-` on `BigInt`.
#[verifier::external_body]
pub(crate) fn big_sub(a: &BigNum, b: &BigNum) -> (r: BigNum)
    ensures
        r@ == a@ - b@,
{
    let x = BigInt::from_signed_bytes_le(&a.bytes);
    let y = BigInt::from_signed_bytes_le(&b.bytes);
    BigNum { bytes: (x - y).to_signed_bytes_le() }
}

/// `*` on `BigInt`.
#[verifier::external_body]
pub(crate) fn big_mul(a: &BigNum, b: &BigNum) -> (r: BigNum)
    ensures
        r@ == a@ * b@,
{
    let x = BigInt::from_signed_bytes_le(&a.bytes);
    let y = BigInt::from_signed_bytes_le(&b.bytes);
    BigNum { bytes: (x * y).to_signed_bytes_le() }
}

/// `/` on `BigInt`, which rounds towards zero and panics on a zero divisor.
#[verifier::external_body]
pub(crate) fn big_div(a: &BigNum, b: &BigNum) -> (r: BigNum)
    requires
        b@ != 0,
    ensures
        r@ == trunc_div(a@, b@),
{
    let x = BigInt::from_signed_bytes_le(&a.bytes);
    let y = BigInt::from_signed_bytes_le(&b.bytes);
    BigNum { bytes: (x / y).to_signed_bytes_le() }
}

/// `%` on `BigInt`, whose result has the sign of the dividend and which
/// panics on a zero divisor.
#[verifier::external_body]
pub(crate) fn big_rem(a: &BigNum, b: &BigNum) -> (r: BigNum)
    requires
        b@ != 0,
    ensures
        r@ == trunc_rem(a@, b@),
{
    let x = BigInt::from_signed_bytes_le(&a.bytes);
    let y = BigInt::from_signed_bytes_le(&b.bytes);
    BigNum { bytes: (x % y).to_signed_bytes_le() }
}

/// Unary `-` on `BigInt`.
#[verifier::external_body]
pub(crate) fn big_neg(a: &BigNum) -> (r: BigNum)
    ensures
        r@ == -a@,
{
    BigNum { bytes: (-BigInt::from_signed_bytes_le(&a.bytes)).to_signed_bytes_le() }
}

/// `==` on `BigInt`.
#[verifier::external_body]
pub(crate) fn big_eq(a: &BigNum, b: &BigNum) -> (r: bool)
    ensures
        r == (a@ == b@),
{
    BigInt::from_signed_bytes_le(&a.bytes) == BigInt::from_signed_bytes_le(&b.bytes)
}

/// `<` on `BigInt`.
#[verifier::external_body]
pub(crate) fn big_lt(a: &BigNum, b: &BigNum) -> (r: bool)
    ensures
        r == (a@ < b@),
{
    BigInt::from_signed_bytes_le(&a.bytes) < BigInt::from_signed_bytes_le(&b.bytes)
}

impl BigNum {
    /// The integer with the value of `v`.
    pub fn from_i64(v: i64) -> (r: BigNum)
        ensures
            r@ == v,
    {
        big_from_i64(v)
    }

    /// The natural number that `bytes` spells, least significant byte first.
    pub fn from_bytes_le(bytes: &Vec<u8>) -> (r: BigNum)
        ensures
            r@ == le_value(bytes@),
    {
        big_from_bytes_le(bytes)
    }

    /// The integer that `bytes` spells in two's complement, least
    /// significant byte first.
    pub fn from_signed_bytes_le(bytes: Vec<u8>) -> (r: BigNum)
        ensures
            r@ == signed_le_value(bytes@),
    {
        BigNum { bytes: bytes }
    }

    /// A spelling of the integer in two's complement, least significant byte
    /// first.
    pub fn to_signed_bytes_le(&self) -> (r: Vec<u8>)
        ensures
            signed_le_value(r@) == self@,
    {
        self.bytes.clone()
    }

    /// The shortest little-endian spelling of the absolute value.
    pub fn to_bytes_le(&self) -> (r: Vec<u8>)
        ensures
            r@ == le_bytes(abs(self@) as nat),
    {
        let r = big_to_bytes_le(self);
        proof {
            lemma_minimal_spelling_unique(r@);
        }
        r
    }
}

impl Clone for BigNum {
    fn clone(&self) -> (r: BigNum)
        ensures
            r@ == self@,
    {
        BigNum { bytes: self.bytes.clone() }
    }
}

impl Eq for BigNum {

}

impl PartialEq for BigNum {
    fn eq(&self, other: &BigNum) -> (r: bool) {
        big_eq(self, other)
    }
}

impl vstd::std_specs::cmp::PartialEqSpecImpl for BigNum {
    open spec fn obeys_eq_spec() -> bool {
        true
    }

    open spec fn eq_spec(&self, other: &BigNum) -> bool {
        self@ == other@
    }
}

/// A spelling whose top byte is not zero has a positive value.
pub proof fn lemma_top_byte_positive(bytes: Seq<u8>)
    requires
        bytes.len() >= 1,
        bytes.last() != 0,
    ensures
        le_value(bytes) > 0,
    decreases bytes.len(),
{
    if bytes.len() > 1 {
        let rest = bytes.skip(1);
        assert(rest.last() == bytes.last());
        lemma_top_byte_positive(rest);
    }
}

/// A spelling of `n` bytes has a value below `256^n`.
pub proof fn lemma_value_below_width(bytes: Seq<u8>)
    ensures
        le_value(bytes) < pow(256, bytes.len()),
    decreases bytes.len(),
{
    reveal(pow);
    if bytes.len() > 0 {
        lemma_value_below_width(bytes.skip(1));
    }
}

/// A spelling of `n` bytes whose top byte is not zero has a value of at
/// least `256^(n - 1)`.
pub proof fn lemma_value_fills_width(bytes: Seq<u8>)
    requires
        bytes.len() >= 1,
        bytes.last() != 0,
    ensures
        le_value(bytes) >= pow(256, (bytes.len() - 1) as nat),
    decreases bytes.len(),
{
    reveal(pow);
    if bytes.len() > 1 {
        let rest = bytes.skip(1);
        assert(rest.last() == bytes.last());
        lemma_value_fills_width(rest);
    }
}

/// Only zero bytes spell zero.
pub proof fn lemma_zero_value_zero_bytes(bytes: Seq<u8>)
    requires
        le_value(bytes) == 0,
    ensures
        forall|i: int| 0 <= i < bytes.len() ==> bytes[i] == 0,
    decreases bytes.len(),
{
    if bytes.len() > 0 {
        let rest = bytes.skip(1);
        lemma_zero_value_zero_bytes(rest);
        assert forall|i: int| 0 <= i < bytes.len() implies bytes[i] == 0 by {
            if i > 0 {
                assert(bytes[i] == rest[i - 1]);
            }
        }
    }
}

/// A number has one shortest spelling only.
pub proof fn lemma_minimal_spelling_unique(bytes: Seq<u8>)
    requires
        is_minimal_le(bytes),
    ensures
        bytes == le_bytes(le_value(bytes)),
    decreases bytes.len(),
{
    let n = le_value(bytes);
    let rest = bytes.skip(1);
    if bytes.len() == 1 {
        assert(le_value(rest) == 0);
        assert(bytes =~= seq![n as u8]);
    } else {
        assert(rest.last() == bytes.last());
        lemma_top_byte_positive(rest);
        lemma_minimal_spelling_unique(rest);
        assert(n % 256 == bytes[0] as nat);
        assert(n / 256 == le_value(rest));
        assert(bytes =~= seq![bytes[0]] + rest);
    }
}

/// Spelling the value of `bytes` and filling up with zero bytes gives
/// `bytes` back.
pub proof fn lemma_spelling_round_trip(bytes: Seq<u8>)
    requires
        bytes.len() >= 1,
    ensures
        le_bytes(le_value(bytes)).len() <= bytes.len(),
        zero_padded(le_bytes(le_value(bytes)), bytes.len()) == bytes,
    decreases bytes.len(),
{
    let n = le_value(bytes);
    let rest = bytes.skip(1);
    if n < 256 {
        assert(le_value(rest) == 0);
        lemma_zero_value_zero_bytes(rest);
        assert(n == bytes[0] as nat);
        assert forall|i: int| 1 <= i < bytes.len() implies bytes[i] == 0 by {
            assert(bytes[i] == rest[i - 1]);
        }
        assert(zero_padded(le_bytes(n), bytes.len()) =~= bytes);
    } else {
        assert(n % 256 == bytes[0] as nat);
        assert(n / 256 == le_value(rest));
        assert(rest.len() >= 1);
        lemma_spelling_round_trip(rest);
        let tail = le_bytes(le_value(rest));
        assert(le_bytes(n) == seq![bytes[0]] + tail);
        assert(zero_padded(tail, rest.len()) == rest);
        assert forall|i: int| 0 <= i < bytes.len() implies zero_padded(le_bytes(n), bytes.len())[i]
            == bytes[i] by {
            if i > 0 {
                assert(zero_padded(tail, rest.len())[i - 1] == rest[i - 1]);
                assert(bytes[i] == rest[i - 1]);
            }
        }
        assert(zero_padded(le_bytes(n), bytes.len()) =~= bytes);
    }
}

/// The values of a sequence of integers.
pub open spec fn values_of(s: Seq<BigNum>) -> Seq<int> {
    s.map_values(|b: BigNum| b@)
}

} // verus!
