//! Arbitrary-precision natural numbers.
//!
//! A [`BigNat`] holds the minimal big-endian byte encoding of a natural number and is
//! viewed as that number. Construction, encoding and comparison are verified here;
//! the arithmetic itself is done by `num-bigint`, behind the trusted functions at the
//! end of this file.

use num_bigint::{BigUint, RandBigInt};
use vstd::arithmetic::div_mod::lemma_mod_bound;
use vstd::arithmetic::power::pow;
use vstd::prelude::*;

verus! {

/// The number that a byte string denotes when it is read big-endian
/// (most significant byte first). The empty string denotes zero.
pub open spec fn be_value(bytes: Seq<u8>) -> nat
    decreases bytes.len(),
{
    if bytes.len() == 0 {
        0
    } else {
        be_value(bytes.drop_last()) * 256 + bytes.last() as nat
    }
}

/// A byte string is minimal when it is not empty and carries no leading zero byte
/// that could be dropped: zero is written as the single byte `0`.
pub open spec fn is_minimal(bytes: Seq<u8>) -> bool {
    bytes.len() >= 1 && (bytes.len() == 1 || bytes[0] != 0)
}

/// The minimal big-endian encoding of a number.
pub open spec fn minimal_encoding(n: nat) -> Seq<u8>
    decreases n,
{
    if n < 256 {
        seq![n as u8]
    } else {
        minimal_encoding(n / 256).push((n % 256) as u8)
    }
}

/// `base` to the power `exponent`, reduced modulo `modulus`.
pub open spec fn mod_exp(base: nat, exponent: nat, modulus: nat) -> nat {
    (pow(base as int, exponent) % (modulus as int)) as nat
}

/// A single byte denotes itself.
pub proof fn lemma_single_byte(bytes: Seq<u8>)
    requires
        bytes.len() == 1,
    ensures
        be_value(bytes) == bytes[0],
{
    reveal_with_fuel(be_value, 2);
}

/// A leading zero byte does not change the value of a byte string.
pub proof fn lemma_leading_zero(bytes: Seq<u8>)
    requires
        bytes.len() > 0,
        bytes[0] == 0,
    ensures
        be_value(bytes) == be_value(bytes.drop_first()),
    decreases bytes.len(),
{
    if bytes.len() == 1 {
        lemma_single_byte(bytes);
    } else {
        lemma_leading_zero(bytes.drop_last());
        assert(bytes.drop_last().drop_first() =~= bytes.drop_first().drop_last());
        assert(bytes.drop_first().last() == bytes.last());
    }
}

/// A byte string whose first byte is not zero denotes a positive number.
pub proof fn lemma_leading_nonzero(bytes: Seq<u8>)
    requires
        bytes.len() > 0,
        bytes[0] != 0,
    ensures
        be_value(bytes) > 0,
    decreases bytes.len(),
{
    if bytes.len() == 1 {
        lemma_single_byte(bytes);
    } else {
        lemma_leading_nonzero(bytes.drop_last());
    }
}

/// Encoding a number gives a minimal byte string that denotes it.
pub proof fn lemma_encoding_denotes(n: nat)
    ensures
        is_minimal(minimal_encoding(n)),
        be_value(minimal_encoding(n)) == n,
    decreases n,
{
    let enc = minimal_encoding(n);
    if n < 256 {
        lemma_single_byte(enc);
    } else {
        let high = minimal_encoding(n / 256);
        lemma_encoding_denotes(n / 256);
        assert(enc.drop_last() =~= high);
        assert(enc[0] == high[0]);
        if high[0] == 0 {
            lemma_single_byte(high);
        }
    }
}

/// Decoding a minimal byte string and encoding the number again gives the byte
/// string back: every number has exactly one minimal encoding.
pub proof fn lemma_minimal_is_encoding(bytes: Seq<u8>)
    requires
        is_minimal(bytes),
    ensures
        minimal_encoding(be_value(bytes)) == bytes,
    decreases bytes.len(),
{
    if bytes.len() == 1 {
        lemma_single_byte(bytes);
        assert(minimal_encoding(be_value(bytes)) =~= bytes);
    } else {
        let high = bytes.drop_last();
        lemma_minimal_is_encoding(high);
        lemma_leading_nonzero(high);
        let n = be_value(bytes);
        assert(n == be_value(high) * 256 + bytes.last() as nat);
        assert(n / 256 == be_value(high));
        assert(n % 256 == bytes.last() as nat);
        assert(minimal_encoding(n) =~= bytes);
    }
}

/// Of two byte strings, the longer one denotes the larger number if its first
/// byte is not zero.
pub proof fn lemma_longer_is_larger(a: Seq<u8>, b: Seq<u8>)
    requires
        a.len() > b.len(),
        a[0] != 0,
    ensures
        be_value(a) > be_value(b),
    decreases b.len(),
{
    if b.len() == 0 {
        lemma_leading_nonzero(a);
    } else {
        lemma_longer_is_larger(a.drop_last(), b.drop_last());
    }
}

/// Of two byte strings of one length, the one with the smaller byte at the first
/// place where they differ denotes the smaller number.
pub proof fn lemma_first_difference_decides(a: Seq<u8>, b: Seq<u8>, i: int)
    requires
        a.len() == b.len(),
        0 <= i < a.len(),
        a.subrange(0, i) == b.subrange(0, i),
        a[i] < b[i],
    ensures
        be_value(a) < be_value(b),
    decreases a.len(),
{
    if i == a.len() - 1 {
        assert(a.drop_last() =~= a.subrange(0, i));
        assert(b.drop_last() =~= b.subrange(0, i));
    } else {
        assert(a.drop_last().subrange(0, i) =~= a.subrange(0, i));
        assert(b.drop_last().subrange(0, i) =~= b.subrange(0, i));
        lemma_first_difference_decides(a.drop_last(), b.drop_last(), i);
    }
}

/// Two minimal byte strings that denote the same number are the same.
pub proof fn lemma_minimal_is_unique(a: Seq<u8>, b: Seq<u8>)
    requires
        is_minimal(a),
        is_minimal(b),
        be_value(a) == be_value(b),
    ensures
        a == b,
{
    lemma_minimal_is_encoding(a);
    lemma_minimal_is_encoding(b);
}

/// A natural number of any size, held as its minimal big-endian encoding.
#[derive(Debug, PartialEq, Eq)]
pub struct BigNat {
    bytes: Vec<u8>,
}

impl View for BigNat {
    type V = nat;

    closed spec fn view(&self) -> nat {
        be_value(self.bytes@)
    }
}

impl Clone for BigNat {
    fn clone(&self) -> (r: Self)
        ensures
            r@ == self@,
    {
        proof {
            use_type_invariant(self);
        }
        BigNat { bytes: self.bytes.clone() }
    }
}

impl BigNat {
    #[verifier::type_invariant]
    spec fn held_minimal(&self) -> bool {
        is_minimal(self.bytes@)
    }

    /// Decodes a big-endian byte string. Every byte string is accepted; leading
    /// zero bytes and the empty string are allowed. Encoding the result gives a
    /// minimal byte string back as it was.
    pub fn from_bytes_be(bytes: &[u8]) -> (r: BigNat)
        ensures
            r@ == be_value(bytes@),
            is_minimal(bytes@) ==> minimal_encoding(r@) == bytes@,
    {
        proof {
            if is_minimal(bytes@) {
                lemma_minimal_is_encoding(bytes@);
            }
        }
        let n = bytes.len();
        let mut start: usize = 0;
        assert(bytes@.subrange(0, n as int) =~= bytes@);
        while start < n && bytes[start] == 0
            invariant
                start <= n,
                n == bytes@.len(),
                be_value(bytes@.subrange(start as int, n as int)) == be_value(bytes@),
            decreases n - start,
        {
            proof {
                let rest = bytes@.subrange(start as int, n as int);
                lemma_leading_zero(rest);
                assert(rest.drop_first() =~= bytes@.subrange(start + 1, n as int));
            }
            start += 1;
        }
        let mut out: Vec<u8> = Vec::new();
        if start == n {
            out.push(0);
            proof {
                lemma_single_byte(out@);
            }
        } else {
            let mut i: usize = start;
            while i < n
                invariant
                    start <= i <= n,
                    n == bytes@.len(),
                    out@ == bytes@.subrange(start as int, i as int),
                decreases n - i,
            {
                out.push(bytes[i]);
                i += 1;
                assert(out@ =~= bytes@.subrange(start as int, i as int));
            }
        }
        BigNat { bytes: out }
    }

    /// The minimal big-endian encoding of the number. Decoding it gives the
    /// number back.
    pub fn to_bytes_be(&self) -> (r: Vec<u8>)
        ensures
            r@ == minimal_encoding(self@),
            is_minimal(r@),
            be_value(r@) == self@,
    {
        proof {
            use_type_invariant(self);
            lemma_minimal_is_encoding(self.bytes@);
        }
        self.bytes.clone()
    }

    /// The number `n`.
    pub fn from_u32(n: u32) -> (r: BigNat)
        ensures
            r@ == n,
    {
        let b3: u8 = (n % 256) as u8;
        let n1: u32 = n / 256;
        let b2: u8 = (n1 % 256) as u8;
        let n2: u32 = n1 / 256;
        let b1: u8 = (n2 % 256) as u8;
        let b0: u8 = (n2 / 256) as u8;
        let mut digits: Vec<u8> = Vec::new();
        digits.push(b0);
        digits.push(b1);
        digits.push(b2);
        digits.push(b3);
        proof {
            let s = digits@;
            assert(s.drop_last().drop_last().drop_last().drop_last().len() == 0);
            reveal_with_fuel(be_value, 5);
            assert(be_value(s) == ((b0 as nat * 256 + b1 as nat) * 256 + b2 as nat) * 256
                + b3 as nat);
        }
        BigNat::from_bytes_be(digits.as_slice())
    }

    /// Whether the number is zero.
    pub fn is_zero(&self) -> (r: bool)
        ensures
            r == (self@ == 0),
    {
        proof {
            use_type_invariant(self);
            if self.bytes@[0] != 0 {
                lemma_leading_nonzero(self.bytes@);
            } else {
                lemma_single_byte(self.bytes@);
            }
        }
        self.bytes[0] == 0
    }

    /// The first place at which the encodings of two numbers of one length differ.
    fn first_difference(&self, other: &BigNat) -> (r: Option<usize>)
        requires
            self.bytes@.len() == other.bytes@.len(),
        ensures
            match r {
                Some(i) => {
                    &&& i < self.bytes@.len()
                    &&& self.bytes@.subrange(0, i as int) == other.bytes@.subrange(0, i as int)
                    &&& self.bytes@[i as int] != other.bytes@[i as int]
                },
                None => self.bytes@ == other.bytes@,
            },
    {
        let mut i: usize = 0;
        while i < self.bytes.len()
            invariant
                self.bytes@.len() == other.bytes@.len(),
                i <= self.bytes@.len(),
                self.bytes@.subrange(0, i as int) == other.bytes@.subrange(0, i as int),
            decreases self.bytes@.len() - i,
        {
            if self.bytes[i] != other.bytes[i] {
                return Some(i);
            }
            assert(self.bytes@.subrange(0, i + 1) =~= self.bytes@.subrange(0, i as int).push(
                self.bytes@[i as int],
            ));
            assert(other.bytes@.subrange(0, i + 1) =~= other.bytes@.subrange(0, i as int).push(
                other.bytes@[i as int],
            ));
            i += 1;
        }
        assert(self.bytes@ =~= self.bytes@.subrange(0, i as int));
        assert(other.bytes@ =~= other.bytes@.subrange(0, i as int));
        None
    }

    /// Whether two numbers are equal.
    pub fn equals(&self, other: &BigNat) -> (r: bool)
        ensures
            r == (self@ == other@),
    {
        proof {
            use_type_invariant(self);
            use_type_invariant(other);
            if self@ == other@ {
                lemma_minimal_is_unique(self.bytes@, other.bytes@);
            }
        }
        if self.bytes.len() != other.bytes.len() {
            return false;
        }
        self.first_difference(other).is_none()
    }

    /// Whether the number is at least `other`.
    pub fn ge(&self, other: &BigNat) -> (r: bool)
        ensures
            r == (self@ >= other@),
    {
        proof {
            use_type_invariant(self);
            use_type_invariant(other);
        }
        if self.bytes.len() > other.bytes.len() {
            proof {
                lemma_longer_is_larger(self.bytes@, other.bytes@);
            }
            return true;
        }
        if self.bytes.len() < other.bytes.len() {
            proof {
                lemma_longer_is_larger(other.bytes@, self.bytes@);
            }
            return false;
        }
        match self.first_difference(other) {
            None => true,
            Some(i) => {
                proof {
                    if self.bytes@[i as int] < other.bytes@[i as int] {
                        lemma_first_difference_decides(self.bytes@, other.bytes@, i as int);
                    } else {
                        lemma_first_difference_decides(other.bytes@, self.bytes@, i as int);
                    }
                }
                self.bytes[i] > other.bytes[i]
            },
        }
    }

    /// The product of two numbers.
    pub fn mul(&self, other: &BigNat) -> (r: BigNat)
        ensures
            r@ == self@ * other@,
    {
        BigNat { bytes: biguint_mul(&self.bytes, &other.bytes) }
    }

    /// The difference of two numbers, where the second is not the larger one.
    pub fn sub(&self, other: &BigNat) -> (r: BigNat)
        requires
            self@ >= other@,
        ensures
            r@ == self@ - other@,
    {
        BigNat { bytes: biguint_sub(&self.bytes, &other.bytes) }
    }

    /// The number raised to `exponent`, reduced modulo a positive `modulus`.
    ///
    /// The time this takes depends on the operands. It is no constant-time
    /// exponentiation: where the exponent is a secret, timing may give it away.
    pub fn modpow(&self, exponent: &BigNat, modulus: &BigNat) -> (r: BigNat)
        requires
            modulus@ > 0,
        ensures
            r@ == mod_exp(self@, exponent@, modulus@),
            r@ < modulus@,
    {
        proof {
            lemma_mod_bound(pow(self@ as int, exponent@), modulus@ as int);
        }
        BigNat { bytes: biguint_modpow(&self.bytes, &exponent.bytes, &modulus.bytes) }
    }

    /// A number drawn at random below a positive `bound`.
    pub fn random_below(bound: &BigNat) -> (r: BigNat)
        requires
            bound@ > 0,
        ensures
            r@ < bound@,
    {
        BigNat { bytes: biguint_random_below(&bound.bytes) }
    }
}

/// `BigUint`'s `*` from num-bigint, on numbers given as big-endian bytes: the result
/// is the product, as `BigUint::to_bytes_be` writes it (minimal).
#[verifier::external_body]
fn biguint_mul(a: &Vec<u8>, b: &Vec<u8>) -> (r: Vec<u8>)
    ensures
        is_minimal(r@),
        be_value(r@) == be_value(a@) * be_value(b@),
{
    (BigUint::from_bytes_be(a) * BigUint::from_bytes_be(b)).to_bytes_be()
}

/// `BigUint`'s `-` from num-bigint, on numbers given as big-endian bytes. It panics
/// when the second number is the larger one, which the precondition rules out; the
/// result is the difference, as `BigUint::to_bytes_be` writes it (minimal).
#[verifier::external_body]
fn biguint_sub(a: &Vec<u8>, b: &Vec<u8>) -> (r: Vec<u8>)
    requires
        be_value(a@) >= be_value(b@),
    ensures
        is_minimal(r@),
        be_value(r@) == be_value(a@) - be_value(b@),
{
    (BigUint::from_bytes_be(a) - BigUint::from_bytes_be(b)).to_bytes_be()
}

/// `BigUint::modpow` from num-bigint, on numbers given as big-endian bytes. It
/// panics on a zero modulus, which the precondition rules out; the result is
/// `base` to the power `exponent` modulo `modulus`, as `BigUint::to_bytes_be`
/// writes it (minimal).
#[verifier::external_body]
fn biguint_modpow(base: &Vec<u8>, exponent: &Vec<u8>, modulus: &Vec<u8>) -> (r: Vec<u8>)
    requires
        be_value(modulus@) > 0,
    ensures
        is_minimal(r@),
        be_value(r@) == mod_exp(be_value(base@), be_value(exponent@), be_value(modulus@)),
{
    let exponent = BigUint::from_bytes_be(exponent);
    let modulus = BigUint::from_bytes_be(modulus);
    BigUint::from_bytes_be(base).modpow(&exponent, &modulus).to_bytes_be()
}

/// `RandBigInt::gen_biguint_below` from num-bigint on rand's `thread_rng`, a
/// cryptographically secure generator seeded by the operating system. It panics on
/// a zero bound, which the precondition rules out; whatever is drawn lies below the
/// bound and comes back as `BigUint::to_bytes_be` writes it (minimal).
#[verifier::external_body]
fn biguint_random_below(bound: &Vec<u8>) -> (r: Vec<u8>)
    requires
        be_value(bound@) > 0,
    ensures
        is_minimal(r@),
        be_value(r@) < be_value(bound@),
{
    rand::thread_rng().gen_biguint_below(&BigUint::from_bytes_be(bound)).to_bytes_be()
}

} // verus!
