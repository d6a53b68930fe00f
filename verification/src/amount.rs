//! Token amounts: unsigned integers below `2^256` with overflow-checked
//! arithmetic.
//!
//! On-chain balances and reserves are 256-bit words. `BigAmount` keeps that
//! width as an invariant and exposes exactly the checked operations the
//! formulas need, so that no computation can silently wrap.

use vstd::prelude::*;
use vstd::arithmetic::power2::{lemma_pow2_pos, lemma_pow2_strictly_increases, pow2};
use crate::biguint::{
    ascii_chars, dec_chars_value, is_dec_digit, nat_to_decimal, BigUint,
};
use crate::text::string_from_ascii_bytes;

verus! {

/// The first value that no longer fits in 256 bits.
pub open spec fn amount_limit() -> nat {
    pow2(256)
}

/// Value of a byte string read big-endian: the first byte is the most
/// significant.
pub open spec fn be_bytes_value(s: Seq<u8>) -> nat
    decreases s.len(),
{
    if s.len() == 0 {
        0
    } else {
        be_bytes_value(s.drop_last()) * 256 + s.last() as nat
    }
}

/// Value of a byte string read little-endian: the first byte is the least
/// significant.
pub open spec fn le_bytes_value(s: Seq<u8>) -> nat
    decreases s.len(),
{
    if s.len() == 0 {
        0
    } else {
        s[0] as nat + 256 * le_bytes_value(s.skip(1))
    }
}

/// Appending a byte at the little-endian high end adds its weighted value.
pub proof fn lemma_le_bytes_push(s: Seq<u8>, b: u8)
    ensures
        le_bytes_value(s.push(b)) == le_bytes_value(s) + b * pow2(8 * s.len()),
    decreases s.len(),
{
    if s.len() == 0 {
        assert(s.push(b)[0] == b);
        assert(s.push(b).skip(1) =~= Seq::<u8>::empty());
        assert(le_bytes_value(s.push(b).skip(1)) == 0);
        assert(pow2(0) == 1) by {
            vstd::arithmetic::power::lemma_pow0(2);
        }
        assert(le_bytes_value(s.push(b)) == b as nat);
        assert(le_bytes_value(s) == 0);
    } else {
        let t = s.skip(1);
        let p1 = pow2((8 * s.len() - 8) as nat);
        assert(s.push(b)[0] == s[0]);
        assert(s.push(b).skip(1) =~= t.push(b));
        assert(le_bytes_value(s.push(b)) == s[0] as nat + 256 * le_bytes_value(t.push(b)));
        lemma_le_bytes_push(t, b);
        assert(8 * t.len() == 8 * s.len() - 8);
        vstd::arithmetic::power2::lemma_pow2_adds((8 * s.len() - 8) as nat, 8);
        vstd::arithmetic::power2::lemma2_to64();
        assert(pow2(8 * s.len()) == p1 * 256);
        assert(256 * (le_bytes_value(t) + b * p1) == 256 * le_bytes_value(t) + b * (p1 * 256))
            by (nonlinear_arith);
        assert(le_bytes_value(s) == s[0] as nat + 256 * le_bytes_value(t));
        assert(le_bytes_value(s.push(b)) == le_bytes_value(s) + b * pow2(8 * s.len()));
    }
}

/// A byte string read big-endian equals its reversal read little-endian.
pub proof fn lemma_be_of_reversed(t: Seq<u8>, s: Seq<u8>)
    requires
        t.len() == s.len(),
        forall|j: int| 0 <= j < t.len() ==> t[j] == s[s.len() - 1 - j],
    ensures
        be_bytes_value(t) == le_bytes_value(s),
    decreases t.len(),
{
    if t.len() == 0 {
    } else {
        let tf = t.drop_last();
        let sf = s.skip(1);
        assert(t.last() == s[0]);
        assert forall|j: int| 0 <= j < tf.len() implies tf[j] == sf[sf.len() - 1 - j] by {
            assert(tf[j] == t[j]);
            assert(sf[sf.len() - 1 - j] == s[s.len() - 1 - j]);
        }
        lemma_be_of_reversed(tf, sf);
        assert(be_bytes_value(t) == be_bytes_value(tf) * 256 + s[0] as nat);
        assert(le_bytes_value(s) == s[0] as nat + 256 * le_bytes_value(sf));
        assert(be_bytes_value(tf) * 256 == 256 * le_bytes_value(sf)) by (nonlinear_arith)
            requires
                be_bytes_value(tf) == le_bytes_value(sf),
        ;
    }
}

/// A byte string of length `n` denotes a value below `pow2(8 n)`.
pub proof fn lemma_be_bytes_bound(s: Seq<u8>)
    ensures
        be_bytes_value(s) < pow2(8 * s.len()),
    decreases s.len(),
{
    if s.len() == 0 {
        vstd::arithmetic::power::lemma_pow0(2);
        assert(pow2(0) == 1);
    } else {
        let t = s.drop_last();
        let p1 = pow2((8 * s.len() - 8) as nat);
        lemma_be_bytes_bound(t);
        assert(8 * t.len() == 8 * s.len() - 8);
        vstd::arithmetic::power2::lemma_pow2_adds((8 * s.len() - 8) as nat, 8);
        vstd::arithmetic::power2::lemma2_to64();
        assert(pow2(8 * s.len()) == p1 * 256);
        assert(be_bytes_value(t) * 256 <= (p1 - 1) * 256) by (nonlinear_arith)
            requires
                be_bytes_value(t) <= p1 - 1,
        ;
        assert((p1 - 1) * 256 + 255 < p1 * 256) by (nonlinear_arith);
    }
}

/// An unsigned token amount below `2^256`. Its view is the `nat` it denotes.
#[derive(Debug, PartialEq, Eq)]
pub struct BigAmount {
    value: BigUint,
}

impl View for BigAmount {
    type V = nat;

    closed spec fn view(&self) -> nat {
        self.value@
    }
}

impl BigAmount {
    #[verifier::type_invariant]
    spec fn wf(self) -> bool {
        self.value@ < amount_limit()
    }

    /// The zero amount.
    pub fn zero() -> (r: BigAmount)
        ensures
            r@ == 0,
    {
        proof {
            lemma_pow2_pos(256);
        }
        BigAmount { value: BigUint::zero() }
    }

    /// An amount from a machine word.
    pub fn from_u64(v: u64) -> (r: BigAmount)
        ensures
            r@ == v,
    {
        proof {
            lemma_pow2_strictly_increases(64, 256);
            vstd::arithmetic::power2::lemma2_to64();
            assert(v < pow2(64));
        }
        BigAmount { value: BigUint::from_u64(v) }
    }


    /// An amount from an already-bounded value.
    pub fn from_value(value: BigUint) -> (r: BigAmount)
        requires
            value@ < amount_limit(),
        ensures
            r@ == value@,
    {
        BigAmount { value }
    }

    /// An exact copy.
    pub fn duplicate(&self) -> (r: BigAmount)
        ensures
            r@ == self@,
    {
        proof {
            use_type_invariant(self);
        }
        BigAmount { value: self.value.duplicate() }
    }

    /// Whether the amount is zero.
    pub fn is_zero(&self) -> (r: bool)
        ensures
            r == (self@ == 0),
    {
        self.value.is_zero()
    }

    /// Strictly-less comparison.
    pub fn lt(&self, other: &BigAmount) -> (r: bool)
        ensures
            r == (self@ < other@),
    {
        self.value.lt_value(&other.value)
    }

    /// Less-or-equal comparison.
    pub fn le(&self, other: &BigAmount) -> (r: bool)
        ensures
            r == (self@ <= other@),
    {
        self.value.le_value(&other.value)
    }

    /// The 256-bit bound, as an arbitrary-precision value.
    fn limit_value() -> (r: BigUint)
        ensures
            r@ == amount_limit(),
    {
        BigUint::pow2_value(256)
    }

    /// Sum, or `None` when it no longer fits in 256 bits.
    pub fn checked_plus(&self, other: &BigAmount) -> (r: Option<BigAmount>)
        ensures
            r matches Some(v) ==> v@ == self@ + other@ && self@ + other@ < amount_limit(),
            r is None <==> self@ + other@ >= amount_limit(),
    {
        proof {
            use_type_invariant(self);
            use_type_invariant(other);
        }
        let sum = self.value.plus(&other.value);
        let limit = Self::limit_value();
        if sum.lt_value(&limit) {
            Some(BigAmount { value: sum })
        } else {
            None
        }
    }

    /// Product, or `None` when it no longer fits in 256 bits.
    pub fn checked_times(&self, other: &BigAmount) -> (r: Option<BigAmount>)
        ensures
            r matches Some(v) ==> v@ == self@ * other@ && self@ * other@ < amount_limit(),
            r is None <==> self@ * other@ >= amount_limit(),
    {
        proof {
            use_type_invariant(self);
            use_type_invariant(other);
        }
        let product = self.value.times(&other.value);
        let limit = Self::limit_value();
        if product.lt_value(&limit) {
            Some(BigAmount { value: product })
        } else {
            None
        }
    }

    /// Truncating division; the divisor must be non-zero.
    pub fn divide(&self, divisor: &BigAmount) -> (r: BigAmount)
        requires
            divisor@ > 0,
        ensures
            r@ == self@ / divisor@,
    {
        proof {
            use_type_invariant(self);
            use_type_invariant(divisor);
        }
        let (q, _r) = self.value.div_rem(&divisor.value);
        proof {
            vstd::arithmetic::div_mod::lemma_div_is_ordered_by_denominator(
                self@ as int,
                1,
                divisor@ as int,
            );
            vstd::arithmetic::div_mod::lemma_div_basics_1(self@ as int);
        }
        BigAmount { value: q }
    }


    /// The amount denoted by a big-endian byte range of at most 32 bytes.
    pub fn from_be_bytes(bytes: &Vec<u8>, start: usize, end: usize) -> (r: BigAmount)
        requires
            start <= end <= bytes@.len(),
            end - start <= 32,
        ensures
            r@ == be_bytes_value(bytes@.subrange(start as int, end as int)),
    {
        let mut acc = BigUint::zero();
        let mut i: usize = start;
        proof {
            assert(bytes@.subrange(start as int, start as int) =~= Seq::<u8>::empty());
        }
        while i < end
            invariant
                start <= i <= end,
                end <= bytes@.len(),
                acc@ == be_bytes_value(bytes@.subrange(start as int, i as int)),
            decreases end - i,
        {
            let b = bytes[i];
            let shifted = acc.times_small(256);
            let term = BigUint::from_u64(b as u64);
            let next = shifted.plus(&term);
            proof {
                let prev = bytes@.subrange(start as int, i as int);
                let cur = bytes@.subrange(start as int, i as int + 1);
                assert(cur.drop_last() =~= prev);
                assert(cur.last() == bytes@[i as int]);
                assert(be_bytes_value(cur) == be_bytes_value(prev) * 256 + bytes@[i as int] as nat);
            }
            acc = next;
            i = i + 1;
        }
        proof {
            let sub = bytes@.subrange(start as int, end as int);
            lemma_be_bytes_bound(sub);
            assert(8 * sub.len() <= 256);
            if 8 * sub.len() < 256 {
                lemma_pow2_strictly_increases(8 * sub.len(), 256);
            }
            assert(acc@ < amount_limit());
        }
        BigAmount { value: acc }
    }

    /// The amount as a 32-byte big-endian word.
    pub fn to_be_bytes32(&self) -> (r: Vec<u8>)
        ensures
            r@.len() == 32,
            be_bytes_value(r@) == self@,
    {
        proof {
            use_type_invariant(self);
        }
        let c256 = BigUint::from_u64(256);
        let mut lsb: Vec<u8> = Vec::new();
        let mut acc = self.value.duplicate();
        let mut i: usize = 0;
        proof {
            vstd::arithmetic::power::lemma_pow0(2);
            assert(pow2(0) == 1);
            assert(le_bytes_value(lsb@) == 0);
            assert(acc@ * pow2(0) == acc@) by (nonlinear_arith)
                requires
                    pow2(0) == 1,
            ;
        }
        while i < 32
            invariant
                i <= 32,
                lsb@.len() == i,
                c256@ == 256,
                le_bytes_value(lsb@) + acc@ * pow2(8 * i as nat) == self@,
            decreases 32 - i,
        {
            let (q, rem) = acc.div_rem(&c256);
            proof {
                vstd::arithmetic::div_mod::lemma_mod_division_less_than_divisor(
                    acc@ as int,
                    256,
                );
                assert(rem@ < 256);
            }
            let b: u8 = rem.to_u64() as u8;
            proof {
                vstd::arithmetic::div_mod::lemma_fundamental_div_mod(acc@ as int, 256);
                assert(acc@ == q@ * 256 + rem@);
                lemma_le_bytes_push(lsb@, b);
                vstd::arithmetic::power2::lemma_pow2_adds(8 * i as nat, 8);
                vstd::arithmetic::power2::lemma2_to64();
                let p = pow2(8 * i as nat);
                assert(pow2(8 * (i + 1) as nat) == p * 256);
                assert(le_bytes_value(lsb@.push(b)) + q@ * (p * 256) == le_bytes_value(lsb@) + (q@
                    * 256 + rem@) * p) by (nonlinear_arith)
                    requires
                        le_bytes_value(lsb@.push(b)) == le_bytes_value(lsb@) + b * p,
                        b == rem@,
                ;
            }
            lsb.push(b);
            acc = q;
            i = i + 1;
        }
        proof {
            if acc@ >= 1 {
                assert(acc@ * pow2(256) >= pow2(256)) by (nonlinear_arith)
                    requires
                        acc@ >= 1,
                        pow2(256) >= 0,
                ;
                assert(false);
            }
            assert(le_bytes_value(lsb@) == self@);
        }
        let mut out: Vec<u8> = Vec::new();
        let mut j: usize = 0;
        while j < 32
            invariant
                j <= 32,
                lsb@.len() == 32,
                out@.len() == j,
                forall|k: int| 0 <= k < j ==> #[trigger] out@[k] == lsb@[31 - k],
            decreases 32 - j,
        {
            out.push(lsb[31 - j]);
            j = j + 1;
        }
        proof {
            lemma_be_of_reversed(out@, lsb@);
        }
        out
    }


    /// The amount as a machine word; it must fit.
    pub fn to_u64(&self) -> (r: u64)
        requires
            self@ <= u64::MAX,
        ensures
            r == self@,
    {
        self.value.to_u64()
    }


    /// The decimal digit of the amount at weight `pow10(i)`.
    pub fn value_digit(&self, i: usize) -> (d: u8)
        ensures
            d as nat == (self@ / crate::biguint::pow10(i as nat)) % 10,
            d < 10,
    {
        self.value.value_digit(i)
    }

    /// The whole part and the remainder of the amount at scale `pow10(d)`.
    pub fn split_pow10(&self, d: usize) -> (r: (BigAmount, BigAmount))
        ensures
            r.0@ == self@ / crate::biguint::pow10(d as nat),
            r.1@ == self@ % crate::biguint::pow10(d as nat),
    {
        proof {
            use_type_invariant(self);
        }
        let divisor = BigUint::one().times_pow10(d);
        proof {
            crate::biguint::lemma_pow10_positive(d as nat);
        }
        let (q, rem) = self.value.div_rem(&divisor);
        proof {
            let p = crate::biguint::pow10(d as nat) as int;
            vstd::arithmetic::div_mod::lemma_div_is_ordered_by_denominator(self@ as int, 1, p);
            vstd::arithmetic::div_mod::lemma_div_basics_1(self@ as int);
            vstd::arithmetic::div_mod::lemma_mod_division_less_than_divisor(self@ as int, p);
            if p > self@ {
                vstd::arithmetic::div_mod::lemma_small_mod(self@, p as nat);
            } else {
                assert((self@ as int) % p < p <= self@ as int);
            }
        }
        (BigAmount { value: q }, BigAmount { value: rem })
    }


    /// The amount scaled by a proper fraction of small terms, truncating.
    pub fn mul_div_small(&self, factor: u32, divisor: u32) -> (r: BigAmount)
        requires
            0 < divisor <= 100_000_000,
            factor <= divisor,
        ensures
            r@ == (self@ * (factor as nat)) / (divisor as nat),
    {
        proof {
            use_type_invariant(self);
        }
        let scaled = self.value.times_small(factor);
        let d = BigUint::from_u64(divisor as u64);
        let (q, _rem) = scaled.div_rem(&d);
        proof {
            assert(self@ * factor <= self@ * divisor) by (nonlinear_arith)
                requires
                    factor <= divisor,
                    self@ >= 0,
            ;
            vstd::arithmetic::div_mod::lemma_div_is_ordered(
                (self@ * factor) as int,
                (self@ * divisor) as int,
                divisor as int,
            );
            vstd::arithmetic::div_mod::lemma_div_multiples_vanish(self@ as int, divisor as int);
            assert((divisor as int) * (self@ as int) == (self@ * divisor) as int)
                by (nonlinear_arith);
            assert(((self@ * divisor) as int) / (divisor as int) == self@ as int);
            assert(q@ <= self@);
        }
        BigAmount { value: q }
    }


    /// The amount as an unbounded value, for exact intermediate arithmetic.
    pub fn to_unbounded(&self) -> (r: BigUint)
        ensures
            r@ == self@,
    {
        self.value.duplicate()
    }

    /// The amount, parsed from a decimal numeral. `None` for an empty
    /// string, a non-digit character, or a value of 256 bits or more.
    pub fn from_dec_str(s: &str) -> (r: Option<BigAmount>)
        ensures
            r matches Some(v) ==> s@.len() > 0 && (forall|i: int|
                0 <= i < s@.len() ==> is_dec_digit(#[trigger] s@[i])) && v@ == dec_chars_value(s@)
                && dec_chars_value(s@) < amount_limit(),
            r is None <==> s@.len() == 0 || (exists|i: int|
                0 <= i < s@.len() && !is_dec_digit(#[trigger] s@[i])) || dec_chars_value(s@)
                >= amount_limit(),
    {
        broadcast use vstd::string::is_ascii_spec_bytes;

        if !s.is_ascii() {
            proof {
                let j = choose|j: int|
                    0 <= j < s@.len() && !('\0' <= #[trigger] s@[j] <= '\u{7f}');
                assert(!is_dec_digit(s@[j]));
            }
            return None;
        }
        let bytes = s.as_bytes_vec();
        let n = bytes.len();
        if n == 0 {
            return None;
        }
        let mut i: usize = 0;
        while i < n
            invariant
                i <= n,
                n == bytes@.len(),
                bytes@ == Seq::new(s@.len(), |k: int| s@[k] as u8),
                vstd::utf8::is_ascii_chars(s@),
                forall|k: int| 0 <= k < i ==> is_dec_digit(#[trigger] s@[k]),
            decreases n - i,
        {
            let b = bytes[i];
            if b < 48 || b > 57 {
                proof {
                    assert(s@[i as int] as u8 == b);
                    assert(!is_dec_digit(s@[i as int]));
                }
                return None;
            }
            proof {
                assert(s@[i as int] as u8 == b);
                assert('\0' <= s@[i as int] <= '\u{7f}');
                assert(is_dec_digit(s@[i as int]));
            }
            i = i + 1;
        }
        let v = BigUint::from_decimal_bytes(&bytes, 0, n);
        proof {
            assert(bytes@.subrange(0, n as int) =~= bytes@);
            assert(ascii_chars(bytes@) =~= s@);
        }
        let limit = Self::limit_value();
        if v.lt_value(&limit) {
            Some(BigAmount { value: v })
        } else {
            None
        }
    }

    /// The decimal numeral of the amount.
    pub fn to_dec_string(&self) -> (r: String)
        ensures
            r@ == nat_to_decimal(self@),
    {
        proof {
            use_type_invariant(self);
        }
        let bytes = self.value.to_decimal_bytes();
        string_from_ascii_bytes(bytes)
    }
}

} // verus!
