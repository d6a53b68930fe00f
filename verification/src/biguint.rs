//! Arbitrary-precision unsigned integers stored as little-endian decimal
//! digits.
//!
//! Every amount that flows through the engine is a mathematical natural
//! number; this module gives that number an executable representation whose
//! arithmetic is verified exactly against `nat` semantics. Decimal digits
//! were chosen as the base so that the decimal formatting and parsing the
//! conversion engine needs are plain structural operations on the same
//! representation.

use vstd::prelude::*;
use vstd::arithmetic::div_mod::{
    lemma_fundamental_div_mod_converse_div, lemma_fundamental_div_mod_converse_mod,
};
use vstd::arithmetic::power::{lemma_pow0, lemma_pow1, lemma_pow_adds, lemma_pow_positive, pow};

verus! {

/// 10 raised to `n`, the weight of the digit at position `n`.
pub open spec fn pow10(n: nat) -> nat {
    pow(10, n) as nat
}

/// Value of a little-endian sequence of decimal digits.
pub open spec fn digits_value(s: Seq<u8>) -> nat
    decreases s.len(),
{
    if s.len() == 0 {
        0
    } else {
        s[0] as nat + 10 * digits_value(s.skip(1))
    }
}

/// Every entry is a decimal digit.
pub open spec fn digits_bounded(s: Seq<u8>) -> bool {
    forall|i: int| 0 <= i < s.len() ==> s[i] < 10
}

/// Digits are bounded and carry no leading zero (stored last).
pub open spec fn digits_canonical(s: Seq<u8>) -> bool {
    digits_bounded(s) && (s.len() > 0 ==> s[s.len() - 1] != 0)
}

/// The digit at position `i`, reading positions past the end as zero.
pub open spec fn digit_at(s: Seq<u8>, i: int) -> u8 {
    if 0 <= i < s.len() {
        s[i]
    } else {
        0
    }
}

/// The first `i` digits, or all of them when fewer exist.
pub open spec fn clip_take(s: Seq<u8>, i: int) -> Seq<u8> {
    if i <= s.len() {
        s.take(i)
    } else {
        s
    }
}

/// Extending a clipped prefix by one position adds the digit's weighted
/// value.
pub proof fn lemma_clip_take_step(s: Seq<u8>, i: int)
    requires
        0 <= i,
    ensures
        digits_value(clip_take(s, i + 1)) == digits_value(clip_take(s, i)) + digit_at(s, i) * pow10(
            i as nat,
        ),
{
    if i < s.len() {
        assert(clip_take(s, i + 1) =~= s.take(i).push(s[i]));
        lemma_digits_value_push(s.take(i), s[i]);
        assert(s.take(i).len() == i);
    } else {
        assert(clip_take(s, i + 1) =~= s);
        assert(clip_take(s, i) =~= s);
        assert(digit_at(s, i) == 0);
    }
}

pub proof fn lemma_pow10_positive(n: nat)
    ensures
        pow10(n) >= 1,
{
    lemma_pow_positive(10, n);
}

pub proof fn lemma_pow10_adds(a: nat, b: nat)
    ensures
        pow10(a + b) == pow10(a) * pow10(b),
{
    lemma_pow_adds(10, a, b);
    lemma_pow_positive(10, a);
    lemma_pow_positive(10, b);
    assert(pow(10, a) * pow(10, b) == (pow(10, a) as nat) * (pow(10, b) as nat))
        by (nonlinear_arith)
        requires
            pow(10, a) >= 1,
            pow(10, b) >= 1,
    ;
}

/// A bounded digit string of length `n` denotes a value below `pow10(n)`.
pub proof fn lemma_digits_value_bound(s: Seq<u8>)
    requires
        digits_bounded(s),
    ensures
        digits_value(s) < pow10(s.len()),
    decreases s.len(),
{
    if s.len() == 0 {
        lemma_pow0(10);
        assert(pow10(0) == 1);
    } else {
        let t = s.skip(1);
        let p1 = pow10((s.len() - 1) as nat);
        lemma_digits_value_bound(t);
        lemma_pow10_adds(1, (s.len() - 1) as nat);
        lemma_pow1(10);
        assert(pow10(s.len()) == 10 * p1);
        assert(digits_value(t) <= p1 - 1);
        assert(10 * digits_value(t) <= 10 * (p1 - 1)) by (nonlinear_arith)
            requires
                digits_value(t) <= p1 - 1,
        ;
        assert(digits_value(s) == s[0] as nat + 10 * digits_value(t));
        assert(s[0] < 10);
        assert(digits_value(s) < pow10(s.len()));
    }
}

/// A canonical, non-empty digit string denotes at least the weight of its
/// highest digit.
pub proof fn lemma_digits_value_lower(s: Seq<u8>)
    requires
        digits_bounded(s),
        s.len() > 0,
        s[s.len() - 1] != 0,
    ensures
        digits_value(s) >= pow10((s.len() - 1) as nat),
    decreases s.len(),
{
    if s.len() == 1 {
        lemma_pow0(10);
    } else {
        let t = s.skip(1);
        assert(t[t.len() - 1] == s[s.len() - 1]);
        lemma_digits_value_lower(t);
        lemma_pow10_adds(1, (s.len() - 2) as nat);
        lemma_pow1(10);
        assert(10 * digits_value(t) >= 10 * pow10((s.len() - 2) as nat)) by (nonlinear_arith)
            requires
                digits_value(t) >= pow10((s.len() - 2) as nat),
        ;
    }
}

/// Appending a digit at the high end adds its weighted value.
pub proof fn lemma_digits_value_push(s: Seq<u8>, d: u8)
    ensures
        digits_value(s.push(d)) == digits_value(s) + d * pow10(s.len()),
    decreases s.len(),
{
    if s.len() == 0 {
        assert(s.push(d)[0] == d);
        assert(s.push(d).skip(1) =~= Seq::<u8>::empty());
        lemma_pow0(10);
        assert(pow10(0) == 1);
        assert(digits_value(Seq::<u8>::empty()) == 0);
        assert(digits_value(s) == 0);
        assert(digits_value(s.push(d)) == d as nat + 10 * digits_value(s.push(d).skip(1)));
        assert(digits_value(s.push(d)) == d as nat);
        assert(digits_value(s.push(d)) == digits_value(s) + d * pow10(s.len()));
    } else {
        let t = s.skip(1);
        let p1 = pow10((s.len() - 1) as nat);
        assert(s.push(d)[0] == s[0]);
        assert(s.push(d).skip(1) =~= t.push(d));
        assert(digits_value(s.push(d)) == s[0] as nat + 10 * digits_value(t.push(d)));
        lemma_digits_value_push(t, d);
        lemma_pow10_adds(1, (s.len() - 1) as nat);
        lemma_pow1(10);
        assert(pow10(s.len()) == 10 * p1);
        assert(10 * (digits_value(t) + d * p1) == 10 * digits_value(t) + d * (10 * p1))
            by (nonlinear_arith);
        assert(digits_value(s.push(d)) == s[0] as nat + 10 * digits_value(t) + d * (10 * p1));
        assert(digits_value(s) == s[0] as nat + 10 * digits_value(t));
        assert(digits_value(s.push(d)) == digits_value(s) + d * pow10(s.len()));
    }
}

/// Two equally long bounded digit strings that agree above position `i` and
/// differ in `i`'s favour compare accordingly.
pub proof fn lemma_digits_lex_lt(a: Seq<u8>, b: Seq<u8>, i: int)
    requires
        digits_bounded(a),
        digits_bounded(b),
        a.len() == b.len(),
        0 <= i < a.len(),
        a[i] < b[i],
        forall|j: int| i < j < a.len() ==> a[j] == b[j],
    ensures
        digits_value(a) < digits_value(b),
{
    let la = digits_value(a.take(i));
    let lb = digits_value(b.take(i));
    let ha = digits_value(a.skip(i));
    let hb = digits_value(b.skip(i));
    let p = pow10(i as nat);
    lemma_digits_value_split(a, i);
    lemma_digits_value_split(b, i);
    assert(digits_bounded(a.take(i)));
    assert(digits_bounded(b.take(i)));
    lemma_digits_value_bound(a.take(i));
    lemma_digits_value_bound(b.take(i));
    assert(pow10(a.take(i).len() as nat) == p);
    // The suffixes share a tail and differ only in their first digit.
    assert(a.skip(i)[0] == a[i]);
    assert(b.skip(i)[0] == b[i]);
    assert(a.skip(i).skip(1) =~= b.skip(i).skip(1));
    assert(ha == a[i] as nat + 10 * digits_value(a.skip(i).skip(1)));
    assert(hb == b[i] as nat + 10 * digits_value(b.skip(i).skip(1)));
    assert(ha < hb);
    assert(la + p * ha < p + p * ha);
    assert(p + p * ha == p * (1 + ha)) by (nonlinear_arith);
    assert(p * (1 + ha) <= p * hb) by (nonlinear_arith)
        requires
            1 + ha <= hb,
            p >= 0,
    ;
    assert(digits_value(a) == la + p * ha);
    assert(digits_value(b) == lb + p * hb);
}

/// Splitting a digit string at `k` splits its value at weight `pow10(k)`.
pub proof fn lemma_digits_value_split(s: Seq<u8>, k: int)
    requires
        0 <= k <= s.len(),
    ensures
        digits_value(s) == digits_value(s.take(k)) + pow10(k as nat) * digits_value(s.skip(k)),
    decreases k,
{
    if k == 0 {
        assert(s.take(0) =~= Seq::<u8>::empty());
        assert(s.skip(0) =~= s);
        lemma_pow0(10);
        assert(pow10(0) == 1);
        assert(digits_value(s.take(0)) == 0);
        let v = digits_value(s.skip(k));
        assert(v == digits_value(s));
        assert(pow10(k as nat) == 1);
        assert(pow10(k as nat) * v == v) by (nonlinear_arith)
            requires
                pow10(k as nat) == 1,
        ;
    } else {
        let t = s.skip(1);
        assert(s.len() > 0);
        assert(s.take(k)[0] == s[0]);
        assert(s.take(k).skip(1) =~= t.take(k - 1));
        assert(s.skip(k) =~= t.skip(k - 1));
        lemma_digits_value_split(t, k - 1);
        lemma_pow10_adds(1, (k - 1) as nat);
        lemma_pow1(10);
        let lo = digits_value(t.take(k - 1));
        let hi = digits_value(t.skip(k - 1));
        let pk1 = pow10((k - 1) as nat);
        assert(pow10(k as nat) == 10 * pk1);
        assert(digits_value(s) == s[0] as nat + 10 * (lo + pk1 * hi));
        assert(digits_value(s.take(k)) == s[0] as nat + 10 * lo);
        assert(10 * (lo + pk1 * hi) == 10 * lo + (10 * pk1) * hi) by (nonlinear_arith);
        assert((10 * pk1) * hi == pow10(k as nat) * hi);
        assert(digits_value(s) == digits_value(s.take(k)) + pow10(k as nat) * digits_value(
            s.skip(k),
        ));
    }
}

/// The character for one decimal digit value.
pub open spec fn digit_char(d: nat) -> char {
    ((48 + d) as u8) as char
}

/// Whether a character is a decimal digit.
pub open spec fn is_dec_digit(c: char) -> bool {
    48 <= c as int <= 57
}

/// The canonical decimal numeral of a natural number: no sign, no leading
/// zero, and `"0"` for zero.
pub open spec fn nat_to_decimal(v: nat) -> Seq<char>
    decreases v,
{
    if v < 10 {
        seq![digit_char(v)]
    } else {
        nat_to_decimal(v / 10).push(digit_char(v % 10))
    }
}

/// The value denoted by a string of decimal digit characters.
pub open spec fn dec_chars_value(s: Seq<char>) -> nat
    decreases s.len(),
{
    if s.len() == 0 {
        0
    } else {
        dec_chars_value(s.drop_last()) * 10 + (s.last() as int - 48) as nat
    }
}

/// Bytes read as the characters they encode; meaningful for ASCII bytes.
pub open spec fn ascii_chars(s: Seq<u8>) -> Seq<char> {
    Seq::new(s.len(), |i: int| s[i] as char)
}

/// A numeral is a non-empty digit string without a redundant leading zero.
pub open spec fn is_numeral(s: Seq<char>) -> bool {
    &&& s.len() > 0
    &&& forall|i: int| 0 <= i < s.len() ==> is_dec_digit(#[trigger] s[i])
    &&& (s.len() > 1 ==> s[0] != '0')
}

/// Reading back the canonical numeral of a value yields the value.
pub proof fn lemma_dec_chars_value_of_nat(v: nat)
    ensures
        dec_chars_value(nat_to_decimal(v)) == v,
        is_numeral(nat_to_decimal(v)),
    decreases v,
{
    if v < 10 {
        let s = nat_to_decimal(v);
        assert(s.len() == 1);
        assert(s.drop_last() =~= Seq::<char>::empty());
        assert(dec_chars_value(Seq::<char>::empty()) == 0);
        assert(dec_chars_value(s.drop_last()) == 0);
        assert(s.last() == digit_char(v));
        assert(digit_char(v) as int == 48 + v);
        assert(is_dec_digit(s[0]));
    } else {
        let q = v / 10;
        let r = v % 10;
        vstd::arithmetic::div_mod::lemma_fundamental_div_mod(v as int, 10);
        assert(q >= 1);
        lemma_dec_chars_value_of_nat(q);
        let front = nat_to_decimal(q);
        let s = nat_to_decimal(v);
        assert(s == front.push(digit_char(r)));
        assert(s.drop_last() =~= front);
        assert(s.last() == digit_char(r));
        assert(digit_char(r) as int == 48 + r);
        assert(dec_chars_value(s) == q * 10 + r);
        assert(s[0] == front[0]);
        assert(front[0] != '0' || front.len() == 1);
        if front.len() == 1 {
            assert(dec_chars_value(front) == q);
            assert(front.drop_last() =~= Seq::<char>::empty());
            assert(dec_chars_value(Seq::<char>::empty()) == 0);
            assert(dec_chars_value(front.drop_last()) == 0);
            assert(q == (front.last() as int - 48) as nat);
            assert(front[0] as int >= 49);
            assert(front[0] != '0');
        }
        assert(forall|i: int| 0 <= i < s.len() ==> is_dec_digit(#[trigger] s[i]));
    }
}

/// A numeral with a non-zero leading digit denotes a positive value.
pub proof fn lemma_numeral_positive(s: Seq<char>)
    requires
        s.len() > 0,
        forall|i: int| 0 <= i < s.len() ==> is_dec_digit(#[trigger] s[i]),
        s[0] != '0',
    ensures
        dec_chars_value(s) >= 1,
    decreases s.len(),
{
    if s.len() == 1 {
        assert(s.last() == s[0]);
        assert(s[0] as int != 48);
    } else {
        let front = s.drop_last();
        assert(front[0] == s[0]);
        lemma_numeral_positive(front);
        assert(dec_chars_value(s) >= dec_chars_value(front) * 10) by (nonlinear_arith)
            requires
                dec_chars_value(s) == dec_chars_value(front) * 10 + (s.last() as int - 48) as nat,
        ;
        assert(dec_chars_value(front) * 10 >= 10) by (nonlinear_arith)
            requires
                dec_chars_value(front) >= 1,
        ;
    }
}

/// The canonical numeral of a numeral's value is the numeral itself.
pub proof fn lemma_nat_to_decimal_of_numeral(s: Seq<char>)
    requires
        is_numeral(s),
    ensures
        nat_to_decimal(dec_chars_value(s)) == s,
    decreases s.len(),
{
    let v = dec_chars_value(s);
    if s.len() == 1 {
        assert(s.drop_last() =~= Seq::<char>::empty());
        assert(dec_chars_value(Seq::<char>::empty()) == 0);
        assert(dec_chars_value(s.drop_last()) == 0);
        assert(v == (s.last() as int - 48) as nat);
        assert(v < 10);
        assert(digit_char(v) == s[0]) by {
            assert(s.last() == s[0]);
            assert(48 <= s[0] as int <= 57);
        }
        assert(nat_to_decimal(v) =~= s);
    } else {
        let front = s.drop_last();
        let d = (s.last() as int - 48) as nat;
        assert(front.len() > 0);
        assert(forall|i: int| 0 <= i < front.len() ==> is_dec_digit(#[trigger] front[i]));
        assert(front[0] == s[0]);
        assert(front[0] != '0');
        lemma_numeral_positive(front);
        assert(is_numeral(front));
        lemma_nat_to_decimal_of_numeral(front);
        let q = dec_chars_value(front);
        assert(v == q * 10 + d);
        assert(q * 10 >= 10) by (nonlinear_arith)
            requires
                q >= 1,
        ;
        assert(v >= 10);
        lemma_fundamental_div_mod_converse_div(v as int, 10, q as int, d as int);
        lemma_fundamental_div_mod_converse_mod(v as int, 10, q as int, d as int);
        assert(v / 10 == q);
        assert(v % 10 == d);
        assert(nat_to_decimal(v) == nat_to_decimal(q).push(digit_char(d)));
        assert(digit_char(d) == s.last()) by {
            assert(48 <= s.last() as int <= 57);
        }
        assert(nat_to_decimal(v) =~= s);
    }
}


/// The canonical numeral of a canonical digit string is the string of its
/// digit characters, highest digit first.
pub proof fn lemma_nat_to_decimal_of_digits(s: Seq<u8>)
    requires
        digits_canonical(s),
        s.len() > 0,
    ensures
        nat_to_decimal(digits_value(s)) == Seq::new(
            s.len(),
            |i: int| digit_char(s[s.len() - 1 - i] as nat),
        ),
    decreases s.len(),
{
    let v = digits_value(s);
    let target = Seq::new(s.len(), |i: int| digit_char(s[s.len() - 1 - i] as nat));
    if s.len() == 1 {
        assert(s.skip(1) =~= Seq::<u8>::empty());
        assert(digits_value(s.skip(1)) == 0);
        assert(v == s[0] as nat);
        assert(v < 10);
        assert(nat_to_decimal(v) =~= target);
    } else {
        let t = s.skip(1);
        assert(t[t.len() - 1] == s[s.len() - 1]);
        assert(digits_canonical(t));
        let h = digits_value(t);
        lemma_digits_value_lower(t);
        lemma_pow10_positive((t.len() - 1) as nat);
        assert(h >= 1);
        assert(v == s[0] as nat + 10 * h);
        assert(v >= 10);
        lemma_fundamental_div_mod_converse_div(v as int, 10, h as int, s[0] as int);
        lemma_fundamental_div_mod_converse_mod(v as int, 10, h as int, s[0] as int);
        assert(v / 10 == h);
        assert(v % 10 == s[0] as nat);
        lemma_nat_to_decimal_of_digits(t);
        let front = Seq::new(t.len(), |i: int| digit_char(t[t.len() - 1 - i] as nat));
        assert(nat_to_decimal(v) == front.push(digit_char(s[0] as nat)));
        assert forall|j: int| 0 <= j < target.len() implies front.push(digit_char(s[0] as nat))[j]
            == target[j] by {
            if j < target.len() - 1 {
                assert(t[t.len() - 1 - j] == s[s.len() - 1 - j]);
            }
        }
        assert(nat_to_decimal(v) =~= target);
    }
}

/// An unsigned integer of any size, stored as little-endian decimal digits
/// with no leading zero. Its view is the `nat` it denotes.
#[derive(Debug, PartialEq, Eq)]
pub struct BigUint {
    digits: Vec<u8>,
}

impl View for BigUint {
    type V = nat;

    closed spec fn view(&self) -> nat {
        digits_value(self.digits@)
    }
}

impl BigUint {
    #[verifier::type_invariant]
    spec fn wf(self) -> bool {
        digits_canonical(self.digits@)
    }

    /// The number zero, an empty digit string.
    pub fn zero() -> (r: BigUint)
        ensures
            r@ == 0,
    {
        BigUint { digits: Vec::new() }
    }

    /// Drop high zero digits so that the digit string is canonical.
    fn from_raw(digits: Vec<u8>) -> (r: BigUint)
        requires
            digits_bounded(digits@),
        ensures
            r@ == digits_value(digits@),
    {
        let mut v = digits;
        let ghost full = v@;
        loop
            invariant_except_break
                digits_bounded(v@),
                digits_value(v@) == digits_value(full),
            ensures
                digits_canonical(v@),
                digits_value(v@) == digits_value(full),
            decreases v@.len(),
        {
            let n = v.len();
            if n == 0 {
                break ;
            }
            if v[n - 1] != 0 {
                break ;
            }
            proof {
                assert(v@.take(n - 1).push(v@[n as int - 1]) =~= v@);
                lemma_digits_value_push(v@.take(n - 1), v@[n as int - 1]);
                assert(digits_value(v@) == digits_value(v@.take(n - 1)));
            }
            v.pop();
        }
        BigUint { digits: v }
    }

    /// An exact copy.
    pub fn duplicate(&self) -> (r: BigUint)
        ensures
            r@ == self@,
    {
        proof {
            use_type_invariant(self);
        }
        let mut v: Vec<u8> = Vec::new();
        let mut i: usize = 0;
        let n = self.digits.len();
        while i < n
            invariant
                i <= n,
                n == self.digits@.len(),
                v@ =~= self.digits@.take(i as int),
                digits_canonical(self.digits@),
            decreases n - i,
        {
            v.push(self.digits[i]);
            proof {
                assert(v@ =~= self.digits@.take(i + 1));
            }
            i = i + 1;
        }
        proof {
            assert(v@ =~= self.digits@);
        }
        BigUint { digits: v }
    }

    /// Whether the value is zero; only the empty digit string denotes zero.
    pub fn is_zero(&self) -> (r: bool)
        ensures
            r == (self@ == 0),
    {
        proof {
            use_type_invariant(self);
            if self.digits@.len() > 0 {
                lemma_digits_value_lower(self.digits@);
                lemma_pow10_positive((self.digits@.len() - 1) as nat);
            }
        }
        self.digits.len() == 0
    }

    /// Build a value from a machine word.
    pub fn from_u64(value: u64) -> (r: BigUint)
        ensures
            r@ == value,
    {
        let mut v: Vec<u8> = Vec::new();
        let mut rest: u64 = value;
        proof {
            lemma_pow0(10);
            assert(pow10(0) == 1);
            assert(digits_value(v@) == 0);
        }
        loop
            invariant_except_break
                digits_bounded(v@),
                digits_value(v@) + rest * pow10(v@.len()) == value,
            ensures
                digits_bounded(v@),
                digits_value(v@) == value,
            decreases rest,
        {
            if rest == 0 {
                break ;
            }
            let d: u8 = (rest % 10) as u8;
            let next: u64 = rest / 10;
            proof {
                lemma_digits_value_push(v@, d);
                lemma_pow10_adds(v@.len(), 1);
                lemma_pow1(10);
                lemma_pow10_positive(v@.len());
                assert(rest == 10 * next + d);
                assert(rest * pow10(v@.len()) == (10 * next + d) * pow10(v@.len()));
                assert((10 * next + d) * pow10(v@.len()) == d * pow10(v@.len()) + next * (pow10(
                    v@.len(),
                ) * 10)) by (nonlinear_arith);
            }
            v.push(d);
            rest = next;
        }
        Self::from_raw(v)
    }

    /// Strictly-less comparison of the denoted values.
    pub fn lt_value(&self, other: &BigUint) -> (r: bool)
        ensures
            r == (self@ < other@),
    {
        proof {
            use_type_invariant(self);
            use_type_invariant(other);
        }
        let an = self.digits.len();
        let bn = other.digits.len();
        if an != bn {
            proof {
                let a = self.digits@;
                let b = other.digits@;
                lemma_digits_value_bound(a);
                lemma_digits_value_bound(b);
                if an < bn {
                    lemma_digits_value_lower(b);
                    vstd::arithmetic::power::lemma_pow_increases(10, a.len(), (b.len() - 1) as nat);
                    lemma_pow_positive(10, a.len());
                    lemma_pow_positive(10, (b.len() - 1) as nat);
                    assert(pow10(a.len()) <= pow10((b.len() - 1) as nat));
                    assert(digits_value(a) < pow10(a.len()));
                    assert(pow10((b.len() - 1) as nat) <= digits_value(b));
                    assert(digits_value(a) < digits_value(b));
                } else {
                    lemma_digits_value_lower(a);
                    vstd::arithmetic::power::lemma_pow_increases(10, b.len(), (a.len() - 1) as nat);
                    lemma_pow_positive(10, b.len());
                    lemma_pow_positive(10, (a.len() - 1) as nat);
                    assert(pow10(b.len()) <= pow10((a.len() - 1) as nat));
                    assert(digits_value(b) < pow10(b.len()));
                    assert(pow10((a.len() - 1) as nat) <= digits_value(a));
                    assert(digits_value(b) < digits_value(a));
                }
            }
            return an < bn;
        }
        let mut i: usize = an;
        while i > 0
            invariant
                i <= an,
                an == bn,
                an == self.digits@.len(),
                bn == other.digits@.len(),
                digits_canonical(self.digits@),
                digits_canonical(other.digits@),
                forall|j: int| i <= j < an ==> self.digits@[j] == other.digits@[j],
            decreases i,
        {
            i = i - 1;
            let da = self.digits[i];
            let db = other.digits[i];
            if da < db {
                proof {
                    lemma_digits_lex_lt(self.digits@, other.digits@, i as int);
                }
                return true;
            }
            if db < da {
                proof {
                    lemma_digits_lex_lt(other.digits@, self.digits@, i as int);
                }
                return false;
            }
        }
        proof {
            assert(self.digits@ =~= other.digits@);
        }
        false
    }

    /// The digits, copied into a fresh vector.
    fn copy_digits(&self) -> (v: Vec<u8>)
        ensures
            v@ == self.digits@,
    {
        let mut v: Vec<u8> = Vec::new();
        let mut i: usize = 0;
        let n = self.digits.len();
        while i < n
            invariant
                i <= n,
                n == self.digits@.len(),
                v@ =~= self.digits@.take(i as int),
            decreases n - i,
        {
            v.push(self.digits[i]);
            proof {
                assert(v@ =~= self.digits@.take(i + 1));
            }
            i = i + 1;
        }
        proof {
            assert(v@ =~= self.digits@);
        }
        v
    }

    /// The digit at position `i`, taking positions past the end as zero.
    fn digit_or_zero(&self, i: usize) -> (d: u8)
        ensures
            d == digit_at(self.digits@, i as int),
            d < 10,
    {
        proof {
            use_type_invariant(self);
        }
        if i < self.digits.len() {
            self.digits[i]
        } else {
            0
        }
    }

    /// Sum of the two denoted values.
    pub fn plus(&self, other: &BigUint) -> (r: BigUint)
        ensures
            r@ == self@ + other@,
    {
        proof {
            use_type_invariant(self);
            use_type_invariant(other);
        }
        let a = &self.digits;
        let b = &other.digits;
        let ghost av = a@;
        let ghost bv = b@;
        let an = a.len();
        let bn = b.len();
        let n = if an < bn {
            bn
        } else {
            an
        };
        let mut out: Vec<u8> = Vec::new();
        let mut carry: u8 = 0;
        let mut i: usize = 0;
        proof {
            lemma_pow0(10);
            assert(pow10(0) == 1);
            assert(clip_take(av, 0) =~= Seq::<u8>::empty());
            assert(clip_take(bv, 0) =~= Seq::<u8>::empty());
        }
        while i < n
            invariant
                i <= n,
                n == if av.len() < bv.len() {
                    bv.len()
                } else {
                    av.len()
                },
                av == self.digits@,
                bv == other.digits@,
                digits_bounded(av),
                digits_bounded(bv),
                carry <= 1,
                out@.len() == i,
                digits_bounded(out@),
                digits_value(out@) + carry * pow10(i as nat) == digits_value(clip_take(av, i as int))
                    + digits_value(clip_take(bv, i as int)),
            decreases n - i,
        {
            let da = self.digit_or_zero(i);
            let db = other.digit_or_zero(i);
            let sum: u8 = da + db + carry;
            let dig: u8 = sum % 10;
            let nc: u8 = sum / 10;
            proof {
                let p = pow10(i as nat);
                lemma_clip_take_step(av, i as int);
                lemma_clip_take_step(bv, i as int);
                lemma_digits_value_push(out@, dig);
                lemma_pow10_adds(i as nat, 1);
                lemma_pow1(10);
                assert(pow10(i as nat + 1) == p * 10);
                assert(sum == dig + 10 * nc);
                assert(digits_value(out@.push(dig)) + nc * (p * 10) == digits_value(out@) + (dig
                    + 10 * nc) * p) by (nonlinear_arith)
                    requires
                        digits_value(out@.push(dig)) == digits_value(out@) + dig * p,
                ;
                assert((da + db + carry) * p == da * p + db * p + carry * p) by (nonlinear_arith);
            }
            out.push(dig);
            carry = nc;
            i = i + 1;
        }
        proof {
            assert(clip_take(av, n as int) =~= av);
            assert(clip_take(bv, n as int) =~= bv);
        }
        if carry != 0 {
            proof {
                lemma_digits_value_push(out@, carry);
            }
            out.push(carry);
        }
        Self::from_raw(out)
    }

    /// Difference of the denoted values; the subtrahend must not exceed the
    /// minuend.
    pub fn minus(&self, other: &BigUint) -> (r: BigUint)
        requires
            other@ <= self@,
        ensures
            r@ == self@ - other@,
    {
        proof {
            use_type_invariant(self);
            use_type_invariant(other);
        }
        let a = &self.digits;
        let b = &other.digits;
        let ghost av = a@;
        let ghost bv = b@;
        let an = a.len();
        let bn = b.len();
        proof {
            if bv.len() > av.len() {
                lemma_digits_value_bound(av);
                lemma_digits_value_lower(bv);
                vstd::arithmetic::power::lemma_pow_increases(10, av.len(), (bv.len() - 1) as nat);
                lemma_pow_positive(10, av.len());
                lemma_pow_positive(10, (bv.len() - 1) as nat);
                assert(false);
            }
        }
        let mut out: Vec<u8> = Vec::new();
        let mut borrow: u8 = 0;
        let mut i: usize = 0;
        proof {
            lemma_pow0(10);
            assert(pow10(0) == 1);
            assert(clip_take(bv, 0) =~= Seq::<u8>::empty());
            assert(av.take(0) =~= Seq::<u8>::empty());
        }
        while i < an
            invariant
                i <= an,
                an == av.len(),
                bv.len() <= av.len(),
                av == self.digits@,
                bv == other.digits@,
                digits_bounded(av),
                digits_bounded(bv),
                borrow <= 1,
                out@.len() == i,
                digits_bounded(out@),
                digits_value(out@) as int == digits_value(av.take(i as int)) - digits_value(
                    clip_take(bv, i as int),
                ) + (borrow as int) * pow10(i as nat),
            decreases an - i,
        {
            let da = self.digits[i];
            let db = other.digit_or_zero(i);
            proof {
                assert(da < 10);
            }
            let need: u8 = db + borrow;
            let (dig, nb): (u8, u8) = if da >= need {
                (da - need, 0)
            } else {
                (da + 10 - need, 1)
            };
            proof {
                let p = pow10(i as nat);
                lemma_clip_take_step(bv, i as int);
                assert(av.take(i as int).push(av[i as int]) =~= av.take(i + 1));
                lemma_digits_value_push(av.take(i as int), av[i as int]);
                lemma_digits_value_push(out@, dig);
                lemma_pow10_adds(i as nat, 1);
                lemma_pow1(10);
                assert(pow10(i as nat + 1) == p * 10);
                assert(dig as int == da - db - borrow + 10 * (nb as int));
                assert((dig as int) * p == (da as int) * p - (db as int) * p - (borrow as int) * p
                    + (nb as int) * (10 * p)) by (nonlinear_arith)
                    requires
                        dig as int == da - db - borrow + 10 * (nb as int),
                ;
                assert((nb as int) * (p * 10) == (nb as int) * (10 * p)) by (nonlinear_arith);
            }
            out.push(dig);
            borrow = nb;
            i = i + 1;
        }
        proof {
            assert(av.take(an as int) =~= av);
            assert(clip_take(bv, an as int) =~= bv);
            if borrow != 0 {
                lemma_digits_value_bound(out@);
                assert(digits_value(out@) as int == digits_value(av) - digits_value(bv) + pow10(
                    an as nat,
                ));
                assert(false);
            }
        }
        Self::from_raw(out)
    }

    /// Product with a small factor.
    pub fn times_small(&self, m: u32) -> (r: BigUint)
        requires
            m <= 100_000_000,
        ensures
            r@ == self@ * m,
    {
        proof {
            use_type_invariant(self);
        }
        let a = &self.digits;
        let ghost av = a@;
        let an = a.len();
        let mut out: Vec<u8> = Vec::new();
        let mut carry: u32 = 0;
        let mut i: usize = 0;
        proof {
            lemma_pow0(10);
            assert(pow10(0) == 1);
            assert(av.take(0) =~= Seq::<u8>::empty());
            assert(digits_value(av.take(0)) == 0);
            assert(digits_value(av.take(0)) * m == 0) by (nonlinear_arith)
                requires
                    digits_value(av.take(0)) == 0,
            ;
        }
        while i < an
            invariant
                i <= an,
                an == av.len(),
                av == self.digits@,
                digits_bounded(av),
                carry <= m,
                m <= 100_000_000,
                out@.len() == i,
                digits_bounded(out@),
                digits_value(out@) + carry * pow10(i as nat) == digits_value(av.take(i as int))
                    * m,
            decreases an - i,
        {
            let da = self.digits[i];
            proof {
                assert(da < 10);
                assert((da as int) * (m as int) <= 900_000_000) by (nonlinear_arith)
                    requires
                        da < 10,
                        m <= 100_000_000,
                ;
            }
            let t: u32 = (da as u32) * m + carry;
            let dig: u8 = (t % 10) as u8;
            let nc: u32 = t / 10;
            proof {
                let p = pow10(i as nat);
                assert(av.take(i as int).push(av[i as int]) =~= av.take(i + 1));
                lemma_digits_value_push(av.take(i as int), av[i as int]);
                lemma_digits_value_push(out@, dig);
                lemma_pow10_adds(i as nat, 1);
                lemma_pow1(10);
                assert(pow10(i as nat + 1) == p * 10);
                assert(t == dig + 10 * nc);
                assert(nc <= m) by (nonlinear_arith)
                    requires
                        t == (da as u32) * m + carry,
                        nc == t / 10,
                        da <= 9,
                        carry <= m,
                ;
                assert((digits_value(av.take(i as int)) + da * p) * m == digits_value(av.take(
                    i as int,
                )) * m + (da as nat * m) * p) by (nonlinear_arith);
                assert(digits_value(out@.push(dig)) + nc * (p * 10) == digits_value(out@) + (
                dig as nat + 10 * nc) * p) by (nonlinear_arith)
                    requires
                        digits_value(out@.push(dig)) == digits_value(out@) + dig * p,
                ;
                assert(dig as nat + 10 * nc == da as nat * m + carry);
                assert((da as nat * m + carry) * p == (da as nat * m) * p + carry * p)
                    by (nonlinear_arith);
            }
            out.push(dig);
            carry = nc;
            i = i + 1;
        }
        proof {
            assert(av.take(an as int) =~= av);
        }
        while carry > 0
            invariant
                digits_bounded(out@),
                digits_value(out@) + carry * pow10(out@.len()) == digits_value(av) * m,
            decreases carry,
        {
            let dig: u8 = (carry % 10) as u8;
            let nc: u32 = carry / 10;
            proof {
                let p = pow10(out@.len());
                lemma_digits_value_push(out@, dig);
                lemma_pow10_adds(out@.len(), 1);
                lemma_pow1(10);
                assert(pow10(out@.len() + 1) == p * 10);
                assert(carry == dig + 10 * nc);
                assert(digits_value(out@.push(dig)) + nc * (p * 10) == digits_value(out@) + (
                dig as nat + 10 * nc) * p) by (nonlinear_arith)
                    requires
                        digits_value(out@.push(dig)) == digits_value(out@) + dig * p,
                ;
            }
            out.push(dig);
            carry = nc;
        }
        Self::from_raw(out)
    }

    /// Ten times the value plus a final low digit.
    pub fn times10_plus(&self, d: u8) -> (r: BigUint)
        requires
            d < 10,
        ensures
            r@ == self@ * 10 + d,
    {
        proof {
            use_type_invariant(self);
        }
        let mut v = self.copy_digits();
        v.insert(0, d);
        proof {
            assert(v@[0] == d);
            assert(v@.skip(1) =~= self.digits@);
            assert(digits_value(v@) == d + 10 * self@);
        }
        Self::from_raw(v)
    }

    /// The value scaled by `pow10(k)`.
    pub fn times_pow10(&self, k: usize) -> (r: BigUint)
        ensures
            r@ == self@ * pow10(k as nat),
    {
        let mut r = self.duplicate();
        let mut j: usize = 0;
        proof {
            lemma_pow0(10);
            assert(pow10(0) == 1);
            assert(self@ * pow10(0) == self@) by (nonlinear_arith)
                requires
                    pow10(0) == 1,
            ;
        }
        while j < k
            invariant
                j <= k,
                r@ == self@ * pow10(j as nat),
            decreases k - j,
        {
            let next = r.times10_plus(0);
            proof {
                lemma_pow10_adds(j as nat, 1);
                lemma_pow1(10);
                assert((self@ * pow10(j as nat)) * 10 == self@ * (pow10(j as nat) * 10))
                    by (nonlinear_arith);
            }
            r = next;
            j = j + 1;
        }
        r
    }

    /// Product of the denoted values.
    pub fn times(&self, other: &BigUint) -> (r: BigUint)
        ensures
            r@ == self@ * other@,
    {
        proof {
            use_type_invariant(self);
            use_type_invariant(other);
        }
        let ghost bv = other.digits@;
        let mut r = BigUint::zero();
        let mut i: usize = other.digits.len();
        proof {
            assert(bv.skip(i as int) =~= Seq::<u8>::empty());
            assert(digits_value(bv.skip(i as int)) == 0);
            assert(self@ * digits_value(bv.skip(i as int)) == 0) by (nonlinear_arith)
                requires
                    digits_value(bv.skip(i as int)) == 0,
            ;
        }
        while i > 0
            invariant
                i <= bv.len(),
                bv == other.digits@,
                digits_bounded(bv),
                r@ == self@ * digits_value(bv.skip(i as int)),
            decreases i,
        {
            i = i - 1;
            let d = other.digits[i];
            let shifted = r.times10_plus(0);
            let term = self.times_small(d as u32);
            let next = shifted.plus(&term);
            proof {
                let hi = digits_value(bv.skip(i as int + 1));
                assert(bv.skip(i as int)[0] == bv[i as int]);
                assert(bv.skip(i as int).skip(1) =~= bv.skip(i as int + 1));
                assert(digits_value(bv.skip(i as int)) == bv[i as int] as nat + 10 * hi);
                assert((self@ * hi) * 10 + self@ * (bv[i as int] as nat) == self@ * (bv[i as int]
                    as nat + 10 * hi)) by (nonlinear_arith);
            }
            r = next;
        }
        proof {
            assert(bv.skip(0) =~= bv);
        }
        r
    }

    /// Quotient and remainder of the denoted values.
    pub fn div_rem(&self, divisor: &BigUint) -> (qr: (BigUint, BigUint))
        requires
            divisor@ > 0,
        ensures
            qr.0@ == self@ / divisor@,
            qr.1@ == self@ % divisor@,
    {
        proof {
            use_type_invariant(self);
            use_type_invariant(divisor);
        }
        let ghost av = self.digits@;
        let mut q = BigUint::zero();
        let mut rem = BigUint::zero();
        let mut i: usize = self.digits.len();
        proof {
            assert(av.skip(i as int) =~= Seq::<u8>::empty());
        }
        while i > 0
            invariant
                i <= av.len(),
                av == self.digits@,
                digits_bounded(av),
                divisor@ > 0,
                rem@ < divisor@,
                q@ * divisor@ + rem@ == digits_value(av.skip(i as int)),
            decreases i,
        {
            i = i - 1;
            let d = self.digits[i];
            let mut acc = rem.times10_plus(d);
            let ghost acc0 = acc@;
            proof {
                assert(av.skip(i as int)[0] == av[i as int]);
                assert(av.skip(i as int).skip(1) =~= av.skip(i as int + 1));
                assert(digits_value(av.skip(i as int)) == av[i as int] as nat + 10 * digits_value(
                    av.skip(i as int + 1),
                ));
                assert(acc@ < 10 * divisor@) by (nonlinear_arith)
                    requires
                        acc@ == rem@ * 10 + d,
                        rem@ < divisor@,
                        d < 10,
                        divisor@ > 0,
                ;
            }
            let mut qd: u8 = 0;
            while !acc.lt_value(divisor)
                invariant
                    divisor@ > 0,
                    acc@ + qd * divisor@ == acc0,
                    acc0 < 10 * divisor@,
                    qd <= 10,
                decreases acc@,
            {
                let next = acc.minus(divisor);
                proof {
                    assert((qd + 1) * divisor@ == qd * divisor@ + divisor@) by (nonlinear_arith);
                    assert(qd < 10) by (nonlinear_arith)
                        requires
                            acc@ + qd * divisor@ == acc0,
                            acc0 < 10 * divisor@,
                            acc@ >= divisor@,
                            divisor@ > 0,
                    ;
                }
                acc = next;
                qd = qd + 1;
            }
            proof {
                assert(qd < 10) by (nonlinear_arith)
                    requires
                        acc@ + qd * divisor@ == acc0,
                        acc0 < 10 * divisor@,
                        acc@ >= 0,
                        divisor@ > 0,
                        qd <= 10,
                ;
            }
            let ghost qo = q@;
            let ghost ro = rem@;
            let ghost hi = digits_value(av.skip(i as int + 1));
            let nq = q.times10_plus(qd);
            proof {
                assert(qo * divisor@ + ro == hi);
                assert(acc@ + qd * divisor@ == ro * 10 + d);
                assert((qo * 10 + qd) * divisor@ + acc@ == 10 * (qo * divisor@ + ro) + d)
                    by (nonlinear_arith)
                    requires
                        acc@ + qd * divisor@ == ro * 10 + d,
                ;
                assert(nq@ * divisor@ + acc@ == d as nat + 10 * hi);
            }
            q = nq;
            rem = acc;
        }
        proof {
            assert(av.skip(0) =~= av);
            lemma_fundamental_div_mod_converse_div(self@ as int, divisor@ as int, q@ as int, rem@ as int);
            lemma_fundamental_div_mod_converse_mod(self@ as int, divisor@ as int, q@ as int, rem@ as int);
        }
        (q, rem)
    }


    /// The number one.
    pub fn one() -> (r: BigUint)
        ensures
            r@ == 1,
    {
        Self::from_u64(1)
    }

    /// 2 raised to `n`, built by repeated doubling.
    pub fn pow2_value(n: usize) -> (r: BigUint)
        ensures
            r@ == vstd::arithmetic::power2::pow2(n as nat),
    {
        let mut r = Self::one();
        let mut j: usize = 0;
        proof {
            vstd::arithmetic::power::lemma_pow0(2);
            assert(vstd::arithmetic::power2::pow2(0) == 1);
        }
        while j < n
            invariant
                j <= n,
                r@ == vstd::arithmetic::power2::pow2(j as nat),
            decreases n - j,
        {
            let next = r.times_small(2);
            proof {
                vstd::arithmetic::power::lemma_pow_adds(2, j as nat, 1);
                vstd::arithmetic::power::lemma_pow1(2);
                vstd::arithmetic::power::lemma_pow_positive(2, j as nat);
                assert(pow(2, j as nat + 1) == pow(2, j as nat) * 2);
                assert(vstd::arithmetic::power2::pow2(j as nat + 1) == vstd::arithmetic::power2::pow2(
                    j as nat,
                ) * 2);
            }
            r = next;
            j = j + 1;
        }
        r
    }

    /// The decimal numeral of the value, as ASCII digit bytes.
    pub fn to_decimal_bytes(&self) -> (r: Vec<u8>)
        ensures
            ascii_chars(r@) == nat_to_decimal(self@),
            r@.len() >= 1,
            forall|i: int| 0 <= i < r@.len() ==> 48 <= #[trigger] r@[i] <= 57,
    {
        proof {
            use_type_invariant(self);
        }
        let n = self.digits.len();
        let mut out: Vec<u8> = Vec::new();
        if n == 0 {
            out.push(48);
            proof {
                assert(self@ == 0);
                assert(nat_to_decimal(0) == seq![digit_char(0)]);
                assert(ascii_chars(out@) =~= nat_to_decimal(self@));
            }
            return out;
        }
        let mut i: usize = n;
        while i > 0
            invariant
                i <= n,
                n == self.digits@.len(),
                digits_canonical(self.digits@),
                out@.len() == n - i,
                forall|j: int|
                    0 <= j < out@.len() ==> #[trigger] out@[j] == 48 + self.digits@[n - 1 - j],
            decreases i,
        {
            i = i - 1;
            let d = self.digits[i];
            proof {
                assert(d < 10);
            }
            out.push(48 + d);
        }
        proof {
            lemma_nat_to_decimal_of_digits(self.digits@);
            let target = Seq::new(
                self.digits@.len(),
                |j: int| digit_char(self.digits@[self.digits@.len() - 1 - j] as nat),
            );
            assert forall|j: int| 0 <= j < out@.len() implies ascii_chars(out@)[j] == target[j] by {
                assert(out@[j] == 48 + self.digits@[n - 1 - j]);
            }
            assert(ascii_chars(out@) =~= target);
        }
        out
    }

    /// The value denoted by a range of ASCII digit bytes, highest digit
    /// first.
    pub fn from_decimal_bytes(bytes: &Vec<u8>, start: usize, end: usize) -> (r: BigUint)
        requires
            start <= end <= bytes@.len(),
            forall|i: int| start <= i < end ==> 48 <= #[trigger] bytes@[i] <= 57,
        ensures
            r@ == dec_chars_value(ascii_chars(bytes@.subrange(start as int, end as int))),
    {
        let mut acc = Self::zero();
        let mut i: usize = start;
        proof {
            assert(bytes@.subrange(start as int, start as int) =~= Seq::<u8>::empty());
            assert(ascii_chars(bytes@.subrange(start as int, start as int)) =~= Seq::<
                char,
            >::empty());
        }
        while i < end
            invariant
                start <= i <= end,
                end <= bytes@.len(),
                forall|k: int| start <= k < end ==> 48 <= #[trigger] bytes@[k] <= 57,
                acc@ == dec_chars_value(ascii_chars(bytes@.subrange(start as int, i as int))),
            decreases end - i,
        {
            let b = bytes[i];
            let next = acc.times10_plus(b - 48);
            proof {
                let prev = ascii_chars(bytes@.subrange(start as int, i as int));
                let cur = ascii_chars(bytes@.subrange(start as int, i as int + 1));
                assert(cur.drop_last() =~= prev);
                assert(cur.last() == bytes@[i as int] as char);
                assert((bytes@[i as int] as char) as int == bytes@[i as int] as int);
                assert(dec_chars_value(cur) == dec_chars_value(prev) * 10 + (bytes@[i as int] as int
                    - 48) as nat);
            }
            acc = next;
            i = i + 1;
        }
        proof {
            assert(bytes@.subrange(start as int, end as int) =~= bytes@.subrange(
                start as int,
                end as int,
            ));
        }
        acc
    }


    /// The value as a machine word; it must fit.
    pub fn to_u64(&self) -> (r: u64)
        requires
            self@ <= u64::MAX,
        ensures
            r == self@,
    {
        proof {
            use_type_invariant(self);
        }
        let ghost av = self.digits@;
        let mut acc: u64 = 0;
        let mut i: usize = self.digits.len();
        proof {
            assert(av.skip(i as int) =~= Seq::<u8>::empty());
        }
        while i > 0
            invariant
                i <= av.len(),
                av == self.digits@,
                digits_bounded(av),
                digits_value(av) <= u64::MAX,
                acc == digits_value(av.skip(i as int)),
            decreases i,
        {
            i = i - 1;
            let d = self.digits[i];
            proof {
                assert(d < 10);
                assert(av.skip(i as int)[0] == av[i as int]);
                assert(av.skip(i as int).skip(1) =~= av.skip(i as int + 1));
                assert(digits_value(av.skip(i as int)) == av[i as int] as nat + 10 * digits_value(
                    av.skip(i as int + 1),
                ));
                lemma_digits_value_split(av, i as int);
                lemma_pow10_positive(i as nat);
                assert(digits_value(av.skip(i as int)) <= pow10(i as nat) * digits_value(
                    av.skip(i as int),
                )) by (nonlinear_arith)
                    requires
                        pow10(i as nat) >= 1,
                ;
                assert(digits_value(av.skip(i as int)) <= digits_value(av));
            }
            acc = acc * 10 + (d as u64);
        }
        proof {
            assert(av.skip(0) =~= av);
        }
        acc
    }


    /// The decimal digit of the value at weight `pow10(i)`.
    pub fn value_digit(&self, i: usize) -> (d: u8)
        ensures
            d as nat == (self@ / pow10(i as nat)) % 10,
            d < 10,
    {
        proof {
            use_type_invariant(self);
            let av = self.digits@;
            lemma_digits_value_split(av, if i <= av.len() { i as int } else { av.len() as int });
            lemma_pow10_positive(i as nat);
            if (i as int) < av.len() {
                let lo = digits_value(av.take(i as int));
                let hi = digits_value(av.skip(i as int));
                assert(digits_bounded(av.take(i as int)));
                lemma_digits_value_bound(av.take(i as int));
                assert(pow10(av.take(i as int).len() as nat) == pow10(i as nat));
                assert(lo < pow10(i as nat));
                assert(self@ == lo + pow10(i as nat) * hi);
                assert(pow10(i as nat) * hi == hi * pow10(i as nat)) by (nonlinear_arith);
                assert(self@ as int == (hi as int) * (pow10(i as nat) as int) + lo as int);
                lemma_fundamental_div_mod_converse_div(
                    self@ as int,
                    pow10(i as nat) as int,
                    hi as int,
                    lo as int,
                );
                assert(self@ / pow10(i as nat) == hi);
                assert(av.skip(i as int)[0] == av[i as int]);
                assert(av.skip(i as int).skip(1) =~= av.skip(i as int + 1));
                assert(hi == av[i as int] as nat + 10 * digits_value(av.skip(i as int + 1)));
                lemma_fundamental_div_mod_converse_mod(
                    hi as int,
                    10,
                    digits_value(av.skip(i as int + 1)) as int,
                    av[i as int] as int,
                );
                assert(hi % 10 == av[i as int] as nat);
            } else {
                lemma_digits_value_bound(av);
                vstd::arithmetic::power::lemma_pow_increases(10, av.len(), i as nat);
                lemma_pow_positive(10, av.len());
                lemma_pow_positive(10, i as nat);
                assert(digits_value(av) < pow10(i as nat));
                vstd::arithmetic::div_mod::lemma_basic_div(self@ as int, pow10(i as nat) as int);
                assert(self@ / pow10(i as nat) == 0);
                vstd::arithmetic::div_mod::lemma_small_mod(0, 10);
            }
        }
        if i < self.digits.len() {
            self.digits[i]
        } else {
            0
        }
    }

    /// Less-or-equal comparison of the denoted values.
    pub fn le_value(&self, other: &BigUint) -> (r: bool)
        ensures
            r == (self@ <= other@),
    {
        !other.lt_value(self)
    }

}

} // verus!
