//! Fixed-point conversion between integer token amounts and decimal
//! strings.
//!
//! A token fixes a decimal count `d`; its smallest-unit amounts relate to
//! human-readable quantities by the scale factor `pow10(d)`. Formatting
//! splits an amount at that scale and trims trailing fractional zeros;
//! parsing accepts a signless decimal numeral with at most `d` fractional
//! digits and never loses precision.

use vstd::prelude::*;
use crate::amount::{amount_limit, BigAmount};
use crate::biguint::{
    ascii_chars, dec_chars_value, digit_char, is_dec_digit, nat_to_decimal, pow10, BigUint,
};
use crate::errors::UniswapError;
use crate::text::string_from_ascii_bytes;

verus! {

/// Every character is a decimal digit.
pub open spec fn all_digits(s: Seq<char>) -> bool {
    forall|i: int| 0 <= i < s.len() ==> is_dec_digit(#[trigger] s[i])
}

/// The index of the first decimal point, if any.
pub open spec fn find_dot(s: Seq<char>) -> Option<int>
    decreases s.len(),
{
    if s.len() == 0 {
        None
    } else if s[0] == '.' {
        Some(0)
    } else {
        match find_dot(s.skip(1)) {
            None => None,
            Some(i) => Some(i + 1),
        }
    }
}

/// `find_dot` points at the first decimal point.
pub proof fn lemma_find_dot_spec(s: Seq<char>)
    ensures
        find_dot(s) matches Some(i) ==> 0 <= i < s.len() && s[i] == '.' && (forall|k: int|
            0 <= k < i ==> s[k] != '.'),
        find_dot(s) is None ==> forall|k: int| 0 <= k < s.len() ==> s[k] != '.',
    decreases s.len(),
{
    if s.len() == 0 {
    } else if s[0] == '.' {
    } else {
        lemma_find_dot_spec(s.skip(1));
        match find_dot(s.skip(1)) {
            None => {
                assert forall|k: int| 0 <= k < s.len() implies s[k] != '.' by {
                    if k > 0 {
                        assert(s.skip(1)[k - 1] != '.');
                    }
                }
            },
            Some(i) => {
                assert(s.skip(1)[i] == s[i + 1]);
                assert forall|k: int| 0 <= k < i + 1 implies s[k] != '.' by {
                    if k > 0 {
                        assert(s.skip(1)[k - 1] != '.');
                    }
                }
            },
        }
    }
}

/// The first decimal point is where the characterization says it is.
pub proof fn lemma_find_dot_at(s: Seq<char>, i: int)
    requires
        0 <= i < s.len(),
        s[i] == '.',
        forall|k: int| 0 <= k < i ==> s[k] != '.',
    ensures
        find_dot(s) == Some(i),
{
    lemma_find_dot_spec(s);
    match find_dot(s) {
        None => {
            assert(false);
        },
        Some(j) => {
            if j < i {
                assert(s[j] != '.');
                assert(false);
            }
            if j > i {
                assert(s[i] != '.');
                assert(false);
            }
        },
    }
}

/// The string with a single leading sign removed.
pub open spec fn body_of(s: Seq<char>) -> Seq<char> {
    if s.len() > 0 && (s[0] == '-' || s[0] == '+') {
        s.skip(1)
    } else {
        s
    }
}

/// The digits before the first decimal point.
pub open spec fn int_part(s: Seq<char>) -> Seq<char> {
    let b = body_of(s);
    match find_dot(b) {
        None => b,
        Some(i) => b.take(i),
    }
}

/// The digits after the first decimal point.
pub open spec fn frac_part(s: Seq<char>) -> Seq<char> {
    let b = body_of(s);
    match find_dot(b) {
        None => Seq::empty(),
        Some(i) => b.skip(i + 1),
    }
}

/// Whether the string is a negative numeral.
pub open spec fn is_negative_form(s: Seq<char>) -> bool {
    s.len() > 0 && s[0] == '-'
}

/// A decimal amount numeral: an optional sign, then digits with at most one
/// point between them, and at least one digit.
pub open spec fn well_formed_amount(s: Seq<char>) -> bool {
    &&& all_digits(int_part(s))
    &&& all_digits(frac_part(s))
    &&& int_part(s).len() + frac_part(s).len() >= 1
}

/// The smallest-unit value of a numeral at decimal count `d`: the integer
/// digits scaled by `pow10(d)` plus the fractional digits scaled to their
/// place.
pub open spec fn amount_value(s: Seq<char>, d: nat) -> nat {
    dec_chars_value(int_part(s)) * pow10(d) + dec_chars_value(frac_part(s)) * pow10(
        (d - frac_part(s).len()) as nat,
    )
}

/// The string with its trailing zero characters removed.
pub open spec fn trim_zeros(s: Seq<char>) -> Seq<char>
    decreases s.len(),
{
    if s.len() > 0 && s.last() == '0' {
        trim_zeros(s.drop_last())
    } else {
        s
    }
}

/// The `d`-digit, zero-padded fractional rendering of `f`, highest place
/// first.
pub open spec fn frac_digits(f: nat, d: nat) -> Seq<char> {
    Seq::new(d, |i: int| digit_char((f / pow10((d - 1 - i) as nat)) % 10))
}

/// The display form of an amount at decimal count `d`: the whole part, and
/// the fractional digits with trailing zeros trimmed when any are non-zero.
pub open spec fn format_spec(v: nat, d: nat) -> Seq<char> {
    let whole = v / pow10(d);
    let frac = v % pow10(d);
    if frac == 0 {
        nat_to_decimal(whole)
    } else {
        nat_to_decimal(whole) + seq!['.'] + trim_zeros(frac_digits(frac, d))
    }
}

/// Render an amount as a decimal quantity at the token's decimal count: the
/// whole part, then the non-zero fraction with trailing zeros stripped.
pub fn format_units(amount: &BigAmount, decimals: u8) -> (r: String)
    ensures
        r@ == format_spec(amount@, decimals as nat),
{
    let d = decimals as usize;
    let (whole, frac) = amount.split_pow10(d);
    let mut out = whole.to_dec_string();
    if frac.is_zero() {
        return out;
    }
    let mut bytes: Vec<u8> = Vec::new();
    let mut k: usize = 0;
    while k < d
        invariant
            k <= d,
            frac@ == amount@ % pow10(d as nat),
            bytes@.len() == k,
            forall|j: int| 0 <= j < k ==> #[trigger] bytes@[j] < 128,
            forall|j: int|
                0 <= j < k ==> #[trigger] bytes@[j] as nat == 48 + (frac@ / pow10(
                    (d - 1 - j) as nat,
                )) % 10,
        decreases d - k,
    {
        let dig = frac.value_digit(d - 1 - k);
        bytes.push(48 + dig);
        k = k + 1;
    }
    let ghost full = bytes@;
    proof {
        assert(ascii_chars(full) =~= frac_digits(frac@, d as nat));
    }
    while bytes.len() > 0 && bytes[bytes.len() - 1] == 48
        invariant
            forall|j: int| 0 <= j < bytes@.len() ==> #[trigger] bytes@[j] < 128,
            trim_zeros(ascii_chars(bytes@)) == trim_zeros(ascii_chars(full)),
        decreases bytes@.len(),
    {
        proof {
            let cur = ascii_chars(bytes@);
            assert(cur.last() == '0');
            assert(cur.drop_last() =~= ascii_chars(bytes@.drop_last()));
        }
        bytes.pop();
    }
    proof {
        let cur = ascii_chars(bytes@);
        if cur.len() > 0 {
            assert(bytes@[bytes@.len() - 1] != 48);
            assert(cur.last() != '0');
        }
        assert(trim_zeros(cur) == cur);
    }
    let frac_str = string_from_ascii_bytes(bytes);
    out.append(".");
    proof {
        reveal_strlit(".");
    }
    out.append(frac_str.as_str());
    proof {
        assert(out@ =~= nat_to_decimal(amount@ / pow10(decimals as nat)) + seq!['.'] + trim_zeros(
            frac_digits(amount@ % pow10(decimals as nat), decimals as nat),
        ));
    }
    out
}

/// A digit string of length `n` denotes a value below `pow10(n)`.
pub proof fn lemma_dec_chars_bound(s: Seq<char>)
    requires
        all_digits(s),
    ensures
        dec_chars_value(s) < pow10(s.len()),
    decreases s.len(),
{
    crate::biguint::lemma_pow10_positive(s.len());
    if s.len() == 0 {
        crate::biguint::lemma_pow10_positive(0);
    } else {
        let front = s.drop_last();
        lemma_dec_chars_bound(front);
        crate::biguint::lemma_pow10_adds((s.len() - 1) as nat, 1);
        vstd::arithmetic::power::lemma_pow1(10);
        let p1 = pow10((s.len() - 1) as nat);
        assert(pow10(s.len()) == p1 * 10);
        assert(is_dec_digit(s.last()));
        assert(dec_chars_value(front) * 10 <= (p1 - 1) * 10) by (nonlinear_arith)
            requires
                dec_chars_value(front) <= p1 - 1,
        ;
        assert((p1 - 1) * 10 + 9 < p1 * 10) by (nonlinear_arith);
    }
}

/// Each digit of a digit string can be read back out of its value.
pub proof fn lemma_dec_chars_extract(s: Seq<char>, i: int)
    requires
        all_digits(s),
        0 <= i < s.len(),
    ensures
        (dec_chars_value(s) / pow10((s.len() - 1 - i) as nat)) % 10 == s[i] as int - 48,
    decreases s.len(),
{
    let v = dec_chars_value(s);
    let front = s.drop_last();
    let last_digit = (s.last() as int - 48) as nat;
    assert(is_dec_digit(s.last()));
    assert(v == dec_chars_value(front) * 10 + last_digit);
    if i == s.len() - 1 {
        crate::biguint::lemma_pow10_positive(0);
        vstd::arithmetic::power::lemma_pow0(10);
        assert(pow10(0) == 1);
        vstd::arithmetic::div_mod::lemma_div_basics_1(v as int);
        assert(v / pow10(0) == v);
        vstd::arithmetic::div_mod::lemma_fundamental_div_mod_converse_mod(
            v as int,
            10,
            dec_chars_value(front) as int,
            last_digit as int,
        );
    } else {
        lemma_dec_chars_extract(front, i);
        let e = (s.len() - 1 - i) as nat;
        vstd::arithmetic::div_mod::lemma_fundamental_div_mod_converse_div(
            v as int,
            10,
            dec_chars_value(front) as int,
            last_digit as int,
        );
        assert(v / 10 == dec_chars_value(front));
        crate::biguint::lemma_pow10_adds(1, (e - 1) as nat);
        vstd::arithmetic::power::lemma_pow1(10);
        assert(pow10(e) == 10 * pow10((e - 1) as nat));
        crate::biguint::lemma_pow10_positive((e - 1) as nat);
        vstd::arithmetic::div_mod::lemma_div_denominator(
            v as int,
            10,
            pow10((e - 1) as nat) as int,
        );
        assert(v / pow10(e) == (v / 10) / pow10((e - 1) as nat));
        assert(front.len() - 1 - i == e - 1);
    }
}

/// An all-zero suffix does not change the trimmed string.
pub proof fn lemma_trim_append_zeros(s: Seq<char>, z: Seq<char>)
    requires
        forall|i: int| 0 <= i < z.len() ==> #[trigger] z[i] == '0',
    ensures
        trim_zeros(s + z) == trim_zeros(s),
    decreases z.len(),
{
    if z.len() == 0 {
        assert(s + z =~= s);
    } else {
        assert((s + z).last() == z.last());
        assert(z.last() == '0');
        assert((s + z).drop_last() =~= s + z.drop_last());
        lemma_trim_append_zeros(s, z.drop_last());
    }
}

/// A digit string trims to nothing exactly when it denotes zero.
pub proof fn lemma_trim_empty_iff_zero(s: Seq<char>)
    requires
        all_digits(s),
    ensures
        trim_zeros(s).len() == 0 <==> dec_chars_value(s) == 0,
    decreases s.len(),
{
    if s.len() == 0 {
    } else {
        let front = s.drop_last();
        assert(is_dec_digit(s.last()));
        assert(dec_chars_value(s) == dec_chars_value(front) * 10 + (s.last() as int - 48) as nat);
        if s.last() == '0' {
            lemma_trim_empty_iff_zero(front);
            assert((s.last() as int - 48) as nat == 0);
            assert(dec_chars_value(s) == 0 <==> dec_chars_value(front) == 0) by (nonlinear_arith)
                requires
                    dec_chars_value(s) == dec_chars_value(front) * 10,
            ;
        } else {
            assert(trim_zeros(s) == s);
            assert((s.last() as int - 48) as nat >= 1);
        }
    }
}

/// Round trip: the display form of a parsed numeral is the numeral with its
/// trailing fractional zeros, and an emptied fraction's point, removed.
///
/// Here `ip` and `fp` are the integer and fractional digit strings of the
/// input and `d` the token's decimal count; `amount_value` is what
/// `parse_units` returns on `ip + "." + fp` and `format_spec` what
/// `format_units` makes of it.
pub proof fn lemma_parse_format_round_trip(ip: Seq<char>, fp: Seq<char>, d: nat)
    requires
        crate::biguint::is_numeral(ip),
        all_digits(fp),
        fp.len() <= d,
    ensures
        format_spec(
            dec_chars_value(ip) * pow10(d) + dec_chars_value(fp) * pow10((d - fp.len()) as nat),
            d,
        ) == if trim_zeros(fp).len() == 0 {
            ip
        } else {
            ip + seq!['.'] + trim_zeros(fp)
        },
{
    let iv = dec_chars_value(ip);
    let fv = dec_chars_value(fp);
    let m = fp.len();
    let pd = pow10(d);
    let pdm = pow10((d - m) as nat);
    let pm = pow10(m);
    let rem = fv * pdm;
    let v = iv * pd + rem;
    lemma_dec_chars_bound(fp);
    crate::biguint::lemma_pow10_adds(m, (d - m) as nat);
    crate::biguint::lemma_pow10_positive(m);
    crate::biguint::lemma_pow10_positive((d - m) as nat);
    assert(pd == pm * pdm);
    assert(rem < pd) by (nonlinear_arith)
        requires
            fv <= pm - 1,
            pd == pm * pdm,
            pdm >= 1,
            rem == fv * pdm,
    ;
    vstd::arithmetic::div_mod::lemma_fundamental_div_mod_converse_div(
        v as int,
        pd as int,
        iv as int,
        rem as int,
    );
    vstd::arithmetic::div_mod::lemma_fundamental_div_mod_converse_mod(
        v as int,
        pd as int,
        iv as int,
        rem as int,
    );
    assert(v / pd == iv);
    assert(v % pd == rem);
    crate::biguint::lemma_nat_to_decimal_of_numeral(ip);
    assert(nat_to_decimal(iv) == ip);
    lemma_trim_empty_iff_zero(fp);
    if rem == 0 {
        assert(fv == 0) by (nonlinear_arith)
            requires
                rem == fv * pdm,
                pdm >= 1,
                rem == 0,
        ;
        assert(format_spec(v, d) == ip);
        assert(trim_zeros(fp).len() == 0);
    } else {
        assert(fv != 0) by (nonlinear_arith)
            requires
                rem == fv * pdm,
                rem != 0,
        ;
        assert(trim_zeros(fp).len() != 0);
        let zeros = Seq::new((d - m) as nat, |i: int| '0');
        assert forall|i: int| 0 <= i < d implies frac_digits(rem, d)[i] == (fp + zeros)[i] by {
            if i < m {
                let e1 = (m - 1 - i) as nat;
                crate::biguint::lemma_pow10_adds((d - m) as nat, e1);
                assert((d - 1 - i) as nat == (d - m) + e1);
                assert(pow10((d - 1 - i) as nat) == pdm * pow10(e1));
                crate::biguint::lemma_pow10_positive(e1);
                vstd::arithmetic::div_mod::lemma_div_denominator(
                    rem as int,
                    pdm as int,
                    pow10(e1) as int,
                );
                assert((rem as int) / ((pdm * pow10(e1)) as int) == ((rem as int) / (pdm as int))
                    / (pow10(e1) as int));
                vstd::arithmetic::div_mod::lemma_div_multiples_vanish(fv as int, pdm as int);
                assert(rem as int / pdm as int == fv);
                lemma_dec_chars_extract(fp, i);
                assert((fv / pow10(e1)) % 10 == fp[i] as int - 48);
                assert(is_dec_digit(fp[i]));
                assert(digit_char(((fv / pow10(e1)) % 10) as nat) == fp[i]);
                assert(frac_digits(rem, d)[i] == digit_char((rem / pow10((d - 1 - i) as nat)) % 10));
            } else {
                let e = (d - 1 - i) as nat;
                let k = (i + 1 - m) as nat;
                crate::biguint::lemma_pow10_adds(k, e);
                assert((d - m) as nat == k + e);
                assert(pdm == pow10(k) * pow10(e));
                crate::biguint::lemma_pow10_positive(e);
                crate::biguint::lemma_pow10_positive(k);
                assert(rem == (fv * pow10(k)) * pow10(e)) by (nonlinear_arith)
                    requires
                        rem == fv * pdm,
                        pdm == pow10(k) * pow10(e),
                ;
                vstd::arithmetic::div_mod::lemma_div_multiples_vanish(
                    (fv * pow10(k)) as int,
                    pow10(e) as int,
                );
                assert((pow10(e) as int) * ((fv * pow10(k)) as int) == rem as int)
                    by (nonlinear_arith)
                    requires
                        rem == (fv * pow10(k)) * pow10(e),
                ;
                assert(rem / pow10(e) == fv * pow10(k));
                crate::biguint::lemma_pow10_adds((k - 1) as nat, 1);
                vstd::arithmetic::power::lemma_pow1(10);
                assert(pow10(k) == pow10((k - 1) as nat) * 10);
                assert(fv * pow10(k) == (fv * pow10((k - 1) as nat)) * 10) by (nonlinear_arith)
                    requires
                        pow10(k) == pow10((k - 1) as nat) * 10,
                ;
                vstd::arithmetic::div_mod::lemma_mod_multiples_basic(
                    (fv * pow10((k - 1) as nat)) as int,
                    10,
                );
                assert((fv * pow10(k)) % 10 == 0);
                assert(frac_digits(rem, d)[i] == digit_char(0));
                assert((fp + zeros)[i] == '0');
            }
        }
        assert(frac_digits(rem, d) =~= fp + zeros);
        lemma_trim_append_zeros(fp, zeros);
        assert(format_spec(v, d) == ip + seq!['.'] + trim_zeros(fp));
    }
}

/// The numeral `ip + "." + fp` decomposes into exactly those two digit
/// parts, and is a well-formed, non-negative amount.
pub proof fn lemma_amount_decomposition(ip: Seq<char>, fp: Seq<char>)
    requires
        crate::biguint::is_numeral(ip),
        all_digits(fp),
    ensures
        int_part(ip + seq!['.'] + fp) == ip,
        frac_part(ip + seq!['.'] + fp) == fp,
        well_formed_amount(ip + seq!['.'] + fp),
        !is_negative_form(ip + seq!['.'] + fp),
{
    let s = ip + seq!['.'] + fp;
    assert(s[0] == ip[0]);
    assert(is_dec_digit(ip[0]));
    assert(s[0] != '-' && s[0] != '+');
    assert(body_of(s) == s);
    assert(s[ip.len() as int] == '.');
    assert forall|k: int| 0 <= k < ip.len() implies s[k] != '.' by {
        assert(s[k] == ip[k]);
        assert(is_dec_digit(ip[k]));
    }
    lemma_find_dot_at(s, ip.len() as int);
    assert(int_part(s) =~= ip);
    assert(frac_part(s) =~= fp);
}

/// A character of the body that is neither a digit nor the first decimal
/// point lands in one of the two digit parts, so the numeral is not well
/// formed.
proof fn lemma_bad_char(s: Seq<char>, j: int)
    requires
        0 <= j < body_of(s).len(),
        !is_dec_digit(body_of(s)[j]),
        find_dot(body_of(s)) matches Some(i) ==> j != i,
    ensures
        !well_formed_amount(s),
{
    let b = body_of(s);
    lemma_find_dot_spec(b);
    match find_dot(b) {
        None => {
            assert(int_part(s)[j] == b[j]);
        },
        Some(i) => {
            if j < i {
                assert(int_part(s)[j] == b[j]);
            } else {
                assert(frac_part(s)[j - i - 1] == b[j]);
            }
        },
    }
}

/// Parse a decimal quantity at the token's decimal count into a
/// smallest-unit amount. A negative numeral is rejected as
/// `NegativeAmount`; more fractional digits than the token supports as
/// `PrecisionExceeded`; anything that is not a decimal numeral, or a value
/// of 256 bits or more, as `InvalidAmount`.
#[verifier::rlimit(100)]
pub fn parse_units(amount_str: &str, decimals: u8) -> (r: Result<BigAmount, UniswapError>)
    ensures
        r matches Ok(v) ==> well_formed_amount(amount_str@) && !is_negative_form(amount_str@)
            && frac_part(amount_str@).len() <= decimals && v@ == amount_value(
            amount_str@,
            decimals as nat,
        ) && v@ < amount_limit(),
        r is Err <==> !(well_formed_amount(amount_str@) && !is_negative_form(amount_str@)
            && frac_part(amount_str@).len() <= decimals && amount_value(amount_str@, decimals as nat)
            < amount_limit()),
        r matches Err(e) ==> ((e is NegativeAmount <==> well_formed_amount(amount_str@)
            && is_negative_form(amount_str@)) && (e is PrecisionExceeded <==> well_formed_amount(
            amount_str@,
        ) && !is_negative_form(amount_str@) && frac_part(amount_str@).len() > decimals) && (
        e is InvalidAmount <==> !well_formed_amount(amount_str@) || (well_formed_amount(amount_str@)
            && !is_negative_form(amount_str@) && frac_part(amount_str@).len() <= decimals
            && amount_value(amount_str@, decimals as nat) >= amount_limit()))),
{
    broadcast use vstd::string::is_ascii_spec_bytes;

    let ghost sv = amount_str@;
    if !amount_str.is_ascii() {
        proof {
            let j = choose|j: int| 0 <= j < sv.len() && !('\0' <= #[trigger] sv[j] <= '\u{7f}');
            let b = body_of(sv);
            if sv.len() > 0 && (sv[0] == '-' || sv[0] == '+') {
                assert(j >= 1);
                assert(b[j - 1] == sv[j]);
                lemma_find_dot_spec(b);
                lemma_bad_char(sv, j - 1);
            } else {
                assert(b[j] == sv[j]);
                lemma_find_dot_spec(b);
                lemma_bad_char(sv, j);
            }
        }
        return Err(UniswapError::InvalidAmount);
    }
    let bytes = amount_str.as_bytes_vec();
    let n = bytes.len();
    let start: usize = if n > 0 && (bytes[0] == 45 || bytes[0] == 43) {
        1
    } else {
        0
    };
    let negative = n > 0 && bytes[0] == 45;
    proof {
        assert(sv[0] as u8 == bytes@[0] || n == 0);
        if start == 1 {
            assert((sv[0] as int) == 45 || (sv[0] as int) == 43);
            assert(sv[0] == '-' || sv[0] == '+');
            assert(body_of(sv) =~= sv.skip(1));
        } else {
            if n > 0 {
                assert((sv[0] as int) != 45 && (sv[0] as int) != 43);
                assert(sv[0] != '-' && sv[0] != '+');
            }
            assert(body_of(sv) =~= sv);
        }
        assert(negative <==> is_negative_form(sv));
    }
    let ghost b = body_of(sv);
    let mut dot: Option<usize> = None;
    let mut i: usize = start;
    while i < n
        invariant
            sv == amount_str@,
            negative <==> is_negative_form(sv),
            start <= i <= n,
            start <= 1,
            n == bytes@.len(),
            n == sv.len(),
            bytes@ == Seq::new(sv.len(), |k: int| sv[k] as u8),
            vstd::utf8::is_ascii_chars(sv),
            b == body_of(sv),
            b.len() == n - start,
            forall|k: int| 0 <= k < b.len() ==> b[k] == sv[k + start],
            dot matches Some(dp) ==> start <= dp < i && sv[dp as int] == '.' && (forall|k: int|
                start <= k < dp ==> is_dec_digit(#[trigger] sv[k])) && (forall|k: int|
                dp < k < i ==> is_dec_digit(#[trigger] sv[k])),
            dot is None ==> forall|k: int| start <= k < i ==> is_dec_digit(#[trigger] sv[k]),
        decreases n - i,
    {
        let c = bytes[i];
        proof {
            assert(sv[i as int] as u8 == c);
        }
        if c == 46 {
            proof {
                assert(sv[i as int] == '.');
            }
            match dot {
                None => {
                    dot = Some(i);
                },
                Some(dp) => {
                    proof {
                        let di = dp - start;
                        assert(b[di] == '.');
                        assert forall|k: int| 0 <= k < di implies b[k] != '.' by {
                            assert(is_dec_digit(sv[k + start]));
                            assert((sv[k + start] as int) <= 57);
                        }
                        lemma_find_dot_at(b, di);
                        assert(b[i - start] == sv[i as int]);
                        assert(!is_dec_digit(b[i - start]));
                        lemma_bad_char(sv, i - start);
                    }
                    return Err(UniswapError::InvalidAmount);
                },
            }
        } else if c < 48 || c > 57 {
            proof {
                assert(!is_dec_digit(sv[i as int]));
                assert(sv[i as int] != '.');
                let j = i - start;
                assert(b[j] == sv[i as int]);
                lemma_find_dot_spec(b);
                match find_dot(b) {
                    None => {
                        lemma_bad_char(sv, j);
                    },
                    Some(m) => {
                        assert(b[m] == '.');
                        assert(m != j);
                        lemma_bad_char(sv, j);
                    },
                }
            }
            return Err(UniswapError::InvalidAmount);
        } else {
            proof {
                assert(is_dec_digit(sv[i as int]));
            }
        }
        i = i + 1;
    }
    // The body is fully scanned: fix the decomposition.
    let (int_start, int_end, frac_start): (usize, usize, usize) = match dot {
        None => (start, n, n),
        Some(dp) => (start, dp, dp + 1),
    };
    proof {
        match dot {
            None => {
                lemma_find_dot_spec(b);
                match find_dot(b) {
                    Some(m) => {
                        assert(b[m] == '.');
                        assert(is_dec_digit(sv[m + start]));
                        assert((sv[m + start] as int) <= 57);
                        assert(false);
                    },
                    None => {},
                }
                assert(int_part(sv) == b);
                assert(frac_part(sv) =~= Seq::<char>::empty());
            },
            Some(dp) => {
                let di = dp - start;
                assert(b[di] == '.');
                assert forall|k: int| 0 <= k < di implies b[k] != '.' by {
                    assert(is_dec_digit(sv[k + start]));
                    assert((sv[k + start] as int) <= 57);
                }
                lemma_find_dot_at(b, di);
                assert(int_part(sv) == b.take(di));
                assert(frac_part(sv) == b.skip(di + 1));
            },
        }
        assert(int_part(sv) =~= sv.subrange(int_start as int, int_end as int));
        assert(frac_part(sv) =~= sv.subrange(frac_start as int, n as int));
        assert(all_digits(int_part(sv)));
        assert(all_digits(frac_part(sv)));
    }
    let int_len = int_end - int_start;
    let frac_len = n - frac_start;
    if int_len == 0 && frac_len == 0 {
        proof {
            assert(!well_formed_amount(sv));
        }
        return Err(UniswapError::InvalidAmount);
    }
    proof {
        assert(well_formed_amount(sv));
    }
    if negative {
        return Err(UniswapError::NegativeAmount);
    }
    if frac_len > decimals as usize {
        return Err(UniswapError::PrecisionExceeded);
    }
    let d = decimals as usize;
    proof {
        assert forall|k: int| int_start <= k < int_end implies 48 <= #[trigger] bytes@[k] <= 57 by {
            assert(is_dec_digit(sv[k]));
            assert(bytes@[k] == sv[k] as u8);
        }
        assert forall|k: int| frac_start <= k < n implies 48 <= #[trigger] bytes@[k] <= 57 by {
            assert(is_dec_digit(sv[k]));
            assert(bytes@[k] == sv[k] as u8);
        }
    }
    let iv = BigUint::from_decimal_bytes(&bytes, int_start, int_end);
    let fv = BigUint::from_decimal_bytes(&bytes, frac_start, n);
    proof {
        assert(ascii_chars(bytes@.subrange(int_start as int, int_end as int)) =~= int_part(sv));
        assert(ascii_chars(bytes@.subrange(frac_start as int, n as int)) =~= frac_part(sv));
    }
    let scaled_int = iv.times_pow10(d);
    let scaled_frac = fv.times_pow10(d - frac_len);
    let total = scaled_int.plus(&scaled_frac);
    let limit = BigUint::pow2_value(256);
    if !total.lt_value(&limit) {
        return Err(UniswapError::InvalidAmount);
    }
    Ok(BigAmount::from_value(total))
}

} // verus!
