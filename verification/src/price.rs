//! Precision-preserving price ratios between two pool reserves.
//!
//! A price is `(numerator_reserve / denominator_reserve) *
//! 10^(numerator_decimals - denominator_decimals)`, computed without ever
//! dividing before scaling. The primary path scales the raw ratio by
//! `10^18`, truncates, and adjusts the decimal difference at a bounded
//! working precision whose mantissa ceiling is `2^96 - 1`; outside that
//! range the exact big-integer fallback divides directly and renders six
//! fractional digits. A zero denominator yields `"0"` by policy: a quote
//! against an empty pool is a zero price, never an error.

use vstd::prelude::*;
use vstd::arithmetic::power2::pow2;
use crate::amount::{amount_limit, BigAmount};
use crate::biguint::{nat_to_decimal, pow10, BigUint};
use crate::errors::UniswapError;
use crate::text::string_from_ascii_bytes;
use crate::units::{format_spec, format_units, frac_digits, trim_zeros};

verus! {

/// The largest value the bounded-precision path can hold: a 96-bit
/// mantissa.
pub open spec fn working_precision_max() -> nat {
    (pow2(96) - 1) as nat
}

/// Which of the two computation paths produced a price.
#[derive(Debug, Clone, Copy, PartialEq, Eq, Structural)]
pub enum RatioPath {
    /// Computed at the bounded working precision.
    WorkingPrecision,
    /// Computed by the exact big-integer fallback.
    ExactFallback,
}

/// The raw reserve ratio scaled by `10^18` and truncated.
pub open spec fn scaled_ratio(n: nat, d: nat) -> nat {
    (n * pow10(18)) / d
}

/// Whether the primary path applies: the scaled ratio fits the working
/// precision and the decimal adjustment stays within its exact range.
pub open spec fn primary_applies(n: nat, d: nat, nd: nat, dd: nat) -> bool {
    &&& scaled_ratio(n, d) <= working_precision_max()
    &&& dd <= nd + 10
    &&& nd <= dd + 18
}

/// The primary path's result in millionths: the scaled ratio re-scaled from
/// `10^18` to six fractional digits, with the decimal-count adjustment
/// folded into the exponent.
pub open spec fn primary_millionths(n: nat, d: nat, nd: nat, dd: nat) -> nat {
    (scaled_ratio(n, d) * pow10(6)) / pow10((18 + dd - nd) as nat)
}

/// The numerator and denominator after applying the decimal-count
/// adjustment by scaling whichever side has fewer decimals.
pub open spec fn adjusted_fraction(n: nat, d: nat, nd: nat, dd: nat) -> (nat, nat) {
    if nd >= dd {
        (n * pow10((nd - dd) as nat), d)
    } else {
        (n, d * pow10((dd - nd) as nat))
    }
}

/// The fallback path's result in millionths: the adjusted fraction divided
/// exactly, truncated at six fractional digits.
pub open spec fn fallback_millionths(n: nat, d: nat, nd: nat, dd: nat) -> nat {
    let (num, den) = adjusted_fraction(n, d, nd, dd);
    (num * pow10(6)) / den
}

/// A quantity of `10^p`-ths rendered with a decimal point: the whole part,
/// then the fractional digits with trailing zeros trimmed, keeping a single
/// zero when the fraction is empty.
pub open spec fn render_scaled(q: nat, p: nat) -> Seq<char> {
    let whole = q / pow10(p);
    let frac = q % pow10(p);
    if frac == 0 {
        nat_to_decimal(whole) + seq!['.', '0']
    } else {
        nat_to_decimal(whole) + seq!['.'] + trim_zeros(frac_digits(frac, p))
    }
}

/// A digit rendering that trims to nothing renders a zero value.
proof fn lemma_trim_empty_all_zero(f: nat, p: nat)
    requires
        f < pow10(p),
        trim_zeros(frac_digits(f, p)).len() == 0,
    ensures
        f == 0,
    decreases p,
{
    crate::biguint::lemma_pow10_positive(p);
    if p == 0 {
        vstd::arithmetic::power::lemma_pow0(10);
        assert(pow10(0) == 1);
    } else {
        let s = frac_digits(f, p);
        lemma_trim_all_zero_chars(s);
        // Every digit of f is zero; peel the lowest one.
        assert(s[p - 1] == '0');
        crate::biguint::lemma_pow10_positive(0);
        vstd::arithmetic::power::lemma_pow0(10);
        assert(pow10(0) == 1);
        vstd::arithmetic::div_mod::lemma_div_basics_2(f as int);
        assert(s[p - 1] == crate::biguint::digit_char(f % 10));
        assert(crate::biguint::digit_char(f % 10) == '0' ==> f % 10 == 0) by {
            if f % 10 != 0 {
                assert((crate::biguint::digit_char(f % 10)) as int == 48 + (f % 10));
            }
        }
        assert(f % 10 == 0);
        let g = f / 10;
        vstd::arithmetic::div_mod::lemma_fundamental_div_mod(f as int, 10);
        assert(f == 10 * g);
        crate::biguint::lemma_pow10_adds(1, (p - 1) as nat);
        vstd::arithmetic::power::lemma_pow1(10);
        assert(pow10(p) == 10 * pow10((p - 1) as nat));
        assert(g < pow10((p - 1) as nat)) by (nonlinear_arith)
            requires
                f == 10 * g,
                f < 10 * pow10((p - 1) as nat),
        ;
        let t = frac_digits(g, (p - 1) as nat);
        assert forall|i: int| 0 <= i < t.len() implies t[i] == s[i] by {
            let e = (p - 1 - 1 - i) as nat;
            crate::biguint::lemma_pow10_adds(e, 1);
            assert(pow10((p - 1 - i) as nat) == pow10(e) * 10);
            crate::biguint::lemma_pow10_positive(e);
            vstd::arithmetic::div_mod::lemma_div_denominator(f as int, 10, pow10(e) as int);
            vstd::arithmetic::div_mod::lemma_div_multiples_vanish(g as int, 10);
            assert((f as int) / 10 == g);
            assert((f as int) / ((10 * pow10(e)) as int) == (g as int) / (pow10(e) as int));
            assert(pow10(e) * 10 == 10 * pow10(e)) by (nonlinear_arith);
        }
        assert forall|i: int| 0 <= i < t.len() implies t[i] == '0' by {
            lemma_trim_all_zero_chars(s);
        }
        lemma_all_zero_trims_empty(t);
        lemma_trim_empty_all_zero(g, (p - 1) as nat);
    }
}

/// A string that trims to nothing is all zeros.
proof fn lemma_trim_all_zero_chars(s: Seq<char>)
    requires
        trim_zeros(s).len() == 0,
    ensures
        forall|i: int| 0 <= i < s.len() ==> #[trigger] s[i] == '0',
    decreases s.len(),
{
    if s.len() > 0 {
        if s.last() == '0' {
            lemma_trim_all_zero_chars(s.drop_last());
            assert forall|i: int| 0 <= i < s.len() implies #[trigger] s[i] == '0' by {
                if i < s.len() - 1 {
                    assert(s.drop_last()[i] == '0');
                }
            }
        } else {
            assert(trim_zeros(s) == s);
        }
    }
}

/// An all-zero string trims to nothing.
proof fn lemma_all_zero_trims_empty(s: Seq<char>)
    requires
        forall|i: int| 0 <= i < s.len() ==> #[trigger] s[i] == '0',
    ensures
        trim_zeros(s).len() == 0,
    decreases s.len(),
{
    if s.len() > 0 {
        assert(s.last() == '0');
        lemma_all_zero_trims_empty(s.drop_last());
    }
}

/// A value that fits the working precision passes through unchanged;
/// anything larger is rejected as `InvalidAmount`, which sends the price
/// computation to the exact fallback.
pub fn to_working_precision(value: &BigAmount) -> (r: Result<BigAmount, UniswapError>)
    ensures
        r matches Ok(v) ==> value@ <= working_precision_max() && v@ == value@,
        r is Err <==> value@ > working_precision_max(),
        r matches Err(e) ==> e is InvalidAmount,
{
    let max = working_precision_limit();
    let v = value.to_unbounded();
    if v.le_value(&max) {
        Ok(value.duplicate())
    } else {
        Err(UniswapError::InvalidAmount)
    }
}

/// The working-precision ceiling, `2^96 - 1`.
fn working_precision_limit() -> (r: BigUint)
    ensures
        r@ == working_precision_max(),
{
    let p = BigUint::pow2_value(96);
    let one = BigUint::one();
    proof {
        vstd::arithmetic::power2::lemma_pow2_pos(96);
    }
    p.minus(&one)
}

/// Divide exactly and render the quotient with `places` fractional digits,
/// trailing zeros trimmed down to at least one digit. A zero denominator
/// renders as `"0"`.
fn div_render(numerator: &BigUint, denominator: &BigUint, places: usize) -> (r: String)
    requires
        places <= 64,
    ensures
        denominator@ == 0 ==> r@ == seq!['0'],
        denominator@ > 0 ==> r@ == render_scaled(
            (numerator@ * pow10(places as nat)) / denominator@,
            places as nat,
        ),
{
    if denominator.is_zero() {
        let s = String::from_str("0");
        proof {
            reveal_strlit("0");
            assert(s@ =~= seq!['0']);
        }
        return s;
    }
    let scaled = numerator.times_pow10(places);
    let (q, _rem) = scaled.div_rem(denominator);
    let scale = BigUint::one().times_pow10(places);
    proof {
        crate::biguint::lemma_pow10_positive(places as nat);
    }
    let (whole, frac) = q.div_rem(&scale);
    let mut bytes = whole.to_decimal_bytes();
    bytes.push(46);
    let ghost q6 = (numerator@ * pow10(places as nat)) / denominator@;
    if frac.is_zero() {
        bytes.push(48);
        let out = string_from_ascii_bytes(bytes);
        proof {
            assert(out@ =~= render_scaled(q6, places as nat));
        }
        return out;
    }
    let mut fbytes: Vec<u8> = Vec::new();
    let mut k: usize = 0;
    while k < places
        invariant
            k <= places,
            fbytes@.len() == k,
            forall|j: int| 0 <= j < k ==> #[trigger] fbytes@[j] < 128,
            forall|j: int|
                0 <= j < k ==> #[trigger] fbytes@[j] as nat == 48 + (frac@ / pow10(
                    (places - 1 - j) as nat,
                )) % 10,
        decreases places - k,
    {
        let dig = frac.value_digit(places - 1 - k);
        fbytes.push(48 + dig);
        k = k + 1;
    }
    let ghost full = fbytes@;
    proof {
        assert(crate::biguint::ascii_chars(full) =~= frac_digits(frac@, places as nat));
    }
    while fbytes.len() > 0 && fbytes[fbytes.len() - 1] == 48
        invariant
            forall|j: int| 0 <= j < fbytes@.len() ==> #[trigger] fbytes@[j] < 128,
            trim_zeros(crate::biguint::ascii_chars(fbytes@)) == trim_zeros(
                crate::biguint::ascii_chars(full),
            ),
        decreases fbytes@.len(),
    {
        proof {
            let cur = crate::biguint::ascii_chars(fbytes@);
            assert(cur.last() == '0');
            assert(cur.drop_last() =~= crate::biguint::ascii_chars(fbytes@.drop_last()));
        }
        fbytes.pop();
    }
    proof {
        let cur = crate::biguint::ascii_chars(fbytes@);
        if cur.len() > 0 {
            assert(fbytes@[fbytes@.len() - 1] != 48);
            assert(cur.last() != '0');
        }
        assert(trim_zeros(cur) == cur);
        vstd::arithmetic::div_mod::lemma_mod_division_less_than_divisor(
            q@ as int,
            pow10(places as nat) as int,
        );
        if cur.len() == 0 {
            lemma_trim_empty_all_zero(frac@, places as nat);
            assert(false);
        }
    }
    let mut out_bytes = bytes;
    out_bytes.append(&mut fbytes);
    let out = string_from_ascii_bytes(out_bytes);
    proof {
        assert(out@ =~= render_scaled(q6, places as nat));
    }
    out
}

/// Exact big-integer division of two amounts, rendered with `places`
/// fractional digits; trailing zeros are trimmed but one fractional digit
/// always remains. A zero denominator renders as `"0"`.
pub fn format_division(
    numerator: &BigAmount,
    denominator: &BigAmount,
    decimal_places: usize,
) -> (r: String)
    requires
        decimal_places <= 64,
    ensures
        denominator@ == 0 ==> r@ == seq!['0'],
        denominator@ > 0 ==> r@ == render_scaled(
            (numerator@ * pow10(decimal_places as nat)) / denominator@,
            decimal_places as nat,
        ),
{
    let n = numerator.to_unbounded();
    let d = denominator.to_unbounded();
    div_render(&n, &d, decimal_places)
}

/// The exact fallback for a price ratio: scale away the decimal-count
/// difference first, then divide and render six fractional digits.
pub fn format_division_fallback(
    numerator: &BigAmount,
    denominator: &BigAmount,
    numerator_decimals: u8,
    denominator_decimals: u8,
) -> (r: String)
    ensures
        denominator@ == 0 ==> r@ == seq!['0'],
        denominator@ > 0 ==> r@ == render_scaled(
            fallback_millionths(
                numerator@,
                denominator@,
                numerator_decimals as nat,
                denominator_decimals as nat,
            ),
            6,
        ),
{
    let n = numerator.to_unbounded();
    let d = denominator.to_unbounded();
    if denominator.is_zero() {
        let s = String::from_str("0");
        proof {
            reveal_strlit("0");
            assert(s@ =~= seq!['0']);
        }
        return s;
    }
    let (num, den) = if numerator_decimals >= denominator_decimals {
        let scale = (numerator_decimals - denominator_decimals) as usize;
        (n.times_pow10(scale), d)
    } else {
        let scale = (denominator_decimals - numerator_decimals) as usize;
        proof {
            crate::biguint::lemma_pow10_positive(scale as nat);
            assert(d@ * pow10(scale as nat) >= 1 * 1) by (nonlinear_arith)
                requires
                    d@ >= 1,
                    pow10(scale as nat) >= 1,
            ;
        }
        (n, d.times_pow10(scale))
    };
    div_render(&num, &den, 6)
}

/// Ten to the sixth, spelled out.
proof fn lemma_pow10_6()
    ensures
        pow10(6) == 1000000,
{
    vstd::arithmetic::power::lemma_pow0(10);
    assert(pow10(0) == 1);
    vstd::arithmetic::power::lemma_pow1(10);
    assert(pow10(1) == 10);
    crate::biguint::lemma_pow10_adds(1, 1);
    assert(pow10(2) == 100);
    crate::biguint::lemma_pow10_adds(2, 1);
    assert(pow10(3) == 1000);
    crate::biguint::lemma_pow10_adds(3, 1);
    assert(pow10(4) == 10000);
    crate::biguint::lemma_pow10_adds(4, 1);
    assert(pow10(5) == 100000);
    crate::biguint::lemma_pow10_adds(5, 1);
    assert(pow10(6) == 1000000);
}

/// A common factor cancels out of a quotient.
proof fn lemma_div_cancel_common(y: nat, d: nat, c: nat)
    requires
        d > 0,
        c > 0,
    ensures
        (y * c) / (d * c) == y / d,
{
    vstd::arithmetic::div_mod::lemma_div_denominator((y * c) as int, c as int, d as int);
    vstd::arithmetic::div_mod::lemma_div_multiples_vanish(y as int, c as int);
    assert((c as int) * (y as int) == (y * c) as int) by (nonlinear_arith);
    assert(((y * c) as int) / (c as int) == y as int);
    assert((c * d) as int == (d * c) as int) by (nonlinear_arith);
}

/// Dual-path agreement. Wherever the decimal adjustment does not amplify
/// the primary path's truncation (the numerator's decimal count exceeds the
/// denominator's by at most twelve), the primary path and the exact
/// fallback compute the same number of millionths, so they agree to six
/// fractional digits; their rendered strings differ only in that the
/// fallback keeps a `".0"` tail on whole numbers.
pub proof fn lemma_dual_path_agreement(n: nat, d: nat, nd: nat, dd: nat)
    requires
        d > 0,
        nd <= dd + 12,
    ensures
        primary_millionths(n, d, nd, dd) == fallback_millionths(n, d, nd, dd),
        fallback_millionths(n, d, nd, dd) % pow10(6) != 0 ==> render_scaled(
            fallback_millionths(n, d, nd, dd),
            6,
        ) == format_spec(fallback_millionths(n, d, nd, dd), 6),
        fallback_millionths(n, d, nd, dd) % pow10(6) == 0 ==> render_scaled(
            fallback_millionths(n, d, nd, dd),
            6,
        ) == format_spec(fallback_millionths(n, d, nd, dd), 6) + seq!['.', '0'],
{
    let r = scaled_ratio(n, d);
    let e = (18 + dd - nd) as nat;
    let e6 = (e - 6) as nat;
    assert(e >= 6);
    crate::biguint::lemma_pow10_positive(e6);
    crate::biguint::lemma_pow10_positive(6);
    // Fold the six display digits into the exponent.
    crate::biguint::lemma_pow10_adds(6, e6);
    assert(pow10(e) == pow10(6) * pow10(e6));
    lemma_div_cancel_common(r, pow10(e6), pow10(6));
    assert(pow10(e6) * pow10(6) == pow10(6) * pow10(e6)) by (nonlinear_arith);
    assert((r * pow10(6)) / pow10(e) == r / pow10(e6));
    // Merge the two divisions into one.
    vstd::arithmetic::div_mod::lemma_div_denominator((n * pow10(18)) as int, d as int, pow10(
        e6,
    ) as int);
    assert(r / pow10(e6) == (n * pow10(18)) / (d * pow10(e6)));
    if nd >= dd {
        let k = (nd - dd) as nat;
        assert(e6 == (12 - k) as nat);
        crate::biguint::lemma_pow10_adds(k, 6);
        crate::biguint::lemma_pow10_adds((k + 6) as nat, e6);
        assert(pow10(18) == (pow10(k) * pow10(6)) * pow10(e6));
        assert(n * pow10(18) == ((n * pow10(k)) * pow10(6)) * pow10(e6)) by (nonlinear_arith)
            requires
                pow10(18) == (pow10(k) * pow10(6)) * pow10(e6),
        ;
        lemma_div_cancel_common((n * pow10(k)) * pow10(6), d, pow10(e6));
        assert(fallback_millionths(n, d, nd, dd) == ((n * pow10(k)) * pow10(6)) / d) by {
            assert((n * pow10(k)) * pow10(6) == (n * pow10(k)) * pow10(6));
        }
    } else {
        let k = (dd - nd) as nat;
        assert(e6 == 12 + k);
        crate::biguint::lemma_pow10_adds(6, 12);
        crate::biguint::lemma_pow10_adds(k, 12);
        assert(pow10(18) == pow10(6) * pow10(12));
        assert(pow10(e6) == pow10(k) * pow10(12));
        crate::biguint::lemma_pow10_positive(k);
        crate::biguint::lemma_pow10_positive(12);
        assert(n * pow10(18) == ((n * pow10(6))) * pow10(12)) by (nonlinear_arith)
            requires
                pow10(18) == pow10(6) * pow10(12),
        ;
        assert(d * pow10(e6) == (d * pow10(k)) * pow10(12)) by (nonlinear_arith)
            requires
                pow10(e6) == pow10(k) * pow10(12),
        ;
        assert(d * pow10(k) >= 1 * 1) by (nonlinear_arith)
            requires
                d >= 1,
                pow10(k) >= 1,
        ;
        lemma_div_cancel_common(n * pow10(6), d * pow10(k), pow10(12));
    }
}

/// Compute a price ratio and say which path produced it: the bounded
/// working precision when the scaled ratio and decimal adjustment fit its
/// exact range, else the exact big-integer fallback. A zero denominator
/// yields `"0"`.
pub fn price_ratio_with_path(
    numerator_reserve: &BigAmount,
    denominator_reserve: &BigAmount,
    numerator_decimals: u8,
    denominator_decimals: u8,
) -> (r: (String, RatioPath))
    ensures
        denominator_reserve@ == 0 ==> r.0@ == seq!['0'] && r.1 == RatioPath::WorkingPrecision,
        denominator_reserve@ > 0 && primary_applies(
            numerator_reserve@,
            denominator_reserve@,
            numerator_decimals as nat,
            denominator_decimals as nat,
        ) ==> r.1 == RatioPath::WorkingPrecision && r.0@ == format_spec(
            primary_millionths(
                numerator_reserve@,
                denominator_reserve@,
                numerator_decimals as nat,
                denominator_decimals as nat,
            ),
            6,
        ),
        denominator_reserve@ > 0 && !primary_applies(
            numerator_reserve@,
            denominator_reserve@,
            numerator_decimals as nat,
            denominator_decimals as nat,
        ) ==> r.1 == RatioPath::ExactFallback && r.0@ == render_scaled(
            fallback_millionths(
                numerator_reserve@,
                denominator_reserve@,
                numerator_decimals as nat,
                denominator_decimals as nat,
            ),
            6,
        ),
{
    if denominator_reserve.is_zero() {
        let s = String::from_str("0");
        proof {
            reveal_strlit("0");
            assert(s@ =~= seq!['0']);
        }
        return (s, RatioPath::WorkingPrecision);
    }
    let n = numerator_reserve.to_unbounded();
    let d = denominator_reserve.to_unbounded();
    let scaled = n.times_pow10(18);
    let (ratio, _rem) = scaled.div_rem(&d);
    let max = working_precision_limit();
    let nd = numerator_decimals as usize;
    let dd = denominator_decimals as usize;
    if ratio.le_value(&max) && dd <= nd + 10 && nd <= dd + 18 {
        let e = 18 + dd - nd;
        let scaled6 = ratio.times_pow10(6);
        let p10e = BigUint::one().times_pow10(e);
        proof {
            crate::biguint::lemma_pow10_positive(e as nat);
        }
        let (m, _r2) = scaled6.div_rem(&p10e);
        proof {
            vstd::arithmetic::div_mod::lemma_div_is_ordered_by_denominator(
                scaled6@ as int,
                1,
                pow10(e as nat) as int,
            );
            vstd::arithmetic::div_mod::lemma_div_basics_2(scaled6@ as int);
            assert(m@ <= scaled6@);
            lemma_pow10_6();
            vstd::arithmetic::power2::lemma2_to64();
            vstd::arithmetic::power2::lemma_pow2_pos(96);
            assert(pow10(6) < pow2(20));
            assert(ratio@ < pow2(96));
            assert(ratio@ * pow10(6) < pow2(96) * pow2(20)) by (nonlinear_arith)
                requires
                    ratio@ < pow2(96),
                    pow10(6) < pow2(20),
                    ratio@ >= 0,
                    pow10(6) >= 1,
                    pow2(96) >= 1,
            ;
            vstd::arithmetic::power2::lemma_pow2_adds(96, 20);
            vstd::arithmetic::power2::lemma_pow2_strictly_increases(116, 256);
            vstd::arithmetic::power2::lemma_pow2_pos(96);
            assert(m@ < amount_limit());
        }
        let m_amount = BigAmount::from_value(m);
        let out = format_units(&m_amount, 6);
        (out, RatioPath::WorkingPrecision)
    } else {
        let out = format_division_fallback(
            numerator_reserve,
            denominator_reserve,
            numerator_decimals,
            denominator_decimals,
        );
        (out, RatioPath::ExactFallback)
    }
}

/// The price ratio `(numerator / denominator) * 10^(nd - dd)` as a decimal
/// string, by whichever path applies.
pub fn calculate_price_ratio(
    numerator_reserve: &BigAmount,
    denominator_reserve: &BigAmount,
    numerator_decimals: u8,
    denominator_decimals: u8,
) -> (r: String)
    ensures
        denominator_reserve@ == 0 ==> r@ == seq!['0'],
        denominator_reserve@ > 0 && primary_applies(
            numerator_reserve@,
            denominator_reserve@,
            numerator_decimals as nat,
            denominator_decimals as nat,
        ) ==> r@ == format_spec(
            primary_millionths(
                numerator_reserve@,
                denominator_reserve@,
                numerator_decimals as nat,
                denominator_decimals as nat,
            ),
            6,
        ),
        denominator_reserve@ > 0 && !primary_applies(
            numerator_reserve@,
            denominator_reserve@,
            numerator_decimals as nat,
            denominator_decimals as nat,
        ) ==> r@ == render_scaled(
            fallback_millionths(
                numerator_reserve@,
                denominator_reserve@,
                numerator_decimals as nat,
                denominator_decimals as nat,
            ),
            6,
        ),
{
    let (out, _path) = price_ratio_with_path(
        numerator_reserve,
        denominator_reserve,
        numerator_decimals,
        denominator_decimals,
    );
    out
}

} // verus!
