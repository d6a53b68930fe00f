//! The binary call codec: payloads of read-only contract calls, and the
//! decoding of their return values.
//!
//! A call payload is a 4-byte function selector followed by arguments that
//! are each left-padded to a 32-byte word; addresses sit right-aligned in
//! their word and integers are big-endian. Return values come back as raw
//! byte buffers and are decoded here.

use vstd::prelude::*;
use vstd::arithmetic::power2::pow2;
use crate::address::Address;
use crate::amount::{be_bytes_value, BigAmount};
use crate::errors::UniswapError;
use crate::text::utf8_to_string;
use vstd::utf8::{decode_utf8, valid_utf8};

verus! {

/// The `n`-byte big-endian encoding of a value.
pub open spec fn be_bytes_of(v: nat, n: nat) -> Seq<u8>
    decreases n,
{
    if n == 0 {
        Seq::empty()
    } else {
        be_bytes_of(v / 256, (n - 1) as nat).push((v % 256) as u8)
    }
}

/// The big-endian encoding of a value that fits denotes that value.
pub proof fn lemma_be_bytes_of_value(v: nat, n: nat)
    requires
        v < pow2(8 * n),
    ensures
        be_bytes_of(v, n).len() == n,
        be_bytes_value(be_bytes_of(v, n)) == v,
    decreases n,
{
    if n == 0 {
        vstd::arithmetic::power::lemma_pow0(2);
        assert(pow2(0) == 1);
    } else {
        let q = v / 256;
        let hi = pow2((8 * n - 8) as nat);
        vstd::arithmetic::power2::lemma_pow2_adds((8 * n - 8) as nat, 8);
        vstd::arithmetic::power2::lemma2_to64();
        assert(pow2(8 * n) == hi * 256);
        vstd::arithmetic::div_mod::lemma_fundamental_div_mod(v as int, 256);
        assert(q < hi) by (nonlinear_arith)
            requires
                v < hi * 256,
                q == v / 256,
                v == 256 * (v / 256) + v % 256,
                0 <= v % 256 < 256,
        ;
        lemma_be_bytes_of_value(q, (n - 1) as nat);
        let s = be_bytes_of(q, (n - 1) as nat);
        let b = (v % 256) as u8;
        assert(s.push(b).drop_last() =~= s);
        assert(s.push(b).last() == b);
        assert(be_bytes_value(s.push(b)) == be_bytes_value(s) * 256 + b as nat);
    }
}

/// A byte string is the big-endian encoding of its own value.
pub proof fn lemma_be_bytes_of_roundtrip(s: Seq<u8>)
    ensures
        be_bytes_of(be_bytes_value(s), s.len()) =~= s,
    decreases s.len(),
{
    if s.len() == 0 {
    } else {
        let v = be_bytes_value(s);
        let front = s.drop_last();
        assert(v == be_bytes_value(front) * 256 + s.last() as nat);
        vstd::arithmetic::div_mod::lemma_fundamental_div_mod_converse_div(
            v as int,
            256,
            be_bytes_value(front) as int,
            s.last() as int,
        );
        vstd::arithmetic::div_mod::lemma_fundamental_div_mod_converse_mod(
            v as int,
            256,
            be_bytes_value(front) as int,
            s.last() as int,
        );
        assert(v / 256 == be_bytes_value(front));
        assert(v % 256 == s.last() as nat);
        lemma_be_bytes_of_roundtrip(front);
        assert(be_bytes_of(v, s.len()) == be_bytes_of(be_bytes_value(front), front.len()).push(
            s.last(),
        ));
        assert(be_bytes_of(v, s.len()) =~= s);
    }
}

/// One scalar argument of a contract call.
pub enum CallArg {
    /// An address, right-aligned in its 32-byte word.
    Addr(Address),
    /// An unsigned integer, big-endian in its 32-byte word.
    Uint(BigAmount),
}

/// The 32-byte word that encodes one argument.
pub open spec fn arg_word(a: CallArg) -> Seq<u8> {
    match a {
        CallArg::Addr(ad) => Seq::new(12, |i: int| 0u8) + ad@,
        CallArg::Uint(v) => be_bytes_of(v@, 32),
    }
}

/// The concatenated words of an argument list.
pub open spec fn arg_words(args: Seq<CallArg>) -> Seq<u8>
    decreases args.len(),
{
    if args.len() == 0 {
        Seq::empty()
    } else {
        arg_words(args.drop_last()) + arg_word(args.last())
    }
}

/// The word that right-aligns an address.
pub fn encode_address_word(a: &Address) -> (r: Vec<u8>)
    ensures
        r@ == arg_word(CallArg::Addr(*a)),
        r@.len() == 32,
{
    let n = a.byte_count();
    let mut out: Vec<u8> = Vec::new();
    let mut i: usize = 0;
    while i < 12
        invariant
            i <= 12,
            out@ =~= Seq::new(i as nat, |j: int| 0u8),
        decreases 12 - i,
    {
        out.push(0);
        proof {
            assert(out@ =~= Seq::new((i + 1) as nat, |j: int| 0u8));
        }
        i = i + 1;
    }
    let mut body = a.copy_bytes();
    out.append(&mut body);
    proof {
        assert(out@ =~= Seq::new(12, |j: int| 0u8) + a@);
    }
    out
}

/// The word that encodes an amount big-endian.
pub fn encode_amount_word(v: &BigAmount) -> (r: Vec<u8>)
    ensures
        r@ == arg_word(CallArg::Uint(*v)),
        r@.len() == 32,
{
    let out = v.to_be_bytes32();
    proof {
        lemma_be_bytes_of_roundtrip(out@);
    }
    out
}

/// The call payload: the selector followed by each argument's 32-byte word.
pub fn encode_call(selector: &Vec<u8>, args: &Vec<CallArg>) -> (r: Vec<u8>)
    requires
        selector@.len() == 4,
    ensures
        r@ == selector@ + arg_words(args@),
        r@.len() == 4 + 32 * args@.len(),
{
    let mut out: Vec<u8> = Vec::new();
    let mut i: usize = 0;
    let n = selector.len();
    while i < n
        invariant
            i <= n,
            n == selector@.len(),
            out@ =~= selector@.take(i as int),
        decreases n - i,
    {
        out.push(selector[i]);
        proof {
            assert(out@ =~= selector@.take(i + 1));
        }
        i = i + 1;
    }
    proof {
        assert(out@ =~= selector@);
        assert(arg_words(args@.take(0)) =~= Seq::<u8>::empty());
        assert(out@ =~= selector@ + arg_words(args@.take(0)));
    }
    let mut k: usize = 0;
    let m = args.len();
    while k < m
        invariant
            k <= m,
            m == args@.len(),
            out@ == selector@ + arg_words(args@.take(k as int)),
            out@.len() == 4 + 32 * k,
            selector@.len() == 4,
        decreases m - k,
    {
        let mut word = match &args[k] {
            CallArg::Addr(a) => encode_address_word(a),
            CallArg::Uint(v) => encode_amount_word(v),
        };
        proof {
            assert(word@ == arg_word(args@[k as int]));
            assert(args@.take(k as int + 1).drop_last() =~= args@.take(k as int));
            assert(args@.take(k as int + 1).last() == args@[k as int]);
            assert(arg_words(args@.take(k as int + 1)) == arg_words(args@.take(k as int))
                + arg_word(args@[k as int]));
        }
        out.append(&mut word);
        proof {
            assert(out@ =~= selector@ + arg_words(args@.take(k as int + 1)));
        }
        k = k + 1;
    }
    proof {
        assert(args@.take(m as int) =~= args@);
    }
    out
}

/// One 32-byte return word, read as an amount. Any other length is a
/// malformed return.
pub fn decode_scalar(data: &Vec<u8>) -> (r: Result<BigAmount, UniswapError>)
    ensures
        r matches Ok(v) ==> data@.len() == 32 && v@ == be_bytes_value(data@),
        r matches Err(e) ==> data@.len() != 32 && (e matches UniswapError::MalformedReturn {
            expected,
            actual,
        } && expected == 32 && actual == data@.len()),
{
    let n = data.len();
    if n != 32 {
        return Err(UniswapError::MalformedReturn { expected: 32, actual: n });
    }
    let v = BigAmount::from_be_bytes(data, 0, 32);
    proof {
        assert(data@.subrange(0, 32) =~= data@);
    }
    Ok(v)
}

/// One 32-byte return word, read as the address in its low 20 bytes. Any
/// other length is a malformed return.
pub fn decode_address(data: &Vec<u8>) -> (r: Result<Address, UniswapError>)
    ensures
        r matches Ok(a) ==> data@.len() == 32 && a@ == data@.subrange(12, 32),
        r matches Err(e) ==> data@.len() != 32 && (e matches UniswapError::MalformedReturn {
            expected,
            actual,
        } && expected == 32 && actual == data@.len()),
{
    let n = data.len();
    if n != 32 {
        return Err(UniswapError::MalformedReturn { expected: 32, actual: n });
    }
    let mut out: Vec<u8> = Vec::new();
    let mut i: usize = 12;
    while i < 32
        invariant
            12 <= i <= 32,
            data@.len() == 32,
            out@ =~= data@.subrange(12, i as int),
        decreases 32 - i,
    {
        out.push(data[i]);
        proof {
            assert(out@ =~= data@.subrange(12, i + 1));
        }
        i = i + 1;
    }
    Ok(Address::from_bytes(out))
}

/// A `decimals()` return: one byte, or a 32-byte word whose low byte is the
/// decimal count. Any other length is a malformed return.
pub fn decode_decimals(data: &Vec<u8>) -> (r: Result<u8, UniswapError>)
    ensures
        r matches Ok(d) ==> (data@.len() == 32 && d == data@[31]) || (data@.len() == 1 && d
            == data@[0]),
        r is Err <==> data@.len() != 32 && data@.len() != 1,
{
    let n = data.len();
    if n == 32 {
        Ok(data[31])
    } else if n == 1 {
        Ok(data[0])
    } else {
        Err(UniswapError::MalformedReturn { expected: 32, actual: n })
    }
}

/// Whether a return buffer carries a well-formed dynamic string: an offset
/// word, a length word at that offset, and that many valid UTF-8 bytes.
pub open spec fn string_return_ok(d: Seq<u8>) -> bool {
    let off = be_bytes_value(d.subrange(0, 32));
    let len = be_bytes_value(d.subrange(off as int, off as int + 32));
    &&& d.len() >= 64
    &&& off + 32 <= d.len()
    &&& off + 32 + len <= d.len()
    &&& valid_utf8(d.subrange(off as int + 32, (off + 32 + len) as int))
}

/// The decoded string of a well-formed dynamic-string return.
pub open spec fn string_return_chars(d: Seq<u8>) -> Seq<char> {
    let off = be_bytes_value(d.subrange(0, 32));
    let len = be_bytes_value(d.subrange(off as int, off as int + 32));
    decode_utf8(d.subrange(off as int + 32, (off + 32 + len) as int))
}

/// A dynamic-string return value: the first word is the offset of a length
/// word that is followed by that many UTF-8 bytes.
pub fn parse_string_return(data: &Vec<u8>) -> (r: Option<String>)
    ensures
        r is Some <==> string_return_ok(data@),
        r matches Some(s) ==> s@ == string_return_chars(data@),
{
    let n = data.len();
    if n < 64 {
        return None;
    }
    let off_amount = BigAmount::from_be_bytes(data, 0, 32);
    let bound = BigAmount::from_u64((n - 32) as u64);
    if !off_amount.le(&bound) {
        return None;
    }
    let off = off_amount.to_u64() as usize;
    proof {
        assert(off == be_bytes_value(data@.subrange(0, 32)));
        assert(off + 32 <= n);
    }
    let len_amount = BigAmount::from_be_bytes(data, off, off + 32);
    let len_bound = BigAmount::from_u64((n - 32 - off) as u64);
    if !len_amount.le(&len_bound) {
        return None;
    }
    let len = len_amount.to_u64() as usize;
    proof {
        assert(len == be_bytes_value(data@.subrange(off as int, off as int + 32)));
        assert(off + 32 + len <= n);
    }
    let mut body: Vec<u8> = Vec::new();
    let mut i: usize = off + 32;
    let end = off + 32 + len;
    while i < end
        invariant
            off + 32 <= i <= end,
            end <= data@.len(),
            body@ =~= data@.subrange(off as int + 32, i as int),
        decreases end - i,
    {
        body.push(data[i]);
        proof {
            assert(body@ =~= data@.subrange(off as int + 32, i + 1));
        }
        i = i + 1;
    }
    proof {
        assert(body@ =~= data@.subrange(off as int + 32, (off + 32 + len) as int));
    }
    utf8_to_string(body)
}

} // verus!
