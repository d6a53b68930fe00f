//! 20-byte chain addresses.
//!
//! Addresses identify accounts, tokens and pools. Pools order their two
//! tokens by ascending address value, so the comparison here follows the
//! unsigned big-endian byte order.

use vstd::prelude::*;
use crate::amount::{be_bytes_value, BigAmount};
use crate::biguint::digit_char;
use crate::text::string_from_ascii_bytes;

verus! {

/// Whether a character is a hexadecimal digit.
pub open spec fn is_hex_digit(c: char) -> bool {
    ||| 48 <= c as int <= 57
    ||| 97 <= c as int <= 102
    ||| 65 <= c as int <= 70
}

/// The value of a hexadecimal digit character.
pub open spec fn hex_digit_value(c: char) -> nat {
    if 48 <= c as int <= 57 {
        (c as int - 48) as nat
    } else if 97 <= c as int <= 102 {
        (c as int - 87) as nat
    } else {
        (c as int - 55) as nat
    }
}

/// The lower-case character of a hexadecimal digit value.
pub open spec fn hex_digit_char(v: nat) -> char {
    if v < 10 {
        digit_char(v)
    } else {
        ((87 + v) as u8) as char
    }
}

/// Whether a character string is an address numeral: `0x` and 40
/// hexadecimal digits.
pub open spec fn is_hex_address_chars(s: Seq<char>) -> bool {
    &&& s.len() == 42
    &&& s[0] == '0'
    &&& s[1] == 'x'
    &&& forall|i: int| 2 <= i < 42 ==> is_hex_digit(#[trigger] s[i])
}

/// The address bytes denoted by an address numeral.
pub open spec fn hex_address_bytes(s: Seq<char>) -> Seq<u8> {
    Seq::new(20, |i: int| (hex_digit_value(s[2 + 2 * i]) * 16 + hex_digit_value(s[3 + 2 * i])) as u8)
}

/// The lower-case address numeral of address bytes.
pub open spec fn address_numeral(b: Seq<u8>) -> Seq<char> {
    seq!['0', 'x'] + Seq::new(
        40,
        |i: int|
            if i % 2 == 0 {
                hex_digit_char((b[i / 2] / 16) as nat)
            } else {
                hex_digit_char((b[i / 2] % 16) as nat)
            },
    )
}

/// A 20-byte account, token, or pool identifier. Its view is its byte
/// string.
#[derive(Debug, PartialEq, Eq)]
pub struct Address {
    bytes: Vec<u8>,
}

impl View for Address {
    type V = Seq<u8>;

    closed spec fn view(&self) -> Seq<u8> {
        self.bytes@
    }
}

impl Address {
    #[verifier::type_invariant]
    spec fn wf(self) -> bool {
        self.bytes@.len() == 20
    }

    /// The address is always exactly 20 bytes.
    pub fn byte_count(&self) -> (n: usize)
        ensures
            n == self@.len(),
            n == 20,
    {
        proof {
            use_type_invariant(self);
        }
        self.bytes.len()
    }

    /// An address from its 20 bytes.
    pub fn from_bytes(bytes: Vec<u8>) -> (r: Address)
        requires
            bytes@.len() == 20,
        ensures
            r@ == bytes@,
    {
        Address { bytes }
    }

    /// The all-zero address, which chain contracts use as "no address".
    pub fn zero() -> (r: Address)
        ensures
            r@ =~= Seq::new(20, |i: int| 0u8),
    {
        let mut v: Vec<u8> = Vec::new();
        let mut i: usize = 0;
        while i < 20
            invariant
                i <= 20,
                v@ =~= Seq::new(i as nat, |j: int| 0u8),
            decreases 20 - i,
        {
            v.push(0);
            proof {
                assert(v@ =~= Seq::new((i + 1) as nat, |j: int| 0u8));
            }
            i = i + 1;
        }
        Address { bytes: v }
    }

    /// An exact copy.
    pub fn duplicate(&self) -> (r: Address)
        ensures
            r@ == self@,
    {
        proof {
            use_type_invariant(self);
        }
        Address { bytes: self.copy_bytes() }
    }

    /// The bytes, copied into a fresh vector.
    pub fn copy_bytes(&self) -> (v: Vec<u8>)
        ensures
            v@ == self@,
    {
        proof {
            use_type_invariant(self);
        }
        let mut v: Vec<u8> = Vec::new();
        let mut i: usize = 0;
        while i < 20
            invariant
                i <= 20,
                self@.len() == 20,
                v@ =~= self@.take(i as int),
            decreases 20 - i,
        {
            v.push(self.bytes[i]);
            proof {
                assert(v@ =~= self@.take(i + 1));
            }
            i = i + 1;
        }
        proof {
            assert(v@ =~= self@);
        }
        v
    }

    /// Whether every byte is zero.
    pub fn is_zero(&self) -> (r: bool)
        ensures
            r == (self@ =~= Seq::new(20, |i: int| 0u8)),
    {
        proof {
            use_type_invariant(self);
        }
        let mut i: usize = 0;
        while i < 20
            invariant
                i <= 20,
                self@.len() == 20,
                forall|j: int| 0 <= j < i ==> #[trigger] self@[j] == 0,
            decreases 20 - i,
        {
            if self.bytes[i] != 0 {
                proof {
                    assert(self@[i as int] != Seq::new(20, |k: int| 0u8)[i as int]);
                }
                return false;
            }
            i = i + 1;
        }
        proof {
            assert(self@ =~= Seq::new(20, |k: int| 0u8));
        }
        true
    }

    /// Equality of the address bytes.
    pub fn eq_address(&self, other: &Address) -> (r: bool)
        ensures
            r == (self@ == other@),
    {
        proof {
            use_type_invariant(self);
            use_type_invariant(other);
        }
        let mut i: usize = 0;
        while i < 20
            invariant
                i <= 20,
                self@.len() == 20,
                other@.len() == 20,
                forall|j: int| 0 <= j < i ==> #[trigger] self@[j] == other@[j],
            decreases 20 - i,
        {
            if self.bytes[i] != other.bytes[i] {
                return false;
            }
            i = i + 1;
        }
        proof {
            assert(self@ =~= other@);
        }
        true
    }

    /// Whether this address is strictly below the other in unsigned
    /// big-endian byte order, the order by which pools sort their tokens.
    pub fn lt_address(&self, other: &Address) -> (r: bool)
        ensures
            r == (be_bytes_value(self@) < be_bytes_value(other@)),
    {
        proof {
            use_type_invariant(self);
            use_type_invariant(other);
        }
        let a = BigAmount::from_be_bytes(&self.bytes, 0, 20);
        let b = BigAmount::from_be_bytes(&other.bytes, 0, 20);
        proof {
            assert(self.bytes@.subrange(0, 20) =~= self@);
            assert(other.bytes@.subrange(0, 20) =~= other@);
        }
        a.lt(&b)
    }

    /// The address parsed from a `0x`-prefixed, 40-hex-digit numeral of
    /// either letter case.
    pub fn from_hex_str(s: &str) -> (r: Option<Address>)
        ensures
            r is Some <==> is_hex_address_chars(s@),
            r matches Some(a) ==> a@ == hex_address_bytes(s@),
    {
        broadcast use vstd::string::is_ascii_spec_bytes;

        if !s.is_ascii() {
            proof {
                if is_hex_address_chars(s@) {
                    let j = choose|j: int|
                        0 <= j < s@.len() && !('\0' <= #[trigger] s@[j] <= '\u{7f}');
                    assert(j >= 2 ==> is_hex_digit(s@[j]));
                    assert(false);
                }
            }
            return None;
        }
        let bytes = s.as_bytes_vec();
        if bytes.len() != 42 {
            return None;
        }
        if bytes[0] != 48 || bytes[1] != 120 {
            proof {
                assert(s@[0] as u8 == bytes@[0]);
                assert(s@[1] as u8 == bytes@[1]);
            }
            return None;
        }
        proof {
            assert(s@[0] as u8 == bytes@[0]);
            assert(s@[1] as u8 == bytes@[1]);
            assert((s@[0] as int) < 128);
            assert((s@[1] as int) < 128);
            assert((s@[0] as int) == 48);
            assert((s@[1] as int) == 120);
            assert(s@[0] == '0');
            assert(s@[1] == 'x');
        }
        let mut out: Vec<u8> = Vec::new();
        let mut i: usize = 0;
        while i < 20
            invariant
                i <= 20,
                bytes@.len() == 42,
                s@.len() == 42,
                bytes@ == Seq::new(s@.len(), |k: int| s@[k] as u8),
                vstd::utf8::is_ascii_chars(s@),
                out@.len() == i,
                forall|j: int| 0 <= j < 2 * i + 2 - 2 ==> is_hex_digit(#[trigger] s@[j + 2]),
                forall|j: int|
                    0 <= j < i ==> #[trigger] out@[j] == (hex_digit_value(s@[2 + 2 * j]) * 16
                        + hex_digit_value(s@[3 + 2 * j])) as u8,
            decreases 20 - i,
        {
            let hi = match hex_nibble(bytes[2 + 2 * i]) {
                Some(v) => v,
                None => {
                    proof {
                        assert(s@[2 + 2 * i as int] as u8 == bytes@[2 + 2 * i as int]);
                        assert(!is_hex_digit(s@[2 + 2 * i as int]));
                    }
                    return None;
                },
            };
            let lo = match hex_nibble(bytes[3 + 2 * i]) {
                Some(v) => v,
                None => {
                    proof {
                        assert(s@[3 + 2 * i as int] as u8 == bytes@[3 + 2 * i as int]);
                        assert(!is_hex_digit(s@[3 + 2 * i as int]));
                    }
                    return None;
                },
            };
            proof {
                let ci = s@[2 + 2 * i as int];
                let cj = s@[3 + 2 * i as int];
                assert(ci as u8 == bytes@[2 + 2 * i as int]);
                assert(cj as u8 == bytes@[3 + 2 * i as int]);
                assert(is_hex_digit(ci) && hi == hex_digit_value(ci));
                assert(is_hex_digit(cj) && lo == hex_digit_value(cj));
                assert forall|j: int| 0 <= j < 2 * (i + 1) + 2 - 2 implies is_hex_digit(
                    #[trigger] s@[j + 2],
                ) by {
                    if j == 2 * i {
                        assert(s@[j + 2] == ci);
                    } else if j == 2 * i + 1 {
                        assert(s@[j + 2] == cj);
                    }
                }
            }
            out.push(hi * 16 + lo);
            i = i + 1;
        }
        proof {
            assert forall|k: int| 2 <= k < 42 implies is_hex_digit(#[trigger] s@[k]) by {
                assert(is_hex_digit(s@[(k - 2) + 2]));
            }
            assert(is_hex_address_chars(s@));
            assert(out@ =~= hex_address_bytes(s@));
        }
        Some(Address { bytes: out })
    }

    /// The lower-case `0x`-prefixed numeral of the address.
    pub fn to_hex_string(&self) -> (r: String)
        ensures
            r@ == address_numeral(self@),
            is_hex_address_chars(r@),
    {
        proof {
            use_type_invariant(self);
        }
        let mut out: Vec<u8> = Vec::new();
        out.push(48);
        out.push(120);
        let mut i: usize = 0;
        while i < 20
            invariant
                i <= 20,
                self@.len() == 20,
                out@.len() == 2 + 2 * i,
                out@[0] == 48,
                out@[1] == 120,
                forall|j: int| 0 <= j < out@.len() ==> #[trigger] out@[j] < 128,
                forall|j: int|
                    0 <= j < 2 * i ==> #[trigger] out@[j + 2] == (if j % 2 == 0 {
                        hex_nibble_byte((self@[j / 2] / 16) as u8)
                    } else {
                        hex_nibble_byte((self@[j / 2] % 16) as u8)
                    }),
            decreases 20 - i,
        {
            let b = self.bytes[i];
            out.push(hex_nibble_ascii(b / 16));
            out.push(hex_nibble_ascii(b % 16));
            i = i + 1;
        }
        let s = string_from_ascii_bytes(out);
        proof {
            let target = address_numeral(self@);
            let tail = Seq::new(
                40,
                |i: int|
                    if i % 2 == 0 {
                        hex_digit_char((self@[i / 2] / 16) as nat)
                    } else {
                        hex_digit_char((self@[i / 2] % 16) as nat)
                    },
            );
            assert forall|j: int| 0 <= j < 42 implies s@[j] == target[j] by {
                assert(s@[j] == out@[j] as char);
                if j >= 2 {
                    let j2 = j - 2;
                    assert(out@[j2 + 2] == (if j2 % 2 == 0 {
                        hex_nibble_byte((self@[j2 / 2] / 16) as u8)
                    } else {
                        hex_nibble_byte((self@[j2 / 2] % 16) as u8)
                    }));
                    assert(target[j] == tail[j2]);
                    let b = self@[j2 / 2];
                    assert(b / 16 < 16);
                    assert(b % 16 < 16);
                    assert(hex_nibble_byte((b / 16) as u8) as char == hex_digit_char(
                        (b / 16) as nat,
                    ));
                    assert(hex_nibble_byte((b % 16) as u8) as char == hex_digit_char(
                        (b % 16) as nat,
                    ));
                } else {
                    assert(target[j] == seq!['0', 'x'][j]);
                }
            }
            assert(s@ =~= target);
            assert forall|j: int| 2 <= j < 42 implies is_hex_digit(#[trigger] s@[j]) by {
                assert(s@[j] == target[j]);
                assert(target[j] == tail[j - 2]);
                let b = self@[(j - 2) / 2];
                assert(b / 16 < 16);
                assert(b % 16 < 16);
                if (j - 2) % 2 == 0 {
                    assert(is_hex_digit(hex_digit_char((b / 16) as nat)));
                } else {
                    assert(is_hex_digit(hex_digit_char((b % 16) as nat)));
                }
            }
        }
        s
    }
}

/// The ASCII byte of a nibble's lower-case hexadecimal digit.
pub open spec fn hex_nibble_byte(v: u8) -> u8 {
    if v < 10 {
        (48 + v) as u8
    } else {
        (87 + v) as u8
    }
}

/// The hexadecimal digit character of a nibble, as an ASCII byte.
fn hex_nibble_ascii(v: u8) -> (r: u8)
    requires
        v < 16,
    ensures
        r == hex_nibble_byte(v),
        r < 128,
        r as char == hex_digit_char(v as nat),
{
    if v < 10 {
        48 + v
    } else {
        87 + v
    }
}

/// The value of an ASCII hexadecimal digit byte, or `None`.
fn hex_nibble(b: u8) -> (r: Option<u8>)
    ensures
        r is Some <==> is_hex_digit(b as char),
        r matches Some(v) ==> v == hex_digit_value(b as char) && v < 16,
{
    proof {
        assert((b as char) as int == b as int);
    }
    if 48 <= b && b <= 57 {
        Some(b - 48)
    } else if 97 <= b && b <= 102 {
        Some(b - 87)
    } else if 65 <= b && b <= 70 {
        Some(b - 55)
    } else {
        None
    }
}

} // verus!
