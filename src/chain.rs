//! What the decoders take from the bitcoin library: hash ids, amounts and addresses.
use bitcoin::hashes::hex::FromHex;
use std::str::FromStr;
use crate::number::{decimal_numerator, decimal_scale, has_sign, is_decimal_text, pow10};
use vstd::prelude::*;
use vstd::string::StringSliceAdditionalSpecFns;

verus! {

broadcast use vstd::string::is_ascii_spec_bytes;

pub open spec fn is_hex_digit(c: char) -> bool {
    ('0' <= c && c <= '9') || ('a' <= c && c <= 'f') || ('A' <= c && c <= 'F')
}

pub open spec fn hex_value(c: char) -> int {
    if '0' <= c && c <= '9' {
        c as int - '0' as int
    } else if 'a' <= c && c <= 'f' {
        c as int - 'a' as int + 10
    } else {
        c as int - 'A' as int + 10
    }
}

pub open spec fn all_hex(s: Seq<char>) -> bool {
    forall|i: int| 0 <= i < s.len() ==> is_hex_digit(#[trigger] s[i])
}

/// Hex digits in pairs, as a serialized transaction is written.
pub open spec fn is_hex_text(s: Seq<char>) -> bool {
    s.len() % 2 == 0 && all_hex(s)
}

/// The text of a 32-byte hash id: exactly 64 hex digits of either case.
pub open spec fn is_hash_text(s: Seq<char>) -> bool {
    s.len() == 64 && all_hex(s)
}

/// The bytes a hash id names. Bitcoin writes such ids last byte first, so byte `i`
/// is the digit pair that ends `2 * i` digits before the end of the text.
pub open spec fn hash_bytes(s: Seq<char>) -> Seq<u8> {
    Seq::new(32, |i: int| (hex_value(s[62 - 2 * i]) * 16 + hex_value(s[63 - 2 * i])) as u8)
}

/// The satoshis that a decimal text of whole coins is worth, when that is exact: no
/// sign (not even on zero), at most eight digits after the point, at most 50
/// characters, and at most `i64::MAX` satoshis.
pub open spec fn exact_sats(s: Seq<char>) -> Option<int> {
    let sats = decimal_numerator(s) * pow10((8 - decimal_scale(s)) as nat);
    if !has_sign(s) && decimal_scale(s) <= 8 && s.len() <= 50 && sats <= i64::MAX {
        Some(sats as int)
    } else {
        None
    }
}

/// Whether `Address::from_str` accepts the text as an address.
pub uninterp spec fn is_address_text(s: Seq<char>) -> bool;

/// Relies on `BlockHash::from_hex` (bitcoin_hashes' `FromHex` on a hash shown backwards):
/// it accepts an even number of bytes that are hex digits of either case, exactly 32
/// pairs of them, and reads the pairs from the last to the first.
#[verifier::external_body]
pub(crate) fn block_hash_from_hex(s: &str) -> (r: Option<[u8; 32]>)
    ensures
        r is Some <==> is_hash_text(s@),
        r matches Some(h) ==> h@ == hash_bytes(s@),
{
    match bitcoin::BlockHash::from_hex(s) {
        Ok(h) => Some(bitcoin::hashes::Hash::into_inner(h)),
        Err(_) => None,
    }
}

/// Relies on `<Txid as FromStr>::from_str`, which calls the same `FromHex` as
/// `BlockHash::from_hex`.
#[verifier::external_body]
pub(crate) fn txid_from_str(s: &str) -> (r: Option<[u8; 32]>)
    ensures
        r is Some <==> is_hash_text(s@),
        r matches Some(h) ==> h@ == hash_bytes(s@),
{
    match bitcoin::Txid::from_str(s) {
        Ok(h) => Some(bitcoin::hashes::Hash::into_inner(h)),
        Err(_) => None,
    }
}

/// Relies on `Amount::from_str_in` in whole coins, the parse that `Amount::from_btc`
/// runs on a float's text. On a decimal text it refuses a minus sign, a text over 50
/// bytes, a ninth digit after the point and more than `i64::MAX` satoshis; otherwise
/// it reads the digits and shifts them to eight places after the point.
#[verifier::external_body]
pub(crate) fn sats_from_btc_text(s: &str) -> (r: Option<u64>)
    requires
        is_decimal_text(s@),
    ensures
        match r {
            Some(v) => exact_sats(s@) == Some(v as int),
            None => exact_sats(s@) is None,
        },
{
    match bitcoin::Amount::from_str_in(s, bitcoin::Denomination::Bitcoin) {
        Ok(a) => Some(a.to_sat()),
        Err(_) => None,
    }
}

/// Relies on `<Address as FromStr>::from_str`: whether it accepts a text depends on the
/// text alone.
#[verifier::external_body]
pub(crate) fn address_is_valid(s: &str) -> (r: bool)
    ensures
        r == is_address_text(s@),
{
    bitcoin::Address::from_str(s).is_ok()
}

proof fn lemma_hex_is_ascii(s: Seq<char>)
    requires
        all_hex(s),
    ensures
        vstd::utf8::is_ascii_chars(s),
{
    assert forall|i: int| 0 <= i < s.len() implies '\0' <= #[trigger] s[i] <= '\u{7f}' by {
        assert(is_hex_digit(s[i]));
    }
}

/// Whether the text is hex digits in pairs.
pub fn is_hex(text: &str) -> (r: bool)
    ensures
        r == is_hex_text(text@),
{
    if !text.is_ascii() {
        proof {
            if all_hex(text@) {
                lemma_hex_is_ascii(text@);
            }
        }
        return false;
    }
    let b = text.as_bytes();
    let n = b.len();
    proof {
        assert(b@ =~= Seq::new(text@.len(), |i| text@.index(i) as u8));
    }
    if n % 2 != 0 {
        return false;
    }
    let mut i: usize = 0;
    while i < n
        invariant
            i <= n,
            n == text@.len(),
            vstd::utf8::is_ascii_chars(text@),
            b@ == Seq::new(text@.len(), |k| text@.index(k) as u8),
            forall|k: int| 0 <= k < i ==> is_hex_digit(#[trigger] text@[k]),
        decreases n - i,
    {
        let c = b[i];
        proof {
            assert(c == text@[i as int] as u8);
        }
        if !((48u8 <= c && c <= 57u8) || (97u8 <= c && c <= 102u8) || (65u8 <= c && c <= 70u8)) {
            proof {
                assert(!is_hex_digit(text@[i as int]));
            }
            return false;
        }
        i += 1;
    }
    true
}

} // verus!
