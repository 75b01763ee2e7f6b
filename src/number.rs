//! Number text as found in node replies, and the fee-rate unit conversion.
use crate::error::DecodeError;
use vstd::arithmetic::div_mod::lemma_fundamental_div_mod_converse;
use vstd::prelude::*;
use vstd::string::StringSliceAdditionalSpecFns;

verus! {

broadcast use vstd::string::is_ascii_spec_bytes;

pub open spec fn is_digit(c: char) -> bool {
    '0' <= c && c <= '9'
}

pub open spec fn digit_value(c: char) -> nat {
    (c as int - '0' as int) as nat
}

pub open spec fn all_digits(s: Seq<char>) -> bool {
    forall|i: int| 0 <= i < s.len() ==> is_digit(#[trigger] s[i])
}

/// The value of a run of decimal digits, most significant first.
pub open spec fn digits_value(s: Seq<char>) -> nat
    decreases s.len(),
{
    if s.len() == 0 {
        0
    } else {
        digits_value(s.drop_last()) * 10 + digit_value(s.last())
    }
}

pub open spec fn pow10(k: nat) -> nat
    decreases k,
{
    if k == 0 {
        1
    } else {
        10 * pow10((k - 1) as nat)
    }
}

pub open spec fn has_sign(s: Seq<char>) -> bool {
    s.len() > 0 && s[0] == '-'
}

/// The text without its leading minus sign, if any.
pub open spec fn magnitude(s: Seq<char>) -> Seq<char> {
    if has_sign(s) {
        s.drop_first()
    } else {
        s
    }
}

/// An optional minus sign followed by one or more digits.
pub open spec fn is_integer_text(s: Seq<char>) -> bool {
    magnitude(s).len() > 0 && all_digits(magnitude(s))
}

pub open spec fn integer_value(s: Seq<char>) -> int {
    if has_sign(s) {
        -digits_value(magnitude(s))
    } else {
        digits_value(magnitude(s)) as int
    }
}

/// `m` is digits, a point at index `p`, then digits, with digits on both sides.
pub open spec fn is_point_at(m: Seq<char>, p: int) -> bool {
    &&& 0 < p < m.len() - 1
    &&& m[p] == '.'
    &&& all_digits(m.take(p))
    &&& all_digits(m.skip(p + 1))
}

/// An integer, or an optional minus sign, digits, a point and digits.
pub open spec fn is_decimal_text(s: Seq<char>) -> bool {
    is_integer_text(s) || exists|p: int| is_point_at(magnitude(s), p)
}

pub open spec fn point_index(s: Seq<char>) -> int {
    if is_integer_text(s) {
        magnitude(s).len() as int
    } else {
        choose|p: int| is_point_at(magnitude(s), p)
    }
}

/// The digits before the point.
pub open spec fn whole_digits(s: Seq<char>) -> Seq<char> {
    magnitude(s).take(point_index(s))
}

/// The digits after the point (none for an integer).
pub open spec fn fraction_digits(s: Seq<char>) -> Seq<char> {
    if is_integer_text(s) {
        Seq::empty()
    } else {
        magnitude(s).skip(point_index(s) + 1)
    }
}

/// The magnitude of a decimal text is `decimal_numerator(s) / 10^decimal_scale(s)`.
pub open spec fn decimal_numerator(s: Seq<char>) -> nat {
    digits_value(whole_digits(s) + fraction_digits(s))
}

pub open spec fn decimal_scale(s: Seq<char>) -> nat {
    fraction_digits(s).len()
}

/// A rate of `n / 10^k` coins per kilo-virtual-byte in satoshis per kilo-weight-unit:
/// `n / 10^k * 10^8 / 4` rounded to the nearest integer, halves rounded up.
pub open spec fn sat_per_kw(n: nat, k: nat) -> int {
    (n * 100_000_000 + 2 * pow10(k)) as int / (4 * pow10(k)) as int
}


/// An integer field's outcome: the value when the text is an integer within `[lo, hi]`.
pub open spec fn integer_in(s: Seq<char>, lo: int, hi: int) -> Result<int, DecodeError> {
    if !is_integer_text(s) {
        Err(DecodeError::TypeMismatch)
    } else if integer_value(s) < lo || integer_value(s) > hi {
        Err(DecodeError::OutOfRange)
    } else {
        Ok(integer_value(s))
    }
}

/// A fee-rate field's outcome, in satoshis per kilo-weight-unit.
pub open spec fn fee_rate_of(s: Seq<char>) -> Result<int, DecodeError> {
    if !is_decimal_text(s) {
        Err(DecodeError::MalformedEncoding)
    } else if has_sign(s) && decimal_numerator(s) > 0 {
        Err(DecodeError::OutOfRange)
    } else if sat_per_kw(decimal_numerator(s), decimal_scale(s)) > u32::MAX {
        Err(DecodeError::OutOfRange)
    } else {
        Ok(sat_per_kw(decimal_numerator(s), decimal_scale(s)))
    }
}

pub proof fn lemma_pow10_positive(k: nat)
    ensures
        pow10(k) > 0,
    decreases k,
{
    if k > 0 {
        lemma_pow10_positive((k - 1) as nat);
    }
}

pub proof fn lemma_pow10_add(a: nat, b: nat)
    ensures
        pow10(a + b) == pow10(a) * pow10(b),
    decreases b,
{
    if b == 0 {
        assert(pow10(0) == 1);
        assert(a + b == a);
    } else {
        lemma_pow10_add(a, (b - 1) as nat);
        assert((a + b - 1) as nat == a + (b - 1) as nat);
        assert(pow10(a + b) == 10 * pow10((a + b - 1) as nat));
        assert(pow10(a) * pow10(b) == pow10(a) * (10 * pow10((b - 1) as nat)));
        assert(pow10(a) * (10 * pow10((b - 1) as nat)) == 10 * (pow10(a) * pow10(
            (b - 1) as nat,
        ))) by (nonlinear_arith);
    }
}

pub proof fn lemma_digits_concat(a: Seq<char>, b: Seq<char>)
    ensures
        digits_value(a + b) == digits_value(a) * pow10(b.len()) + digits_value(b),
    decreases b.len(),
{
    if b.len() == 0 {
        assert(a + b =~= a);
        assert(pow10(0) == 1);
        assert(digits_value(b) == 0);
    } else {
        let b0 = b.drop_last();
        lemma_digits_concat(a, b0);
        assert((a + b).drop_last() =~= a + b0);
        assert((a + b).last() == b.last());
        let x = digits_value(a);
        let p = pow10(b0.len());
        assert(pow10(b.len()) == 10 * p);
        assert(digits_value(a + b) == digits_value(a + b0) * 10 + digit_value(b.last()));
        assert(digits_value(b) == digits_value(b0) * 10 + digit_value(b.last()));
        assert((x * p + digits_value(b0)) * 10 + digit_value(b.last()) == x * (10 * p) + (
        digits_value(b0) * 10 + digit_value(b.last()))) by (nonlinear_arith);
    }
}

pub proof fn lemma_digits_bound(s: Seq<char>)
    requires
        all_digits(s),
    ensures
        digits_value(s) < pow10(s.len()),
    decreases s.len(),
{
    if s.len() > 0 {
        let s0 = s.drop_last();
        assert(all_digits(s0)) by {
            assert forall|i: int| 0 <= i < s0.len() implies is_digit(#[trigger] s0[i]) by {
                assert(s0[i] == s[i]);
            }
        }
        lemma_digits_bound(s0);
        assert(is_digit(s[s.len() - 1]));
        let v = digits_value(s0);
        let p = pow10(s0.len());
        assert(v + 1 <= p);
        assert(v * 10 + 10 <= 10 * p) by (nonlinear_arith)
            requires
                v + 1 <= p,
        ;
    }
}

/// A prefix of a digit run is worth no more than the whole run.
pub proof fn lemma_digits_prefix(s: Seq<char>, j: int)
    requires
        0 <= j <= s.len(),
    ensures
        digits_value(s.take(j)) <= digits_value(s),
{
    assert(s =~= s.take(j) + s.skip(j));
    lemma_digits_concat(s.take(j), s.skip(j));
    lemma_pow10_positive(s.skip(j).len());
    let x = digits_value(s.take(j));
    let p = pow10(s.skip(j).len());
    assert(x <= x * p) by (nonlinear_arith)
        requires
            p >= 1,
    ;
}

pub proof fn lemma_digits_push(s: Seq<char>, c: char)
    ensures
        digits_value(s.push(c)) == digits_value(s) * 10 + digit_value(c),
{
    assert(s.push(c).drop_last() =~= s);
}


/// Scaling `w + f / 10^|f|` by `10^8` and truncating keeps only the first eight digits of `f`.
pub proof fn lemma_truncate_scaled(w: nat, f: Seq<char>)
    requires
        all_digits(f),
    ensures
        ((w * pow10(f.len()) + digits_value(f)) * 100_000_000) as int / pow10(f.len()) as int
            == (if f.len() <= 8 {
            w * 100_000_000 + digits_value(f) * pow10((8 - f.len()) as nat)
        } else {
            w * 100_000_000 + digits_value(f.take(8))
        }),
{
    let k = f.len();
    let d = pow10(k);
    lemma_pow10_positive(k);
    reveal_with_fuel(pow10, 9);
    assert(pow10(8) == 100_000_000);
    if k <= 8 {
        let e = pow10((8 - k) as nat);
        lemma_pow10_add(k, (8 - k) as nat);
        assert(k + (8 - k) as nat == 8);
        let n = w * d + digits_value(f);
        let q = w * 100_000_000 + digits_value(f) * e;
        assert(n * 100_000_000 == q * d) by (nonlinear_arith)
            requires
                n == w * d + digits_value(f),
                q == w * 100_000_000 + digits_value(f) * e,
                100_000_000 == d * e,
        ;
        lemma_fundamental_div_mod_converse((n * 100_000_000) as int, d as int, q as int, 0);
    } else {
        let f8 = f.take(8);
        let rest = f.skip(8);
        assert(f =~= f8 + rest);
        lemma_digits_concat(f8, rest);
        assert(all_digits(rest)) by {
            assert forall|i: int| 0 <= i < rest.len() implies is_digit(#[trigger] rest[i]) by {
                assert(rest[i] == f[i + 8]);
            }
        }
        lemma_digits_bound(rest);
        let e = pow10(rest.len());
        lemma_pow10_add(rest.len(), 8);
        assert(rest.len() + 8 == k);
        let n = w * d + digits_value(f);
        let q = w * 100_000_000 + digits_value(f8);
        let r = digits_value(rest) * 100_000_000;
        assert(n * 100_000_000 == q * d + r && r < d) by (nonlinear_arith)
            requires
                n == w * d + digits_value(f),
                q == w * 100_000_000 + digits_value(f8),
                r == digits_value(rest) * 100_000_000,
                digits_value(f) == digits_value(f8) * e + digits_value(rest),
                digits_value(rest) < e,
                d == e * 100_000_000,
        ;
        lemma_fundamental_div_mod_converse((n * 100_000_000) as int, d as int, q as int, r as int);
    }
}

/// Rounding `x / d / 4` half up, computed from the truncated `x / d`.
pub proof fn lemma_round_quarter(x: nat, d: nat)
    requires
        d > 0,
    ensures
        ((x as int / d as int) + 2) / 4 == (x + 2 * d) as int / (4 * d) as int,
{
    let i = x as int / d as int;
    let r = x as int % d as int;
    vstd::arithmetic::div_mod::lemma_fundamental_div_mod(x as int, d as int);
    vstd::arithmetic::div_mod::lemma_mod_bound(x as int, d as int);
    let q = (i + 2) / 4;
    let m = (i + 2) % 4;
    vstd::arithmetic::div_mod::lemma_fundamental_div_mod(i + 2, 4);
    assert(0 <= m < 4);
    assert(i >= 0) by {
        vstd::arithmetic::div_mod::lemma_div_pos_is_pos(x as int, d as int);
    }
    assert((x + 2 * d) as int == q * (4 * d) + (m * d + r) && 0 <= m * d + r < 4 * d)
        by (nonlinear_arith)
        requires
            x == d * i + r,
            i + 2 == 4 * q + m,
            0 <= m < 4,
            0 <= r < d,
    ;
    lemma_fundamental_div_mod_converse((x + 2 * d) as int, (4 * d) as int, q, m * d + r);
}


pub proof fn lemma_point_unique(m: Seq<char>, p: int, q: int)
    requires
        is_point_at(m, p),
        is_point_at(m, q),
    ensures
        p == q,
{
    if p < q {
        assert(is_digit(m.take(q)[p]));
    } else if q < p {
        assert(is_digit(m.take(p)[q]));
    }
}

/// Every character of a decimal text is ASCII.
pub proof fn lemma_decimal_is_ascii(s: Seq<char>)
    requires
        is_decimal_text(s),
    ensures
        vstd::utf8::is_ascii_chars(s),
{
    let m = magnitude(s);
    let st: int = if has_sign(s) { 1 } else { 0 };
    assert(m =~= s.skip(st));
    assert forall|i: int| 0 <= i < s.len() implies '\0' <= #[trigger] s[i] <= '\u{7f}' by {
        if i >= st {
            let j = i - st;
            assert(s[i] == m[j]);
            if is_integer_text(s) {
                assert(is_digit(m[j]));
            } else {
                let p = choose|p: int| is_point_at(m, p);
                if j < p {
                    assert(is_digit(m.take(p)[j]));
                } else if j > p {
                    assert(is_digit(m.skip(p + 1)[j - p - 1]));
                }
            }
        }
    }
}

/// Checks the text for decimal form; gives its sign and where its point stands within the
/// magnitude (the magnitude's length for an integer).
pub fn decimal_shape(text: &str) -> (r: Option<(bool, usize)>)
    ensures
        r is Some <==> is_decimal_text(text@),
        r matches Some((neg, p)) ==> neg == has_sign(text@) && p as int == point_index(text@)
            && p <= magnitude(text@).len(),
{
    if !text.is_ascii() {
        proof {
            if is_decimal_text(text@) {
                lemma_decimal_is_ascii(text@);
            }
        }
        return None;
    }
    let b = text.as_bytes();
    let n = b.len();
    proof {
        assert(b@ =~= Seq::new(text@.len(), |i| text@.index(i) as u8));
    }
    let neg = n > 0 && b[0] == 45u8;
    let start: usize = if neg {
        1
    } else {
        0
    };
    let ghost s = text@;
    let ghost m = magnitude(s);
    proof {
        if neg {
            assert(s[0] == '-');
        } else if n > 0 {
            assert(s[0] != '-');
        }
        assert(m =~= s.skip(start as int));
    }
    let mut point: Option<usize> = None;
    let mut i: usize = start;
    while i < n
        invariant
            start <= i <= n,
            n == s.len(),
            s == text@,
            m == magnitude(s),
            m =~= s.skip(start as int),
            vstd::utf8::is_ascii_chars(s),
            b@ == Seq::new(s.len(), |k| s.index(k) as u8),
            point is None ==> all_digits(m.take(i - start)),
            point matches Some(p) ==> 0 < p < i - start && m[p as int] == '.' && all_digits(
                m.take(p as int),
            ) && all_digits(m.subrange(p + 1, i - start)),
        decreases n - i,
    {
        let c = b[i];
        let ghost j = i - start;
        proof {
            assert(m[j] == s[i as int]);
            assert(c == s[i as int] as u8);
        }
        if 48u8 <= c && c <= 57u8 {
            proof {
                assert(is_digit(m[j]));
                match point {
                    None => {
                        assert(m.take(j + 1) =~= m.take(j).push(m[j]));
                    },
                    Some(p) => {
                        assert(m.subrange(p + 1, j + 1) =~= m.subrange(p + 1, j).push(m[j]));
                    },
                }
            }
        } else if c == 46u8 && point.is_none() && i > start {
            proof {
                assert(m[j] == '.');
                assert(m.subrange(j + 1, j + 1) =~= Seq::<char>::empty());
            }
            point = Some(i - start);
        } else {
            proof {
                assert(!is_digit(m[j]));
                assert forall|p: int| !is_point_at(m, p) by {
                    if is_point_at(m, p) {
                        if p == j {
                            assert(m[j] == '.');
                            if let Some(p0) = point {
                                assert(is_digit(m.take(p)[p0 as int]));
                            }
                        } else if j < p {
                            assert(is_digit(m.take(p)[j]));
                        } else {
                            assert(is_digit(m.skip(p + 1)[j - p - 1]));
                        }
                    }
                }
            }
            return None;
        }
        i += 1;
    }
    if n == start {
        return None;
    }
    match point {
        None => {
            proof {
                assert(m.take(n - start) =~= m);
            }
            Some((neg, n - start))
        },
        Some(p) => {
            proof {
                assert(!is_digit(m[p as int]));
                assert(!is_integer_text(s));
            }
            if p == n - start - 1 {
                proof {
                    assert forall|q: int| !is_point_at(m, q) by {
                        if is_point_at(m, q) {
                            assert(is_digit(m.take(p as int)[q]));
                        }
                    }
                }
                None
            } else {
                proof {
                    assert(m.skip(p + 1) =~= m.subrange(p + 1, n - start));
                    assert(is_point_at(m, p as int));
                    let q = choose|q: int| is_point_at(m, q);
                    lemma_point_unique(m, p as int, q);
                }
                Some((neg, p))
            }
        },
    }
}


pub proof fn lemma_pow10_monotone(a: nat, b: nat)
    requires
        a <= b,
    ensures
        pow10(a) <= pow10(b),
{
    lemma_pow10_add(a, (b - a) as nat);
    lemma_pow10_positive((b - a) as nat);
    assert(a + (b - a) as nat == b);
    let x = pow10(a);
    let y = pow10((b - a) as nat);
    assert(x <= x * y) by (nonlinear_arith)
        requires
            y >= 1,
    ;
}

/// A decimal text is ASCII, so its bytes are its characters.
proof fn lemma_decimal_bytes(text: &str)
    requires
        is_decimal_text(text@),
    ensures
        text.spec_bytes() =~= Seq::new(text@.len(), |i| text@.index(i) as u8),
{
    lemma_decimal_is_ascii(text@);
    assert(vstd::string::is_ascii(text));
}

/// Reads the integer that `text` writes, when it lies within `[lo, hi]`.
pub fn integer_in_range(text: &str, lo: i128, hi: i128) -> (r: Result<i128, DecodeError>)
    requires
        -0x1_0000_0000_0000_0000 <= lo,
        hi <= 0x1_0000_0000_0000_0000,
    ensures
        match r {
            Ok(v) => integer_in(text@, lo as int, hi as int) == Ok::<int, DecodeError>(v as int),
            Err(e) => integer_in(text@, lo as int, hi as int) == Err::<int, DecodeError>(e),
        },
{
    let (neg, p) = match decimal_shape(text) {
        None => return Err(DecodeError::TypeMismatch),
        Some(shape) => shape,
    };
    let ghost s = text@;
    let ghost m = magnitude(s);
    let b = text.as_bytes();
    let n = b.len();
    proof {
        lemma_decimal_bytes(text);
        if !is_integer_text(s) {
            let q = choose|q: int| is_point_at(m, q);
        }
    }
    let start: usize = if neg {
        1
    } else {
        0
    };
    proof {
        assert(m =~= s.skip(start as int));
    }
    if p != n - start {
        return Err(DecodeError::TypeMismatch);
    }
    let mut acc: u128 = 0;
    let mut i: usize = start;
    while i < n
        invariant
            start <= i <= n,
            n == s.len(),
            s == text@,
            is_integer_text(s),
            m == magnitude(s),
            m =~= s.skip(start as int),
            start == (if has_sign(s) { 1int } else { 0int }),
            b@ == Seq::new(s.len(), |k| s.index(k) as u8),
            acc == digits_value(m.take(i - start)),
            acc <= 0x1_0000_0000_0000_0000,
            -0x1_0000_0000_0000_0000 <= lo,
            hi <= 0x1_0000_0000_0000_0000,
        decreases n - i,
    {
        let ghost j = i - start;
        proof {
            assert(m[j] == s[i as int]);
            assert(is_digit(m[j]));
            assert(m.take(j + 1) =~= m.take(j).push(m[j]));
            lemma_digits_push(m.take(j), m[j]);
        }
        let d = (b[i] - 48u8) as u128;
        acc = acc * 10 + d;
        if acc > 0x1_0000_0000_0000_0000 {
            proof {
                assert(acc == digits_value(m.take(j + 1)));
                lemma_digits_prefix(m, j + 1);
                assert(digits_value(m) > 0x1_0000_0000_0000_0000);
                assert(integer_value(s) > hi || integer_value(s) < lo);
            }
            return Err(DecodeError::OutOfRange);
        }
        i += 1;
    }
    proof {
        assert(m.take(n - start) =~= m);
    }
    let v: i128 = if neg {
        -(acc as i128)
    } else {
        acc as i128
    };
    if v < lo || v > hi {
        Err(DecodeError::OutOfRange)
    } else {
        Ok(v)
    }
}


/// Whole coins per kilo-virtual-byte above this bound give a rate beyond `u32`.
const WHOLE_LIMIT: u64 = 0x10_0000_0000;

/// The largest scaled rate whose quarter, rounded, still fits in `u32`.
const SCALED_LIMIT: u64 = 17_179_869_181;

/// Structural facts about a non-negative decimal text.
proof fn lemma_decimal_parts(s: Seq<char>)
    requires
        is_decimal_text(s),
        !has_sign(s),
    ensures
        magnitude(s) == s,
        all_digits(whole_digits(s)),
        all_digits(fraction_digits(s)),
        whole_digits(s) == s.take(point_index(s)),
        0 <= point_index(s) <= s.len(),
        point_index(s) == s.len() ==> fraction_digits(s).len() == 0,
        point_index(s) < s.len() ==> fraction_digits(s) == s.skip(point_index(s) + 1)
            && point_index(s) + 1 <= s.len(),
{
    if is_integer_text(s) {
        assert(s.take(s.len() as int) =~= s);
    } else {
        let q = choose|q: int| is_point_at(s, q);
    }
}

/// Structural facts about the magnitude of a decimal text.
proof fn lemma_magnitude_parts(s: Seq<char>)
    requires
        is_decimal_text(s),
    ensures
        all_digits(whole_digits(s)),
        all_digits(fraction_digits(s)),
        whole_digits(s) == magnitude(s).take(point_index(s)),
        0 <= point_index(s) <= magnitude(s).len(),
        point_index(s) == magnitude(s).len() ==> fraction_digits(s).len() == 0,
        point_index(s) < magnitude(s).len() ==> fraction_digits(s) == magnitude(s).skip(
            point_index(s) + 1,
        ) && magnitude(s)[point_index(s)] == '.',
{
    let m = magnitude(s);
    if is_integer_text(s) {
        assert(m.take(m.len() as int) =~= m);
    } else {
        let q = choose|q: int| is_point_at(m, q);
    }
}

/// A digit run is worth zero exactly when every digit is `0`.
pub proof fn lemma_digits_zero(s: Seq<char>)
    requires
        all_digits(s),
    ensures
        digits_value(s) == 0 <==> forall|i: int| 0 <= i < s.len() ==> #[trigger] s[i] == '0',
    decreases s.len(),
{
    if s.len() > 0 {
        let s0 = s.drop_last();
        assert(all_digits(s0)) by {
            assert forall|i: int| 0 <= i < s0.len() implies is_digit(#[trigger] s0[i]) by {
                assert(s0[i] == s[i]);
            }
        }
        lemma_digits_zero(s0);
        assert(is_digit(s[s.len() - 1]));
        if digits_value(s) == 0 {
            assert forall|i: int| 0 <= i < s.len() implies #[trigger] s[i] == '0' by {
                if i < s.len() - 1 {
                    assert(s0[i] == s[i]);
                }
            }
        }
        if forall|i: int| 0 <= i < s.len() ==> #[trigger] s[i] == '0' {
            assert forall|i: int| 0 <= i < s0.len() implies #[trigger] s0[i] == '0' by {
                assert(s0[i] == s[i]);
            }
            assert(s[s.len() - 1] == '0');
        }
    }
}

/// Whether a decimal text is worth zero: every digit, before or after the point, is `0`.
fn numerator_is_zero(text: &str, p: usize) -> (r: bool)
    requires
        is_decimal_text(text@),
        p == point_index(text@),
    ensures
        r == (decimal_numerator(text@) == 0),
{
    let ghost s = text@;
    let ghost m = magnitude(s);
    let ghost dd = whole_digits(s) + fraction_digits(s);
    proof {
        lemma_decimal_bytes(text);
        lemma_magnitude_parts(s);
        assert(all_digits(dd)) by {
            assert forall|i: int| 0 <= i < dd.len() implies is_digit(#[trigger] dd[i]) by {
                if i < whole_digits(s).len() {
                    assert(dd[i] == whole_digits(s)[i]);
                } else {
                    assert(dd[i] == fraction_digits(s)[i - whole_digits(s).len()]);
                }
            }
        }
        lemma_digits_zero(dd);
        if !is_integer_text(s) {
            let q = choose|q: int| is_point_at(m, q);
        }
        assert forall|i: int| 0 <= i < dd.len() implies #[trigger] dd[i] == (if i < p {
            m[i]
        } else {
            m[i + 1]
        }) by {
            if i < p {
                assert(dd[i] == whole_digits(s)[i]);
            } else {
                assert(dd[i] == fraction_digits(s)[i - p]);
            }
        }
    }
    let b = text.as_bytes();
    let n = b.len();
    proof {
        lemma_decimal_is_ascii(s);
        assert(b@ =~= Seq::new(s.len(), |k| s.index(k) as u8));
    }
    let start: usize = if n > 0 && b[0] == 45u8 {
        1
    } else {
        0
    };
    proof {
        if start == 1 {
            assert(s[0] == '-');
        } else if n > 0 {
            assert(s[0] != '-');
        }
        assert(m =~= s.skip(start as int));
    }
    let mut x: usize = start;
    while x < n
        invariant
            start <= x <= n,
            n == s.len(),
            m =~= s.skip(start as int),
            vstd::utf8::is_ascii_chars(s),
            b@ == Seq::new(s.len(), |k| s.index(k) as u8),
            p <= m.len(),
            dd.len() == (if p < m.len() { m.len() - 1 } else { m.len() as int }),
            forall|i: int| 0 <= i < dd.len() ==> #[trigger] dd[i] == (if i < p { m[i] } else { m[i + 1] }),
            forall|y: int| 0 <= y < x - start && y != p ==> #[trigger] m[y] == '0',
            s == text@,
            (decimal_numerator(s) == 0) <==> (forall|k: int| 0 <= k < dd.len() ==> #[trigger] dd[k]
                == '0'),
        decreases n - x,
    {
        let c = b[x];
        proof {
            assert(c == s[x as int] as u8);
            assert(m[x - start] == s[x as int]);
        }
        if x - start != p && c != 48u8 {
            proof {
                let y = (x - start) as int;
                let i = if y < p { y } else { y - 1 };
                assert(0 <= i < dd.len());
                assert(dd[i] == m[y]);
                assert(dd[i] != '0');
                assert(!(forall|k: int| 0 <= k < dd.len() ==> #[trigger] dd[k] == '0'));
            }
            return false;
        }
        x += 1;
    }
    proof {
        assert forall|i: int| 0 <= i < dd.len() implies #[trigger] dd[i] == '0' by {
            if i < p {
                assert(m[i] == '0');
            } else {
                assert(m[i + 1] == '0');
            }
        }
    }
    true
}

/// Converts a fee rate written in coins per kilo-virtual-byte to satoshis per
/// kilo-weight-unit: times `10^8`, divided by four, rounded half up.
pub fn fee_rate(text: &str) -> (r: Result<u32, DecodeError>)
    ensures
        match r {
            Ok(v) => fee_rate_of(text@) == Ok::<int, DecodeError>(v as int),
            Err(e) => fee_rate_of(text@) == Err::<int, DecodeError>(e),
        },
{
    let (neg, p) = match decimal_shape(text) {
        None => return Err(DecodeError::MalformedEncoding),
        Some(shape) => shape,
    };
    if neg {
        if numerator_is_zero(text, p) {
            proof {
                lemma_pow10_positive(decimal_scale(text@));
                let d = pow10(decimal_scale(text@));
                lemma_fundamental_div_mod_converse((2 * d) as int, (4 * d) as int, 0, (2 * d) as int);
            }
            return Ok(0);
        }
        return Err(DecodeError::OutOfRange);
    }
    let ghost s = text@;
    let b = text.as_bytes();
    let n = b.len();
    proof {
        lemma_decimal_bytes(text);
        lemma_decimal_parts(s);
    }
    let ghost wd = whole_digits(s);
    let ghost fd = fraction_digits(s);
    let ghost num = decimal_numerator(s);
    let ghost k = fd.len();
    proof {
        lemma_digits_concat(wd, fd);
        lemma_pow10_positive(k);
        lemma_round_quarter(num * 100_000_000, pow10(k));
        reveal_with_fuel(pow10, 9);
        assert(pow10(8) == 100_000_000);
    }
    let mut acc: u64 = 0;
    let mut i: usize = 0;
    while i < p
        invariant
            i <= p <= n,
            n == s.len(),
            s == text@,
            wd == s.take(p as int),
            all_digits(wd),
            b@ == Seq::new(s.len(), |x| s.index(x) as u8),
            acc == digits_value(wd.take(i as int)),
            acc <= WHOLE_LIMIT,
            all_digits(fd),
            num == digits_value(wd) * pow10(k) + digits_value(fd),
            pow10(k) > 0,
            k == fd.len(),
            p == point_index(s),
            ((num * 100_000_000 as int / pow10(k) as int) + 2) / 4 == sat_per_kw(num, k),
            fee_rate_of(s) == (if sat_per_kw(num, k) > u32::MAX {
                Err::<int, DecodeError>(DecodeError::OutOfRange)
            } else {
                Ok(sat_per_kw(num, k))
            }),
        decreases p - i,
    {
        proof {
            assert(wd[i as int] == s[i as int]);
            assert(is_digit(wd[i as int]));
            assert(wd.take(i + 1) =~= wd.take(i as int).push(wd[i as int]));
            lemma_digits_push(wd.take(i as int), wd[i as int]);
        }
        let d = (b[i] - 48u8) as u64;
        acc = acc * 10 + d;
        if acc > WHOLE_LIMIT {
            proof {
                lemma_digits_prefix(wd, i + 1);
                let w = digits_value(wd);
                lemma_truncate_scaled(w, fd);
                let big = (num * 100_000_000) as int / pow10(k) as int;
                assert(big >= w * 100_000_000);
            }
            return Err(DecodeError::OutOfRange);
        }
        i += 1;
    }
    let ghost w = acc as nat;
    proof {
        assert(wd.take(p as int) =~= wd);
    }
    let k_exec: usize = if p == n {
        0
    } else {
        n - p - 1
    };
    let t: usize = if k_exec < 8 {
        k_exec
    } else {
        8
    };
    let mut j: usize = 0;
    proof {
        assert(fd.take(0) =~= Seq::<char>::empty());
        assert(pow10(0) == 1);
    }
    while j < t
        invariant
            j <= t <= 8,
            t as int == (if k < 8 { k as int } else { 8int }),
            k_exec == k,
            p + 1 + k <= n || k == 0,
            k > 0 ==> fd == s.skip(p + 1),
            n == s.len(),
            b@ == Seq::new(s.len(), |x| s.index(x) as u8),
            all_digits(fd),
            k == fd.len(),
            w <= WHOLE_LIMIT,
            acc == w * pow10(j as nat) + digits_value(fd.take(j as int)),
            acc < (WHOLE_LIMIT + 1) * pow10(j as nat),
            num == w * pow10(k) + digits_value(fd),
            s == text@,
            pow10(k) > 0,
            ((num * 100_000_000 as int / pow10(k) as int) + 2) / 4 == sat_per_kw(num, k),
            fee_rate_of(s) == (if sat_per_kw(num, k) > u32::MAX {
                Err::<int, DecodeError>(DecodeError::OutOfRange)
            } else {
                Ok(sat_per_kw(num, k))
            }),
        decreases t - j,
    {
        proof {
            assert(fd[j as int] == s[p + 1 + j]);
            assert(is_digit(fd[j as int]));
            assert(fd.take(j + 1) =~= fd.take(j as int).push(fd[j as int]));
            lemma_digits_push(fd.take(j as int), fd[j as int]);
            assert(all_digits(fd.take(j + 1)));
            lemma_digits_bound(fd.take(j + 1));
            lemma_pow10_monotone((j + 1) as nat, 8);
            assert(pow10((j + 1) as nat) == 10 * pow10(j as nat));
        }
        let c = b[p + 1 + j];
        let d = (c - 48u8) as u64;
        proof {
            let pj = pow10(j as nat);
            let x = digits_value(fd.take(j as int));
            let y = digits_value(fd.take(j + 1));
            assert(y == x * 10 + d);
            assert(y < 10 * pj);
            assert(pow10(8) == 100_000_000) by {
                reveal_with_fuel(pow10, 9);
            }
            assert(acc * 10 + d == w * (10 * pj) + y && w * (10 * pj) + y < (WHOLE_LIMIT + 1)
                * (10 * pj) && (WHOLE_LIMIT + 1) * (10 * pj) <= (WHOLE_LIMIT + 1) * 100_000_000)
                by (nonlinear_arith)
                requires
                    acc == w * pj + x,
                    y == x * 10 + d,
                    y < 10 * pj,
                    w <= WHOLE_LIMIT,
                    10 * pj <= 100_000_000,
            ;
        }
        acc = acc * 10 + d;
        j += 1;
    }
    let ghost head = w * pow10(t as nat) + digits_value(fd.take(t as int));
    let mut u: usize = t;
    proof {
        assert(pow10(0) == 1);
        assert(acc == head * pow10(0));
    }
    while u < 8
        invariant
            t <= u <= 8,
            head == w * pow10(t as nat) + digits_value(fd.take(t as int)),
            acc == head * pow10((u - t) as nat),
            acc < (WHOLE_LIMIT + 1) * pow10(u as nat),
            t as int == (if k < 8 { k as int } else { 8int }),
            all_digits(fd),
            k == fd.len(),
            w <= WHOLE_LIMIT,
            num == w * pow10(k) + digits_value(fd),
            s == text@,
            pow10(k) > 0,
            ((num * 100_000_000 as int / pow10(k) as int) + 2) / 4 == sat_per_kw(num, k),
            fee_rate_of(s) == (if sat_per_kw(num, k) > u32::MAX {
                Err::<int, DecodeError>(DecodeError::OutOfRange)
            } else {
                Ok(sat_per_kw(num, k))
            }),
        decreases 8 - u,
    {
        proof {
            lemma_pow10_monotone((u + 1) as nat, 8);
            assert(pow10(8) == 100_000_000) by {
                reveal_with_fuel(pow10, 9);
            }
            assert(pow10((u + 1) as nat) == 10 * pow10(u as nat));
            assert(pow10((u + 1 - t) as nat) == 10 * pow10((u - t) as nat));
            let pu = pow10(u as nat);
            assert(acc * 10 < (WHOLE_LIMIT + 1) * (10 * pu) && (WHOLE_LIMIT + 1) * (10 * pu) <= (
            WHOLE_LIMIT + 1) * 100_000_000) by (nonlinear_arith)
                requires
                    acc < (WHOLE_LIMIT + 1) * pu,
                    10 * pu <= 100_000_000,
            ;
            assert(head * pow10((u + 1 - t) as nat) == (head * pow10((u - t) as nat)) * 10)
                by (nonlinear_arith)
                requires
                    pow10((u + 1 - t) as nat) == 10 * pow10((u - t) as nat),
            ;
        }
        acc = acc * 10;
        u += 1;
    }
    proof {
        lemma_truncate_scaled(w, fd);
        let scaled = (num * 100_000_000) as int / pow10(k) as int;
        if k <= 8 {
            assert(fd.take(k as int) =~= fd);
            lemma_pow10_add(k, (8 - k) as nat);
            assert(k + (8 - k) as nat == 8);
            let e = pow10((8 - k) as nat);
            assert(acc == (w * pow10(k) + digits_value(fd)) * e);
            assert((w * pow10(k) + digits_value(fd)) * e == w * 100_000_000 + digits_value(fd) * e)
                by (nonlinear_arith)
                requires
                    pow10(k) * e == 100_000_000,
            ;
        } else {
            assert(pow10(0) == 1);
        }
        assert(acc == scaled);
    }
    if acc > SCALED_LIMIT {
        return Err(DecodeError::OutOfRange);
    }
    Ok(((acc + 2) / 4) as u32)
}


/// The converted rate is the nearest integer to `n / 10^k * 10^8 / 4`, halves rounded up:
/// `q - 1/2 <= n / 10^k * 10^8 / 4 < q + 1/2`, multiplied through by `4 * 10^k`.
pub proof fn fee_rate_rounds_to_nearest(n: nat, k: nat)
    ensures
        4 * pow10(k) * sat_per_kw(n, k) <= n * 100_000_000 + 2 * pow10(k),
        n * 100_000_000 + 2 * pow10(k) < 4 * pow10(k) * (sat_per_kw(n, k) + 1),
{
    let d = 4 * pow10(k);
    lemma_pow10_positive(k);
    let x = (n * 100_000_000 + 2 * pow10(k)) as int;
    vstd::arithmetic::div_mod::lemma_fundamental_div_mod(x, d as int);
    vstd::arithmetic::div_mod::lemma_mod_bound(x, d as int);
    let q = x / d as int;
    assert(d * q <= x < d * (q + 1)) by (nonlinear_arith)
        requires
            x == d * q + (x % (d as int)),
            0 <= (x % (d as int)) < d,
    ;
}

} // verus!
