//! Decimal text of integers and the text forms of numbers, on UTF-8 bytes.
//! The integer text is the one of `i64`'s `Display`; integer parsing follows
//! `i64`'s `FromStr` (an optional sign followed by decimal digits); the float
//! grammar is the one that `f64`'s `FromStr` accepts.

use vstd::prelude::*;
use vstd::utf8::*;
use vstd::string::*;

verus! {

/// True for the ASCII bytes '0' to '9'.
pub open spec fn is_digit(b: u8) -> bool {
    48 <= b <= 57
}

/// The ASCII byte of a decimal digit.
pub open spec fn digit_byte(d: nat) -> u8
    recommends
        d < 10,
{
    (48 + d) as u8
}

/// The decimal digits of `n` without leading zeros ("0" for zero).
pub open spec fn nat_digits(n: nat) -> Seq<u8>
    decreases n,
{
    if n < 10 {
        seq![digit_byte(n)]
    } else {
        nat_digits(n / 10).push(digit_byte(n % 10))
    }
}

/// The text of an `i64` as written by its `Display`: a minus sign for negative values,
/// then the decimal digits of the magnitude.
pub open spec fn i64_text(v: i64) -> Seq<u8> {
    if v < 0 {
        seq![45u8] + nat_digits((-(v as int)) as nat)
    } else {
        nat_digits(v as nat)
    }
}

/// The value of a sequence of decimal digits.
pub open spec fn digits_value(s: Seq<u8>) -> nat
    decreases s.len(),
{
    if s.len() == 0 {
        0
    } else {
        digits_value(s.drop_last()) * 10 + (s.last() - 48) as nat
    }
}

/// True when every byte is a decimal digit.
pub open spec fn all_digits(s: Seq<u8>) -> bool {
    forall|i: int| 0 <= i < s.len() ==> #[trigger] is_digit(s[i])
}

/// The `i64` that a text denotes, as `i64`'s `FromStr` reads it: an optional '+' or '-'
/// followed by at least one decimal digit, and a value in the range of `i64`.
pub open spec fn parse_i64(s: Seq<u8>) -> Option<i64> {
    let neg = s.len() > 0 && s[0] == 45u8;
    let signed = s.len() > 0 && (s[0] == 45u8 || s[0] == 43u8);
    let ds = if signed {
        s.drop_first()
    } else {
        s
    };
    if ds.len() == 0 || !all_digits(ds) {
        None
    } else {
        let v: int = if neg {
            -(digits_value(ds) as int)
        } else {
            digits_value(ds) as int
        };
        if i64::MIN <= v <= i64::MAX {
            Some(v as i64)
        } else {
            None
        }
    }
}

proof fn lemma_nat_digits(n: nat)
    ensures
        nat_digits(n).len() > 0,
        all_digits(nat_digits(n)),
        digits_value(nat_digits(n)) == n,
        is_digit(nat_digits(n)[0]),
    decreases n,
{
    if n < 10 {
        assert(nat_digits(n).drop_last() =~= Seq::<u8>::empty());
        assert(digits_value(Seq::<u8>::empty()) == 0);
        assert((digit_byte(n) - 48) as nat == n);
    } else {
        lemma_nat_digits(n / 10);
        assert((digit_byte(n % 10) - 48) as nat == n % 10);
        let s = nat_digits(n);
        assert(s.drop_last() =~= nat_digits(n / 10));
        assert(s.last() == digit_byte(n % 10));
        assert(n == (n / 10) * 10 + n % 10) by (nonlinear_arith);
        assert forall|i: int| 0 <= i < s.len() implies #[trigger] is_digit(s[i]) by {
            if i < s.len() - 1 {
                assert(s[i] == nat_digits(n / 10)[i]);
            }
        }
    }
}

/// Reading the text of an `i64` gives back the same value.
pub proof fn lemma_i64_text_roundtrip(v: i64)
    ensures
        parse_i64(i64_text(v)) == Some(v),
{
    if v < 0 {
        let m = (-(v as int)) as nat;
        lemma_nat_digits(m);
        let s = i64_text(v);
        assert(s.drop_first() =~= nat_digits(m));
    } else {
        lemma_nat_digits(v as nat);
        let s = nat_digits(v as nat);
        assert(s[0] != 45u8 && s[0] != 43u8);
    }
}

/// Appends the decimal digits of `n` to `out`.
fn push_digits(n: u64, out: &mut Vec<u8>)
    ensures
        final(out)@ == old(out)@ + nat_digits(n as nat),
    decreases n,
{
    if n >= 10 {
        push_digits(n / 10, out);
    }
    out.push(48u8 + (n % 10) as u8);
    assert(final(out)@ =~= old(out)@ + nat_digits(n as nat));
}

/// The text of `v` as `i64`'s `Display` writes it, as bytes.
pub fn i64_to_text(v: i64) -> (r: Vec<u8>)
    ensures
        r@ == i64_text(v),
{
    let mut out: Vec<u8> = Vec::new();
    if v < 0 {
        out.push(45u8);
        let m: u64 = if v == i64::MIN {
            0x8000_0000_0000_0000u64
        } else {
            (-v) as u64
        };
        push_digits(m, &mut out);
    } else {
        push_digits(v as u64, &mut out);
    }
    assert(out@ =~= i64_text(v));
    out
}

/// Reads an `i64` from its text as `i64`'s `FromStr` does; `None` where it reports an error.
pub fn text_to_i64(s: &[u8]) -> (r: Option<i64>)
    ensures
        r == parse_i64(s@),
{
    let n = s.len();
    let mut start: usize = 0;
    let mut neg = false;
    if n > 0 && s[0] == 45u8 {
        neg = true;
        start = 1;
    } else if n > 0 && s[0] == 43u8 {
        start = 1;
    }
    let ghost ds = if start == 1 {
        s@.drop_first()
    } else {
        s@
    };
    assert(ds =~= s@.subrange(start as int, n as int));
    if start == n {
        return None;
    }
    // The magnitude is accumulated while it stays within 2^63.
    let mut acc: u64 = 0;
    let mut too_big = false;
    let mut i: usize = start;
    while i < n
        invariant
            start <= i <= n,
            n == s@.len(),
            ds == s@.subrange(start as int, n as int),
            ds == (if s@.len() > 0 && (s@[0] == 45u8 || s@[0] == 43u8) {
                s@.drop_first()
            } else {
                s@
            }),
            neg == (s@.len() > 0 && s@[0] == 45u8),
            start < n,
            forall|j: int| start <= j < i ==> #[trigger] is_digit(s@[j]),
            !too_big ==> acc as nat == digits_value(ds.take(i - start)),
            !too_big ==> acc <= 0x8000_0000_0000_0000u64,
            too_big ==> digits_value(ds.take(i - start)) > 0x8000_0000_0000_0000u64,
        decreases n - i,
    {
        let b = s[i];
        if b < 48u8 || b > 57u8 {
            assert(!all_digits(ds)) by {
                assert(ds[i - start] == b);
                assert(!is_digit(ds[i - start]));
            }
            return None;
        }
        proof {
            assert(ds.take(i + 1 - start).drop_last() =~= ds.take(i - start));
            assert(ds.take(i + 1 - start).last() == b);
        }
        if !too_big {
            let d = (b - 48u8) as u64;
            if acc > (0x8000_0000_0000_0000u64 - d) / 10 {
                too_big = true;
            } else {
                acc = acc * 10 + d;
            }
        }
        i = i + 1;
    }
    proof {
        assert(ds.take(n - start) =~= ds);
        assert(all_digits(ds)) by {
            assert forall|j: int| 0 <= j < ds.len() implies #[trigger] is_digit(ds[j]) by {
                assert(ds[j] == s@[start + j]);
            }
        }
    }
    if too_big {
        return None;
    }
    if neg {
        if acc == 0x8000_0000_0000_0000u64 {
            Some(i64::MIN)
        } else {
            Some(-(acc as i64))
        }
    } else {
        if acc > 0x7fff_ffff_ffff_ffffu64 {
            None
        } else {
            Some(acc as i64)
        }
    }
}

// ---------------------------------------------------------------------------
// Float text.
// ---------------------------------------------------------------------------

/// ASCII lower case of a byte.
pub open spec fn lower(b: u8) -> u8 {
    if 65 <= b <= 90 {
        (b + 32) as u8
    } else {
        b
    }
}

/// True when the bytes spell `word` (given in lower case), ignoring ASCII case.
pub open spec fn spells(s: Seq<u8>, word: Seq<u8>) -> bool {
    s.len() == word.len() && forall|i: int| 0 <= i < s.len() ==> #[trigger] lower(s[i]) == word[i]
}

/// A decimal number without sign: digits with an optional fraction part (at least one digit
/// in all), followed by an optional exponent.
pub open spec fn float_number(s: Seq<u8>) -> bool {
    exists|m: int|
        0 <= m <= s.len() && #[trigger] float_mantissa(s.take(m)) && float_exponent(s.skip(m))
}

/// `Digit+ | Digit+ '.' Digit* | Digit* '.' Digit+`
pub open spec fn float_mantissa(s: Seq<u8>) -> bool {
    ||| (s.len() > 0 && all_digits(s))
    ||| exists|p: int|
        0 <= p < s.len() && s[p] == 46u8 && all_digits(s.take(p)) && all_digits(s.skip(p + 1)) && (
        p > 0 || p + 1 < s.len())
}

/// `''` or `('e' | 'E') Sign? Digit+`
pub open spec fn float_exponent(s: Seq<u8>) -> bool {
    ||| s.len() == 0
    ||| (s.len() >= 2 && lower(s[0]) == 101u8 && (
    (all_digits(s.skip(1)))
        || (s.len() >= 3 && (s[1] == 43u8 || s[1] == 45u8) && all_digits(s.skip(2)))))
}

/// The texts that `f64`'s `FromStr` accepts: an optional sign followed by "inf", "infinity"
/// or "nan" (in any case) or by a decimal number.
pub open spec fn float_text(s: Seq<u8>) -> bool {
    let body = if s.len() > 0 && (s[0] == 43u8 || s[0] == 45u8) {
        s.drop_first()
    } else {
        s
    };
    ||| spells(body, seq![105u8, 110u8, 102u8])
    ||| spells(body, seq![105u8, 110u8, 102u8, 105u8, 110u8, 105u8, 116u8, 121u8])
    ||| spells(body, seq![110u8, 97u8, 110u8])
    ||| float_number(body)
}

/// ASCII lower case of a byte.
fn lower_byte(b: u8) -> (r: u8)
    ensures
        r == lower(b),
{
    if 65u8 <= b && b <= 90u8 {
        b + 32u8
    } else {
        b
    }
}

/// True when `s[from..to]` spells `word` ignoring ASCII case.
fn spells_at(s: &[u8], from: usize, word: &[u8]) -> (r: bool)
    requires
        from <= s@.len(),
    ensures
        r == spells(s@.skip(from as int), word@),
{
    let n = s.len();
    if n - from != word.len() {
        return false;
    }
    let mut i: usize = 0;
    while i < word.len()
        invariant
            n == s@.len(),
            from <= s@.len(),
            s@.len() == from + word@.len(),
            i <= word@.len(),
            forall|j: int| 0 <= j < i ==> #[trigger] lower(s@.skip(from as int)[j]) == word@[j],
        decreases word@.len() - i,
    {
        assert(from + i < s@.len());
        if lower_byte(s[from + i]) != word[i] {
            assert(lower(s@.skip(from as int)[i as int]) != word@[i as int]);
            return false;
        }
        i = i + 1;
    }
    true
}

/// True when `s[from..to]` consists of decimal digits only.
fn digits_between(s: &[u8], from: usize, to: usize) -> (r: bool)
    requires
        from <= to <= s@.len(),
    ensures
        r == all_digits(s@.subrange(from as int, to as int)),
{
    let mut i = from;
    while i < to
        invariant
            from <= i <= to <= s@.len(),
            forall|j: int| from <= j < i ==> #[trigger] is_digit(s@[j]),
        decreases to - i,
    {
        if s[i] < 48u8 || s[i] > 57u8 {
            assert(!is_digit(s@.subrange(from as int, to as int)[i - from]));
            return false;
        }
        i = i + 1;
    }
    assert forall|j: int| 0 <= j < to - from implies #[trigger] is_digit(
        s@.subrange(from as int, to as int)[j],
    ) by {
        assert(s@.subrange(from as int, to as int)[j] == s@[from + j]);
    }
    true
}

/// True when the bytes are a text that `f64`'s `FromStr` accepts.
pub fn is_float_text(s: &[u8]) -> (r: bool)
    ensures
        r == float_text(s@),
{
    let n = s.len();
    let start: usize = if n > 0 && (s[0] == 43u8 || s[0] == 45u8) {
        1
    } else {
        0
    };
    let ghost body = if n > 0 && (s@[0] == 43u8 || s@[0] == 45u8) {
        s@.drop_first()
    } else {
        s@
    };
    assert(body =~= s@.skip(start as int));
    if spells_at(s, start, &[105u8, 110u8, 102u8]) {
        return true;
    }
    if spells_at(s, start, &[105u8, 110u8, 102u8, 105u8, 110u8, 105u8, 116u8, 121u8]) {
        return true;
    }
    if spells_at(s, start, &[110u8, 97u8, 110u8]) {
        return true;
    }
    assert(seq![105u8, 110u8, 102u8] =~= [105u8, 110u8, 102u8]@);
    assert(seq![105u8, 110u8, 102u8, 105u8, 110u8, 105u8, 116u8, 121u8] =~= [
        105u8,
        110u8,
        102u8,
        105u8,
        110u8,
        105u8,
        116u8,
        121u8,
    ]@);
    assert(seq![110u8, 97u8, 110u8] =~= [110u8, 97u8, 110u8]@);
    // Split the body into the mantissa (up to the first 'e' or 'E') and the exponent.
    let mut m = start;
    while m < n && lower_byte(s[m]) != 101u8
        invariant
            start <= m <= n,
            n == s@.len(),
            forall|j: int| start <= j < m ==> lower(#[trigger] s@[j]) != 101u8,
        decreases n - m,
    {
        m = m + 1;
    }
    let mantissa_ok = mantissa_between(s, start, m);
    let exponent_ok = exponent_from(s, m);
    proof {
        let mm = m - start;
        assert(body.take(mm) =~= s@.subrange(start as int, m as int));
        assert(body.skip(mm) =~= s@.skip(m as int));
        // No other split can succeed: a mantissa holds no 'e', an exponent starts with one.
        assert forall|k: int| 0 <= k <= body.len() && #[trigger] float_mantissa(body.take(k))
            && float_exponent(body.skip(k)) implies k == mm by {
            if k < mm {
                assert(lower(body[k]) != 101u8) by {
                    assert(body[k] == s@[start + k]);
                }
                assert(body.skip(k)[0] == body[k]);
            } else if k > mm {
                assert(body.take(k)[mm] == body[mm]);
                assert(body[mm] == s@[m as int]);
                lemma_mantissa_no_e(body.take(k), mm);
            }
        }
    }
    mantissa_ok && exponent_ok
}

/// A mantissa holds no 'e' or 'E'.
proof fn lemma_mantissa_no_e(s: Seq<u8>, i: int)
    requires
        float_mantissa(s),
        0 <= i < s.len(),
    ensures
        lower(s[i]) != 101u8,
{
    if s.len() > 0 && all_digits(s) {
        assert(is_digit(s[i]));
    } else {
        let p = choose|p: int|
            0 <= p < s.len() && s[p] == 46u8 && all_digits(s.take(p)) && all_digits(s.skip(p + 1))
                && (p > 0 || p + 1 < s.len());
        if i < p {
            assert(is_digit(s.take(p)[i]));
        } else if i > p {
            assert(is_digit(s.skip(p + 1)[i - p - 1]));
        }
    }
}

/// True when `s[from..to]` is a mantissa.
fn mantissa_between(s: &[u8], from: usize, to: usize) -> (r: bool)
    requires
        from <= to <= s@.len(),
    ensures
        r == float_mantissa(s@.subrange(from as int, to as int)),
{
    let ghost t = s@.subrange(from as int, to as int);
    if from < to && digits_between(s, from, to) {
        return true;
    }
    // Find the first '.'.
    let mut p = from;
    while p < to && s[p] != 46u8
        invariant
            from <= p <= to <= s@.len(),
            forall|j: int| from <= j < p ==> #[trigger] s@[j] != 46u8,
        decreases to - p,
    {
        p = p + 1;
    }
    if p == to {
        proof {
            assert forall|q: int| 0 <= q < t.len() implies #[trigger] t[q] != 46u8 by {
                assert(t[q] == s@[from + q]);
            }
            if from < to {
                assert(!all_digits(t));
            }
        }
        return false;
    }
    let before = digits_between(s, from, p);
    let after = digits_between(s, p + 1, to);
    let r = before && after && (p > from || p + 1 < to);
    proof {
        let pp = p - from;
        assert(t[pp] == 46u8);
        assert(t.take(pp) =~= s@.subrange(from as int, p as int));
        assert(t.skip(pp + 1) =~= s@.subrange(p + 1, to as int));
        assert(!all_digits(t)) by {
            assert(!is_digit(t[pp]));
        }
        // A second '.' would contradict the digits after the first one.
        assert forall|q: int|
            0 <= q < t.len() && t[q] == 46u8 && all_digits(t.take(q)) && all_digits(t.skip(q + 1))
                implies q == pp by {
            if q < pp {
                assert(t[q] == s@[from + q]);
            } else if q > pp {
                assert(t.take(q)[pp] == t[pp]);
                assert(!is_digit(t.take(q)[pp]));
            }
        }
    }
    r
}

/// True when `s[from..]` is an exponent (or empty).
fn exponent_from(s: &[u8], from: usize) -> (r: bool)
    requires
        from <= s@.len(),
    ensures
        r == float_exponent(s@.skip(from as int)),
{
    let n = s.len();
    let ghost t = s@.skip(from as int);
    if from == n {
        return true;
    }
    if n - from < 2 || lower_byte(s[from]) != 101u8 {
        return false;
    }
    let plain = digits_between(s, from + 1, n);
    assert(t.skip(1) =~= s@.subrange(from + 1, n as int));
    if plain {
        return true;
    }
    if n - from >= 3 && (s[from + 1] == 43u8 || s[from + 1] == 45u8) {
        let signed = digits_between(s, from + 2, n);
        assert(t.skip(2) =~= s@.subrange(from + 2, n as int));
        return signed;
    }
    false
}

/// Converts bytes to a string slice if they are valid UTF-8.
/// Trusted: `std::str::from_utf8` reports an error exactly when the bytes are not
/// valid UTF-8, and otherwise returns a string slice whose UTF-8 bytes are the input.
#[verifier::external_body]
pub(crate) fn utf8_to_str(b: &[u8]) -> (r: Option<&str>)
    ensures
        r is Some <==> valid_utf8(b@),
        r matches Some(s) ==> s.spec_bytes() == b@,
{
    std::str::from_utf8(b).ok()
}

/// The i64 text is ASCII, hence valid UTF-8.
pub proof fn lemma_i64_text_utf8(v: i64)
    ensures
        valid_utf8(i64_text(v)),
{
    let b = i64_text(v);
    assert(partial_valid_utf8(b, 0)) by {
        assert(b.subrange(0, 0) =~= Seq::<u8>::empty());
        reveal_with_fuel(valid_utf8, 1);
    }
    lemma_i64_text_ascii(v);
    partial_valid_utf8_extend_ascii_block(b, 0, b.len() as int);
    assert(b.subrange(0, b.len() as int) =~= b);
}

proof fn lemma_nat_digits_ascii(n: nat)
    ensures
        forall|i: int|
            0 <= i < nat_digits(n).len() ==> #[trigger] is_leading_byte_width_1(
                nat_digits(n)[i],
            ),
    decreases n,
{
    if n >= 10 {
        lemma_nat_digits_ascii(n / 10);
        let s = nat_digits(n);
        assert forall|i: int| 0 <= i < s.len() implies #[trigger] is_leading_byte_width_1(s[i]) by {
            if i < s.len() - 1 {
                assert(s[i] == nat_digits(n / 10)[i]);
            }
        }
    }
}

proof fn lemma_i64_text_ascii(v: i64)
    ensures
        forall|i: int|
            0 <= i < i64_text(v).len() ==> #[trigger] is_leading_byte_width_1(i64_text(v)[i]),
{
    if v < 0 {
        let m = (-(v as int)) as nat;
        lemma_nat_digits_ascii(m);
        let s = i64_text(v);
        assert forall|i: int| 0 <= i < s.len() implies #[trigger] is_leading_byte_width_1(s[i]) by {
            if i > 0 {
                assert(s[i] == nat_digits(m)[i - 1]);
            }
        }
    } else {
        lemma_nat_digits_ascii(v as nat);
    }
}

/// The decimal text of an `i64`, as its `Display` writes it.
pub fn i64_to_string(v: i64) -> (r: String)
    ensures
        r@ == decode_utf8(i64_text(v)),
{
    let bytes = i64_to_text(v);
    proof {
        lemma_i64_text_utf8(v);
    }
    match utf8_to_str(bytes.as_slice()) {
        Some(text) => {
            proof {
                broadcast use vstd::utf8::encode_utf8_decode_utf8;
                broadcast use vstd::string::to_string_from_display_ensures_for_str;

                assert(text@ == decode_utf8(encode_utf8(text@)));
            }
            text.to_string()
        },
        None => vstd::pervasive::unreached(),
    }
}

} // verus!
