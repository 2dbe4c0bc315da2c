//! Parts of the executable content: durations of delayed events and the plain elements.

use vstd::prelude::*;
use vstd::string::*;
use crate::protocol::pow10;
use crate::collections::Queue;
use crate::fsm::{Event, EventType, is_error_for};
use crate::decimal::{i64_text, i64_to_string};
use crate::scxml_event_io_processor::{
    internal_target, parent_target, routed, scxml_short_type, execution_kind, ScxmlEventIOProcessor,
    SendAction,
};
use vstd::utf8::decode_utf8;

verus! {

/// A decimal digit.
pub open spec fn is_digit_char(c: char) -> bool {
    '0' <= c && c <= '9'
}

/// The value of a decimal digit.
pub open spec fn digit_val(c: char) -> nat {
    (c as int - '0' as int) as nat
}

/// The number of decimal digits at the start of `s`.
pub open spec fn lead_digits(s: Seq<char>) -> nat
    decreases s.len(),
{
    if s.len() > 0 && is_digit_char(s[0]) {
        1 + lead_digits(s.drop_first())
    } else {
        0
    }
}

/// The value of a sequence of decimal digits.
pub open spec fn chars_num(s: Seq<char>) -> nat
    decreases s.len(),
{
    if s.len() == 0 {
        0
    } else {
        chars_num(s.drop_last()) * 10 + digit_val(s.last())
    }
}

/// The number of milliseconds of a unit: "d", "h", "m", "s" or "ms", in lower or upper case.
pub open spec fn unit_factor(u: Seq<char>) -> Option<nat> {
    if u == seq!['d'] || u == seq!['D'] {
        Some(86_400_000)
    } else if u == seq!['h'] || u == seq!['H'] {
        Some(3_600_000)
    } else if u == seq!['m'] || u == seq!['M'] {
        Some(60_000)
    } else if u == seq!['s'] || u == seq!['S'] {
        Some(1000)
    } else if u == seq!['m', 's'] || u == seq!['M', 'S'] {
        Some(1)
    } else {
        None
    }
}

/// A duration split into its integer digits, its fraction digits (after a '.', at least one)
/// and the text after the number; `None` for a '.' without digits after it.
pub open spec fn duration_parts(d: Seq<char>) -> Option<(Seq<char>, Seq<char>, Seq<char>)> {
    let a = lead_digits(d);
    let rest = d.skip(a as int);
    if rest.len() > 0 && rest[0] == '.' {
        let b = lead_digits(rest.skip(1));
        if b == 0 {
            None
        } else {
            Some((d.take(a as int), rest.subrange(1, 1 + b as int), rest.skip(1 + b as int)))
        }
    } else {
        Some((d.take(a as int), Seq::empty(), rest))
    }
}

/// The number `whole.frac` times `factor`, rounded half up. The value is computed exactly
/// on the decimal digits, not on a binary floating-point approximation: where such an
/// approximation of the product lies just below a half (as for "0.5005s", 500.5
/// milliseconds, in `f64`), the exact value rounds up where the approximate one rounds
/// down.
pub open spec fn rounded_ms(whole: Seq<char>, frac: Seq<char>, factor: nat) -> nat {
    let den = pow10(frac.len());
    (2 * chars_num(whole + frac) * factor + den) / (2 * den)
}

/// A duration in milliseconds: RegExp "\d*(\.\d+)?(ms|s|m|h|d)", the unit in lower or
/// upper case. The empty text and a number without unit are 0; any other text is -1; the
/// number is rounded half up, and a duration beyond `i64` is its largest value.
pub open spec fn duration_ms(d: Seq<char>) -> int {
    if d.len() == 0 {
        0
    } else {
        match duration_parts(d) {
            None => -1,
            Some((whole, frac, unit)) => if whole.len() + frac.len() == 0 {
                -1
            } else if unit.len() == 0 {
                0
            } else {
                match unit_factor(unit) {
                    None => -1,
                    Some(f) => if rounded_ms(whole, frac, f) > i64::MAX {
                        i64::MAX as int
                    } else {
                        rounded_ms(whole, frac, f) as int
                    },
                }
            },
        }
    }
}

/// The values of digit characters, one byte each.
pub open spec fn digit_values(s: Seq<char>) -> Seq<u8> {
    s.map_values(|c: char| digit_val(c) as u8)
}

/// The value of a sequence of digit values.
pub open spec fn vals_num(s: Seq<u8>) -> nat
    decreases s.len(),
{
    if s.len() == 0 {
        0
    } else {
        vals_num(s.drop_last()) * 10 + s.last() as nat
    }
}

proof fn lemma_lead_digits(s: Seq<char>)
    ensures
        lead_digits(s) <= s.len(),
        forall|i: int| 0 <= i < lead_digits(s) ==> is_digit_char(#[trigger] s[i]),
        lead_digits(s) < s.len() ==> !is_digit_char(s[lead_digits(s) as int]),
    decreases s.len(),
{
    if s.len() > 0 && is_digit_char(s[0]) {
        lemma_lead_digits(s.drop_first());
        assert forall|i: int| 0 <= i < lead_digits(s) implies is_digit_char(#[trigger] s[i]) by {
            if i > 0 {
                assert(s[i] == s.drop_first()[i - 1]);
            }
        }
        if lead_digits(s) < s.len() {
            assert(s[lead_digits(s) as int] == s.drop_first()[lead_digits(s.drop_first()) as int]);
        }
    }
}

/// The digits at the start of `s` are exactly its first `k` characters when those are
/// digits and the next is not.
proof fn lemma_lead_digits_exact(s: Seq<char>, k: nat)
    requires
        k <= s.len(),
        forall|i: int| 0 <= i < k ==> is_digit_char(#[trigger] s[i]),
        k < s.len() ==> !is_digit_char(s[k as int]),
    ensures
        lead_digits(s) == k,
    decreases k,
{
    if k > 0 {
        assert forall|i: int| 0 <= i < k - 1 implies is_digit_char(#[trigger] s.drop_first()[i]) by {
            assert(s.drop_first()[i] == s[i + 1]);
        }
        if k < s.len() {
            assert(s.drop_first()[k - 1] == s[k as int]);
        }
        lemma_lead_digits_exact(s.drop_first(), (k - 1) as nat);
    }
}

proof fn lemma_chars_num_append(a: Seq<char>, b: Seq<char>)
    ensures
        chars_num(a + b) == chars_num(a) * pow10(b.len()) + chars_num(b),
    decreases b.len(),
{
    if b.len() == 0 {
        assert(a + b =~= a);
        assert(pow10(b.len()) == 1);
        assert(chars_num(a) * pow10(b.len()) == chars_num(a)) by (nonlinear_arith)
            requires
                pow10(b.len()) == 1,
        ;
    } else {
        lemma_chars_num_append(a, b.drop_last());
        assert((a + b).drop_last() =~= a + b.drop_last());
        assert((a + b).last() == b.last());
        let p = pow10((b.len() - 1) as nat);
        assert(pow10(b.len()) == 10 * p);
        let x = chars_num(a);
        let y = chars_num(b.drop_last());
        let dv = digit_val(b.last());
        assert(chars_num(a + b) == chars_num(a + b.drop_last()) * 10 + dv);
        assert(chars_num(a + b.drop_last()) == x * p + y);
        assert(chars_num(b) == y * 10 + dv);
        let pb = pow10(b.len());
        let lhs = chars_num(a + b);
        let rb = chars_num(b);
        assert(lhs == x * pb + rb) by (nonlinear_arith)
            requires
                lhs == (x * p + y) * 10 + dv,
                pb == 10 * p,
                rb == y * 10 + dv,
        ;
    }
}

proof fn lemma_vals_num(s: Seq<char>)
    requires
        forall|i: int| 0 <= i < s.len() ==> is_digit_char(#[trigger] s[i]),
    ensures
        vals_num(digit_values(s)) == chars_num(s),
    decreases s.len(),
{
    if s.len() > 0 {
        assert forall|i: int| 0 <= i < s.drop_last().len() implies is_digit_char(#[trigger] s.drop_last()[i]) by {
            assert(s.drop_last()[i] == s[i]);
        }
        lemma_vals_num(s.drop_last());
        assert(digit_values(s).drop_last() =~= digit_values(s.drop_last()));
        assert(is_digit_char(s[s.len() - 1]));
    }
}

proof fn lemma_pow10_positive(k: nat)
    ensures
        pow10(k) >= 1,
    decreases k,
{
    if k > 0 {
        lemma_pow10_positive((k - 1) as nat);
    }
}

/// Multiplying the fraction digits `s[j..]` by `f` from the right: the carry out and the
/// digits kept.
pub open spec fn carry_out(s: Seq<u8>, j: int, f: nat) -> nat
    decreases s.len() - j,
{
    if j < 0 || j >= s.len() {
        0
    } else {
        (s[j] as nat * f + carry_out(s, j + 1, f)) / 10
    }
}

/// The digits below the carry when multiplying `s[j..]` by `f`.
pub open spec fn carry_rest(s: Seq<u8>, j: int, f: nat) -> nat
    decreases s.len() - j,
{
    if j < 0 || j >= s.len() {
        0
    } else {
        ((s[j] as nat * f + carry_out(s, j + 1, f)) % 10) * pow10((s.len() - j - 1) as nat)
            + carry_rest(s, j + 1, f)
    }
}

proof fn lemma_vals_num_skip(s: Seq<u8>, j: int)
    requires
        0 <= j < s.len(),
    ensures
        vals_num(s.skip(j)) == s[j] as nat * pow10((s.len() - j - 1) as nat) + vals_num(s.skip(j + 1)),
    decreases s.len() - j,
{
    if j == s.len() - 1 {
        assert(s.skip(j).drop_last() =~= Seq::<u8>::empty());
        assert(s.skip(j + 1) =~= Seq::<u8>::empty());
        assert(s.skip(j).last() == s[j]);
        assert(vals_num(s.skip(j)) == vals_num(s.skip(j).drop_last()) * 10 + s[j] as nat);
        assert(pow10(0) == 1);
        assert(s[j] as nat * pow10((s.len() - j - 1) as nat) == s[j] as nat) by (nonlinear_arith)
            requires
                pow10((s.len() - j - 1) as nat) == 1,
        ;
    } else {
        lemma_vals_num_skip(s.drop_last(), j);
        assert(s.drop_last().skip(j) =~= s.skip(j).drop_last());
        assert(s.drop_last().skip(j + 1) =~= s.skip(j + 1).drop_last());
        assert(s.skip(j).last() == s.last());
        assert(s.skip(j + 1).last() == s.last());
        assert(s.drop_last()[j] == s[j]);
        let p = pow10((s.len() - j - 2) as nat);
        assert(pow10((s.len() - j - 1) as nat) == 10 * p);
        let a = s[j] as nat;
        let r = vals_num(s.drop_last().skip(j + 1));
        let l = s.last() as nat;
        assert(vals_num(s.skip(j)) == vals_num(s.skip(j).drop_last()) * 10 + l);
        assert(vals_num(s.skip(j + 1)) == vals_num(s.skip(j + 1).drop_last()) * 10 + l);
        assert(vals_num(s.drop_last().skip(j)) == a * p + r);
        let pj = pow10((s.len() - j - 1) as nat);
        let lhs = vals_num(s.skip(j));
        let rj = vals_num(s.skip(j + 1));
        assert(lhs == a * pj + rj) by (nonlinear_arith)
            requires
                lhs == (a * p + r) * 10 + l,
                pj == 10 * p,
                rj == r * 10 + l,
        ;
    }
}

/// Multiplying digit by digit from the right: the value of `s[j..]` times `f` is the carry
/// out shifted past the digits, plus the digits, which stay below that shift.
proof fn lemma_carry(s: Seq<u8>, j: int, f: nat)
    requires
        0 <= j <= s.len(),
        forall|i: int| 0 <= i < s.len() ==> #[trigger] s[i] < 10,
    ensures
        vals_num(s.skip(j)) * f == carry_out(s, j, f) * pow10((s.len() - j) as nat) + carry_rest(s, j, f),
        carry_rest(s, j, f) < pow10((s.len() - j) as nat),
    decreases s.len() - j,
{
    if j == s.len() {
        assert(s.skip(j) =~= Seq::<u8>::empty());
        assert(vals_num(s.skip(j)) == 0);
        assert(pow10(0) == 1);
        assert(0 * f == 0);
    } else {
        lemma_carry(s, j + 1, f);
        lemma_vals_num_skip(s, j);
        let p = pow10((s.len() - j - 1) as nat);
        assert(pow10((s.len() - j) as nat) == 10 * p);
        let d = s[j] as nat;
        let c1 = carry_out(s, j + 1, f);
        let r1 = carry_rest(s, j + 1, f);
        let v1 = vals_num(s.skip(j + 1));
        let t = d * f + c1;
        assert(v1 * f == c1 * p + r1);
        let vj = vals_num(s.skip(j));
        let cj = carry_out(s, j, f);
        let rj = carry_rest(s, j, f);
        let pj = pow10((s.len() - j) as nat);
        assert(cj == t / 10);
        assert(rj == (t % 10) * p + r1);
        assert(vj == d * p + v1);
        assert(vj * f == cj * pj + rj) by (nonlinear_arith)
            requires
                vj == d * p + v1,
                v1 * f == c1 * p + r1,
                t == d * f + c1,
                cj == t / 10,
                rj == (t % 10) * p + r1,
                pj == 10 * p,
        ;
        assert(rj < pj) by (nonlinear_arith)
            requires
                rj == (t % 10) * p + r1,
                r1 < p,
                pj == 10 * p,
                t >= 0,
        ;
    }
}

/// The first digit below the carry decides the rounding: the kept digits reach half of
/// the shift exactly when that digit is 5 or more.
proof fn lemma_round_digit(s: Seq<u8>, f: nat)
    requires
        s.len() > 0,
        forall|i: int| 0 <= i < s.len() ==> #[trigger] s[i] < 10,
    ensures
        (2 * carry_rest(s, 0, f) >= pow10(s.len())) <==> ((s[0] as nat * f + carry_out(s, 1, f))
            % 10 >= 5),
{
    lemma_carry(s, 1, f);
    let p = pow10((s.len() - 1) as nat);
    assert(pow10(s.len()) == 10 * p);
    let e = (s[0] as nat * f + carry_out(s, 1, f)) % 10;
    let r1 = carry_rest(s, 1, f);
    assert(carry_rest(s, 0, f) == e * p + r1);
    lemma_pow10_positive((s.len() - 1) as nat);
    if e >= 5 {
        assert(2 * (e * p + r1) >= 10 * p) by (nonlinear_arith)
            requires
                e >= 5,
                p >= 1,
        ;
    } else {
        assert(2 * (e * p + r1) < 10 * p) by (nonlinear_arith)
            requires
                e <= 4,
                r1 < p,
        ;
    }
}

/// The rounded value of `whole.frac` times `f` from its parts.
proof fn lemma_rounded(whole: Seq<char>, frac: Seq<char>, f: nat, i: nat, c: nat, r: nat)
    requires
        chars_num(frac) * f == c * pow10(frac.len()) + r,
        r < pow10(frac.len()),
        chars_num(whole) == i,
    ensures
        rounded_ms(whole, frac, f) == i * f + c + (if 2 * r >= pow10(frac.len()) {
            1nat
        } else {
            0nat
        }),
{
    let den = pow10(frac.len());
    lemma_pow10_positive(frac.len());
    lemma_chars_num_append(whole, frac);
    let n = chars_num(whole + frac);
    assert(n == i * den + chars_num(frac));
    let q = i * f + c;
    assert(n * f == q * den + r) by (nonlinear_arith)
        requires
            n == i * den + chars_num(frac),
            chars_num(frac) * f == c * den + r,
            q == i * f + c,
    ;
    let up: nat = if 2 * r >= den {
        1
    } else {
        0
    };
    let m: int = if 2 * r >= den {
        2 * r - den
    } else {
        (2 * r + den) as int
    };
    assert(2 * n * f + den == (q + up) * (2 * den) + m) by (nonlinear_arith)
        requires
            n * f == q * den + r,
            up == 0 ==> m == 2 * r + den,
            up == 1 ==> m == 2 * r - den,
            up == 0 || up == 1,
    ;
    assert(0 <= m < 2 * den);
    assert((2 * n * f + den) / (2 * den) == q + up) by (nonlinear_arith)
        requires
            2 * n * f + den == (q + up) * (2 * den) + m,
            0 <= m < 2 * den,
            den >= 1,
    ;
}

/// Whether `c` is a decimal digit.
fn is_digit_exec(c: char) -> (r: bool)
    ensures
        r == is_digit_char(c),
{
    c >= '0' && c <= '9'
}

/// Whether two texts are equal.
fn same_chars(a: &str, b: &str) -> (r: bool)
    ensures
        r == (a@ == b@),
{
    let n = a.unicode_len();
    if n != b.unicode_len() {
        return false;
    }
    let mut i: usize = 0;
    while i < n
        invariant
            n == a@.len(),
            n == b@.len(),
            i <= n,
            forall|j: int| 0 <= j < i ==> a@[j] == b@[j],
        decreases n - i,
    {
        if a.get_char(i) != b.get_char(i) {
            return false;
        }
        i = i + 1;
    }
    assert(a@ =~= b@);
    true
}

/// The number of milliseconds of the unit `u`.
fn unit_factor_of(u: &str) -> (r: Option<u64>)
    ensures
        match unit_factor(u@) {
            Some(f) => r == Some(f as u64),
            None => r is None,
        },
{
    proof {
        reveal_strlit("d");
        reveal_strlit("D");
        reveal_strlit("h");
        reveal_strlit("H");
        reveal_strlit("m");
        reveal_strlit("M");
        reveal_strlit("s");
        reveal_strlit("S");
        reveal_strlit("ms");
        reveal_strlit("MS");
        assert("d"@ =~= seq!['d']);
        assert("D"@ =~= seq!['D']);
        assert("h"@ =~= seq!['h']);
        assert("H"@ =~= seq!['H']);
        assert("m"@ =~= seq!['m']);
        assert("M"@ =~= seq!['M']);
        assert("s"@ =~= seq!['s']);
        assert("S"@ =~= seq!['S']);
        assert("ms"@ =~= seq!['m', 's']);
        assert("MS"@ =~= seq!['M', 'S']);
    }
    if same_chars(u, "d") || same_chars(u, "D") {
        Some(86_400_000)
    } else if same_chars(u, "h") || same_chars(u, "H") {
        Some(3_600_000)
    } else if same_chars(u, "m") || same_chars(u, "M") {
        Some(60_000)
    } else if same_chars(u, "s") || same_chars(u, "S") {
        Some(1000)
    } else if same_chars(u, "ms") || same_chars(u, "MS") {
        Some(1)
    } else {
        None
    }
}

/// The largest value that the integer part is counted up to: beyond it, every duration with
/// a unit is beyond `i64`.
pub open spec fn int_cap() -> nat {
    0x8000_0000_0000_0000
}

/// The value of the digits, or `int_cap()` if it is larger.
pub open spec fn capped(x: nat) -> nat {
    if x < int_cap() {
        x
    } else {
        int_cap()
    }
}

/// The integer digits at the start of `d`: their number and their value, capped.
fn integer_digits(d: &str) -> (r: (usize, u128))
    ensures
        r.0 == lead_digits(d@),
        r.1 == capped(chars_num(d@.take(r.0 as int))),
{
    let n = d.unicode_len();
    let ghost s = d@;
    let cap: u128 = 0x8000_0000_0000_0000;
    let mut ip: u128 = 0;
    let mut i: usize = 0;
    while i < n && is_digit_exec(d.get_char(i))
        invariant
            n == s.len(),
            s == d@,
            cap == int_cap(),
            i <= n,
            forall|k: int| 0 <= k < i ==> is_digit_char(#[trigger] s[k]),
            ip == capped(chars_num(s.take(i as int))),
        decreases n - i,
    {
        let c = d.get_char(i);
        assert(is_digit_char(c));
        let v = (c as u32 - '0' as u32) as u128;
        assert(v < 10);
        proof {
            let t = s.take(i + 1);
            assert(t.drop_last() =~= s.take(i as int));
            assert(t.last() == s[i as int]);
            assert(v == digit_val(s[i as int]));
        }
        ip = if ip >= cap {
            cap
        } else {
            let x = ip * 10 + v;
            if x >= cap {
                cap
            } else {
                x
            }
        };
        i = i + 1;
    }
    proof {
        lemma_lead_digits_exact(s, i as nat);
    }
    (i, ip)
}

/// The fraction digits of a duration whose integer digits end at `a` and whose number ends
/// at `after`.
pub open spec fn frac_text(d: Seq<char>, a: int, after: int) -> Seq<char> {
    if after > a {
        d.subrange(a + 1, after)
    } else {
        Seq::empty()
    }
}

/// The fraction digits of a duration, given the number `a` of its integer digits: their
/// values and where the text after the number starts; `None` for a '.' without digits.
#[verifier::spinoff_prover]
fn fraction_digits(d: &str, a: usize) -> (r: Option<(Vec<u8>, usize)>)
    requires
        a == lead_digits(d@),
    ensures
        r is None <==> duration_parts(d@) is None,
        r matches Some((frac, after)) ==> {
            let fp = frac_text(d@, a as int, after as int);
            &&& a <= after <= d@.len()
            &&& duration_parts(d@) == Some((d@.take(a as int), fp, d@.skip(after as int)))
            &&& frac@ == digit_values(fp)
            &&& forall|k: int| 0 <= k < fp.len() ==> is_digit_char(#[trigger] fp[k])
        },
{
    let n = d.unicode_len();
    let ghost s = d@;
    proof {
        lemma_lead_digits(s);
    }
    let mut frac: Vec<u8> = Vec::new();
    if a < n && d.get_char(a) == '.' {
        let mut j: usize = a + 1;
        while j < n && is_digit_exec(d.get_char(j))
            invariant
                n == s.len(),
                s == d@,
                a < j <= n,
                forall|k: int| a + 1 <= k < j ==> is_digit_char(#[trigger] s[k]),
                frac@ == digit_values(s.subrange(a + 1, j as int)),
            decreases n - j,
        {
            let c = d.get_char(j);
            assert(is_digit_char(c));
            let v = (c as u32 - '0' as u32) as u8;
            proof {
                assert(s.subrange(a + 1, j + 1) =~= s.subrange(a + 1, j as int).push(s[j as int]));
                assert(digit_values(s.subrange(a + 1, j + 1)) =~= digit_values(
                    s.subrange(a + 1, j as int),
                ).push(digit_val(s[j as int]) as u8));
            }
            frac.push(v);
            j = j + 1;
        }
        let ghost rest = s.skip(a as int);
        proof {
            assert(rest[0] == s[a as int]);
            assert(rest.skip(1) =~= s.skip(a + 1));
            assert forall|k: int| 0 <= k < j - a - 1 implies is_digit_char(#[trigger] s.skip(a + 1)[k]) by {
                assert(s.skip(a + 1)[k] == s[a + 1 + k]);
            }
            if j < n {
                assert(s.skip(a + 1)[j - a - 1] == s[j as int]);
            }
            lemma_lead_digits_exact(s.skip(a + 1), (j - a - 1) as nat);
        }
        if j == a + 1 {
            return None;
        }
        proof {
            let fp = frac_text(s, a as int, j as int);
            assert(fp == s.subrange(a + 1, j as int));
            assert(rest.subrange(1, 1 + (j - a - 1)) =~= fp);
            assert(rest.skip(1 + (j - a - 1)) =~= s.skip(j as int));
            assert forall|k: int| 0 <= k < fp.len() implies is_digit_char(#[trigger] fp[k]) by {
                assert(fp[k] == s[a + 1 + k]);
            }
        }
        Some((frac, j))
    } else {
        proof {
            let rest = s.skip(a as int);
            if a < n {
                assert(rest[0] == s[a as int]);
            }
            assert(frac@ =~= digit_values(frac_text(s, a as int, a as int)));
        }
        Some((frac, a))
    }
}

/// Multiplies the fraction digits by `f`, digit by digit from the right: the carry into
/// the integer part, and whether the digits below it round it up.
#[verifier::spinoff_prover]
fn scale_fraction(frac: &Vec<u8>, f: u64) -> (r: (u64, bool))
    requires
        1 <= f <= 86_400_000,
        forall|k: int| 0 <= k < frac@.len() ==> #[trigger] frac@[k] < 10,
    ensures
        r.0 <= f,
        vals_num(frac@) * f == r.0 * pow10(frac@.len()) + carry_rest(frac@, 0, f as nat),
        carry_rest(frac@, 0, f as nat) < pow10(frac@.len()),
        r.1 == (2 * carry_rest(frac@, 0, f as nat) >= pow10(frac@.len())),
{
    let mut carry: u64 = 0;
    let mut first: u64 = 0;
    let mut j: usize = frac.len();
    while j > 0
        invariant
            j <= frac@.len(),
            1 <= f <= 86_400_000,
            forall|k: int| 0 <= k < frac@.len() ==> #[trigger] frac@[k] < 10,
            carry == carry_out(frac@, j as int, f as nat),
            carry <= f,
            j < frac@.len() ==> first == (frac@[j as int] as nat * f + carry_out(
                frac@,
                j + 1,
                f as nat,
            )) % 10,
        decreases j,
    {
        j = j - 1;
        let d = frac[j] as u64;
        proof {
            assert(d * f <= 9 * f) by (nonlinear_arith)
                requires
                    d < 10,
            ;
        }
        let t = d * f + carry;
        first = t % 10;
        carry = t / 10;
    }
    let up = frac.len() > 0 && first >= 5;
    proof {
        let rest = carry_rest(frac@, 0, f as nat);
        lemma_carry(frac@, 0, f as nat);
        assert(frac@.skip(0) =~= frac@);
        if frac@.len() > 0 {
            lemma_round_digit(frac@, f as nat);
        } else {
            assert(rest == 0);
            lemma_pow10_positive(0);
        }
    }
    (carry, up)
}

/// a duration.
/// RegExp: "\\d*(\\.\\d+)?(ms|s|m|h|d))").
#[verifier::spinoff_prover]
pub fn parse_duration_to_milliseconds(d: &str) -> (r: i64)
    ensures
        r == duration_ms(d@),
{
    let n = d.unicode_len();
    if n == 0 {
        return 0;
    }
    let ghost s = d@;
    let (a, ip) = integer_digits(d);
    let (frac, after) = match fraction_digits(d, a) {
        None => {
            return -1;
        },
        Some(x) => x,
    };
    let ghost int_part = s.take(a as int);
    let ghost frac_part = frac_text(s, a as int, after as int);
    if a == 0 && frac.len() == 0 {
        return -1;
    }
    if after == n {
        assert(s.skip(after as int).len() == 0);
        return 0;
    }
    let unit = d.substring_char(after, n);
    assert(unit@ =~= s.skip(after as int));
    let f = match unit_factor_of(unit) {
        Some(f) => f,
        None => {
            return -1;
        },
    };
    proof {
        lemma_vals_num(frac_part);
        assert forall|k: int| 0 <= k < frac@.len() implies #[trigger] frac@[k] < 10 by {
            assert(is_digit_char(frac_part[k]));
        }
    }
    let (carry, round_up) = scale_fraction(&frac, f);
    let up: u128 = if round_up {
        1
    } else {
        0
    };
    proof {
        let rest = carry_rest(frac@, 0, f as nat);
        lemma_rounded(int_part, frac_part, f as nat, chars_num(int_part), carry as nat, rest);
    }
    assert(ip * (f as u128) <= 0x8000_0000_0000_0000u128 * 86_400_000u128) by (nonlinear_arith)
        requires
            ip <= 0x8000_0000_0000_0000u128,
            f <= 86_400_000,
    ;
    let total: u128 = ip * (f as u128) + (carry as u128) + up;
    proof {
        if chars_num(int_part) >= int_cap() {
            assert(ip == int_cap());
            assert(ip * (f as u128) >= ip) by (nonlinear_arith)
                requires
                    f >= 1,
            ;
            assert(chars_num(int_part) * f >= chars_num(int_part)) by (nonlinear_arith)
                requires
                    f >= 1,
            ;
        }
    }
    if total > 0x7FFF_FFFF_FFFF_FFFFu128 {
        i64::MAX
    } else {
        total as i64
    }
}

/// #W3C says:
/// The \<raise\> element raises an event in the current SCXML session.
/// Note that the event will not be processed until the current block of executable content
/// has completed and all events that are already in the internal event queue have been
/// processed.
pub struct Raise {
    pub event: String,
}

impl Raise {
    /// A raise of the event with the empty name.
    pub fn new() -> (r: Raise)
        ensures
            r.event@.len() == 0,
    {
        Raise { event: String::new() }
    }

    /// Puts the internal event named `event` last in the internal queue.
    pub fn execute(&self, internal_queue: &mut Queue<Event>) -> (r: bool)
        ensures
            r,
            final(internal_queue)@.len() == old(internal_queue)@.len() + 1,
            final(internal_queue)@.take(old(internal_queue)@.len() as int) == old(internal_queue)@,
            ({
                let e = final(internal_queue)@.last();
                &&& e.name@ == self.event@
                &&& e.etype == EventType::internal
                &&& e.sendid == 0
                &&& e.origin@.len() == 0
                &&& e.origintype@.len() == 0
                &&& e.invokeid == 0
                &&& e.data is None
            }),
    {
        let event = Event {
            name: self.event.clone(),
            etype: EventType::internal,
            sendid: 0,
            origin: String::new(),
            origintype: String::new(),
            invokeid: 0,
            data: None,
        };
        internal_queue.enqueue(event);
        assert(internal_queue@.take(old(internal_queue)@.len() as int) =~= old(internal_queue)@);
        true
    }
}

/// How a \<send\> proceeds once its target, delay and type are known.
#[derive(PartialEq, Eq, Debug)]
pub enum SendPlan {
    /// The send is aborted with "error.execution" on the internal queue.
    ErrorExecution,
    /// The event is scheduled for the I/O processor of the type, after the delay in
    /// milliseconds.
    Delayed(i64, String),
    /// The event is handed to the I/O processor of the type at once.
    Immediate(String),
}

/// The type of the SCXML Event I/O Processor.
pub open spec fn scxml_processor_type() -> Seq<char> {
    "http://www.w3.org/TR/scxml/#SCXMLEventProcessor"@
}

/// The delay of a \<send\>: the duration that the 'delayexpr' gave, if there is one, else
/// the 'delay' attribute in milliseconds.
pub open spec fn send_delay(delay_ms: u64, delay_text: Option<Seq<char>>) -> int {
    match delay_text {
        Some(t) => duration_ms(t),
        None => (delay_ms as i64) as int,
    }
}

/// Decides how a \<send\> proceeds: a negative delay, and a delay for the target
/// "#_internal", abort it with "error.execution"; the empty type is the SCXML Event I/O
/// Processor; a positive delay schedules the event, no delay sends it at once.
pub fn send_plan(delay_ms: u64, delay_text: Option<&str>, target: &str, type_value: &str) -> (r:
    SendPlan)
    ensures
        ({
            let d = send_delay(
                delay_ms,
                match delay_text {
                    Some(t) => Some(t@),
                    None => None,
                },
            );
            let ty = if type_value@.len() == 0 {
                scxml_processor_type()
            } else {
                type_value@
            };
            if d < 0 || (d > 0 && target@ == internal_target()) {
                r == SendPlan::ErrorExecution
            } else if d > 0 {
                r matches SendPlan::Delayed(ms, t) && ms == d && t@ == ty
            } else {
                r matches SendPlan::Immediate(t) && t@ == ty
            }
        }),
{
    let d: i64 = match delay_text {
        Some(t) => parse_duration_to_milliseconds(t),
        None => delay_ms as i64,
    };
    if d < 0 {
        return SendPlan::ErrorExecution;
    }
    proof {
        reveal_strlit("#_internal");
        assert("#_internal"@ =~= internal_target());
    }
    if d > 0 && same_chars(target, "#_internal") {
        return SendPlan::ErrorExecution;
    }
    let ty = if type_value.unicode_len() == 0 {
        String::from_str("http://www.w3.org/TR/scxml/#SCXMLEventProcessor")
    } else {
        String::from_str(type_value)
    };
    if d > 0 {
        SendPlan::Delayed(d, ty)
    } else {
        SendPlan::Immediate(ty)
    }
}

/// The id of a \<send\>: with an 'idlocation' an id is generated from the name of the parent
/// state and the platform counter ("<state>.<counter>"), else the 'id' attribute, if it is
/// not empty.
pub fn send_id(name_location: &str, name: &str, parent_state_name: &str, counter: u32) -> (r:
    Option<String>)
    ensures
        name_location@.len() == 0 && name@.len() == 0 ==> r is None,
        name_location@.len() == 0 && name@.len() > 0 ==> (r matches Some(s) && s@ == name@),
        name_location@.len() > 0 ==> (r matches Some(s) && s@ == parent_state_name@ + seq!['.']
            + decode_utf8(i64_text(counter as i64))),
{
    if name_location.unicode_len() == 0 {
        if name.unicode_len() == 0 {
            None
        } else {
            Some(String::from_str(name))
        }
    } else {
        let mut id = String::from_str(parent_state_name);
        id.append(".");
        let digits = i64_to_string(counter as i64);
        id.append(digits.as_str());
        proof {
            reveal_strlit(".");
        }
        Some(id)
    }
}

/// What became of a \<send\>.
#[derive(Debug)]
pub enum SendOutcome {
    /// The send failed; "error.execution" or "error.communication" is on the internal queue.
    Failed,
    /// The event goes to the SCXML Event I/O Processor once the delay (in milliseconds) is
    /// over.
    Scheduled(i64, Event),
    /// The event is on the internal queue.
    Raised,
    /// The event goes to the external queue of the sending session.
    External(Event),
    /// The event goes to the external queue of the session with that id.
    Delivered(u32, Event),
}

/// The types of the SCXML Event I/O Processor: its URI and "scxml".
pub open spec fn is_scxml_type(t: Seq<char>) -> bool {
    t == scxml_processor_type() || t == scxml_short_type()
}

/// Whether `t` names the SCXML Event I/O Processor.
fn scxml_type(t: &str) -> (r: bool)
    ensures
        r == is_scxml_type(t@),
{
    proof {
        reveal_strlit("scxml");
        assert("scxml"@ =~= scxml_short_type());
    }
    same_chars(t, "http://www.w3.org/TR/scxml/#SCXMLEventProcessor") || same_chars(t, "scxml")
}

/// Carries out a \<send\> of `event` from session `session_id`: a negative delay, a delay for
/// the target "#_internal" and a type other than the SCXML Event I/O Processor put
/// "error.execution" (with the event's send id and invoke id) on the internal queue; a
/// positive delay schedules the event; without a delay the processor routes it at once, and
/// what it puts on the internal queue (the event itself, or an error) is put there; where
/// the processor failed, "error.execution" follows its error. A send
/// to "#_parent" that reaches the processor needs the session to have a parent.
pub fn execute_send(
    processor: &ScxmlEventIOProcessor,
    session_id: u32,
    parent: Option<u32>,
    children: &Vec<(String, u32)>,
    delay_ms: u64,
    delay_text: Option<&str>,
    target: &str,
    type_value: &str,
    event: Event,
    internal_queue: &mut Queue<Event>,
) -> (r: SendOutcome)
    requires
        ({
            let d = send_delay(
                delay_ms,
                match delay_text {
                    Some(t) => Some(t@),
                    None => None,
                },
            );
            let ty = if type_value@.len() == 0 {
                scxml_processor_type()
            } else {
                type_value@
            };
            target@ == parent_target() && d == 0 && is_scxml_type(ty) ==> parent is Some
        }),
    ensures
        ({
            let d = send_delay(
                delay_ms,
                match delay_text {
                    Some(t) => Some(t@),
                    None => None,
                },
            );
            let ty = if type_value@.len() == 0 {
                scxml_processor_type()
            } else {
                type_value@
            };
            if d < 0 || (d > 0 && target@ == internal_target()) || !is_scxml_type(ty) {
                &&& r is Failed
                &&& final(internal_queue)@.len() == old(internal_queue)@.len() + 1
                &&& final(internal_queue)@.drop_last() == old(internal_queue)@
                &&& is_error_for(event, final(internal_queue)@.last(), execution_kind())
            } else if d > 0 {
                &&& r matches SendOutcome::Scheduled(ms, e) && ms == d && e == event
                &&& final(internal_queue)@ == old(internal_queue)@
            } else {
                exists|a: SendAction|
                    #[trigger] routed(
                        processor.location@,
                        session_id,
                        parent,
                        children@,
                        target@,
                        event,
                        a,
                    ) && match a {
                        SendAction::EnqueueInternal(e) => if target@ == internal_target() {
                            r is Raised && final(internal_queue)@ == old(internal_queue)@.push(e)
                        } else {
                            &&& r is Failed
                            &&& final(internal_queue)@.len() == old(internal_queue)@.len() + 2
                            &&& final(internal_queue)@.drop_last() == old(internal_queue)@.push(e)
                            &&& is_error_for(event, final(internal_queue)@.last(), execution_kind())
                        },
                        SendAction::EnqueueExternal(e) => (r matches SendOutcome::External(x) && x
                            == e) && final(internal_queue)@ == old(internal_queue)@,
                        SendAction::SendToSession(to, e) => (r matches SendOutcome::Delivered(t, x)
                            && t == to && x == e) && final(internal_queue)@ == old(internal_queue)@,
                    }
            }
        }),
{
    proof {
        reveal_strlit("execution");
        assert("execution"@ =~= execution_kind());
        reveal_strlit("#_internal");
        assert("#_internal"@ =~= internal_target());
    }
    let plan = send_plan(delay_ms, delay_text, target, type_value);
    match plan {
        SendPlan::ErrorExecution => {
            internal_queue.enqueue(Event::error_for("execution", &event));
            SendOutcome::Failed
        },
        SendPlan::Delayed(ms, ty) => {
            if !scxml_type(ty.as_str()) {
                internal_queue.enqueue(Event::error_for("execution", &event));
                SendOutcome::Failed
            } else {
                SendOutcome::Scheduled(ms, event)
            }
        },
        SendPlan::Immediate(ty) => {
            if !scxml_type(ty.as_str()) {
                internal_queue.enqueue(Event::error_for("execution", &event));
                return SendOutcome::Failed;
            }
            let internal = same_chars(target, "#_internal");
            let original = Event { name: event.name.clone(), etype: event.etype, sendid: event.sendid, origin: event.origin.clone(), origintype: event.origintype.clone(), invokeid: event.invokeid, data: event.data };
            let a = processor.send(session_id, parent, children, target, event);
            let ghost ga = a;
            match a {
                SendAction::EnqueueInternal(e) => {
                    internal_queue.enqueue(e);
                    if internal {
                        SendOutcome::Raised
                    } else {
                        internal_queue.enqueue(Event::error_for("execution", &original));
                        SendOutcome::Failed
                    }
                },
                SendAction::EnqueueExternal(e) => SendOutcome::External(e),
                SendAction::SendToSession(to, e) => SendOutcome::Delivered(to, e),
            }
        },
    }
}

} // verus!
