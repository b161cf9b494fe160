//! The time-literal codec: conversions between a nanosecond duration and its
//! canonical rendered form (`"12.345s"`, `"123ms"`, `"456789ns"`, with an
//! optional `"!!! "` stall marker).
//!
//! Parsing is deliberately lenient: an unrecognized or malformed literal
//! parses as zero rather than failing, so that minor drift in the dump format
//! does not abort trace reconstruction.
use vstd::prelude::*;

use crate::chars::ends_with_seq;
use crate::chars::find_char_in_range;
use crate::chars::range_starts_with;
use crate::chars::starts_with_seq;
use crate::chars::str_to_chars;
use crate::chars::chars_to_string;
use crate::chars::trim_end_range;
use crate::chars::trim_end_spec;
use crate::chars::is_trace_space;
use crate::chars::trim_spec;
use crate::chars::trim_start_range;
use crate::chars::trim_start_spec;

verus! {

/// Nanoseconds per millisecond.
pub const NS_PER_MS: u128 = 1_000_000;

/// Nanoseconds per second.
pub const NS_PER_SEC: u128 = 1_000_000_000;

/// A span whose elapsed time reaches this many nanoseconds is stalled unless
/// it is declared long-running.
pub const STALL_THRESHOLD_NS: u128 = 10_000_000_000;

/// Is `c` a decimal digit?
pub open spec fn is_digit_char(c: char) -> bool {
    c == '0' || c == '1' || c == '2' || c == '3' || c == '4' || c == '5' || c == '6' || c == '7'
        || c == '8' || c == '9'
}

/// Numeric value of a decimal digit character (zero for any other).
pub open spec fn digit_val(c: char) -> int {
    if c == '1' {
        1
    } else if c == '2' {
        2
    } else if c == '3' {
        3
    } else if c == '4' {
        4
    } else if c == '5' {
        5
    } else if c == '6' {
        6
    } else if c == '7' {
        7
    } else if c == '8' {
        8
    } else if c == '9' {
        9
    } else {
        0
    }
}

/// The decimal digit character for `d < 10`.
pub open spec fn digit_char(d: int) -> char {
    if d == 1 {
        '1'
    } else if d == 2 {
        '2'
    } else if d == 3 {
        '3'
    } else if d == 4 {
        '4'
    } else if d == 5 {
        '5'
    } else if d == 6 {
        '6'
    } else if d == 7 {
        '7'
    } else if d == 8 {
        '8'
    } else if d == 9 {
        '9'
    } else {
        '0'
    }
}

/// Every character of `s` is a decimal digit.
pub open spec fn all_digits(s: Seq<char>) -> bool {
    forall|i: int| 0 <= i < s.len() ==> is_digit_char(#[trigger] s[i])
}

/// The number denoted by a digit string (most significant first).
pub open spec fn digits_val(s: Seq<char>) -> int
    decreases s.len(),
{
    if s.len() == 0 {
        0
    } else {
        digits_val(s.drop_last()) * 10 + digit_val(s.last())
    }
}

/// Position of the first occurrence of `c` in `s` (`s.len()` if absent).
pub open spec fn first_index_of(s: Seq<char>, c: char) -> int
    decreases s.len(),
{
    if s.len() == 0 {
        0
    } else if s.first() == c {
        0
    } else {
        1 + first_index_of(s.drop_first(), c)
    }
}

/// Ten to the `k`.
pub open spec fn pow10(k: nat) -> int
    decreases k,
{
    if k == 0 {
        1
    } else {
        10 * pow10((k - 1) as nat)
    }
}

/// The digits of `s` before its first `.`, if any.
pub open spec fn int_part(s: Seq<char>) -> Seq<char> {
    s.take(first_index_of(s, '.'))
}

/// The digits of `s` after its first `.` (empty if there is none).
pub open spec fn frac_part(s: Seq<char>) -> Seq<char> {
    if first_index_of(s, '.') < s.len() {
        s.skip(first_index_of(s, '.') + 1)
    } else {
        Seq::empty()
    }
}

/// `s` is a plain decimal number: digits with at most one point and at
/// least one digit overall.
pub open spec fn valid_number(s: Seq<char>) -> bool {
    &&& all_digits(int_part(s))
    &&& all_digits(frac_part(s))
    &&& int_part(s).len() + frac_part(s).len() > 0
}

/// The value of the fractional digits `fp`, scaled by `10^k` and truncated
/// to an integer.
pub open spec fn frac_scaled(fp: Seq<char>, k: nat) -> int {
    if fp.len() <= k {
        digits_val(fp) * pow10((k - fp.len()) as nat)
    } else {
        digits_val(fp.take(k as int))
    }
}

/// The value of the decimal number `s`, scaled by `10^k` and truncated to an
/// integer.
pub open spec fn scaled_number_value(s: Seq<char>, k: nat) -> int {
    digits_val(int_part(s)) * pow10(k) + frac_scaled(frac_part(s), k)
}

/// The duration, in nanoseconds, denoted by a bare time literal.
///
/// Recognized forms, checked in this order: `<number>ms` (milliseconds,
/// truncated to whole nanoseconds), `<digits>ns` (exact nanoseconds) and
/// `<number>s` (seconds, truncated to whole nanoseconds).  Anything else —
/// including a value that does not fit in `u128` — denotes zero.
pub open spec fn spec_parse_time(s: Seq<char>) -> u128 {
    if ends_with_seq(s, seq!['m', 's']) {
        let body = s.take(s.len() - 2);
        if valid_number(body) && scaled_number_value(body, 6) <= u128::MAX as int {
            scaled_number_value(body, 6) as u128
        } else {
            0
        }
    } else if ends_with_seq(s, seq!['n', 's']) {
        let body = s.take(s.len() - 2);
        if all_digits(body) && body.len() > 0 && digits_val(body) <= u128::MAX as int {
            digits_val(body) as u128
        } else {
            0
        }
    } else if ends_with_seq(s, seq!['s']) {
        let body = s.take(s.len() - 1);
        if valid_number(body) && scaled_number_value(body, 9) <= u128::MAX as int {
            scaled_number_value(body, 9) as u128
        } else {
            0
        }
    } else {
        0
    }
}

/// `s` with every leading `!!!` group removed.
pub open spec fn strip_bangs(s: Seq<char>) -> Seq<char>
    decreases s.len(),
{
    if starts_with_seq(s, seq!['!', '!', '!']) {
        strip_bangs(s.skip(3))
    } else {
        s
    }
}

/// The duration denoted by an elapsed-time literal: a bare time literal,
/// optionally preceded by the `!!!` stall marker and surrounding whitespace.
pub open spec fn spec_parse_elapsed(s: Seq<char>) -> u128 {
    if starts_with_seq(s, seq!['!', '!', '!']) {
        spec_parse_time(trim_spec(strip_bangs(s)))
    } else {
        spec_parse_time(s)
    }
}

/// Decimal digits of `n`, most significant first, no leading zeros (except
/// for `n == 0` itself).
pub open spec fn dec_digits(n: nat) -> Seq<char>
    decreases n,
{
    if n < 10 {
        seq![digit_char(n as int)]
    } else {
        dec_digits(n / 10).push(digit_char((n % 10) as int))
    }
}

/// The canonical seconds literal for a duration: whole seconds, a point,
/// exactly three (truncated) fractional digits and the `s` suffix.
pub open spec fn spec_secs_literal(ns: u128) -> Seq<char> {
    let m = ((ns / NS_PER_MS as u128) % 1000) as nat;
    dec_digits((ns / NS_PER_SEC as u128) as nat) + seq!['.'] + seq![
        digit_char((m / 100) as int),
        digit_char(((m / 10) % 10) as int),
        digit_char((m % 10) as int),
    ] + seq!['s']
}

/// The canonical rendering of a duration, with the stall marker if asked.
pub open spec fn spec_render_time(ns: u128, stalled: bool) -> Seq<char> {
    if stalled {
        seq!['!', '!', '!', ' '] + spec_secs_literal(ns)
    } else {
        spec_secs_literal(ns)
    }
}

/// Numeric value of a digit character, or `None` for any other character.
pub fn digit_of_char(c: char) -> (r: Option<u8>)
    ensures
        r is Some <==> is_digit_char(c),
        r matches Some(d) ==> d as int == digit_val(c),
{
    match c {
        '0' => Some(0),
        '1' => Some(1),
        '2' => Some(2),
        '3' => Some(3),
        '4' => Some(4),
        '5' => Some(5),
        '6' => Some(6),
        '7' => Some(7),
        '8' => Some(8),
        '9' => Some(9),
        _ => None,
    }
}

/// The digit character for `d < 10`.
pub fn char_of_digit(d: u128) -> (r: char)
    requires
        d < 10,
    ensures
        r == digit_char(d as int),
{
    if d == 0 {
        '0'
    } else if d == 1 {
        '1'
    } else if d == 2 {
        '2'
    } else if d == 3 {
        '3'
    } else if d == 4 {
        '4'
    } else if d == 5 {
        '5'
    } else if d == 6 {
        '6'
    } else if d == 7 {
        '7'
    } else if d == 8 {
        '8'
    } else {
        '9'
    }
}

/// Digit strings denote non-negative numbers.
pub proof fn lemma_digits_val_nonneg(s: Seq<char>)
    ensures
        digits_val(s) >= 0,
    decreases s.len(),
{
    if s.len() > 0 {
        lemma_digits_val_nonneg(s.drop_last());
    }
}

/// Extending a digit string to the right can only grow its value.
pub proof fn lemma_digits_val_prefix_le(s: Seq<char>, n: int)
    requires
        0 <= n <= s.len(),
    ensures
        digits_val(s.take(n)) <= digits_val(s),
    decreases s.len() - n,
{
    if n < s.len() {
        lemma_digits_val_prefix_le(s, n + 1);
        let t = s.take(n + 1);
        assert(t.drop_last() =~= s.take(n));
        lemma_digits_val_nonneg(s.take(n));
        assert(digits_val(s.take(n)) <= digits_val(t));
    } else {
        assert(s.take(n) =~= s);
    }
}

/// Does `v[lo..hi]` consist of digits only?
pub fn range_all_digits(v: &Vec<char>, lo: usize, hi: usize) -> (r: bool)
    requires
        lo <= hi <= v@.len(),
    ensures
        r == all_digits(v@.subrange(lo as int, hi as int)),
{
    let mut i: usize = lo;
    while i < hi
        invariant
            lo <= i <= hi <= v@.len(),
            forall|j: int| lo <= j < i ==> is_digit_char(#[trigger] v@[j]),
        decreases hi - i,
    {
        if digit_of_char(v[i]).is_none() {
            proof {
                assert(v@.subrange(lo as int, hi as int)[i - lo] == v@[i as int]);
            }
            return false;
        }
        i = i + 1;
    }
    proof {
        assert forall|j: int| 0 <= j < hi - lo implies is_digit_char(
            #[trigger] v@.subrange(lo as int, hi as int)[j],
        ) by {
            assert(v@.subrange(lo as int, hi as int)[j] == v@[lo + j]);
        }
    }
    true
}

/// The value of the digit string `v[lo..hi]`, or `None` if it holds a
/// non-digit or its value exceeds `u128::MAX` (the empty range has value 0).
pub fn parse_digits_u128(v: &Vec<char>, lo: usize, hi: usize) -> (r: Option<u128>)
    requires
        lo <= hi <= v@.len(),
    ensures
        ({
            let s = v@.subrange(lo as int, hi as int);
            match r {
                Some(x) => all_digits(s) && x as int == digits_val(s),
                None => !(all_digits(s) && digits_val(s) <= u128::MAX as int),
            }
        }),
{
    let ghost s = v@.subrange(lo as int, hi as int);
    let mut acc: u128 = 0;
    let mut i: usize = lo;
    while i < hi
        invariant
            lo <= i <= hi <= v@.len(),
            s == v@.subrange(lo as int, hi as int),
            all_digits(s.take(i - lo)),
            acc == digits_val(s.take(i - lo)),
        decreases hi - i,
    {
        proof {
            assert(s[i - lo] == v@[i as int]);
        }
        match digit_of_char(v[i]) {
            None => {
                return None;
            },
            Some(d) => {
                let du = d as u128;
                if acc > (u128::MAX - du) / 10 {
                    proof {
                        let t = s.take(i - lo + 1);
                        assert(t.drop_last() =~= s.take(i - lo));
                        assert(t.last() == v@[i as int]);
                        assert(digits_val(t) == acc * 10 + du);
                        vstd::arithmetic::div_mod::lemma_fundamental_div_mod(
                            (u128::MAX - du) as int,
                            10,
                        );
                        assert(acc * 10 + du > u128::MAX as int);
                        lemma_digits_val_prefix_le(s, i - lo + 1);
                    }
                    return None;
                }
                proof {
                    vstd::arithmetic::div_mod::lemma_fundamental_div_mod(
                        (u128::MAX - du) as int,
                        10,
                    );
                    assert(acc * 10 + du <= u128::MAX as int);
                    let t = s.take(i - lo + 1);
                    assert(t.drop_last() =~= s.take(i - lo));
                    assert(t.last() == v@[i as int]);
                }
                acc = acc * 10 + du;
            },
        }
        i = i + 1;
    }
    proof {
        assert(s.take(hi - lo) =~= s);
    }
    Some(acc)
}

/// `10^e` for small exponents.
pub fn pow10_u128(e: usize) -> (r: u128)
    requires
        e <= 9,
    ensures
        r as int == pow10(e as nat),
        r >= 1,
{
    let mut r: u128 = 1;
    let mut i: usize = 0;
    while i < e
        invariant
            0 <= i <= e <= 9,
            r as int == pow10(i as nat),
            r <= 1000000000,
        decreases e - i,
    {
        proof {
            lemma_pow10_9();
            lemma_pow10_increases((i + 1) as nat, 9);
            assert(pow10((i + 1) as nat) == 10 * pow10(i as nat));
        }
        r = r * 10;
        i = i + 1;
    }
    proof {
        lemma_pow10_increases(0, e as nat);
    }
    r
}

/// The numeric value of `10^9`.
pub proof fn lemma_pow10_9()
    ensures
        pow10(9) == 1000000000,
{
    reveal_with_fuel(pow10, 11);
}

/// `pow10` grows with its exponent.
pub proof fn lemma_pow10_increases(a: nat, b: nat)
    requires
        a <= b,
    ensures
        pow10(a) <= pow10(b),
        pow10(a) >= 1,
    decreases b,
{
    if a < b {
        lemma_pow10_increases(a, (b - 1) as nat);
        assert(pow10(b) == 10 * pow10((b - 1) as nat));
    } else if b > 0 {
        lemma_pow10_increases((a - 1) as nat, (b - 1) as nat);
        assert(pow10(b) == 10 * pow10((b - 1) as nat));
    }
}

/// The value of the decimal number `v[lo..hi]` scaled by `10^k` and
/// truncated, or zero if the range is not a valid number or the scaled value
/// does not fit in `u128`.
pub fn parse_number_scaled(v: &Vec<char>, lo: usize, hi: usize, k: usize) -> (r: u128)
    requires
        lo <= hi <= v@.len(),
        1 <= k <= 9,
    ensures
        ({
            let s = v@.subrange(lo as int, hi as int);
            r == if valid_number(s) && scaled_number_value(s, k as nat) <= u128::MAX {
                scaled_number_value(s, k as nat) as u128
            } else {
                0
            }
        }),
{
    let ghost s = v@.subrange(lo as int, hi as int);
    let dot = find_char_in_range(v, lo, hi, '.');
    let (ip_hi, fp_lo): (usize, usize) = match dot {
        Some(d) => (d, d + 1),
        None => (hi, hi),
    };
    proof {
        lemma_first_index_of_subrange(v@, lo as int, hi as int, '.', dot);
        assert(int_part(s) =~= v@.subrange(lo as int, ip_hi as int));
        if dot is Some {
            assert(frac_part(s) =~= v@.subrange(fp_lo as int, hi as int));
        } else {
            assert(frac_part(s) =~= v@.subrange(fp_lo as int, hi as int));
        }
    }
    let fp_hi = hi;
    // All of the fractional part must be digits, even beyond the first k.
    if !range_all_digits(v, fp_lo, fp_hi) {
        return 0;
    }
    if ip_hi == lo && fp_lo == fp_hi {
        return 0;
    }
    let ival = match parse_digits_u128(v, lo, ip_hi) {
        Some(x) => x,
        None => {
            proof {
                lemma_pow10_increases(0, k as nat);
                lemma_frac_scaled_nonneg(frac_part(s), k as nat);
                if valid_number(s) {
                    lemma_digits_val_nonneg(int_part(s));
                    assert(digits_val(int_part(s)) > u128::MAX as int);
                    assert(digits_val(int_part(s)) * pow10(k as nat) >= digits_val(int_part(s)))
                        by (nonlinear_arith)
                        requires
                            pow10(k as nat) >= 1,
                            digits_val(int_part(s)) >= 0,
                    ;
                }
            }
            return 0;
        },
    };
    // Truncation: only the first k fractional digits contribute.
    let f_take: usize = if fp_hi - fp_lo <= k {
        fp_hi
    } else {
        fp_lo + k
    };
    let fval = match parse_digits_u128(v, fp_lo, f_take) {
        Some(x) => x,
        None => {
            proof {
                let fp = frac_part(s);
                let ft = v@.subrange(fp_lo as int, f_take as int);
                if fp.len() <= k as nat {
                    assert(ft =~= fp);
                } else {
                    assert(ft =~= fp.take(k as int));
                    assert(all_digits(fp.take(k as int))) by {
                        assert(forall|j: int|
                            0 <= j < k ==> fp.take(k as int)[j] == #[trigger] fp[j]);
                    }
                }
                lemma_digits_val_bounded(ft);
                lemma_pow10_increases(ft.len(), 9);
                lemma_pow10_9();
                assert(false);
            }
            0
        },
    };
    let ghost flen = (f_take - fp_lo) as nat;
    proof {
        let fp = frac_part(s);
        if fp.len() > k as nat {
            assert(v@.subrange(fp_lo as int, f_take as int) =~= fp.take(k as int));
        } else {
            assert(v@.subrange(fp_lo as int, f_take as int) =~= fp);
        }
        lemma_digits_val_bounded(v@.subrange(fp_lo as int, f_take as int));
    }
    let scale: u128 = pow10_u128(k - (f_take - fp_lo));
    proof {
        lemma_pow10_mul(flen, (k - flen) as nat);
        lemma_pow10_increases(k as nat, 9);
        lemma_pow10_9();
        assert(fval * scale < pow10(flen) * pow10((k - flen) as nat)) by (nonlinear_arith)
            requires
                0 <= fval < pow10(flen),
                1 <= scale,
                scale == pow10((k - flen) as nat),
        ;
    }
    let fscaled: u128 = fval * scale;
    proof {
        let fp = frac_part(s);
        if fp.len() <= k as nat {
            assert(fval as int == digits_val(fp));
            assert(flen == fp.len());
            assert(fscaled as int == digits_val(fp) * pow10((k as nat - fp.len()) as nat))
                by (nonlinear_arith)
                requires
                    fscaled as int == fval as int * scale as int,
                    fval as int == digits_val(fp),
                    scale as int == pow10((k as nat - fp.len()) as nat),
            ;
        } else {
            assert(fval as int == digits_val(fp.take(k as int)));
            assert(flen == k as nat);
            assert(scale == 1);
        }
        assert(fscaled as int == frac_scaled(fp, k as nat));
        assert(fscaled <= 1000000000);
    }
    let kpow: u128 = pow10_u128(k);
    if ival > (u128::MAX - fscaled) / kpow {
        proof {
            vstd::arithmetic::div_mod::lemma_fundamental_div_mod(
                (u128::MAX - fscaled) as int,
                kpow as int,
            );
            let q = ((u128::MAX - fscaled) as u128 / kpow) as int;
            assert(ival * kpow >= (q + 1) * kpow) by (nonlinear_arith)
                requires
                    ival >= q + 1,
                    kpow >= 1,
            ;
            assert((q + 1) * kpow == q * kpow + kpow) by (nonlinear_arith);
            assert(q * kpow == kpow * q) by (nonlinear_arith);
            assert(ival * kpow + fscaled > u128::MAX as int);
        }
        return 0;
    }
    proof {
        vstd::arithmetic::div_mod::lemma_fundamental_div_mod(
            (u128::MAX - fscaled) as int,
            kpow as int,
        );
        let q = ((u128::MAX - fscaled) as u128 / kpow) as int;
        assert(ival * kpow <= q * kpow) by (nonlinear_arith)
            requires
                0 <= ival <= q,
                kpow >= 1,
        ;
        assert(q * kpow == kpow * q) by (nonlinear_arith);
        assert(ival * kpow + fscaled <= u128::MAX as int);
        lemma_frac_scaled_nonneg(frac_part(s), k as nat);
        lemma_digits_val_nonneg(v@.subrange(lo as int, ip_hi as int));
    }
    ival * kpow + fscaled
}

/// `pow10` turns addition of exponents into multiplication.
pub proof fn lemma_pow10_mul(a: nat, b: nat)
    ensures
        pow10(a) * pow10(b) == pow10(a + b),
    decreases a,
{
    if a == 0 {
    } else {
        lemma_pow10_mul((a - 1) as nat, b);
        assert(pow10(a) * pow10(b) == 10 * (pow10((a - 1) as nat) * pow10(b))) by (nonlinear_arith)
            requires
                pow10(a) == 10 * pow10((a - 1) as nat),
        ;
    }
}

/// A digit string of length `n` denotes a value below `10^n`.
pub proof fn lemma_digits_val_bounded(s: Seq<char>)
    ensures
        0 <= digits_val(s) < pow10(s.len()),
    decreases s.len(),
{
    if s.len() == 0 {
    } else {
        lemma_digits_val_bounded(s.drop_last());
        assert(pow10(s.len()) == 10 * pow10((s.len() - 1) as nat));
        assert(digits_val(s.drop_last()) * 10 + digit_val(s.last()) < 10 * pow10(
            (s.len() - 1) as nat,
        )) by (nonlinear_arith)
            requires
                digits_val(s.drop_last()) < pow10((s.len() - 1) as nat),
                digit_val(s.last()) < 10,
                0 <= digits_val(s.drop_last()),
                0 <= digit_val(s.last()),
        ;
    }
}

/// Fractional scaling is non-negative.
pub proof fn lemma_frac_scaled_nonneg(fp: Seq<char>, k: nat)
    ensures
        frac_scaled(fp, k) >= 0,
{
    if fp.len() <= k {
        lemma_digits_val_nonneg(fp);
        lemma_pow10_increases(0, (k - fp.len()) as nat);
        assert(digits_val(fp) * pow10((k - fp.len()) as nat) >= 0) by (nonlinear_arith)
            requires
                digits_val(fp) >= 0,
                pow10((k - fp.len()) as nat) >= 1,
        ;
    } else {
        lemma_digits_val_nonneg(fp.take(k as int));
    }
}

/// `first_index_of` on a subrange agrees with a search over the range.
pub proof fn lemma_first_index_of_subrange(v: Seq<char>, lo: int, hi: int, c: char, found: Option<usize>)
    requires
        0 <= lo <= hi <= v.len(),
        match found {
            Some(i) => lo <= i < hi && v[i as int] == c && forall|j: int|
                lo <= j < i ==> v[j] != c,
            None => forall|j: int| lo <= j < hi ==> v[j] != c,
        },
    ensures
        first_index_of(v.subrange(lo, hi), c) == (match found {
            Some(i) => i - lo,
            None => hi - lo,
        }),
    decreases hi - lo,
{
    let s = v.subrange(lo, hi);
    if s.len() == 0 {
    } else if s.first() == c {
        assert(v[lo] == c);
    } else {
        assert(s.drop_first() =~= v.subrange(lo + 1, hi));
        lemma_first_index_of_subrange(v, lo + 1, hi, c, found);
    }
}

/// The duration denoted by the bare time literal `v[lo..hi]`.
pub fn parse_time_range(v: &Vec<char>, lo: usize, hi: usize) -> (r: u128)
    requires
        lo <= hi <= v@.len(),
    ensures
        r == spec_parse_time(v@.subrange(lo as int, hi as int)),
{
    let ghost s = v@.subrange(lo as int, hi as int);
    let mut ms_pat: Vec<char> = Vec::new();
    ms_pat.push('m');
    ms_pat.push('s');
    let mut ns_pat: Vec<char> = Vec::new();
    ns_pat.push('n');
    ns_pat.push('s');
    let mut s_pat: Vec<char> = Vec::new();
    s_pat.push('s');
    proof {
        assert(ms_pat@ =~= seq!['m', 's']);
        assert(ns_pat@ =~= seq!['n', 's']);
        assert(s_pat@ =~= seq!['s']);
    }
    if crate::chars::range_ends_with(v, lo, hi, &ms_pat) {
        proof {
            assert(s.take(s.len() - 2) =~= v@.subrange(lo as int, hi - 2));
        }
        parse_number_scaled(v, lo, hi - 2, 6)
    } else if crate::chars::range_ends_with(v, lo, hi, &ns_pat) {
        proof {
            assert(s.take(s.len() - 2) =~= v@.subrange(lo as int, hi - 2));
        }
        if hi - 2 == lo {
            return 0;
        }
        match parse_digits_u128(v, lo, hi - 2) {
            Some(x) => x,
            None => 0,
        }
    } else if crate::chars::range_ends_with(v, lo, hi, &s_pat) {
        proof {
            assert(s.take(s.len() - 1) =~= v@.subrange(lo as int, hi - 1));
        }
        parse_number_scaled(v, lo, hi - 1, 9)
    } else {
        0
    }
}

/// The duration denoted by the elapsed-time literal `v[lo..hi]` (optional
/// stall marker, then a bare time literal).
pub fn parse_elapsed_range(v: &Vec<char>, lo: usize, hi: usize) -> (r: u128)
    requires
        lo <= hi <= v@.len(),
    ensures
        r == spec_parse_elapsed(v@.subrange(lo as int, hi as int)),
{
    let mut bang_pat: Vec<char> = Vec::new();
    bang_pat.push('!');
    bang_pat.push('!');
    bang_pat.push('!');
    proof {
        assert(bang_pat@ =~= seq!['!', '!', '!']);
    }
    if !range_starts_with(v, lo, hi, &bang_pat) {
        return parse_time_range(v, lo, hi);
    }
    let mut p: usize = lo;
    while range_starts_with(v, p, hi, &bang_pat)
        invariant
            lo <= p <= hi <= v@.len(),
            bang_pat@ =~= seq!['!', '!', '!'],
            strip_bangs(v@.subrange(p as int, hi as int)) == strip_bangs(
                v@.subrange(lo as int, hi as int),
            ),
        decreases hi - p,
    {
        proof {
            assert(v@.subrange(p as int, hi as int).skip(3) =~= v@.subrange(p + 3, hi as int));
        }
        p = p + 3;
    }
    proof {
        assert(strip_bangs(v@.subrange(p as int, hi as int)) == v@.subrange(p as int, hi as int));
    }
    let te = trim_end_range(v, p, hi);
    let ts = trim_start_range(v, p, te);
    proof {
        assert(v@.subrange(ts as int, te as int) == trim_spec(v@.subrange(p as int, hi as int)));
    }
    parse_time_range(v, ts, te)
}

/// Parses the elapsed time in nanoseconds from an elapsed-time literal such
/// as `"456789ns"` or `"!!! 12.345s"`.
pub fn parse_elapsed_ns(s: &str) -> (r: u128)
    ensures
        r == spec_parse_elapsed(s@),
{
    let v = str_to_chars(s);
    let n = v.len();
    proof {
        assert(v@.subrange(0, v@.len() as int) =~= v@);
    }
    parse_elapsed_range(&v, 0, n)
}

/// Converts a bare formatted time string — `"12.345s"`, `"123ms"` or
/// `"456789ns"` — to nanoseconds.
pub fn parse_time_str(s: &str) -> (r: u128)
    ensures
        r == spec_parse_time(s@),
{
    let v = str_to_chars(s);
    let n = v.len();
    proof {
        assert(v@.subrange(0, v@.len() as int) =~= v@);
    }
    parse_time_range(&v, 0, n)
}

/// Appends the decimal digits of `n` to `out`.
pub fn push_dec_digits(out: &mut Vec<char>, n: u128)
    ensures
        final(out)@ == old(out)@ + dec_digits(n as nat),
    decreases n,
{
    if n < 10 {
        out.push(char_of_digit(n));
        proof {
            assert(out@ =~= old(out)@ + dec_digits(n as nat));
        }
    } else {
        push_dec_digits(out, n / 10);
        out.push(char_of_digit(n % 10));
        proof {
            assert(out@ =~= old(out)@ + dec_digits(n as nat));
        }
    }
}

/// Appends the canonical seconds literal for `ns` to `out`.
pub fn push_secs_literal(out: &mut Vec<char>, ns: u128)
    ensures
        final(out)@ == old(out)@ + spec_secs_literal(ns),
{
    push_dec_digits(out, ns / NS_PER_SEC);
    out.push('.');
    let m: u128 = (ns / NS_PER_MS) % 1000;
    out.push(char_of_digit(m / 100));
    out.push(char_of_digit((m / 10) % 10));
    out.push(char_of_digit(m % 10));
    out.push('s');
    proof {
        assert(out@ =~= old(out)@ + spec_secs_literal(ns));
    }
}

/// Renders a duration in the canonical form, e.g. `"21.283s"`, prefixed by
/// the stall marker `"!!! "` when `stalled` is set.
pub fn render_time(ns: u128, stalled: bool) -> (r: String)
    ensures
        r@ == spec_render_time(ns, stalled),
{
    let mut out: Vec<char> = Vec::new();
    if stalled {
        out.push('!');
        out.push('!');
        out.push('!');
        out.push(' ');
    }
    push_secs_literal(&mut out, ns);
    proof {
        assert(out@ =~= spec_render_time(ns, stalled));
    }
    chars_to_string(&out)
}


/// A digit character denotes the digit it was made from.
pub proof fn lemma_digit_roundtrip(x: int)
    requires
        0 <= x < 10,
    ensures
        digit_val(digit_char(x)) == x,
        is_digit_char(digit_char(x)),
{
}

/// The decimal rendering of `n` consists of digits and denotes `n`.
pub proof fn lemma_dec_digits(n: nat)
    ensures
        all_digits(dec_digits(n)),
        digits_val(dec_digits(n)) == n,
        dec_digits(n).len() >= 1,
        is_digit_char(dec_digits(n)[0]),
    decreases n,
{
    if n < 10 {
        lemma_digit_roundtrip(n as int);
        let d = dec_digits(n);
        assert(d.drop_last() =~= Seq::<char>::empty());
        assert(d.last() == digit_char(n as int));
        assert(digits_val(Seq::<char>::empty()) == 0);
        assert(digits_val(d) == n);
    } else {
        lemma_dec_digits(n / 10);
        lemma_digit_roundtrip((n % 10) as int);
        let d = dec_digits(n);
        assert(d.drop_last() =~= dec_digits(n / 10));
        assert(d.last() == digit_char((n % 10) as int));
        vstd::arithmetic::div_mod::lemma_fundamental_div_mod(n as int, 10);
        assert(digits_val(d) == (n / 10) * 10 + (n % 10));
        assert forall|i: int| 0 <= i < d.len() implies is_digit_char(#[trigger] d[i]) by {
            if i < d.len() - 1 {
                assert(d[i] == dec_digits(n / 10)[i]);
            }
        }
        assert(d[0] == dec_digits(n / 10)[0]);
    }
}

/// `first_index_of` finds the position of the first occurrence.
pub proof fn lemma_first_index_of_at(s: Seq<char>, c: char, i: int)
    requires
        0 <= i < s.len(),
        s[i] == c,
        forall|j: int| 0 <= j < i ==> s[j] != c,
    ensures
        first_index_of(s, c) == i,
    decreases i,
{
    if i == 0 {
    } else {
        assert(s.first() != c);
        assert(s.drop_first()[i - 1] == s[i]);
        assert forall|j: int| 0 <= j < i - 1 implies s.drop_first()[j] != c by {
            assert(s.drop_first()[j] == s[j + 1]);
        }
        lemma_first_index_of_at(s.drop_first(), c, i - 1);
    }
}

/// The numeric values of `10^6` and `10^9`.
pub proof fn lemma_pow10_values()
    ensures
        pow10(6) == 1000000,
        pow10(9) == 1000000000,
{
    reveal_with_fuel(pow10, 11);
}

/// Parsing the canonical seconds literal of a duration recovers the duration
/// truncated to whole milliseconds.
pub proof fn lemma_parse_secs_literal(ns: u128)
    ensures
        spec_parse_time(spec_secs_literal(ns)) as int == (ns as int / 1000000) * 1000000,
{
    let q = (ns / NS_PER_SEC) as nat;
    let m = ((ns / NS_PER_MS) % 1000) as nat;
    let dd = dec_digits(q);
    lemma_dec_digits(q);
    lemma_digit_roundtrip((m / 100) as int);
    lemma_digit_roundtrip(((m / 10) % 10) as int);
    lemma_digit_roundtrip((m % 10) as int);
    let p3 = seq![
        digit_char((m / 100) as int),
        digit_char(((m / 10) % 10) as int),
        digit_char((m % 10) as int),
    ];
    let body = spec_secs_literal(ns);
    assert(body =~= dd + seq!['.'] + p3 + seq!['s']);
    let n = body.len() as int;
    assert(n == dd.len() + 5);
    assert(body[n - 1] == 's');
    assert(body[n - 2] == p3[2]);
    // The literal ends in `s` but in neither `ms` nor `ns`.
    assert(ends_with_seq(body, seq!['s'])) by {
        assert(body.subrange(n - 1, n) =~= seq!['s']);
    }
    assert(!ends_with_seq(body, seq!['m', 's'])) by {
        if ends_with_seq(body, seq!['m', 's']) {
            assert(body.subrange(n - 2, n)[0] == 'm');
        }
    }
    assert(!ends_with_seq(body, seq!['n', 's'])) by {
        if ends_with_seq(body, seq!['n', 's']) {
            assert(body.subrange(n - 2, n)[0] == 'n');
        }
    }
    let num = body.take(n - 1);
    assert(num =~= dd + seq!['.'] + p3);
    // The point sits right after the whole-second digits.
    assert(num[dd.len() as int] == '.');
    assert forall|j: int| 0 <= j < dd.len() implies num[j] != '.' by {
        assert(num[j] == dd[j]);
        assert(is_digit_char(dd[j]));
    }
    lemma_first_index_of_at(num, '.', dd.len() as int);
    assert(int_part(num) =~= dd);
    assert(frac_part(num) =~= p3);
    // The three fractional digits denote m.
    assert(digits_val(p3) == m) by {
        assert(p3.drop_last() =~= seq![p3[0], p3[1]]);
        assert(seq![p3[0], p3[1]].drop_last() =~= seq![p3[0]]);
        assert(seq![p3[0]].drop_last() =~= Seq::<char>::empty());
        vstd::arithmetic::div_mod::lemma_fundamental_div_mod(m as int, 10);
        vstd::arithmetic::div_mod::lemma_fundamental_div_mod(m as int / 10, 10);
        vstd::arithmetic::div_mod::lemma_div_denominator(m as int, 10, 10);
        assert(m as int / 100 == (m as int / 10) / 10);
        assert(digits_val(Seq::<char>::empty()) == 0);
        assert(digits_val(seq![p3[0]]) == digit_val(p3[0]));
        assert(digits_val(seq![p3[0], p3[1]]) == digit_val(p3[0]) * 10 + digit_val(p3[1]));
        assert(digits_val(p3) == ((m as int / 100) * 10 + (m as int / 10) % 10) * 10 + m as int
            % 10);
    }
    assert(all_digits(p3)) by {
        assert forall|j: int| 0 <= j < 3 implies is_digit_char(#[trigger] p3[j]) by {
        }
    }
    assert(valid_number(num));
    lemma_pow10_values();
    let scaled = scaled_number_value(num, 9);
    assert(frac_scaled(p3, 9) == m * 1000000) by {
        lemma_pow10_mul(3, 6);
        assert(pow10(3) * pow10(6) == pow10(9));
        assert(frac_scaled(p3, 9) == digits_val(p3) * pow10(6));
    }
    assert(scaled == q * 1000000000 + m * 1000000);
    // q * 1e9 + m * 1e6 is exactly ns truncated to whole milliseconds.
    let qi = q as int;
    let mi = m as int;
    vstd::arithmetic::div_mod::lemma_div_denominator(ns as int, 1000000, 1000);
    assert((ns as int / 1000000) / 1000 == ns as int / 1000000000);
    vstd::arithmetic::div_mod::lemma_fundamental_div_mod(ns as int / 1000000, 1000);
    assert(ns as int / 1000000 == 1000 * qi + mi);
    assert((1000 * qi + mi) * 1000000 == qi * 1000000000 + mi * 1000000) by (nonlinear_arith);
    assert(scaled == (ns as int / 1000000) * 1000000);
    vstd::arithmetic::div_mod::lemma_fundamental_div_mod(ns as int, 1000000);
    assert((ns as int / 1000000) * 1000000 == 1000000 * (ns as int / 1000000)) by (nonlinear_arith);
    assert(scaled <= ns);
    assert(spec_parse_time(body) == scaled as u128);
}

/// Law: parsing back a rendered elapsed-time literal recovers the duration
/// truncated to whole milliseconds — exactly, when the duration is a whole
/// number of milliseconds (the canonical form carries exactly three
/// fractional digits).
pub proof fn lemma_time_literal_inverse(ns: u128, stalled: bool)
    ensures
        spec_parse_elapsed(spec_render_time(ns, stalled)) as int == (ns as int / 1000000)
            * 1000000,
        ns as int % 1000000 == 0 ==> spec_parse_elapsed(spec_render_time(ns, stalled)) == ns,
{
    let body = spec_secs_literal(ns);
    let q = (ns / NS_PER_SEC) as nat;
    lemma_dec_digits(q);
    lemma_parse_secs_literal(ns);
    assert(body[0] == dec_digits(q)[0]);
    assert(is_digit_char(body[0]));
    if stalled {
        let r = seq!['!', '!', '!', ' '] + body;
        assert(spec_render_time(ns, true) == r);
        assert(starts_with_seq(r, seq!['!', '!', '!'])) by {
            assert(r.subrange(0, 3) =~= seq!['!', '!', '!']);
        }
        let r2 = r.skip(3);
        assert(r2 =~= seq![' '] + body);
        assert(!starts_with_seq(r2, seq!['!', '!', '!'])) by {
            if starts_with_seq(r2, seq!['!', '!', '!']) {
                assert(r2.subrange(0, 3)[0] == ' ');
            }
        }
        assert(strip_bangs(r2) == r2);
        assert(strip_bangs(r) == r2);
        // Trimming the stripped literal leaves exactly the seconds literal.
        assert(!is_trace_space(body.last()));
        assert(r2.last() == body.last());
        assert(trim_end_spec(r2) == r2);
        assert(r2.first() == ' ');
        assert(r2.drop_first() =~= body);
        assert(trim_start_spec(r2) == trim_start_spec(body));
        assert(!is_trace_space(body.first()));
        assert(trim_start_spec(body) == body);
        assert(trim_spec(strip_bangs(r)) == body);
    } else {
        let r = spec_render_time(ns, false);
        assert(r == body);
        assert(!starts_with_seq(r, seq!['!', '!', '!'])) by {
            if starts_with_seq(r, seq!['!', '!', '!']) {
                assert(r.subrange(0, 3)[0] == body[0]);
            }
        }
    }
    vstd::arithmetic::div_mod::lemma_fundamental_div_mod(ns as int, 1000000);
}

} // verus!
