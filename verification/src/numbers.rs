//! Exact decimal numbers, as cell contents hold them.
//!
//! A cell's content counts as numeric when it is an optional sign followed by
//! decimal digits with at most one point, with at least one digit, and small
//! enough to fit the library's fixed-point range: at most [`MAX_INT_DIGITS`]
//! digits before the point and [`MAX_FRAC_DIGITS`] after it, once leading
//! integer zeros and trailing fractional zeros are dropped.  Everything else —
//! including exponent notation and non-finite spellings — is treated as plain
//! text by the formatter and skipped by the aggregators.

use vstd::prelude::*;
use crate::text::{append_chars, repeat_char, subrange_chars};

verus! {

/// Most digits allowed before the decimal point.
pub const MAX_INT_DIGITS: usize = 12;

/// Most digits allowed after the decimal point.
pub const MAX_FRAC_DIGITS: usize = 6;

/// A parsed decimal number has its magnitude below this bound, in
/// fixed-point units of one millionth.
pub const UNIT_BOUND: i128 = 1_000_000_000_000_000_000;

pub open spec fn is_digit(c: char) -> bool {
    '0' as int <= c as int <= '9' as int
}

pub open spec fn digit_val(c: char) -> int {
    c as int - '0' as int
}

pub open spec fn all_digits(s: Seq<char>) -> bool {
    forall|i: int| 0 <= i < s.len() ==> is_digit(#[trigger] s[i])
}

/// The number a digit string denotes, most significant digit first.
pub open spec fn digits_val(s: Seq<char>) -> int
    decreases s.len(),
{
    if s.len() == 0 {
        0
    } else {
        digits_val(s.take(s.len() - 1)) * 10 + digit_val(s[s.len() - 1])
    }
}

pub open spec fn pow10(n: nat) -> int
    decreases n,
{
    if n == 0 {
        1
    } else {
        10 * pow10((n - 1) as nat)
    }
}

proof fn lemma_pow10_pos(n: nat)
    ensures
        pow10(n) >= 1,
    decreases n,
{
    if n > 0 {
        lemma_pow10_pos((n - 1) as nat);
    }
}

proof fn lemma_digits_val_bound(s: Seq<char>)
    requires
        all_digits(s),
    ensures
        0 <= digits_val(s) < pow10(s.len()),
    decreases s.len(),
{
    if s.len() > 0 {
        assert(all_digits(s.take(s.len() - 1)));
        lemma_digits_val_bound(s.take(s.len() - 1));
    }
}

/// Index of the first occurrence of `c` in `s`, or `s.len()` if none.
pub open spec fn find_char(s: Seq<char>, c: char) -> int
    decreases s.len(),
{
    if s.len() == 0 {
        0
    } else if s[0] == c {
        0
    } else {
        1 + find_char(s.skip(1), c)
    }
}

proof fn lemma_find_char(s: Seq<char>, c: char)
    ensures
        0 <= find_char(s, c) <= s.len(),
        find_char(s, c) < s.len() ==> s[find_char(s, c)] == c,
        forall|j: int| 0 <= j < find_char(s, c) ==> s[j] != c,
    decreases s.len(),
{
    if s.len() > 0 && s[0] != c {
        lemma_find_char(s.skip(1), c);
        assert(forall|j: int| 0 <= j < find_char(s, c) - 1 ==> s.skip(1)[j] != c);
        assert forall|j: int| 0 <= j < find_char(s, c) implies s[j] != c by {
            if j > 0 {
                assert(s.skip(1)[j - 1] == s[j]);
            }
        }
    }
}

pub open spec fn strip_leading_zeros(s: Seq<char>) -> Seq<char>
    decreases s.len(),
{
    if s.len() > 0 && s[0] == '0' {
        strip_leading_zeros(s.skip(1))
    } else {
        s
    }
}

proof fn lemma_strip_leading_zeros(s: Seq<char>, k: int)
    requires
        0 <= k <= s.len(),
        forall|j: int| 0 <= j < k ==> s[j] == '0',
        k < s.len() ==> s[k] != '0',
    ensures
        strip_leading_zeros(s) == s.skip(k),
    decreases s.len(),
{
    if k == 0 {
        assert(s.skip(0) =~= s);
    } else {
        lemma_strip_leading_zeros(s.skip(1), k - 1);
        assert(s.skip(1).skip(k - 1) =~= s.skip(k));
    }
}

pub open spec fn trim_trailing_zeros(s: Seq<char>) -> Seq<char>
    decreases s.len(),
{
    if s.len() > 0 && s[s.len() - 1] == '0' {
        trim_trailing_zeros(s.take(s.len() - 1))
    } else {
        s
    }
}

proof fn lemma_trim_trailing_zeros(s: Seq<char>, m: int)
    requires
        0 <= m <= s.len(),
        forall|j: int| m <= j < s.len() ==> s[j] == '0',
        m > 0 ==> s[m - 1] != '0',
    ensures
        trim_trailing_zeros(s) == s.take(m),
    decreases s.len(),
{
    if m == s.len() {
        assert(s.take(m) =~= s);
    } else {
        lemma_trim_trailing_zeros(s.take(s.len() - 1), m);
        assert(s.take(s.len() - 1).take(m) =~= s.take(m));
    }
}

/// The pieces of a numeric cell content: sign, integer digits (no leading
/// zero unless the single digit `0`), fractional digits (no trailing zero).
#[verifier::ext_equal]
pub struct DecimalParts {
    pub neg: bool,
    pub int_digits: Seq<char>,
    pub frac_digits: Seq<char>,
}

/// An exact decimal number, executable counterpart of [`DecimalParts`].
pub struct Decimal {
    pub neg: bool,
    pub int_digits: Vec<char>,
    pub frac_digits: Vec<char>,
}

impl View for Decimal {
    type V = DecimalParts;

    open spec fn view(&self) -> DecimalParts {
        DecimalParts {
            neg: self.neg,
            int_digits: self.int_digits@,
            frac_digits: self.frac_digits@,
        }
    }
}

/// How a cell content reads as a decimal number, if it does: an optional
/// sign, then digits with at most one point and at least one digit, within
/// the library's digit limits.
pub open spec fn spec_parse_decimal(s: Seq<char>) -> Option<DecimalParts> {
    let neg = s.len() > 0 && s[0] == '-';
    let body = if s.len() > 0 && (s[0] == '-' || s[0] == '+') {
        s.skip(1)
    } else {
        s
    };
    let d = find_char(body, '.');
    let ip = body.take(d);
    let fp = if d < body.len() {
        body.skip(d + 1)
    } else {
        Seq::<char>::empty()
    };
    if body.len() == 0 || !all_digits(ip) || !all_digits(fp) || ip.len() + fp.len() == 0 {
        None
    } else {
        let ipz = strip_leading_zeros(ip);
        let ipn = if ipz.len() == 0 {
            seq!['0']
        } else {
            ipz
        };
        let fpn = trim_trailing_zeros(fp);
        if ipn.len() <= MAX_INT_DIGITS && fpn.len() <= MAX_FRAC_DIGITS {
            Some(DecimalParts { neg, int_digits: ipn, frac_digits: fpn })
        } else {
            None
        }
    }
}

/// The number's value in fixed-point units of one millionth.
pub open spec fn parts_units(p: DecimalParts) -> int {
    let mag = digits_val(p.int_digits) * 1000000 + digits_val(p.frac_digits) * pow10(
        (MAX_FRAC_DIGITS - p.frac_digits.len()) as nat,
    );
    if p.neg {
        -mag
    } else {
        mag
    }
}

/// A parsed decimal, in canonical form and within the digit limits.
pub open spec fn parts_wf(p: DecimalParts) -> bool {
    &&& all_digits(p.int_digits)
    &&& all_digits(p.frac_digits)
    &&& 1 <= p.int_digits.len() <= MAX_INT_DIGITS
    &&& p.frac_digits.len() <= MAX_FRAC_DIGITS
}

proof fn lemma_pow10_add(a: nat, b: nat)
    ensures
        pow10(a) * pow10(b) == pow10(a + b),
    decreases a,
{
    if a == 0 {
        assert(pow10(0) * pow10(b) == pow10(b));
    } else {
        lemma_pow10_add((a - 1) as nat, b);
        assert(pow10(a) * pow10(b) == 10 * (pow10((a - 1) as nat) * pow10(b)))
            by (nonlinear_arith)
            requires pow10(a) == 10 * pow10((a - 1) as nat),
        ;
    }
}

/// The magnitude of a well-formed parsed decimal stays below [`UNIT_BOUND`].
proof fn lemma_parts_units_bound(p: DecimalParts)
    requires
        parts_wf(p),
    ensures
        -UNIT_BOUND < parts_units(p) < UNIT_BOUND,
{
    lemma_digits_val_bound(p.int_digits);
    lemma_digits_val_bound(p.frac_digits);
    let iv = digits_val(p.int_digits);
    let fv = digits_val(p.frac_digits);
    let fl = p.frac_digits.len();
    assert(pow10(p.int_digits.len()) <= pow10(12)) by {
        lemma_pow10_le(p.int_digits.len(), 12);
    }
    assert(iv * 1000000 <= (pow10(12) - 1) * 1000000) by (nonlinear_arith)
        requires iv <= pow10(12) - 1,
    ;
    lemma_pow10_pos((MAX_FRAC_DIGITS - fl) as nat);
    lemma_pow10_add(fl as nat, (MAX_FRAC_DIGITS - fl) as nat);
    assert(fv * pow10((MAX_FRAC_DIGITS - fl) as nat) < pow10(fl) * pow10((MAX_FRAC_DIGITS - fl) as nat))
        by (nonlinear_arith)
        requires fv < pow10(fl as nat), pow10((MAX_FRAC_DIGITS - fl) as nat) >= 1,
    {
    }
    assert(pow10(12) == 1000000000000) by {
        reveal_with_fuel(pow10, 13);
    }
    assert(pow10(6) == 1000000) by {
        reveal_with_fuel(pow10, 7);
    }
    assert(fv * pow10((MAX_FRAC_DIGITS - fl) as nat) >= 0) by (nonlinear_arith)
        requires fv >= 0, pow10((MAX_FRAC_DIGITS - fl) as nat) >= 1,
    {
    }
    assert(iv * 1000000 >= 0) by (nonlinear_arith)
        requires iv >= 0,
    ;
}

proof fn lemma_pow10_le(a: nat, b: nat)
    requires
        a <= b,
    ensures
        pow10(a) <= pow10(b),
    decreases b,
{
    if a < b {
        lemma_pow10_le(a, (b - 1) as nat);
        lemma_pow10_pos((b - 1) as nat);
    }
}

/// Reads `v` as a decimal number, as [`spec_parse_decimal`] describes.
#[verifier::loop_isolation(false)]
#[verifier::rlimit(100)]
pub fn parse_decimal_chars(v: &Vec<char>) -> (r: Option<Decimal>)
    ensures
        match r {
            Some(dec) => spec_parse_decimal(v@) == Some(dec@) && parts_wf(dec@),
            None => spec_parse_decimal(v@) is None,
        },
{
    let ghost s = v@;
    let has_sign = v.len() > 0 && (v[0] == '-' || v[0] == '+');
    let neg = v.len() > 0 && v[0] == '-';
    let start: usize = if has_sign {
        1
    } else {
        0
    };
    let ghost body = if has_sign {
        s.skip(1)
    } else {
        s
    };
    proof {
        assert(forall|j: int| 0 <= j < body.len() ==> body[j] == s[j + start]);
    }
    if start >= v.len() {
        return None;
    }
    // Locate the decimal point.
    let mut d: usize = start;
    while d < v.len() && v[d] != '.'
        invariant
            start <= d <= v@.len(),
            forall|j: int| start <= j < d ==> s[j] != '.',
        decreases v@.len() - d,
    {
        d = d + 1;
    }
    proof {
        lemma_find_char(body, '.');
        if find_char(body, '.') < d - start {
            assert(s[find_char(body, '.') + start] == '.');
        }
        if find_char(body, '.') > d - start {
            assert(d < s.len());
            assert(body[d - start] != '.');
        }
        assert(find_char(body, '.') == d - start);
    }
    let ghost ip = body.take(d - start);
    let ghost fp = if d < s.len() {
        body.skip(d - start + 1)
    } else {
        Seq::<char>::empty()
    };
    proof {
        assert(ip =~= s.subrange(start as int, d as int));
        if d < s.len() {
            assert(fp =~= s.subrange(d + 1, s.len() as int));
        }
    }
    let fp_start: usize = if d < v.len() {
        d + 1
    } else {
        d
    };
    // Every character outside the sign and the point must be a digit.
    let mut i: usize = start;
    while i < d
        invariant
            start <= i <= d <= v@.len(),
            forall|j: int| start <= j < i ==> is_digit(#[trigger] s[j]),
        decreases d - i,
    {
        let c = v[i];
        if !('0' <= c && c <= '9') {
            proof {
                assert(ip[i - start] == s[i as int]);
                assert(!all_digits(ip));
            }
            return None;
        }
        i = i + 1;
    }
    let mut i2: usize = fp_start;
    while i2 < v.len()
        invariant
            fp_start <= i2 <= v@.len(),
            forall|j: int| fp_start <= j < i2 ==> is_digit(#[trigger] s[j]),
        decreases v@.len() - i2,
    {
        let c = v[i2];
        if !('0' <= c && c <= '9') {
            proof {
                assert(fp[i2 - fp_start] == s[i2 as int]);
                assert(!all_digits(fp));
            }
            return None;
        }
        i2 = i2 + 1;
    }
    proof {
        assert(all_digits(ip));
        assert(all_digits(fp));
    }
    if d == start && fp_start == v.len() {
        proof {
            assert(ip.len() + fp.len() == 0);
        }
        return None;
    }
    // Normalize: drop leading integer zeros and trailing fractional zeros.
    let mut k: usize = start;
    while k < d && v[k] == '0'
        invariant
            start <= k <= d,
            forall|j: int| start <= j < k ==> s[j] == '0',
        decreases d - k,
    {
        k = k + 1;
    }
    proof {
        lemma_strip_leading_zeros(ip, k - start);
        assert(ip.skip(k - start) =~= s.subrange(k as int, d as int));
    }
    let mut m: usize = v.len();
    while m > fp_start && v[m - 1] == '0'
        invariant
            fp_start <= m <= v@.len(),
            forall|j: int| m <= j < v@.len() ==> s[j] == '0',
        decreases m,
    {
        m = m - 1;
    }
    proof {
        lemma_trim_trailing_zeros(fp, m - fp_start);
        assert(fp.take(m - fp_start) =~= s.subrange(fp_start as int, m as int));
    }
    let int_digits = if k == d {
        let mut z: Vec<char> = Vec::new();
        z.push('0');
        proof {
            assert(z@ =~= seq!['0']);
        }
        z
    } else {
        subrange_chars(v, k, d)
    };
    let frac_digits = subrange_chars(v, fp_start, m);
    if int_digits.len() > MAX_INT_DIGITS || frac_digits.len() > MAX_FRAC_DIGITS {
        return None;
    }
    let dec = Decimal { neg, int_digits, frac_digits };
    proof {
        assert(spec_parse_decimal(s) == Some(dec@));
    }
    Some(dec)
}

/// The number's natural display form: sign, integer digits, and the
/// fractional digits after a point when there are any.
pub open spec fn spec_natural(p: DecimalParts) -> Seq<char> {
    let sign: Seq<char> = if p.neg {
        seq!['-']
    } else {
        Seq::<char>::empty()
    };
    if p.frac_digits.len() == 0 {
        sign + p.int_digits
    } else {
        sign + p.int_digits + seq!['.'] + p.frac_digits
    }
}

/// The digit after `c` in `0`..`9`, wrapping `9` to `0`.
pub open spec fn inc_digit(c: char) -> char {
    match c {
        '0' => '1',
        '1' => '2',
        '2' => '3',
        '3' => '4',
        '4' => '5',
        '5' => '6',
        '6' => '7',
        '7' => '8',
        '8' => '9',
        _ => '0',
    }
}

/// The digit string one greater than `s`, with carry; incrementing all
/// nines grows the string by one digit.
pub open spec fn inc_digits(s: Seq<char>) -> Seq<char>
    decreases s.len(),
{
    if s.len() == 0 {
        seq!['1']
    } else if s[s.len() - 1] == '9' {
        inc_digits(s.take(s.len() - 1)) + seq!['0']
    } else {
        s.take(s.len() - 1) + seq![inc_digit(s[s.len() - 1])]
    }
}

proof fn lemma_inc_digits_len(s: Seq<char>)
    ensures
        s.len() <= inc_digits(s).len() <= s.len() + 1,
    decreases s.len(),
{
    if s.len() > 0 && s[s.len() - 1] == '9' {
        lemma_inc_digits_len(s.take(s.len() - 1));
    }
}

pub open spec fn has_nonzero(s: Seq<char>) -> bool {
    exists|i: int| 0 <= i < s.len() && s[i] != '0'
}

pub open spec fn is_odd_digit(c: char) -> bool {
    c == '1' || c == '3' || c == '5' || c == '7' || c == '9'
}

/// Whether cutting the fraction after `d` digits rounds up, by
/// round-half-to-even: the dropped tail decides, a tie going to whichever
/// direction leaves the last kept digit even.
pub open spec fn spec_round_up(p: DecimalParts, d: nat) -> bool {
    let rest = p.frac_digits.skip(d as int);
    if digit_val(rest[0]) > 5 {
        true
    } else if digit_val(rest[0]) < 5 {
        false
    } else if has_nonzero(rest.skip(1)) {
        true
    } else {
        let last = if d > 0 {
            p.frac_digits[d - 1]
        } else {
            p.int_digits[p.int_digits.len() - 1]
        };
        is_odd_digit(last)
    }
}

/// `p` rounded to exactly `d` fractional digits: padded with zeros when it
/// has fewer, cut by round-half-to-even when it has more.
pub open spec fn spec_rounded(p: DecimalParts, d: nat) -> DecimalParts {
    if d >= p.frac_digits.len() {
        DecimalParts {
            neg: p.neg,
            int_digits: p.int_digits,
            frac_digits: p.frac_digits + repeat_char('0', (d - p.frac_digits.len()) as nat),
        }
    } else if !spec_round_up(p, d) {
        DecimalParts { neg: p.neg, int_digits: p.int_digits, frac_digits: p.frac_digits.take(d as int) }
    } else {
        let combined = inc_digits(p.int_digits + p.frac_digits.take(d as int));
        DecimalParts {
            neg: p.neg,
            int_digits: combined.take(combined.len() - d),
            frac_digits: combined.skip(combined.len() - d),
        }
    }
}

/// The display form at exactly `d` fractional digits: no point when `d` is
/// zero, trailing zeros kept otherwise.
pub open spec fn spec_fixed_form(p: DecimalParts, d: nat) -> Seq<char> {
    let sign: Seq<char> = if p.neg {
        seq!['-']
    } else {
        Seq::<char>::empty()
    };
    if d == 0 {
        sign + p.int_digits
    } else {
        sign + p.int_digits + seq!['.'] + p.frac_digits
    }
}

/// Digits grouped in threes from the least-significant end, separated by
/// commas.
pub open spec fn group_digits(ds: Seq<char>) -> Seq<char>
    decreases ds.len(),
{
    if ds.len() <= 3 {
        ds
    } else {
        group_digits(ds.take(ds.len() - 3)) + seq![','] + ds.skip(ds.len() - 3)
    }
}

/// Thousands separators inserted into the integer part of a signed decimal
/// display form; the sign and everything from the point on are untouched.
pub open spec fn spec_thousands(s: Seq<char>) -> Seq<char> {
    let sign: Seq<char> = if s.len() > 0 && s[0] == '-' {
        seq!['-']
    } else {
        Seq::<char>::empty()
    };
    let rest = s.skip(sign.len() as int);
    let d = find_char(rest, '.');
    sign + group_digits(rest.take(d)) + rest.skip(d)
}

/// What a cell content displays as: numeric contents are reformatted to the
/// requested decimal places and grouping; anything else is shown unchanged.
pub open spec fn spec_display(content: Seq<char>, decimal_places: Option<usize>, thousands: bool) -> Seq<char> {
    match spec_parse_decimal(content) {
        None => content,
        Some(p) => {
            let base = match decimal_places {
                None => spec_natural(p),
                Some(d) => spec_fixed_form(spec_rounded(p, d as nat), d as nat),
            };
            if thousands {
                spec_thousands(base)
            } else {
                base
            }
        },
    }
}

fn inc_digit_char(c: char) -> (r: char)
    ensures
        r == inc_digit(c),
{
    match c {
        '0' => '1',
        '1' => '2',
        '2' => '3',
        '3' => '4',
        '4' => '5',
        '5' => '6',
        '6' => '7',
        '7' => '8',
        '8' => '9',
        _ => '0',
    }
}

/// The digit string one greater than `s`, as [`inc_digits`] describes.
fn inc_chars(s: &Vec<char>) -> (r: Vec<char>)
    ensures
        r@ == inc_digits(s@),
    decreases s@.len(),
{
    if s.len() == 0 {
        let mut r: Vec<char> = Vec::new();
        r.push('1');
        proof {
            assert(r@ =~= inc_digits(s@));
        }
        r
    } else {
        let last = s[s.len() - 1];
        let head = subrange_chars(s, 0, s.len() - 1);
        proof {
            assert(head@ =~= s@.take(s@.len() - 1));
        }
        if last == '9' {
            let mut r = inc_chars(&head);
            r.push('0');
            proof {
                assert(r@ =~= inc_digits(s@));
            }
            r
        } else {
            let mut r = head;
            r.push(inc_digit_char(last));
            proof {
                assert(r@ =~= inc_digits(s@));
            }
            r
        }
    }
}

/// Whether the cut at `d` rounds up, as [`spec_round_up`] describes.
#[verifier::loop_isolation(false)]
fn round_up_chars(dec: &Decimal, d: usize) -> (r: bool)
    requires
        d < dec.frac_digits@.len(),
        dec.int_digits@.len() >= 1,
    ensures
        r == spec_round_up(dec@, d as nat),
{
    let ghost rest = dec.frac_digits@.skip(d as int);
    let first = dec.frac_digits[d];
    proof {
        assert(rest[0] == dec.frac_digits@[d as int]);
    }
    if '5' < first {
        true
    } else if '5' > first {
        false
    } else {
        let fl = dec.frac_digits.len();
        let mut i: usize = d + 1;
        let mut nonzero = false;
        while i < fl
            invariant
                d + 1 <= i <= dec.frac_digits@.len(),
                nonzero == has_nonzero(dec.frac_digits@.subrange(d + 1, i as int)),
            decreases dec.frac_digits@.len() - i,
        {
            let ghost pre = dec.frac_digits@.subrange(d + 1, i as int);
            if dec.frac_digits[i] != '0' {
                nonzero = true;
            }
            i = i + 1;
            proof {
                let cur = dec.frac_digits@.subrange(d + 1, i as int);
                assert(cur =~= pre.push(dec.frac_digits@[i - 1]));
                if has_nonzero(pre) {
                    let w = choose|w: int| 0 <= w < pre.len() && pre[w] != '0';
                    assert(cur[w] != '0');
                }
                if dec.frac_digits@[i - 1] != '0' {
                    assert(cur[cur.len() - 1] != '0');
                }
            }
        }
        proof {
            assert(dec.frac_digits@.subrange(d + 1, dec.frac_digits@.len() as int) =~= rest.skip(1));
        }
        if nonzero {
            true
        } else {
            let last = if d > 0 {
                dec.frac_digits[d - 1]
            } else {
                dec.int_digits[dec.int_digits.len() - 1]
            };
            last == '1' || last == '3' || last == '5' || last == '7' || last == '9'
        }
    }
}

/// `dec` rounded to exactly `d` fractional digits, as [`spec_rounded`]
/// describes.
fn rounded_chars(dec: &Decimal, d: usize) -> (r: Decimal)
    requires
        dec.int_digits@.len() >= 1,
    ensures
        r@ == spec_rounded(dec@, d as nat),
        r.frac_digits@.len() == d,
        r.neg == dec.neg,
{
    if d >= dec.frac_digits.len() {
        let mut frac = subrange_chars(&dec.frac_digits, 0, dec.frac_digits.len());
        crate::text::push_repeat(&mut frac, '0', d - dec.frac_digits.len());
        let r = Decimal { neg: dec.neg, int_digits: subrange_chars(&dec.int_digits, 0, dec.int_digits.len()), frac_digits: frac };
        proof {
            assert(dec.frac_digits@.subrange(0, dec.frac_digits@.len() as int) =~= dec.frac_digits@);
            assert(dec.int_digits@.subrange(0, dec.int_digits@.len() as int) =~= dec.int_digits@);
            assert(r@ =~= spec_rounded(dec@, d as nat));
        }
        r
    } else if !round_up_chars(dec, d) {
        let r = Decimal {
            neg: dec.neg,
            int_digits: subrange_chars(&dec.int_digits, 0, dec.int_digits.len()),
            frac_digits: subrange_chars(&dec.frac_digits, 0, d),
        };
        proof {
            assert(dec.int_digits@.subrange(0, dec.int_digits@.len() as int) =~= dec.int_digits@);
            assert(dec.frac_digits@.subrange(0, d as int) =~= dec.frac_digits@.take(d as int));
            assert(r@ =~= spec_rounded(dec@, d as nat));
        }
        r
    } else {
        let mut joined = subrange_chars(&dec.int_digits, 0, dec.int_digits.len());
        let keep = subrange_chars(&dec.frac_digits, 0, d);
        append_chars(&mut joined, &keep);
        proof {
            assert(dec.int_digits@.subrange(0, dec.int_digits@.len() as int) =~= dec.int_digits@);
            assert(joined@ =~= dec.int_digits@ + dec.frac_digits@.take(d as int));
        }
        let combined = inc_chars(&joined);
        proof {
            lemma_inc_digits_len(joined@);
        }
        let cut = combined.len() - d;
        let r = Decimal {
            neg: dec.neg,
            int_digits: subrange_chars(&combined, 0, cut),
            frac_digits: subrange_chars(&combined, cut, combined.len()),
        };
        proof {
            assert(combined@.subrange(0, cut as int) =~= combined@.take(combined@.len() - d));
            assert(combined@.subrange(cut as int, combined@.len() as int) =~= combined@.skip(combined@.len() - d));
            assert(r@ =~= spec_rounded(dec@, d as nat));
        }
        r
    }
}

/// The natural display form of `dec`, as [`spec_natural`] describes.
fn natural_chars(dec: &Decimal) -> (r: Vec<char>)
    ensures
        r@ == spec_natural(dec@),
{
    let mut r: Vec<char> = Vec::new();
    if dec.neg {
        r.push('-');
    }
    append_chars(&mut r, &dec.int_digits);
    if dec.frac_digits.len() > 0 {
        r.push('.');
        append_chars(&mut r, &dec.frac_digits);
    }
    proof {
        assert(r@ =~= spec_natural(dec@));
    }
    r
}

/// The display form of `dec` at exactly `d` fractional digits, as
/// [`spec_fixed_form`] describes.
fn fixed_form_chars(dec: &Decimal, d: usize) -> (r: Vec<char>)
    requires
        dec.frac_digits@.len() == d,
    ensures
        r@ == spec_fixed_form(dec@, d as nat),
{
    let mut r: Vec<char> = Vec::new();
    if dec.neg {
        r.push('-');
    }
    append_chars(&mut r, &dec.int_digits);
    if d > 0 {
        r.push('.');
        append_chars(&mut r, &dec.frac_digits);
    }
    proof {
        assert(r@ =~= spec_fixed_form(dec@, d as nat));
    }
    r
}

/// `ds` grouped in threes, as [`group_digits`] describes.
fn group_chars(ds: &Vec<char>) -> (r: Vec<char>)
    ensures
        r@ == group_digits(ds@),
    decreases ds@.len(),
{
    if ds.len() <= 3 {
        let r = subrange_chars(ds, 0, ds.len());
        proof {
            assert(r@ =~= ds@);
        }
        r
    } else {
        let head = subrange_chars(ds, 0, ds.len() - 3);
        proof {
            assert(head@ =~= ds@.take(ds@.len() - 3));
        }
        let mut r = group_chars(&head);
        r.push(',');
        let tail3 = subrange_chars(ds, ds.len() - 3, ds.len());
        append_chars(&mut r, &tail3);
        proof {
            assert(tail3@ =~= ds@.skip(ds@.len() - 3));
            assert(r@ =~= group_digits(ds@));
        }
        r
    }
}

/// Thousands separators inserted into `v`, as [`spec_thousands`] describes.
#[verifier::loop_isolation(false)]
fn thousands_chars(v: &Vec<char>) -> (r: Vec<char>)
    ensures
        r@ == spec_thousands(v@),
{
    let ghost s = v@;
    let start: usize = if v.len() > 0 && v[0] == '-' {
        1
    } else {
        0
    };
    let ghost rest = s.skip(start as int);
    let mut d: usize = start;
    while d < v.len() && v[d] != '.'
        invariant
            start <= d <= v@.len(),
            forall|j: int| start <= j < d ==> s[j] != '.',
        decreases v@.len() - d,
    {
        d = d + 1;
    }
    proof {
        lemma_find_char(rest, '.');
        if find_char(rest, '.') < d - start {
            assert(s[find_char(rest, '.') + start] == '.');
        }
        if find_char(rest, '.') > d - start {
            assert(rest[d - start] != '.');
        }
        assert(find_char(rest, '.') == d - start);
    }
    let intpart = subrange_chars(v, start, d);
    let grouped = group_chars(&intpart);
    let mut r: Vec<char> = Vec::new();
    if start == 1 {
        r.push('-');
    }
    append_chars(&mut r, &grouped);
    let tail = subrange_chars(v, d, v.len());
    append_chars(&mut r, &tail);
    proof {
        assert(intpart@ =~= rest.take(d - start));
        assert(tail@ =~= rest.skip(d - start));
        assert(r@ =~= spec_thousands(s));
    }
    r
}

/// The display form of a cell content under the given formatting options, as
/// [`spec_display`] describes: numeric contents are rounded and grouped,
/// anything else passes through unchanged.
pub fn format_display(content: &Vec<char>, decimal_places: Option<usize>, thousands: bool) -> (r: Vec<char>)
    ensures
        r@ == spec_display(content@, decimal_places, thousands),
{
    match parse_decimal_chars(content) {
        None => {
            let r = subrange_chars(content, 0, content.len());
            proof {
                assert(r@ =~= content@);
            }
            r
        },
        Some(dec) => {
            let base = match decimal_places {
                None => natural_chars(&dec),
                Some(d) => {
                    let rounded = rounded_chars(&dec, d);
                    fixed_form_chars(&rounded, d)
                },
            };
            if thousands {
                thousands_chars(&base)
            } else {
                base
            }
        },
    }
}

/// An exact fixed-point number in units of one millionth, the value domain
/// of parsed numeric cells and of column aggregation.
#[derive(Clone, Copy, Debug, PartialEq, Eq, Structural)]
pub struct Fixed {
    pub units: i128,
}

/// The value a cell content denotes, in fixed-point units, if it is numeric.
pub open spec fn spec_units_of(s: Seq<char>) -> Option<int> {
    match spec_parse_decimal(s) {
        Some(p) => Some(parts_units(p)),
        None => None,
    }
}

/// The number denoted by a digit string, as [`digits_val`] describes.
#[verifier::loop_isolation(false)]
fn digits_to_u64(v: &Vec<char>) -> (r: u64)
    requires
        all_digits(v@),
        v@.len() <= 18,
    ensures
        r == digits_val(v@),
{
    proof {
        reveal_with_fuel(pow10, 20);
    }
    let mut r: u64 = 0;
    let mut i: usize = 0;
    while i < v.len()
        invariant
            i <= v@.len(),
            r == digits_val(v@.take(i as int)),
            r < pow10(i as nat),
        decreases v@.len() - i,
    {
        let c = v[i];
        proof {
            assert(is_digit(v@[i as int]));
            lemma_pow10_le(i as nat + 1, 18);
        }
        let d = (c as u32) as u64;
        r = r * 10 + (d - 48);
        i = i + 1;
        proof {
            assert(v@.take(i as int).take(i - 1) =~= v@.take(i - 1));
            assert(r == digits_val(v@.take(i as int)));
        }
    }
    proof {
        assert(v@.take(v@.len() as int) =~= v@);
    }
    r
}

/// Ten to the `n`, as an unsigned machine word.
#[verifier::loop_isolation(false)]
fn pow10_u64(n: usize) -> (r: u64)
    requires
        n <= 18,
    ensures
        r == pow10(n as nat),
{
    proof {
        reveal_with_fuel(pow10, 20);
    }
    let mut r: u64 = 1;
    let mut i: usize = 0;
    while i < n
        invariant
            i <= n,
            r == pow10(i as nat),
        decreases n - i,
    {
        proof {
            lemma_pow10_le(i as nat + 1, 18);
        }
        r = r * 10;
        i = i + 1;
    }
    r
}

/// The value of `dec` in fixed-point units, as [`parts_units`] describes.
pub fn decimal_units(dec: &Decimal) -> (r: i128)
    requires
        parts_wf(dec@),
    ensures
        r == parts_units(dec@),
        -UNIT_BOUND < r < UNIT_BOUND,
{
    proof {
        lemma_parts_units_bound(dec@);
        lemma_digits_val_bound(dec.int_digits@);
        lemma_digits_val_bound(dec.frac_digits@);
        lemma_pow10_le(dec.int_digits@.len(), 12);
        lemma_pow10_le(dec.frac_digits@.len(), 6);
        lemma_pow10_le((MAX_FRAC_DIGITS - dec.frac_digits@.len()) as nat, 6);
        reveal_with_fuel(pow10, 13);
    }
    let iv = digits_to_u64(&dec.int_digits);
    let fv = digits_to_u64(&dec.frac_digits);
    let scale = pow10_u64(MAX_FRAC_DIGITS - dec.frac_digits.len());
    proof {
        assert(iv * 1000000 <= (pow10(12) - 1) * 1000000) by (nonlinear_arith)
            requires iv <= pow10(12) - 1,
        ;
        assert(iv * 1000000 >= 0) by (nonlinear_arith)
            requires iv >= 0,
        ;
        assert(fv * scale < pow10(dec.frac_digits@.len()) * pow10((MAX_FRAC_DIGITS - dec.frac_digits@.len()) as nat))
            by (nonlinear_arith)
            requires
                fv < pow10(dec.frac_digits@.len()),
                scale == pow10((MAX_FRAC_DIGITS - dec.frac_digits@.len()) as nat),
                scale >= 1,
        ;
        assert(fv * scale >= 0) by (nonlinear_arith)
            requires fv >= 0, scale >= 0,
        ;
        lemma_pow10_add(dec.frac_digits@.len(), (MAX_FRAC_DIGITS - dec.frac_digits@.len()) as nat);
    }
    let mag: u64 = iv * 1000000 + fv * scale;
    if dec.neg {
        -(mag as i128)
    } else {
        mag as i128
    }
}

/// Reads `s` as a decimal number and returns its exact fixed-point value,
/// or `None` when `s` is not numeric.
pub fn parse_number(s: &str) -> (r: Option<Fixed>)
    ensures
        match r {
            Some(f) => spec_units_of(s@) == Some(f.units as int) && -UNIT_BOUND < f.units < UNIT_BOUND,
            None => spec_units_of(s@) is None,
        },
{
    let chars = crate::text::string_to_chars(s);
    match parse_decimal_chars(&chars) {
        Some(dec) => Some(Fixed { units: decimal_units(&dec) }),
        None => None,
    }
}

/// The decimal digits of `n`, most significant first, without leading zeros.
pub open spec fn spec_unsigned_digits(n: nat) -> Seq<char>
    decreases n,
{
    if n < 10 {
        seq![digit_char(n)]
    } else {
        spec_unsigned_digits(n / 10) + seq![digit_char(n % 10)]
    }
}

/// The digit character for a value below ten.
pub open spec fn digit_char(n: nat) -> char {
    if n == 0 { '0' }
    else if n == 1 { '1' }
    else if n == 2 { '2' }
    else if n == 3 { '3' }
    else if n == 4 { '4' }
    else if n == 5 { '5' }
    else if n == 6 { '6' }
    else if n == 7 { '7' }
    else if n == 8 { '8' }
    else { '9' }
}

proof fn lemma_unsigned_digits_len(n: nat, k: nat)
    requires
        k >= 1,
        n < pow10(k),
    ensures
        spec_unsigned_digits(n).len() <= k,
    decreases n,
{
    if n >= 10 {
        assert(pow10(k) == 10 * pow10((k - 1) as nat));
        lemma_unsigned_digits_len(n / 10, (k - 1) as nat);
    }
}

fn digit_char_of(n: u64) -> (r: char)
    requires
        n < 10,
    ensures
        r == digit_char(n as nat),
{
    if n == 0 { '0' }
    else if n == 1 { '1' }
    else if n == 2 { '2' }
    else if n == 3 { '3' }
    else if n == 4 { '4' }
    else if n == 5 { '5' }
    else if n == 6 { '6' }
    else if n == 7 { '7' }
    else if n == 8 { '8' }
    else { '9' }
}

/// The decimal digits of `n`, as [`spec_unsigned_digits`] describes.
fn unsigned_digits(n: u128) -> (r: Vec<char>)
    ensures
        r@ == spec_unsigned_digits(n as nat),
    decreases n,
{
    if n < 10 {
        let mut r: Vec<char> = Vec::new();
        r.push(digit_char_of(n as u64));
        proof {
            assert(r@ =~= spec_unsigned_digits(n as nat));
        }
        r
    } else {
        let mut r = unsigned_digits(n / 10);
        r.push(digit_char_of((n % 10) as u64));
        proof {
            assert(r@ =~= spec_unsigned_digits(n as nat));
        }
        r
    }
}

/// The canonical decimal rendering of a fixed-point value: a sign when
/// negative, the integer part, and the nonzero fractional digits after a
/// point, trailing zeros dropped.
pub open spec fn spec_fixed_chars(units: int) -> Seq<char> {
    let sign: Seq<char> = if units < 0 {
        seq!['-']
    } else {
        Seq::<char>::empty()
    };
    let mag = if units < 0 {
        -units
    } else {
        units
    };
    let q = mag / 1000000;
    let rm = mag % 1000000;
    if rm == 0 {
        sign + spec_unsigned_digits(q as nat)
    } else {
        let padded = repeat_char('0', (6 - spec_unsigned_digits(rm as nat).len()) as nat)
            + spec_unsigned_digits(rm as nat);
        sign + spec_unsigned_digits(q as nat) + seq!['.'] + trim_trailing_zeros(padded)
    }
}

/// The canonical decimal rendering of `units`, as [`spec_fixed_chars`]
/// describes.
#[verifier::loop_isolation(false)]
pub fn fixed_chars(units: i128) -> (r: Vec<char>)
    requires
        units > i128::MIN,
    ensures
        r@ == spec_fixed_chars(units as int),
{
    let neg = units < 0;
    let mag: u128 = if neg {
        (-units) as u128
    } else {
        units as u128
    };
    let q = mag / 1000000;
    let rm = mag % 1000000;
    let mut r: Vec<char> = Vec::new();
    if neg {
        r.push('-');
    }
    let qd = unsigned_digits(q);
    append_chars(&mut r, &qd);
    if rm != 0 {
        r.push('.');
        let fd = unsigned_digits(rm);
        proof {
            reveal_with_fuel(pow10, 7);
            lemma_unsigned_digits_len(rm as nat, 6);
        }
        let mut padded: Vec<char> = Vec::new();
        crate::text::push_repeat(&mut padded, '0', 6 - fd.len());
        append_chars(&mut padded, &fd);
        let ghost padded0 = padded@;
        // Drop the trailing zeros of the six fractional digits.
        while padded.len() > 0 && padded[padded.len() - 1] == '0'
            invariant
                trim_trailing_zeros(padded@) == trim_trailing_zeros(padded0),
            decreases padded@.len(),
        {
            let ghost before = padded@;
            padded.pop();
            proof {
                assert(padded@ =~= before.take(before.len() - 1));
            }
        }
        proof {
            assert(trim_trailing_zeros(padded@) == padded@);
        }
        append_chars(&mut r, &padded);
    }
    proof {
        assert(r@ =~= spec_fixed_chars(units as int));
    }
    r
}

impl Fixed {
    /// The fixed-point value of a whole number.
    pub fn from_int(n: i64) -> (r: Fixed)
        ensures
            r.units == n * 1000000,
    {
        Fixed { units: (n as i128) * 1000000 }
    }

    /// The canonical decimal rendering of this value, as
    /// [`spec_fixed_chars`] describes.
    pub fn to_decimal_string(&self) -> (r: String)
        requires
            self.units > i128::MIN,
        ensures
            r@ == spec_fixed_chars(self.units as int),
    {
        let chars = fixed_chars(self.units);
        crate::text::chars_to_string(&chars)
    }
}

} // verus!
