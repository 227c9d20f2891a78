//! Fixed-point decimal type with 4 decimal places of precision.
//!
//! A `Decimal4` holds a signed count of ten-thousandths, so every value has
//! exactly four fractional digits and addition and subtraction are exact.
//! Values are parsed from and formatted to decimal text (`-70.0000`,
//! `999999999999.9999`); the grammar and the rounding of extra fractional
//! digits are pinned down by the spec functions in this module.

use vstd::prelude::*;
use vstd::string::StrSliceExecFns;

verus! {

/// Number of ten-thousandth units in one whole unit.
pub const UNITS_PER_ONE: i128 = 10000;

/// Largest magnitude, in ten-thousandths, that text parsing accepts
/// (a comfortable margin above the 10^12 whole units the format calls for).
pub const MAX_AMOUNT_UNITS: i128 = 100_000_000_000_000_000_000_000_000_000_000;

/// Largest whole part that parsing accepts: `MAX_AMOUNT_UNITS / UNITS_PER_ONE`.
pub const MAX_WHOLE_PART: i128 = 10_000_000_000_000_000_000_000_000_000;

/// Largest magnitude, in ten-thousandths, that a running account balance may
/// reach before the engine refuses further arithmetic on it. Keeping every
/// balance inside this envelope keeps all i128 arithmetic exact.
pub const MAX_BALANCE_UNITS: i128 = 10_000_000_000_000_000_000_000_000_000_000_000;

/// A value is in amount range when text parsing could have produced it.
pub open spec fn amount_in_range(u: int) -> bool {
    -(MAX_AMOUNT_UNITS as int) <= u <= MAX_AMOUNT_UNITS as int
}

/// A value is in balance range when the engine may hold it in an account.
pub open spec fn balance_in_range(u: int) -> bool {
    -(MAX_BALANCE_UNITS as int) <= u <= MAX_BALANCE_UNITS as int
}

/// The error returned when text does not denote an in-range decimal value.
#[derive(Debug, Clone, Copy, PartialEq, Eq, Structural)]
pub struct ParseError;

/// A decimal type that maintains exactly 4 decimal places of precision.
///
/// The value is `units / 10000`, stored exactly as a signed integer count of
/// ten-thousandths, suitable for monetary calculations.
#[derive(Debug, Clone, Copy, PartialEq, Eq, Structural)]
pub struct Decimal4 {
    /// The value in ten-thousandths.
    pub units: i128,
}

impl View for Decimal4 {
    type V = int;

    open spec fn view(&self) -> int {
        self.units as int
    }
}

// ---------------------------------------------------------------------------
// The textual grammar: ASCII whitespace is trimmed, then an optional sign is
// followed by digits with at most one point; an underscore is a separator and
// is legal once a digit has been seen. The value keeps the first four
// fractional digits and rounds the magnitude up when the fifth is 5 or more.
// ---------------------------------------------------------------------------
/// ASCII whitespace, the characters `str::trim_ascii` removes.
pub open spec fn is_ascii_space(c: char) -> bool {
    c == ' ' || c == '\t' || c == '\n' || c == '\r' || c == '\x0c'
}

/// An ASCII decimal digit.
pub open spec fn is_digit(c: char) -> bool {
    '0' <= c && c <= '9'
}

/// The numeric value of an ASCII digit.
pub open spec fn digit_val(c: char) -> int {
    c as int - 48
}

/// The input with leading ASCII whitespace removed.
pub open spec fn trim_front(s: Seq<char>) -> Seq<char>
    decreases s.len(),
{
    if s.len() > 0 && is_ascii_space(s[0]) {
        trim_front(s.drop_first())
    } else {
        s
    }
}

/// The input with trailing ASCII whitespace removed.
pub open spec fn trim_back(s: Seq<char>) -> Seq<char>
    decreases s.len(),
{
    if s.len() > 0 && is_ascii_space(s[s.len() - 1]) {
        trim_back(s.drop_last())
    } else {
        s
    }
}

/// The input with ASCII whitespace removed from both ends.
pub open spec fn trimmed(s: Seq<char>) -> Seq<char> {
    trim_back(trim_front(s))
}

/// Whether the body contains a decimal point so far.
pub open spec fn has_dot(b: Seq<char>) -> bool
    decreases b.len(),
{
    if b.len() == 0 {
        false
    } else {
        has_dot(b.drop_last()) || b.last() == '.'
    }
}

/// Whether the body contains a digit so far.
pub open spec fn has_digit(b: Seq<char>) -> bool
    decreases b.len(),
{
    if b.len() == 0 {
        false
    } else {
        has_digit(b.drop_last()) || is_digit(b.last())
    }
}

/// Whether every character of the body is legal where it stands: a digit, a
/// first decimal point, or a separating underscore after some digit.
pub open spec fn body_ok(b: Seq<char>) -> bool
    decreases b.len(),
{
    if b.len() == 0 {
        true
    } else {
        let q = b.drop_last();
        let c = b.last();
        body_ok(q) && (is_digit(c) || (c == '.' && !has_dot(q)) || (c == '_' && has_digit(q)))
    }
}

/// The digits of the whole part, in order.
pub open spec fn whole_digits(b: Seq<char>) -> Seq<char>
    decreases b.len(),
{
    if b.len() == 0 {
        Seq::empty()
    } else {
        let q = b.drop_last();
        let c = b.last();
        if has_dot(q) || c == '.' {
            whole_digits(q)
        } else if is_digit(c) {
            whole_digits(q).push(c)
        } else {
            whole_digits(q)
        }
    }
}

/// The digits of the fractional part, in order.
pub open spec fn frac_digits(b: Seq<char>) -> Seq<char>
    decreases b.len(),
{
    if b.len() == 0 {
        Seq::empty()
    } else {
        let q = b.drop_last();
        let c = b.last();
        if has_dot(q) && is_digit(c) {
            frac_digits(q).push(c)
        } else {
            frac_digits(q)
        }
    }
}

/// The number denoted by a sequence of digit characters (0 when empty).
pub open spec fn digits_val(ds: Seq<char>) -> int
    decreases ds.len(),
{
    if ds.len() == 0 {
        0
    } else {
        digits_val(ds.drop_last()) * 10 + digit_val(ds.last())
    }
}

/// Ten to the given power.
pub open spec fn pow10(n: nat) -> int
    decreases n,
{
    if n == 0 {
        1
    } else {
        10 * pow10((n - 1) as nat)
    }
}

/// The value of the first four fractional digits, right-padded with zeros.
pub open spec fn frac4_val(fd: Seq<char>) -> int {
    if fd.len() >= 4 {
        digits_val(fd.take(4))
    } else {
        digits_val(fd) * pow10((4 - fd.len()) as nat)
    }
}

/// Whether the fifth fractional digit rounds the magnitude up.
pub open spec fn rounds_up(fd: Seq<char>) -> bool {
    fd.len() > 4 && digit_val(fd[4]) >= 5
}

/// The magnitude of a valid body, in ten-thousandths.
pub open spec fn body_units(b: Seq<char>) -> int {
    digits_val(whole_digits(b)) * 10000 + frac4_val(frac_digits(b)) + if rounds_up(
        frac_digits(b),
    ) {
        1int
    } else {
        0int
    }
}

/// Whether the trimmed text starts with a minus sign.
pub open spec fn text_negative(t: Seq<char>) -> bool {
    t.len() > 0 && t[0] == '-'
}

/// The trimmed text with any leading sign removed.
pub open spec fn text_body(t: Seq<char>) -> Seq<char> {
    if t.len() > 0 && (t[0] == '-' || t[0] == '+') {
        t.drop_first()
    } else {
        t
    }
}

/// What parsing the given text yields: the value in ten-thousandths, or
/// nothing when the text is not a decimal in range.
pub open spec fn parse_units(s: Seq<char>) -> Option<int> {
    let t = trimmed(s);
    let b = text_body(t);
    if body_ok(b) && has_digit(b) {
        let m = body_units(b);
        if m > MAX_AMOUNT_UNITS as int {
            None
        } else if text_negative(t) {
            Some(-m)
        } else {
            Some(m)
        }
    } else {
        None
    }
}

// ---------------------------------------------------------------------------
// Facts about the grammar that the executable parser leans on.
// ---------------------------------------------------------------------------
/// Number of leading ASCII whitespace characters.
pub open spec fn lead_spaces(s: Seq<char>) -> nat
    decreases s.len(),
{
    if s.len() > 0 && is_ascii_space(s[0]) {
        1nat + lead_spaces(s.drop_first())
    } else {
        0
    }
}

/// Number of trailing ASCII whitespace characters.
pub open spec fn tail_spaces(s: Seq<char>) -> nat
    decreases s.len(),
{
    if s.len() > 0 && is_ascii_space(s[s.len() - 1]) {
        1nat + tail_spaces(s.drop_last())
    } else {
        0
    }
}

pub proof fn lemma_lead_spaces(s: Seq<char>)
    ensures
        lead_spaces(s) <= s.len(),
        forall|i: int| 0 <= i < lead_spaces(s) ==> is_ascii_space(s[i]),
        lead_spaces(s) < s.len() ==> !is_ascii_space(s[lead_spaces(s) as int]),
        trim_front(s) == s.subrange(lead_spaces(s) as int, s.len() as int),
    decreases s.len(),
{
    if s.len() > 0 && is_ascii_space(s[0]) {
        lemma_lead_spaces(s.drop_first());
        assert forall|i: int| 0 <= i < lead_spaces(s) implies is_ascii_space(s[i]) by {
            if i > 0 {
                assert(s[i] == s.drop_first()[i - 1]);
            }
        }
        assert(s.drop_first().subrange(
            lead_spaces(s.drop_first()) as int,
            s.drop_first().len() as int,
        ) =~= s.subrange(lead_spaces(s) as int, s.len() as int));
    } else {
        assert(s.subrange(0, s.len() as int) =~= s);
    }
}

pub proof fn lemma_tail_spaces(s: Seq<char>)
    ensures
        tail_spaces(s) <= s.len(),
        forall|i: int| s.len() - tail_spaces(s) <= i < s.len() ==> is_ascii_space(s[i]),
        tail_spaces(s) < s.len() ==> !is_ascii_space(s[s.len() - tail_spaces(s) - 1]),
        trim_back(s) == s.subrange(0, s.len() - tail_spaces(s)),
    decreases s.len(),
{
    if s.len() > 0 && is_ascii_space(s[s.len() - 1]) {
        lemma_tail_spaces(s.drop_last());
        assert forall|i: int| s.len() - tail_spaces(s) <= i < s.len() implies is_ascii_space(
            s[i],
        ) by {
            if i < s.len() - 1 {
                assert(s[i] == s.drop_last()[i]);
            }
        }
        assert(s.drop_last() =~= s.subrange(0, s.len() - 1));
        assert(s.drop_last().subrange(
            0,
            s.drop_last().len() - tail_spaces(s.drop_last()),
        ) =~= s.subrange(0, s.len() - tail_spaces(s)));
    } else {
        assert(s.subrange(0, s.len() as int) =~= s);
    }
}

/// Every character that `whole_digits` or `frac_digits` collects is a digit.
pub proof fn lemma_collected_digits(b: Seq<char>)
    ensures
        forall|k: int| 0 <= k < whole_digits(b).len() ==> is_digit(#[trigger] whole_digits(b)[k]),
        forall|k: int| 0 <= k < frac_digits(b).len() ==> is_digit(#[trigger] frac_digits(b)[k]),
    decreases b.len(),
{
    if b.len() > 0 {
        lemma_collected_digits(b.drop_last());
        let q = b.drop_last();
        assert forall|k: int| 0 <= k < whole_digits(b).len() implies is_digit(
            #[trigger] whole_digits(b)[k],
        ) by {
            if k < whole_digits(q).len() {
                assert(whole_digits(b)[k] == whole_digits(q)[k]);
            }
        }
        assert forall|k: int| 0 <= k < frac_digits(b).len() implies is_digit(
            #[trigger] frac_digits(b)[k],
        ) by {
            if k < frac_digits(q).len() {
                assert(frac_digits(b)[k] == frac_digits(q)[k]);
            }
        }
    }
}

/// A sequence of digits denotes a value in `[0, 10^len)`.
pub proof fn lemma_digits_val_bounds(ds: Seq<char>)
    requires
        forall|k: int| 0 <= k < ds.len() ==> is_digit(#[trigger] ds[k]),
    ensures
        0 <= digits_val(ds) < pow10(ds.len()),
    decreases ds.len(),
{
    if ds.len() > 0 {
        lemma_digits_val_bounds(ds.drop_last());
    }
}

pub proof fn lemma_pow10_pos(n: nat)
    ensures
        pow10(n) >= 1,
    decreases n,
{
    if n > 0 {
        lemma_pow10_pos((n - 1) as nat);
    }
}

pub proof fn lemma_pow10_small()
    ensures
        pow10(0) == 1,
        pow10(1) == 10,
        pow10(2) == 100,
        pow10(3) == 1000,
        pow10(4) == 10000,
{
    assert(pow10(0) == 1);
    assert(pow10(1) == 10);
    assert(pow10(2) == 100);
    assert(pow10(3) == 1000);
    assert(pow10(4) == 10000);
}

/// Appending one digit multiplies the value by ten and adds the digit.
pub proof fn lemma_digits_val_push(ds: Seq<char>, c: char)
    ensures
        digits_val(ds.push(c)) == digits_val(ds) * 10 + digit_val(c),
{
    assert(ds.push(c).drop_last() =~= ds);
    assert(ds.push(c).last() == c);
}

/// A prefix of a well-formed body is well-formed.
pub proof fn lemma_body_ok_prefix(b: Seq<char>, k: int)
    requires
        body_ok(b),
        0 <= k <= b.len(),
    ensures
        body_ok(b.take(k)),
    decreases b.len(),
{
    if k < b.len() {
        assert(b.drop_last().take(k) =~= b.take(k));
        lemma_body_ok_prefix(b.drop_last(), k);
    } else {
        assert(b.take(k) =~= b);
    }
}

/// The fractional value is below one whole unit.
pub proof fn lemma_frac4_val_bounds(fd: Seq<char>)
    requires
        forall|k: int| 0 <= k < fd.len() ==> is_digit(#[trigger] fd[k]),
    ensures
        0 <= frac4_val(fd) <= 9999,
{
    lemma_pow10_small();
    if fd.len() >= 4 {
        lemma_digits_val_bounds(fd.take(4));
    } else {
        lemma_digits_val_bounds(fd);
        assert(digits_val(fd) * pow10((4 - fd.len()) as nat) < pow10(fd.len()) * pow10(
            (4 - fd.len()) as nat,
        )) by {
            broadcast use vstd::arithmetic::mul::lemma_mul_strict_inequality;

            lemma_pow10_pos((4 - fd.len()) as nat);
        }
        assert(pow10(fd.len()) * pow10((4 - fd.len()) as nat) == 10000);
        assert(digits_val(fd) * pow10((4 - fd.len()) as nat) >= 0) by {
            broadcast use vstd::arithmetic::mul::lemma_mul_nonnegative;

        }
    }
}

/// The state the parsing scan carries after consuming the body prefix `p`.
pub open spec fn scan_state_ok(
    p: Seq<char>,
    seen_digit: bool,
    seen_dot: bool,
    too_big: bool,
    int_acc: i128,
    fcnt: usize,
    frac4: i128,
    round_up: bool,
) -> bool {
    &&& body_ok(p)
    &&& seen_digit == has_digit(p)
    &&& seen_dot == has_dot(p)
    &&& (too_big ==> digits_val(whole_digits(p)) > MAX_WHOLE_PART as int)
    &&& (!too_big ==> int_acc as int == digits_val(whole_digits(p)))
    &&& 0 <= int_acc <= MAX_WHOLE_PART
    &&& fcnt as int == (if frac_digits(p).len() >= 5 {
        5int
    } else {
        frac_digits(p).len() as int
    })
    &&& frac4 as int == digits_val(
        if frac_digits(p).len() >= 4 {
            frac_digits(p).take(4)
        } else {
            frac_digits(p)
        },
    )
    &&& round_up == rounds_up(frac_digits(p))
}

/// A valid body whose whole part exceeds the limit denotes too large a value.
pub proof fn lemma_too_big_body(b: Seq<char>)
    requires
        digits_val(whole_digits(b)) > MAX_WHOLE_PART as int,
    ensures
        body_units(b) > MAX_AMOUNT_UNITS as int,
{
    lemma_collected_digits(b);
    lemma_frac4_val_bounds(frac_digits(b));
    assert(digits_val(whole_digits(b)) * 10000 >= (MAX_WHOLE_PART as int + 1) * 10000) by {
        broadcast use vstd::arithmetic::mul::lemma_mul_inequality;

    }
}

impl Decimal4 {
    /// Creates a new `Decimal4` from a count of ten-thousandths.
    pub fn new(units: i128) -> (r: Decimal4)
        ensures
            r@ == units as int,
    {
        Decimal4 { units }
    }

    /// The zero value, `0.0000`.
    pub fn zero() -> (r: Decimal4)
        ensures
            r@ == 0,
    {
        Decimal4 { units: 0 }
    }

    /// Returns `true` if this value is zero.
    pub fn is_zero(&self) -> (r: bool)
        ensures
            r == (self@ == 0),
    {
        self.units == 0
    }
}

fn is_space_char(c: char) -> (r: bool)
    ensures
        r == is_ascii_space(c),
{
    c == ' ' || c == '\t' || c == '\n' || c == '\r' || c == '\x0c'
}

/// Finds the bounds of the text once ASCII whitespace is trimmed from both
/// ends: `trimmed(s@)` is exactly `s@` between the returned indices.
pub fn trim_bounds(s: &str) -> (r: (usize, usize))
    ensures
        r.0 <= r.1 <= s@.len(),
        trimmed(s@) == s@.subrange(r.0 as int, r.1 as int),
{
    let ghost sv = s@;
    let n = s.unicode_len();
    let mut lo: usize = 0;
    while lo < n && is_space_char(s.get_char(lo))
        invariant
            0 <= lo <= n,
            n == sv.len(),
            sv == s@,
            forall|i: int| 0 <= i < lo ==> is_ascii_space(sv[i]),
        decreases n - lo,
    {
        lo += 1;
    }
    proof {
        lemma_lead_spaces(sv);
        if (lo as int) < lead_spaces(sv) {
            assert(is_ascii_space(sv[lo as int]));
            assert(false);
        }
        if lead_spaces(sv) < lo {
            assert(is_ascii_space(sv[lead_spaces(sv) as int]));
            assert(false);
        }
    }
    let mut hi: usize = n;
    while hi > lo && is_space_char(s.get_char(hi - 1))
        invariant
            lo <= hi <= n,
            n == sv.len(),
            sv == s@,
            forall|i: int| hi <= i < n ==> is_ascii_space(sv[i]),
        decreases hi,
    {
        hi -= 1;
    }
    proof {
        let t1 = trim_front(sv);
        lemma_tail_spaces(t1);
        assert(t1 =~= sv.subrange(lo as int, n as int));
        let tl = tail_spaces(t1);
        let h = n - tl;
        assert forall|i: int| h <= i < n implies is_ascii_space(sv[i]) by {
            assert(sv[i] == t1[i - lo]);
        }
        if (hi as int) < h {
            assert(is_ascii_space(sv[hi as int]));
            assert(false);
        }
        if h < hi {
            assert(is_ascii_space(t1[h - lo]));
            assert(is_ascii_space(sv[h]));
            assert(!is_ascii_space(t1[t1.len() - tl - 1]));
            assert(false);
        }
        assert(trimmed(sv) =~= sv.subrange(lo as int, hi as int));
    }
    (lo, hi)
}

impl Decimal4 {
    /// Parses trimmed decimal text into a value with exactly 4 decimal places.
    ///
    /// Succeeds exactly on the text that `parse_units` accepts, and then
    /// returns exactly the value it denotes.
    pub fn parse_str(s: &str) -> (r: Result<Decimal4, ParseError>)
        ensures
            r is Ok <==> parse_units(s@) is Some,
            r is Ok ==> r->Ok_0@ == parse_units(s@)->Some_0,
    {
        let ghost sv = s@;
        let n = s.unicode_len();
        let (lo, hi) = trim_bounds(s);
        let ghost t = trimmed(sv);
        let mut neg = false;
        let mut bstart = lo;
        if lo < hi {
            let c0 = s.get_char(lo);
            if c0 == '-' {
                neg = true;
                bstart = lo + 1;
            } else if c0 == '+' {
                bstart = lo + 1;
            }
        }
        let ghost b = text_body(t);
        proof {
            if t.len() > 0 {
                assert(t[0] == sv[lo as int]);
            }
            assert(neg == text_negative(t));
            assert(b =~= sv.subrange(bstart as int, hi as int));
        }
        let mut seen_digit = false;
        let mut seen_dot = false;
        let mut too_big = false;
        let mut int_acc: i128 = 0;
        let mut fcnt: usize = 0;
        let mut frac4: i128 = 0;
        let mut round_up = false;
        let mut i = bstart;
        proof {
            assert(b.take(0) =~= Seq::<char>::empty());
        }
        while i < hi
            invariant
                bstart <= i <= hi <= n,
                n == sv.len(),
                sv == s@,
                t == trimmed(sv),
                b == text_body(t),
                b =~= sv.subrange(bstart as int, hi as int),
                neg == text_negative(t),
                scan_state_ok(
                    b.take(i - bstart),
                    seen_digit,
                    seen_dot,
                    too_big,
                    int_acc,
                    fcnt,
                    frac4,
                    round_up,
                ),
            decreases hi - i,
        {
            let ghost p = b.take(i - bstart);
            let ghost p2 = b.take(i + 1 - bstart);
            let c = s.get_char(i);
            proof {
                assert(p2.drop_last() =~= p);
                assert(p2.last() == b[i - bstart]);
                assert(b[i - bstart] == sv[i as int]);
                lemma_collected_digits(p);
                lemma_digits_val_bounds(whole_digits(p));
                lemma_digits_val_bounds(frac_digits(p));
                if frac_digits(p).len() >= 4 {
                    lemma_digits_val_bounds(frac_digits(p).take(4));
                } else {
                    lemma_digits_val_bounds(frac_digits(p));
                }
                lemma_pow10_small();
            }
            let u = c as u32;
            if 48 <= u && u <= 57 {
                proof {
                    assert(is_digit(c));
                }
                let d = (u - 48) as i128;
                if !seen_dot {
                    proof {
                        assert(whole_digits(p2) =~= whole_digits(p).push(c));
                        assert(frac_digits(p2) =~= frac_digits(p));
                        lemma_digits_val_push(whole_digits(p), c);
                    }
                    if !too_big {
                        let cand = int_acc * 10 + d;
                        if cand > MAX_WHOLE_PART {
                            too_big = true;
                        } else {
                            int_acc = cand;
                        }
                    }
                } else {
                    proof {
                        assert(whole_digits(p2) =~= whole_digits(p));
                        assert(frac_digits(p2) =~= frac_digits(p).push(c));
                        lemma_digits_val_push(frac_digits(p), c);
                    }
                    if fcnt < 4 {
                        proof {
                            if frac_digits(p2).len() == 4 {
                                assert(frac_digits(p2).take(4) =~= frac_digits(p2));
                            }
                        }
                        frac4 = frac4 * 10 + d;
                        fcnt = fcnt + 1;
                    } else if fcnt == 4 {
                        proof {
                            assert(frac_digits(p).take(4) =~= frac_digits(p));
                            assert(frac_digits(p2).take(4) =~= frac_digits(p));
                            assert(frac_digits(p2)[4] == c);
                        }
                        round_up = d >= 5;
                        fcnt = 5;
                    } else {
                        proof {
                            assert(frac_digits(p2).take(4) =~= frac_digits(p).take(4));
                            assert(frac_digits(p2)[4] == frac_digits(p)[4]);
                        }
                    }
                }
                seen_digit = true;
            } else if c == '.' {
                if seen_dot {
                    proof {
                        assert(!body_ok(p2));
                        if body_ok(b) {
                            lemma_body_ok_prefix(b, i + 1 - bstart);
                        }
                    }
                    return Err(ParseError);
                }
                seen_dot = true;
                proof {
                    assert(whole_digits(p2) =~= whole_digits(p));
                    assert(frac_digits(p2) =~= frac_digits(p));
                }
            } else if c == '_' {
                if !seen_digit {
                    proof {
                        assert(!body_ok(p2));
                        if body_ok(b) {
                            lemma_body_ok_prefix(b, i + 1 - bstart);
                        }
                    }
                    return Err(ParseError);
                }
                proof {
                    assert(whole_digits(p2) =~= whole_digits(p));
                    assert(frac_digits(p2) =~= frac_digits(p));
                }
            } else {
                proof {
                    assert(!is_digit(c));
                    assert(!body_ok(p2));
                    if body_ok(b) {
                        lemma_body_ok_prefix(b, i + 1 - bstart);
                    }
                }
                return Err(ParseError);
            }
            i = i + 1;
        }
        proof {
            assert(b.take(hi - bstart) =~= b);
            lemma_collected_digits(b);
            lemma_digits_val_bounds(whole_digits(b));
            lemma_frac4_val_bounds(frac_digits(b));
            lemma_pow10_small();
        }
        if !seen_digit {
            return Err(ParseError);
        }
        if too_big {
            proof {
                lemma_too_big_body(b);
            }
            return Err(ParseError);
        }
        let pad: i128 = if fcnt >= 4 {
            1
        } else if fcnt == 3 {
            10
        } else if fcnt == 2 {
            100
        } else if fcnt == 1 {
            1000
        } else {
            10000
        };
        proof {
            if frac_digits(b).len() >= 4 {
                lemma_digits_val_bounds(frac_digits(b).take(4));
            } else {
                lemma_digits_val_bounds(frac_digits(b));
            }
            assert(frac4 as int * pad as int == frac4_val(frac_digits(b)));
        }
        let m = int_acc * UNITS_PER_ONE + frac4 * pad + if round_up {
            1
        } else {
            0
        };
        proof {
            assert(m as int == body_units(b));
        }
        if m > MAX_AMOUNT_UNITS {
            return Err(ParseError);
        }
        let units = if neg {
            -m
        } else {
            m
        };
        Ok(Decimal4 { units })
    }
}

// ---------------------------------------------------------------------------
// Formatting: a sign for negative values, the whole part without leading
// zeros, a point, and exactly four fractional digits.
// ---------------------------------------------------------------------------
/// The character for a single decimal digit.
pub open spec fn digit_char(d: int) -> char {
    if d == 0 {
        '0'
    } else if d == 1 {
        '1'
    } else if d == 2 {
        '2'
    } else if d == 3 {
        '3'
    } else if d == 4 {
        '4'
    } else if d == 5 {
        '5'
    } else if d == 6 {
        '6'
    } else if d == 7 {
        '7'
    } else if d == 8 {
        '8'
    } else {
        '9'
    }
}

/// The decimal digits of a natural number, most significant first.
pub open spec fn dec_digits(n: nat) -> Seq<char>
    decreases n,
{
    if n < 10 {
        seq![digit_char(n as int)]
    } else {
        dec_digits(n / 10) + seq![digit_char(n as int % 10)]
    }
}

/// The text of a non-negative count of ten-thousandths.
pub open spec fn format_mag(m: int) -> Seq<char> {
    let f = m % 10000;
    dec_digits((m / 10000) as nat) + seq!['.'] + seq![
        digit_char(f / 1000),
        digit_char(f % 1000 / 100),
        digit_char(f % 100 / 10),
        digit_char(f % 10),
    ]
}

/// The text of a count of ten-thousandths: a minus sign for negative values,
/// then the magnitude with exactly four fractional digits.
pub open spec fn format_units(u: int) -> Seq<char> {
    if u < 0 {
        seq!['-'] + format_mag(-u)
    } else {
        format_mag(u)
    }
}

/// Relies on `String::push`: appends the given character to the string.
#[verifier::external_body]
pub(crate) fn push_char(s: &mut String, c: char)
    ensures
        final (s)@ == old(s)@ + seq![c],
{
    s.push(c);
}

/// The character of each decimal digit value.
fn digit_char_of(d: i128) -> (c: char)
    requires
        0 <= d < 10,
    ensures
        c == digit_char(d as int),
{
    if d == 0 {
        '0'
    } else if d == 1 {
        '1'
    } else if d == 2 {
        '2'
    } else if d == 3 {
        '3'
    } else if d == 4 {
        '4'
    } else if d == 5 {
        '5'
    } else if d == 6 {
        '6'
    } else if d == 7 {
        '7'
    } else if d == 8 {
        '8'
    } else {
        '9'
    }
}

/// Appends the decimal digits of `n` to `out`.
pub(crate) fn push_dec_digits(n: i128, out: &mut String)
    requires
        0 <= n,
    ensures
        final (out)@ == old(out)@ + dec_digits(n as nat),
    decreases n,
{
    if n < 10 {
        push_char(out, digit_char_of(n));
    } else {
        push_dec_digits(n / 10, out);
        push_char(out, digit_char_of(n % 10));
        proof {
            assert((old(out)@ + dec_digits((n / 10) as nat)) + seq![digit_char(n as int % 10)]
                =~= old(out)@ + dec_digits(n as nat));
        }
    }
}

impl Decimal4 {
    /// Formats the value with a sign and exactly four fractional digits.
    pub fn to_text(&self) -> (r: String)
        requires
            -(i128::MAX as int) <= self@,
        ensures
            r@ == format_units(self@),
    {
        let mut out = String::new();
        let m: i128;
        if self.units < 0 {
            push_char(&mut out, '-');
            m = -self.units;
        } else {
            m = self.units;
        }
        let whole = m / UNITS_PER_ONE;
        let frac = m % UNITS_PER_ONE;
        push_dec_digits(whole, &mut out);
        push_char(&mut out, '.');
        push_char(&mut out, digit_char_of(frac / 1000));
        push_char(&mut out, digit_char_of(frac % 1000 / 100));
        push_char(&mut out, digit_char_of(frac % 100 / 10));
        push_char(&mut out, digit_char_of(frac % 10));
        proof {
            assert(out@ =~= format_units(self@));
        }
        out
    }

    /// Exact addition of two values.
    pub fn plus(self, other: Decimal4) -> (r: Decimal4)
        requires
            -(i128::MAX as int) <= self@ + other@ <= i128::MAX as int,
        ensures
            r@ == self@ + other@,
    {
        Decimal4 { units: self.units + other.units }
    }

    /// Exact subtraction of two values.
    pub fn minus(self, other: Decimal4) -> (r: Decimal4)
        requires
            -(i128::MAX as int) <= self@ - other@ <= i128::MAX as int,
        ensures
            r@ == self@ - other@,
    {
        Decimal4 { units: self.units - other.units }
    }

    /// Numeric strictly-less comparison.
    pub fn lt(&self, other: &Decimal4) -> (r: bool)
        ensures
            r == (self@ < other@),
    {
        self.units < other.units
    }

    /// Whether the value is inside the balance envelope.
    pub fn in_balance_range(&self) -> (r: bool)
        ensures
            r == balance_in_range(self@),
    {
        -MAX_BALANCE_UNITS <= self.units && self.units <= MAX_BALANCE_UNITS
    }
}

// ---------------------------------------------------------------------------
// Laws: formatted text parses back to the value it came from, and adding and
// subtracting the same value leaves the formatted text unchanged.
// ---------------------------------------------------------------------------
pub proof fn lemma_digit_char(d: int)
    requires
        0 <= d < 10,
    ensures
        is_digit(digit_char(d)),
        digit_val(digit_char(d)) == d,
{
}

/// The decimal digits of a number are digits and denote the number.
pub proof fn lemma_dec_digits(n: nat)
    ensures
        dec_digits(n).len() >= 1,
        forall|k: int| 0 <= k < dec_digits(n).len() ==> is_digit(#[trigger] dec_digits(n)[k]),
        digits_val(dec_digits(n)) == n,
    decreases n,
{
    if n < 10 {
        lemma_digit_char(n as int);
        assert(dec_digits(n).drop_last() =~= Seq::<char>::empty());
        assert(dec_digits(n).last() == digit_char(n as int));
        assert(digits_val(Seq::<char>::empty()) == 0);
        assert(digits_val(dec_digits(n)) == digit_val(digit_char(n as int)));
    } else {
        lemma_dec_digits(n / 10);
        lemma_digit_char(n as int % 10);
        assert(dec_digits(n) =~= dec_digits(n / 10).push(digit_char(n as int % 10)));
        lemma_digits_val_push(dec_digits(n / 10), digit_char(n as int % 10));
        assert forall|k: int| 0 <= k < dec_digits(n).len() implies is_digit(
            #[trigger] dec_digits(n)[k],
        ) by {
            if k < dec_digits(n / 10).len() {
                assert(dec_digits(n)[k] == dec_digits(n / 10)[k]);
            }
        }
    }
}

/// A pure digit string is a valid body: all digits go to the whole part.
pub proof fn lemma_digit_seq_body(dw: Seq<char>)
    requires
        forall|k: int| 0 <= k < dw.len() ==> is_digit(#[trigger] dw[k]),
    ensures
        body_ok(dw),
        !has_dot(dw),
        has_digit(dw) == (dw.len() > 0),
        whole_digits(dw) == dw,
        frac_digits(dw) == Seq::<char>::empty(),
    decreases dw.len(),
{
    if dw.len() > 0 {
        lemma_digit_seq_body(dw.drop_last());
        assert(whole_digits(dw) =~= dw);
    } else {
        assert(whole_digits(dw) =~= dw);
        assert(frac_digits(dw) =~= Seq::<char>::empty());
    }
}

/// Appending the decimal point to a dot-free valid body keeps it valid.
pub proof fn lemma_body_push_dot(q: Seq<char>)
    requires
        body_ok(q),
        !has_dot(q),
    ensures
        body_ok(q + seq!['.']),
        has_dot(q + seq!['.']),
        has_digit(q + seq!['.']) == has_digit(q),
        whole_digits(q + seq!['.']) == whole_digits(q),
        frac_digits(q + seq!['.']) == frac_digits(q),
{
    assert((q + seq!['.']).drop_last() =~= q);
    assert((q + seq!['.']).last() == '.');
}

/// Appending digits after the decimal point extends the fractional part.
pub proof fn lemma_body_append_digits(q: Seq<char>, df: Seq<char>)
    requires
        body_ok(q),
        has_dot(q),
        forall|k: int| 0 <= k < df.len() ==> is_digit(#[trigger] df[k]),
    ensures
        body_ok(q + df),
        has_dot(q + df),
        has_digit(q + df) == (has_digit(q) || df.len() > 0),
        whole_digits(q + df) == whole_digits(q),
        frac_digits(q + df) == frac_digits(q) + df,
    decreases df.len(),
{
    if df.len() == 0 {
        assert(q + df =~= q);
        assert(frac_digits(q) + df =~= frac_digits(q));
    } else {
        let df0 = df.drop_last();
        assert(forall|k: int| 0 <= k < df0.len() ==> is_digit(#[trigger] df0[k]));
        lemma_body_append_digits(q, df0);
        assert((q + df).drop_last() =~= q + df0);
        assert((q + df).last() == df.last());
        assert(frac_digits(q + df) =~= frac_digits(q) + df);
    }
}

/// Round trip: the formatted text of any in-range value parses back to it.
pub proof fn lemma_parse_format_roundtrip(u: int)
    requires
        amount_in_range(u),
    ensures
        parse_units(format_units(u)) == Some(u),
{
    let m = if u < 0 {
        -u
    } else {
        u
    };
    let w = m / 10000;
    let f = m % 10000;
    let dw = dec_digits(w as nat);
    let df = seq![
        digit_char(f / 1000),
        digit_char(f % 1000 / 100),
        digit_char(f % 100 / 10),
        digit_char(f % 10),
    ];
    let body = dw + seq!['.'] + df;
    let fmt = format_units(u);
    lemma_dec_digits(w as nat);
    assert(0 <= f < 10000);
    assert(f % 1000 / 100 < 10 && f % 100 / 10 < 10) by (nonlinear_arith)
        requires
            0 <= f,
    ;
    lemma_digit_char(f / 1000);
    lemma_digit_char(f % 1000 / 100);
    lemma_digit_char(f % 100 / 10);
    lemma_digit_char(f % 10);
    assert(forall|k: int| 0 <= k < df.len() ==> is_digit(#[trigger] df[k]));
    if u < 0 {
        assert(fmt =~= seq!['-'] + body);
    } else {
        assert(fmt =~= body);
    }
    // Nothing in the text is whitespace, so trimming leaves it unchanged.
    assert(fmt.len() > 0);
    assert(fmt[0] == '-' || fmt[0] == dw[0]);
    assert(!is_ascii_space(fmt[0]));
    assert(trim_front(fmt) == fmt);
    assert(fmt.last() == digit_char(f % 10));
    assert(!is_ascii_space(fmt.last()));
    assert(trim_back(fmt) == fmt);
    assert(trimmed(fmt) == fmt);
    // The sign and the body are read back off the text.
    assert(text_negative(fmt) == (u < 0));
    if u < 0 {
        assert(text_body(fmt) =~= body);
    } else {
        assert(text_body(fmt) =~= body);
    }
    // The body decomposes into the whole digits and the fractional digits.
    lemma_digit_seq_body(dw);
    lemma_body_push_dot(dw);
    lemma_body_append_digits(dw + seq!['.'], df);
    assert(whole_digits(body) == dw);
    assert(frac_digits(body) =~= df);
    assert(has_digit(body));
    assert(body_ok(body));
    // The digits denote the original whole and fractional parts.
    assert(digits_val(dw) == w);
    assert(df.take(4) =~= df);
    let d3 = seq![digit_char(f / 1000), digit_char(f % 1000 / 100), digit_char(f % 100 / 10)];
    let d2 = seq![digit_char(f / 1000), digit_char(f % 1000 / 100)];
    let d1 = seq![digit_char(f / 1000)];
    assert(df.drop_last() =~= d3);
    assert(d3.drop_last() =~= d2);
    assert(d2.drop_last() =~= d1);
    assert(d1.drop_last() =~= Seq::<char>::empty());
    assert(digits_val(Seq::<char>::empty()) == 0);
    assert(digits_val(d1) == digit_val(digit_char(f / 1000)));
    assert(digits_val(d2) == digits_val(d1) * 10 + digit_val(digit_char(f % 1000 / 100)));
    assert(digits_val(d3) == digits_val(d2) * 10 + digit_val(digit_char(f % 100 / 10)));
    assert(digits_val(df) == digits_val(d3) * 10 + digit_val(digit_char(f % 10)));
    assert(digits_val(df) == ((f / 1000 * 10 + f % 1000 / 100) * 10 + f % 100 / 10) * 10 + f % 10);
    assert(f / 1000 * 1000 + f % 1000 / 100 * 100 + f % 100 / 10 * 10 + f % 10 == f)
        by (nonlinear_arith)
        requires
            0 <= f < 10000,
    ;
    assert(frac4_val(df) == f);
    assert(!rounds_up(df));
    assert(body_units(body) == w * 10000 + f);
    assert(w * 10000 + f == m);
    assert(body_units(body) == m);
    assert(m <= MAX_AMOUNT_UNITS as int);
    assert(parse_units(fmt) == Some(u));
}

/// A successfully parsed value is inside the amount range.
pub proof fn lemma_parse_units_in_range(s: Seq<char>)
    ensures
        parse_units(s) is Some ==> amount_in_range(parse_units(s)->Some_0),
{
    if parse_units(s) is Some {
        let b = text_body(trimmed(s));
        lemma_collected_digits(b);
        lemma_digits_val_bounds(whole_digits(b));
        lemma_frac4_val_bounds(frac_digits(b));
        assert(digits_val(whole_digits(b)) * 10000 >= 0) by {
            broadcast use vstd::arithmetic::mul::lemma_mul_nonnegative;

        }
    }
}

/// Adding and then subtracting the same value leaves the formatted text
/// unchanged: the arithmetic is exact.
pub proof fn lemma_format_add_sub(a: int, b: int)
    ensures
        format_units(a + b - b) == format_units(a),
{
}

} // verus!
