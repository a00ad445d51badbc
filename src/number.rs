use vstd::prelude::*;
use crate::columns::{columns, columns_of, strip_blanks, strip_blanks_of};
use crate::error::{Diagnostic, Issue, Location, Severity};

verus! {

/// An exact decimal number: `mantissa / 10^scale`.
#[derive(Clone, Copy, Debug, PartialEq, Eq, Structural)]
pub struct Decimal {
    pub mantissa: i64,
    pub scale: u32,
}

impl Decimal {
    /// The number `mantissa / 10^scale`.
    pub fn new(mantissa: i64, scale: u32) -> (r: Decimal)
        ensures
            r == (Decimal { mantissa, scale }),
    {
        Decimal { mantissa, scale }
    }
}

pub open spec fn is_digit(c: char) -> bool {
    '0' <= c <= '9'
}

pub open spec fn digit_value(c: char) -> int {
    c as int - '0' as int
}

/// The value of a run of decimal digits, most significant first.
pub open spec fn digits_value(s: Seq<char>) -> int
    decreases s.len(),
{
    if s.len() == 0 {
        0
    } else {
        digits_value(s.drop_last()) * 10 + digit_value(s.last())
    }
}

/// A non-empty run of decimal digits.
pub open spec fn all_digits(s: Seq<char>) -> bool {
    s.len() > 0 && forall|i: int| 0 <= i < s.len() ==> is_digit(#[trigger] s[i])
}

/// The value of an unsigned integer text: an optional `+`, then digits.
pub open spec fn unsigned_text(t: Seq<char>) -> Option<int> {
    let body = if t.len() > 0 && t[0] == '+' {
        t.drop_first()
    } else {
        t
    };
    if all_digits(body) {
        Some(digits_value(body))
    } else {
        None
    }
}

/// The value of a signed integer text: an optional `+` or `-`, then digits.
pub open spec fn signed_text(t: Seq<char>) -> Option<int> {
    if t.len() > 0 && t[0] == '-' {
        if all_digits(t.drop_first()) {
            Some(-digits_value(t.drop_first()))
        } else {
            None
        }
    } else {
        unsigned_text(t)
    }
}

/// Reads digits with at most one decimal point, left to right. The result is
/// the digits' value, the count of digits after the point, whether a point was
/// seen, and the count of digits.
pub open spec fn decimal_scan(b: Seq<char>) -> Option<(int, nat, bool, nat)>
    decreases b.len(),
{
    if b.len() == 0 {
        Some((0, 0, false, 0))
    } else {
        match decimal_scan(b.drop_last()) {
            None => None,
            Some((m, s, p, d)) => {
                let c = b.last();
                if is_digit(c) {
                    Some((m * 10 + digit_value(c), if p {
                        s + 1
                    } else {
                        s
                    }, p, d + 1))
                } else if c == '.' && !p {
                    Some((m, s, true, d))
                } else {
                    None
                }
            },
        }
    }
}

/// An unsigned decimal text: digits with at most one point, at least one digit.
pub open spec fn unsigned_decimal(b: Seq<char>) -> Option<(int, nat)> {
    match decimal_scan(b) {
        Some((m, s, _, d)) => if d > 0 {
            Some((m, s))
        } else {
            None
        },
        None => None,
    }
}

/// A decimal text with an optional sign, as mantissa and scale.
pub open spec fn decimal_text(t: Seq<char>) -> Option<(int, nat)> {
    if t.len() > 0 && t[0] == '-' {
        match unsigned_decimal(t.drop_first()) {
            Some((m, s)) => Some((-m, s)),
            None => None,
        }
    } else if t.len() > 0 && t[0] == '+' {
        unsigned_decimal(t.drop_first())
    } else {
        unsigned_decimal(t)
    }
}

/// A field read as a `usize` once its white space is removed.
pub open spec fn usize_field(s: Seq<char>) -> Option<usize> {
    match unsigned_text(strip_blanks(s)) {
        Some(v) => if v <= usize::MAX {
            Some(v as usize)
        } else {
            None
        },
        None => None,
    }
}

/// A field read as an `i64` once its white space is removed.
pub open spec fn i64_field(s: Seq<char>) -> Option<i64> {
    match signed_text(strip_blanks(s)) {
        Some(v) => if i64::MIN <= v <= i64::MAX {
            Some(v as i64)
        } else {
            None
        },
        None => None,
    }
}

/// A field read as a decimal once its white space is removed.
pub open spec fn decimal_field(s: Seq<char>) -> Option<Decimal> {
    match decimal_text(strip_blanks(s)) {
        Some((m, sc)) => if i64::MIN <= m <= i64::MAX && sc <= u32::MAX {
            Some(Decimal { mantissa: m as i64, scale: sc as u32 })
        } else {
            None
        },
        None => None,
    }
}

pub proof fn lemma_digits_prefix(b: Seq<char>, j: int)
    requires
        0 <= j <= b.len(),
        forall|i: int| 0 <= i < b.len() ==> is_digit(#[trigger] b[i]),
    ensures
        0 <= digits_value(b.subrange(0, j)) <= digits_value(b),
    decreases b.len(),
{
    if j < b.len() {
        let d = b.drop_last();
        assert(forall|i: int| 0 <= i < d.len() ==> #[trigger] d[i] == b[i]);
        lemma_digits_prefix(d, j);
        assert(d.subrange(0, j) =~= b.subrange(0, j));
        lemma_digits_prefix(d, d.len() as int);
        assert(d.subrange(0, d.len() as int) =~= d);
    } else {
        assert(b.subrange(0, j) =~= b);
        if b.len() > 0 {
            let d = b.drop_last();
            assert(forall|i: int| 0 <= i < d.len() ==> #[trigger] d[i] == b[i]);
            lemma_digits_prefix(d, d.len() as int);
            assert(d.subrange(0, d.len() as int) =~= d);
        }
    }
}

fn digit_of(c: char) -> (r: u8)
    requires
        is_digit(c),
    ensures
        r as int == digit_value(c),
        r <= 9,
{
    ((c as u32) - ('0' as u32)) as u8
}

/// Parses a `usize` from a field, ignoring its white space.
pub fn parse_usize(field: &Vec<char>) -> (r: Option<usize>)
    ensures
        r == usize_field(field@),
{
    let t = strip_blanks_of(field);
    let start: usize = if t.len() > 0 && t[0] == '+' {
        1
    } else {
        0
    };
    let ghost body = t@.subrange(start as int, t@.len() as int);
    assert(start == 1 ==> body =~= t@.drop_first());
    assert(start == 0 ==> body =~= t@);
    assert(unsigned_text(t@) == if all_digits(body) {
        Some(digits_value(body))
    } else {
        None::<int>
    });
    if start >= t.len() {
        return None;
    }
    let mut i: usize = start;
    while i < t.len()
        invariant
            start <= i <= t@.len(),
            body == t@.subrange(start as int, t@.len() as int),
            t@ == strip_blanks(field@),
            unsigned_text(t@) == if all_digits(body) {
                Some(digits_value(body))
            } else {
                None::<int>
            },
            forall|k: int| 0 <= k < i - start ==> is_digit(#[trigger] body[k]),
        decreases t@.len() - i,
    {
        if !('0' <= t[i] && t[i] <= '9') {
            assert(!is_digit(body[i - start]));
            assert(!all_digits(body));
            return None;
        }
        i += 1;
    }
    let mut v: usize = 0;
    let mut i: usize = start;
    while i < t.len()
        invariant
            start <= i <= t@.len(),
            body == t@.subrange(start as int, t@.len() as int),
            t@ == strip_blanks(field@),
            unsigned_text(t@) == if all_digits(body) {
                Some(digits_value(body))
            } else {
                None::<int>
            },
            all_digits(body),
            v as int == digits_value(body.subrange(0, i - start)),
        decreases t@.len() - i,
    {
        assert(body.subrange(0, i - start + 1).drop_last() =~= body.subrange(0, i - start));
        assert(body[i - start] == t@[i as int]);
        assert(is_digit(body[i - start]));
        let d = digit_of(t[i]);
        proof {
            lemma_digits_prefix(body, i - start + 1);
            assert(digits_value(body.subrange(0, i - start + 1)) == v * 10 + d);
        }
        match v.checked_mul(10) {
            Some(w) => match w.checked_add(d as usize) {
                Some(x) => {
                    v = x;
                },
                None => {
                    return None;
                },
            },
            None => {
                return None;
            },
        }
        i += 1;
    }
    assert(body.subrange(0, body.len() as int) =~= body);
    Some(v)
}


pub open spec fn pow10(n: nat) -> int
    decreases n,
{
    if n == 0 {
        1
    } else {
        10 * pow10((n - 1) as nat)
    }
}

proof fn lemma_pow10_mono(a: nat, b: nat)
    requires
        a <= b,
    ensures
        1 <= pow10(a) <= pow10(b),
    decreases b,
{
    if b > a {
        lemma_pow10_mono(a, (b - 1) as nat);
    } else if a > 0 {
        lemma_pow10_mono(0, (a - 1) as nat);
    }
}

proof fn lemma_pow10_bound(n: nat)
    requires
        n <= 18,
    ensures
        1 <= pow10(n) <= 1_000_000_000_000_000_000,
        n < 18 ==> pow10(n) <= 100_000_000_000_000_000,
{
    assert(pow10(17) == 100_000_000_000_000_000) by {
        reveal_with_fuel(pow10, 18);
    }
    assert(pow10(18) == 1_000_000_000_000_000_000) by {
        reveal_with_fuel(pow10, 19);
    }
    if n < 18 {
        lemma_pow10_mono(n, 17);
    } else {
        lemma_pow10_mono(n, 18);
    }
}

/// The value of the digits `t[start..]`, when they are all digits.
fn digits_in(t: &Vec<char>, start: usize) -> (r: Option<i64>)
    requires
        start <= t@.len() <= 18,
    ensures
        r is Some <==> all_digits(t@.subrange(start as int, t@.len() as int)),
        r is Some ==> r->0 as int == digits_value(t@.subrange(start as int, t@.len() as int))
            && 0 <= r->0 < 1_000_000_000_000_000_000,
{
    let ghost body = t@.subrange(start as int, t@.len() as int);
    if start >= t.len() {
        return None;
    }
    let mut v: i64 = 0;
    let mut i: usize = start;
    while i < t.len()
        invariant
            start <= i <= t@.len() <= 18,
            start < t@.len(),
            body == t@.subrange(start as int, t@.len() as int),
            forall|k: int| 0 <= k < i - start ==> is_digit(#[trigger] body[k]),
            v as int == digits_value(body.subrange(0, i - start)),
            0 <= v < pow10((i - start) as nat),
        decreases t@.len() - i,
    {
        if !('0' <= t[i] && t[i] <= '9') {
            assert(!is_digit(body[i - start]));
            return None;
        }
        assert(body.subrange(0, i - start + 1).drop_last() =~= body.subrange(0, i - start));
        assert(body[i - start] == t@[i as int]);
        let d = digit_of(t[i]);
        proof {
            lemma_pow10_bound((i - start) as nat);
            assert(pow10((i - start + 1) as nat) == 10 * pow10((i - start) as nat));
            assert(v * 10 + d < 10 * pow10((i - start) as nat)) by (nonlinear_arith)
                requires
                    v < pow10((i - start) as nat),
                    d <= 9,
            ;
        }
        v = v * 10 + d as i64;
        i += 1;
    }
    assert(body.subrange(0, body.len() as int) =~= body);
    proof {
        lemma_pow10_bound(body.len());
    }
    Some(v)
}

/// Parses an `i64` from a field, ignoring its white space. Fields hold at
/// most 18 characters, so that their digits always fit an `i64`.
pub fn parse_i64(field: &Vec<char>) -> (r: Option<i64>)
    requires
        field@.len() <= 18,
    ensures
        r == i64_field(field@),
{
    let t = strip_blanks_of(field);
    proof {
        lemma_strip_blanks_len(field@);
    }
    if t.len() > 0 && t[0] == '-' {
        assert(t@.subrange(1, t@.len() as int) =~= t@.drop_first());
        match digits_in(&t, 1) {
            Some(m) => Some(-m),
            None => None,
        }
    } else if t.len() > 0 && t[0] == '+' {
        assert(t@.subrange(1, t@.len() as int) =~= t@.drop_first());
        digits_in(&t, 1)
    } else {
        assert(t@.subrange(0, t@.len() as int) =~= t@);
        digits_in(&t, 0)
    }
}

pub proof fn lemma_strip_blanks_len(s: Seq<char>)
    ensures
        strip_blanks(s).len() <= s.len(),
    decreases s.len(),
{
    if s.len() > 0 {
        lemma_strip_blanks_len(s.drop_last());
    }
}

/// Parses an unsigned decimal from `t[start..]`.
fn unsigned_decimal_in(t: &Vec<char>, start: usize) -> (r: Option<Decimal>)
    requires
        start <= t@.len() <= 18,
    ensures
        r is Some <==> unsigned_decimal(t@.subrange(start as int, t@.len() as int)) is Some,
        match unsigned_decimal(t@.subrange(start as int, t@.len() as int)) {
            Some((m, sc)) => r is Some && r->0.mantissa as int == m && r->0.scale as int == sc,
            None => r is None,
        },
        r is Some ==> 0 <= r->0.mantissa < 1_000_000_000_000_000_000 && r->0.scale <= 18,
{
    let ghost body = t@.subrange(start as int, t@.len() as int);
    let mut m: i64 = 0;
    let mut s: u32 = 0;
    let mut p: bool = false;
    let mut d: usize = 0;
    let mut i: usize = start;
    assert(body.subrange(0, 0) =~= Seq::<char>::empty());
    while i < t.len()
        invariant
            start <= i <= t@.len() <= 18,
            body == t@.subrange(start as int, t@.len() as int),
            decimal_scan(body.subrange(0, i - start)) == Some((m as int, s as nat, p, d as nat)),
            d <= i - start,
            s <= d,
            0 <= m < pow10(d as nat),
        decreases t@.len() - i,
    {
        let c = t[i];
        assert(body.subrange(0, i - start + 1).drop_last() =~= body.subrange(0, i - start));
        assert(body.subrange(0, i - start + 1).last() == c);
        if '0' <= c && c <= '9' {
            let dv = digit_of(c);
            proof {
                lemma_pow10_bound(d as nat);
                assert(pow10((d + 1) as nat) == 10 * pow10(d as nat));
                assert(m * 10 + dv < 10 * pow10(d as nat)) by (nonlinear_arith)
                    requires
                        m < pow10(d as nat),
                        dv <= 9,
                ;
            }
            m = m * 10 + dv as i64;
            if p {
                s = s + 1;
            }
            d = d + 1;
        } else if c == '.' && !p {
            p = true;
        } else {
            proof {
                let sub = body.subrange(0, i - start + 1);
                assert(decimal_scan(sub) is None);
                lemma_scan_none_extends(body, i - start + 1);
                assert(body.subrange(0, body.len() as int) =~= body);
            }
            return None;
        }
        i += 1;
    }
    assert(body.subrange(0, body.len() as int) =~= body);
    if d == 0 {
        return None;
    }
    proof {
        lemma_pow10_bound(d as nat);
    }
    Some(Decimal { mantissa: m, scale: s })
}

/// Once the scan has failed on a prefix, it fails on every longer prefix.
proof fn lemma_scan_none_extends(b: Seq<char>, j: int)
    requires
        0 <= j <= b.len(),
        decimal_scan(b.subrange(0, j)) is None,
    ensures
        decimal_scan(b) is None,
    decreases b.len() - j,
{
    if j < b.len() {
        assert(b.subrange(0, j + 1).drop_last() =~= b.subrange(0, j));
        lemma_scan_none_extends(b, j + 1);
    } else {
        assert(b.subrange(0, j) =~= b);
    }
}

/// Parses a decimal number from a field, ignoring its white space. Fields
/// hold at most 18 characters, so that the mantissa always fits an `i64`.
pub fn parse_decimal(field: &Vec<char>) -> (r: Option<Decimal>)
    requires
        field@.len() <= 18,
    ensures
        r == decimal_field(field@),
{
    let t = strip_blanks_of(field);
    proof {
        lemma_strip_blanks_len(field@);
    }
    if t.len() > 0 && t[0] == '-' {
        assert(t@.subrange(1, t@.len() as int) =~= t@.drop_first());
        match unsigned_decimal_in(&t, 1) {
            Some(v) => Some(Decimal { mantissa: -v.mantissa, scale: v.scale }),
            None => None,
        }
    } else if t.len() > 0 && t[0] == '+' {
        assert(t@.subrange(1, t@.len() as int) =~= t@.drop_first());
        unsigned_decimal_in(&t, 1)
    } else {
        assert(t@.subrange(0, t@.len() as int) =~= t@);
        unsigned_decimal_in(&t, 0)
    }
}


/// The diagnostic for a field `[start, end)` of line `line_no` that holds no number.
pub open spec fn number_error(line_no: usize, start: usize, end: usize) -> Diagnostic {
    Diagnostic {
        severity: Severity::InvalidatingError,
        issue: Issue::NotANumber,
        location: Location::Span { line: line_no, start, length: (end - start) as usize },
    }
}

/// The diagnostics that reading a field gives: one when it holds no number.
pub open spec fn field_errors(ok: bool, line_no: usize, start: usize, end: usize) -> Seq<
    Diagnostic,
> {
    if ok {
        Seq::empty()
    } else {
        seq![number_error(line_no, start, end)]
    }
}

/// The `usize` in columns `[start, end)`, or zero when they hold none.
pub open spec fn usize_at(line: Seq<char>, start: int, end: int) -> usize {
    match usize_field(columns(line, start, end)) {
        Some(v) => v,
        None => 0,
    }
}

pub open spec fn usize_errors(line: Seq<char>, line_no: usize, start: usize, end: usize) -> Seq<
    Diagnostic,
> {
    field_errors(usize_field(columns(line, start as int, end as int)) is Some, line_no, start, end)
}

/// The `i64` in columns `[start, end)`, or zero when they hold none.
pub open spec fn i64_at(line: Seq<char>, start: int, end: int) -> i64 {
    match i64_field(columns(line, start, end)) {
        Some(v) => v,
        None => 0,
    }
}

pub open spec fn i64_errors(line: Seq<char>, line_no: usize, start: usize, end: usize) -> Seq<
    Diagnostic,
> {
    field_errors(i64_field(columns(line, start as int, end as int)) is Some, line_no, start, end)
}

/// The decimal in columns `[start, end)`, or zero when they hold none.
pub open spec fn decimal_at(line: Seq<char>, start: int, end: int) -> Decimal {
    match decimal_field(columns(line, start, end)) {
        Some(v) => v,
        None => Decimal { mantissa: 0, scale: 0 },
    }
}

pub open spec fn decimal_errors(line: Seq<char>, line_no: usize, start: usize, end: usize) -> Seq<
    Diagnostic,
> {
    field_errors(decimal_field(columns(line, start as int, end as int)) is Some, line_no, start, end)
}

/// Parses the `usize` in columns `[start, end)` of line `line_no`, or gives
/// the diagnostic that the field holds no number.
pub fn parse_number(line: &Vec<char>, line_no: usize, start: usize, end: usize) -> (r: Result<usize, Diagnostic>)
    requires
        start <= end,
    ensures
        match usize_field(columns(line@, start as int, end as int)) {
            Some(v) => r == Ok::<usize, Diagnostic>(v),
            None => r == Err::<usize, Diagnostic>(number_error(line_no, start, end)),
        },
{
    let field = columns_of(line, start, end);
    match parse_usize(&field) {
        Some(v) => Ok(v),
        None => Err(
            Diagnostic::new(
                Severity::InvalidatingError,
                Issue::NotANumber,
                Location::Span { line: line_no, start, length: end - start },
            ),
        ),
    }
}

/// Reads a `usize` field; a field without one reads as zero and is reported.
pub fn read_usize(
    line: &Vec<char>,
    line_no: usize,
    start: usize,
    end: usize,
    errors: &mut Vec<Diagnostic>,
) -> (r: usize)
    requires
        start <= end,
    ensures
        r == usize_at(line@, start as int, end as int),
        final(errors)@ == old(errors)@ + usize_errors(line@, line_no, start, end),
{
    match parse_number(line, line_no, start, end) {
        Ok(v) => {
            assert(old(errors)@ + Seq::<Diagnostic>::empty() =~= old(errors)@);
            v
        },
        Err(e) => {
            errors.push(e);
            assert(final(errors)@ =~= old(errors)@ + usize_errors(line@, line_no, start, end));
            0
        },
    }
}

/// Reads an `i64` field; a field without one reads as zero and is reported.
pub fn read_i64(
    line: &Vec<char>,
    line_no: usize,
    start: usize,
    end: usize,
    errors: &mut Vec<Diagnostic>,
) -> (r: i64)
    requires
        start <= end <= start + 18,
    ensures
        r == i64_at(line@, start as int, end as int),
        final(errors)@ == old(errors)@ + i64_errors(line@, line_no, start, end),
{
    let field = columns_of(line, start, end);
    match parse_i64(&field) {
        Some(v) => {
            assert(old(errors)@ + Seq::<Diagnostic>::empty() =~= old(errors)@);
            v
        },
        None => {
            errors.push(
                Diagnostic::new(
                    Severity::InvalidatingError,
                    Issue::NotANumber,
                    Location::Span { line: line_no, start, length: end - start },
                ),
            );
            assert(final(errors)@ =~= old(errors)@ + i64_errors(line@, line_no, start, end));
            0
        },
    }
}

/// Reads a decimal field; a field without one reads as zero and is reported.
pub fn read_decimal(
    line: &Vec<char>,
    line_no: usize,
    start: usize,
    end: usize,
    errors: &mut Vec<Diagnostic>,
) -> (r: Decimal)
    requires
        start <= end <= start + 18,
    ensures
        r == decimal_at(line@, start as int, end as int),
        final(errors)@ == old(errors)@ + decimal_errors(line@, line_no, start, end),
{
    let field = columns_of(line, start, end);
    match parse_decimal(&field) {
        Some(v) => {
            assert(old(errors)@ + Seq::<Diagnostic>::empty() =~= old(errors)@);
            v
        },
        None => {
            errors.push(
                Diagnostic::new(
                    Severity::InvalidatingError,
                    Issue::NotANumber,
                    Location::Span { line: line_no, start, length: end - start },
                ),
            );
            assert(final(errors)@ =~= old(errors)@ + decimal_errors(line@, line_no, start, end));
            Decimal::new(0, 0)
        },
    }
}

} // verus!
