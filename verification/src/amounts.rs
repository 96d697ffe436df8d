//! Reading cost amounts.
//!
//! The billing source writes an amount as a decimal number: an optional
//! sign, digits with at most one point among them, and optionally an
//! exponent of ten. It is read to the sixth decimal, a seventh digit of
//! five or more rounding up. A text that is no such number, or a number
//! beyond the cost limit, counts as zero: one malformed group does not
//! spoil the report of an account.

use vstd::prelude::*;
use vstd::string::*;
use vstd::utf8::is_ascii_chars;
use crate::money::COST_LIMIT;

verus! {

/// Whether `c` is a decimal digit.
pub open spec fn is_digit(c: char) -> bool {
    '0' <= c <= '9'
}

/// The value of the digit `c`.
pub open spec fn digit_value(c: char) -> int {
    (c as u32) - 48
}

/// Whether `s` holds digits only.
pub open spec fn all_digits(s: Seq<char>) -> bool {
    forall|i: int| 0 <= i < s.len() ==> is_digit(#[trigger] s[i])
}

/// The number that the digits of `s` write.
pub open spec fn digits_value(s: Seq<char>) -> int
    decreases s.len(),
{
    if s.len() == 0 {
        0
    } else {
        digits_value(s.drop_last()) * 10 + digit_value(s.last())
    }
}

/// Ten to the power of `n`.
pub open spec fn pow10(n: nat) -> int
    decreases n,
{
    if n == 0 {
        1
    } else {
        10 * pow10((n - 1) as nat)
    }
}

/// The position of the first point of `s`; its length where it has none.
pub open spec fn point_at(s: Seq<char>) -> int
    decreases s.len(),
{
    if s.len() == 0 || s[0] == '.' {
        0
    } else {
        1 + point_at(s.drop_first())
    }
}

/// Whether `c` opens an exponent.
pub open spec fn is_mark(c: char) -> bool {
    c == 'e' || c == 'E'
}

/// The position of the first exponent mark of `s`; its length where it has none.
pub open spec fn mark_at(s: Seq<char>) -> int
    decreases s.len(),
{
    if s.len() == 0 || is_mark(s[0]) {
        0
    } else {
        1 + mark_at(s.drop_first())
    }
}

/// Whether `s` starts with a sign.
pub open spec fn has_sign(s: Seq<char>) -> bool {
    s.len() > 0 && (s[0] == '+' || s[0] == '-')
}

/// `s` without its sign.
pub open spec fn unsigned_part(s: Seq<char>) -> Seq<char> {
    if has_sign(s) {
        s.drop_first()
    } else {
        s
    }
}

/// What stands before the exponent mark.
pub open spec fn mantissa(u: Seq<char>) -> Seq<char> {
    u.take(mark_at(u))
}

/// What stands behind the exponent mark, if there is one.
pub open spec fn exponent_text(u: Seq<char>) -> Option<Seq<char>> {
    if mark_at(u) < u.len() {
        Some(u.skip(mark_at(u) + 1))
    } else {
        None
    }
}

/// What stands before the first point.
pub open spec fn whole_digits(m: Seq<char>) -> Seq<char> {
    m.take(point_at(m))
}

/// What stands behind the first point.
pub open spec fn fraction_digits(m: Seq<char>) -> Seq<char> {
    if point_at(m) < m.len() {
        m.skip(point_at(m) + 1)
    } else {
        Seq::empty()
    }
}

/// Whether `m` is digits before or behind at most one point, with at
/// least one digit in all.
pub open spec fn is_mantissa(m: Seq<char>) -> bool {
    &&& all_digits(whole_digits(m))
    &&& all_digits(fraction_digits(m))
    &&& whole_digits(m).len() + fraction_digits(m).len() > 0
}

/// Whether `x` is an exponent: digits, at least one, and possibly a sign in front.
pub open spec fn is_exponent(x: Seq<char>) -> bool {
    all_digits(unsigned_part(x)) && unsigned_part(x).len() > 0
}

/// The number that the exponent `x` writes.
pub open spec fn exponent_value(x: Seq<char>) -> int {
    if x.len() > 0 && x[0] == '-' {
        -digits_value(unsigned_part(x))
    } else {
        digits_value(unsigned_part(x))
    }
}

/// Whether `u` is a number without sign: a mantissa, and possibly a mark
/// and an exponent behind it.
pub open spec fn is_number(u: Seq<char>) -> bool {
    &&& is_mantissa(mantissa(u))
    &&& exponent_text(u) matches Some(x) ==> is_exponent(x)
}

/// Whether `s` is a decimal number: a number, possibly with a sign in front.
pub open spec fn is_decimal(s: Seq<char>) -> bool {
    is_number(unsigned_part(s))
}

/// The power of ten that the number `u` is raised by.
pub open spec fn exponent_of(u: Seq<char>) -> int {
    match exponent_text(u) {
        Some(x) => exponent_value(x),
        None => 0,
    }
}

/// All digits of the mantissa `m`, those behind the point following those before it.
pub open spec fn mantissa_digits(m: Seq<char>) -> Seq<char> {
    whole_digits(m) + fraction_digits(m)
}

/// The number that `digits` write, moved by `shift` decimal places and
/// rounded to a whole number: to the left with zeros filled in, or to the
/// right with the first digit that falls off rounding up from five.
pub open spec fn scaled(digits: Seq<char>, shift: int) -> int {
    if shift >= 0 {
        digits_value(digits) * pow10(shift as nat)
    } else if -shift > digits.len() {
        0
    } else {
        digits_value(digits.take(digits.len() + shift)) + if digit_value(
            digits[digits.len() + shift],
        ) >= 5 {
            1int
        } else {
            0int
        }
    }
}

/// The number `u` in millionths, rounded.
pub open spec fn number_units(u: Seq<char>) -> int {
    let m = mantissa(u);
    scaled(mantissa_digits(m), exponent_of(u) + 6 - fraction_digits(m).len())
}

/// The magnitude of the decimal number `s` in millionths, rounded.
pub open spec fn decimal_units(s: Seq<char>) -> int {
    number_units(unsigned_part(s))
}

/// The amount that `s` stands for; zero where `s` is no decimal number or
/// is beyond the cost limit.
pub open spec fn amount_of(s: Seq<char>) -> int {
    if is_decimal(s) && decimal_units(s) <= COST_LIMIT {
        if s[0] == '-' {
            -decimal_units(s)
        } else {
            decimal_units(s)
        }
    } else {
        0
    }
}

/// The value of digits is not below zero and grows with every digit.
pub proof fn lemma_digits_value_grows(s: Seq<char>, n: int)
    requires
        all_digits(s),
        0 <= n <= s.len(),
    ensures
        0 <= digits_value(s.take(n)) <= digits_value(s),
    decreases s.len(),
{
    if s.len() > 0 {
        let front = s.drop_last();
        assert(is_digit(s[s.len() - 1]));
        assert forall|i: int| 0 <= i < front.len() implies is_digit(#[trigger] front[i]) by {
            assert(front[i] == s[i]);
        }
        lemma_digits_value_grows(front, front.len() as int);
        assert(front.take(front.len() as int) =~= front);
        if n == s.len() {
            assert(s.take(n) =~= s);
        } else {
            lemma_digits_value_grows(front, n);
            assert(front.take(n) =~= s.take(n));
        }
    } else {
        assert(s.take(n) =~= s);
    }
}

/// Where the first point stands, given how far `s` holds none.
pub proof fn lemma_point_at(s: Seq<char>, q: int)
    requires
        0 <= q <= s.len(),
        forall|j: int| 0 <= j < q ==> #[trigger] s[j] != '.',
    ensures
        q == s.len() || s[q] == '.' ==> point_at(s) == q,
        q < s.len() && s[q] != '.' ==> q < point_at(s) <= s.len(),
        point_at(s) <= s.len(),
    decreases q,
{
    lemma_point_in_range(s);
    if q > 0 {
        let rest = s.drop_first();
        assert(s[0] != '.');
        assert forall|j: int| 0 <= j < q - 1 implies #[trigger] rest[j] != '.' by {
            assert(rest[j] == s[j + 1]);
        }
        lemma_point_at(rest, q - 1);
        if q < s.len() {
            assert(rest[q - 1] == s[q]);
        }
    } else if s.len() > 0 && s[0] != '.' {
        lemma_point_in_range(s.drop_first());
    }
}

/// The first point stands within `s` or at its end.
pub proof fn lemma_point_in_range(s: Seq<char>)
    ensures
        0 <= point_at(s) <= s.len(),
    decreases s.len(),
{
    if s.len() > 0 && s[0] != '.' {
        lemma_point_in_range(s.drop_first());
    }
}

/// The first point of `s`, where it stands within `s`, is a point.
pub proof fn lemma_point_is_point(s: Seq<char>)
    ensures
        point_at(s) < s.len() ==> s[point_at(s)] == '.',
    decreases s.len(),
{
    if s.len() > 0 && s[0] != '.' {
        lemma_point_is_point(s.drop_first());
        lemma_point_in_range(s.drop_first());
    }
}

/// Reads the digits of `u` from `from` on: where they end, and their
/// value, or that the value is beyond the cost limit.
pub fn scan_digits(u: &str, from: usize) -> (r: (usize, i128, bool))
    requires
        is_ascii_chars(u@),
        from <= u@.len(),
    ensures
        from <= r.0 <= u@.len(),
        all_digits(u@.subrange(from as int, r.0 as int)),
        r.0 < u@.len() ==> !is_digit(u@[r.0 as int]),
        r.2 ==> digits_value(u@.subrange(from as int, r.0 as int)) > COST_LIMIT,
        !r.2 ==> r.1 == digits_value(u@.subrange(from as int, r.0 as int)) && 0 <= r.1 <= COST_LIMIT,
{
    let n = u.unicode_len();
    let mut end: usize = from;
    let mut value: i128 = 0;
    let mut over = false;
    let mut open: usize = 1;
    proof {
        assert(u@.subrange(from as int, from as int) =~= Seq::<char>::empty());
    }
    while open == 1 && end < n
        invariant
            is_ascii_chars(u@),
            n == u@.len(),
            from <= end <= n,
            open <= 1,
            all_digits(u@.subrange(from as int, end as int)),
            open == 0 ==> end < n && !is_digit(u@[end as int]),
            over ==> digits_value(u@.subrange(from as int, end as int)) > COST_LIMIT,
            !over ==> value == digits_value(u@.subrange(from as int, end as int)) && 0 <= value
                <= COST_LIMIT,
        decreases n - end + open,
    {
        let b = u.get_ascii(end);
        let ghost c = u@[end as int];
        proof {
            assert('\0' <= c <= '\u{7f}');
            assert(b == c as u32);
        }
        if 48 <= b && b <= 57 {
            let ghost before = u@.subrange(from as int, end as int);
            let ghost after = u@.subrange(from as int, end + 1);
            proof {
                assert(is_digit(c));
                assert(after.drop_last() =~= before);
                assert(after.last() == c);
                assert forall|i: int| 0 <= i < after.len() implies is_digit(#[trigger] after[i]) by {
                    if i < before.len() {
                        assert(before[i] == after[i]);
                    }
                }
                lemma_digits_value_grows(before, before.len() as int);
                assert(before.take(before.len() as int) =~= before);
            }
            if !over {
                value = value * 10 + (b - 48) as i128;
                if value > COST_LIMIT {
                    over = true;
                }
            }
            end += 1;
        } else {
            proof {
                assert(!is_digit(c));
            }
            open = 0;
        }
    }
    (end, value, over)
}

/// Where the first exponent mark stands, given how far `s` holds none.
pub proof fn lemma_mark_at(s: Seq<char>, q: int)
    requires
        0 <= q <= s.len(),
        forall|j: int| 0 <= j < q ==> !is_mark(#[trigger] s[j]),
    ensures
        q == s.len() || is_mark(s[q]) ==> mark_at(s) == q,
        q < s.len() && !is_mark(s[q]) ==> q < mark_at(s) <= s.len(),
        0 <= mark_at(s) <= s.len(),
    decreases s.len(),
{
    if s.len() > 0 && !is_mark(s[0]) {
        let rest = s.drop_first();
        if q > 0 {
            assert forall|j: int| 0 <= j < q - 1 implies !is_mark(#[trigger] rest[j]) by {
                assert(rest[j] == s[j + 1]);
            }
            if q < s.len() {
                assert(rest[q - 1] == s[q]);
            }
            lemma_mark_at(rest, q - 1);
        } else {
            lemma_mark_at(rest, 0);
        }
    } else if q > 0 {
        assert(!is_mark(s[0]));
    }
}

/// The first exponent mark of `s`, where it stands within `s`, is a mark.
pub proof fn lemma_mark_is_mark(s: Seq<char>)
    ensures
        0 <= mark_at(s) <= s.len(),
        mark_at(s) < s.len() ==> is_mark(s[mark_at(s)]),
    decreases s.len(),
{
    if s.len() > 0 && !is_mark(s[0]) {
        lemma_mark_is_mark(s.drop_first());
    }
}

/// A text with a character that is neither digit, point, mark nor sign is no number.
pub proof fn lemma_not_number(u: Seq<char>, k: int)
    requires
        0 <= k < u.len(),
        !is_digit(u[k]),
        u[k] != '.',
        !is_mark(u[k]),
        u[k] != '+',
        u[k] != '-',
    ensures
        !is_number(u),
{
    lemma_mark_is_mark(u);
    let mk = mark_at(u);
    if k < mk {
        let m = mantissa(u);
        assert(m[k] == u[k]);
        lemma_point_in_range(m);
        lemma_point_is_point(m);
        let p = point_at(m);
        if k < p {
            assert(whole_digits(m)[k] == m[k]);
        } else {
            assert(fraction_digits(m)[k - p - 1] == m[k]);
        }
    } else {
        let x = u.skip(mk + 1);
        let j = k - mk - 1;
        assert(x[j] == u[k]);
        if has_sign(x) {
            assert(unsigned_part(x)[j - 1] == x[j]);
        }
    }
}

/// Powers of ten are at least one and grow with the exponent.
pub proof fn lemma_pow10_grows(a: nat, b: nat)
    requires
        a <= b,
    ensures
        1 <= pow10(a) <= pow10(b),
    decreases b,
{
    if b > 0 {
        if a < b {
            lemma_pow10_grows(a, (b - 1) as nat);
        } else {
            lemma_pow10_grows((a - 1) as nat, (b - 1) as nat);
        }
    }
}

/// The digit of the mantissa at position `at`, the digits behind the
/// point counted on from those before it.
pub fn digit_at(body: &str, stop: usize, frac_from: usize, frac_end: usize, at: usize) -> (d: u8)
    requires
        is_ascii_chars(body@),
        stop <= frac_from <= frac_end <= body@.len(),
        all_digits(body@.subrange(0, stop as int)),
        all_digits(body@.subrange(frac_from as int, frac_end as int)),
        at < stop + (frac_end - frac_from),
    ensures
        d == digit_value(
            (body@.subrange(0, stop as int) + body@.subrange(frac_from as int, frac_end as int))[at as int],
        ),
        0 <= d <= 9,
{
    let index: usize = if at < stop {
        at
    } else {
        frac_from + (at - stop)
    };
    let b = body.get_ascii(index);
    proof {
        let c = body@[index as int];
        assert('\0' <= c <= '\u{7f}');
        assert(b == c as u32);
        if at < stop {
            assert(body@.subrange(0, stop as int)[at as int] == c);
        } else {
            assert(body@.subrange(frac_from as int, frac_end as int)[at - stop] == c);
        }
        assert(is_digit(c));
    }
    b - 48
}

/// The value of the first `count` digits of the mantissa, or that it is
/// beyond the cost limit.
pub fn prefix_value(body: &str, stop: usize, frac_from: usize, frac_end: usize, count: usize) -> (r: (
    i128,
    bool,
))
    requires
        is_ascii_chars(body@),
        stop <= frac_from <= frac_end <= body@.len(),
        all_digits(body@.subrange(0, stop as int)),
        all_digits(body@.subrange(frac_from as int, frac_end as int)),
        count <= stop + (frac_end - frac_from),
    ensures
        r.1 ==> digits_value(
            (body@.subrange(0, stop as int) + body@.subrange(
                frac_from as int,
                frac_end as int,
            )).take(count as int),
        ) > COST_LIMIT,
        !r.1 ==> r.0 == digits_value(
            (body@.subrange(0, stop as int) + body@.subrange(
                frac_from as int,
                frac_end as int,
            )).take(count as int),
        ) && 0 <= r.0 <= COST_LIMIT,
{
    let ghost digits = body@.subrange(0, stop as int) + body@.subrange(
        frac_from as int,
        frac_end as int,
    );
    let mut value: i128 = 0;
    let mut over = false;
    let mut t: usize = 0;
    proof {
        assert(digits.take(0) =~= Seq::<char>::empty());
        assert forall|i: int| 0 <= i < digits.len() implies is_digit(#[trigger] digits[i]) by {
            if i < stop {
                assert(digits[i] == body@.subrange(0, stop as int)[i]);
            } else {
                assert(digits[i] == body@.subrange(frac_from as int, frac_end as int)[i - stop]);
            }
        }
    }
    while t < count
        invariant
            is_ascii_chars(body@),
            stop <= frac_from <= frac_end <= body@.len(),
            all_digits(body@.subrange(0, stop as int)),
            all_digits(body@.subrange(frac_from as int, frac_end as int)),
            digits == body@.subrange(0, stop as int) + body@.subrange(
                frac_from as int,
                frac_end as int,
            ),
            all_digits(digits),
            t <= count <= digits.len(),
            over ==> digits_value(digits.take(t as int)) > COST_LIMIT,
            !over ==> value == digits_value(digits.take(t as int)) && 0 <= value <= COST_LIMIT,
        decreases count - t,
    {
        let d = digit_at(body, stop, frac_from, frac_end, t);
        proof {
            let before = digits.take(t as int);
            let after = digits.take(t + 1);
            assert(after.drop_last() =~= before);
            assert(after.last() == digits[t as int]);
            lemma_digits_value_grows(digits, t as int);
        }
        if !over {
            value = value * 10 + d as i128;
            if value > COST_LIMIT {
                over = true;
            }
        }
        t += 1;
    }
    (value, over)
}

/// Whether the byte `b` of a text opens an exponent.
pub fn mark_byte(b: u8) -> (mark: bool)
    ensures
        mark == (b == 101 || b == 69),
{
    b == 101 || b == 69
}

/// The digits of the text `u` that stand before `stop` and from
/// `frac_from` up to `frac_end`.
pub open spec fn digits_between(u: Seq<char>, stop: int, frac_from: int, frac_end: int) -> Seq<char> {
    u.subrange(0, stop) + u.subrange(frac_from, frac_end)
}

/// Finds the mantissa of `body`: where its whole digits stop, and where
/// its fraction digits start and end; `None` where `body` starts with no
/// mantissa.
pub fn scan_mantissa(body: &str) -> (r: Option<(usize, usize, usize)>)
    requires
        is_ascii_chars(body@),
    ensures
        match r {
            Some((stop, frac_from, frac_end)) => {
                &&& stop <= frac_from <= frac_end <= body@.len()
                &&& mark_at(body@) == frac_end
                &&& is_mantissa(mantissa(body@))
                &&& whole_digits(mantissa(body@)) == body@.subrange(0, stop as int)
                &&& fraction_digits(mantissa(body@)) == body@.subrange(
                    frac_from as int,
                    frac_end as int,
                )
                &&& all_digits(body@.subrange(0, stop as int))
                &&& all_digits(body@.subrange(frac_from as int, frac_end as int))
                &&& stop + (frac_end - frac_from) > 0
            },
            None => !is_number(body@),
        },
{
    let ghost u = body@;
    let n = body.unicode_len();
    let (stop, _, _) = scan_digits(body, 0);
    let has_point = stop < n && body.get_ascii(stop) == 46;
    let frac_from: usize = if has_point {
        stop + 1
    } else {
        stop
    };
    let frac_end: usize = if has_point {
        scan_digits(body, stop + 1).0
    } else {
        stop
    };
    let marked = frac_end < n && mark_byte(body.get_ascii(frac_end));
    let ghost m = mantissa(u);
    proof {
        if stop < n {
            assert('\0' <= u[stop as int] <= '\u{7f}');
            assert(has_point == (u[stop as int] == '.'));
        }
        if frac_end < n {
            assert('\0' <= u[frac_end as int] <= '\u{7f}');
            assert(marked == is_mark(u[frac_end as int]));
        }
        assert(u.subrange(stop as int, stop as int) =~= Seq::<char>::empty());
        assert forall|j: int| 0 <= j < frac_end implies !is_mark(#[trigger] u[j]) by {
            if j < stop {
                assert(u.subrange(0, stop as int)[j] == u[j]);
                assert(is_digit(u[j]));
            } else if j > stop {
                assert(u.subrange(stop + 1, frac_end as int)[j - stop - 1] == u[j]);
                assert(is_digit(u[j]));
            }
        }
        lemma_mark_at(u, frac_end as int);
        assert forall|j: int| 0 <= j < stop implies #[trigger] m[j] != '.' by {
            assert(u.subrange(0, stop as int)[j] == u[j]);
            assert(is_digit(u[j]));
        }
        lemma_point_at(m, stop as int);
    }
    if frac_end < n && !marked {
        proof {
            let c = u[frac_end as int];
            assert(m[frac_end as int] == c);
            if has_point {
                assert(m[stop as int] == '.');
                assert(fraction_digits(m)[frac_end - stop - 1] == c);
            } else {
                assert(whole_digits(m)[stop as int] == c);
            }
        }
        return None;
    }
    proof {
        assert(m =~= u.take(frac_end as int));
        if has_point {
            assert(m[stop as int] == '.');
        }
        assert(point_at(m) == stop);
        assert(whole_digits(m) =~= u.subrange(0, stop as int));
        assert(fraction_digits(m) =~= u.subrange(frac_from as int, frac_end as int));
    }
    if stop + (frac_end - frac_from) == 0 {
        return None;
    }
    Some((stop, frac_from, frac_end))
}

/// An exponent as far as it matters: its value, or that it lies beyond
/// the cost limit on one side.
pub enum Exponent {
    Exact(i128),
    Huge,
    Tiny,
}

impl Exponent {
    /// Whether `self` stands for the number `e`.
    pub open spec fn holds(&self, e: int) -> bool {
        match self {
            Exponent::Exact(v) => e == v && -COST_LIMIT <= e <= COST_LIMIT,
            Exponent::Huge => e > COST_LIMIT,
            Exponent::Tiny => e < -COST_LIMIT,
        }
    }
}

/// Reads the exponent of `body`, whose first exponent mark stands at
/// `mark`; a text without mark has the exponent zero. `None` where what
/// follows the mark is no exponent.
pub fn scan_exponent(body: &str, mark: usize) -> (r: Option<Exponent>)
    requires
        is_ascii_chars(body@),
        mark <= body@.len(),
        mark_at(body@) == mark,
    ensures
        match r {
            Some(e) => e.holds(exponent_of(body@)) && (exponent_text(body@) matches Some(x)
                ==> is_exponent(x)),
            None => exponent_text(body@) matches Some(x) && !is_exponent(x),
        },
{
    let ghost u = body@;
    let n = body.unicode_len();
    if mark == n {
        return Some(Exponent::Exact(0));
    }
    let from = mark + 1;
    let signed = from < n && (body.get_ascii(from) == 43 || body.get_ascii(from) == 45);
    let negative = from < n && body.get_ascii(from) == 45;
    let first: usize = if signed {
        from + 1
    } else {
        from
    };
    let (end, value, over) = scan_digits(body, first);
    let ghost x = u.skip(from as int);
    proof {
        if from < n {
            assert('\0' <= u[from as int] <= '\u{7f}');
            assert(x[0] == u[from as int]);
        }
        assert(signed == has_sign(x));
        assert(unsigned_part(x) =~= u.subrange(first as int, n as int));
        if end < n {
            assert(unsigned_part(x)[end - first] == u[end as int]);
        } else {
            assert(unsigned_part(x) =~= u.subrange(first as int, end as int));
        }
    }
    if end < n || end == first {
        return None;
    }
    if over {
        if negative {
            Some(Exponent::Tiny)
        } else {
            Some(Exponent::Huge)
        }
    } else if negative {
        Some(Exponent::Exact(-value))
    } else {
        Some(Exponent::Exact(value))
    }
}

/// `value` with `shift` zeros behind it; `None` where that is beyond the cost limit.
pub fn scale_up(value: i128, shift: i128) -> (r: Option<i128>)
    requires
        1 <= value <= COST_LIMIT,
        0 <= shift,
    ensures
        match r {
            Some(v) => v == value * pow10(shift as nat) && 1 <= v <= COST_LIMIT,
            None => value * pow10(shift as nat) > COST_LIMIT,
        },
{
    let mut units = value;
    let mut j: i128 = 0;
    proof {
        assert(value * pow10(0) == value) by (nonlinear_arith)
            requires
                pow10(0) == 1,
        ;
    }
    while j < shift
        invariant
            0 <= j <= shift,
            1 <= value,
            units == value * pow10(j as nat),
            1 <= units <= COST_LIMIT,
        decreases shift - j,
    {
        proof {
            let p = pow10(j as nat);
            let q = pow10((j + 1) as nat);
            assert(q == 10 * p);
            assert(value * q == (value * p) * 10) by (nonlinear_arith)
                requires
                    q == 10 * p,
            ;
        }
        units = units * 10;
        j += 1;
        if units > COST_LIMIT {
            proof {
                lemma_pow10_grows(j as nat, shift as nat);
                let a = pow10(j as nat);
                let b = pow10(shift as nat);
                assert(value * b >= value * a) by (nonlinear_arith)
                    requires
                        value >= 1,
                        a <= b,
                ;
            }
            return None;
        }
    }
    Some(units)
}

/// The digits of a mantissa moved by `shift` places and rounded; `None`
/// where that is beyond the cost limit.
pub fn scaled_units(body: &str, stop: usize, frac_from: usize, frac_end: usize, shift: i128) -> (r:
    Option<i128>)
    requires
        is_ascii_chars(body@),
        stop <= frac_from <= frac_end <= body@.len(),
        all_digits(body@.subrange(0, stop as int)),
        all_digits(body@.subrange(frac_from as int, frac_end as int)),
        -2 * COST_LIMIT <= shift <= 2 * COST_LIMIT,
    ensures
        match r {
            Some(v) => v == scaled(
                digits_between(body@, stop as int, frac_from as int, frac_end as int),
                shift as int,
            ) && 0 <= v <= COST_LIMIT,
            None => scaled(
                digits_between(body@, stop as int, frac_from as int, frac_end as int),
                shift as int,
            ) > COST_LIMIT,
        },
{
    let ghost digits = digits_between(body@, stop as int, frac_from as int, frac_end as int);
    let count: usize = stop + (frac_end - frac_from);
    proof {
        assert(digits.len() == count);
        assert(digits.take(count as int) =~= digits);
    }
    if shift >= 0 {
        let (value, over) = prefix_value(body, stop, frac_from, frac_end, count);
        if over {
            proof {
                lemma_pow10_grows(0, shift as nat);
                let v = digits_value(digits);
                let p = pow10(shift as nat);
                assert(v * p > COST_LIMIT) by (nonlinear_arith)
                    requires
                        v > COST_LIMIT,
                        p >= 1,
                ;
            }
            None
        } else if value == 0 {
            proof {
                assert(0 * pow10(shift as nat) == 0) by (nonlinear_arith);
            }
            Some(0)
        } else {
            scale_up(value, shift)
        }
    } else if -shift > count as i128 {
        Some(0)
    } else {
        let kept: usize = (count as i128 + shift) as usize;
        let (value, over) = prefix_value(body, stop, frac_from, frac_end, kept);
        if over {
            return None;
        }
        let d = digit_at(body, stop, frac_from, frac_end, kept);
        let units = if d >= 5 {
            value + 1
        } else {
            value
        };
        proof {
            assert(kept == digits.len() + shift);
            assert(units == scaled(digits, shift as int));
        }
        if units > COST_LIMIT {
            None
        } else {
            Some(units)
        }
    }
}

/// Whether the digits of a mantissa are all zero.
pub fn is_zero(body: &str, stop: usize, frac_from: usize, frac_end: usize) -> (zero: bool)
    requires
        is_ascii_chars(body@),
        stop <= frac_from <= frac_end <= body@.len(),
        all_digits(body@.subrange(0, stop as int)),
        all_digits(body@.subrange(frac_from as int, frac_end as int)),
    ensures
        zero == (digits_value(
            digits_between(body@, stop as int, frac_from as int, frac_end as int),
        ) == 0),
        digits_value(digits_between(body@, stop as int, frac_from as int, frac_end as int)) >= 0,
{
    let ghost digits = digits_between(body@, stop as int, frac_from as int, frac_end as int);
    let count: usize = stop + (frac_end - frac_from);
    proof {
        assert(digits.take(count as int) =~= digits);
    }
    let (value, over) = prefix_value(body, stop, frac_from, frac_end, count);
    !over && value == 0
}

/// Reads a number without sign in millionths; `None` where the text is
/// no number or the number is beyond the cost limit.
pub fn parse_units(body: &str) -> (units: Option<i128>)
    requires
        is_ascii_chars(body@),
    ensures
        match units {
            Some(v) => is_number(body@) && v == number_units(body@) && 0 <= v <= COST_LIMIT,
            None => !(is_number(body@) && number_units(body@) <= COST_LIMIT),
        },
{
    let (stop, frac_from, frac_end) = match scan_mantissa(body) {
        Some(found) => found,
        None => {
            return None;
        },
    };
    let exponent = match scan_exponent(body, frac_end) {
        Some(exponent) => exponent,
        None => {
            return None;
        },
    };
    let ghost digits = digits_between(body@, stop as int, frac_from as int, frac_end as int);
    let ghost shift = exponent_of(body@) + 6 - (frac_end - frac_from);
    proof {
        assert(mantissa_digits(mantissa(body@)) == digits);
        assert(number_units(body@) == scaled(digits, shift));
    }
    match exponent {
        Exponent::Exact(e) => scaled_units(body, stop, frac_from, frac_end, e + 6 - (frac_end
            - frac_from) as i128),
        Exponent::Tiny => Some(0),
        Exponent::Huge => {
            if is_zero(body, stop, frac_from, frac_end) {
                proof {
                    assert(0 * pow10(shift as nat) == 0) by (nonlinear_arith);
                }
                Some(0)
            } else {
                proof {
                    reveal_with_fuel(pow10, 32);
                    assert(pow10(31) > COST_LIMIT);
                    lemma_pow10_grows(31, shift as nat);
                    let v = digits_value(digits);
                    let p = pow10(shift as nat);
                    assert(v * p > COST_LIMIT) by (nonlinear_arith)
                        requires
                            v >= 1,
                            p > COST_LIMIT,
                    ;
                }
                None
            }
        },
    }
}

/// Reads an amount.
pub fn parse_amount(text: &str) -> (amount: i128)
    ensures
        amount == amount_of(text@),
        -COST_LIMIT <= amount <= COST_LIMIT,
{
    if !text.is_ascii() {
        proof {
            let s = text@;
            let at = choose|at: int| 0 <= at < s.len() && !('\0' <= #[trigger] s[at] <= '\u{7f}');
            let u = unsigned_part(s);
            if has_sign(s) {
                assert(u[at - 1] == s[at]);
                lemma_not_number(u, at - 1);
            } else {
                lemma_not_number(u, at);
            }
        }
        return 0;
    }
    let n = text.unicode_len();
    let signed = n > 0 && (text.get_ascii(0) == 43 || text.get_ascii(0) == 45);
    let negative = n > 0 && text.get_ascii(0) == 45;
    let start: usize = if signed {
        1
    } else {
        0
    };
    let body = text.substring_ascii(start, n);
    let units = parse_units(body);
    proof {
        let s = text@;
        if n > 0 {
            assert('\0' <= s[0] <= '\u{7f}');
        }
        assert(signed == has_sign(s));
        assert(unsigned_part(s) =~= body@);
    }
    match units {
        Some(u) => if negative {
            -u
        } else {
            u
        },
        None => 0,
    }
}

} // verus!
