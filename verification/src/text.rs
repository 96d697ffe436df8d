//! Texts of the report: numbers with a fixed number of decimals, joined
//! keys and file names.

use vstd::prelude::*;
use vstd::string::*;
use vstd::arithmetic::div_mod::{lemma_fundamental_div_mod, lemma_mod_bound};
use crate::money::{lemma_round_div_split, magnitude, round_div};

verus! {

/// Stored units in a hundredth of the currency unit.
pub const UNITS_PER_CENT: u128 = 10_000;

/// The character of a decimal digit.
pub open spec fn digit(d: int) -> char {
    if d == 0 {
        '0'
    } else if d == 1 {
        '1'
    } else if d == 2 {
        '2'
    } else if d == 3 {
        '3'
    } else if d == 4 {
        '4'
    } else if d == 5 {
        '5'
    } else if d == 6 {
        '6'
    } else if d == 7 {
        '7'
    } else if d == 8 {
        '8'
    } else {
        '9'
    }
}

/// The decimal digits of `n`, without leading zeros.
pub open spec fn decimal(n: nat) -> Seq<char>
    decreases n,
{
    if n < 10 {
        seq![digit(n as int)]
    } else {
        decimal(n / 10).push(digit((n % 10) as int))
    }
}

/// A minus sign for a number below zero.
pub open spec fn sign_text(x: int) -> Seq<char> {
    if x < 0 {
        seq!['-']
    } else {
        Seq::empty()
    }
}

/// A cost in hundredths of the currency unit, rounded, without its sign.
pub open spec fn cents_of(cost: int) -> int {
    round_div(magnitude(cost), UNITS_PER_CENT as int)
}

/// A cost in currency units with two decimals.
pub open spec fn cost_text(cost: int) -> Seq<char> {
    sign_text(cost) + decimal((cents_of(cost) / 100) as nat) + seq![
        '.',
        digit(cents_of(cost) % 100 / 10),
        digit(cents_of(cost) % 10),
    ]
}

/// A whole percentage with one decimal.
pub open spec fn percent_text(percent: int) -> Seq<char> {
    sign_text(percent) + decimal(magnitude(percent) as nat) + seq!['.', '0']
}

/// The text of one decimal digit.
pub fn digit_text(d: u8) -> (t: &'static str)
    requires
        d < 10,
    ensures
        t@ == seq![digit(d as int)],
{
    proof {
        reveal_strlit("0");
        reveal_strlit("1");
        reveal_strlit("2");
        reveal_strlit("3");
        reveal_strlit("4");
        reveal_strlit("5");
        reveal_strlit("6");
        reveal_strlit("7");
        reveal_strlit("8");
        reveal_strlit("9");
    }
    let t = if d == 0 {
        "0"
    } else if d == 1 {
        "1"
    } else if d == 2 {
        "2"
    } else if d == 3 {
        "3"
    } else if d == 4 {
        "4"
    } else if d == 5 {
        "5"
    } else if d == 6 {
        "6"
    } else if d == 7 {
        "7"
    } else if d == 8 {
        "8"
    } else {
        "9"
    };
    proof {
        assert(t@ =~= seq![digit(d as int)]);
    }
    t
}

/// Writes `n` in decimal digits.
pub fn decimal_text(n: u128) -> (s: String)
    ensures
        s@ == decimal(n as nat),
    decreases n,
{
    if n < 10 {
        String::from_str(digit_text(n as u8))
    } else {
        let mut s = decimal_text(n / 10);
        s.append(digit_text((n % 10) as u8));
        proof {
            assert(s@ =~= decimal((n / 10) as nat).push(digit((n % 10) as int)));
        }
        s
    }
}

/// The magnitude of `x`.
pub fn magnitude_of(x: i128) -> (m: u128)
    ensures
        m == magnitude(x as int),
{
    if x < 0 {
        (-(x + 1)) as u128 + 1
    } else {
        x as u128
    }
}

/// Writes a cost in currency units with two decimals, rounded to the
/// nearest hundredth, a half going away from zero.
pub fn format_cost(cost: i128) -> (s: String)
    ensures
        s@ == cost_text(cost as int),
{
    let amount = magnitude_of(cost);
    let whole = amount / UNITS_PER_CENT;
    let rest = amount % UNITS_PER_CENT;
    proof {
        lemma_fundamental_div_mod(amount as int, UNITS_PER_CENT as int);
        lemma_mod_bound(amount as int, UNITS_PER_CENT as int);
        lemma_round_div_split(amount as int, UNITS_PER_CENT as int, whole as int, rest as int);
    }
    let cents: u128 = if rest >= UNITS_PER_CENT / 2 {
        whole + 1
    } else {
        whole
    };
    assert(cents == cents_of(cost as int));
    let mut s = if cost < 0 {
        String::from_str("-")
    } else {
        String::new()
    };
    proof {
        reveal_strlit("-");
        reveal_strlit(".");
        assert(s@ =~= sign_text(cost as int));
    }
    let units = decimal_text(cents / 100);
    s.append(units.as_str());
    s.append(".");
    s.append(digit_text((cents % 100 / 10) as u8));
    s.append(digit_text((cents % 10) as u8));
    proof {
        assert(s@ =~= cost_text(cost as int));
    }
    s
}

/// Writes a whole percentage with one decimal.
pub fn format_percent(percent: i128) -> (s: String)
    ensures
        s@ == percent_text(percent as int),
{
    let mut s = if percent < 0 {
        String::from_str("-")
    } else {
        String::new()
    };
    proof {
        reveal_strlit("-");
        reveal_strlit(".0");
        assert(s@ =~= sign_text(percent as int));
    }
    let digits = decimal_text(magnitude_of(percent));
    s.append(digits.as_str());
    s.append(".0");
    proof {
        assert(s@ =~= percent_text(percent as int));
    }
    s
}

/// The parts one after another with `separator` between each two.
pub open spec fn joined_text(parts: Seq<String>, separator: Seq<char>) -> Seq<char>
    decreases parts.len(),
{
    if parts.len() == 0 {
        Seq::empty()
    } else if parts.len() == 1 {
        parts[0]@
    } else {
        joined_text(parts.drop_last(), separator) + separator + parts.last()@
    }
}

/// Joins the parts with `separator` between each two.
pub fn join(parts: &Vec<String>, separator: &str) -> (s: String)
    ensures
        s@ == joined_text(parts@, separator@),
{
    let mut s = String::new();
    let mut i: usize = 0;
    proof {
        assert(parts@.take(0) =~= Seq::<String>::empty());
    }
    while i < parts.len()
        invariant
            i <= parts@.len(),
            s@ == joined_text(parts@.take(i as int), separator@),
        decreases parts@.len() - i,
    {
        proof {
            assert(parts@.take(i + 1).drop_last() =~= parts@.take(i as int));
            assert(parts@.take(i + 1).last() == parts@[i as int]);
            assert(parts@.take(i + 1)[0] == parts@[0]);
        }
        if i > 0 {
            s.append(separator);
        }
        s.append(parts[i].as_str());
        proof {
            if i == 0 {
                assert(s@ =~= parts@[0]@);
            }
        }
        i += 1;
    }
    proof {
        assert(parts@.take(i as int) =~= parts@);
    }
    s
}

/// Whether `s` ends with `suffix`.
pub open spec fn ends_with(s: Seq<char>, suffix: Seq<char>) -> bool {
    s.len() >= suffix.len() && s.subrange(s.len() - suffix.len(), s.len() as int) == suffix
}

/// `s` without any of the copies of `suffix` that it ends with.
pub open spec fn trimmed_end(s: Seq<char>, suffix: Seq<char>) -> Seq<char>
    decreases s.len(),
{
    if suffix.len() > 0 && ends_with(s, suffix) {
        trimmed_end(s.take(s.len() - suffix.len()), suffix)
    } else {
        s
    }
}

/// Removes from the end of `text` every copy of `suffix`.
pub fn trim_end(text: &str, suffix: &str) -> (s: String)
    ensures
        s@ == trimmed_end(text@, suffix@),
{
    let width = suffix.unicode_len();
    let mut end = text.unicode_len();
    if width == 0 {
        return String::from_str(text);
    }
    let tail = String::from_str(suffix);
    proof {
        assert(text@.take(end as int) =~= text@);
    }
    let mut open: usize = 1;
    while open == 1 && end >= width
        invariant
            width == suffix@.len(),
            width > 0,
            tail@ == suffix@,
            end <= text@.len(),
            trimmed_end(text@, suffix@) == trimmed_end(text@.take(end as int), suffix@),
            open <= 1,
            open == 0 ==> !ends_with(text@.take(end as int), suffix@),
        decreases end + open,
    {
        let last = String::from_str(text.substring_char(end - width, end));
        proof {
            assert(text@.take(end as int).subrange(end - width, end as int) =~= text@.subrange(
                end - width,
                end as int,
            ));
            assert(text@.take(end as int).take(end - width) =~= text@.take(end - width));
        }
        if last == tail {
            end = end - width;
        } else {
            open = 0;
        }
    }
    let s = String::from_str(text.substring_char(0, end));
    proof {
        assert(text@.subrange(0, end as int) =~= text@.take(end as int));
    }
    s
}

} // verus!
