//! A codec between durations and short texts such as `2 hours`, `1:30` or
//! `5 minutes`.

use vstd::prelude::*;
use vstd::string::*;
use crate::decimal::{
    decimal, digit_char, digits_value, is_digit, lemma_decimal, lemma_digit_char,
    push_decimal, push_two_digits, two_digits,
};
use crate::number::{
    lemma_number_decimal, lemma_number_plain, lemma_seconds_whole, number, read_numeral, seconds,
    seconds_of, whole_number, Number, Numeral,
};
use crate::text::{
    chars_of, find, find_char, lemma_find_absent, lemma_find_is, lemma_not_suffix,
    lemma_strip_suffix, lemma_trim_end_one, lemma_trim_plain, slice_of, strip_suffix,
    strip_suffix_of, trim, trimmed,
};
use crate::time::Duration;

verus! {

/// A value that is written and read in the text form of this module.
#[derive(Copy, Clone, Debug, Eq, Hash, PartialEq)]
pub struct Serde<T>(pub T);

impl<T> Serde<T> {
    /// Consumes the wrapper, returning the inner value.
    pub fn into_inner(self) -> (inner: T)
        ensures
            inner == self.0,
    {
        self.0
    }
}

impl<T> From<T> for Serde<T> {
    fn from(val: T) -> (wrapped: Serde<T>) {
        Serde(val)
    }
}

impl<T> vstd::std_specs::convert::FromSpecImpl<T> for Serde<T> {
    open spec fn obeys_from_spec() -> bool {
        true
    }

    open spec fn from_spec(val: T) -> Serde<T> {
        Serde(val)
    }
}

impl<T> std::ops::Deref for Serde<T> {
    type Target = T;

    fn deref(&self) -> (inner: &T)
        ensures
            *inner == self.0,
    {
        &self.0
    }
}

impl<T> std::ops::DerefMut for Serde<T> {
    fn deref_mut(&mut self) -> (inner: &mut T)
        ensures
            *inner == old(self).0,
            final(self).0 == *final(inner),
    {
        &mut self.0
    }
}

/// The text of a duration of `secs` seconds. Seconds beyond whole minutes
/// are dropped. Whole hours read `3 hours`, less than an hour reads
/// `5 minutes`, and anything else `H:MM`.
pub open spec fn format_spec(secs: nat) -> Seq<char> {
    let hours = (secs / 60) / 60;
    let minutes = (secs / 60) % 60;
    if hours == 0 && minutes == 0 {
        "0 minutes"@
    } else if minutes == 0 {
        if hours == 1 {
            decimal(hours) + " hour"@
        } else {
            decimal(hours) + " hours"@
        }
    } else if hours == 0 {
        if minutes == 1 {
            decimal(minutes) + " minute"@
        } else {
            decimal(minutes) + " minutes"@
        }
    } else {
        decimal(hours) + ":"@ + two_digits(minutes)
    }
}

/// What stands before the unit of hours, if `v` ends with one: `h`, `hours`
/// or `hour`, tried in this order.
pub open spec fn hours_text(v: Seq<char>) -> Option<Seq<char>> {
    if strip_suffix(v, "h"@) is Some {
        strip_suffix(v, "h"@)
    } else if strip_suffix(v, "hours"@) is Some {
        strip_suffix(v, "hours"@)
    } else {
        strip_suffix(v, "hour"@)
    }
}

/// What stands before the unit of minutes, if `v` ends with one: `m`,
/// `minutes` or `minute`, tried in this order.
pub open spec fn minutes_text(v: Seq<char>) -> Option<Seq<char>> {
    if strip_suffix(v, "m"@) is Some {
        strip_suffix(v, "m"@)
    } else if strip_suffix(v, "minutes"@) is Some {
        strip_suffix(v, "minutes"@)
    } else {
        strip_suffix(v, "minute"@)
    }
}

/// The seconds that the text `v` stands for, if it has one of three shapes.
/// With a colon in it, `v` is hours, the first colon, minutes. Else, ending
/// with a unit of hours, it is a number of hours; else, ending with a unit of
/// minutes, a number of minutes. Each number is a numeral with white space
/// around it; it may have a sign, a decimal fraction and an exponent, and is
/// taken at its exact value. The result is rounded to the nearest second.
/// There is none where a part is no numeral or the time is negative.
pub open spec fn parse_spec(v: Seq<char>) -> Option<nat> {
    let colon = find(v, ':');
    if colon < v.len() {
        match (number(trim(v.take(colon))), number(trim(v.skip(colon + 1)))) {
            (Some(h), Some(m)) => seconds(h, m),
            _ => None,
        }
    } else {
        match hours_text(v) {
            Some(text) => match number(trim(text)) {
                Some(h) => seconds(h, whole_number(0)),
                None => None,
            },
            None => match minutes_text(v) {
                Some(text) => match number(trim(text)) {
                    Some(m) => seconds(whole_number(0), m),
                    None => None,
                },
                None => None,
            },
        }
    }
}

/// A number in front of a unit, with one space between: no colon is in it,
/// and trimming what stands before the unit leaves the number.
proof fn lemma_number_and_unit(n: nat, unit: Seq<char>)
    requires
        forall|j: int| 0 <= j < unit.len() ==> unit[j] != ':',
    ensures
        find(decimal(n) + " "@ + unit, ':') == (decimal(n) + " "@ + unit).len(),
        strip_suffix(decimal(n) + " "@ + unit, unit) == Some(decimal(n) + " "@),
        number(trim(decimal(n) + " "@)) == Some(whole_number(n)),
{
    reveal_strlit(" ");
    let digits = decimal(n);
    let text = digits + " "@ + unit;
    lemma_decimal(n);
    assert forall|j: int| 0 <= j < text.len() implies text[j] != ':' by {
        if j < digits.len() {
            assert(is_digit(digits[j]));
        }
    }
    lemma_find_absent(text, ':');
    lemma_strip_suffix(digits + " "@, unit);
    assert(is_digit(digits[0]));
    assert(is_digit(digits.last()));
    assert(digits + " "@ =~= digits.push(' '));
    lemma_trim_end_one(digits, ' ');
    lemma_number_decimal(n);
}

/// Two digits are a numeral that stands for the number written.
proof fn lemma_number_two_digits(n: nat)
    requires
        n < 100,
    ensures
        number(two_digits(n)) == Some(Number { negative: false, digits: two_digits(n), shift: 0 }),
        digits_value(two_digits(n)) == n,
        trim(two_digits(n)) == two_digits(n),
{
    let s = two_digits(n);
    lemma_digit_char(n / 10);
    lemma_digit_char(n % 10);
    lemma_number_plain(s);
    lemma_trim_plain(s);
    assert(s.drop_last() =~= seq![digit_char(n / 10)]);
    assert(s.drop_last().drop_last() =~= Seq::<char>::empty());
    assert(digits_value(s.drop_last().drop_last()) == 0);
    assert(digits_value(s.drop_last()) == n / 10);
}

/// Re-encoding is stable. The text of a duration reads back as that
/// duration without its seconds beyond whole minutes, so less than a minute
/// is lost, and what was read has the same text again.
pub proof fn lemma_parse_format(d: nat)
    ensures
        parse_spec(format_spec(d)) == Some((d - d % 60) as nat),
        format_spec((d - d % 60) as nat) == format_spec(d),
        d - d % 60 <= d < d - d % 60 + 60,
{
    let hours = (d / 60) / 60;
    let minutes = (d / 60) % 60;
    let text = format_spec(d);
    let kept = (d - d % 60) as nat;
    assert(kept == 60 * (d / 60));
    assert(kept / 60 == d / 60);
    assert(kept == 3600 * hours + 60 * minutes);
    lemma_decimal(hours);
    lemma_decimal(minutes);
    reveal_strlit(" ");
    reveal_strlit("h");
    reveal_strlit("m");
    reveal_strlit("hour");
    reveal_strlit("hours");
    reveal_strlit("minute");
    reveal_strlit("minutes");
    if hours == 0 && minutes == 0 {
        reveal_strlit("0 minutes");
        assert(text =~= decimal(0) + " "@ + "minutes"@);
        lemma_number_and_unit(0, "minutes"@);
        lemma_not_suffix(text, "h"@, 0);
        lemma_not_suffix(text, "hours"@, 3);
        lemma_not_suffix(text, "hour"@, 3);
        lemma_not_suffix(text, "m"@, 0);
        lemma_decimal(0);
        lemma_seconds_whole(whole_number(0), whole_number(0));
    } else if minutes == 0 {
        if hours == 1 {
            reveal_strlit(" hour");
            assert(text =~= decimal(hours) + " "@ + "hour"@);
            lemma_number_and_unit(hours, "hour"@);
            lemma_not_suffix(text, "h"@, 0);
            lemma_not_suffix(text, "hours"@, 4);
        } else {
            reveal_strlit(" hours");
            assert(text =~= decimal(hours) + " "@ + "hours"@);
            lemma_number_and_unit(hours, "hours"@);
            lemma_not_suffix(text, "h"@, 0);
        }
        lemma_decimal(0);
        lemma_seconds_whole(whole_number(hours), whole_number(0));
    } else if hours == 0 {
        if minutes == 1 {
            reveal_strlit(" minute");
            assert(text =~= decimal(minutes) + " "@ + "minute"@);
            lemma_number_and_unit(minutes, "minute"@);
            lemma_not_suffix(text, "h"@, 0);
            lemma_not_suffix(text, "hours"@, 4);
            lemma_not_suffix(text, "hour"@, 3);
            lemma_not_suffix(text, "m"@, 0);
            lemma_not_suffix(text, "minutes"@, 6);
        } else {
            reveal_strlit(" minutes");
            assert(text =~= decimal(minutes) + " "@ + "minutes"@);
            lemma_number_and_unit(minutes, "minutes"@);
            lemma_not_suffix(text, "h"@, 0);
            lemma_not_suffix(text, "hours"@, 3);
            lemma_not_suffix(text, "hour"@, 3);
            lemma_not_suffix(text, "m"@, 0);
        }
        lemma_decimal(0);
        lemma_seconds_whole(whole_number(0), whole_number(minutes));
    } else {
        reveal_strlit(":");
        let left = decimal(hours);
        let right = two_digits(minutes);
        assert forall|j: int| 0 <= j < left.len() implies text[j] != ':' by {
            assert(is_digit(left[j]));
        }
        assert(text[left.len() as int] == ':');
        lemma_find_is(text, ':', left.len() as int);
        assert(text.take(left.len() as int) =~= left);
        assert(text.skip(left.len() as int + 1) =~= right);
        assert(is_digit(left[0]));
        assert(is_digit(left.last()));
        lemma_trim_plain(left);
        lemma_number_two_digits(minutes);
        lemma_number_decimal(hours);
        lemma_seconds_whole(
            whole_number(hours),
            Number { negative: false, digits: right, shift: 0 },
        );
    }
}

/// Writes a duration as text.
pub fn tostring(x: Duration) -> (text: String)
    ensures
        text@ == format_spec(x@),
{
    format_seconds(x.as_secs() as u128)
}

/// Writes a time of `secs` seconds as text, also where it is longer than a
/// duration can be.
pub fn format_seconds(secs: u128) -> (text: String)
    ensures
        text@ == format_spec(secs as nat),
{
    let minutes = secs / 60;
    let hours = minutes / 60;
    let minutes = minutes - hours * 60;
    let mut text = String::new();
    if hours == 0 && minutes == 0 {
        text.append("0 minutes");
    } else if minutes == 0 {
        push_decimal(&mut text, hours);
        if hours == 1 {
            text.append(" hour");
        } else {
            text.append(" hours");
        }
    } else if hours == 0 {
        push_decimal(&mut text, minutes);
        if minutes == 1 {
            text.append(" minute");
        } else {
            text.append(" minutes");
        }
    } else {
        push_decimal(&mut text, hours);
        text.append(":");
        push_two_digits(&mut text, minutes);
    }
    assert(text@ =~= format_spec(secs as nat));
    text
}

/// What stands before the unit of hours in `v`, if it ends with one.
fn hours_part(v: &Vec<char>) -> (r: Option<Vec<char>>)
    ensures
        match r {
            Some(text) => hours_text(v@) == Some(text@),
            None => hours_text(v@) is None,
        },
{
    match strip_suffix_of(v, "h") {
        Some(text) => Some(text),
        None => match strip_suffix_of(v, "hours") {
            Some(text) => Some(text),
            None => strip_suffix_of(v, "hour"),
        },
    }
}

/// What stands before the unit of minutes in `v`, if it ends with one.
fn minutes_part(v: &Vec<char>) -> (r: Option<Vec<char>>)
    ensures
        match r {
            Some(text) => minutes_text(v@) == Some(text@),
            None => minutes_text(v@) is None,
        },
{
    match strip_suffix_of(v, "m") {
        Some(text) => Some(text),
        None => match strip_suffix_of(v, "minutes") {
            Some(text) => Some(text),
            None => strip_suffix_of(v, "minute"),
        },
    }
}

/// The duration of `hours` hours and `minutes` minutes, where both were
/// read, the time is not negative and the whole fits.
fn duration_of(hours: Option<Numeral>, minutes: Option<Numeral>) -> (r: Result<Duration, ()>)
    requires
        hours matches Some(h) ==> h.wf(),
        minutes matches Some(m) ==> m.wf(),
    ensures
        match r {
            Ok(d) => hours is Some && minutes is Some && seconds(hours->0@, minutes->0@) == Some(
                d@,
            ),
            Err(_) => hours is Some && minutes is Some ==> (seconds(hours->0@, minutes->0@)
                matches Some(n) ==> n > u64::MAX),
        },
{
    match (hours, minutes) {
        (Some(h), Some(m)) => match seconds_of(&h, &m) {
            Some(secs) => Ok(Duration::from_secs(secs)),
            None => Err(()),
        },
        _ => Err(()),
    }
}

/// Reads a duration from text.
///
/// Succeeds exactly where the text has a meaning that fits a duration, and
/// then returns that meaning.
pub fn parseme(v: &str) -> (r: Result<Duration, ()>)
    ensures
        match r {
            Ok(d) => parse_spec(v@) == Some(d@),
            Err(_) => parse_spec(v@) matches Some(n) ==> n > u64::MAX,
        },
{
    let cs = chars_of(v);
    let colon = find_char(&cs, ':');
    if colon < cs.len() {
        let left = trimmed(&slice_of(&cs, 0, colon));
        let right = trimmed(&slice_of(&cs, colon + 1, cs.len()));
        assert(cs@.subrange(0, colon as int) =~= v@.take(colon as int));
        assert(cs@.subrange(colon as int + 1, cs.len() as int) =~= v@.skip(colon as int + 1));
        duration_of(read_numeral(&left), read_numeral(&right))
    } else {
        match hours_part(&cs) {
            Some(text) => duration_of(read_numeral(&trimmed(&text)), Some(Numeral::zero())),
            None => match minutes_part(&cs) {
                Some(text) => duration_of(Some(Numeral::zero()), read_numeral(&trimmed(&text))),
                None => Err(()),
            },
        }
    }
}

} // verus!
