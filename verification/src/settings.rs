//! The settings that are read from the environment.

use crate::text::{decimal, decimal_text};
use vstd::prelude::*;
use vstd::string::*;

verus! {

/// Whether the character is a decimal digit.
pub open spec fn is_digit(c: char) -> bool {
    '0' <= c <= '9'
}

/// Whether every character is a decimal digit.
pub open spec fn all_digits(text: Seq<char>) -> bool {
    forall|i: int| 0 <= i < text.len() ==> is_digit(#[trigger] text[i])
}

/// The number that the digits stand for.
pub open spec fn digits_value(digits: Seq<char>) -> int
    decreases digits.len(),
{
    if digits.len() == 0 {
        0
    } else {
        digits_value(digits.drop_last()) * 10 + (digits.last() as int - '0' as int)
    }
}

/// The text without its plus sign, if it has one in front.
pub open spec fn unsigned(text: Seq<char>) -> Seq<char> {
    if text.len() > 0 && text[0] == '+' {
        text.skip(1)
    } else {
        text
    }
}

/// The number that the text stands for: an optional plus sign and at least one
/// digit, with nothing else around them, and not above `max`.
pub open spec fn number(text: Seq<char>, max: int) -> Option<int> {
    let digits = unsigned(text);
    if digits.len() > 0 && all_digits(digits) && digits_value(digits) <= max {
        Some(digits_value(digits))
    } else {
        None
    }
}

proof fn lemma_value_grows(digits: Seq<char>, k: int)
    requires
        all_digits(digits),
        0 <= k <= digits.len(),
    ensures
        0 <= digits_value(digits.take(k)) <= digits_value(digits),
    decreases digits.len(),
{
    if k == digits.len() {
        assert(digits.take(k) =~= digits);
        if digits.len() > 0 {
            let rest = digits.drop_last();
            lemma_value_grows(rest, rest.len() as int);
            assert(is_digit(digits[digits.len() - 1]));
        }
    } else {
        let rest = digits.drop_last();
        assert(rest.take(k) =~= digits.take(k));
        lemma_value_grows(rest, k);
        assert(is_digit(digits[digits.len() - 1]));
    }
}

/// Reads a number that is not above `max`.
pub fn parse_number(text: &str, max: u64) -> (parsed: Option<u64>)
    ensures
        match parsed {
            Some(value) => number(text@, max as int) == Some(value as int),
            None => number(text@, max as int) is None,
        },
{
    let len = text.unicode_len();
    let start: usize = if len > 0 && text.get_char(0) == '+' {
        1
    } else {
        0
    };
    let ghost digits = unsigned(text@);
    if start == len {
        return None;
    }
    let mut value: u64 = 0;
    for i in start..len
        invariant
            len == text@.len(),
            start <= 1,
            digits == unsigned(text@),
            digits == text@.skip(start as int),
            all_digits(digits.take(i - start)),
            value == digits_value(digits.take(i - start)),
            value <= max,
    {
        let c = text.get_char(i);
        let ghost next = digits.take(i - start + 1);
        assert(next.drop_last() =~= digits.take(i - start));
        assert(next.last() == c);
        assert(digits[i - start] == c);
        if c < '0' || c > '9' {
            return None;
        }
        let digit: u64 = (c as u32 - 48) as u64;
        assert(all_digits(next)) by {
            assert forall|k: int| 0 <= k < next.len() implies is_digit(#[trigger] next[k]) by {
                if k < next.len() - 1 {
                    assert(digits.take(i - start)[k] == next[k]);
                }
            }
        }
        if digit > max || value > max / 10 || value * 10 > max - digit {
            proof {
                assert(value * 10 + digit > max);
                assert(digits_value(next) == value * 10 + digit);
                if all_digits(digits) {
                    lemma_value_grows(digits, i - start + 1);
                }
            }
            return None;
        }
        value = value * 10 + digit;
    }
    assert(digits.take(len - start) =~= digits);
    Some(value)
}

/// Whether the setting is switched on: it is `1` or `true`.
pub open spec fn switched_on(value: Option<Seq<char>>) -> bool {
    value matches Some(text) && (text == "1"@ || text == "true"@)
}

/// What a setting holds, if it is there.
pub open spec fn contents(value: Option<&str>) -> Option<Seq<char>> {
    match value {
        Some(text) => Some(text@),
        None => None,
    }
}

/// Whether the setting is switched on.
pub fn is_enabled(value: Option<&str>) -> (on: bool)
    ensures
        on == switched_on(contents(value)),
{
    match value {
        Some(text) => {
            let text = text.to_owned();
            text == "1".to_owned() || text == "true".to_owned()
        },
        None => false,
    }
}

/// The number that the setting holds, if it holds one up to `max`.
pub open spec fn setting_number(value: Option<Seq<char>>, max: int) -> Option<int> {
    match value {
        Some(text) => number(text, max),
        None => None,
    }
}

/// The largest number of blocks of a search: what the setting says, or the
/// configured one.
pub fn max_blocks(value: Option<&str>, configured: usize) -> (blocks: usize)
    ensures
        match setting_number(contents(value), usize::MAX as int) {
            Some(n) => blocks == n,
            None => blocks == configured,
        },
{
    match value {
        Some(text) => match parse_number(text, usize::MAX as u64) {
            Some(n) => n as usize,
            None => configured,
        },
        None => configured,
    }
}

/// A number that has to be positive: what the setting says, or `default`.
pub fn positive_or(value: Option<&str>, default: u64) -> (n: u64)
    ensures
        match setting_number(contents(value), u64::MAX as int) {
            Some(read) => n == if read > 0 {
                read
            } else {
                default as int
            },
            None => n == default,
        },
{
    match value {
        Some(text) => match parse_number(text, u64::MAX) {
            Some(read) => if read > 0 {
                read
            } else {
                default
            },
            None => default,
        },
        None => default,
    }
}

pub(crate) proof fn lemma_decimal_reads(n: nat)
    ensures
        decimal(n).len() > 0,
        all_digits(decimal(n)),
        digits_value(decimal(n)) == n,
        n > 0 ==> decimal(n)[0] != '0',
    decreases n,
{
    reveal_with_fuel(digits_value, 2);
    let text = decimal(n);
    if n < 10 {
        assert(text.drop_last() =~= Seq::<char>::empty());
        assert(is_digit(text[0]));
    } else {
        lemma_decimal_reads(n / 10);
        let front = decimal(n / 10);
        assert(text.drop_last() =~= front);
        assert forall|i: int| 0 <= i < text.len() implies is_digit(#[trigger] text[i]) by {
            if i < front.len() {
                assert(text[i] == front[i]);
                assert(is_digit(front[i]));
            }
        }
        assert(text[0] == front[0]);
    }
}

/// A number that was written is read back, with a plus sign in front or without, unless
/// it is above the limit; and it is written without leading zeros.
pub proof fn lemma_number_is_read_back(
    n: u64,
    written: String,
    text: &str,
    max: u64,
    parsed: Option<u64>,
)
    requires
        call_ensures(decimal_text, (n,), written),
        text@ == written@ || text@ == seq!['+'] + written@,
        call_ensures(parse_number, (text, max), parsed),
    ensures
        parsed == if n <= max {
            Some(n)
        } else {
            None
        },
        n > 0 ==> written@[0] != '0',
{
    lemma_decimal_reads(n as nat);
    let digits = written@;
    assert(is_digit(digits[0]));
    if text@ == digits {
        assert(unsigned(text@) == digits);
    } else {
        assert(unsigned(text@) =~= digits);
    }
}

/// What holds anything but digits, apart from one plus sign in front, is no number, and
/// neither is what holds no digit.
pub proof fn lemma_only_digits_are_read(text: &str, max: u64, parsed: Option<u64>)
    requires
        call_ensures(parse_number, (text, max), parsed),
    ensures
        text@.len() == 0 ==> parsed is None,
        text@ == seq!['+'] ==> parsed is None,
        (exists|i: int|
            0 <= i < text@.len() && !('0' <= #[trigger] text@[i] <= '9') && !(i == 0 && text@[i]
                == '+')) ==> parsed is None,
        parsed matches Some(n) ==> n <= max,
{
    if exists|i: int|
        0 <= i < text@.len() && !('0' <= #[trigger] text@[i] <= '9') && !(i == 0 && text@[i]
            == '+') {
        let i = choose|i: int|
            0 <= i < text@.len() && !('0' <= #[trigger] text@[i] <= '9') && !(i == 0 && text@[i]
                == '+');
        let digits = unsigned(text@);
        if text@[0] == '+' {
            assert(digits[i - 1] == text@[i]);
        } else {
            assert(digits[i] == text@[i]);
        }
    }
}

/// A digit more makes ten times the number and the digit.
pub proof fn lemma_digit_more(
    text: &str,
    longer: &str,
    digit: int,
    max: u64,
    before: Option<u64>,
    after: Option<u64>,
)
    requires
        0 <= digit <= 9,
        longer@ == text@.push((48 + digit) as char),
        call_ensures(parse_number, (text, max), before),
        call_ensures(parse_number, (longer, max), after),
        before is Some,
    ensures
        after == if before->Some_0 * 10 + digit <= max {
            Some((before->Some_0 * 10 + digit) as u64)
        } else {
            None
        },
{
    let c = (48 + digit) as char;
    let digits = unsigned(text@);
    assert(unsigned(longer@) =~= digits.push(c));
    let more = digits.push(c);
    assert(more.drop_last() =~= digits);
    assert(is_digit(c));
    assert forall|i: int| 0 <= i < more.len() implies is_digit(#[trigger] more[i]) by {
        if i < digits.len() {
            assert(is_digit(digits[i]));
        }
    }
    assert(digits_value(more) == digits_value(digits) * 10 + digit);
}

/// A setting is switched on by these two values and by nothing else.
pub proof fn lemma_switch(value: Option<&str>, on: bool)
    requires
        call_ensures(is_enabled, (value,), on),
    ensures
        value is None ==> !on,
        value matches Some(text) ==> (on <==> text@ == seq!['1'] || text@ == seq![
            't',
            'r',
            'u',
            'e',
        ]),
{
    reveal_strlit("1");
    reveal_strlit("true");
    assert("1"@ =~= seq!['1']);
    assert("true"@ =~= seq!['t', 'r', 'u', 'e']);
}

/// A limit and an interval are what the settings hold; without a number the configured
/// limit and the given interval stand, and an interval of zero stands for the given one.
pub proof fn lemma_settings_are_kept(
    n: u64,
    written: String,
    text: &str,
    configured: usize,
    default: u64,
    blocks: (usize, usize),
    every: (u64, u64),
)
    requires
        call_ensures(decimal_text, (n,), written),
        text@ == written@,
        n <= usize::MAX,
        call_ensures(max_blocks, (Some(text), configured), blocks.0),
        call_ensures(max_blocks, (None, configured), blocks.1),
        call_ensures(positive_or, (Some(text), default), every.0),
        call_ensures(positive_or, (None, default), every.1),
    ensures
        blocks.0 == n,
        blocks.1 == configured,
        every.0 == if n == 0 {
            default
        } else {
            n
        },
        every.1 == default,
{
    lemma_decimal_reads(n as nat);
    assert(is_digit(written@[0]));
    assert(unsigned(text@) == written@);
}

} // verus!
