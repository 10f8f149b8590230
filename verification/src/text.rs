//! Text renderings of numbers and lists.

use vstd::prelude::*;
use vstd::string::*;

verus! {

/// The character of a decimal digit.
pub open spec fn digit_char(digit: int) -> char {
    if digit == 0 {
        '0'
    } else if digit == 1 {
        '1'
    } else if digit == 2 {
        '2'
    } else if digit == 3 {
        '3'
    } else if digit == 4 {
        '4'
    } else if digit == 5 {
        '5'
    } else if digit == 6 {
        '6'
    } else if digit == 7 {
        '7'
    } else if digit == 8 {
        '8'
    } else {
        '9'
    }
}

/// The decimal digits of a number, without leading zeros.
pub open spec fn decimal(n: nat) -> Seq<char>
    decreases n,
{
    if n < 10 {
        seq![digit_char(n as int)]
    } else {
        decimal(n / 10).push(digit_char((n % 10) as int))
    }
}

/// The decimals of the first `n` numbers, separated by a comma and a space.
pub open spec fn decimals_upto(numbers: Seq<usize>, n: int) -> Seq<char>
    decreases n,
{
    if n <= 0 {
        Seq::empty()
    } else if n == 1 {
        decimal(numbers[0] as nat)
    } else {
        decimals_upto(numbers, n - 1) + seq![',', ' '] + decimal(numbers[n - 1] as nat)
    }
}

/// A list of numbers in square brackets.
pub open spec fn bracketed(numbers: Seq<usize>) -> Seq<char> {
    seq!['['] + decimals_upto(numbers, numbers.len() as int) + seq![']']
}

fn digit_text(digit: u64) -> (text: &'static str)
    requires
        digit < 10,
    ensures
        text@ == seq![digit_char(digit as int)],
{
    proof {
        reveal_strlit("0");
        reveal_strlit("1");
        reveal_strlit("2");
        reveal_strlit("3");
        reveal_strlit("4");
        reveal_strlit("5");
        reveal_strlit("6");
        reveal_strlit("7");
        reveal_strlit("8");
        reveal_strlit("9");
    }
    let text = if digit == 0 {
        "0"
    } else if digit == 1 {
        "1"
    } else if digit == 2 {
        "2"
    } else if digit == 3 {
        "3"
    } else if digit == 4 {
        "4"
    } else if digit == 5 {
        "5"
    } else if digit == 6 {
        "6"
    } else if digit == 7 {
        "7"
    } else if digit == 8 {
        "8"
    } else {
        "9"
    };
    assert(text@ =~= seq![digit_char(digit as int)]);
    text
}

/// The decimal text of a number.
pub fn decimal_text(n: u64) -> (text: String)
    ensures
        text@ == decimal(n as nat),
    decreases n,
{
    if n < 10 {
        digit_text(n).to_owned()
    } else {
        let mut text = decimal_text(n / 10);
        text.append(digit_text(n % 10));
        assert(text@ =~= decimal(n as nat));
        text
    }
}

/// The text of a list of numbers in square brackets.
pub fn list_text(numbers: &Vec<usize>) -> (text: String)
    ensures
        text@ == bracketed(numbers@),
{
    proof {
        reveal_strlit("[");
        reveal_strlit("]");
        reveal_strlit(", ");
    }
    let mut text = "[".to_owned();
    assert(text@ =~= seq!['[']);
    for i in 0..numbers.len()
        invariant
            ", "@ =~= seq![',', ' '],
            text@ =~= seq!['['] + decimals_upto(numbers@, i as int),
    {
        if i > 0 {
            text.append(", ");
        }
        text.append(decimal_text(numbers[i] as u64).as_str());
    }
    text.append("]");
    assert(text@ =~= bracketed(numbers@));
    text
}

/// The first characters of the text, at most `limit` of them.
pub open spec fn shortened(text: Seq<char>, limit: int) -> Seq<char> {
    if text.len() <= limit {
        text
    } else {
        text.take(limit)
    }
}

/// The first `n` texts, each shortened, separated by a vertical bar.
pub open spec fn shortened_upto(texts: Seq<String>, limit: int, n: int) -> Seq<char>
    decreases n,
{
    if n <= 0 {
        Seq::empty()
    } else if n == 1 {
        shortened(texts[0]@, limit)
    } else {
        shortened_upto(texts, limit, n - 1) + " | "@ + shortened(texts[n - 1]@, limit)
    }
}

/// The texts, each shortened, separated by a vertical bar.
pub fn shortened_texts(texts: &Vec<String>, limit: usize) -> (text: String)
    ensures
        text@ == shortened_upto(texts@, limit as int, texts@.len() as int),
{
    let mut text = String::new();
    for i in 0..texts.len()
        invariant
            text@ == shortened_upto(texts@, limit as int, i as int),
    {
        if i > 0 {
            text.append(" | ");
        }
        let next = texts[i].as_str();
        if next.unicode_len() <= limit {
            text.append(next);
        } else {
            let start = next.substring_char(0, limit);
            assert(start@ =~= next@.take(limit as int));
            text.append(start);
        }
        assert(text@ =~= shortened_upto(texts@, limit as int, i + 1));
    }
    text
}

/// A list with one more number reads as before, with the number after a comma and a
/// space, or alone in the brackets.
pub proof fn lemma_list_text_grows(
    fewer: Vec<usize>,
    more: Vec<usize>,
    number: usize,
    before: String,
    last: String,
    after: String,
)
    requires
        more@ == fewer@.push(number),
        call_ensures(list_text, (&fewer,), before),
        call_ensures(decimal_text, (number as u64,), last),
        call_ensures(list_text, (&more,), after),
    ensures
        fewer@.len() == 0 ==> before@ == seq!['[', ']'],
        after@ == before@.drop_last() + (if fewer@.len() == 0 {
            Seq::empty()
        } else {
            seq![',', ' ']
        }) + last@ + seq![']'],
{
    let n = fewer@.len() as int;
    lemma_decimals_prefix(fewer@, more@, n);
    assert(before@.drop_last() =~= seq!['['] + decimals_upto(fewer@, n));
    assert(before@ =~= seq!['['] + decimals_upto(fewer@, n) + seq![']']);
    assert(more@[n] == number);
    assert(after@ =~= before@.drop_last() + (if fewer@.len() == 0 {
        Seq::<char>::empty()
    } else {
        seq![',', ' ']
    }) + last@ + seq![']']);
}

proof fn lemma_decimals_prefix(a: Seq<usize>, b: Seq<usize>, n: int)
    requires
        0 <= n <= a.len(),
        n <= b.len(),
        forall|i: int| 0 <= i < n ==> a[i] == b[i],
    ensures
        decimals_upto(a, n) == decimals_upto(b, n),
    decreases n,
{
    if n > 1 {
        lemma_decimals_prefix(a, b, n - 1);
    }
}

proof fn lemma_shortened_prefix(a: Seq<String>, b: Seq<String>, limit: int, n: int)
    requires
        0 <= n <= a.len(),
        n <= b.len(),
        forall|i: int| 0 <= i < n ==> a[i] == b[i],
    ensures
        shortened_upto(a, limit, n) == shortened_upto(b, limit, n),
    decreases n,
{
    if n > 1 {
        lemma_shortened_prefix(a, b, limit, n - 1);
    }
}

/// One more text is put behind a vertical bar, or alone; as much of it as the limit
/// allows is there, and nothing else.
pub proof fn lemma_shortened_texts_grow(
    fewer: Vec<String>,
    more: Vec<String>,
    text: String,
    limit: usize,
    before: String,
    after: String,
) -> (kept: Seq<char>)
    requires
        more@ == fewer@.push(text),
        call_ensures(shortened_texts, (&fewer, limit), before),
        call_ensures(shortened_texts, (&more, limit), after),
    ensures
        fewer@.len() == 0 ==> before@.len() == 0,
        after@ == before@ + (if fewer@.len() == 0 {
            Seq::empty()
        } else {
            seq![' ', '|', ' ']
        }) + kept,
        kept.is_prefix_of(text@),
        kept.len() <= limit,
        kept.len() < limit ==> kept == text@,
{
    reveal_strlit(" | ");
    let n = fewer@.len() as int;
    lemma_shortened_prefix(fewer@, more@, limit as int, n);
    assert(more@[n] == text);
    let kept = shortened(text@, limit as int);
    assert(" | "@ =~= seq![' ', '|', ' ']);
    assert(after@ =~= before@ + (if fewer@.len() == 0 {
        Seq::<char>::empty()
    } else {
        seq![' ', '|', ' ']
    }) + kept);
    kept
}

} // verus!
