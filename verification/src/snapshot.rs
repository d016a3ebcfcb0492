//! Finding the newest snapshot of a run among the names of the files that
//! the run has written.

use vstd::prelude::*;
use vstd::string::StrSliceExecFns;

verus! {

/// The pattern of the name of a strategy snapshot: the number of the
/// iteration, in decimal digits, stands between `strategy_` and `.bincode` at
/// the end of the name, and is the first group of the pattern.
pub const STRATEGY_PATTERN: &'static str = "strategy_([[:digit:]]+)\\.bincode$";

/// The group of the snapshot pattern that holds the number of the iteration.
pub const ITERATION_GROUP: usize = 1;

/// What group `group` of `pattern` holds in the leftmost match of `pattern`
/// in `haystack`, as the `regex` crate finds it; `None` where the pattern is
/// no regular expression, does not match, or matches without that group.
pub uninterp spec fn regex_group(pattern: Seq<char>, haystack: Seq<char>, group: usize) -> Option<
    Seq<char>,
>;

/// Compiles `pattern` with `regex::Regex::new`, searches `haystack` with
/// `Regex::captures` and hands out the text of group `group`
/// (`Captures::get`, `Match::as_str`).
///
/// Believed, not proved: the result is what `regex_group` names, that is, it
/// depends on the two texts and the number of the group alone.
#[verifier::external_body]
fn capture_group(pattern: &str, haystack: &str, group: usize) -> (r: Option<String>)
    ensures
        match r {
            Some(text) => regex_group(pattern@, haystack@, group) == Some(text@),
            None => regex_group(pattern@, haystack@, group) is None,
        },
{
    let compiled = match regex::Regex::new(pattern) {
        Ok(compiled) => compiled,
        Err(_) => return None,
    };
    match compiled.captures(haystack) {
        Some(found) => match found.get(group) {
            Some(text) => Some(text.as_str().to_owned()),
            None => None,
        },
        None => None,
    }
}

/// A decimal digit.
pub open spec fn is_digit(c: char) -> bool {
    '0' <= c && c <= '9'
}

/// The number that the digit stands for.
pub open spec fn digit_value(c: char) -> int {
    c as int - '0' as int
}

/// Every character of `text` is a decimal digit.
pub open spec fn all_digits(text: Seq<char>) -> bool {
    forall|i: int| 0 <= i < text.len() ==> is_digit(#[trigger] text[i])
}

/// The number that the first `n` characters of `text` are the decimal
/// digits of.
pub open spec fn decimal_number(text: Seq<char>, n: int) -> int
    decreases n,
{
    if n <= 0 {
        0
    } else {
        10 * decimal_number(text, n - 1) + digit_value(text[n - 1])
    }
}

/// The number that `text` is the decimal form of, where `text` is one or
/// more decimal digits and the number fits.
pub open spec fn decimal_value(text: Seq<char>) -> Option<usize> {
    if text.len() > 0 && all_digits(text) && decimal_number(text, text.len() as int)
        <= usize::MAX {
        Some(decimal_number(text, text.len() as int) as usize)
    } else {
        None
    }
}

/// The iteration that a file of the name `name` is the strategy snapshot
/// of: the decimal value of what the iteration group of the snapshot pattern
/// holds in the name.
pub open spec fn spec_strategy_iteration(name: Seq<char>) -> Option<usize> {
    match regex_group(STRATEGY_PATTERN@, name, ITERATION_GROUP) {
        Some(digits) => decimal_value(digits),
        None => None,
    }
}

/// A name of `names` is that of the strategy snapshot of iteration `m`, and
/// none is that of a later one.
pub open spec fn is_latest(names: Seq<String>, m: usize) -> bool {
    &&& exists|i: int|
        0 <= i < names.len() && spec_strategy_iteration((#[trigger] names[i])@) == Some(m)
    &&& forall|i: int|
        0 <= i < names.len() ==> match spec_strategy_iteration((#[trigger] names[i])@) {
            Some(v) => v <= m,
            None => true,
        }
}

/// More digits never make a smaller number.
pub proof fn lemma_decimal_grows(text: Seq<char>, k: int, m: int)
    requires
        all_digits(text),
        0 <= k <= m <= text.len(),
    ensures
        0 <= decimal_number(text, k) <= decimal_number(text, m),
    decreases m,
{
    if k < m {
        lemma_decimal_grows(text, k, m - 1);
        assert(is_digit(text[m - 1]));
    } else if m > 0 {
        lemma_decimal_grows(text, k - 1, m - 1);
        assert(is_digit(text[m - 1]));
    }
}

/// The number that the digit `c` stands for, if it is a digit.
fn digit_of(c: char) -> (r: Option<usize>)
    ensures
        r == if is_digit(c) {
            Some(digit_value(c) as usize)
        } else {
            None::<usize>
        },
{
    if c == '0' {
        Some(0)
    } else if c == '1' {
        Some(1)
    } else if c == '2' {
        Some(2)
    } else if c == '3' {
        Some(3)
    } else if c == '4' {
        Some(4)
    } else if c == '5' {
        Some(5)
    } else if c == '6' {
        Some(6)
    } else if c == '7' {
        Some(7)
    } else if c == '8' {
        Some(8)
    } else if c == '9' {
        Some(9)
    } else {
        None
    }
}

/// The number that `text` is the decimal form of; `None` where `text` is
/// empty, holds anything but decimal digits, or stands for a number that
/// does not fit.
pub fn parse_decimal(text: &str) -> (r: Option<usize>)
    ensures
        r == decimal_value(text@),
{
    let n = text.unicode_len();
    if n == 0 {
        return None;
    }
    let mut value: usize = 0;
    let mut i: usize = 0;
    while i < n
        invariant
            0 <= i <= n,
            n == text@.len(),
            value == decimal_number(text@, i as int),
            forall|j: int| 0 <= j < i ==> is_digit(#[trigger] text@[j]),
        decreases n - i,
    {
        let c = text.get_char(i);
        let digit = match digit_of(c) {
            Some(digit) => digit,
            None => {
                assert(!is_digit(text@[i as int]));
                return None;
            },
        };
        if value > (usize::MAX - digit) / 10 {
            proof {
                assert(decimal_number(text@, i + 1) > usize::MAX);
                if all_digits(text@) {
                    lemma_decimal_grows(text@, i + 1, n as int);
                }
            }
            return None;
        }
        value = value * 10 + digit;
        i = i + 1;
    }
    Some(value)
}

/// The iteration that a file of the name `name` is the strategy snapshot
/// of, if it is one.
pub fn strategy_iteration(name: &str) -> (r: Option<usize>)
    ensures
        r == spec_strategy_iteration(name@),
{
    match capture_group(STRATEGY_PATTERN, name, ITERATION_GROUP) {
        Some(digits) => parse_decimal(digits.as_str()),
        None => None,
    }
}

/// The latest iteration that one of the files named has the strategy
/// snapshot of; `None` where none of the names is that of a strategy
/// snapshot.
pub fn latest_iteration(names: &Vec<String>) -> (r: Option<usize>)
    ensures
        match r {
            Some(m) => is_latest(names@, m),
            None => forall|i: int|
                0 <= i < names@.len() ==> spec_strategy_iteration((#[trigger] names@[i])@) is None,
        },
{
    let mut latest: Option<usize> = None;
    let mut k: usize = 0;
    while k < names.len()
        invariant
            0 <= k <= names@.len(),
            match latest {
                Some(m) => is_latest(names@.take(k as int), m),
                None => forall|i: int|
                    0 <= i < k ==> spec_strategy_iteration((#[trigger] names@[i])@) is None,
            },
        decreases names@.len() - k,
    {
        let ghost done = names@.take(k as int);
        let ghost more = names@.take(k + 1);
        let found = strategy_iteration(names[k].as_str());
        let ghost before = latest;
        match found {
            Some(v) => {
                let later = match latest {
                    Some(m) => v > m,
                    None => true,
                };
                if later {
                    latest = Some(v);
                }
            },
            None => {},
        }
        proof {
            assert forall|i: int| 0 <= i < more.len() implies #[trigger] more[i] == names@[i] by {}
            assert forall|i: int| 0 <= i < done.len() implies #[trigger] done[i] == names@[i] by {}
            match latest {
                Some(m) => {
                    if before == Some(m) {
                        let i = choose|i: int|
                            0 <= i < done.len() && spec_strategy_iteration((#[trigger] done[i])@)
                                == Some(m);
                        assert(spec_strategy_iteration(more[i]@) == Some(m));
                    } else {
                        assert(spec_strategy_iteration(more[k as int]@) == Some(m));
                    }
                    assert forall|i: int| 0 <= i < more.len() implies match spec_strategy_iteration(
                        (#[trigger] more[i])@,
                    ) {
                        Some(v) => v <= m,
                        None => true,
                    } by {
                        if i < k {
                            assert(done[i] == more[i]);
                            if before is None {
                                assert(spec_strategy_iteration(names@[i]@) is None);
                            }
                        }
                    }
                },
                None => {},
            }
        }
        k = k + 1;
    }
    assert(names@.take(k as int) =~= names@);
    latest
}

} // verus!
