//! Per-line extraction: scanning a line for its first and last digit token.

use vstd::prelude::*;
use vstd::string::StrSliceExecFns;

use crate::model::{
    digit_at, digit_word, first_digit_from, first_token_from, has_digit, has_token,
    last_digit_from, last_token_from, lemma_first_digit_from_bounds, lemma_first_digit_from_some,
    lemma_first_token_from_bounds, lemma_first_token_from_some, lemma_last_digit_from_bounds,
    lemma_last_digit_from_some, lemma_last_token_from_bounds, lemma_last_token_from_some,
    lemma_line_value_chars_some, lemma_line_value_some, line_value, line_value_chars, occurs_at,
    token_at, word_value,
};

verus! {

/// `w` occurs in `s` starting at character position `i`.
fn occurs_at_exec(s: &str, w: &str, i: usize) -> (r: bool)
    requires
        i <= s@.len(),
    ensures
        r == occurs_at(s@, i as int, w@),
{
    let n = s.unicode_len();
    let m = w.unicode_len();
    if m > n - i {
        return false;
    }
    let mut j: usize = 0;
    while j < m
        invariant
            n == s@.len(),
            m == w@.len(),
            i + m <= n,
            j <= m,
            forall|k: int| 0 <= k < j ==> s@[i + k] == w@[k],
        decreases m - j,
    {
        if s.get_char(i + j) != w.get_char(j) {
            proof {
                assert(s@.subrange(i as int, i + m as int)[j as int] != w@[j as int]);
            }
            return false;
        }
        j += 1;
    }
    proof {
        assert(s@.subrange(i as int, i + m as int) =~= w@);
    }
    true
}

/// The token, if any, at character position `i` of the line `s`: a literal
/// digit `'1'..='9'` there, or a digit word starting there.
fn token_at_exec(s: &str, i: usize) -> (r: Option<u32>)
    requires
        i < s@.len(),
    ensures
        r == token_at(s@, i as int),
{
    proof {
        reveal_strlit("one");
        reveal_strlit("two");
        reveal_strlit("three");
        reveal_strlit("four");
        reveal_strlit("five");
        reveal_strlit("six");
        reveal_strlit("seven");
        reveal_strlit("eight");
        reveal_strlit("nine");
        assert(digit_word(1) =~= "one"@);
        assert(digit_word(2) =~= "two"@);
        assert(digit_word(3) =~= "three"@);
        assert(digit_word(4) =~= "four"@);
        assert(digit_word(5) =~= "five"@);
        assert(digit_word(6) =~= "six"@);
        assert(digit_word(7) =~= "seven"@);
        assert(digit_word(8) =~= "eight"@);
        assert(digit_word(9) =~= "nine"@);
    }
    let c = s.get_char(i);
    if '1' <= c && c <= '9' {
        Some(c as u32 - '0' as u32)
    } else if occurs_at_exec(s, "one", i) {
        Some(1)
    } else if occurs_at_exec(s, "two", i) {
        Some(2)
    } else if occurs_at_exec(s, "three", i) {
        Some(3)
    } else if occurs_at_exec(s, "four", i) {
        Some(4)
    } else if occurs_at_exec(s, "five", i) {
        Some(5)
    } else if occurs_at_exec(s, "six", i) {
        Some(6)
    } else if occurs_at_exec(s, "seven", i) {
        Some(7)
    } else if occurs_at_exec(s, "eight", i) {
        Some(8)
    } else if occurs_at_exec(s, "nine", i) {
        Some(9)
    } else {
        None
    }
}

/// The literal digit, if any, at character position `i` of the line `s`.
fn digit_at_exec(s: &str, i: usize) -> (r: Option<u32>)
    requires
        i < s@.len(),
    ensures
        r == digit_at(s@, i as int),
{
    let c = s.get_char(i);
    if '0' <= c && c <= '9' {
        Some(c as u32 - '0' as u32)
    } else {
        None
    }
}

/// Character-by-character equality of two string slices.
fn str_eq_chars(a: &str, b: &str) -> (r: bool)
    ensures
        r == (a@ == b@),
{
    let na = a.unicode_len();
    let nb = b.unicode_len();
    if na != nb {
        return false;
    }
    let mut i: usize = 0;
    while i < na
        invariant
            na == a@.len(),
            na == b@.len(),
            i <= na,
            forall|j: int| 0 <= j < i ==> a@[j] == b@[j],
        decreases na - i,
    {
        if a.get_char(i) != b.get_char(i) {
            return false;
        }
        i += 1;
    }
    proof {
        assert(a@ =~= b@);
    }
    true
}

/// The digit whose English spelling is exactly `word`, if any; a word with
/// anything before or after a spelling, or none at all, yields `None`.
pub fn digit_from_word(word: &str) -> (r: Option<u32>)
    ensures
        r == word_value(word@),
{
    proof {
        reveal_strlit("one");
        reveal_strlit("two");
        reveal_strlit("three");
        reveal_strlit("four");
        reveal_strlit("five");
        reveal_strlit("six");
        reveal_strlit("seven");
        reveal_strlit("eight");
        reveal_strlit("nine");
        assert(digit_word(1) =~= "one"@);
        assert(digit_word(2) =~= "two"@);
        assert(digit_word(3) =~= "three"@);
        assert(digit_word(4) =~= "four"@);
        assert(digit_word(5) =~= "five"@);
        assert(digit_word(6) =~= "six"@);
        assert(digit_word(7) =~= "seven"@);
        assert(digit_word(8) =~= "eight"@);
        assert(digit_word(9) =~= "nine"@);
    }
    if str_eq_chars(word, "one") {
        Some(1)
    } else if str_eq_chars(word, "two") {
        Some(2)
    } else if str_eq_chars(word, "three") {
        Some(3)
    } else if str_eq_chars(word, "four") {
        Some(4)
    } else if str_eq_chars(word, "five") {
        Some(5)
    } else if str_eq_chars(word, "six") {
        Some(6)
    } else if str_eq_chars(word, "seven") {
        Some(7)
    } else if str_eq_chars(word, "eight") {
        Some(8)
    } else if str_eq_chars(word, "nine") {
        Some(9)
    } else {
        None
    }
}

/// Word-aware extraction that reports failure: `Some(10 * first + last)`
/// over the first and last token of the line, `None` when the line holds
/// no token.
pub fn try_process_line(input: &str) -> (r: Option<u32>)
    ensures
        r == line_value(input@),
{
    let ghost s = input@;
    let n = input.unicode_len();

    let mut i: usize = 0;
    let mut first: Option<u32> = None;
    while first.is_none() && i < n
        invariant
            s == input@,
            n == s.len(),
            i <= n,
            first is None ==> first_token_from(s, 0) == first_token_from(s, i as int),
            first is Some ==> first == first_token_from(s, 0),
        decreases n - i, (if first is None { 1int } else { 0int }),
    {
        let t = token_at_exec(input, i);
        if t.is_some() {
            first = t;
        } else {
            i += 1;
        }
    }
    if first.is_none() {
        return None;
    }

    let mut j: usize = n;
    let mut last: Option<u32> = None;
    while last.is_none() && j > 0
        invariant
            s == input@,
            n == s.len(),
            j <= n,
            last is None ==> last_token_from(s, n as int - 1) == last_token_from(s, j as int - 1),
            last is Some ==> last == last_token_from(s, n as int - 1),
        decreases j, (if last is None { 1int } else { 0int }),
    {
        let t = token_at_exec(input, j - 1);
        if t.is_some() {
            last = t;
        } else {
            j -= 1;
        }
    }
    proof {
        if last is None {
            lemma_first_token_from_some(s, 0);
            lemma_last_token_from_some(s, s.len() - 1);
            assert(false);
        }
        lemma_first_token_from_bounds(s, 0);
        lemma_last_token_from_bounds(s, s.len() - 1);
    }
    Some(10 * first.unwrap() + last.unwrap())
}

/// Character-only extraction that reports failure: `Some(10 * first + last)`
/// over the first and last literal digit of the line, `None` when the line
/// holds no digit.
pub fn try_process_line_chars(input: &str) -> (r: Option<u32>)
    ensures
        r == line_value_chars(input@),
{
    let ghost s = input@;
    let n = input.unicode_len();

    let mut i: usize = 0;
    let mut first: Option<u32> = None;
    while first.is_none() && i < n
        invariant
            s == input@,
            n == s.len(),
            i <= n,
            first is None ==> first_digit_from(s, 0) == first_digit_from(s, i as int),
            first is Some ==> first == first_digit_from(s, 0),
        decreases n - i, (if first is None { 1int } else { 0int }),
    {
        let t = digit_at_exec(input, i);
        if t.is_some() {
            first = t;
        } else {
            i += 1;
        }
    }
    if first.is_none() {
        return None;
    }

    let mut j: usize = n;
    let mut last: Option<u32> = None;
    while last.is_none() && j > 0
        invariant
            s == input@,
            n == s.len(),
            j <= n,
            last is None ==> last_digit_from(s, n as int - 1) == last_digit_from(s, j as int - 1),
            last is Some ==> last == last_digit_from(s, n as int - 1),
        decreases j, (if last is None { 1int } else { 0int }),
    {
        let t = digit_at_exec(input, j - 1);
        if t.is_some() {
            last = t;
        } else {
            j -= 1;
        }
    }
    proof {
        if last is None {
            lemma_first_digit_from_some(s, 0);
            lemma_last_digit_from_some(s, s.len() - 1);
            assert(false);
        }
        lemma_first_digit_from_bounds(s, 0);
        lemma_last_digit_from_bounds(s, s.len() - 1);
    }
    Some(10 * first.unwrap() + last.unwrap())
}

/// Word-aware value of one line, for callers that guarantee the line holds
/// a token: `10 * first + last` over its first and last token.
pub fn process_line(input: &str) -> (r: u32)
    requires
        has_token(input@),
    ensures
        Some(r) == line_value(input@),
{
    proof {
        lemma_line_value_some(input@);
    }
    let v = try_process_line(input);
    v.unwrap()
}

/// Character-only value of one line, for callers that guarantee the line
/// holds a literal digit: `10 * first + last` over its first and last digit.
pub fn process_line_chars(input: &str) -> (r: u32)
    requires
        has_digit(input@),
    ensures
        Some(r) == line_value_chars(input@),
{
    proof {
        lemma_line_value_chars_some(input@);
    }
    let v = try_process_line_chars(input);
    v.unwrap()
}

} // verus!
