//! The mathematical model of line digit extraction.
//!
//! A line is modelled as a `Seq<char>`. A *token* is a digit found at some
//! position of the line: in the word-aware variant a literal character
//! `'1'..='9'` or one of the nine English digit words starting at that
//! position, in the character-only variant a literal character `'0'..='9'`.
//! The value of a line is `10 * first + last`, where `first` and `last` are
//! the tokens found by scanning left-to-right and right-to-left.

use vstd::prelude::*;

verus! {

/// The digit test of the word-aware variant: `'1'..='9'` (a literal `'0'`
/// never yields a token in that variant).
pub open spec fn is_nonzero_digit(c: char) -> bool {
    '1' <= c && c <= '9'
}

/// The digit test of the character-only variant: `'0'..='9'`.
pub open spec fn is_digit(c: char) -> bool {
    '0' <= c && c <= '9'
}

/// Numeric value of a decimal digit character.
pub open spec fn digit_value(c: char) -> u32 {
    (c as int - '0' as int) as u32
}

/// The spelled-out English word for a digit `1..=9`, as a character sequence.
pub open spec fn digit_word(d: int) -> Seq<char> {
    if d == 1 {
        seq!['o', 'n', 'e']
    } else if d == 2 {
        seq!['t', 'w', 'o']
    } else if d == 3 {
        seq!['t', 'h', 'r', 'e', 'e']
    } else if d == 4 {
        seq!['f', 'o', 'u', 'r']
    } else if d == 5 {
        seq!['f', 'i', 'v', 'e']
    } else if d == 6 {
        seq!['s', 'i', 'x']
    } else if d == 7 {
        seq!['s', 'e', 'v', 'e', 'n']
    } else if d == 8 {
        seq!['e', 'i', 'g', 'h', 't']
    } else if d == 9 {
        seq!['n', 'i', 'n', 'e']
    } else {
        Seq::empty()
    }
}

/// `w` occurs in `s` starting at position `i`.
pub open spec fn occurs_at(s: Seq<char>, i: int, w: Seq<char>) -> bool {
    &&& 0 <= i
    &&& i + w.len() <= s.len()
    &&& s.subrange(i, i + w.len() as int) == w
}

/// The digit word, if any, that occurs in `s` at position `i`.
/// The nine words are prefix-free, so at most one can occur at a position;
/// they are tried in increasing order of their value.
pub open spec fn word_digit_at(s: Seq<char>, i: int) -> Option<u32> {
    if occurs_at(s, i, digit_word(1)) {
        Some(1u32)
    } else if occurs_at(s, i, digit_word(2)) {
        Some(2u32)
    } else if occurs_at(s, i, digit_word(3)) {
        Some(3u32)
    } else if occurs_at(s, i, digit_word(4)) {
        Some(4u32)
    } else if occurs_at(s, i, digit_word(5)) {
        Some(5u32)
    } else if occurs_at(s, i, digit_word(6)) {
        Some(6u32)
    } else if occurs_at(s, i, digit_word(7)) {
        Some(7u32)
    } else if occurs_at(s, i, digit_word(8)) {
        Some(8u32)
    } else if occurs_at(s, i, digit_word(9)) {
        Some(9u32)
    } else {
        None
    }
}

/// Word-aware token at position `i`: a literal digit `'1'..='9'` there, or
/// else a digit word starting there.
pub open spec fn token_at(s: Seq<char>, i: int) -> Option<u32> {
    if 0 <= i < s.len() && is_nonzero_digit(s[i]) {
        Some(digit_value(s[i]))
    } else {
        word_digit_at(s, i)
    }
}

/// Character-only token at position `i`: a literal digit `'0'..='9'` there.
pub open spec fn digit_at(s: Seq<char>, i: int) -> Option<u32> {
    if 0 <= i < s.len() && is_digit(s[i]) {
        Some(digit_value(s[i]))
    } else {
        None
    }
}

/// The line contains at least one word-aware token.
pub open spec fn has_token(s: Seq<char>) -> bool {
    exists|i: int| 0 <= i < s.len() && token_at(s, i) is Some
}

/// The line contains at least one literal decimal digit.
pub open spec fn has_digit(s: Seq<char>) -> bool {
    exists|i: int| 0 <= i < s.len() && digit_at(s, i) is Some
}

/// First word-aware token at position `i` or later.
pub open spec fn first_token_from(s: Seq<char>, i: int) -> Option<u32>
    decreases s.len() - i,
{
    if i < 0 || i >= s.len() {
        None
    } else if token_at(s, i) is Some {
        token_at(s, i)
    } else {
        first_token_from(s, i + 1)
    }
}

/// Last word-aware token at position `i` or earlier.
pub open spec fn last_token_from(s: Seq<char>, i: int) -> Option<u32>
    decreases i + 1,
{
    if i < 0 || i >= s.len() {
        None
    } else if token_at(s, i) is Some {
        token_at(s, i)
    } else {
        last_token_from(s, i - 1)
    }
}

/// First literal digit at position `i` or later.
pub open spec fn first_digit_from(s: Seq<char>, i: int) -> Option<u32>
    decreases s.len() - i,
{
    if i < 0 || i >= s.len() {
        None
    } else if digit_at(s, i) is Some {
        digit_at(s, i)
    } else {
        first_digit_from(s, i + 1)
    }
}

/// Last literal digit at position `i` or earlier.
pub open spec fn last_digit_from(s: Seq<char>, i: int) -> Option<u32>
    decreases i + 1,
{
    if i < 0 || i >= s.len() {
        None
    } else if digit_at(s, i) is Some {
        digit_at(s, i)
    } else {
        last_digit_from(s, i - 1)
    }
}

/// Word-aware value of a line: `10 * first + last`, or `None` when the line
/// holds no token.
pub open spec fn line_value(s: Seq<char>) -> Option<u32> {
    match (first_token_from(s, 0), last_token_from(s, s.len() - 1)) {
        (Some(f), Some(l)) => Some((10 * f + l) as u32),
        _ => None,
    }
}

/// Character-only value of a line: `10 * first + last` over literal digits,
/// or `None` when the line holds no digit.
pub open spec fn line_value_chars(s: Seq<char>) -> Option<u32> {
    match (first_digit_from(s, 0), last_digit_from(s, s.len() - 1)) {
        (Some(f), Some(l)) => Some((10 * f + l) as u32),
        _ => None,
    }
}

/// The value, if any, of a whole word: `Some(d)` exactly when the word is
/// the spelling of the digit `d`.
pub open spec fn word_value(w: Seq<char>) -> Option<u32> {
    if w == digit_word(1) {
        Some(1u32)
    } else if w == digit_word(2) {
        Some(2u32)
    } else if w == digit_word(3) {
        Some(3u32)
    } else if w == digit_word(4) {
        Some(4u32)
    } else if w == digit_word(5) {
        Some(5u32)
    } else if w == digit_word(6) {
        Some(6u32)
    } else if w == digit_word(7) {
        Some(7u32)
    } else if w == digit_word(8) {
        Some(8u32)
    } else if w == digit_word(9) {
        Some(9u32)
    } else {
        None
    }
}

/// The views of a sequence of lines.
pub open spec fn line_views(lines: Seq<&str>) -> Seq<Seq<char>> {
    lines.map_values(|s: &str| s@)
}

/// What one line adds to the sum: nothing when it is empty, its word-aware
/// value otherwise. An invalid non-empty line is excluded by `lines_ok`
/// wherever this contribution is relied on.
pub open spec fn line_contrib(s: Seq<char>) -> int {
    if s.len() == 0 {
        0
    } else {
        match line_value(s) {
            Some(v) => v as int,
            None => 0,
        }
    }
}

/// Character-only counterpart of `line_contrib`.
pub open spec fn line_contrib_chars(s: Seq<char>) -> int {
    if s.len() == 0 {
        0
    } else {
        match line_value_chars(s) {
            Some(v) => v as int,
            None => 0,
        }
    }
}

/// Word-aware sum of the lines from index `k` on.
pub open spec fn sum_values_from(lines: Seq<Seq<char>>, k: int) -> int
    decreases lines.len() - k,
{
    if k < 0 || k >= lines.len() {
        0
    } else {
        line_contrib(lines[k]) + sum_values_from(lines, k + 1)
    }
}

/// Word-aware sum over all lines.
pub open spec fn sum_values(lines: Seq<Seq<char>>) -> int {
    sum_values_from(lines, 0)
}

/// Character-only sum of the lines from index `k` on.
pub open spec fn sum_values_chars_from(lines: Seq<Seq<char>>, k: int) -> int
    decreases lines.len() - k,
{
    if k < 0 || k >= lines.len() {
        0
    } else {
        line_contrib_chars(lines[k]) + sum_values_chars_from(lines, k + 1)
    }
}

/// Character-only sum over all lines.
pub open spec fn sum_values_chars(lines: Seq<Seq<char>>) -> int {
    sum_values_chars_from(lines, 0)
}

/// Index of the first non-empty line at `k` or later that holds no
/// word-aware token, or `lines.len()` when there is none.
pub open spec fn first_bad_from(lines: Seq<Seq<char>>, k: int) -> int
    decreases lines.len() - k,
{
    if k < 0 || k >= lines.len() {
        lines.len() as int
    } else if lines[k].len() > 0 && !has_token(lines[k]) {
        k
    } else {
        first_bad_from(lines, k + 1)
    }
}

/// Index of the first non-empty line at `k` or later that holds no literal
/// digit, or `lines.len()` when there is none.
pub open spec fn first_bad_chars_from(lines: Seq<Seq<char>>, k: int) -> int
    decreases lines.len() - k,
{
    if k < 0 || k >= lines.len() {
        lines.len() as int
    } else if lines[k].len() > 0 && !has_digit(lines[k]) {
        k
    } else {
        first_bad_chars_from(lines, k + 1)
    }
}

/// The scan for a bad line runs off the end exactly when every non-empty
/// line from `k` on holds a token.
pub proof fn lemma_first_bad_from_ok(lines: Seq<Seq<char>>, k: int)
    requires
        0 <= k <= lines.len(),
    ensures
        (first_bad_from(lines, k) == lines.len()) <==> (forall|j: int|
            k <= j < lines.len() && #[trigger] lines[j].len() > 0 ==> has_token(lines[j])),
        k <= first_bad_from(lines, k) <= lines.len(),
    decreases lines.len() - k,
{
    if k == lines.len() {
    } else if lines[k].len() > 0 && !has_token(lines[k]) {
    } else {
        lemma_first_bad_from_ok(lines, k + 1);
    }
}

pub proof fn lemma_first_bad_chars_from_ok(lines: Seq<Seq<char>>, k: int)
    requires
        0 <= k <= lines.len(),
    ensures
        (first_bad_chars_from(lines, k) == lines.len()) <==> (forall|j: int|
            k <= j < lines.len() && #[trigger] lines[j].len() > 0 ==> has_digit(lines[j])),
        k <= first_bad_chars_from(lines, k) <= lines.len(),
    decreases lines.len() - k,
{
    if k == lines.len() {
    } else if lines[k].len() > 0 && !has_digit(lines[k]) {
    } else {
        lemma_first_bad_chars_from_ok(lines, k + 1);
    }
}

/// A token is always the value of a digit `1..=9` in the word-aware variant.
pub proof fn lemma_token_at_bounds(s: Seq<char>, i: int)
    ensures
        token_at(s, i) matches Some(v) ==> 1 <= v <= 9,
{
}

/// A token is always the value of a digit `0..=9` in the character-only
/// variant.
pub proof fn lemma_digit_at_bounds(s: Seq<char>, i: int)
    ensures
        digit_at(s, i) matches Some(v) ==> 0 <= v <= 9,
{
}

pub proof fn lemma_first_token_from_bounds(s: Seq<char>, i: int)
    ensures
        first_token_from(s, i) matches Some(v) ==> 1 <= v <= 9,
    decreases s.len() - i,
{
    if i < 0 || i >= s.len() {
    } else if token_at(s, i) is Some {
        lemma_token_at_bounds(s, i);
    } else {
        lemma_first_token_from_bounds(s, i + 1);
    }
}

pub proof fn lemma_last_token_from_bounds(s: Seq<char>, i: int)
    ensures
        last_token_from(s, i) matches Some(v) ==> 1 <= v <= 9,
    decreases i + 1,
{
    if i < 0 || i >= s.len() {
    } else if token_at(s, i) is Some {
        lemma_token_at_bounds(s, i);
    } else {
        lemma_last_token_from_bounds(s, i - 1);
    }
}

pub proof fn lemma_first_digit_from_bounds(s: Seq<char>, i: int)
    ensures
        first_digit_from(s, i) matches Some(v) ==> 0 <= v <= 9,
    decreases s.len() - i,
{
    if i < 0 || i >= s.len() {
    } else if digit_at(s, i) is Some {
        lemma_digit_at_bounds(s, i);
    } else {
        lemma_first_digit_from_bounds(s, i + 1);
    }
}

pub proof fn lemma_last_digit_from_bounds(s: Seq<char>, i: int)
    ensures
        last_digit_from(s, i) matches Some(v) ==> 0 <= v <= 9,
    decreases i + 1,
{
    if i < 0 || i >= s.len() {
    } else if digit_at(s, i) is Some {
        lemma_digit_at_bounds(s, i);
    } else {
        lemma_last_digit_from_bounds(s, i - 1);
    }
}

/// The left-to-right scan from `i` succeeds exactly when some position at
/// `i` or later carries a token.
pub proof fn lemma_first_token_from_some(s: Seq<char>, i: int)
    requires
        0 <= i <= s.len(),
    ensures
        (first_token_from(s, i) is Some) <==> (exists|j: int|
            i <= j < s.len() && #[trigger] token_at(s, j) is Some),
    decreases s.len() - i,
{
    if i == s.len() {
    } else if token_at(s, i) is Some {
        assert(i <= i < s.len() && token_at(s, i) is Some);
    } else {
        lemma_first_token_from_some(s, i + 1);
        if exists|j: int| i <= j < s.len() && #[trigger] token_at(s, j) is Some {
            let j = choose|j: int| i <= j < s.len() && #[trigger] token_at(s, j) is Some;
            assert(i + 1 <= j < s.len() && token_at(s, j) is Some);
        }
    }
}

/// The right-to-left scan from `i` succeeds exactly when some position at
/// `i` or earlier carries a token.
pub proof fn lemma_last_token_from_some(s: Seq<char>, i: int)
    requires
        -1 <= i < s.len(),
    ensures
        (last_token_from(s, i) is Some) <==> (exists|j: int|
            0 <= j <= i && #[trigger] token_at(s, j) is Some),
    decreases i + 1,
{
    if i == -1 {
    } else if token_at(s, i) is Some {
        assert(0 <= i <= i && token_at(s, i) is Some);
    } else {
        lemma_last_token_from_some(s, i - 1);
        if exists|j: int| 0 <= j <= i && #[trigger] token_at(s, j) is Some {
            let j = choose|j: int| 0 <= j <= i && #[trigger] token_at(s, j) is Some;
            assert(0 <= j <= i - 1 && token_at(s, j) is Some);
        }
    }
}

pub proof fn lemma_first_digit_from_some(s: Seq<char>, i: int)
    requires
        0 <= i <= s.len(),
    ensures
        (first_digit_from(s, i) is Some) <==> (exists|j: int|
            i <= j < s.len() && #[trigger] digit_at(s, j) is Some),
    decreases s.len() - i,
{
    if i == s.len() {
    } else if digit_at(s, i) is Some {
        assert(i <= i < s.len() && digit_at(s, i) is Some);
    } else {
        lemma_first_digit_from_some(s, i + 1);
        if exists|j: int| i <= j < s.len() && #[trigger] digit_at(s, j) is Some {
            let j = choose|j: int| i <= j < s.len() && #[trigger] digit_at(s, j) is Some;
            assert(i + 1 <= j < s.len() && digit_at(s, j) is Some);
        }
    }
}

pub proof fn lemma_last_digit_from_some(s: Seq<char>, i: int)
    requires
        -1 <= i < s.len(),
    ensures
        (last_digit_from(s, i) is Some) <==> (exists|j: int|
            0 <= j <= i && #[trigger] digit_at(s, j) is Some),
    decreases i + 1,
{
    if i == -1 {
    } else if digit_at(s, i) is Some {
        assert(0 <= i <= i && digit_at(s, i) is Some);
    } else {
        lemma_last_digit_from_some(s, i - 1);
        if exists|j: int| 0 <= j <= i && #[trigger] digit_at(s, j) is Some {
            let j = choose|j: int| 0 <= j <= i && #[trigger] digit_at(s, j) is Some;
            assert(0 <= j <= i - 1 && digit_at(s, j) is Some);
        }
    }
}

/// A line has a word-aware value exactly when it holds a token.
pub proof fn lemma_line_value_some(s: Seq<char>)
    ensures
        (line_value(s) is Some) <==> has_token(s),
{
    lemma_first_token_from_some(s, 0);
    lemma_last_token_from_some(s, s.len() - 1);
}

/// A line has a character-only value exactly when it holds a literal digit.
pub proof fn lemma_line_value_chars_some(s: Seq<char>)
    ensures
        (line_value_chars(s) is Some) <==> has_digit(s),
{
    lemma_first_digit_from_some(s, 0);
    lemma_last_digit_from_some(s, s.len() - 1);
}

/// Every partial sum of line values is non-negative.
pub proof fn lemma_sum_values_from_nonneg(lines: Seq<Seq<char>>, k: int)
    ensures
        sum_values_from(lines, k) >= 0,
    decreases lines.len() - k,
{
    if k < 0 || k >= lines.len() {
    } else {
        lemma_sum_values_from_nonneg(lines, k + 1);
    }
}

pub proof fn lemma_sum_values_chars_from_nonneg(lines: Seq<Seq<char>>, k: int)
    ensures
        sum_values_chars_from(lines, k) >= 0,
    decreases lines.len() - k,
{
    if k < 0 || k >= lines.len() {
    } else {
        lemma_sum_values_chars_from_nonneg(lines, k + 1);
    }
}

/// Every non-empty line holds a word-aware token.
pub open spec fn lines_ok(lines: Seq<Seq<char>>) -> bool {
    forall|i: int| 0 <= i < lines.len() && #[trigger] lines[i].len() > 0 ==> has_token(lines[i])
}

/// Every non-empty line holds a literal digit.
pub open spec fn lines_ok_chars(lines: Seq<Seq<char>>) -> bool {
    forall|i: int| 0 <= i < lines.len() && #[trigger] lines[i].len() > 0 ==> has_digit(lines[i])
}

} // verus!
