//! General properties of the extraction model, stated and proved once.

use vstd::prelude::*;

use crate::model::{
    digit_at, first_digit_from, first_token_from, has_digit, has_token, is_digit,
    is_nonzero_digit, last_digit_from, last_token_from, lemma_first_token_from_bounds,
    lemma_last_token_from_bounds, lemma_line_value_chars_some, lemma_line_value_some, line_value,
    line_value_chars, lines_ok, lines_ok_chars, sum_values, sum_values_chars,
    sum_values_chars_from, sum_values_from, token_at,
};

verus! {

proof fn lemma_first_scans_agree(s: Seq<char>, i: int)
    requires
        forall|j: int| 0 <= j < s.len() ==> #[trigger] token_at(s, j) == digit_at(s, j),
    ensures
        first_token_from(s, i) == first_digit_from(s, i),
    decreases s.len() - i,
{
    if i < 0 || i >= s.len() {
    } else {
        assert(token_at(s, i) == digit_at(s, i));
        lemma_first_scans_agree(s, i + 1);
    }
}

proof fn lemma_last_scans_agree(s: Seq<char>, i: int)
    requires
        forall|j: int| 0 <= j < s.len() ==> #[trigger] token_at(s, j) == digit_at(s, j),
    ensures
        last_token_from(s, i) == last_digit_from(s, i),
    decreases i + 1,
{
    if i < 0 || i >= s.len() {
    } else {
        assert(token_at(s, i) == digit_at(s, i));
        lemma_last_scans_agree(s, i - 1);
    }
}

/// On a line made of digits `1..=9` alone, the word-aware and the
/// character-only variant agree, and both succeed.
pub proof fn lemma_variants_agree_on_nonzero_digits(s: Seq<char>)
    requires
        s.len() > 0,
        forall|i: int| 0 <= i < s.len() ==> is_nonzero_digit(#[trigger] s[i]),
    ensures
        line_value(s) == line_value_chars(s),
        line_value(s) is Some,
{
    assert forall|j: int| 0 <= j < s.len() implies #[trigger] token_at(s, j) == digit_at(
        s,
        j,
    ) by {
        assert(is_nonzero_digit(s[j]));
    }
    lemma_first_scans_agree(s, 0);
    lemma_last_scans_agree(s, s.len() - 1);
    assert(token_at(s, 0) is Some);
    lemma_line_value_some(s);
}

/// The character-only variant succeeds on any non-empty line made of
/// digits, a `'0'` in first or last position included.
pub proof fn lemma_chars_accept_digit_lines(s: Seq<char>)
    requires
        s.len() > 0,
        forall|i: int| 0 <= i < s.len() ==> is_digit(#[trigger] s[i]),
    ensures
        line_value_chars(s) is Some,
{
    assert(is_digit(s[0]));
    assert(digit_at(s, 0) is Some);
    lemma_line_value_chars_some(s);
}

/// Extraction is a pure function of the line: any two results that meet the
/// extraction contract for the same character sequence are the same result.
pub proof fn lemma_extraction_deterministic(s: Seq<char>, r1: Option<u32>, r2: Option<u32>)
    requires
        r1 == line_value(s),
        r2 == line_value(s),
    ensures
        r1 == r2,
{
}

/// The word-aware variant never yields `0` as the first or the last digit.
pub proof fn lemma_word_aware_never_zero(s: Seq<char>)
    ensures
        first_token_from(s, 0) != Some(0u32),
        last_token_from(s, s.len() - 1) != Some(0u32),
{
    lemma_first_token_from_bounds(s, 0);
    lemma_last_token_from_bounds(s, s.len() - 1);
}

proof fn lemma_sum_insert_tail(lines: Seq<Seq<char>>, i: int, k: int)
    requires
        0 <= i <= lines.len(),
        i < k <= lines.len() + 1,
    ensures
        sum_values_from(lines.insert(i, Seq::<char>::empty()), k) == sum_values_from(
            lines,
            k - 1,
        ),
        sum_values_chars_from(lines.insert(i, Seq::<char>::empty()), k) == sum_values_chars_from(
            lines,
            k - 1,
        ),
    decreases lines.len() + 1 - k,
{
    lines.insert_ensures(i, Seq::<char>::empty());
    if k <= lines.len() {
        assert(lines.insert(i, Seq::<char>::empty())[k] == lines[k - 1]);
        lemma_sum_insert_tail(lines, i, k + 1);
    }
}

proof fn lemma_sum_insert_head(lines: Seq<Seq<char>>, i: int, k: int)
    requires
        0 <= k <= i <= lines.len(),
    ensures
        sum_values_from(lines.insert(i, Seq::<char>::empty()), k) == sum_values_from(lines, k),
        sum_values_chars_from(lines.insert(i, Seq::<char>::empty()), k) == sum_values_chars_from(
            lines,
            k,
        ),
    decreases i - k,
{
    lines.insert_ensures(i, Seq::<char>::empty());
    if k == i {
        lemma_sum_insert_tail(lines, i, i + 1);
        assert(lines.insert(i, Seq::<char>::empty())[i].len() == 0);
    } else {
        assert(lines.insert(i, Seq::<char>::empty())[k] == lines[k]);
        lemma_sum_insert_head(lines, i, k + 1);
    }
}

/// An empty line inserted anywhere in a document contributes nothing to
/// either sum and never makes a well-formed document fail: validity and both
/// sums are unchanged.
pub proof fn lemma_empty_line_ignored(lines: Seq<Seq<char>>, i: int)
    requires
        0 <= i <= lines.len(),
    ensures
        sum_values(lines.insert(i, Seq::<char>::empty())) == sum_values(lines),
        sum_values_chars(lines.insert(i, Seq::<char>::empty())) == sum_values_chars(lines),
        lines_ok(lines.insert(i, Seq::<char>::empty())) == lines_ok(lines),
        lines_ok_chars(lines.insert(i, Seq::<char>::empty())) == lines_ok_chars(lines),
{
    let ins = lines.insert(i, Seq::<char>::empty());
    lines.insert_ensures(i, Seq::<char>::empty());
    lemma_sum_insert_head(lines, i, 0);
    if lines_ok(lines) {
        assert forall|j: int| 0 <= j < ins.len() && #[trigger] ins[j].len() > 0 implies has_token(
            ins[j],
        ) by {
            if j < i {
                assert(ins[j] == lines[j]);
            } else if j > i {
                assert(ins[j] == lines[j - 1]);
            }
        }
    }
    if lines_ok(ins) {
        assert forall|j: int| 0 <= j < lines.len() && #[trigger] lines[j].len() > 0 implies
            has_token(lines[j]) by {
            if j < i {
                assert(ins[j] == lines[j]);
                assert(ins[j].len() > 0);
            } else {
                assert(ins[j + 1] == lines[j]);
                assert(ins[j + 1].len() > 0);
            }
        }
    }
    if lines_ok_chars(lines) {
        assert forall|j: int| 0 <= j < ins.len() && #[trigger] ins[j].len() > 0 implies has_digit(
            ins[j],
        ) by {
            if j < i {
                assert(ins[j] == lines[j]);
            } else if j > i {
                assert(ins[j] == lines[j - 1]);
            }
        }
    }
    if lines_ok_chars(ins) {
        assert forall|j: int| 0 <= j < lines.len() && #[trigger] lines[j].len() > 0 implies
            has_digit(lines[j]) by {
            if j < i {
                assert(ins[j] == lines[j]);
                assert(ins[j].len() > 0);
            } else {
                assert(ins[j + 1] == lines[j]);
                assert(ins[j + 1].len() > 0);
            }
        }
    }
}

} // verus!

