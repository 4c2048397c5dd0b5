//! The filter / map / reduce pipeline over a whole document: skip empty
//! lines, extract a value from every other line, and add the values up.

use vstd::prelude::*;

use crate::extract::{process_line, process_line_chars, try_process_line, try_process_line_chars};
use crate::model::{
    first_bad_chars_from, first_bad_from, has_digit, has_token, lemma_first_bad_chars_from_ok,
    lemma_first_bad_from_ok, lemma_line_value_chars_some, lemma_line_value_some,
    lemma_sum_values_chars_from_nonneg, lemma_sum_values_from_nonneg, line_views, lines_ok,
    lines_ok_chars, sum_values, sum_values_chars, sum_values_chars_from, sum_values_from,
};

verus! {

/// Why a whole document could not be summed.
#[derive(Clone, Copy, Debug, PartialEq, Eq, Structural)]
pub enum ProcessError {
    /// The first non-empty line (zero-based index) holding no digit token.
    NoDigit { line: usize },
    /// The sum of the line values does not fit in a `u32`.
    Overflow,
}

/// Word-aware sum over a document, reporting the first bad line or an
/// overflowing sum instead of aborting.
pub fn try_process(input_lines: Vec<&str>) -> (r: Result<u32, ProcessError>)
    ensures
        ({
            let vs = line_views(input_lines@);
            match r {
                Ok(v) => lines_ok(vs) && sum_values(vs) <= u32::MAX && v as int == sum_values(
                    vs,
                ),
                Err(ProcessError::NoDigit { line }) => !lines_ok(vs) && line as int
                    == first_bad_from(vs, 0),
                Err(ProcessError::Overflow) => lines_ok(vs) && sum_values(vs) > u32::MAX,
            }
        }),
{
    let ghost vs = line_views(input_lines@);
    let n = input_lines.len();

    // First pass: find the first non-empty line without a token.
    let mut k: usize = 0;
    while k < n
        invariant
            vs == line_views(input_lines@),
            n == input_lines@.len(),
            k <= n,
            first_bad_from(vs, 0) == first_bad_from(vs, k as int),
        decreases n - k,
    {
        let line = input_lines[k];
        proof {
            assert(vs[k as int] == input_lines@[k as int]@);
        }
        if !line.is_empty() {
            let v = try_process_line(line);
            proof {
                lemma_line_value_some(line@);
            }
            if v.is_none() {
                proof {
                    assert(vs[k as int].len() > 0 && !has_token(vs[k as int]));
                    assert(first_bad_from(vs, k as int) == k);
                    assert(!lines_ok(vs));
                }
                return Err(ProcessError::NoDigit { line: k });
            }
        }
        k += 1;
    }
    proof {
        lemma_first_bad_from_ok(vs, 0);
        assert(lines_ok(vs));
    }

    // Second pass: every line is fine; add the values up, watching the sum.
    let mut acc: u32 = 0;
    let mut k2: usize = 0;
    while k2 < n
        invariant
            vs == line_views(input_lines@),
            n == input_lines@.len(),
            k2 <= n,
            lines_ok(vs),
            acc as int + sum_values_from(vs, k2 as int) == sum_values(vs),
        decreases n - k2,
    {
        let line = input_lines[k2];
        proof {
            assert(vs[k2 as int] == input_lines@[k2 as int]@);
        }
        if !line.is_empty() {
            proof {
                assert(vs[k2 as int].len() > 0);
                assert(has_token(vs[k2 as int]));
            }
            let v = process_line(line);
            proof {
                lemma_sum_values_from_nonneg(vs, k2 as int + 1);
            }
            if v > u32::MAX - acc {
                return Err(ProcessError::Overflow);
            }
            acc = acc + v;
        }
        k2 += 1;
    }
    Ok(acc)
}

/// Character-only sum over a document, reporting the first bad line or an
/// overflowing sum instead of aborting.
pub fn try_process_chars(input_lines: Vec<&str>) -> (r: Result<u32, ProcessError>)
    ensures
        ({
            let vs = line_views(input_lines@);
            match r {
                Ok(v) => lines_ok_chars(vs) && sum_values_chars(vs) <= u32::MAX && v as int
                    == sum_values_chars(vs),
                Err(ProcessError::NoDigit { line }) => !lines_ok_chars(vs) && line as int
                    == first_bad_chars_from(vs, 0),
                Err(ProcessError::Overflow) => lines_ok_chars(vs) && sum_values_chars(vs)
                    > u32::MAX,
            }
        }),
{
    let ghost vs = line_views(input_lines@);
    let n = input_lines.len();

    let mut k: usize = 0;
    while k < n
        invariant
            vs == line_views(input_lines@),
            n == input_lines@.len(),
            k <= n,
            first_bad_chars_from(vs, 0) == first_bad_chars_from(vs, k as int),
        decreases n - k,
    {
        let line = input_lines[k];
        proof {
            assert(vs[k as int] == input_lines@[k as int]@);
        }
        if !line.is_empty() {
            let v = try_process_line_chars(line);
            proof {
                lemma_line_value_chars_some(line@);
            }
            if v.is_none() {
                proof {
                    assert(vs[k as int].len() > 0 && !has_digit(vs[k as int]));
                    assert(first_bad_chars_from(vs, k as int) == k);
                    assert(!lines_ok_chars(vs));
                }
                return Err(ProcessError::NoDigit { line: k });
            }
        }
        k += 1;
    }
    proof {
        lemma_first_bad_chars_from_ok(vs, 0);
        assert(lines_ok_chars(vs));
    }

    let mut acc: u32 = 0;
    let mut k2: usize = 0;
    while k2 < n
        invariant
            vs == line_views(input_lines@),
            n == input_lines@.len(),
            k2 <= n,
            lines_ok_chars(vs),
            acc as int + sum_values_chars_from(vs, k2 as int) == sum_values_chars(vs),
        decreases n - k2,
    {
        let line = input_lines[k2];
        proof {
            assert(vs[k2 as int] == input_lines@[k2 as int]@);
        }
        if !line.is_empty() {
            proof {
                assert(vs[k2 as int].len() > 0);
                assert(has_digit(vs[k2 as int]));
            }
            let v = process_line_chars(line);
            proof {
                lemma_sum_values_chars_from_nonneg(vs, k2 as int + 1);
            }
            if v > u32::MAX - acc {
                return Err(ProcessError::Overflow);
            }
            acc = acc + v;
        }
        k2 += 1;
    }
    Ok(acc)
}

/// Word-aware sum over a document whose non-empty lines are known to hold a
/// token and whose sum is known to fit.
pub fn process(input_lines: Vec<&str>) -> (r: u32)
    requires
        lines_ok(line_views(input_lines@)),
        sum_values(line_views(input_lines@)) <= u32::MAX,
    ensures
        r as int == sum_values(line_views(input_lines@)),
{
    let r = try_process(input_lines);
    match r {
        Ok(v) => v,
        Err(ProcessError::NoDigit { .. }) => {
            proof {
                assert(false);
            }
            0
        },
        Err(ProcessError::Overflow) => {
            proof {
                assert(false);
            }
            0
        },
    }
}

/// Character-only sum over a document whose non-empty lines are known to
/// hold a digit and whose sum is known to fit.
pub fn process_chars(input_lines: Vec<&str>) -> (r: u32)
    requires
        lines_ok_chars(line_views(input_lines@)),
        sum_values_chars(line_views(input_lines@)) <= u32::MAX,
    ensures
        r as int == sum_values_chars(line_views(input_lines@)),
{
    let r = try_process_chars(input_lines);
    match r {
        Ok(v) => v,
        Err(ProcessError::NoDigit { .. }) => {
            proof {
                assert(false);
            }
            0
        },
        Err(ProcessError::Overflow) => {
            proof {
                assert(false);
            }
            0
        },
    }
}

} // verus!
