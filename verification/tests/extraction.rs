use line_digits::extract::{
    digit_from_word, process_line, process_line_chars, try_process_line, try_process_line_chars,
};
use line_digits::pipeline::{
    process, process_chars, try_process, try_process_chars, ProcessError,
};

#[test]
fn test_example_p1() {
    let example_input = "1abc2\n            pqr3stu8vwx\n            a1b2c3d4e5f\n            treb7uchet";

    let output = process(example_input.lines().collect());

    assert_eq!(142, output);
}

#[test]
fn test_example_p2() {
    let example_input = "two1nine\n            eightwothree\n            abcone2threexyz\n            xtwone3four\n            4nineeightseven2\n            zoneight234\n            7pqrstsixteen";

    let output = process(example_input.lines().collect());

    assert_eq!(281, output);
}

#[test]
fn word_aware_scenarios() {
    assert_eq!(29, process_line("two1nine"));
    assert_eq!(13, process_line("abcone2threexyz"));
    assert_eq!(24, process_line("xtwone3four"));
    assert_eq!(42, process_line("4nineeightseven2"));
    assert_eq!(14, process_line("zoneight234"));
    assert_eq!(76, process_line("7pqrstsixteen"));
}

#[test]
fn word_aware_overlap() {
    // "eight", "two" and "three" share letters and must all be seen.
    assert_eq!(83, process_line("eightwothree"));
    assert_eq!(Some(83), try_process_line("eightwothree"));
}

#[test]
fn character_only_scenarios() {
    assert_eq!(12, process_line_chars("1abc2"));
    assert_eq!(38, process_line_chars("pqr3stu8vwx"));
    assert_eq!(15, process_line_chars("a1b2c3d4e5f"));
    // The same digit may serve as both first and last.
    assert_eq!(77, process_line_chars("treb7uchet"));
}

#[test]
fn character_only_document() {
    let example_input = "1abc2\npqr3stu8vwx\na1b2c3d4e5f\ntreb7uchet";

    let output = process_chars(example_input.lines().collect());

    assert_eq!(142, output);
}

#[test]
fn variants_agree_on_nonzero_digit_lines() {
    assert_eq!(process_line("12345"), process_line_chars("12345"));
    assert_eq!(15, process_line("12345"));
    assert_eq!(process_line("7"), process_line_chars("7"));
    assert_eq!(77, process_line("7"));
}

#[test]
fn zero_is_character_only() {
    // The character-only variant accepts a literal '0' as first or last digit.
    assert_eq!(Some(0), try_process_line_chars("0"));
    assert_eq!(Some(10), try_process_line_chars("10"));
    // The word-aware variant skips '0': there is no word for it either.
    assert_eq!(None, try_process_line("0"));
    assert_eq!(Some(11), try_process_line("10"));
}

#[test]
fn extraction_is_pure() {
    let line = "xtwone3four";
    let first_run = process_line(line);
    let second_run = process_line(line);
    assert_eq!(first_run, second_run);
    assert_eq!(try_process_line(line), try_process_line(line));
}

#[test]
fn digit_words() {
    assert_eq!(Some(1), digit_from_word("one"));
    assert_eq!(Some(2), digit_from_word("two"));
    assert_eq!(Some(3), digit_from_word("three"));
    assert_eq!(Some(4), digit_from_word("four"));
    assert_eq!(Some(5), digit_from_word("five"));
    assert_eq!(Some(6), digit_from_word("six"));
    assert_eq!(Some(7), digit_from_word("seven"));
    assert_eq!(Some(8), digit_from_word("eight"));
    assert_eq!(Some(9), digit_from_word("nine"));
    assert_eq!(None, digit_from_word("eighteen"));
    assert_eq!(None, digit_from_word("onefourfive"));
    assert_eq!(None, digit_from_word("zero"));
    assert_eq!(None, digit_from_word(""));
}

#[test]
fn empty_lines_contribute_nothing() {
    let with_blanks = "two1nine\n\n1abc2\n";
    assert_eq!(41, process(with_blanks.lines().collect()));
    assert_eq!(0, process(Vec::new()));
    assert_eq!(0, process(vec!["", ""]));
    assert_eq!(0, process_chars(Vec::new()));
    assert_eq!(0, process_chars(vec![""]));
}

#[test]
fn no_digit_reports_first_bad_line() {
    assert_eq!(
        Err(ProcessError::NoDigit { line: 0 }),
        try_process(vec!["abc"])
    );
    // Empty lines are skipped, never reported.
    assert_eq!(
        Err(ProcessError::NoDigit { line: 2 }),
        try_process(vec!["", "one1", "xyz", "pqr"])
    );
    // The character-only variant does not know the digit words.
    assert_eq!(
        Err(ProcessError::NoDigit { line: 1 }),
        try_process_chars(vec!["1abc2", "one"])
    );
    assert_eq!(Ok(23), try_process(vec!["two1three"]));
    assert_eq!(Ok(12), try_process_chars(vec!["1abc2"]));
}

#[test]
fn sum_too_large_for_u32() {
    // Enough lines worth 99 each to push the sum just past u32::MAX.
    let line_count = (u32::MAX as usize) / 99 + 2;
    let lines: Vec<&str> = vec!["99"; line_count];
    assert_eq!(Err(ProcessError::Overflow), try_process(lines));
    let lines: Vec<&str> = vec!["99"; line_count];
    assert_eq!(Err(ProcessError::Overflow), try_process_chars(lines));
}
