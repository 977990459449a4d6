use jjak::{
    parse_pattern_string, parse_variable, try_parse_pattern_string, CapturedVariables,
    PatternError,
};

fn names(table: &CapturedVariables) -> Vec<String> {
    table.vars.iter().map(|var| var.0.clone()).collect()
}

fn failure(pattern: &str) -> PatternError {
    match try_parse_pattern_string(pattern, 0) {
        Ok(_) => panic!("{:?} was accepted", pattern),
        Err(e) => e,
    }
}

#[test]
fn literal_parse_test() {
    let (captures, pattern) =
        parse_pattern_string("[op_1_var3233: x11x_10]0x[_op2__ : xxxx]11", 0);

    assert_eq!(pattern, "x11x100xxxxx11");
    assert_eq!(captures.vars[0].0, "op_1_var3233");
    assert_eq!(captures.vars[1].0, "_op2__");
    assert_eq!(captures.vars[0].1, 8..14);
    assert_eq!(captures.vars[1].1, 2..6);

    let (captures, pattern) = parse_pattern_string("[xxxx]00[x1x1][:x1x1]110xx[v:1111]", 0);

    assert_eq!(pattern, "xxxx00x1x1x1x1110xx1111");
    assert_eq!(captures.vars[0].0, "_0");
    assert_eq!(captures.vars[1].0, "_1");
    assert_eq!(captures.vars[2].0, "_2");
    assert_eq!(captures.vars[3].0, "v");

    assert_eq!(captures.vars[0].1, 19..23);
    assert_eq!(captures.vars[1].1, 13..17);
    assert_eq!(captures.vars[2].1, 9..13);
    assert_eq!(captures.vars[3].1, 0..4);

    let (captures, pattern) =
        parse_pattern_string("[1111111111xxxxxxxxxx0000000000xxxxxxxxxx]", 3);

    assert_eq!(pattern, "1111111111xxxxxxxxxx0000000000xxxxxxxxxx");
    assert_eq!(captures.vars[0].0, "_3");
    assert_eq!(captures.vars[0].1, 0..40);
}

#[test]
fn pattern_length_is_recorded() {
    let (captures, pattern) = parse_pattern_string("[a: x1] 0_0 [x]", 0);
    assert_eq!(pattern, "x100x");
    assert_eq!(captures.pat_len, 5);
    assert_eq!(captures.vars.len(), 2);
}

#[test]
fn canonical_length_counts_bits_outside_names() {
    // The name `x10` holds three bit characters that do not count.
    let (captures, pattern) = parse_pattern_string("[x10: 1x] _0", 0);
    assert_eq!(pattern, "1x0");
    assert_eq!(captures.pat_len, 3);
    assert_eq!(captures.vars[0].0, "x10");
}

#[test]
fn pattern_without_captures() {
    let (captures, pattern) = parse_pattern_string("10_x1 x", 7);
    assert_eq!(pattern, "10x1x");
    assert_eq!(captures.pat_len, 5);
    assert!(captures.vars.is_empty());
}

#[test]
fn empty_pattern_parses_to_nothing() {
    let (captures, pattern) = parse_pattern_string("", 0);
    assert_eq!(pattern, "");
    assert_eq!(captures.pat_len, 0);
    assert!(captures.vars.is_empty());
}

#[test]
fn ranges_lie_within_the_pattern() {
    let (captures, _) = parse_pattern_string("1[xx]0[a:1][x0x1]", 0);
    for var in &captures.vars {
        assert!(var.1.start < var.1.end);
        assert!(var.1.end <= captures.pat_len);
    }
    assert_eq!(captures.vars[0].1, 6..8);
    assert_eq!(captures.vars[1].1, 4..5);
    assert_eq!(captures.vars[2].1, 0..4);
}

#[test]
fn empty_capture_has_an_empty_range() {
    let (captures, pattern) = parse_pattern_string("1[]0", 0);
    assert_eq!(pattern, "10");
    assert_eq!(captures.vars[0].0, "_0");
    assert_eq!(captures.vars[0].1, 1..1);
}

#[test]
fn unnamed_captures_count_from_the_offset() {
    let (captures, _) = parse_pattern_string("[x][n:x][x][:x]", 9);
    assert_eq!(names(&captures), vec!["_9", "n", "_10", "_11"]);
}

#[test]
fn unnamed_numbers_have_all_their_digits() {
    let (captures, _) = parse_pattern_string("[x]", 1234567890);
    assert_eq!(captures.vars[0].0, "_1234567890");
    let (captures, _) = parse_pattern_string("[x]", 10);
    assert_eq!(captures.vars[0].0, "_10");
    let (captures, _) = parse_pattern_string("[x]", 0);
    assert_eq!(captures.vars[0].0, "_0");
}

#[test]
fn name_keeps_letters_digits_and_underscores_only() {
    let (captures, pattern) = parse_pattern_string("[a-b c[9_#Z: 1]", 0);
    assert_eq!(pattern, "1");
    assert_eq!(captures.vars[0].0, "abc9_Z");
}

#[test]
fn name_of_no_name_character_counts_as_absent() {
    let (captures, pattern) = parse_pattern_string("[ - : 1x]", 4);
    assert_eq!(pattern, "1x");
    assert_eq!(captures.vars[0].0, "_4");
    assert_eq!(captures.vars[0].1, 0..2);
}

#[test]
fn parse_variable_reads_a_name_and_moves_past_the_colon() {
    let mut chars = "op_1 : x1]0".chars();
    let name = parse_variable(&mut chars);
    assert_eq!(name, "op_1");
    assert_eq!(chars.as_str(), " x1]0");
}

#[test]
fn parse_variable_stays_before_a_closing_bracket() {
    let mut chars = "x1x0]1[n:0]".chars();
    let name = parse_variable(&mut chars);
    assert_eq!(name, "");
    assert_eq!(chars.as_str(), "x1x0]1[n:0]");
}

#[test]
fn parse_variable_at_an_empty_name() {
    let mut chars = ":x1]".chars();
    let name = parse_variable(&mut chars);
    assert_eq!(name, "");
    assert_eq!(chars.as_str(), "x1]");
}

#[test]
fn parse_variable_without_colon_or_bracket() {
    let mut chars = "ab 1".chars();
    let name = parse_variable(&mut chars);
    assert_eq!(name, "ab1");
    assert_eq!(chars.as_str(), "ab 1");
    let mut chars = "".chars();
    assert_eq!(parse_variable(&mut chars), "");
}

#[test]
fn try_parse_accepts_what_parse_accepts() {
    let (captures, pattern) = match try_parse_pattern_string("[f:1x]0", 0) {
        Ok(parsed) => parsed,
        Err(e) => panic!("refused: {:?}", e),
    };
    assert_eq!(pattern, "1x0");
    assert_eq!(captures.vars[0].0, "f");
    assert_eq!(captures.vars[0].1, 1..3);
}

#[test]
fn unsupported_character_is_refused() {
    assert_eq!(failure("x12"), PatternError::UnsupportedCharacter);
    assert_eq!(failure("x:1"), PatternError::UnsupportedCharacter);
    assert_eq!(failure("[a:1]b"), PatternError::UnsupportedCharacter);
    assert_eq!(failure("1X"), PatternError::UnsupportedCharacter);
}

#[test]
fn closing_bracket_without_capture_is_refused() {
    assert_eq!(failure("x]"), PatternError::NoCaptureToClose);
    assert_eq!(failure("[x]1]"), PatternError::NoCaptureToClose);
}

#[test]
fn nested_capture_is_refused() {
    assert_eq!(failure("[x[1]]"), PatternError::NestedCapture);
    assert_eq!(failure("[a:x[b:1]0]"), PatternError::NestedCapture);
}

#[test]
fn unclosed_capture_is_refused() {
    assert_eq!(failure("[x1"), PatternError::UnclosedCapture);
    assert_eq!(failure("1[a:"), PatternError::UnclosedCapture);
    assert_eq!(failure("[01"), PatternError::UnclosedCapture);
}

#[test]
fn first_fault_decides() {
    assert_eq!(failure("]2"), PatternError::NoCaptureToClose);
    assert_eq!(failure("2]"), PatternError::UnsupportedCharacter);
    assert_eq!(failure("[x[2"), PatternError::NestedCapture);
}
