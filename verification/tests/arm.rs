use jjak::{
    compile_arm, gen_mask, rewrite_match, variable_size, write_variables, ArmPattern,
    CapturedVariables, CompiledArm, CompiledPosition, IntWidth, PatternError, Position, Subject,
};

fn text(s: &str) -> Option<String> {
    Some(s.to_string())
}

fn compiled(pattern: &ArmPattern, subject: Subject) -> CompiledArm {
    match compile_arm(pattern, subject) {
        Ok(arm) => arm,
        Err(e) => panic!("refused: {:?}", e),
    }
}

fn extract(arm: &CompiledArm, name: &str, subjects: &[u64]) -> u64 {
    let binding = arm
        .bindings
        .iter()
        .rev()
        .find(|binding| binding.name == name)
        .unwrap();
    let subject = match binding.source {
        Position::Whole => subjects[0],
        Position::Element(i) => subjects[i],
    };
    assert!(binding.width.bits() >= 1);
    (((subject as u128) >> binding.shift) & binding.mask) as u64
}

#[test]
fn mask_has_the_low_bits_set() {
    assert_eq!(gen_mask(&(0..0)), 0);
    assert_eq!(gen_mask(&(5..5)), 0);
    assert_eq!(gen_mask(&(0..1)), 1);
    assert_eq!(gen_mask(&(3..7)), 0b1111);
    assert_eq!(gen_mask(&(8..14)), 63);
    assert_eq!(gen_mask(&(0..8)), 255);
    assert_eq!(gen_mask(&(10..74)), u64::MAX as u128);
    assert_eq!(gen_mask(&(1..128)), u128::MAX >> 1);
    assert_eq!(gen_mask(&(0..128)), u128::MAX);
    assert_eq!(gen_mask(&(72..200)), u128::MAX);
}

#[test]
fn width_is_the_narrowest_that_holds_the_field() {
    assert_eq!(variable_size(0), IntWidth::U8);
    assert_eq!(variable_size(1), IntWidth::U8);
    assert_eq!(variable_size(8), IntWidth::U8);
    assert_eq!(variable_size(9), IntWidth::U16);
    assert_eq!(variable_size(16), IntWidth::U16);
    assert_eq!(variable_size(17), IntWidth::U32);
    assert_eq!(variable_size(32), IntWidth::U32);
    assert_eq!(variable_size(33), IntWidth::U64);
    assert_eq!(variable_size(64), IntWidth::U64);
    assert_eq!(variable_size(65), IntWidth::U128);
    assert_eq!(variable_size(128), IntWidth::U128);
}

#[test]
fn widths_have_their_bits() {
    assert_eq!(IntWidth::U8.bits(), 8);
    assert_eq!(IntWidth::U16.bits(), 16);
    assert_eq!(IntWidth::U32.bits(), 32);
    assert_eq!(IntWidth::U64.bits(), 64);
    assert_eq!(IntWidth::U128.bits(), 128);
}

#[test]
fn capture_of_129_bits_is_too_wide() {
    let table = CapturedVariables {
        vars: vec![("wide".to_string(), 0..129)],
        pat_len: 129,
    };
    let positions = vec![CompiledPosition {
        position: Position::Whole,
        captures: table,
        alternatives: vec![0],
    }];
    assert_eq!(
        write_variables(&positions).err(),
        Some(PatternError::TooWide)
    );
}

#[test]
fn capture_of_128_bits_is_bound() {
    let table = CapturedVariables {
        vars: vec![("wide".to_string(), 2..130)],
        pat_len: 130,
    };
    let positions = vec![CompiledPosition {
        position: Position::Element(1),
        captures: table,
        alternatives: vec![0],
    }];
    let bindings = write_variables(&positions).unwrap();
    assert_eq!(bindings.len(), 1);
    assert_eq!(bindings[0].name, "wide");
    assert_eq!(bindings[0].source, Position::Element(1));
    assert_eq!(bindings[0].shift, 2);
    assert_eq!(bindings[0].mask, u128::MAX);
    assert_eq!(bindings[0].width, IntWidth::U128);
}

#[test]
fn branch_with_a_wide_capture_is_refused() {
    let pattern = ArmPattern::Literal(format!("[{}]1", "0".repeat(129)));
    assert_eq!(
        compile_arm(&pattern, Subject::Single).err(),
        Some(PatternError::TooWide)
    );
}

#[test]
fn bindings_follow_the_captures() {
    let arm = compiled(
        &ArmPattern::Literal("[op: x11x_10]0x[xxxx_xxxxx]11".to_string()),
        Subject::Single,
    );
    assert_eq!(arm.positions.len(), 1);
    assert_eq!(arm.positions[0].position, Position::Whole);
    assert_eq!(arm.bindings.len(), 2);
    assert_eq!(arm.bindings[0].name, "op");
    assert_eq!(arm.bindings[0].source, Position::Whole);
    assert_eq!(arm.bindings[0].shift, 13);
    assert_eq!(arm.bindings[0].mask, 63);
    assert_eq!(arm.bindings[0].width, IntWidth::U8);
    assert_eq!(arm.bindings[1].name, "_0");
    assert_eq!(arm.bindings[1].shift, 2);
    assert_eq!(arm.bindings[1].mask, 511);
    assert_eq!(arm.bindings[1].width, IntWidth::U16);
}

#[test]
fn tuple_branch_matches_and_extracts() {
    let pattern = ArmPattern::Tuple(vec![text("[:xx]xx_11[11]"), text("[xx]_xx11[var1: 00]")]);
    let arm = compiled(&pattern, Subject::Tuple(2));
    let a: u64 = 0b0000_1111;
    let b: u64 = 0b1111_1100;

    assert_eq!(arm.positions.len(), 2);
    assert_eq!(arm.positions[0].position, Position::Element(0));
    assert_eq!(arm.positions[1].position, Position::Element(1));
    assert!(arm.positions[0].alternatives.contains(&a));
    assert!(arm.positions[1].alternatives.contains(&b));
    assert!(!arm.positions[0].alternatives.contains(&b));

    let found: Vec<&str> = arm.bindings.iter().map(|b| b.name.as_str()).collect();
    assert_eq!(found, vec!["_0", "_1", "_2", "var1"]);
    assert_eq!(extract(&arm, "_0", &[a, b]), 0);
    assert_eq!(extract(&arm, "_1", &[a, b]), 3);
    assert_eq!(extract(&arm, "_2", &[a, b]), 3);
    assert_eq!(extract(&arm, "var1", &[a, b]), 0);
}

#[test]
fn unnamed_captures_are_numbered_by_all_captures_before() {
    let pattern = ArmPattern::Tuple(vec![text("[a:x][b:x]"), None, text("[x][c:1][x]")]);
    let arm = compiled(&pattern, Subject::Tuple(3));
    let found: Vec<&str> = arm.bindings.iter().map(|b| b.name.as_str()).collect();
    assert_eq!(found, vec!["a", "b", "_2", "c", "_3"]);
    assert_eq!(arm.bindings[2].source, Position::Element(2));
    assert_eq!(arm.positions.len(), 2);
    assert_eq!(arm.positions[1].position, Position::Element(2));
}

#[test]
fn elements_beyond_the_subject_are_left_alone() {
    let pattern = ArmPattern::Tuple(vec![text("[x]1"), text("[x]0"), text("not a pattern")]);
    let arm = compiled(&pattern, Subject::Tuple(2));
    assert_eq!(arm.positions.len(), 2);
    assert_eq!(arm.bindings.len(), 2);
    let arm = compiled(&pattern, Subject::Tuple(1));
    assert_eq!(arm.positions.len(), 1);
    assert_eq!(arm.positions[0].alternatives, vec![1, 3]);
    let arm = compiled(&pattern, Subject::Tuple(0));
    assert!(arm.positions.is_empty());
    assert!(arm.bindings.is_empty());
}

#[test]
fn subject_longer_than_the_pattern() {
    let pattern = ArmPattern::Tuple(vec![text("[x]1")]);
    let arm = compiled(&pattern, Subject::Tuple(4));
    assert_eq!(arm.positions.len(), 1);
    assert_eq!(arm.bindings.len(), 1);
}

#[test]
fn tuple_pattern_against_another_subject_is_left_alone() {
    let pattern = ArmPattern::Tuple(vec![text("[x]1"), text("oops")]);
    let arm = compiled(&pattern, Subject::Single);
    assert!(arm.positions.is_empty());
    assert!(arm.bindings.is_empty());
}

#[test]
fn other_patterns_are_left_alone() {
    let arm = compiled(&ArmPattern::Other, Subject::Tuple(2));
    assert!(arm.positions.is_empty());
    assert!(arm.bindings.is_empty());
}

#[test]
fn literal_against_a_tuple_takes_the_whole_subject() {
    let arm = compiled(&ArmPattern::Literal("[x]".to_string()), Subject::Tuple(2));
    assert_eq!(arm.positions[0].position, Position::Whole);
    assert_eq!(arm.bindings[0].source, Position::Whole);
}

#[test]
fn faulty_element_refuses_the_branch() {
    let pattern = ArmPattern::Tuple(vec![text("[x]1"), text("[x"), text("2")]);
    assert_eq!(
        compile_arm(&pattern, Subject::Tuple(3)).err(),
        Some(PatternError::UnclosedCapture)
    );
    assert!(compile_arm(&pattern, Subject::Tuple(1)).is_ok());
}

#[test]
fn numbering_restarts_in_each_branch() {
    let arms = vec![
        ArmPattern::Literal("[x][x]1".to_string()),
        ArmPattern::Other,
        ArmPattern::Literal("0[x]".to_string()),
    ];
    let list = rewrite_match(&arms, Subject::Single).unwrap();
    assert_eq!(list.len(), 3);
    assert_eq!(list[0].bindings[0].name, "_0");
    assert_eq!(list[0].bindings[1].name, "_1");
    assert!(list[1].bindings.is_empty());
    assert_eq!(list[2].bindings[0].name, "_0");
    assert_eq!(list[2].positions[0].alternatives, vec![0, 1]);
}

#[test]
fn first_faulty_branch_decides() {
    let arms = vec![
        ArmPattern::Literal("1".to_string()),
        ArmPattern::Literal("1]".to_string()),
        ArmPattern::Literal("[".to_string()),
    ];
    assert_eq!(
        rewrite_match(&arms, Subject::Single).err(),
        Some(PatternError::NoCaptureToClose)
    );
}

#[test]
fn no_branch_gives_no_result() {
    let list = rewrite_match(&Vec::new(), Subject::Single).unwrap();
    assert!(list.is_empty());
}
