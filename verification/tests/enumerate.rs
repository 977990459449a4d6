use jjak::{
    make_replacer, parse_binary, process_pattern_string, replace_x_with_replacer, PatternError,
};

fn all_assignments(pattern: &str) -> Vec<Vec<u8>> {
    let mut replacer = make_replacer(pattern);
    let mut found = Vec::new();
    while let Some(cells) = replacer.next() {
        found.push(cells);
    }
    assert_eq!(replacer.next(), None);
    found
}

fn alternatives(pattern: &str) -> Vec<u64> {
    match process_pattern_string(pattern, 0) {
        Ok(compiled) => compiled.1,
        Err(e) => panic!("refused: {:?}", e),
    }
}

#[test]
fn assignments_come_in_counting_order() {
    assert_eq!(
        all_assignments("x1x"),
        vec![vec![0, 0], vec![1, 0], vec![0, 1], vec![1, 1]]
    );
}

#[test]
fn three_wildcards_give_eight_assignments() {
    let found = all_assignments("xx0x");
    assert_eq!(found.len(), 8);
    assert_eq!(found[0], vec![0, 0, 0]);
    assert_eq!(found[1], vec![1, 0, 0]);
    assert_eq!(found[2], vec![0, 1, 0]);
    assert_eq!(found[3], vec![1, 1, 0]);
    assert_eq!(found[4], vec![0, 0, 1]);
    assert_eq!(found[7], vec![1, 1, 1]);
    for (i, a) in found.iter().enumerate() {
        for b in &found[..i] {
            assert_ne!(a, b);
        }
    }
}

#[test]
fn no_wildcard_gives_one_empty_assignment() {
    assert_eq!(all_assignments("1010"), vec![Vec::<u8>::new()]);
    assert_eq!(all_assignments(""), vec![Vec::<u8>::new()]);
}

#[test]
fn exhausted_enumerator_stays_exhausted() {
    let mut replacer = make_replacer("x");
    assert_eq!(replacer.next(), Some(vec![0]));
    assert_eq!(replacer.next(), Some(vec![1]));
    assert_eq!(replacer.next(), None);
    assert_eq!(replacer.next(), None);
}

#[test]
fn wildcards_are_replaced_from_the_left() {
    assert_eq!(replace_x_with_replacer("x1x0", vec![1, 0]), "1100");
    assert_eq!(replace_x_with_replacer("x1x0", vec![0, 1]), "0110");
    assert_eq!(replace_x_with_replacer("1001", vec![]), "1001");
}

#[test]
fn wildcards_without_a_cell_stay() {
    assert_eq!(replace_x_with_replacer("xxx", vec![1]), "1xx");
    assert_eq!(replace_x_with_replacer("x0x", vec![]), "x0x");
}

#[test]
fn cells_without_a_wildcard_are_ignored() {
    assert_eq!(replace_x_with_replacer("0x", vec![1, 1, 0]), "01");
}

#[test]
fn a_cell_is_written_as_its_numeral() {
    assert_eq!(replace_x_with_replacer("x-x", vec![7, 255]), "7-255");
}

#[test]
fn binary_numerals_are_read() {
    assert_eq!(parse_binary("0"), Some(0));
    assert_eq!(parse_binary("1"), Some(1));
    assert_eq!(parse_binary("1011"), Some(11));
    assert_eq!(parse_binary("0001011"), Some(11));
    let ones = "1".repeat(64);
    assert_eq!(parse_binary(&ones), Some(u64::MAX));
    let padded = format!("{}{}", "0".repeat(40), ones);
    assert_eq!(parse_binary(&padded), Some(u64::MAX));
}

#[test]
fn what_is_no_binary_numeral_of_64_bits_is_not_read() {
    assert_eq!(parse_binary(""), None);
    assert_eq!(parse_binary("10x1"), None);
    assert_eq!(parse_binary("2"), None);
    assert_eq!(parse_binary("+1"), None);
    let wide = format!("1{}", "0".repeat(64));
    assert_eq!(parse_binary(&wide), None);
    let ones = "1".repeat(65);
    assert_eq!(parse_binary(&ones), None);
}

#[test]
fn alternatives_follow_the_assignments() {
    assert_eq!(alternatives("x1x"), vec![2, 6, 3, 7]);
    assert_eq!(alternatives("[a:x]0[x]1"), vec![1, 9, 3, 11]);
}

#[test]
fn pattern_without_wildcard_has_one_alternative() {
    assert_eq!(alternatives("1_0[1]1"), vec![11]);
}

#[test]
fn alternatives_are_all_the_matching_values() {
    let found = alternatives("x0x1_x");
    assert_eq!(found.len(), 8);
    for value in 0u64..32 {
        let matches = value & 0b01010 == 0b00010;
        assert_eq!(found.contains(&value), matches);
    }
    for (i, a) in found.iter().enumerate() {
        assert!(!found[..i].contains(a));
    }
}

#[test]
fn compiled_pattern_keeps_its_capture_table() {
    let (captures, found) = match process_pattern_string("[xx]1[f:0]", 5) {
        Ok(compiled) => compiled,
        Err(e) => panic!("refused: {:?}", e),
    };
    assert_eq!(captures.pat_len, 4);
    assert_eq!(captures.vars[0].0, "_5");
    assert_eq!(captures.vars[0].1, 2..4);
    assert_eq!(captures.vars[1].0, "f");
    assert_eq!(captures.vars[1].1, 0..1);
    assert_eq!(found, vec![2, 10, 6, 14]);
}

#[test]
fn sixty_four_bits_are_compiled() {
    let pattern = "1".repeat(64);
    assert_eq!(alternatives(&pattern), vec![u64::MAX]);
    let padded = format!("000{}x", "1".repeat(63));
    assert_eq!(alternatives(&padded), vec![u64::MAX - 1, u64::MAX]);
}

#[test]
fn pattern_without_bits_has_no_alternative() {
    assert_eq!(
        process_pattern_string("", 0).err(),
        Some(PatternError::InvalidAlternative)
    );
    assert_eq!(
        process_pattern_string(" _[]", 0).err(),
        Some(PatternError::InvalidAlternative)
    );
}

#[test]
fn pattern_beyond_64_bits_has_no_alternative() {
    let wide = format!("1{}", "0".repeat(64));
    assert_eq!(
        process_pattern_string(&wide, 0).err(),
        Some(PatternError::InvalidAlternative)
    );
    let wild = format!("x{}", "0".repeat(64));
    assert_eq!(
        process_pattern_string(&wild, 0).err(),
        Some(PatternError::InvalidAlternative)
    );
}

#[test]
fn grammar_faults_come_before_width_faults() {
    let wide = format!("1{}]", "0".repeat(64));
    assert_eq!(
        process_pattern_string(&wide, 0).err(),
        Some(PatternError::NoCaptureToClose)
    );
}
