use jjak::{find_marker, is_marker};

fn names(list: &[&str]) -> Vec<String> {
    list.iter().map(|name| name.to_string()).collect()
}

#[test]
fn marker_is_recognised() {
    assert!(is_marker("bit_pattern"));
}

#[test]
fn other_names_are_no_marker() {
    assert!(!is_marker(""));
    assert!(!is_marker("bit_patter"));
    assert!(!is_marker("bit_patterns"));
    assert!(!is_marker("Bit_pattern"));
    assert!(!is_marker("bit-pattern"));
    assert!(!is_marker("allow"));
}

#[test]
fn first_marker_is_found() {
    assert_eq!(find_marker(&names(&["allow", "bit_pattern", "bit_pattern"])), Some(1));
    assert_eq!(find_marker(&names(&["bit_pattern"])), Some(0));
}

#[test]
fn construct_without_marker_is_passed_by() {
    assert_eq!(find_marker(&names(&[])), None);
    assert_eq!(find_marker(&names(&["allow", "", "inline"])), None);
}
