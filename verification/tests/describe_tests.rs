use test_prioritization::describe::extract_description;

#[test]
fn description_from_test_case_label() {
    let text = "header\n# Test Case for login form\nbody line";
    assert_eq!(extract_description(text), "login form");
}

#[test]
fn description_from_testcase_label() {
    let text = "# Testcase for password reset\nrest";
    assert_eq!(extract_description(text), "password reset");
}

#[test]
fn description_from_long_label() {
    let text = "x\n# Test Case Description for search box\n";
    assert_eq!(extract_description(text), "search box");
}

#[test]
fn description_missing_is_empty() {
    let text = "nothing to see\nhere at all";
    assert_eq!(extract_description(text), "");
    assert_eq!(extract_description(""), "");
}

#[test]
fn description_trims_whitespace_and_asterisks() {
    let text = "# Test Case for   spaced out  \n";
    assert_eq!(extract_description(text), "spaced out");
    let text = "# Test Case for *bold title*\n";
    assert_eq!(extract_description(text), "bold title");
    let text = "# Test Case for *only left\n";
    assert_eq!(extract_description(text), "*only left");
}

#[test]
fn description_first_matching_line_wins() {
    let text = "# Test Case for first\n# Test Case for second\n";
    assert_eq!(extract_description(text), "first");
}
