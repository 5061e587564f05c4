use string_container::TwoStrs;

fn assert_pair(s1: &str, s2: &str) {
    let two_strs = TwoStrs::new(s1, s2);
    assert_eq!(two_strs.get(), (s1, s2));
}

#[test]
fn two_strs_test() {
    assert_pair("", "");
    assert_pair("12", "");
    assert_pair("", "12");
    assert_pair("12", "12");
    assert_pair("12", "2333");
    assert_pair("acdbd3", "2333");
}

#[test]
fn test_null() {
    let two_strs = TwoStrs::new("1\023d\0", "\023e\0");
    assert_eq!(two_strs.get(), ("123d", "23e"));
}

#[test]
fn two_strs_display_string() {
    let two_strs = TwoStrs::new("ab", "cd");
    assert_eq!(two_strs.display_string(), "(ab, cd)");
    let two_strs = TwoStrs::new("", "");
    assert_eq!(two_strs.display_string(), "(, )");
}

#[test]
fn two_strs_unicode() {
    let two_strs = TwoStrs::new("héllo", "wörld✓");
    assert_eq!(two_strs.get(), ("héllo", "wörld✓"));
}
