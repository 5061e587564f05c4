use string_container::StringsNoIndex;

fn assert_strs_in(strs: &StringsNoIndex, input_strs: &Vec<String>) {
    let mut iter = strs.iter();
    for input_str in input_strs.iter().take(strs.len() as usize) {
        assert_eq!(iter.next().unwrap(), input_str);
    }
}

#[test]
fn strings_no_index_test() {
    let mut strs = StringsNoIndex::new();
    let input_strs: Vec<String> = (0..1024).map(|n| n.to_string()).collect();

    assert!(strs.is_empty());

    for (i, input_str) in input_strs.iter().enumerate() {
        strs.push(input_str);
        assert_eq!(strs.len() as usize, i + 1);

        assert_strs_in(&strs, &input_strs);
    }

    assert!(!strs.is_empty());

    let mut iter = strs.iter();
    for input_str in input_strs.iter() {
        assert_eq!(iter.next().unwrap(), input_str);
    }
    assert!(iter.next().is_none());
}

#[test]
fn test_adding_empty_strs() {
    let mut strs = StringsNoIndex::new();

    assert!(strs.is_empty());

    for i in 0..10 {
        strs.push("");
        assert_eq!(strs.len() as usize, i + 1);
    }

    assert!(!strs.is_empty());

    strs.push("12345");

    let mut iter = strs.iter();
    let mut i = 0;
    while let Some(string) = iter.next() {
        if i < 10 {
            assert_eq!(string, "");
        } else {
            assert_eq!(string, "12345");
        }
        i += 1;
    }
    assert_eq!(i, 11);
}

#[test]
fn strings_no_index_with_capacity_is_empty() {
    let strs = StringsNoIndex::with_capacity(64);
    assert!(strs.is_empty());
    assert_eq!(strs.len(), 0);
    assert_eq!(strs.strs_len(), 0);
}

#[test]
fn strings_no_index_byte_overhead() {
    let mut strs = StringsNoIndex::new();
    strs.push("ab");
    strs.push("c");
    // Two strings of three bytes in all, plus one delimiter each.
    assert_eq!(strs.strs_len(), 5);
    let mut iter = strs.iter();
    assert_eq!(iter.len(), 2);
    assert_eq!(iter.next(), Some("ab"));
    assert_eq!(iter.len(), 1);
    assert_eq!(iter.next(), Some("c"));
    assert_eq!(iter.next(), None);
}

#[test]
fn strings_no_index_clone_keeps_contents() {
    let mut strs = StringsNoIndex::new();
    strs.push("left");
    strs.push("right");
    strs.reserve_strs(100);
    strs.shrink_to_fit();
    let copy = strs.clone();
    assert_eq!(copy.len(), 2);
    let mut iter = copy.iter();
    assert_eq!(iter.next(), Some("left"));
    assert_eq!(iter.next(), Some("right"));
    assert_eq!(iter.next(), None);
}
