use string_container::Strings;

fn assert_strs_in(strs: &Strings, input_strs: &Vec<String>) {
    let mut iter = strs.iter();
    for input_str in input_strs.iter().take(strs.len() as usize) {
        assert_eq!(iter.next().unwrap(), input_str);
    }
}

#[test]
fn strings_test() {
    let mut strs = Strings::new();
    let input_strs: Vec<String> = (0..1024).map(|n| n.to_string()).collect();

    assert!(strs.is_empty());

    for (i, input_str) in input_strs.iter().enumerate() {
        strs.push(input_str);
        assert_eq!(strs.len() as usize, i + 1);

        assert_strs_in(&strs, &input_strs);
    }

    {
        let mut iter = strs.iter();
        for input_str in input_strs.iter() {
            assert_eq!(iter.next().unwrap(), input_str);
        }
        assert!(iter.next().is_none());
    }

    for (i, input_str) in input_strs.iter().enumerate() {
        assert_eq!(strs.get(i.try_into().unwrap()).unwrap(), input_str);
    }

    let input_str = input_strs.concat();

    assert_eq!(strs.as_str(), input_str);
    assert_eq!(strs.into_str(), input_str);
}

#[test]
fn strings_get_out_of_range() {
    let mut strs = Strings::new();
    strs.push("a");
    strs.push("");
    strs.push("bc");
    assert_eq!(strs.get(0), Some("a"));
    assert_eq!(strs.get(1), Some(""));
    assert_eq!(strs.get(2), Some("bc"));
    assert_eq!(strs.get(3), None);
    assert_eq!(strs.get(u32::MAX), None);
}

#[test]
fn strings_all_empty() {
    let mut strs = Strings::new();
    for _ in 0..16 {
        strs.push("");
    }
    assert_eq!(strs.len(), 16);
    assert_eq!(strs.as_str(), "");
    assert_eq!(strs.strs_len(), 0);
    for i in 0..16 {
        assert_eq!(strs.get(i).unwrap(), "");
    }
}

#[test]
fn strings_unicode_contents() {
    let mut strs = Strings::new();
    strs.push("héllo");
    strs.push("wörld✓");
    strs.push("日本語");
    assert_eq!(strs.get(0).unwrap(), "héllo");
    assert_eq!(strs.get(1).unwrap(), "wörld✓");
    assert_eq!(strs.get(2).unwrap(), "日本語");
    assert_eq!(strs.as_str(), "héllowörld✓日本語");
}

#[test]
fn strings_independent_cursors() {
    let mut strs = Strings::new();
    strs.push("x");
    strs.push("y");
    let mut a = strs.iter();
    let mut b = strs.iter();
    assert_eq!(a.len(), 2);
    assert_eq!(a.next(), Some("x"));
    assert_eq!(a.len(), 1);
    assert_eq!(a.next(), Some("y"));
    assert_eq!(b.next(), Some("x"));
    assert_eq!(a.next(), None);
    assert_eq!(b.next(), Some("y"));
    assert_eq!(b.next(), None);
}

#[test]
fn strings_reserve_keeps_contents() {
    let mut strs = Strings::new();
    strs.push("keep");
    strs.reserve(100);
    strs.reserve_strs(1000);
    strs.shrink_to_fit();
    assert_eq!(strs.len(), 1);
    assert_eq!(strs.get(0).unwrap(), "keep");
    let copy = strs.clone();
    assert_eq!(copy.get(0).unwrap(), "keep");
    assert_eq!(copy.len(), 1);
}
