use zrb::number::{decimal, parse_u32, parse_u64};
use zrb::text::{
    chars_of, contains_text, copy_list, find_entry, first_two_fields, insert_sorted, lines,
    list_contains, split_once, starts_with, str_eq, str_less, string_of, strip_prefix,
    strs_contain, trim,
};

/// Texts from a small alphabet, where searches find something.
fn samples() -> Vec<String> {
    let alphabet = ['a', 'b', '\n', '\r', '@', '\t', ' ', 'é', '😀', '\u{3000}'];
    let mut out = vec![String::new()];
    let mut seed: u64 = 3;
    for i in 0..2_000 {
        let mut s = String::new();
        for _ in 0..i % 12 {
            seed = seed.wrapping_mul(6364136223846793005).wrapping_add(1442695040888963407);
            s.push(alphabet[(seed >> 33) as usize % alphabet.len()]);
        }
        out.push(s);
    }
    out
}

#[test]
fn lines_are_those_of_std() {
    for s in samples() {
        let expected: Vec<&str> = s.lines().collect();
        assert_eq!(lines(&s), expected, "{s:?}");
    }
}

#[test]
fn trimming_is_that_of_std() {
    for s in samples() {
        assert_eq!(trim(&s), s.trim(), "{s:?}");
    }
    for c in '\0'..=char::MAX {
        let s = c.to_string();
        assert_eq!(trim(&s).is_empty(), c.is_whitespace(), "{c:?}");
    }
}

#[test]
fn searches_are_those_of_std() {
    for s in samples() {
        for needle in ["", "a", "ab", "@", "é", "😀\n"] {
            assert_eq!(contains_text(&s, needle), s.contains(needle), "{s:?} {needle:?}");
            assert_eq!(starts_with(&s, needle), s.starts_with(needle), "{s:?} {needle:?}");
            assert_eq!(
                strip_prefix(&s, needle).as_deref(),
                s.strip_prefix(needle),
                "{s:?} {needle:?}"
            );
        }
        for c in ['a', '@', '😀'] {
            let got = split_once(&s, c);
            let got = got.as_ref().map(|(a, b)| (a.as_str(), b.as_str()));
            assert_eq!(got, s.split_once(c), "{s:?} {c:?}");
        }
        let mut fields = s.splitn(3, '\t');
        let expected = match (fields.next(), fields.next()) {
            (Some(a), Some(b)) => Some((a.to_string(), b.to_string())),
            _ => None,
        };
        assert_eq!(first_two_fields(&s), expected, "{s:?}");
    }
}

#[test]
fn order_is_that_of_std() {
    let all = samples();
    for pair in all.windows(2) {
        assert_eq!(str_less(&pair[0], &pair[1]), pair[0] < pair[1]);
        assert_eq!(str_eq(&pair[0], &pair[1]), pair[0] == pair[1]);
    }
    let mut sorted = Vec::new();
    for s in &all[..300] {
        insert_sorted(&mut sorted, s.clone());
    }
    let mut expected = all[..300].to_vec();
    expected.sort();
    assert_eq!(sorted, expected);
}

#[test]
fn characters_go_in_and_out() {
    for s in samples() {
        let cs = chars_of(&s);
        assert_eq!(cs, s.chars().collect::<Vec<char>>());
        assert_eq!(string_of(&cs, 0, cs.len()), s);
    }
}

#[test]
fn lists_and_tables_are_searched() {
    let list = vec!["a".to_string(), "b".to_string()];
    assert!(list_contains(&list, "b"));
    assert!(!list_contains(&list, "c"));
    assert!(strs_contain(&["x", "y"], "x"));
    assert!(!strs_contain(&[], "x"));
    assert_eq!(copy_list(&list), list);
    let table = vec![("k".to_string(), 1), ("l".to_string(), 2), ("k".to_string(), 3)];
    assert_eq!(find_entry(&table, "k"), Some(&1));
    assert_eq!(find_entry(&table, "l"), Some(&2));
    assert_eq!(find_entry(&table, "m"), None);
}

#[test]
fn numbers_are_those_of_std() {
    for s in [
        "", "+", "-", "0", "+0", "-0", "00012", "12a", " 1", "1 ", "٣", "4294967295", "4294967296",
        "18446744073709551615", "18446744073709551616", "99999999999999999999999", "+7", "++7",
        "18446744073709551615x", "999999999999999999999x",
    ] {
        assert_eq!(parse_u64(s), s.parse::<u64>().ok(), "{s:?}");
        assert_eq!(parse_u32(s), s.parse::<u32>().ok(), "{s:?}");
    }
    for n in [0, 9, 10, 99, 100, 1_234_567_890, u64::MAX] {
        assert_eq!(decimal(n as u128), n.to_string());
        assert_eq!(parse_u64(&decimal(n as u128)), Some(n));
    }
    assert_eq!(decimal(u128::MAX), u128::MAX.to_string());
}
