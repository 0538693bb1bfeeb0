use rag_bone::order::{arrange, key_less, sort_order};
use rag_bone::text::{
    begins_with, finishes_with, has_part, joined, list_has, parse_number, same_text, split_lines,
    trimmed,
};

const SAMPLES: [&str; 16] = [
    "", " ", "a", "a\n", "a\r\nb", "a\r", "\n\n", "\r\n\r\n", " a b ", "\u{a0}x\u{3000}", "\u{200b}x",
    "\ta\u{85}", "aaa", "\u{e9}\n\u{e9}", "a\rb\nc\r\r\n", "ab\u{1f600}",
];

#[test]
fn lines_and_trimming_are_those_of_str() {
    for s in SAMPLES {
        let lines: Vec<&str> = s.lines().collect();
        assert_eq!(split_lines(s), lines, "{s:?}");
        assert_eq!(trimmed(s), s.trim(), "{s:?}");
    }
}

#[test]
fn parts_are_those_of_str() {
    for s in SAMPLES {
        for t in SAMPLES {
            assert_eq!(has_part(s, t), s.contains(t), "{s:?} {t:?}");
            assert_eq!(begins_with(s, t), s.starts_with(t), "{s:?} {t:?}");
            assert_eq!(finishes_with(s, t), s.ends_with(t), "{s:?} {t:?}");
            assert_eq!(same_text(s, t), s == t, "{s:?} {t:?}");
        }
    }
    let list = vec!["a".to_string(), "".to_string(), "b".to_string()];
    assert_eq!(joined(&list, ", "), "a, , b");
    assert_eq!(joined(&Vec::new(), ", "), "");
    assert!(list_has(&list, ""));
    assert!(!list_has(&list, "ab"));
}

#[test]
fn numbers_are_those_of_str() {
    let samples = [
        "", "0", "7", "007", "+5", "+", "-1", "++1", "1a", " 1", "18446744073709551615",
        "18446744073709551616", "99999999999999999999999", "\u{661}",
    ];
    for s in samples {
        assert_eq!(parse_number(s), s.parse::<usize>().ok(), "{s:?}");
    }
}

#[test]
fn keys_are_sorted_as_sequences_and_equal_ones_stay() {
    let keys = vec![vec![2], vec![1, 5], vec![1], vec![2], vec![]];
    assert_eq!(sort_order(&keys), [4, 2, 1, 0, 3]);
    assert!(key_less(&vec![1], &vec![1, 0]));
    assert!(!key_less(&vec![2], &vec![1, 9]));
    assert_eq!(arrange(&vec![10, 20, 30], &vec![vec![3], vec![1], vec![2]]), [20, 30, 10]);
}
