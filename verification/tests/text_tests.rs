use subtitle_ocr::text::{
    aggregate_text, char_count, edit_distance, is_blank_text, is_substring_of,
    is_whitespace_char, join_with_spaces, normalize,
};

#[test]
fn edit_distance_basic() {
    assert_eq!(edit_distance("", ""), 0);
    assert_eq!(edit_distance("abc", "abc"), 0);
    assert_eq!(edit_distance("abc", "ab"), 1);
    assert_eq!(edit_distance("陆", "陆执巡"), 2);
}

#[test]
fn normalize_strips_whitespace() {
    assert_eq!(normalize("a b\nc"), "abc");
    assert_eq!(normalize("  "), "");
}

#[test]
fn is_substring_of_works() {
    assert!(!is_substring_of("a", "a"));
    assert!(is_substring_of("ab", "abc"));
    assert!(is_substring_of("bc", "abc"));
    assert!(!is_substring_of("ac", "abc"));
}

#[test]
fn whitespace_matches_std_for_every_char() {
    for u in 0u32..=0x10FFFF {
        if let Some(c) = char::from_u32(u) {
            assert_eq!(is_whitespace_char(c), c.is_whitespace(), "U+{:04X}", u);
        }
    }
}

#[test]
fn normalize_removes_unicode_spaces_and_keeps_order() {
    assert_eq!(normalize("\u{3000}你 好\t世\u{00A0}界\r\n"), "你好世界");
    assert_eq!(normalize(""), "");
    assert_eq!(normalize("abc"), "abc");
}

#[test]
fn normalize_is_idempotent_on_examples() {
    for s in ["a b c", " \t", "x\u{2003}y", "已经 normal"] {
        let once = normalize(s);
        assert_eq!(normalize(&once), once);
        assert!(!once.chars().any(|c| c.is_whitespace()));
    }
}

#[test]
fn edit_distance_more_cases() {
    assert_eq!(edit_distance("kitten", "sitting"), 3);
    assert_eq!(edit_distance("", "abcd"), 4);
    assert_eq!(edit_distance("abcd", ""), 4);
    assert_eq!(edit_distance("flaw", "lawn"), 2);
    assert_eq!(edit_distance("你好", "您好"), 1);
}

#[test]
fn edit_distance_symmetric_and_bounded_on_examples() {
    let words = ["", "a", "ab", "hello", "helo", "陆执巡", "world"];
    for a in words {
        for b in words {
            let d = edit_distance(a, b);
            assert_eq!(d, edit_distance(b, a));
            let (la, lb) = (a.chars().count() as u32, b.chars().count() as u32);
            assert!(d <= la.max(lb));
            assert!(d >= la.abs_diff(lb));
            assert_eq!(d == 0, a == b);
        }
    }
}

#[test]
fn is_substring_of_edge_cases() {
    assert!(!is_substring_of("", "abc"));
    assert!(!is_substring_of("abc", ""));
    assert!(is_substring_of("abc", "b"));
    // same byte length never counts, even when the texts differ
    assert!(!is_substring_of("ab", "cd"));
    // byte lengths decide which text is searched in which
    assert!(is_substring_of("你好吗", "好"));
    assert!(!is_substring_of("é", "ab"));
}

#[test]
fn is_substring_of_is_symmetric_on_examples() {
    let words = ["", "a", "ab", "abc", "bc", "好", "你好"];
    for a in words {
        for b in words {
            assert_eq!(is_substring_of(a, b), is_substring_of(b, a));
        }
    }
}

#[test]
fn blank_and_counts() {
    assert!(is_blank_text(""));
    assert!(is_blank_text(" \t\u{3000}"));
    assert!(!is_blank_text(" a "));
    assert_eq!(char_count("陆执巡"), 3);
    assert_eq!(char_count(""), 0);
}

#[test]
fn joins_texts_with_spaces() {
    let v: Vec<String> = vec!["a".into(), "bc".into(), "".into()];
    assert_eq!(join_with_spaces(&v), "a bc ");
    assert_eq!(join_with_spaces(&[]), "");
    assert_eq!(join_with_spaces(&["x".to_string()]), "x");
}

#[test]
fn aggregate_text_skips_blank_boxes() {
    let v: Vec<String> = vec!["第一行".into(), "  ".into(), "".into(), "second".into()];
    assert_eq!(aggregate_text(&v), "第一行 second");
    assert_eq!(aggregate_text(&[]), "");
}
