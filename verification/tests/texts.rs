use wat::text::{
    can_cut_end, can_cut_start, contains, cut_end, cut_start, decimal_of, ends_with, first_line_of,
    gap_after, path_text, repeat, shorten, with_separator,
};

#[test]
fn contains_is_that_of_std() {
    for whole in ["", "a", "/w/.git/HEAD", ".gi.git", "é.gité", "index.lock"] {
        for part in ["", "a", ".git", "/objects/", "é", "index.lock", "x"] {
            assert_eq!(contains(whole, part), whole.contains(part), "{whole:?} {part:?}");
            assert_eq!(ends_with(whole, part), whole.ends_with(part), "{whole:?} {part:?}");
        }
    }
}

#[test]
fn first_line_is_that_of_std() {
    for text in ["", "\n", "\r\n", "one", "one\ntwo", "one\r\ntwo", "one\r", "\n\ntwo", "o\rne\nx", "\r\r\n"] {
        assert_eq!(first_line_of(text), text.lines().next().unwrap_or(""), "{text:?}");
    }
}

#[test]
fn first_line_of_a_message() {
    assert_eq!(first_line_of("Add new feature\r\n\r\nDetails\r\n"), "Add new feature");
}

#[test]
fn decimal_numbers() {
    for n in [0u64, 7, 9, 10, 99, 100, 12345, u64::MAX] {
        assert_eq!(decimal_of(n), format!("{n}"));
    }
}

#[test]
fn end_is_cut_to_fit() {
    assert_eq!(cut_end("hello world", 8), "hello...");
    assert_eq!(cut_end("hello", 5), "hello");
    assert_eq!(cut_end("hello", 3), "...");
    assert_eq!(cut_end("hello", 1), "...");
    assert_eq!(cut_end("", 0), "");
}

#[test]
fn start_is_cut_to_fit() {
    assert_eq!(cut_start("src/deep/file.rs", 10), "...file.rs");
    assert_eq!(cut_start("file.rs", 7), "file.rs");
    assert_eq!(cut_start("file.rs", 3), "...");
}

#[test]
fn characters_are_not_cut() {
    assert!(!can_cut_end("aéaaa", 5));
    assert!(can_cut_end("aéaaa", 4));
    assert_eq!(cut_end("aéaaa", 4), "a...");
    assert!(can_cut_end("aéaaa", 6));
    assert!(!can_cut_start("aaaéé", 6));
    assert!(can_cut_start("aaaéé", 5));
    assert_eq!(cut_start("aaaéé", 5), "...é");
    assert!(can_cut_start("aaaéé", 7));
}

#[test]
fn start_needs_room_for_the_dots() {
    assert!(can_cut_start("abcd", 3));
    assert!(!can_cut_start("abcd", 2));
    assert!(!can_cut_start("abcd", 0));
    assert!(can_cut_start("", 0));
}

#[test]
fn bytes_that_are_text_come_out_as_themselves() {
    for text in ["", "/w/src", "\u{e9}\u{4e2d}\u{1f600}"] {
        assert_eq!(path_text(text.as_bytes()), text);
    }
    assert_eq!(path_text(b"a\xffb"), "a\u{fffd}b");
}

#[test]
fn parts_are_separated() {
    let parts: Vec<String> = vec!["a".to_string(), "".to_string(), "\u{e9}".to_string()];
    assert_eq!(with_separator(&parts, ", "), parts.join(", "));
    assert_eq!(with_separator(&vec![], ", "), "");
    assert_eq!(with_separator(&vec!["a".to_string()], ", "), "a");
}

#[test]
fn columns_are_filled() {
    assert_eq!(repeat("-", 0), "");
    assert_eq!(repeat("ab", 3), "ababab");
    assert_eq!(gap_after("+45", 5, 1), "  ");
    assert_eq!(gap_after("+120", 5, 1), " ");
    assert_eq!(gap_after("+1200", 5, 1), " ");
    assert_eq!(gap_after("+12000", 5, 1), " ");
    assert_eq!(gap_after("\u{e9}", 4, 2), "   ");
    assert_eq!(gap_after("", 0, 2), "  ");
    assert_eq!(gap_after("abc", 3, 0), "");
}

#[test]
fn texts_are_shortened_between_characters() {
    let text = "a\u{e9}\u{4e2d}z";
    for max in 0..10 {
        let short = shorten(text, max);
        if max >= 3 {
            assert!(short.len() <= max, "{max}");
        }
        if max >= text.len() {
            assert_eq!(short, text);
        } else {
            assert!(text.starts_with(short.strip_suffix("...").unwrap()), "{max}");
        }
        if can_cut_end(text, max) {
            assert_eq!(short, cut_end(text, max));
        }
    }
    assert_eq!(shorten(text, 5), "a...");
    assert_eq!(shorten(text, 6), "a\u{e9}...");
}
