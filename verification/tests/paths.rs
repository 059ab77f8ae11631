use std::path::Path;
use wat::order::{bytes_before, same_bytes};
use wat::path::{
    component_bounds, first_component, is_path_before, is_same_path, relative, strip_prefix,
};

/// Every text of up to `max` characters out of a separator, a dot and a letter.
fn texts(max: usize) -> Vec<String> {
    let mut all: Vec<String> = vec![String::new()];
    let mut last: Vec<String> = vec![String::new()];
    for _ in 0..max {
        let mut next: Vec<String> = Vec::new();
        for text in &last {
            for c in ["/", ".", "a"] {
                next.push(format!("{text}{c}"));
            }
        }
        all.extend(next.iter().cloned());
        last = next;
    }
    all
}

fn component_texts(p: &str) -> Vec<String> {
    component_bounds(p.as_bytes())
        .iter()
        .map(|b| p[b.0..b.1].to_string())
        .collect()
}

#[test]
fn components_are_those_of_std() {
    for p in texts(7) {
        let expected: Vec<String> = Path::new(&p)
            .components()
            .map(|c| c.as_os_str().to_string_lossy().into_owned())
            .collect();
        assert_eq!(component_texts(&p), expected, "{p:?}");
    }
}

#[test]
fn components_of_chosen_paths() {
    assert_eq!(component_texts("/w//a/./b/"), vec!["/", "w", "a", "b"]);
    assert_eq!(component_texts("./a/../b"), vec![".", "a", "..", "b"]);
    assert_eq!(component_texts(""), Vec::<String>::new());
}

#[test]
fn strip_prefix_is_that_of_std() {
    for p in texts(5) {
        for base in texts(4) {
            let expected: Option<Vec<u8>> = Path::new(&p)
                .strip_prefix(&base)
                .ok()
                .map(|rest| rest.to_str().unwrap().as_bytes().to_vec());
            assert_eq!(strip_prefix(p.as_bytes(), base.as_bytes()), expected, "{p:?} {base:?}");
        }
    }
}

#[test]
fn strip_prefix_keeps_inner_separators() {
    assert_eq!(strip_prefix(b"/w//a//./b/", b"/w/"), Some(b"a//./b".to_vec()));
    assert_eq!(strip_prefix(b"/w", b"/w/"), Some(Vec::new()));
    assert_eq!(strip_prefix(b"/wide/a", b"/w"), None);
}

#[test]
fn what_is_left_below_a_base_completes_it() {
    let p = "/home/me//project/src/./main.rs";
    let base = "/home/me/project/";
    let rest = String::from_utf8(strip_prefix(p.as_bytes(), base.as_bytes()).unwrap()).unwrap();
    let mut parts = component_texts(base);
    parts.extend(component_texts(&rest));
    assert_eq!(parts, component_texts(p));
}

#[test]
fn relative_falls_back_to_the_path() {
    assert_eq!(relative(b"/w/a", b"/w"), b"a".to_vec());
    assert_eq!(relative(b"/other//a/", b"/w"), b"/other//a/".to_vec());
}

#[test]
fn first_component_of_paths() {
    assert_eq!(first_component(b"target/debug/x"), Some(b"target".to_vec()));
    assert_eq!(first_component(b"/target"), Some(b"/".to_vec()));
    assert_eq!(first_component(b""), None);
    assert_eq!(first_component(b"\xff\xfe/x"), Some(b"\xff\xfe".to_vec()));
}

#[test]
fn order_and_equality_are_those_of_std() {
    let all = texts(4);
    for p in &all {
        for q in &all {
            let (a, b) = (Path::new(p), Path::new(q));
            assert_eq!(is_path_before(p.as_bytes(), q.as_bytes()), a < b, "{p:?} {q:?}");
            assert_eq!(is_same_path(p.as_bytes(), q.as_bytes()), a == b, "{p:?} {q:?}");
        }
    }
}

#[test]
fn order_goes_component_by_component() {
    // As plain text `a-b/x` is before `a/y`.
    assert!(is_path_before(b"a/y", b"a-b/x"));
    assert!(!is_path_before(b"a-b/x", b"a/y"));
    assert!(is_path_before(b"/z", b"a"));
    assert!(is_path_before(b"../z", b"a"));
    assert!(is_same_path(b"a//b/", b"a/./b"));
}

#[test]
fn bytes_are_ordered_as_in_a_dictionary() {
    assert!(bytes_before(b"ab", b"abc"));
    assert!(bytes_before(b"abc", b"b"));
    assert!(!bytes_before(b"abc", b"abc"));
    assert!(!bytes_before(b"b", b"abc"));
    assert!(same_bytes(b"abc", b"abc"));
    assert!(!same_bytes(b"abc", b"abd"));
    assert!(!same_bytes(b"abc", b"ab"));
}
