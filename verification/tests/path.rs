use std::path::{Component, Path};

use viewfs::path::{
    compare, compare_bytes, component_spans, has_parent_component, is_absolute, PathOrder,
};

/// All strings of up to `len` of the characters that matter to a path.
fn samples(len: usize) -> Vec<String> {
    let mut all = vec![String::new()];
    let mut last = vec![String::new()];
    for _ in 0..len {
        let mut next = Vec::new();
        for s in &last {
            for c in ['/', '.', 'a', 'b'] {
                next.push(format!("{s}{c}"));
            }
        }
        all.extend(next.iter().cloned());
        last = next;
    }
    all
}

fn expected_order(a: &str, b: &str) -> PathOrder {
    match Path::new(a).cmp(Path::new(b)) {
        std::cmp::Ordering::Less => PathOrder::Before,
        std::cmp::Ordering::Equal => PathOrder::Same,
        std::cmp::Ordering::Greater => PathOrder::After,
    }
}

#[test]
fn order_is_that_of_std_paths() {
    let all = samples(4);
    for a in &all {
        for b in &all {
            assert_eq!(compare(a.as_bytes(), b.as_bytes()), expected_order(a, b), "{a:?} {b:?}");
        }
    }
}

#[test]
fn spans_are_the_components_of_std_paths() {
    for s in samples(7) {
        let spans = component_spans(s.as_bytes());
        let pieces: Vec<&str> = spans.iter().map(|&(from, to)| &s[from..to]).collect();
        let expected: Vec<&str> = Path::new(&s)
            .components()
            .filter(|c| matches!(c, Component::Normal(_) | Component::ParentDir))
            .map(|c| c.as_os_str().to_str().unwrap())
            .collect();
        assert_eq!(pieces, expected, "{s:?}");
    }
}

#[test]
fn absolute_and_parent_as_in_std_paths() {
    for s in samples(6) {
        let p = Path::new(&s);
        assert_eq!(is_absolute(s.as_bytes()), p.is_absolute(), "{s:?}");
        let parent = p.components().any(|c| c == Component::ParentDir);
        assert_eq!(has_parent_component(s.as_bytes()), parent, "{s:?}");
    }
}

#[test]
fn different_spellings_are_one_path() {
    assert_eq!(compare(b"/a//b", b"/a/./b/"), PathOrder::Same);
    assert_eq!(compare(b"/a/b", b"a/b"), PathOrder::Before);
    assert_eq!(compare(b"./a", b"a"), PathOrder::Before);
    assert_eq!(compare(b"/a/../b", b"/b"), PathOrder::Before);
}

#[test]
fn components_are_compared_not_bytes() {
    assert_eq!(compare(b"/a/b", b"/a-b"), PathOrder::Before);
    assert_eq!(compare_bytes(b"/a/b", b"/a-b"), PathOrder::After);
    assert_eq!(compare(b"/nix", b"/nix/store"), PathOrder::Before);
    assert_eq!(compare_bytes(b"ab", b"a"), PathOrder::After);
    assert_eq!(compare_bytes(b"\xff", b"\x01"), PathOrder::After);
}

#[test]
fn component_names_hold_no_slash_and_are_no_dots() {
    for s in samples(7) {
        for (from, to) in component_spans(s.as_bytes()) {
            let piece = &s[from..to];
            assert!(!piece.is_empty() && piece != "." && !piece.contains('/'));
        }
    }
}
