use viewfs::whitelist::Whitelist;

fn whitelist(list: &[&str]) -> Whitelist {
    Whitelist::new(list.iter().map(|s| s.as_bytes().to_vec()).collect())
}

#[test]
fn members_are_paths_not_spellings() {
    let w = whitelist(&["/b", "/a//x/", "/c", "/b"]);
    for path in ["/b", "/a/x", "/a/./x", "//b", "/c/"] {
        assert!(w.contains(path.as_bytes()), "{path}");
    }
    for path in ["/", "/a", "/a/x/y", "b", "/a/../b", "", "/d"] {
        assert!(!w.contains(path.as_bytes()), "{path}");
    }
}

#[test]
fn empty_whitelist_has_no_member() {
    let w = whitelist(&[]);
    assert!(!w.contains(b"/"));
    assert!(!w.contains(b""));
}

#[test]
fn agrees_with_a_hash_set_of_std_paths() {
    let mut all = vec![String::new()];
    for at in 0.. {
        if all[at].len() == 4 {
            break;
        }
        for c in ['/', '.', 'a'] {
            let longer = format!("{}{c}", all[at]);
            all.push(longer);
        }
    }
    for step in 2..9 {
        let chosen: Vec<&str> = all.iter().step_by(step).map(|s| s.as_str()).collect();
        let w = whitelist(&chosen);
        let set: std::collections::HashSet<&std::path::Path> =
            chosen.iter().map(|s| std::path::Path::new(*s)).collect();
        for s in &all {
            assert_eq!(w.contains(s.as_bytes()), set.contains(std::path::Path::new(s)), "{s:?}");
        }
    }
}
