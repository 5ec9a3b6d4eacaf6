use viewfs::order::stable_order;

#[test]
fn sorts_by_path_and_keeps_what_is_the_same_in_place() {
    let paths: Vec<&[u8]> = vec![b"/b", b"/a/b", b"/a-b", b"/a//b", b"/", b"/b/"];
    assert_eq!(stable_order(&paths), vec![4, 1, 3, 2, 0, 5]);
}

#[test]
fn nothing_to_sort() {
    let none: Vec<&[u8]> = Vec::new();
    assert_eq!(stable_order(&none), Vec::<usize>::new());
    let one: Vec<&[u8]> = vec![b"/a"];
    assert_eq!(stable_order(&one), vec![0]);
}

#[test]
fn agrees_with_the_sort_of_std() {
    let mut seed: u64 = 7;
    for _ in 0..300 {
        let mut texts: Vec<String> = Vec::new();
        for _ in 0..12 {
            let mut s = String::new();
            for _ in 0..5 {
                seed = seed.wrapping_mul(6364136223846793005).wrapping_add(1442695040888963407);
                s.push(['/', '/', '.', 'a', 'b'][(seed >> 33) as usize % 5]);
            }
            texts.push(s);
        }
        let paths: Vec<&[u8]> = texts.iter().map(|s| s.as_bytes()).collect();
        let mut expected: Vec<usize> = (0..texts.len()).collect();
        expected.sort_by_key(|&i| std::path::PathBuf::from(&texts[i]));
        assert_eq!(stable_order(&paths), expected);
    }
}
