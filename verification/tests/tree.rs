use std::collections::HashMap;
use std::path::PathBuf;

use viewfs::filter::{FileType, ViewFile};
use viewfs::tree::{generate_nodes, FileNode, NodeID};

fn file(filetype: FileType, path: &str) -> ViewFile {
    ViewFile { filetype, path: path.as_bytes().to_vec() }
}

fn text(bytes: &[u8]) -> String {
    String::from_utf8(bytes.to_vec()).unwrap()
}

type Plain = (String, usize, Vec<usize>, bool, String);

fn plain(nodes: &[FileNode]) -> Vec<Plain> {
    nodes
        .iter()
        .map(|n| {
            let children = n.children.iter().map(|c| c.0).collect();
            (text(&n.name), n.parent.0, children, n.is_dir, text(&n.path))
        })
        .collect()
}

#[test]
fn node_numbers_convert() {
    assert_eq!(NodeID::new(3), NodeID::from(3));
    assert_eq!(usize::from(NodeID::new(4)), 4);
    assert!(NodeID(1) < NodeID(2));
}

#[test]
fn no_files_leave_the_root() {
    assert_eq!(
        plain(&generate_nodes(&vec![])),
        vec![("/".to_string(), 0, vec![], true, "/".to_string())]
    );
}

#[test]
fn directories_on_the_way_get_nodes() {
    let nodes = generate_nodes(&vec![
        file(FileType::File, "/nix/store/b"),
        file(FileType::Dir, "/nix/store/a"),
        file(FileType::File, "/nix/store/a/x"),
    ]);
    let s = |s: &str| s.to_string();
    assert_eq!(
        plain(&nodes),
        vec![
            (s("/"), 0, vec![1], true, s("/")),
            (s("nix"), 0, vec![2], true, s("/nix")),
            (s("store"), 1, vec![3, 5], true, s("/nix/store")),
            (s("a"), 2, vec![4], true, s("/nix/store/a")),
            (s("x"), 3, vec![], false, s("/nix/store/a/x")),
            (s("b"), 2, vec![], false, s("/nix/store/b")),
        ]
    );
}

#[test]
fn relative_files_have_no_node() {
    let nodes = generate_nodes(&vec![file(FileType::File, "a/b"), file(FileType::File, "")]);
    assert_eq!(nodes.len(), 1);
}

#[test]
fn the_first_file_with_a_path_gives_the_type() {
    let nodes = generate_nodes(&vec![
        file(FileType::File, "/a"),
        file(FileType::Dir, "/a"),
        file(FileType::File, "/a/b"),
    ]);
    assert_eq!(nodes.len(), 3);
    assert!(!nodes[1].is_dir);
    assert_eq!(nodes[1].children, vec![NodeID(2)]);
}

#[test]
fn a_path_is_kept_as_written() {
    let nodes = generate_nodes(&vec![file(FileType::File, "//a/./b/")]);
    let paths: Vec<String> = nodes.iter().map(|n| text(&n.path)).collect();
    assert_eq!(paths, vec!["/", "//a", "//a/./b/"]);
    assert_eq!(text(&nodes[2].name), "b");
}

#[test]
fn the_root_can_be_among_the_files() {
    let nodes = generate_nodes(&vec![file(FileType::File, "/"), file(FileType::Dir, "/x")]);
    assert_eq!(nodes.len(), 2);
    assert!(nodes[0].is_dir);
}

/// The tree of the files, by way of std's paths and a map from paths to nodes.
fn by_path_map(files: &[(FileType, String)]) -> Vec<Plain> {
    let mut files: Vec<(FileType, PathBuf)> =
        files.iter().map(|(t, p)| (*t, PathBuf::from(p))).collect();
    files.sort_by(|a, b| a.1.cmp(&b.1));
    let mut ids: HashMap<PathBuf, usize> = HashMap::new();
    ids.insert(PathBuf::from("/"), 0);
    let mut nodes: Vec<Plain> = vec![("/".into(), 0, vec![], true, "/".into())];
    for (filetype, path) in files {
        if !path.is_absolute() {
            continue;
        }
        let above: Vec<PathBuf> = path.ancestors().map(|p| p.to_path_buf()).collect();
        let missing: Vec<&PathBuf> = above.iter().take_while(|p| !ids.contains_key(*p)).collect();
        let mut parent = ids[&above[missing.len()]];
        for (left, p) in missing.iter().enumerate().rev() {
            let id = nodes.len();
            nodes[parent].2.push(id);
            nodes.push((
                p.file_name().unwrap().to_str().unwrap().to_string(),
                parent,
                vec![],
                left > 0 || filetype == FileType::Dir,
                p.to_str().unwrap().to_string(),
            ));
            ids.insert(p.to_path_buf(), id);
            parent = id;
        }
    }
    nodes
}

#[test]
fn agrees_with_a_map_of_std_paths() {
    let mut seed: u64 = 99;
    let mut pick = move |n: usize| {
        seed = seed.wrapping_mul(6364136223846793005).wrapping_add(1442695040888963407);
        (seed >> 33) as usize % n
    };
    let pieces = ["/", "/", "/", "/.", "a", "b", "a-", "c."];
    let mut done: usize = 0;
    while done < 1500 {
        let mut files: Vec<(FileType, String)> = Vec::new();
        for _ in 0..pick(9) {
            let mut path = String::new();
            for _ in 0..pick(8) {
                path.push_str(pieces[pick(pieces.len())]);
            }
            if path.split('/').any(|piece| piece == "..") {
                continue;
            }
            let filetype = if pick(2) == 0 { FileType::Dir } else { FileType::File };
            files.push((filetype, path));
        }
        let list = files.iter().map(|(t, p)| file(*t, p)).collect();
        assert_eq!(plain(&generate_nodes(&list)), by_path_map(&files), "{files:?}");
        done += 1;
    }
}

#[test]
fn every_node_is_listed_once_and_under_its_parent() {
    let nodes = generate_nodes(&vec![
        file(FileType::File, "/z/y/x"),
        file(FileType::File, "/z/y-/x"),
        file(FileType::Dir, "/a"),
    ]);
    for n in 1..nodes.len() {
        let parent = nodes[n].parent.0;
        assert!(parent < n);
        let times = nodes.iter().flat_map(|m| &m.children).filter(|c| c.0 == n).count();
        assert_eq!(times, 1);
        assert!(nodes[parent].children.contains(&NodeID(n)));
        let siblings = &nodes[parent].children;
        assert_eq!(siblings.iter().filter(|c| nodes[c.0].name == nodes[n].name).count(), 1);
    }
}

#[test]
fn the_order_of_the_files_does_not_matter_where_paths_differ() {
    let a = generate_nodes(&vec![file(FileType::File, "/x/b"), file(FileType::Dir, "/x")]);
    let b = generate_nodes(&vec![file(FileType::Dir, "/x"), file(FileType::File, "/x/b")]);
    assert_eq!(plain(&a), plain(&b));
}

#[test]
fn repeated_files_and_other_spellings_do_not_matter() {
    let a = generate_nodes(&vec![
        file(FileType::File, "/x/b"),
        file(FileType::Dir, "/x"),
        file(FileType::File, "/y/z"),
    ]);
    let b = generate_nodes(&vec![
        file(FileType::File, "/y//z"),
        file(FileType::Dir, "/x/"),
        file(FileType::File, "/x/./b"),
        file(FileType::Dir, "/x"),
        file(FileType::File, "/y/z"),
        file(FileType::File, "/x/b"),
    ]);
    let shape = |nodes: &[FileNode]| -> Vec<(String, usize, Vec<usize>, bool)> {
        plain(nodes).into_iter().map(|n| (n.0, n.1, n.2, n.3)).collect()
    };
    assert_eq!(a.len(), 5);
    assert_eq!(shape(&a), shape(&b));
}
