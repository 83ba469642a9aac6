//! Lookup, traversal and glob search over a sample tree.

use include_dir::fs::FileSystem;
use include_dir::metadata::Metadata;
use include_dir::tree::{Dir, DirEntry, File};

/// The tree `{ "a.txt": "hi", "sub/b.txt": "bye" }`.
fn sample_tree() -> Dir {
    Dir::new(
        String::from(""),
        vec![
            DirEntry::File(File::new(String::from("a.txt"), b"hi".to_vec())),
            DirEntry::Dir(Dir::new(
                String::from("sub"),
                vec![DirEntry::File(File::new(
                    String::from("sub/b.txt"),
                    b"bye".to_vec(),
                ))],
            )),
        ],
    )
}

#[test]
fn sample_tree_is_well_formed() {
    assert!(sample_tree().is_well_formed());

    // Unsorted siblings are rejected.
    let unsorted = Dir::new(
        String::from(""),
        vec![
            DirEntry::File(File::new(String::from("b.txt"), Vec::new())),
            DirEntry::File(File::new(String::from("a.txt"), Vec::new())),
        ],
    );
    assert!(!unsorted.is_well_formed());

    // A child whose path ignores its parent's is rejected.
    let stray = Dir::new(
        String::from(""),
        vec![DirEntry::Dir(Dir::new(
            String::from("sub"),
            vec![DirEntry::File(File::new(
                String::from("elsewhere/b.txt"),
                Vec::new(),
            ))],
        ))],
    );
    assert!(!stray.is_well_formed());
}

#[test]
fn get_file_returns_contents() {
    let tree = sample_tree();

    let file = tree.get_file("a.txt").unwrap();
    assert_eq!(file.contents(), b"hi");
    assert_eq!(file.path(), "a.txt");

    let nested = tree.get_file("sub/b.txt").unwrap();
    assert_eq!(nested.contents(), b"bye");
}

#[test]
fn get_dir_returns_subdirectory() {
    let tree = sample_tree();

    let sub = tree.get_dir("sub").unwrap();
    assert_eq!(sub.path(), "sub");
    assert_eq!(sub.entries().len(), 1);
    assert_eq!(sub.entries()[0].path(), "sub/b.txt");
}

#[test]
fn wrong_variant_is_not_found() {
    let tree = sample_tree();

    assert!(tree.get_dir("a.txt").is_none());
    assert!(tree.get_file("sub").is_none());
}

#[test]
fn lookup_past_a_file_is_not_found() {
    let tree = sample_tree();

    assert!(tree.get_entry("a.txt/oops").is_none());
    assert!(tree.get_file("a.txt/oops").is_none());
    assert!(!tree.contains("a.txt/oops"));
    assert!(tree.get_entry("sub/b.txt/deeper/still").is_none());
}

#[test]
fn missing_paths_are_not_found() {
    let tree = sample_tree();

    assert!(tree.get_entry("c.txt").is_none());
    assert!(tree.get_entry("sub/missing").is_none());
    assert!(tree.get_entry("").is_none());
}

#[test]
fn contains_agrees_with_get() {
    let tree = sample_tree();

    for path in ["a.txt", "sub", "sub/b.txt", "c.txt", "a.txt/oops", ""] {
        assert_eq!(tree.contains(path), tree.get_entry(path).is_some());
    }
}

#[test]
fn lookup_roundtrip_for_every_entry() {
    let tree = sample_tree();

    for entry in tree.walk() {
        let found = tree.get_entry(entry.path()).unwrap();
        assert_eq!(found, entry);
    }
}

#[test]
fn walk_lists_the_tree_in_preorder() {
    let tree = sample_tree();

    let paths: Vec<&str> = tree.walk().iter().map(|e| e.path()).collect();
    assert_eq!(paths, vec!["a.txt", "sub", "sub/b.txt"]);
}

#[test]
fn find_matches_shallow_globs_only_at_the_top() {
    let tree = sample_tree();

    let matches: Vec<String> = tree
        .find("*.txt")
        .unwrap()
        .iter()
        .map(|e| e.path().to_string())
        .collect();
    assert_eq!(matches, vec!["a.txt".to_string()]);
}

#[test]
fn find_matches_recursive_globs_everywhere() {
    let tree = sample_tree();

    let matches: Vec<String> = tree
        .find("**/*.txt")
        .unwrap()
        .iter()
        .map(|e| e.path().to_string())
        .collect();
    assert_eq!(matches, vec!["a.txt".to_string(), "sub/b.txt".to_string()]);
}

#[test]
fn find_all_visits_every_entry_exactly_once() {
    let tree = sample_tree();

    let all: Vec<String> = tree
        .find("**/*")
        .unwrap()
        .iter()
        .map(|e| e.path().to_string())
        .collect();
    assert_eq!(
        all,
        vec!["a.txt".to_string(), "sub".to_string(), "sub/b.txt".to_string()]
    );
}

#[test]
fn find_rejects_invalid_patterns_before_traversal() {
    let tree = sample_tree();

    let err = tree.find("a**").unwrap_err();
    assert!(!err.msg.is_empty());
    assert!(tree.find("[").is_err());
}

#[test]
fn find_with_empty_pattern_matches_nothing() {
    let tree = sample_tree();

    assert!(tree.find("").unwrap().is_empty());
    assert!(tree.find("nothing-here-*").unwrap().is_empty());
}

#[test]
fn entry_accessors_narrow_by_variant() {
    let tree = sample_tree();

    let file_entry = tree.get_entry("a.txt").unwrap();
    assert!(file_entry.is_file());
    assert!(!file_entry.is_dir());
    assert!(file_entry.as_file().is_some());
    assert!(file_entry.as_dir().is_none());
    assert!(file_entry.children().is_empty());

    let dir_entry = tree.get_entry("sub").unwrap();
    assert!(dir_entry.is_dir());
    assert!(dir_entry.as_dir().is_some());
    assert!(dir_entry.as_file().is_none());
    assert_eq!(dir_entry.children().len(), 1);
}

#[test]
fn names_are_final_components() {
    let tree = sample_tree();

    assert_eq!(tree.name(), "");
    assert_eq!(tree.get_dir("sub").unwrap().name(), "sub");
    assert_eq!(tree.get_file("sub/b.txt").unwrap().name(), "b.txt");
    assert_eq!(tree.get_entry("a.txt").unwrap().name(), "a.txt");
}

#[test]
fn sizes_add_up() {
    let tree = sample_tree();

    assert_eq!(tree.get_file("a.txt").unwrap().size(), 2);
    assert_eq!(tree.get_file("sub/b.txt").unwrap().size(), 3);
    assert_eq!(tree.size(), 5);
    assert_eq!(tree.get_entry("sub").unwrap().size(), 3);
}

#[test]
fn files_and_dirs_split_the_entries() {
    let tree = sample_tree();

    let files = tree.files();
    assert_eq!(files.len(), 1);
    assert_eq!(files[0].path(), "a.txt");

    let dirs = tree.dirs();
    assert_eq!(dirs.len(), 1);
    assert_eq!(dirs[0].path(), "sub");
}

#[test]
fn contents_utf8_decodes_only_valid_text() {
    let text = File::new(String::from("t.txt"), b"hi".to_vec());
    assert_eq!(text.contents_utf8(), Some("hi"));

    let binary = File::new(String::from("b.bin"), vec![0xff, 0xfe, 0x00]);
    assert!(binary.contents_utf8().is_none());
}

#[test]
fn metadata_round_trips() {
    let meta = Metadata::new(10, 20, 30);
    assert_eq!(meta.accessed(), 10);
    assert_eq!(meta.created(), 20);
    assert_eq!(meta.modified(), 30);

    let file = File::new(String::from("m.txt"), Vec::new());
    assert!(file.metadata().is_none());
    let with = file.with_metadata(meta);
    assert_eq!(with.metadata(), Some(&Metadata::new(10, 20, 30)));
}

#[test]
fn filesystem_wraps_a_root_entry() {
    let fs = FileSystem::new(DirEntry::Dir(sample_tree()));

    assert!(fs.contains("a.txt"));
    assert!(fs.contains("sub/b.txt"));
    assert!(!fs.contains("nope"));

    // The empty path resolves to the root entry itself.
    assert!(fs.get("").unwrap().is_dir());

    assert_eq!(fs.get_file("a.txt").unwrap().contents(), b"hi");
    assert_eq!(fs.get_dir("sub").unwrap().path(), "sub");
    assert!(fs.get_dir("a.txt").is_none());

    let hits: Vec<&str> = fs.find("**/*.txt").unwrap().iter().map(|e| e.path()).collect();
    assert_eq!(hits, vec!["a.txt", "sub/b.txt"]);
    assert!(fs.find("[").is_err());
}

#[test]
fn lookup_uses_binary_search_over_many_siblings() {
    let names = ["alpha", "bravo", "charlie", "delta", "echo", "foxtrot", "golf"];
    let entries: Vec<DirEntry> = names
        .iter()
        .map(|n| DirEntry::File(File::new(n.to_string(), n.as_bytes().to_vec())))
        .collect();
    let tree = Dir::new(String::new(), entries);
    assert!(tree.is_well_formed());

    for n in names {
        assert_eq!(tree.get_file(n).unwrap().contents(), n.as_bytes());
    }
    assert!(tree.get_file("aardvark").is_none());
    assert!(tree.get_file("hotel").is_none());
    assert!(tree.get_file("cha").is_none());
}

#[test]
fn empty_tree_has_nothing() {
    let tree = Dir::new(String::new(), Vec::new());
    assert!(tree.is_well_formed());
    assert!(tree.walk().is_empty());
    assert!(tree.find("**/*").unwrap().is_empty());
    assert!(!tree.contains("anything"));
    assert_eq!(tree.size(), 0);
}
