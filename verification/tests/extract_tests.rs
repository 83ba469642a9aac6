//! Extraction onto the in-memory destination model.

use include_dir::extract::{ExtractMode, FsModel};
use include_dir::globs::Options;
use include_dir::tree::{Dir, DirEntry, File};

fn sample_tree() -> Dir {
    Dir::new(
        String::from(""),
        vec![
            DirEntry::File(File::new(String::from("a.txt"), b"hi".to_vec())),
            DirEntry::Dir(Dir::new(
                String::from("sub"),
                vec![DirEntry::File(File::new(
                    String::from("sub/b.txt"),
                    b"bye".to_vec(),
                ))],
            )),
        ],
    )
}

#[test]
fn extract_writes_every_file_and_directory() {
    let tree = sample_tree();
    let mut dest = FsModel::new();

    tree.extract(&mut dest, ExtractMode::FailIfExists).unwrap();

    assert!(dest.has_dir("sub"));
    assert_eq!(dest.file_contents("a.txt").unwrap().as_slice(), b"hi");
    assert_eq!(dest.file_contents("sub/b.txt").unwrap().as_slice(), b"bye");
    assert!(!dest.has_file("sub"));
    assert!(!dest.has_dir("a.txt"));
}

#[test]
fn extract_twice_fail_if_exists_collides() {
    let tree = sample_tree();
    let mut dest = FsModel::new();

    tree.extract(&mut dest, ExtractMode::FailIfExists).unwrap();
    let err = tree.extract(&mut dest, ExtractMode::FailIfExists).unwrap_err();

    // The collision names a file of the tree that was already present.
    assert!(err.path == "a.txt" || err.path == "sub/b.txt");
    // Nothing already written was disturbed.
    assert_eq!(dest.file_contents("a.txt").unwrap().as_slice(), b"hi");
    assert_eq!(dest.file_contents("sub/b.txt").unwrap().as_slice(), b"bye");
}

#[test]
fn extract_twice_overwrite_succeeds_with_identical_contents() {
    let tree = sample_tree();
    let mut dest = FsModel::new();

    tree.extract(&mut dest, ExtractMode::Overwrite).unwrap();
    let first_a = dest.file_contents("a.txt").unwrap().clone();
    let first_b = dest.file_contents("sub/b.txt").unwrap().clone();

    tree.extract(&mut dest, ExtractMode::Overwrite).unwrap();

    assert_eq!(dest.file_contents("a.txt").unwrap(), &first_a);
    assert_eq!(dest.file_contents("sub/b.txt").unwrap(), &first_b);
}

#[test]
fn overwrite_replaces_a_colliding_file() {
    let tree = sample_tree();
    let mut dest = FsModel::new();
    dest.write_file("a.txt", b"old contents", ExtractMode::Overwrite)
        .unwrap();

    tree.extract(&mut dest, ExtractMode::Overwrite).unwrap();

    assert_eq!(dest.file_contents("a.txt").unwrap().as_slice(), b"hi");
}

#[test]
fn existing_directories_are_no_collision() {
    let tree = sample_tree();
    let mut dest = FsModel::new();
    dest.create_dir("sub");

    tree.extract(&mut dest, ExtractMode::FailIfExists).unwrap();

    assert!(dest.has_dir("sub"));
    assert_eq!(dest.file_contents("sub/b.txt").unwrap().as_slice(), b"bye");
}

#[test]
fn fail_if_exists_stops_on_an_unrelated_file_of_the_same_name() {
    let tree = sample_tree();
    let mut dest = FsModel::new();
    dest.write_file("sub/b.txt", b"mine", ExtractMode::Overwrite)
        .unwrap();

    let err = tree.extract(&mut dest, ExtractMode::FailIfExists).unwrap_err();

    assert_eq!(err.path, "sub/b.txt");
    // The colliding file keeps its previous contents.
    assert_eq!(dest.file_contents("sub/b.txt").unwrap().as_slice(), b"mine");
}

#[test]
fn model_write_fail_if_exists_refuses_only_occupied_paths() {
    let mut dest = FsModel::new();

    dest.write_file("x", b"1", ExtractMode::FailIfExists).unwrap();
    let err = dest.write_file("x", b"2", ExtractMode::FailIfExists).unwrap_err();
    assert_eq!(err.path, "x");
    assert_eq!(dest.file_contents("x").unwrap().as_slice(), b"1");

    dest.write_file("x", b"3", ExtractMode::Overwrite).unwrap();
    assert_eq!(dest.file_contents("x").unwrap().as_slice(), b"3");
}

#[test]
fn options_ignore_matches_by_glob() {
    let mut options = Options::new();
    options.ignore("*.log").unwrap();
    options.ignore("target").unwrap();

    assert!(options.is_ignored("build.log"));
    assert!(options.is_ignored("target"));
    assert!(!options.is_ignored("src"));
    assert!(!options.is_ignored("deep/build.log"));

    assert!(options.ignore("[").is_err());
    // The failed pattern was not added.
    assert!(!options.is_ignored("x"));
}
