use git2::Oid;
use git_fat::error::{other_err, FatError};
use git_fat::git::{
    git_common_dir, git_dir, join_repo_path, managed_file, ManagedFiles, TreeEntry, WalkRequest,
};
use git_fat::oid::parse_oid;
use git_fat::placeholder::{encode_placeholder, EntryKind};
use std::collections::HashMap;
use std::path::PathBuf;

const DIGEST: &str = "f572d396fae9206628714fb2ce00f72e94f2258f";

fn id(digit: u8) -> Oid {
    Oid::from_bytes(&[digit; 20]).unwrap()
}

fn entry(name: &str, kind: EntryKind, digit: u8) -> TreeEntry {
    TreeEntry { name: name.to_string(), kind, id: id(digit) }
}

#[test]
fn the_git_directory_has_to_be_set() {
    assert_eq!(git_dir(Some("/repo/.git".to_string())).unwrap(), PathBuf::from("/repo/.git"));
    match git_dir(None) {
        Err(FatError::Other(text)) => {
            assert_eq!(text, "GIT_DIR is not set; cannot determine git directory")
        }
        _ => panic!("no error"),
    }
}

#[test]
fn other_errors_keep_their_message() {
    match other_err("something") {
        FatError::Other(text) => assert_eq!(text, "something"),
        _ => panic!("another kind"),
    }
}

#[test]
fn a_linked_worktree_shares_its_directory() {
    let common = |path: &str| git_common_dir(&PathBuf::from(path));
    assert_eq!(common("/repo/.git/worktrees/x"), PathBuf::from("/repo/.git"));
    assert_eq!(common("/repo/.git/worktrees/x/"), PathBuf::from("/repo/.git"));
    assert_eq!(common("worktrees/x"), PathBuf::from(""));
    assert_eq!(common("/worktrees/x"), PathBuf::from("/"));
}

#[test]
fn another_git_directory_is_its_own() {
    for path in ["/repo/.git", "/repo/.git/worktrees", "/repo/worktrees/x/y", "", "/", ".git", "x/worktree/y"] {
        assert_eq!(git_common_dir(&PathBuf::from(path)), PathBuf::from(path));
    }
}

#[test]
fn repository_paths_are_joined() {
    assert_eq!(join_repo_path("", "a"), "a");
    assert_eq!(join_repo_path("d", "a"), "d/a");
    assert_eq!(join_repo_path("d/e/", "a"), "d/e/a");
    assert_eq!(join_repo_path("d", ""), "d/");
    assert_eq!(join_repo_path("d", "/a"), "/a");
    for (dir, name) in [("", "a"), ("d", "a"), ("d/", "a"), ("d", ""), ("d", "/a"), ("\u{e9}", "x")] {
        let expected = PathBuf::from(dir).join(name);
        assert_eq!(join_repo_path(dir, name), expected.to_str().unwrap());
    }
}

#[test]
fn a_walk_finds_every_blob_in_order() {
    let mut trees: HashMap<Oid, Vec<TreeEntry>> = HashMap::new();
    trees.insert(
        id(1),
        vec![entry("b", EntryKind::Blob, 11), entry("sub", EntryKind::Tree, 2), entry("c", EntryKind::Blob, 12)],
    );
    trees.insert(id(2), vec![entry("d", EntryKind::Blob, 13)]);
    let root = vec![
        entry("a", EntryKind::Blob, 10),
        entry("dir", EntryKind::Tree, 1),
        entry("link", EntryKind::Other, 20),
        entry("lost", EntryKind::Tree, 9),
        entry("e", EntryKind::Blob, 14),
    ];
    let mut walk = ManagedFiles::new(Some(root));
    let mut found: Vec<(String, Oid)> = Vec::new();
    loop {
        match walk.next_request() {
            WalkRequest::Blob { path, id } => found.push((path, id)),
            WalkRequest::Tree { path, id } => {
                let entries = trees.remove(&id);
                walk.enter(path, entries);
            }
            WalkRequest::Done => break,
        }
    }
    assert_eq!(
        found,
        vec![
            ("a".to_string(), id(10)),
            ("dir/b".to_string(), id(11)),
            ("dir/sub/d".to_string(), id(13)),
            ("dir/c".to_string(), id(12)),
            ("e".to_string(), id(14)),
        ]
    );
}

#[test]
fn a_repository_without_a_head_has_no_files() {
    assert!(matches!(ManagedFiles::new(None).next_request(), WalkRequest::Done));
    assert!(matches!(ManagedFiles::new(Some(vec![])).next_request(), WalkRequest::Done));
}

#[test]
fn managed_files_are_placeholders() {
    let content = encode_placeholder(DIGEST, 6);
    match managed_file("d/a".to_string(), &content) {
        Some(file) => {
            assert_eq!(file.path, "d/a");
            assert_eq!(file.digest, DIGEST);
            assert_eq!(file.size, 74);
        }
        None => panic!("not managed"),
    }
    assert!(managed_file("d/a".to_string(), b"text").is_none());
    assert!(managed_file("d/a".to_string(), b"#$# git-fat ").is_none());
}

#[test]
fn object_ids_are_read() {
    let text = "decbf2be529ab6557d5429922251e5ee36519817";
    assert_eq!(parse_oid(text).unwrap().to_string(), text);
    assert_eq!(parse_oid("DECBF2B").unwrap().to_string(), "decbf2b000000000000000000000000000000000");
    for wrong in ["", "xyz", "decbf2be529ab6557d5429922251e5ee365198170", "12 ", "\u{e9}"] {
        assert!(matches!(parse_oid(wrong), Err(FatError::Git(_))));
    }
}
