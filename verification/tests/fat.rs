use git2::Oid;
use git_fat::backend::BackendConfig;
use git_fat::error::FatError;
use git_fat::fat::{
    cached_objects, managed_objects, CacheEntry, Candidate, CheckoutStep, GitFat, HeadEntry,
    OrphanFile, RepoLayout, Setup, CLEAN_COMMAND, CLEAN_KEY, SMUDGE_COMMAND, SMUDGE_KEY,
};
use git_fat::filter::CleanFilter;
use git_fat::index::{IndexAction, StagedEntry};
use git_fat::names::NameSet;
use git_fat::placeholder::{encode_placeholder, EntryKind};
use std::path::PathBuf;

const DIGEST: &str = "f572d396fae9206628714fb2ce00f72e94f2258f";

fn layout(workdir: Option<&str>) -> RepoLayout {
    RepoLayout {
        git_dir: PathBuf::from("/repo/.git/worktrees/x"),
        common_dir: PathBuf::from("/repo/.git"),
        workdir: workdir.map(PathBuf::from),
    }
}

fn git_fat() -> GitFat {
    GitFat::new(false, false, None, layout(Some("/repo")))
}

fn set(names: &[&str]) -> NameSet {
    let mut res = NameSet::new();
    for name in names {
        res.insert(name.to_string());
    }
    res
}

fn strings(texts: &[&str]) -> Vec<String> {
    texts.iter().map(|text| text.to_string()).collect()
}

fn other(res: Result<(), FatError>) -> String {
    match res {
        Err(FatError::Other(text)) => text,
        _ => panic!("no such error"),
    }
}

#[test]
fn a_repository_knows_its_places() {
    let gf = git_fat();
    assert_eq!(gf.object_dir(), &PathBuf::from("/repo/.git/fat/objects"));
    assert_eq!(gf.config_file(), &PathBuf::from("/repo/.gitfat"));
    assert_eq!(gf.working_directory().unwrap(), PathBuf::from("/repo"));
    assert_eq!(gf.object_path("abc"), PathBuf::from("/repo/.git/fat/objects/abc"));
    assert_eq!(gf.index_filter_dir().unwrap(), PathBuf::from("/repo/.git/fat/index-filter"));
}

#[test]
fn a_bare_repository_has_no_working_directory() {
    let gf = GitFat::new(false, false, None, layout(None));
    assert_eq!(gf.config_file(), &PathBuf::from("/repo/.git/worktrees/x/.gitfat"));
    assert_eq!(other(gf.working_directory().map(|_| ())), "no working directory");
}

#[test]
fn the_configuration_can_be_given() {
    let gf = GitFat::new(true, true, Some(PathBuf::from("/etc/gitfat")), layout(Some("/repo")));
    assert_eq!(gf.config_file(), &PathBuf::from("/etc/gitfat"));
}

#[test]
fn only_missing_filters_are_set() {
    let gf = git_fat();
    assert_eq!(gf.configure(true, true, true), None);
    assert_eq!(gf.configure(true, true, false), Some(Setup { set_clean: false, set_smudge: false }));
    assert_eq!(gf.configure(false, true, true), Some(Setup { set_clean: true, set_smudge: false }));
    assert_eq!(gf.configure(true, false, true), Some(Setup { set_clean: false, set_smudge: true }));
    assert_eq!(gf.configure(false, false, false), Some(Setup { set_clean: true, set_smudge: true }));
    assert_eq!(CLEAN_KEY, "filter.fat.clean");
    assert_eq!(CLEAN_COMMAND, "git-fat filter-clean %f");
    assert_eq!(SMUDGE_KEY, "filter.fat.smudge");
    assert_eq!(SMUDGE_COMMAND, "git-fat filter-smudge %f");
}

#[test]
fn smudging_looks_where_cleaning_stored() {
    let gf = git_fat();
    let mut filter = CleanFilter::new();
    filter.feed(b"hello\n");
    let (object, cleaned) = gf.filter_clean(filter);
    assert_eq!(cleaned.digest, DIGEST);
    assert_eq!(object, PathBuf::from("/repo/.git/fat/objects").join(DIGEST));
    assert_eq!(gf.filter_smudge(&cleaned.placeholder), Some(object));
    assert_eq!(gf.filter_smudge(b"hello\n"), None);
    assert_eq!(gf.filter_smudge(b"#$# git-fat "), None);
    assert_eq!(
        gf.filter_smudge(b"#$# git-fat abc 3\n"),
        Some(PathBuf::from("/repo/.git/fat/objects/abc"))
    );
}

fn candidate(path: &str, prefix: Option<&[u8]>) -> Candidate {
    Candidate {
        path: path.to_string(),
        kind: EntryKind::Blob,
        size: Some(74),
        prefix: prefix.map(|bytes| bytes.to_vec()),
    }
}

#[test]
fn orphans_hold_placeholders() {
    let gf = git_fat();
    let placeholder = encode_placeholder(DIGEST, 6);
    let mut short = candidate("f", Some(&placeholder));
    short.size = Some(73);
    let mut unread = candidate("g", Some(&placeholder));
    unread.size = None;
    let mut tree = candidate("h", Some(&placeholder));
    tree.kind = EntryKind::Tree;
    let orphans = gf.orphan_files(vec![
        candidate("a", Some(&placeholder)),
        candidate("b", Some(b"content")),
        candidate("c", None),
        candidate("d", Some(b"#$# git-fat xy\n")),
        candidate("e", Some(b"#$# git-fat ")),
        short,
        unread,
        tree,
    ]);
    let texts: Vec<(String, String)> =
        orphans.into_iter().map(|orphan| (orphan.digest, orphan.path)).collect();
    assert_eq!(
        texts,
        vec![(DIGEST.to_string(), "a".to_string()), ("xy\n".to_string(), "d".to_string())]
    );
}

#[test]
fn cached_orphans_are_restored() {
    let gf = git_fat();
    let orphan = OrphanFile { digest: "abc".to_string(), path: "d/a".to_string() };
    match gf.checkout(&orphan, true, false) {
        CheckoutStep::Restore { message, args } => {
            assert_eq!(message, "Restoring abc -> d/a");
            assert_eq!(args, strings(&["checkout-index", "--index", "--force", "--", "d/a"]));
        }
        _ => panic!("not restored"),
    }
}

#[test]
fn lost_orphans_are_reported_on_demand() {
    let gf = git_fat();
    let orphan = OrphanFile { digest: "abc".to_string(), path: "d/a".to_string() };
    match gf.checkout(&orphan, false, true) {
        CheckoutStep::Report { message } => assert_eq!(message, "Data unavailable: abc d/a"),
        _ => panic!("not reported"),
    }
    assert!(matches!(gf.checkout(&orphan, false, false), CheckoutStep::Skip));
}

#[test]
fn large_files_are_reported_once() {
    let id = Oid::from_bytes(&[0x12; 20]).unwrap();
    let mut search = git_fat().find(100);
    let line = "1212121212121212121212121212121212121212 101 d/a".to_string();
    assert_eq!(search.visit(EntryKind::Blob, &id, Some(101), "d/a", b"d/a"), Some(line));
    assert_eq!(search.visit(EntryKind::Blob, &id, Some(101), "d/a", b"d/a"), None);
    assert_eq!(search.visit(EntryKind::Blob, &id, Some(100), "d/b", b"d/b"), None);
    assert_eq!(search.visit(EntryKind::Blob, &id, None, "d/b", b"d/b"), None);
    assert_eq!(search.visit(EntryKind::Tree, &id, Some(200), "d", b"d"), None);
    assert!(search.visit(EntryKind::Blob, &id, Some(101), "d/c", b"d/c").is_some());
}

#[test]
fn large_files_are_told_apart_by_their_bytes() {
    let id = Oid::from_bytes(&[0x12; 20]).unwrap();
    let other = Oid::from_bytes(&[0x13; 20]).unwrap();
    let mut search = git_fat().find(0);
    let line = Some("1212121212121212121212121212121212121212 5 d/".to_string());
    assert_eq!(search.visit(EntryKind::Blob, &id, Some(5), "d/", b"d/\xff"), line);
    assert_eq!(search.visit(EntryKind::Blob, &id, Some(5), "d/", b"d/\xfe"), line);
    assert_eq!(search.visit(EntryKind::Blob, &id, Some(5), "d/", b"d/\xff"), None);
    assert!(search.visit(EntryKind::Blob, &other, Some(5), "d/", b"d/\xff").is_some());
}

fn blob(content: &[u8]) -> HeadEntry {
    HeadEntry {
        path: "d/a".to_string(),
        kind: EntryKind::Blob,
        size: Some(content.len()),
        content: Some(content.to_vec()),
    }
}

// As long as a placeholder, beginning as given.
fn padded(start: &[u8]) -> Vec<u8> {
    let mut content = start.to_vec();
    content.resize(74, b' ');
    content
}

#[test]
fn managed_files_are_listed() {
    let gf = git_fat();
    let placeholder = encode_placeholder(DIGEST, 6);
    assert_eq!(gf.list(&blob(&placeholder)), Some(format!("{} d/a", DIGEST)));
    assert_eq!(gf.list(&blob(&padded(b"#$# git-fat xy\n"))), Some("xy d/a".to_string()));
    assert_eq!(gf.list(&blob(b"#$# git-fat xy\n")), None);
    assert_eq!(gf.list(&blob(&padded(b"text"))), None);
    assert_eq!(gf.list(&blob(&padded(b"#$# git-fat "))), None);
    let mut tree = blob(&placeholder);
    tree.kind = EntryKind::Tree;
    assert_eq!(gf.list(&tree), None);
    let mut unread = blob(&placeholder);
    unread.content = None;
    assert_eq!(gf.list(&unread), None);
}

#[test]
fn objects_are_pushed_or_pulled() {
    let gf = git_fat();
    let managed = set(&["a", "b", "c"]);
    let cached = set(&["c", "x", "a"]);
    assert_eq!(gf.push(&managed, &cached).items(), &strings(&["a", "c"]));
    match gf.pull(&managed, &cached) {
        Some(files) => assert_eq!(files.items(), &strings(&["b"])),
        None => panic!("nothing to pull"),
    }
    assert!(gf.pull(&managed, &set(&["b", "a", "c"])).is_none());
    assert!(gf.pull(&set(&[]), &cached).is_none());
}

#[test]
fn failed_transfers_are_errors() {
    let gf = git_fat();
    assert!(gf.push_outcome(true).is_ok());
    assert!(gf.pull_outcome(true).is_ok());
    assert_eq!(other(gf.push_outcome(false)), "push failed");
    assert_eq!(other(gf.pull_outcome(false)), "pull failed");
}

#[test]
fn the_status_tells_orphans_and_stale_objects() {
    let gf = git_fat();
    assert_eq!(
        gf.status(&set(&["a", "b", "c"]), &set(&["c", "x", "y"])),
        strings(&["Orphan objects:", "\t a", "\t b", "Stale objects:", "\t x", "\t y"])
    );
    assert_eq!(gf.status(&set(&["a"]), &set(&["a"])), Vec::<String>::new());
    assert_eq!(gf.status(&set(&[]), &set(&["x"])), strings(&["Stale objects:", "\t x"]));
}

#[test]
fn the_cache_is_its_files() {
    let entries = vec![
        CacheEntry { is_file: true, name: Some("a".to_string()) },
        CacheEntry { is_file: false, name: Some("b".to_string()) },
        CacheEntry { is_file: true, name: None },
        CacheEntry { is_file: true, name: Some("c".to_string()) },
    ];
    assert_eq!(cached_objects(&entries).items(), &strings(&["a", "c"]));
}

#[test]
fn head_refers_to_the_objects_of_its_placeholders() {
    let entries = vec![
        blob(&encode_placeholder(DIGEST, 6)),
        blob(&padded(b"text")),
        blob(&encode_placeholder(DIGEST, 6)),
        blob(&padded(b"#$# git-fat \txy\n 1")),
        blob(b"#$# git-fat zz 1\n"),
    ];
    assert_eq!(managed_objects(&entries).items(), &strings(&[DIGEST, "xy"]));
}

#[test]
fn a_repository_loads_its_backend() {
    let gf = git_fat();
    let config = BackendConfig {
        section: "http".to_string(),
        remote: Some("x".to_string()),
        ssh_user: None,
        ssh_port: None,
        remote_is_dir: false,
    };
    match gf.load_backend(config) {
        Err(FatError::Unsupported(text)) => assert_eq!(text, "unknown backend 'http' in /repo/.gitfat"),
        _ => panic!("loaded"),
    }
}

#[test]
fn a_conversion_starts_with_the_list() {
    let id = git2::Oid::from_bytes(&[1; 20]).unwrap();
    let entries = vec![
        StagedEntry { path: b"b".to_vec(), mode: 0o100644, id },
        StagedEntry { path: b"a".to_vec(), mode: 0o100644, id },
    ];
    let mut filter = git_fat().index_filter("a\n", true, entries);
    assert!(matches!(filter.begin(), IndexAction::Recall { .. }));
    assert!(matches!(filter.recalled(None), Ok(IndexAction::Clean { .. })));
    assert!(matches!(filter.cleaned(id), IndexAction::Stage { entry: 1, .. }));
    assert!(matches!(filter.staged(), IndexAction::ReadAttributes));
}
