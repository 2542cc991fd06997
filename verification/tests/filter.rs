use git_fat::filter::{
    cache_action, find_digest, find_object, object_name, smudge_source, CacheAction, CleanFilter, SmudgeSource,
};

#[test]
fn cleans_a_file() {
    let mut filter = CleanFilter::new();
    filter.feed(b"hello\n");
    assert_eq!(filter.total_size(), 6);
    let cleaned = filter.finish();
    assert_eq!(cleaned.digest, "f572d396fae9206628714fb2ce00f72e94f2258f");
    assert_eq!(
        cleaned.placeholder,
        b"#$# git-fat f572d396fae9206628714fb2ce00f72e94f2258f                    6\n".to_vec()
    );
}

#[test]
fn cleans_the_empty_file() {
    let cleaned = CleanFilter::new().finish();
    assert_eq!(cleaned.digest, "da39a3ee5e6b4b0d3255bfef95601890afd80709");
    assert_eq!(cleaned.placeholder.len(), 74);
}

#[test]
fn blocks_do_not_matter() {
    let mut filter = CleanFilter::new();
    filter.feed(b"a");
    filter.feed(b"");
    filter.feed(b"bc");
    let cleaned = filter.finish();
    assert_eq!(cleaned.digest, "a9993e364706816aba3e25717850c26c9cd0d89d");
    assert_eq!(
        cleaned.placeholder,
        b"#$# git-fat a9993e364706816aba3e25717850c26c9cd0d89d                    3\n".to_vec()
    );
}

#[test]
fn the_size_stays_countable() {
    let mut filter = CleanFilter::new();
    filter.feed(b"abc");
    assert!(filter.has_room(1000));
    assert!(!filter.has_room(usize::MAX));
    assert!(!filter.has_room(0x2000_0000_0000_0000));
}

#[test]
fn smudging_finds_what_cleaning_stored() {
    let mut filter = CleanFilter::new();
    filter.feed(b"some large content");
    let cleaned = filter.finish();
    assert_eq!(find_object(&cleaned.placeholder), Some(cleaned.digest.clone()));
    assert_eq!(find_object(&cleaned.placeholder[..60]), Some(cleaned.digest));
}

#[test]
fn other_files_stand_for_themselves() {
    assert_eq!(find_object(b"some text"), None);
    assert_eq!(find_object(b""), None);
    assert_eq!(find_object(b"#$# git-fat "), None);
    assert_eq!(find_object(b"#$# git-fat  \n"), None);
    assert_eq!(find_object(b"#$# git-fat \n"), None);
    assert_eq!(find_digest(b"#$# git-fat \t"), None);
    assert_eq!(find_digest(b"#$# git-fat abc\n"), Some("abc\n".to_string()));
}

#[test]
fn object_names_are_trimmed() {
    assert_eq!(find_object(b"#$# git-fat abc\n"), Some("abc".to_string()));
    assert_eq!(object_name("\t abc\u{3000}\n"), "abc");
    assert_eq!(object_name("a b"), "a b");
    assert_eq!(object_name(" \n"), "");
}

#[test]
fn smudging_takes_the_object_where_it_can() {
    assert_eq!(smudge_source(true, true), SmudgeSource::Object);
    assert_eq!(smudge_source(true, false), SmudgeSource::Input);
    assert_eq!(smudge_source(false, true), SmudgeSource::Input);
    assert_eq!(smudge_source(false, false), SmudgeSource::Input);
}

#[test]
fn cached_objects_are_kept() {
    assert_eq!(cache_action(true), CacheAction::Keep);
    assert_eq!(cache_action(false), CacheAction::Store);
}
