use git2::Oid;
use git_fat::error::FatError;
use git_fat::index::{
    extended_attributes, IndexAction, IndexFilter, StagedAttributes, StagedEntry, FILE_MODE,
    SYMLINK_MODE,
};

fn id(digit: u8) -> Oid {
    Oid::from_bytes(&[digit; 20]).unwrap()
}

fn entry(path: &[u8], mode: u32, digit: u8) -> StagedEntry {
    StagedEntry { path: path.to_vec(), mode, id: id(digit) }
}

// The positions that a conversion stages, where every placeholder is new.
fn staged_positions(filelist: &str, entries: Vec<StagedEntry>) -> Vec<usize> {
    let mut filter = IndexFilter::new(filelist, false, entries);
    let mut positions: Vec<usize> = Vec::new();
    let mut action = filter.begin();
    loop {
        action = match action {
            IndexAction::Recall { .. } => match filter.recalled(None) {
                Ok(next) => next,
                Err(_) => panic!("refused"),
            },
            IndexAction::Clean { .. } => filter.cleaned(id(0x77)),
            IndexAction::Stage { entry, .. } => {
                positions.push(entry);
                filter.staged()
            }
            IndexAction::ReadAttributes => panic!("attributes"),
            IndexAction::StageAttributes(_) => panic!("attributes"),
            IndexAction::Finish => return positions,
        };
    }
}

#[test]
fn listed_files_are_converted() {
    let entries = vec![
        entry(b"a.bin", 0o100755, 1),
        entry(b"c.bin", 0o100644, 2),
        entry(b"", 0o100644, 3),
        entry(b"d/b.bin", 0o100644, 4),
    ];
    assert_eq!(staged_positions("d/b.bin\na.bin\r\n", entries), vec![0, 3]);
}

#[test]
fn symbolic_links_are_left_alone() {
    let entries = vec![entry(b"a.bin", 0o120000, 1), entry(b"b.bin", 0o100644, 2)];
    assert_eq!(staged_positions("a.bin\nb.bin\n", entries), vec![1]);
    assert_eq!(SYMLINK_MODE, 0o120000);
    assert_eq!(FILE_MODE, 0o100644);
}

#[test]
fn names_that_are_no_text_are_compared_as_replaced() {
    let entries = vec![entry(b"a\xff", 0o100644, 1), entry(b"a", 0o100644, 2)];
    assert_eq!(staged_positions("a\u{fffd}\n", entries), vec![0]);
}

#[test]
fn nothing_listed_is_nothing_done() {
    let mut filter = IndexFilter::new("", true, vec![entry(b"a", 0o100644, 1)]);
    assert!(matches!(filter.begin(), IndexAction::Finish));
    let mut filter = IndexFilter::new("a\n", true, Vec::new());
    assert!(matches!(filter.begin(), IndexAction::Finish));
}

#[test]
fn modes_decide_on_a_name() {
    let filter = IndexFilter::new("a.bin\n", true, Vec::new());
    assert!(filter.selects(0o100644, "a.bin"));
    assert!(!filter.selects(0o120000, "a.bin"));
    assert!(!filter.selects(0o100644, "a.bi"));
}

#[test]
fn a_conversion_runs_to_its_end() {
    let entries = vec![entry(b"a", 0o100644, 0xab), entry(b"x", 0o100644, 2), entry(b"b", 0o100644, 3)];
    let mut filter = IndexFilter::new("a\nb\n", true, entries);

    match filter.begin() {
        IndexAction::Recall { name } => assert_eq!(name, "abababababababababababababababababababab"),
        _ => panic!("not recalled"),
    }
    match filter.recalled(None) {
        Ok(IndexAction::Clean { id: blob }) => assert_eq!(blob, id(0xab)),
        _ => panic!("not cleaned"),
    }
    match filter.cleaned(id(0x0f)) {
        IndexAction::Stage { entry, id: new_id, memo: Some(memo) } => {
            assert_eq!(entry, 0);
            assert_eq!(new_id, id(0x0f));
            assert_eq!(memo.name, "abababababababababababababababababababab");
            assert_eq!(memo.text, "0f0f0f0f0f0f0f0f0f0f0f0f0f0f0f0f0f0f0f0f\n");
        }
        _ => panic!("not staged"),
    }

    match filter.staged() {
        IndexAction::Recall { name } => assert_eq!(name, "0303030303030303030303030303030303030303"),
        _ => panic!("not recalled"),
    }
    match filter.recalled(Some("0f0f0f0f0f0f0f0f0f0f0f0f0f0f0f0f0f0f0f0f\n")) {
        Ok(IndexAction::Stage { entry, id: new_id, memo: None }) => {
            assert_eq!(entry, 2);
            assert_eq!(new_id, id(0x0f));
        }
        _ => panic!("not staged"),
    }

    assert!(matches!(filter.staged(), IndexAction::ReadAttributes));
    let current = StagedAttributes { mode: 0o100755, content: Some(b"*.txt text\n".to_vec()) };
    match filter.attributes_read(Some(current)) {
        IndexAction::StageAttributes(new) => {
            assert_eq!(new.mode, 0o100755);
            assert_eq!(new.content, "*.txt text\na filter=fat -text\nb filter=fat -text\n");
            assert_eq!(new.file_size, 49);
        }
        _ => panic!("not staged"),
    }
    assert!(matches!(filter.attributes_staged(), IndexAction::Finish));
}

#[test]
fn a_memory_that_is_no_id_is_refused() {
    let mut filter = IndexFilter::new("a\n", true, vec![entry(b"a", 0o100644, 1)]);
    assert!(matches!(filter.begin(), IndexAction::Recall { .. }));
    assert!(matches!(filter.recalled(Some("no id")), Err(FatError::Git(_))));
    assert!(matches!(filter.recalled(Some("\n")), Err(FatError::Git(_))));
    assert!(matches!(filter.recalled(None), Ok(IndexAction::Clean { .. })));
}

// A conversion of one file that is about to look up the attributes.
fn converted(update_gitattributes: bool) -> (IndexFilter, IndexAction) {
    let mut filter =
        IndexFilter::new("a\n", update_gitattributes, vec![entry(b"a", 0o100644, 1)]);
    assert!(matches!(filter.begin(), IndexAction::Recall { .. }));
    assert!(matches!(filter.recalled(None), Ok(IndexAction::Clean { .. })));
    assert!(matches!(filter.cleaned(id(2)), IndexAction::Stage { .. }));
    let action = filter.staged();
    (filter, action)
}

#[test]
fn attributes_can_be_new() {
    let (mut filter, action) = converted(true);
    assert!(matches!(action, IndexAction::ReadAttributes));
    match filter.attributes_read(None) {
        IndexAction::StageAttributes(new) => {
            assert_eq!(new.mode, 0o100644);
            assert_eq!(new.content, "a filter=fat -text\n");
            assert_eq!(new.file_size, 19);
        }
        _ => panic!("not staged"),
    }
}

#[test]
fn attributes_that_cannot_be_read_are_written_anew() {
    let (mut filter, action) = converted(true);
    assert!(matches!(action, IndexAction::ReadAttributes));
    match filter.attributes_read(Some(StagedAttributes { mode: 0o100755, content: None })) {
        IndexAction::StageAttributes(new) => {
            assert_eq!(new.mode, 0o100755);
            assert_eq!(new.content, "a filter=fat -text\n");
        }
        _ => panic!("not staged"),
    }
}

#[test]
fn attributes_can_be_left_alone() {
    let (_, action) = converted(false);
    assert!(matches!(action, IndexAction::Finish));
}

#[test]
fn a_new_attribute_is_a_line_of_its_own() {
    let (mut filter, action) = converted(true);
    assert!(matches!(action, IndexAction::ReadAttributes));
    let current = StagedAttributes { mode: 0o100644, content: Some(b"*.md text".to_vec()) };
    match filter.attributes_read(Some(current)) {
        IndexAction::StageAttributes(new) => {
            assert_eq!(new.content, "*.md text\na filter=fat -text\n");
            assert_eq!(new.file_size, 29);
        }
        _ => panic!("not staged"),
    }
}

#[test]
fn an_unfinished_line_is_ended() {
    let names = vec!["a".to_string()];
    let new = extended_attributes(0o100644, "*.txt text".to_string(), &names);
    assert_eq!(new.content, "*.txt text\na filter=fat -text\n");
    assert_eq!(new.file_size, 30);
    let none: Vec<String> = Vec::new();
    let ended = extended_attributes(0o100644, "a\n\n".to_string(), &none);
    assert_eq!(ended.content, "a\n\n");
    let empty = extended_attributes(0o100644, String::new(), &names);
    assert_eq!(empty.content, "a filter=fat -text\n");
}
