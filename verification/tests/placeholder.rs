use git_fat::placeholder::{
    digest_field, encode_placeholder, extract_digest, is_fat_placeholder, read_block, read_prefix,
    EntryKind, BLOCK_SIZE, COOKIE, MAGICLEN, PREFIX_SIZE,
};

const DIGEST: &str = "f572d396fae9206628714fb2ce00f72e94f2258f";

#[test]
fn encodes_a_placeholder() {
    assert_eq!(
        encode_placeholder(DIGEST, 6),
        b"#$# git-fat f572d396fae9206628714fb2ce00f72e94f2258f                    6\n".to_vec()
    );
    assert_eq!(
        encode_placeholder("d", 18446744073709551615),
        b"#$# git-fat d 18446744073709551615\n".to_vec()
    );
    assert_eq!(encode_placeholder("", 0), b"#$# git-fat                     0\n".to_vec());
}

#[test]
fn formats_as_the_standard_formatter_does() {
    for size in [0usize, 1, 9, 10, 99, 100, 4096, 1234567890123] {
        let expected = format!("{}{} {:20}\n", COOKIE, DIGEST, size).into_bytes();
        assert_eq!(encode_placeholder(DIGEST, size), expected);
    }
}

#[test]
fn constants_have_their_values() {
    assert_eq!(BLOCK_SIZE, 4194304);
    assert_eq!(PREFIX_SIZE, 1024);
    assert_eq!(COOKIE, "#$# git-fat ");
    assert_eq!(MAGICLEN, 74);
}

#[test]
fn placeholders_have_the_magic_length() {
    assert_eq!(encode_placeholder(DIGEST, 0).len(), MAGICLEN);
    assert_eq!(encode_placeholder(DIGEST, usize::MAX).len(), MAGICLEN);
}

#[test]
fn extracts_what_was_encoded() {
    let block = encode_placeholder(DIGEST, 123456);
    assert_eq!(extract_digest(&block), Ok(DIGEST.to_string()));
    assert_eq!(extract_digest(&block[..52]), Ok(DIGEST.to_string()));
    assert_eq!(extract_digest(&encode_placeholder("d\u{e9}j\u{e0}", 1)), Ok("d\u{e9}j\u{e0}".to_string()));
}

#[test]
fn a_space_ends_the_digest() {
    assert_eq!(extract_digest(&encode_placeholder("a b", 1)), Ok("a".to_string()));
    assert_eq!(extract_digest(b"#$# git-fat "), Ok("".to_string()));
    assert_eq!(extract_digest(b"#$# git-fat  x"), Ok("".to_string()));
    assert_eq!(extract_digest(b"#$# git-fat abc\n"), Ok("abc\n".to_string()));
}

#[test]
fn other_files_are_no_placeholders() {
    let error = Err("not a git-fat placeholder file");
    assert_eq!(extract_digest(b""), error);
    assert_eq!(extract_digest(b"#$# git-fat"), error);
    assert_eq!(extract_digest(b"#$# git-fax abc"), error);
    assert_eq!(extract_digest(b" #$# git-fat abc"), error);
}

#[test]
fn invalid_utf8_is_replaced() {
    assert_eq!(extract_digest(b"#$# git-fat a\xffb 1"), Ok("a\u{fffd}b".to_string()));
    assert_eq!(digest_field(b"#$# git-fat a\xffb 1"), Some(b"a\xffb".to_vec()));
    assert_eq!(digest_field(b"else"), None);
}

#[test]
fn placeholders_are_blobs_of_the_magic_length() {
    assert!(is_fat_placeholder(EntryKind::Blob, Some(74)));
    assert!(!is_fat_placeholder(EntryKind::Blob, Some(73)));
    assert!(!is_fat_placeholder(EntryKind::Blob, None));
    assert!(!is_fat_placeholder(EntryKind::Tree, Some(74)));
    assert!(!is_fat_placeholder(EntryKind::Other, Some(74)));
}

#[test]
fn reads_are_cut_to_their_length() {
    assert_eq!(read_prefix(vec![1, 2, 3, 0], 3), vec![1, 2, 3]);
    assert_eq!(read_prefix(vec![1, 2], 0), Vec::<u8>::new());
    assert_eq!(read_block(&vec![1, 2, 3, 0], 2), Some(vec![1, 2]));
    assert_eq!(read_block(&vec![1, 2, 3, 0], 0), None);
}
