//! The placeholder that stands in the repository for a large file.
use crate::hashing::is_hex_digit;
use crate::text::{
    decimal, from_utf8_lossy, law_decimal_value, lemma_encode_concat, lemma_encoded_ascii_byte,
    lossy_text, replaced_text, right_aligned, right_aligned_decimal, same_bytes,
};
use vstd::prelude::*;
use vstd::slice::{slice_subrange, slice_to_vec};
use vstd::utf8::*;

verus! {

/// The size of the blocks in which a file is read.
pub const BLOCK_SIZE: usize = 4096 * 1024;

/// How much of a file is read to tell whether it is a placeholder.
pub const PREFIX_SIZE: usize = 1024;

/// How a placeholder begins.
pub const COOKIE: &'static str = "#$# git-fat ";

/// The length of a placeholder: the cookie, a digest of forty digits, a space, the size in
/// twenty places and a line feed.
pub const MAGICLEN: usize = 74;

/// What an entry of a Git tree refers to.
#[derive(Debug, Clone, Copy, PartialEq, Eq, Structural)]
pub enum EntryKind {
    Blob,
    Tree,
    Other,
}

/// The text of the placeholder for content of a given digest and size.
pub open spec fn placeholder_text(digest: Seq<char>, size: nat) -> Seq<char> {
    COOKIE@ + digest + seq![' '] + right_aligned(decimal(size), 20) + seq!['\n']
}

/// The placeholder for content of a given digest and size.
pub open spec fn placeholder_bytes(digest: Seq<char>, size: nat) -> Seq<u8> {
    encode_utf8(placeholder_text(digest, size))
}

/// Writes a placeholder.
pub fn encode_placeholder(digest: &str, size: usize) -> (res: Vec<u8>)
    ensures
        res@ == placeholder_bytes(digest@, size as nat),
{
    let mut text: String = COOKIE.to_owned();
    text.append(digest);
    text.push(' ');
    text.append(right_aligned_decimal(size, 20).as_str());
    text.push('\n');
    assert(text@ =~= placeholder_text(digest@, size as nat));
    slice_to_vec(text.as_str().as_bytes())
}

/// The position of the first `byte` at or after `from`, or the length of the block.
pub open spec fn first_byte(block: Seq<u8>, byte: u8, from: int) -> int
    decreases block.len() - from,
{
    if from < 0 || from >= block.len() {
        block.len() as int
    } else if block[from] == byte {
        from
    } else {
        first_byte(block, byte, from + 1)
    }
}

/// Where the first `byte` stands.
proof fn lemma_first_byte(block: Seq<u8>, byte: u8, from: int)
    requires
        0 <= from <= block.len(),
    ensures
        from <= first_byte(block, byte, from) <= block.len(),
        first_byte(block, byte, from) < block.len() ==> block[first_byte(block, byte, from)] == byte,
        forall|i: int| from <= i < first_byte(block, byte, from) ==> block[i] != byte,
    decreases block.len() - from,
{
    if from < block.len() && block[from] != byte {
        lemma_first_byte(block, byte, from + 1);
    }
}

/// The bytes of the cookie.
pub open spec fn cookie_bytes() -> Seq<u8> {
    encode_utf8(COOKIE@)
}

/// Whether a block begins as a placeholder does.
pub open spec fn starts_with_cookie(block: Seq<u8>) -> bool {
    cookie_bytes().is_prefix_of(block)
}

/// The digest that a placeholder holds: what stands between the cookie and the next space, or
/// the end of the block.
pub open spec fn digest_bytes(block: Seq<u8>) -> Seq<u8> {
    block.subrange(
        cookie_bytes().len() as int,
        first_byte(block, 0x20, cookie_bytes().len() as int),
    )
}

/// The digest of a placeholder as text, where a block is a placeholder.
pub open spec fn extracted_digest(block: Seq<u8>) -> Option<Seq<char>> {
    if starts_with_cookie(block) {
        Some(lossy_text(digest_bytes(block)))
    } else {
        None
    }
}

/// Takes the bytes of the digest out of a placeholder. A block that does not begin with the
/// cookie is none.
pub fn digest_field(block: &[u8]) -> (res: Option<Vec<u8>>)
    ensures
        res is Some <==> starts_with_cookie(block@),
        res is Some ==> res->0@ == digest_bytes(block@),
{
    let cookie: &[u8] = COOKIE.as_bytes();
    let start: usize = cookie.len();
    if block.len() < start {
        return None;
    }
    if !same_bytes(slice_subrange(block, 0, start), cookie) {
        assert(!starts_with_cookie(block@)) by {
            if starts_with_cookie(block@) {
                assert(block@.subrange(0, start as int) =~= cookie@);
            }
        }
        return None;
    }
    let mut end: usize = start;
    while end < block.len() && block[end] != 0x20
        invariant
            start <= end <= block@.len(),
            first_byte(block@, 0x20, end as int) == first_byte(block@, 0x20, start as int),
        decreases block@.len() - end,
    {
        end = end + 1;
    }
    Some(slice_to_vec(slice_subrange(block, start, end)))
}

/// Reads the digest of a placeholder.
pub fn extract_digest(block: &[u8]) -> (res: Result<String, &'static str>)
    ensures
        match extracted_digest(block@) {
            Some(digest) => res is Ok && res->Ok_0@ == digest,
            None => res is Err && res->Err_0@ == "not a git-fat placeholder file"@,
        },
{
    match digest_field(block) {
        Some(field) => Ok(from_utf8_lossy(field.as_slice())),
        None => Err("not a git-fat placeholder file"),
    }
}

/// Whether a tree entry may hold a placeholder: it is a blob as long as a placeholder is.
/// The size is unknown where the object cannot be read.
pub open spec fn may_be_placeholder(kind: EntryKind, size: Option<usize>) -> bool {
    kind == EntryKind::Blob && size == Some(MAGICLEN)
}

/// Tells whether a tree entry may hold a placeholder.
pub fn is_fat_placeholder(kind: EntryKind, size: Option<usize>) -> (res: bool)
    ensures
        res == may_be_placeholder(kind, size),
{
    match (kind, size) {
        (EntryKind::Blob, Some(n)) => n == MAGICLEN,
        _ => false,
    }
}

/// Keeps what one read put into a buffer: its first `n` bytes, or the whole buffer where it is no
/// longer than that.
pub fn read_prefix(buffer: Vec<u8>, n: usize) -> (res: Vec<u8>)
    ensures
        res@ == if n <= buffer@.len() {
            buffer@.take(n as int)
        } else {
            buffer@
        },
{
    let mut block: Vec<u8> = buffer;
    block.truncate(n);
    block
}

/// The block that one read of a file gave: the first `n` bytes of the buffer. A read of nothing
/// is the end of the file.
pub fn read_block(buffer: &Vec<u8>, n: usize) -> (res: Option<Vec<u8>>)
    requires
        n <= buffer@.len(),
    ensures
        res is None <==> n == 0,
        res is Some ==> res->0@ == buffer@.take(n as int),
{
    if n == 0 {
        None
    } else {
        let block: Vec<u8> = slice_to_vec(slice_subrange(buffer.as_slice(), 0, n));
        assert(block@ =~= buffer@.take(n as int));
        Some(block)
    }
}

/// The cookie is twelve ASCII characters.
pub proof fn lemma_cookie()
    ensures
        COOKIE@.len() == 12,
        is_ascii_chars(COOKIE@),
        cookie_bytes().len() == 12,
{
    reveal_strlit("#$# git-fat ");
    is_ascii_chars_encode_utf8(COOKIE@);
}

spec fn power_of_ten(digits: nat) -> nat
    decreases digits,
{
    if digits == 0 {
        1
    } else {
        10 * power_of_ten((digits - 1) as nat)
    }
}

/// A number below a power of ten is written in that many decimal digits at most.
proof fn lemma_decimal(n: nat, digits: nat)
    requires
        n < power_of_ten(digits),
        digits > 0,
    ensures
        1 <= decimal(n).len() <= digits,
        is_ascii_chars(decimal(n)),
    decreases digits,
{
    if n >= 10 {
        if digits == 1 {
            reveal_with_fuel(power_of_ten, 2);
        }
        lemma_decimal(n / 10, (digits - 1) as nat);
    }
}

/// A block that holds the placeholder of a digest up to the end of that digest, or further,
/// yields that digest.
pub proof fn law_extract_from_prefix(digest: Seq<char>, size: nat, n: int)
    requires
        !digest.contains(' '),
        cookie_bytes().len() + encode_utf8(digest).len() <= n <= placeholder_bytes(
            digest,
            size,
        ).len(),
    ensures
        extracted_digest(placeholder_bytes(digest, size).take(n)) == Some(digest),
{
    let number = right_aligned(decimal(size), 20);
    let tail = seq![' '] + number + seq!['\n'];
    let field = encode_utf8(digest);
    let start = cookie_bytes().len() as int;
    let whole = placeholder_bytes(digest, size);
    let block = whole.take(n);
    assert(placeholder_text(digest, size) =~= COOKIE@ + (digest + tail));
    lemma_encode_concat(COOKIE@, digest + tail);
    lemma_encode_concat(digest, tail);
    assert(whole =~= cookie_bytes() + field + encode_utf8(tail));
    assert(starts_with_cookie(block));
    let end = first_byte(block, 0x20, start);
    lemma_first_byte(block, 0x20, start);
    if end < start + field.len() {
        assert(block[end] == field[end - start]);
        lemma_encoded_ascii_byte(digest, end - start);
        let i = choose|i: int| 0 <= i < digest.len() && digest[i] as u32 == field[end - start] as u32;
        assert(digest[i] as u32 == 0x20u32);
        char_u32_cast(digest[i], 0x20u32);
        char_u32_cast(' ', 0x20u32);
        assert(digest[i] == ' ');
        assert(digest.contains(' '));
    }
    assert(tail.drop_first() =~= number + seq!['\n']);
    assert(encode_utf8(tail)[0] == 0x20) by {
        assert(tail[0] == ' ');
        assert(encode_scalar(0x20u32)[0] == 0x20) by {
            assert(leading_byte_width_1(0x20u32) == 0x20) by (bit_vector);
        }
    }
    if start + field.len() < end {
        assert(block[start + field.len()] == encode_utf8(tail)[0]);
    }
    assert(digest_bytes(block) =~= field);
    encode_utf8_valid_utf8(digest);
    encode_utf8_decode_utf8(digest);
}

/// A digest as `filter_clean` writes it: forty hexadecimal digits.
pub open spec fn is_digest(digest: Seq<char>) -> bool {
    &&& digest.len() == 40
    &&& forall|i: int| 0 <= i < digest.len() ==> is_hex_digit(#[trigger] digest[i])
}

/// A digest is ASCII, without a space.
pub proof fn lemma_digest(digest: Seq<char>)
    requires
        is_digest(digest),
    ensures
        is_ascii_chars(digest),
        encode_utf8(digest).len() == 40,
        !digest.contains(' '),
{
    assert(is_ascii_chars(digest));
    is_ascii_chars_encode_utf8(digest);
}

/// Every placeholder of a digest has the length by which placeholders are recognised in a tree.
pub proof fn law_placeholder_length(digest: Seq<char>, size: u64)
    requires
        is_digest(digest),
    ensures
        placeholder_bytes(digest, size as nat).len() == MAGICLEN,
{
    reveal_with_fuel(power_of_ten, 21);
    lemma_decimal(size as nat, 20);
    lemma_cookie();
    lemma_digest(digest);
    let text = placeholder_text(digest, size as nat);
    assert(is_ascii_chars(text));
    is_ascii_chars_encode_utf8(text);
}

/// Extracting the digest of a placeholder gives the digest that it was made for, whatever the
/// size, as long as the digest holds no space.
pub proof fn law_extract_inverts_encode(digest: Seq<char>, size: nat)
    requires
        !digest.contains(' '),
    ensures
        extracted_digest(placeholder_bytes(digest, size)) == Some(digest),
{
    let whole = placeholder_bytes(digest, size);
    let tail = seq![' '] + right_aligned(decimal(size), 20) + seq!['\n'];
    assert(placeholder_text(digest, size) =~= COOKIE@ + (digest + tail));
    lemma_encode_concat(COOKIE@, digest + tail);
    lemma_encode_concat(digest, tail);
    law_extract_from_prefix(digest, size, whole.len() as int);
    assert(whole.take(whole.len() as int) =~= whole);
}

/// Only blobs of seventy-four bytes may be placeholders, and all of them may.
pub proof fn law_may_be_placeholder(kind: EntryKind, size: Option<usize>)
    ensures
        may_be_placeholder(kind, size) <==> kind == EntryKind::Blob && size == Some(74usize),
{
}

/// Reading a field of spaces and digits from the left gives the number that its digits write.
proof fn lemma_field_value(field: Seq<u8>, pad: nat, n: nat)
    requires
        field.len() == pad + decimal(n).len(),
        forall|i: int| 0 <= i < pad ==> field[i] == 0x20,
        forall|i: int| 0 <= i < decimal(n).len() ==> field[pad + i] == #[trigger] decimal(n)[i] as u8,
    ensures
        field.fold_left(
            0,
            |value: int, b: u8|
                if b == 0x20 {
                    value
                } else {
                    10 * value + (b as int - 48)
                },
        ) == n,
    decreases n,
{
    let digits = decimal(n);
    let rest = field.drop_last();
    law_decimal_value(n);
    assert(digits[digits.len() - 1] == digits.last());
    assert(field.last() == field[pad + (digits.len() - 1)]);
    assert(field.last() == digits.last() as u8);
    assert(field.last() as int - 48 == n % 10);
    if n >= 10 {
        assert(digits.drop_last() =~= decimal(n / 10));
        assert forall|i: int| 0 <= i < decimal(n / 10).len() implies rest[pad + i]
            == #[trigger] decimal(n / 10)[i] as u8 by {
            assert(decimal(n / 10)[i] == digits[i]);
            assert(rest[pad + i] == field[pad + i]);
        }
        lemma_field_value(rest, pad, n / 10);
    } else {
        lemma_blank_field(rest);
    }
}

/// A field of spaces is worth nothing.
proof fn lemma_blank_field(field: Seq<u8>)
    requires
        forall|i: int| 0 <= i < field.len() ==> field[i] == 0x20,
    ensures
        field.fold_left(
            0,
            |value: int, b: u8|
                if b == 0x20 {
                    value
                } else {
                    10 * value + (b as int - 48)
                },
        ) == 0,
    decreases field.len(),
{
    if field.len() > 0 {
        assert(field.last() == 0x20);
        lemma_blank_field(field.drop_last());
    }
}

/// What stands where in a placeholder: the words `#$# git-fat`, each with a space behind it; the
/// forty digits of the digest; a space; twenty places with the size of the content, which are
/// spaces and then decimal digits that are worth the whole size; and a line feed.
pub proof fn law_placeholder_fields(digest: Seq<char>, size: u64)
    requires
        digest.len() == 40,
        forall|i: int|
            0 <= i < digest.len() ==> '0' <= #[trigger] digest[i] <= '9' || 'a' <= digest[i] <= 'f',
    ensures
        placeholder_bytes(digest, size as nat).len() == 74,
        placeholder_bytes(digest, size as nat).take(12) == encode_utf8("#$# git-fat "@),
        forall|i: int|
            12 <= i < 52 ==> #[trigger] placeholder_bytes(digest, size as nat)[i] as int
                == digest[i - 12] as int,
        placeholder_bytes(digest, size as nat)[52] == 0x20,
        forall|i: int|
            53 <= i < 73 ==> #[trigger] placeholder_bytes(digest, size as nat)[i] == 0x20 || 48
                <= placeholder_bytes(digest, size as nat)[i] <= 57,
        forall|i: int, j: int|
            53 <= i < j < 73 && #[trigger] placeholder_bytes(digest, size as nat)[i] != 0x20
                ==> #[trigger] placeholder_bytes(digest, size as nat)[j] != 0x20,
        placeholder_bytes(digest, size as nat)[72] != 0x20,
        placeholder_bytes(digest, size as nat).subrange(53, 73).fold_left(
            0,
            |value: int, b: u8|
                if b == 0x20 {
                    value
                } else {
                    10 * value + (b as int - 48)
                },
        ) == size,
        placeholder_bytes(digest, size as nat)[73] == 0x0a,
{
    let n = size as nat;
    let digits = decimal(n);
    let number = right_aligned(digits, 20);
    let text = placeholder_text(digest, n);
    let bytes = placeholder_bytes(digest, n);
    assert(is_digest(digest));
    law_placeholder_length(digest, size);
    lemma_cookie();
    reveal_strlit("#$# git-fat ");
    reveal_with_fuel(power_of_ten, 21);
    lemma_decimal(n, 20);
    law_decimal_value(n);
    lemma_digest(digest);
    let pad = (20 - digits.len()) as nat;
    assert(is_ascii_chars(text));
    is_ascii_chars_encode_utf8(text);
    let rest = digest + seq![' '] + number + seq!['\n'];
    assert(text =~= COOKIE@ + rest);
    lemma_encode_concat(COOKIE@, rest);
    assert(bytes.take(12) =~= cookie_bytes());
    assert forall|i: int| 12 <= i < 52 implies #[trigger] bytes[i] as int
        == digest[i - 12] as int by {
        assert(text[i] == digest[i - 12]);
        assert('0' <= digest[i - 12] <= '9' || 'a' <= digest[i - 12] <= 'f');
    }
    assert(text[52] == ' ' && text[73] == '\n');
    assert forall|i: int| 53 <= i < 53 + pad implies #[trigger] bytes[i] == 0x20 by {
        assert(text[i] == number[i - 53]);
    }
    assert forall|i: int| 53 + pad <= i < 73 implies #[trigger] bytes[i] == digits[i - 53
        - pad] as u8 && 48 <= bytes[i] <= 57 by {
        assert(text[i] == number[i - 53]);
        assert('0' <= digits[i - 53 - pad] <= '9');
    }
    let field = bytes.subrange(53, 73);
    assert forall|i: int| 0 <= i < digits.len() implies field[pad + i] == #[trigger] digits[i] as u8 by {
        assert(field[pad + i] == bytes[53 + pad + i]);
    }
    lemma_field_value(field, pad, n);
}

/// Whatever the digest and the size, a placeholder is the cookie, the whole digest, a space, the
/// size in decimal at the right of twenty places, and a line feed.
pub proof fn law_placeholder_parts(digest: Seq<char>, size: nat)
    ensures
        placeholder_bytes(digest, size) == encode_utf8("#$# git-fat "@) + encode_utf8(digest)
            + encode_utf8(seq![' ']) + encode_utf8(right_aligned(decimal(size), 20)) + encode_utf8(
            seq!['\n'],
        ),
{
    let number = right_aligned(decimal(size), 20);
    let end = seq!['\n'];
    lemma_encode_concat(COOKIE@, digest);
    lemma_encode_concat(COOKIE@ + digest, seq![' ']);
    lemma_encode_concat(COOKIE@ + digest + seq![' '], number);
    lemma_encode_concat(COOKIE@ + digest + seq![' '] + number, end);
}

/// Placeholders are the same only for the same digest and the same size.
pub proof fn law_placeholders_differ(a: Seq<char>, m: u64, b: Seq<char>, n: u64)
    requires
        a.len() == 40,
        b.len() == 40,
        forall|i: int| 0 <= i < a.len() ==> '0' <= #[trigger] a[i] <= '9' || 'a' <= a[i] <= 'f',
        forall|i: int| 0 <= i < b.len() ==> '0' <= #[trigger] b[i] <= '9' || 'a' <= b[i] <= 'f',
        placeholder_bytes(a, m as nat) == placeholder_bytes(b, n as nat),
    ensures
        a == b,
        m == n,
{
    law_placeholder_fields(a, m);
    law_placeholder_fields(b, n);
    assert forall|i: int| 0 <= i < 40 implies a[i] == b[i] by {
        assert(placeholder_bytes(a, m as nat)[12 + i] as int == a[i] as int);
        assert(placeholder_bytes(b, n as nat)[12 + i] as int == b[i] as int);
    }
    assert(a =~= b);
}

/// A block that begins with the cookie holds the digest that follows, up to the next space or the
/// end: the whole of it, decoded where it is text. A block that begins otherwise holds none.
pub proof fn law_digest_follows_cookie(field: Seq<u8>, rest: Seq<u8>, other: Seq<u8>)
    requires
        !field.contains(0x20),
        rest.len() == 0 || rest[0] == 0x20,
        !encode_utf8("#$# git-fat "@).is_prefix_of(other),
    ensures
        extracted_digest(encode_utf8("#$# git-fat "@) + field + rest) == Some(
            if valid_utf8(field) {
                decode_utf8(field)
            } else {
                replaced_text(field)
            },
        ),
        starts_with_cookie(encode_utf8("#$# git-fat "@) + field + rest),
        digest_bytes(encode_utf8("#$# git-fat "@) + field + rest) == field,
        extracted_digest(other) is None,
        !starts_with_cookie(other),
{
    lemma_cookie();
    let block = cookie_bytes() + field + rest;
    assert(starts_with_cookie(block));
    lemma_first_byte(block, 0x20, 12);
    let end = first_byte(block, 0x20, 12);
    if end < 12 + field.len() {
        assert(block[end] == field[end - 12]);
        assert(field.contains(field[end - 12]));
    }
    if rest.len() > 0 {
        assert(block[12 + field.len() as int] == rest[0]);
    }
    assert(end == 12 + field.len());
    assert(digest_bytes(block) =~= field);
}

} // verus!
