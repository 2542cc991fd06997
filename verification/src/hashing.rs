//! Content digests: SHA-1, written in hexadecimal.
use sha1::{Digest, Sha1};
use vstd::prelude::*;

verus! {

/// An incremental SHA-1 computation.
#[verifier::external_type_specification]
#[verifier::external_body]
pub struct ExSha1(sha1::Sha1);

/// The bytes that a SHA-1 computation has taken in.
pub uninterp spec fn sha1_input(hasher: Sha1) -> Seq<u8>;

/// The SHA-1 hash of a byte string.
pub uninterp spec fn sha1_hash(data: Seq<u8>) -> [u8; 20];

/// How many bytes may be hashed: SHA-1 counts the bits of its input in 64 bits.
pub const SHA1_INPUT_LIMIT: u64 = 0x2000_0000_0000_0000;

/// `Sha1::new` starts a computation that has taken in nothing.
#[verifier::external_body]
pub(crate) fn sha1_new() -> (hasher: Sha1)
    ensures
        sha1_input(hasher) == Seq::<u8>::empty(),
{
    Sha1::new()
}

/// `Digest::update` takes in further bytes, after those that were taken in before.
#[verifier::external_body]
pub(crate) fn sha1_update(hasher: &mut Sha1, data: &[u8])
    requires
        sha1_input(*old(hasher)).len() + data@.len() < SHA1_INPUT_LIMIT,
    ensures
        sha1_input(*final(hasher)) == sha1_input(*old(hasher)) + data@,
{
    hasher.update(data);
}

/// `Digest::finalize` gives the hash of what was taken in.
#[verifier::external_body]
pub(crate) fn sha1_finalize(hasher: Sha1) -> (hash: [u8; 20])
    requires
        sha1_input(hasher).len() < SHA1_INPUT_LIMIT,
    ensures
        hash == sha1_hash(sha1_input(hasher)),
{
    hasher.finalize().into()
}

/// The lower-case hexadecimal digit of value `d`.
pub open spec fn hex_digit(d: int) -> char
    recommends
        0 <= d < 16,
{
    if d < 10 {
        (48 + d) as char
    } else {
        (87 + d) as char
    }
}

/// A byte string in hexadecimal: two lower-case digits for each byte, the high one first.
pub open spec fn hex_text(bytes: Seq<u8>) -> Seq<char> {
    Seq::new(
        2 * bytes.len(),
        |i: int|
            if i % 2 == 0 {
                hex_digit(bytes[i / 2] as int / 16)
            } else {
                hex_digit(bytes[i / 2] as int % 16)
            },
    )
}

/// `hex::encode` writes each byte as two lower-case hexadecimal digits.
#[verifier::external_body]
pub(crate) fn hex_encode(bytes: &[u8]) -> (res: String)
    requires
        bytes@.len() <= 0x1000_0000,
    ensures
        res@ == hex_text(bytes@),
{
    hex::encode(bytes)
}

/// A lower-case hexadecimal digit.
pub open spec fn is_hex_digit(c: char) -> bool {
    '0' <= c <= '9' || 'a' <= c <= 'f'
}

/// Hexadecimal text holds hexadecimal digits alone.
pub proof fn lemma_hex_text(bytes: Seq<u8>)
    ensures
        hex_text(bytes).len() == 2 * bytes.len(),
        forall|i: int| 0 <= i < hex_text(bytes).len() ==> is_hex_digit(#[trigger] hex_text(bytes)[i]),
{
}

/// The name under which content is kept: its SHA-1 hash in hexadecimal.
pub open spec fn content_digest(content: Seq<u8>) -> Seq<char> {
    hex_text(sha1_hash(content)@)
}

/// A digest writes the twenty bytes of the SHA-1 hash of the whole content, two digits for each
/// byte: the high half of the byte first, then the low half.
pub proof fn law_digest_writes_hash(content: Seq<u8>, i: int)
    requires
        0 <= i < 20,
    ensures
        content_digest(content).len() == 40,
        content_digest(content)[2 * i] as int == {
            let high = sha1_hash(content)@[i] as int / 16;
            if high < 10 {
                48 + high
            } else {
                87 + high
            }
        },
        content_digest(content)[2 * i + 1] as int == {
            let low = sha1_hash(content)@[i] as int % 16;
            if low < 10 {
                48 + low
            } else {
                87 + low
            }
        },
{
    assert((2 * i) / 2 == i && (2 * i) % 2 == 0);
    assert((2 * i + 1) / 2 == i && (2 * i + 1) % 2 == 1);
    assert(sha1_hash(content)@[i] as int / 16 < 16);
}

} // verus!
