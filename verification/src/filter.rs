//! The clean and smudge filters.
use crate::hashing::{
    content_digest, hex_encode, is_hex_digit, law_digest_writes_hash, lemma_hex_text,
    sha1_finalize, sha1_hash, sha1_input, sha1_new, sha1_update, SHA1_INPUT_LIMIT,
};
use crate::placeholder::{
    cookie_bytes, encode_placeholder, extract_digest, extracted_digest, is_digest,
    law_digest_follows_cookie, law_extract_from_prefix, law_placeholder_fields, lemma_digest,
    placeholder_bytes,
};
use crate::text::{is_white_space, optional_text, replaced_text, trimmed};
use sha1::Sha1;
use vstd::prelude::*;
use vstd::utf8::*;

verus! {

/// The clean filter: it takes in the blocks of a file, one after the other, and makes the
/// placeholder of what it has taken in.
pub struct CleanFilter {
    hash: Sha1,
    total_size: usize,
}

/// What the clean filter has made of a file.
pub struct Cleaned {
    /// The name under which the content is cached.
    pub digest: String,
    /// What the repository keeps of the file.
    pub placeholder: Vec<u8>,
}

impl CleanFilter {
    /// The content that was taken in.
    pub closed spec fn content(self) -> Seq<u8> {
        sha1_input(self.hash)
    }

    /// The size is that of the content, and is one that can be hashed.
    pub closed spec fn wf(self) -> bool {
        &&& self.total_size == self.content().len()
        &&& self.content().len() < SHA1_INPUT_LIMIT
    }

    /// A filter that has taken in nothing.
    pub fn new() -> (res: CleanFilter)
        ensures
            res.wf(),
            res.content() == Seq::<u8>::empty(),
    {
        CleanFilter { hash: sha1_new(), total_size: 0 }
    }

    /// How much was taken in.
    pub fn total_size(&self) -> (res: usize)
        requires
            self.wf(),
        ensures
            res == self.content().len(),
    {
        self.total_size
    }

    /// Whether a block of `len` bytes can be taken in: the size has to stay countable.
    pub fn has_room(&self, len: usize) -> (res: bool)
        requires
            self.wf(),
        ensures
            res == (self.content().len() + len <= usize::MAX && self.content().len() + len
                < SHA1_INPUT_LIMIT),
    {
        match self.total_size.checked_add(len) {
            Some(total) => (total as u64) < SHA1_INPUT_LIMIT,
            None => false,
        }
    }

    /// Takes in the next block.
    pub fn feed(&mut self, block: &[u8])
        requires
            old(self).wf(),
            old(self).content().len() + block@.len() <= usize::MAX,
            old(self).content().len() + block@.len() < SHA1_INPUT_LIMIT,
        ensures
            final(self).wf(),
            final(self).content() == old(self).content() + block@,
    {
        sha1_update(&mut self.hash, block);
        self.total_size = self.total_size + block.len();
    }

    /// Ends the file: names its content and makes its placeholder.
    pub fn finish(self) -> (res: Cleaned)
        requires
            self.wf(),
        ensures
            res.digest@ == content_digest(self.content()),
            is_digest(res.digest@),
            res.placeholder@ == placeholder_bytes(res.digest@, self.content().len()),
    {
        let total_size = self.total_size;
        let hash = sha1_finalize(self.hash);
        let digest = hex_encode(hash.as_slice());
        proof {
            lemma_hex_text(hash@);
        }
        let placeholder = encode_placeholder(digest.as_str(), total_size);
        Cleaned { digest, placeholder }
    }
}

/// What becomes of the content of a cleaned file.
#[derive(Debug, Clone, Copy, PartialEq, Eq, Structural)]
pub enum CacheAction {
    /// The cache has an object of that digest, which stays.
    Keep,
    /// The content is put into the cache, read-only, under its digest.
    Store,
}

/// What becomes of the content of a cleaned file, given whether the cache has an object of its
/// digest. An object in the cache is never replaced.
pub open spec fn caching(cached: bool) -> CacheAction {
    if cached {
        CacheAction::Keep
    } else {
        CacheAction::Store
    }
}

/// Decides what becomes of the content of a cleaned file, given whether the cache has an object
/// of its digest.
pub fn cache_action(cached: bool) -> (res: CacheAction)
    ensures
        res == caching(cached),
{
    if cached {
        CacheAction::Keep
    } else {
        CacheAction::Store
    }
}

/// The name under which the cache keeps the object of a digest: the digest without white space
/// around it.
pub fn object_name(digest: &str) -> (res: String)
    ensures
        res@ == trimmed(digest@),
{
    digest.trim().to_owned()
}

/// The digest that a file holds in place of its content, judging by its first bytes. What begins
/// like a placeholder but names no object, since nothing but white space stands where the digest
/// belongs, is none.
pub open spec fn held_digest(prefix: Seq<u8>) -> Option<Seq<char>> {
    match extracted_digest(prefix) {
        Some(digest) => if trimmed(digest).len() > 0 {
            Some(digest)
        } else {
            None
        },
        None => None,
    }
}

/// The object that a file stands for, judging by its first bytes. A file that is no placeholder
/// stands for itself.
pub open spec fn named_object(prefix: Seq<u8>) -> Option<Seq<char>> {
    match held_digest(prefix) {
        Some(digest) => Some(trimmed(digest)),
        None => None,
    }
}

/// Tells which digest a file holds in place of its content, judging by its first bytes.
pub fn find_digest(prefix: &[u8]) -> (res: Option<String>)
    ensures
        optional_text(res) == held_digest(prefix@),
{
    match extract_digest(prefix) {
        Ok(digest) => if digest.as_str().trim().is_empty() {
            None
        } else {
            Some(digest)
        },
        Err(_) => None,
    }
}

/// Tells which object a file stands for, judging by its first bytes.
pub fn find_object(prefix: &[u8]) -> (res: Option<String>)
    ensures
        optional_text(res) == named_object(prefix@),
{
    match find_digest(prefix) {
        Some(digest) => Some(object_name(digest.as_str())),
        None => None,
    }
}

/// Where the output of the smudge filter comes from.
#[derive(Debug, Clone, Copy, PartialEq, Eq, Structural)]
pub enum SmudgeSource {
    /// The object in the cache.
    Object,
    /// The input, from its first bytes on.
    Input,
}

/// Where the output of the smudge filter comes from: the object that the file stands for, where
/// it stands for one and the cache has it, and otherwise the input.
pub open spec fn source(is_placeholder: bool, cached: bool) -> SmudgeSource {
    if is_placeholder && cached {
        SmudgeSource::Object
    } else {
        SmudgeSource::Input
    }
}

/// Chooses where the output of the smudge filter comes from, given whether the file stands for an
/// object and whether the cache has that object.
pub fn smudge_source(is_placeholder: bool, cached: bool) -> (res: SmudgeSource)
    ensures
        res == source(is_placeholder, cached),
{
    if is_placeholder && cached {
        SmudgeSource::Object
    } else {
        SmudgeSource::Input
    }
}

/// The objects in a cache, by their names.
pub type Objects = Map<Seq<char>, Seq<u8>>;

/// What cleaning a file makes of the cache.
pub open spec fn after_clean(cache: Objects, content: Seq<u8>) -> Objects {
    let digest = content_digest(content);
    match caching(cache.contains_key(digest)) {
        CacheAction::Keep => cache,
        CacheAction::Store => cache.insert(digest, content),
    }
}

/// What cleaning a file leaves in the repository.
pub open spec fn cleaned(content: Seq<u8>) -> Seq<u8> {
    placeholder_bytes(content_digest(content), content.len())
}

/// What smudging a file puts into the working tree, where the first `n` bytes are read first.
pub open spec fn smudged(cache: Objects, file: Seq<u8>, n: int) -> Seq<u8> {
    let object = named_object(file.take(n));
    let cached = object is Some && cache.contains_key(object->0);
    match source(object is Some, cached) {
        SmudgeSource::Object => cache[object->0],
        SmudgeSource::Input => file,
    }
}

/// A digest has no white space to trim.
pub proof fn lemma_trimmed_digest(digest: Seq<char>)
    requires
        is_digest(digest),
    ensures
        trimmed(digest) == digest,
{
    assert(is_hex_digit(digest[0]));
    assert(is_hex_digit(digest[39]));
    assert(!is_white_space(digest[0]));
    assert(!is_white_space(digest.last()));
}

/// The digest of any content is forty hexadecimal digits.
pub proof fn law_content_digest(content: Seq<u8>)
    ensures
        is_digest(content_digest(content)),
{
    lemma_hex_text(sha1_hash(content)@);
}

/// A file comes back as it was: smudging what cleaning left gives the content, as long as the
/// cache held no other content under its digest. It does not matter how much of the
/// placeholder is read first, if only the digest is.
pub proof fn law_smudge_inverts_clean(cache: Objects, content: Seq<u8>, n: int)
    requires
        cache.contains_key(content_digest(content)) ==> cache[content_digest(content)] == content,
        cookie_bytes().len() + 40 <= n <= cleaned(content).len(),
    ensures
        smudged(after_clean(cache, content), cleaned(content), n) == content,
{
    let digest = content_digest(content);
    law_content_digest(content);
    lemma_digest(digest);
    law_extract_from_prefix(digest, content.len(), n);
    lemma_trimmed_digest(digest);
}

/// Further cleaning does no harm: what an earlier clean left is smudged to the same content
/// after other files were cleaned.
pub proof fn law_clean_keeps_objects(cache: Objects, content: Seq<u8>, name: Seq<char>)
    requires
        cache.contains_key(name),
    ensures
        after_clean(cache, content).contains_key(name),
        after_clean(cache, content)[name] == cache[name],
{
}

/// A file that is no placeholder passes the smudge filter unchanged.
pub proof fn law_smudge_passes_other_files(cache: Objects, file: Seq<u8>, n: int)
    requires
        named_object(file.take(n)) is None,
    ensures
        smudged(cache, file, n) == file,
{
}

/// A placeholder whose object is missing passes the smudge filter unchanged.
pub proof fn law_smudge_keeps_orphans(cache: Objects, file: Seq<u8>, n: int)
    requires
        named_object(file.take(n)) matches Some(name) ==> !cache.contains_key(name),
    ensures
        smudged(cache, file, n) == file,
{
}

/// Content is put into the cache exactly where the cache does not have it.
pub proof fn law_caching(cached: bool)
    ensures
        caching(cached) == CacheAction::Keep <==> cached,
        caching(cached) == CacheAction::Store <==> !cached,
{
}

/// The smudge filter takes the object exactly where the file stands for one and the cache has it.
pub proof fn law_smudge_source(is_placeholder: bool, cached: bool)
    ensures
        source(is_placeholder, cached) == SmudgeSource::Object <==> is_placeholder && cached,
        source(is_placeholder, cached) == SmudgeSource::Input <==> !(is_placeholder && cached),
{
}

/// A file that begins with the cookie stands for the object whose name follows, up to the next
/// space or the end, without the white space around it. It stands for itself where no name is left,
/// and where it begins otherwise.
pub proof fn law_object_follows_cookie(field: Seq<u8>, rest: Seq<u8>, other: Seq<u8>)
    requires
        !field.contains(0x20),
        rest.len() == 0 || rest[0] == 0x20,
        !encode_utf8("#$# git-fat "@).is_prefix_of(other),
    ensures
        ({
            let text = if valid_utf8(field) {
                decode_utf8(field)
            } else {
                replaced_text(field)
            };
            let file = encode_utf8("#$# git-fat "@) + field + rest;
            &&& trimmed(text).len() > 0 ==> held_digest(file) == Some(text) && named_object(file)
                == Some(trimmed(text))
            &&& trimmed(text).len() == 0 ==> held_digest(file) is None && named_object(file) is None
        }),
        held_digest(other) is None,
        named_object(other) is None,
{
    law_digest_follows_cookie(field, rest, other);
}

/// What cleaning leaves of a file: seventy-four bytes, with the cookie, the SHA-1 hash of the whole
/// content in hexadecimal, and the whole size of the content in decimal.
pub proof fn law_cleaned_fields(content: Seq<u8>, i: int)
    requires
        content.len() <= u64::MAX,
        0 <= i < 20,
    ensures
        cleaned(content).len() == 74,
        cleaned(content).take(12) == encode_utf8("#$# git-fat "@),
        cleaned(content)[12 + 2 * i] as int == {
            let high = sha1_hash(content)@[i] as int / 16;
            if high < 10 {
                48 + high
            } else {
                87 + high
            }
        },
        cleaned(content)[13 + 2 * i] as int == {
            let low = sha1_hash(content)@[i] as int % 16;
            if low < 10 {
                48 + low
            } else {
                87 + low
            }
        },
        cleaned(content)[52] == 0x20,
        cleaned(content).subrange(53, 73).fold_left(
            0,
            |value: int, b: u8|
                if b == 0x20 {
                    value
                } else {
                    10 * value + (b as int - 48)
                },
        ) == content.len(),
        cleaned(content)[73] == 0x0a,
{
    let digest = content_digest(content);
    law_content_digest(content);
    law_digest_writes_hash(content, i);
    assert forall|j: int| 0 <= j < digest.len() implies '0' <= #[trigger] digest[j] <= '9' || 'a'
        <= digest[j] <= 'f' by {
        assert(is_hex_digit(digest[j]));
    }
    law_placeholder_fields(digest, content.len() as u64);
    assert(cleaned(content)[12 + 2 * i] as int == digest[2 * i] as int);
    assert(cleaned(content)[13 + 2 * i] as int == digest[2 * i + 1] as int);
}

} // verus!
