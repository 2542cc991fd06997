//! File system paths, carried as `std::path::PathBuf`.
//!
//! A path is opaque here. What is said of one is said over its components, over the text that
//! displays it, and over the paths that it is joined to.
use std::path::PathBuf;
use vstd::prelude::*;
use vstd::utf8::*;

verus! {

/// The standard library's owned path.
#[verifier::external_type_specification]
#[verifier::external_body]
pub struct ExPathBuf(std::path::PathBuf);

/// One component of a path, as `std::path::Component` tells them apart. A name is given by its
/// encoded bytes, which are UTF-8 where the name is Unicode.
pub enum PathPart {
    Prefix(Seq<u8>),
    Root,
    Current,
    Parent,
    Name(Seq<u8>),
}

/// The components that a path holds, as `Path::components` lists them.
pub uninterp spec fn path_parts(path: PathBuf) -> Seq<PathPart>;

/// The text that `Path::display` shows of a path.
pub uninterp spec fn path_text(path: PathBuf) -> Seq<char>;

/// What `PathBuf::from` makes of a text.
pub uninterp spec fn path_of(text: Seq<char>) -> PathBuf;

/// What `Path::join` makes of a path and a text.
pub uninterp spec fn path_joined(path: PathBuf, text: Seq<char>) -> PathBuf;

/// A text that is one ordinary file name: not empty, no separator, no drive letter, and neither
/// `.` nor `..`.
pub open spec fn is_plain_name(text: Seq<char>) -> bool {
    &&& text.len() > 0
    &&& text != seq!['.']
    &&& text != seq!['.', '.']
    &&& forall|i: int|
        0 <= i < text.len() ==> text[i] != '/' && #[trigger] text[i] != '\\' && text[i] != ':'
}

/// A path that a further name only extends: it does not end in a bare prefix.
pub open spec fn is_extensible(path: PathBuf) -> bool {
    path_parts(path).len() > 0 ==> !(path_parts(path).last() is Prefix)
}

/// Whether there is a component to take off: the path is not empty and does not end in a root
/// or a prefix.
pub open spec fn has_parent(parts: Seq<PathPart>) -> bool {
    &&& parts.len() > 0
    &&& !(parts.last() is Root)
    &&& !(parts.last() is Prefix)
}

/// Cloning a `PathBuf` gives the same path.
pub assume_specification[ <PathBuf as Clone>::clone ](path: &PathBuf) -> (res: PathBuf)
    ensures
        res == *path,
;

/// `PathBuf::from` keeps the text, so that `display` shows it again.
#[verifier::external_body]
pub(crate) fn path_from(text: &str) -> (res: PathBuf)
    ensures
        res == path_of(text@),
        path_text(res) == text@,
{
    PathBuf::from(text)
}

/// `Path::display` shows a path as text.
#[verifier::external_body]
pub(crate) fn path_display(path: &PathBuf) -> (res: String)
    ensures
        res@ == path_text(*path),
{
    path.display().to_string()
}

/// `Path::join` adjoins a text to a path. One ordinary name becomes the last component, after
/// the components of the path. That is said of Unix: on Windows a name can complete a prefix,
/// as it does behind `\\server`.
#[verifier::external_body]
pub(crate) fn path_join(path: &PathBuf, text: &str) -> (res: PathBuf)
    ensures
        res == path_joined(*path, text@),
        is_plain_name(text@) && is_extensible(*path) ==> path_parts(res) == path_parts(*path).push(
            PathPart::Name(encode_utf8(text@)),
        ),
{
    path.join(text)
}

/// `Path::parent` takes the last component off. It is `None` where the path is empty or ends
/// in a root or a prefix.
#[verifier::external_body]
pub(crate) fn path_parent(path: &PathBuf) -> (res: Option<PathBuf>)
    ensures
        match res {
            Some(parent) => has_parent(path_parts(*path)) && path_parts(parent) == path_parts(
                *path,
            ).drop_last(),
            None => !has_parent(path_parts(*path)),
        },
{
    path.parent().map(|parent| parent.to_path_buf())
}

/// `Path::file_name` is the last component where that is an ordinary name.
#[verifier::external_body]
pub(crate) fn path_file_name(path: &PathBuf) -> (res: Option<Vec<u8>>)
    ensures
        match res {
            Some(name) => path_parts(*path).len() > 0 && path_parts(*path).last()
                == PathPart::Name(name@),
            None => path_parts(*path).len() > 0 ==> !(path_parts(*path).last() is Name),
        },
{
    path.file_name().map(|name| name.as_encoded_bytes().to_vec())
}

} // verus!
