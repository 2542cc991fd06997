//! The operations of git-fat on a repository.
use crate::backend::{load_backend, loads, BackendConfig, LoadedBackend};
use crate::error::{other_err, FatError};
use crate::filter::{
    cleaned, find_digest, find_object, held_digest, law_content_digest, lemma_trimmed_digest,
    named_object, CleanFilter, Cleaned,
};
use crate::hashing::{content_digest, hex_text, is_hex_digit};
use crate::index::{Answer, IndexFilter, Phase, StagedEntry};
use crate::names::{selected, NameSet};
use crate::oid::{law_oid_text_round_trip, oid_bytes, oid_display};
use crate::paths::{
    has_parent, is_extensible, is_plain_name, path_join, path_joined, path_parent, path_parts,
    PathPart,
};
use crate::placeholder::{
    is_digest, is_fat_placeholder, law_extract_inverts_encode, law_placeholder_length,
    lemma_digest, may_be_placeholder, EntryKind, MAGICLEN,
};
use crate::text::{
    byte_text, bytes_as_text, decimal, decimal_text, law_decimal_value, lemma_byte_text, optional_text, text_lines,
    texts,
};
use git2::Oid;
use std::path::PathBuf;
use vstd::prelude::*;
use vstd::utf8::*;

verus! {

/// The Git setting that holds the command of the clean filter.
pub const CLEAN_KEY: &'static str = "filter.fat.clean";

/// The command of the clean filter.
pub const CLEAN_COMMAND: &'static str = "git-fat filter-clean %f";

/// The Git setting that holds the command of the smudge filter.
pub const SMUDGE_KEY: &'static str = "filter.fat.smudge";

/// The command of the smudge filter.
pub const SMUDGE_COMMAND: &'static str = "git-fat filter-smudge %f";

/// Where a repository keeps its things.
pub struct RepoLayout {
    /// The git directory of the worktree.
    pub git_dir: PathBuf,
    /// The git directory that all worktrees share.
    pub common_dir: PathBuf,
    /// The working directory, which a bare repository has not.
    pub workdir: Option<PathBuf>,
}

/// A repository with fat files.
pub struct GitFat {
    obj_dir: PathBuf,
    config_path: PathBuf,
    workdir: Option<PathBuf>,
    verbose: bool,
    debug: bool,
}

/// What has to be set up for a repository: the filters that are not set yet, and the object
/// directory.
#[derive(Debug, Clone, Copy, PartialEq, Eq, Structural)]
pub struct Setup {
    pub set_clean: bool,
    pub set_smudge: bool,
}

/// A file of the working tree that still holds a placeholder, and the digest in it.
pub struct OrphanFile {
    pub digest: String,
    pub path: String,
}

/// An entry of the HEAD tree, and the first bytes of the file of that path in the working tree,
/// where there is one. The size is missing where the object cannot be read.
pub struct Candidate {
    pub path: String,
    pub kind: EntryKind,
    pub size: Option<usize>,
    pub prefix: Option<Vec<u8>>,
}

/// An entry of the HEAD tree. The size is missing where the object cannot be read; the content is
/// missing where it cannot be read, or need not be.
pub struct HeadEntry {
    pub path: String,
    pub kind: EntryKind,
    pub size: Option<usize>,
    pub content: Option<Vec<u8>>,
}

/// The object that an entry of the HEAD tree refers to: it is a blob as long as a placeholder is,
/// and its content names the object.
pub open spec fn referred_object(entry: HeadEntry) -> Option<Seq<char>> {
    if may_be_placeholder(entry.kind, entry.size) {
        match entry.content {
            Some(content) => named_object(content@),
            None => None,
        }
    } else {
        None
    }
}

/// The digest in the place of an orphan file: the entry of the HEAD tree is a blob as long as a
/// placeholder is, and the file in the working tree still holds a placeholder.
pub open spec fn orphan_digest(candidate: Candidate) -> Option<Seq<char>> {
    if may_be_placeholder(candidate.kind, candidate.size) {
        match candidate.prefix {
            Some(prefix) => held_digest(prefix@),
            None => None,
        }
    } else {
        None
    }
}

/// What is done about an orphan file.
pub enum CheckoutStep {
    /// The file is removed and checked out again by `git` with these arguments, after the
    /// message has been shown.
    Restore { message: String, args: Vec<String> },
    /// The message is shown.
    Report { message: String },
    /// Nothing.
    Skip,
}

/// An entry of the object directory. A name that is no text is missing.
pub struct CacheEntry {
    pub is_file: bool,
    pub name: Option<String>,
}

/// The setup that is needed, given which filters are set and whether the object directory
/// exists. A filter that is set stays as it is.
pub open spec fn setup_needed(clean_set: bool, smudge_set: bool, obj_dir_exists: bool) -> Option<
    Setup,
> {
    if clean_set && smudge_set && obj_dir_exists {
        None
    } else {
        Some(Setup { set_clean: !clean_set, set_smudge: !smudge_set })
    }
}

/// The orphans among a list of candidates, in their order: the digest and the path of each.
pub open spec fn orphans_among(candidates: Seq<Candidate>) -> Seq<(Seq<char>, Seq<char>)>
    decreases candidates.len(),
{
    if candidates.len() == 0 {
        Seq::empty()
    } else {
        let earlier = orphans_among(candidates.drop_last());
        match orphan_digest(candidates.last()) {
            Some(digest) => earlier.push((digest, candidates.last().path@)),
            None => earlier,
        }
    }
}

/// The digests and paths of a list of orphan files.
pub open spec fn orphan_texts(orphans: Seq<OrphanFile>) -> Seq<(Seq<char>, Seq<char>)> {
    orphans.map_values(|orphan: OrphanFile| (orphan.digest@, orphan.path@))
}

/// The line that reports a large file.
pub open spec fn large_file_line(id: Oid, size: nat, path: Seq<char>) -> Seq<char> {
    hex_text(oid_bytes(id)@) + " "@ + decimal(size) + " "@ + path
}

/// A headline and the names below it, or nothing where there are no names.
pub open spec fn report_lines(headline: Seq<char>, names: Seq<Seq<char>>) -> Seq<Seq<char>> {
    if names.len() == 0 {
        Seq::empty()
    } else {
        seq![headline] + names.map_values(|name: Seq<char>| "\t "@ + name)
    }
}

impl GitFat {
    /// The directory of the object cache.
    pub closed spec fn obj_dir(self) -> PathBuf {
        self.obj_dir
    }

    /// The configuration file.
    pub closed spec fn config_path(self) -> PathBuf {
        self.config_path
    }

    /// The working directory, where there is one.
    pub closed spec fn workdir(self) -> Option<PathBuf> {
        self.workdir
    }

    /// Whether the output is verbose.
    pub closed spec fn verbose(self) -> bool {
        self.verbose
    }

    /// Whether debugging output is wanted.
    pub closed spec fn debug(self) -> bool {
        self.debug
    }

    /// Finds out where the object cache and the configuration of a repository are. The
    /// configuration stands in the working directory, or in the git directory where there is
    /// none, unless it is given.
    pub fn new(
        verbose: bool,
        debug: bool,
        config_path: Option<PathBuf>,
        layout: RepoLayout,
    ) -> (res: GitFat)
        ensures
            res.obj_dir() == path_joined(layout.common_dir, "fat/objects"@),
            res.config_path() == match config_path {
                Some(path) => path,
                None => path_joined(
                    match layout.workdir {
                        Some(dir) => dir,
                        None => layout.git_dir,
                    },
                    ".gitfat"@,
                ),
            },
            res.workdir() == layout.workdir,
            res.verbose() == verbose,
            res.debug() == debug,
    {
        let obj_dir = path_join(&layout.common_dir, "fat/objects");
        let config_path = match config_path {
            Some(path) => path,
            None => match &layout.workdir {
                Some(dir) => path_join(dir, ".gitfat"),
                None => path_join(&layout.git_dir, ".gitfat"),
            },
        };
        GitFat { obj_dir, config_path, workdir: layout.workdir, verbose, debug }
    }

    /// The directory of the object cache.
    pub fn object_dir(&self) -> (res: &PathBuf)
        ensures
            *res == self.obj_dir(),
    {
        &self.obj_dir
    }

    /// The configuration file.
    pub fn config_file(&self) -> (res: &PathBuf)
        ensures
            *res == self.config_path(),
    {
        &self.config_path
    }

    /// The working directory. A bare repository has none.
    pub fn working_directory(&self) -> (res: Result<PathBuf, FatError>)
        ensures
            match self.workdir() {
                Some(dir) => res == Ok::<PathBuf, FatError>(dir),
                None => res is Err && res->Err_0.is_other("no working directory"@),
            },
    {
        match &self.workdir {
            Some(dir) => Ok(dir.clone()),
            None => Err(other_err("no working directory")),
        }
    }

    /// The file in which the cache keeps an object.
    pub fn object_path(&self, name: &str) -> (res: PathBuf)
        ensures
            res == path_joined(self.obj_dir(), name@),
            is_plain_name(name@) && is_extensible(self.obj_dir()) ==> path_parts(res)
                == path_parts(self.obj_dir()).push(PathPart::Name(encode_utf8(name@))),
    {
        path_join(&self.obj_dir, name)
    }

    /// Decides what has to be set up, given which filters are set and whether the object
    /// directory exists. Filters are set only if they are not set already.
    pub fn configure(&self, clean_set: bool, smudge_set: bool, obj_dir_exists: bool) -> (res:
        Option<Setup>)
        ensures
            res == setup_needed(clean_set, smudge_set, obj_dir_exists),
    {
        if clean_set && smudge_set && obj_dir_exists {
            return None;
        }
        Some(Setup { set_clean: !clean_set, set_smudge: !smudge_set })
    }

    /// Ends the cleaning of a file: names its content, makes its placeholder, and tells in which
    /// file of the cache the content belongs.
    pub fn filter_clean(&self, filter: CleanFilter) -> (res: (PathBuf, Cleaned))
        requires
            filter.wf(),
        ensures
            res.1.digest@ == content_digest(filter.content()),
            res.1.placeholder@ == cleaned(filter.content()),
            res.0 == path_joined(self.obj_dir(), res.1.digest@),
            is_extensible(self.obj_dir()) ==> path_parts(res.0) == path_parts(self.obj_dir()).push(
                PathPart::Name(encode_utf8(res.1.digest@)),
            ),
    {
        let cleaned = filter.finish();
        proof {
            lemma_digest_is_plain(cleaned.digest@);
        }
        let object = self.object_path(cleaned.digest.as_str());
        (object, cleaned)
    }

    /// Tells in which file of the cache the content of a file is, judging by its first bytes. A
    /// file that is no placeholder has its content itself.
    pub fn filter_smudge(&self, prefix: &[u8]) -> (res: Option<PathBuf>)
        ensures
            res == match named_object(prefix@) {
                Some(name) => Some(path_joined(self.obj_dir(), name)),
                None => None,
            },
    {
        match find_object(prefix) {
            Some(name) => Some(self.object_path(name.as_str())),
            None => None,
        }
    }

    /// Loads the store that the configuration describes.
    pub fn load_backend(&self, config: BackendConfig) -> (res: Result<LoadedBackend, FatError>)
        ensures
            loads(self.obj_dir(), self.config_path(), config, res),
    {
        load_backend(self.obj_dir.clone(), &self.config_path, config)
    }

    /// Finds the files of the working tree that still hold a placeholder, among entries of the
    /// HEAD tree.
    pub fn orphan_files(&self, candidates: Vec<Candidate>) -> (res: Vec<OrphanFile>)
        ensures
            orphan_texts(res@) == orphans_among(candidates@),
    {
        let mut orphans: Vec<OrphanFile> = Vec::new();
        assert(orphan_texts(orphans@) =~= orphans_among(candidates@.take(0)));
        let mut i: usize = 0;
        while i < candidates.len()
            invariant
                i <= candidates@.len(),
                orphan_texts(orphans@) == orphans_among(candidates@.take(i as int)),
            decreases candidates@.len() - i,
        {
            let ghost before = orphan_texts(orphans@);
            let ghost after = candidates@.take(i + 1);
            assert(after.drop_last() =~= candidates@.take(i as int));
            let candidate = &candidates[i];
            if is_fat_placeholder(candidate.kind, candidate.size) {
                if let Some(prefix) = &candidate.prefix {
                    if let Some(digest) = find_digest(prefix.as_slice()) {
                        orphans.push(OrphanFile { digest, path: candidate.path.clone() });
                        assert(orphan_texts(orphans@) =~= before.push((digest@, candidate.path@)));
                    }
                }
            }
            i = i + 1;
        }
        assert(candidates@.take(candidates@.len() as int) =~= candidates@);
        orphans
    }

    /// Decides what is done about an orphan file, given whether its object is in the cache. It
    /// is restored where it can be, and otherwise reported where that is asked for.
    pub fn checkout(&self, orphan: &OrphanFile, cached: bool, show_orphans: bool) -> (res:
        CheckoutStep)
        ensures
            match res {
                CheckoutStep::Restore { message, args } => {
                    &&& cached
                    &&& message@ == "Restoring "@ + orphan.digest@ + " -> "@ + orphan.path@
                    &&& texts(args@) == seq![
                        "checkout-index"@,
                        "--index"@,
                        "--force"@,
                        "--"@,
                        orphan.path@,
                    ]
                },
                CheckoutStep::Report { message } => {
                    &&& !cached
                    &&& show_orphans
                    &&& message@ == "Data unavailable: "@ + orphan.digest@ + " "@ + orphan.path@
                },
                CheckoutStep::Skip => !cached && !show_orphans,
            },
    {
        if cached {
            let message = "Restoring ".to_owned().concat(orphan.digest.as_str()).concat(" -> ").concat(
                orphan.path.as_str(),
            );
            let mut args: Vec<String> = Vec::new();
            args.push("checkout-index".to_owned());
            args.push("--index".to_owned());
            args.push("--force".to_owned());
            args.push("--".to_owned());
            args.push(orphan.path.clone());
            assert(texts(args@) =~= seq![
                "checkout-index"@,
                "--index"@,
                "--force"@,
                "--"@,
                orphan.path@,
            ]);
            CheckoutStep::Restore { message, args }
        } else if show_orphans {
            let message = "Data unavailable: ".to_owned().concat(orphan.digest.as_str()).concat(
                " ",
            ).concat(orphan.path.as_str());
            CheckoutStep::Report { message }
        } else {
            CheckoutStep::Skip
        }
    }

    /// Starts a search for files over a size threshold.
    pub fn find(&self, min_size: usize) -> (res: LargeFiles)
        ensures
            res.wf(),
            res.min_size() == min_size,
            forall|id: Oid, path: Seq<u8>| !res.reported(id, path),
    {
        LargeFiles::new(min_size)
    }

    /// The line that lists an entry of the HEAD tree, where it is a managed file.
    pub fn list(&self, entry: &HeadEntry) -> (res: Option<String>)
        ensures
            match referred_object(*entry) {
                Some(name) => res is Some && res->0@ == name + " "@ + entry.path@,
                None => res is None,
            },
    {
        match find_referred(entry) {
            Some(name) => Some(name.concat(" ").concat(entry.path.as_str())),
            None => None,
        }
    }

    /// The objects to push: those that HEAD refers to and the cache has.
    pub fn push(&self, managed: &NameSet, cached: &NameSet) -> (res: NameSet)
        requires
            managed.wf(),
            cached.wf(),
        ensures
            res.wf(),
            res@ == managed@.intersect(cached@),
            res.order() == selected(managed.order(), cached@, true),
    {
        managed.intersection(cached)
    }

    /// What a push comes to, given whether the store took the objects.
    pub fn push_outcome(&self, success: bool) -> (res: Result<(), FatError>)
        ensures
            success ==> res is Ok,
            !success ==> res is Err && res->Err_0.is_other("push failed"@),
    {
        if !success {
            return Err(other_err("push failed"));
        }
        Ok(())
    }

    /// The objects to pull: those that HEAD refers to and the cache lacks. Where none is
    /// lacking, there is nothing to do.
    pub fn pull(&self, managed: &NameSet, cached: &NameSet) -> (res: Option<NameSet>)
        requires
            managed.wf(),
            cached.wf(),
        ensures
            match res {
                Some(files) => {
                    &&& files.wf()
                    &&& files@ == managed@.difference(cached@)
                    &&& files.order() == selected(managed.order(), cached@, false)
                    &&& files.order().len() > 0
                },
                None => managed@.difference(cached@) == Set::<Seq<char>>::empty(),
            },
    {
        let files = managed.difference(cached);
        if files.is_empty() {
            return None;
        }
        Some(files)
    }

    /// What a pull comes to, given whether the store gave the objects.
    pub fn pull_outcome(&self, success: bool) -> (res: Result<(), FatError>)
        ensures
            success ==> res is Ok,
            !success ==> res is Err && res->Err_0.is_other("pull failed"@),
    {
        if !success {
            return Err(other_err("pull failed"));
        }
        Ok(())
    }

    /// The directory in which the ids of placeholders are remembered: `index-filter`, beside the
    /// object directory.
    pub fn index_filter_dir(&self) -> (res: Result<PathBuf, FatError>)
        ensures
            match res {
                Ok(dir) => {
                    let beside = path_parts(self.obj_dir()).drop_last();
                    &&& has_parent(path_parts(self.obj_dir()))
                    &&& beside.len() > 0 && beside.last() is Prefix || path_parts(dir)
                        == beside.push(PathPart::Name(encode_utf8("index-filter"@)))
                },
                Err(error) => !has_parent(path_parts(self.obj_dir())) && error.is_other(
                    "invalid object dir"@,
                ),
            },
    {
        match path_parent(&self.obj_dir) {
            Some(parent) => {
                proof {
                    reveal_strlit("index-filter");
                    assert("index-filter"@.len() == 12);
                }
                Ok(path_join(&parent, "index-filter"))
            },
            None => Err(other_err("invalid object dir")),
        }
    }

    /// Starts the conversion of the staged files on a list, which holds one name a line, among
    /// the entries of an index.
    pub fn index_filter(
        &self,
        filelist: &str,
        update_gitattributes: bool,
        entries: Vec<StagedEntry>,
    ) -> (res: IndexFilter)
        ensures
            res.wf(),
            forall|name: Seq<char>|
                res.listed().contains(name) <==> text_lines(filelist@).contains(name),
            res.updates() == update_gitattributes,
            res.entries() == entries@,
            res.outcome() == entries@,
            res.answers() == Map::<int, Answer>::empty(),
            res.converted() == Seq::<Seq<char>>::empty(),
            res.phase() == Phase::Ready,
    {
        IndexFilter::new(filelist, update_gitattributes, entries)
    }

    /// The report on orphan objects, which HEAD refers to and the cache lacks, and on stale
    /// objects, which the cache has and HEAD does not refer to.
    pub fn status(&self, managed: &NameSet, cached: &NameSet) -> (res: Vec<String>)
        requires
            managed.wf(),
            cached.wf(),
        ensures
            texts(res@) == report_lines(
                "Orphan objects:"@,
                selected(managed.order(), cached@, false),
            ) + report_lines("Stale objects:"@, selected(cached.order(), managed@, false)),
    {
        let orphans = managed.difference(cached);
        let stale = cached.difference(managed);
        let mut lines: Vec<String> = Vec::new();
        assert(texts(lines@) =~= Seq::<Seq<char>>::empty());
        append_report(&mut lines, "Orphan objects:", &orphans);
        append_report(&mut lines, "Stale objects:", &stale);
        assert(texts(lines@) =~= report_lines("Orphan objects:"@, orphans.order()) + report_lines(
            "Stale objects:"@,
            stale.order(),
        ));
        lines
    }
}

/// A digest is an ordinary file name.
proof fn lemma_digest_is_plain(digest: Seq<char>)
    requires
        is_digest(digest),
    ensures
        is_plain_name(digest),
{
    assert forall|i: int| 0 <= i < digest.len() implies digest[i] != '/' && #[trigger] digest[i]
        != '\\' && digest[i] != ':' by {
        assert(is_hex_digit(digest[i]));
    }
}

/// Appends a headline and the names below it, or nothing where there are no names.
fn append_report(lines: &mut Vec<String>, headline: &str, names: &NameSet)
    requires
        names.wf(),
    ensures
        texts(final(lines)@) == texts(old(lines)@) + report_lines(headline@, names.order()),
{
    let ghost before = texts(lines@);
    if names.is_empty() {
        assert(before + report_lines(headline@, names.order()) =~= before);
        return;
    }
    lines.push(headline.to_owned());
    let items = names.items();
    let mut i: usize = 0;
    assert(texts(lines@) =~= before + report_lines(headline@, names.order()).take(1));
    while i < items.len()
        invariant
            i <= items@.len(),
            texts(items@) == names.order(),
            names.order().len() > 0,
            texts(lines@) == before + report_lines(headline@, names.order()).take(i + 1),
        decreases items@.len() - i,
    {
        let ghost earlier = texts(lines@);
        let line = "\t ".to_owned().concat(items[i].as_str());
        assert(names.order()[i as int] == items@[i as int]@);
        assert(line@ == report_lines(headline@, names.order())[i + 1]);
        lines.push(line);
        assert(texts(lines@) =~= earlier.push(line@));
        i = i + 1;
        assert(texts(lines@) =~= before + report_lines(headline@, names.order()).take(i + 1));
    }
    assert(report_lines(headline@, names.order()).take(items@.len() as int + 1) =~= report_lines(
        headline@,
        names.order(),
    ));
}

/// The objects in the cache: the files of the object directory whose names are texts.
pub fn cached_objects(entries: &Vec<CacheEntry>) -> (res: NameSet)
    ensures
        res.wf(),
        forall|name: Seq<char>|
            res@.contains(name) <==> exists|i: int|
                0 <= i < entries@.len() && is_cache_file(#[trigger] entries@[i], name),
{
    let mut objects = NameSet::new();
    let mut i: usize = 0;
    while i < entries.len()
        invariant
            i <= entries@.len(),
            objects.wf(),
            forall|name: Seq<char>|
                objects@.contains(name) <==> exists|j: int|
                    0 <= j < i && is_cache_file(#[trigger] entries@[j], name),
        decreases entries@.len() - i,
    {
        let entry = &entries[i];
        let ghost before = objects@;
        if entry.is_file {
            if let Some(name) = &entry.name {
                let _ = objects.insert(name.clone());
            }
        }
        proof {
            assert forall|name: Seq<char>|
                objects@.contains(name) <==> exists|j: int|
                    0 <= j < i + 1 && is_cache_file(#[trigger] entries@[j], name) by {
                if objects@.contains(name) {
                    if before.contains(name) {
                        let j = choose|j: int|
                            0 <= j < i && is_cache_file(#[trigger] entries@[j], name);
                        assert(is_cache_file(entries@[j], name));
                    } else {
                        assert(is_cache_file(entries@[i as int], name));
                    }
                }
                if exists|j: int| 0 <= j < i + 1 && is_cache_file(#[trigger] entries@[j], name) {
                    let j = choose|j: int|
                        0 <= j < i + 1 && is_cache_file(#[trigger] entries@[j], name);
                    if j < i {
                        assert(before.contains(name));
                    }
                }
            }
        }
        i = i + 1;
    }
    objects
}

/// Whether an entry of the object directory is a file of this name.
pub open spec fn is_cache_file(entry: CacheEntry, name: Seq<char>) -> bool {
    entry.is_file && (entry.name matches Some(text) && text@ == name)
}

/// Tells which object an entry of the HEAD tree refers to.
fn find_referred(entry: &HeadEntry) -> (res: Option<String>)
    ensures
        optional_text(res) == referred_object(*entry),
{
    if !is_fat_placeholder(entry.kind, entry.size) {
        return None;
    }
    match &entry.content {
        Some(content) => find_object(content.as_slice()),
        None => None,
    }
}

/// The objects that HEAD refers to, given the entries of its tree.
pub fn managed_objects(entries: &Vec<HeadEntry>) -> (res: NameSet)
    ensures
        res.wf(),
        forall|name: Seq<char>|
            res@.contains(name) <==> exists|i: int|
                0 <= i < entries@.len() && referred_object(#[trigger] entries@[i]) == Some(name),
{
    let mut objects = NameSet::new();
    let mut i: usize = 0;
    while i < entries.len()
        invariant
            i <= entries@.len(),
            objects.wf(),
            forall|name: Seq<char>|
                objects@.contains(name) <==> exists|j: int|
                    0 <= j < i && referred_object(#[trigger] entries@[j]) == Some(name),
        decreases entries@.len() - i,
    {
        let ghost before = objects@;
        if let Some(name) = find_referred(&entries[i]) {
            let _ = objects.insert(name);
        }
        proof {
            assert forall|name: Seq<char>|
                objects@.contains(name) <==> exists|j: int|
                    0 <= j < i + 1 && referred_object(#[trigger] entries@[j]) == Some(name) by {
                if objects@.contains(name) {
                    if before.contains(name) {
                        let j = choose|j: int|
                            0 <= j < i && referred_object(#[trigger] entries@[j]) == Some(name);
                        assert(referred_object(entries@[j]) == Some(name));
                    } else {
                        assert(referred_object(entries@[i as int]) == Some(name));
                    }
                }
                if exists|j: int|
                    0 <= j < i + 1 && referred_object(#[trigger] entries@[j]) == Some(name) {
                    let j = choose|j: int|
                        0 <= j < i + 1 && referred_object(#[trigger] entries@[j]) == Some(name);
                    if j < i {
                        assert(before.contains(name));
                    }
                }
            }
        }
        i = i + 1;
    }
    objects
}

/// A search for files over a size threshold, which reports each file once. Files are told apart by
/// their ids and by the bytes of their paths.
pub struct LargeFiles {
    min_size: usize,
    seen: NameSet,
}

/// The text by which a file is told apart: its id, and the bytes of its path.
spec fn file_key(id: Oid, path: Seq<u8>) -> Seq<char> {
    hex_text(oid_bytes(id)@) + byte_text(path)
}

/// Files of the same text have the same id and path.
proof fn lemma_file_key(id: Oid, path: Seq<u8>, other_id: Oid, other_path: Seq<u8>)
    requires
        file_key(id, path) == file_key(other_id, other_path),
    ensures
        oid_bytes(id)@ == oid_bytes(other_id)@,
        path == other_path,
{
    let key = file_key(id, path);
    let digits = hex_text(oid_bytes(id)@);
    let other_digits = hex_text(oid_bytes(other_id)@);
    assert(digits.len() == 40 && other_digits.len() == 40);
    assert(key.take(40) =~= digits);
    assert(key.take(40) =~= other_digits);
    assert(key.skip(40) =~= byte_text(path));
    assert(key.skip(40) =~= byte_text(other_path));
    law_oid_text_round_trip(oid_bytes(id));
    law_oid_text_round_trip(oid_bytes(other_id));
    lemma_byte_text(path, other_path);
}

impl LargeFiles {
    /// The size above which a file is large.
    pub closed spec fn min_size(self) -> nat {
        self.min_size as nat
    }

    /// Whether the file of this id and path has been reported.
    pub closed spec fn reported(self, id: Oid, path: Seq<u8>) -> bool {
        self.seen@.contains(file_key(id, path))
    }

    /// The files that have been reported are kept in order.
    pub closed spec fn wf(self) -> bool {
        self.seen.wf()
    }

    /// A search that has reported nothing.
    pub fn new(min_size: usize) -> (res: LargeFiles)
        ensures
            res.wf(),
            res.min_size() == min_size,
            forall|id: Oid, path: Seq<u8>| !res.reported(id, path),
    {
        LargeFiles { min_size, seen: NameSet::new() }
    }

    /// Whether a tree entry is a large file. The size is unknown where the object cannot be
    /// read.
    pub open spec fn is_large(self, kind: EntryKind, size: Option<usize>) -> bool {
        kind == EntryKind::Blob && (size matches Some(n) && n > self.min_size())
    }

    /// Looks at a tree entry, given its path as text and in bytes. A large file gives the line
    /// that reports it, unless the file was reported before.
    pub fn visit(
        &mut self,
        kind: EntryKind,
        id: &Oid,
        size: Option<usize>,
        path: &str,
        raw_path: &[u8],
    ) -> (res: Option<String>)
        requires
            old(self).wf(),
        ensures
            final(self).wf(),
            final(self).min_size() == old(self).min_size(),
            match res {
                Some(line) => {
                    &&& old(self).is_large(kind, size)
                    &&& kind == EntryKind::Blob && size->0 > old(self).min_size()
                    &&& !old(self).reported(*id, raw_path@)
                    &&& line@ == large_file_line(*id, size->0 as nat, path@)
                },
                None => {
                    &&& old(self).is_large(kind, size) ==> old(self).reported(*id, raw_path@)
                    &&& kind == EntryKind::Blob && size is Some && size->0 > old(self).min_size()
                        ==> old(self).reported(*id, raw_path@)
                },
            },
            forall|other: Oid, bytes: Seq<u8>| #[trigger]
                final(self).reported(other, bytes) <==> old(self).reported(other, bytes) || (
                res is Some && oid_bytes(other)@ == oid_bytes(*id)@ && bytes == raw_path@),
    {
        match (kind, size) {
            (EntryKind::Blob, Some(n)) => {
                if n <= self.min_size {
                    return None;
                }
                let name = oid_display(id);
                let key = name.clone().concat(bytes_as_text(raw_path).as_str());
                if !self.seen.insert(key) {
                    return None;
                }
                proof {
                    assert forall|other: Oid, bytes: Seq<u8>| #[trigger]
                        self.reported(other, bytes) implies old(self).reported(other, bytes) || (
                    oid_bytes(other)@ == oid_bytes(*id)@ && bytes == raw_path@) by {
                        if file_key(other, bytes) == file_key(*id, raw_path@) {
                            lemma_file_key(other, bytes, *id, raw_path@);
                        }
                    }
                }
                Some(name.concat(" ").concat(decimal_text(n).as_str()).concat(" ").concat(path))
            },
            _ => None,
        }
    }
}

/// The setup leaves nothing to be set up, and setting a repository up again changes nothing.
pub proof fn law_setup_is_complete(clean_set: bool, smudge_set: bool, obj_dir_exists: bool)
    ensures
        match setup_needed(clean_set, smudge_set, obj_dir_exists) {
            Some(setup) => setup_needed(
                clean_set || setup.set_clean,
                smudge_set || setup.set_smudge,
                true,
            ) is None,
            None => clean_set && smudge_set && obj_dir_exists,
        },
{
}

/// A filter that is set already is never set again.
pub proof fn law_setup_keeps_filters(clean_set: bool, smudge_set: bool, obj_dir_exists: bool)
    ensures
        setup_needed(clean_set, smudge_set, obj_dir_exists) matches Some(setup) ==> !(clean_set
            && setup.set_clean) && !(smudge_set && setup.set_smudge),
{
}

/// What HEAD refers to is either pushed or pulled: a push takes the objects that the cache has, a
/// pull those that it lacks.
pub proof fn law_push_and_pull_divide_objects(managed: Set<Seq<char>>, cached: Set<Seq<char>>)
    ensures
        managed.intersect(cached).union(managed.difference(cached)) == managed,
        managed.intersect(cached).disjoint(managed.difference(cached)),
{
    assert(managed.intersect(cached).union(managed.difference(cached)) =~= managed);
}

/// Once a pull has put its objects into the cache, nothing is lacking: a further pull has nothing
/// to do.
pub proof fn law_pull_completes_cache(managed: Set<Seq<char>>, cached: Set<Seq<char>>)
    ensures
        managed.difference(cached.union(managed.difference(cached))) == Set::<Seq<char>>::empty(),
{
    assert(managed.difference(cached.union(managed.difference(cached))) =~= Set::<
        Seq<char>,
    >::empty());
}

/// A cleaned file is managed: its blob has the length by which placeholders are recognised, and
/// an entry of the HEAD tree with that blob refers to the object that holds its content.
pub proof fn law_cleaned_files_are_managed(content: Seq<u8>, entry: HeadEntry)
    requires
        content.len() <= u64::MAX,
        entry.kind == EntryKind::Blob,
        entry.size matches Some(size) && size == cleaned(content).len(),
        entry.content matches Some(blob) && blob@ == cleaned(content),
    ensures
        cleaned(content).len() == MAGICLEN,
        referred_object(entry) == Some(content_digest(content)),
{
    let digest = content_digest(content);
    law_content_digest(content);
    lemma_digest(digest);
    law_placeholder_length(digest, content.len() as u64);
    law_extract_inverts_encode(digest, content.len());
    lemma_trimmed_digest(digest);
}

/// The orphan files are those candidates, with their own paths and in their order, whose entry in
/// the HEAD tree is a blob of seventy-four bytes and whose file in the working tree holds a digest,
/// each with that digest. No such candidate is missing, and no other is among them.
pub proof fn law_orphans_are_candidates(candidates: Seq<Candidate>, orphans: Seq<OrphanFile>)
    requires
        orphan_texts(orphans) == orphans_among(candidates),
    ensures
        orphans.map_values(|orphan: OrphanFile| (orphan.digest@, orphan.path@))
            == candidates.filter_map(
            |c: Candidate|
                if c.kind == EntryKind::Blob && c.size == Some(74usize) && c.prefix is Some
                    && held_digest(c.prefix->0@) is Some {
                    Some((held_digest(c.prefix->0@)->0, c.path@))
                } else {
                    None
                },
        ),
{
    lemma_orphans_among(candidates);
    assert(orphans.map_values(|orphan: OrphanFile| (orphan.digest@, orphan.path@))
        =~= orphans_among(candidates));
}

/// Each orphan file has the very path of a candidate, and the digest that the file of that path
/// holds.
pub proof fn law_orphan_has_its_path(candidates: Seq<Candidate>, orphans: Seq<OrphanFile>, i: int)
    requires
        orphan_texts(orphans) == orphans_among(candidates),
        0 <= i < orphans.len(),
    ensures
        exists|j: int|
            {
                &&& 0 <= j < candidates.len()
                &&& (#[trigger] candidates[j]).path@ == orphans[i].path@
                &&& candidates[j].kind == EntryKind::Blob
                &&& candidates[j].size == Some(74usize)
                &&& candidates[j].prefix is Some
                &&& held_digest(candidates[j].prefix->0@) == Some(orphans[i].digest@)
            },
{
    assert(orphan_texts(orphans)[i] == (orphans[i].digest@, orphans[i].path@));
    let j = lemma_orphan_origin(candidates, i);
    assert(candidates[j].path@ == orphans[i].path@);
}

/// No file that still holds a placeholder is missed.
pub proof fn law_orphan_is_found(candidates: Seq<Candidate>, orphans: Seq<OrphanFile>, j: int)
    requires
        orphan_texts(orphans) == orphans_among(candidates),
        0 <= j < candidates.len(),
        candidates[j].kind == EntryKind::Blob,
        candidates[j].size == Some(74usize),
        candidates[j].prefix is Some,
        held_digest(candidates[j].prefix->0@) is Some,
    ensures
        exists|i: int|
            {
                &&& 0 <= i < orphans.len()
                &&& (#[trigger] orphans[i]).path@ == candidates[j].path@
                &&& Some(orphans[i].digest@) == held_digest(candidates[j].prefix->0@)
            },
{
    let i = lemma_orphan_place(candidates, j);
    assert(orphan_texts(orphans)[i] == (orphans[i].digest@, orphans[i].path@));
}

/// The orphans are found candidate by candidate.
proof fn lemma_orphans_among(candidates: Seq<Candidate>)
    ensures
        orphans_among(candidates) == candidates.filter_map(
            |c: Candidate|
                if c.kind == EntryKind::Blob && c.size == Some(74usize) && c.prefix is Some
                    && held_digest(c.prefix->0@) is Some {
                    Some((held_digest(c.prefix->0@)->0, c.path@))
                } else {
                    None
                },
        ),
    decreases candidates.len(),
{
    if candidates.len() > 0 {
        lemma_orphans_among(candidates.drop_last());
        let earlier = orphans_among(candidates.drop_last());
        if let Some(digest) = orphan_digest(candidates.last()) {
            let pair = (digest, candidates.last().path@);
            assert(earlier.push(pair) =~= earlier + seq![pair]);
        }
    }
}

/// Each orphan stems from a candidate.
proof fn lemma_orphan_origin(candidates: Seq<Candidate>, i: int) -> (j: int)
    requires
        0 <= i < orphans_among(candidates).len(),
    ensures
        0 <= j < candidates.len(),
        orphan_digest(candidates[j]) == Some(orphans_among(candidates)[i].0),
        candidates[j].path@ == orphans_among(candidates)[i].1,
    decreases candidates.len(),
{
    if i < orphans_among(candidates.drop_last()).len() {
        let j = lemma_orphan_origin(candidates.drop_last(), i);
        assert(candidates.drop_last()[j] == candidates[j]);
        j
    } else {
        candidates.len() - 1
    }
}

/// Each candidate with a digest is found.
proof fn lemma_orphan_place(candidates: Seq<Candidate>, j: int) -> (i: int)
    requires
        0 <= j < candidates.len(),
        orphan_digest(candidates[j]) is Some,
    ensures
        0 <= i < orphans_among(candidates).len(),
        orphans_among(candidates)[i] == (orphan_digest(candidates[j])->0, candidates[j].path@),
    decreases candidates.len(),
{
    if j == candidates.len() - 1 {
        orphans_among(candidates.drop_last()).len() as int
    } else {
        assert(candidates.drop_last()[j] == candidates[j]);
        lemma_orphan_place(candidates.drop_last(), j)
    }
}

/// An entry of the HEAD tree refers to an object exactly where it is a blob of seventy-four bytes
/// whose content has been read and names the object.
pub proof fn law_referred_object(entry: HeadEntry, name: Seq<char>)
    ensures
        referred_object(entry) == Some(name) <==> (entry.kind == EntryKind::Blob && entry.size
            == Some(74usize) && entry.content is Some && named_object(entry.content->0@) == Some(
            name,
        )),
{
}

/// The cache has an object of a name exactly where the object directory has a file of it.
pub proof fn law_cache_file(entry: CacheEntry, name: Seq<char>)
    ensures
        is_cache_file(entry, name) <==> entry.is_file && entry.name is Some && entry.name->0@ == name,
{
}

/// A report is the headline and below it every name, indented, in their order; or nothing at all
/// where there are no names.
pub proof fn law_report_lines(headline: Seq<char>, names: Seq<Seq<char>>, i: int)
    requires
        0 <= i < names.len(),
    ensures
        report_lines(headline, names).len() == names.len() + 1,
        report_lines(headline, names)[0] == headline,
        report_lines(headline, names)[i + 1] == "\t "@ + names[i],
        report_lines(headline, Seq::empty()) == Seq::<Seq<char>>::empty(),
{
}

/// Exactly the blobs over the threshold are large: the blob that is one byte over it is, whatever
/// the threshold, and with a blob every larger one. An entry of unknown size is not.
pub proof fn law_large_files(search: LargeFiles, kind: EntryKind, n: usize, m: usize)
    ensures
        search.is_large(kind, Some(n)) <==> kind == EntryKind::Blob && n > search.min_size(),
        !search.is_large(kind, None),
        search.is_large(kind, Some(n)) && m >= n ==> search.is_large(kind, Some(m)),
        n == search.min_size() + 1 ==> search.is_large(EntryKind::Blob, Some(n)),
        n == search.min_size() ==> !search.is_large(kind, Some(n)),
{
}

/// The line that reports a large file tells its id in hexadecimal, its whole size in decimal, and
/// its whole path, with a space between them.
pub proof fn law_large_file_line(id: Oid, size: nat, path: Seq<char>)
    ensures
        large_file_line(id, size, path).take(40) == hex_text(oid_bytes(id)@),
        large_file_line(id, size, path)[40] == ' ',
        ({
            let end = large_file_line(id, size, path).len() - path.len();
            &&& end > 42
            &&& large_file_line(id, size, path).skip(end) == path
            &&& large_file_line(id, size, path)[end - 1] == ' '
            &&& forall|i: int|
                41 <= i < end - 1 ==> '0' <= #[trigger] large_file_line(id, size, path)[i] <= '9'
            &&& large_file_line(id, size, path).subrange(41, end - 1).fold_left(
                0,
                |value: int, c: char| 10 * value + (c as int - 48),
            ) == size
        }),
{
    let digits = hex_text(oid_bytes(id)@);
    let number = decimal(size);
    let line = large_file_line(id, size, path);
    reveal_strlit(" ");
    law_decimal_value(size);
    assert(digits.len() == 40);
    let end = line.len() - path.len();
    assert(line.take(40) =~= digits);
    assert(line.skip(end) =~= path);
    assert(line.subrange(41, end - 1) =~= number);
    assert forall|i: int| 41 <= i < end - 1 implies '0' <= #[trigger] line[i] <= '9' by {
        assert(line[i] == number[i - 41]);
    }
}

} // verus!
