//! Git directories and the files of the HEAD tree.
use crate::error::{other_err, FatError};
use crate::filter::{find_digest, held_digest};
use crate::paths::{has_parent, path_file_name, path_from, path_parent, path_parts, path_of, PathPart};
use crate::placeholder::EntryKind;
use crate::text::same_bytes;
use git2::Oid;
use std::path::PathBuf;
use vstd::prelude::*;
use vstd::utf8::*;

verus! {

/// The directory that the environment variable `GIT_DIR` names, given the value of the
/// variable.
pub fn git_dir(value: Option<String>) -> (res: Result<PathBuf, FatError>)
    ensures
        match value {
            Some(text) => res == Ok::<PathBuf, FatError>(path_of(text@)),
            None => res is Err && res->Err_0.is_other(
                "GIT_DIR is not set; cannot determine git directory"@,
            ),
        },
{
    match value {
        Some(text) => Ok(path_from(text.as_str())),
        None => Err(other_err("GIT_DIR is not set; cannot determine git directory")),
    }
}

/// Whether a git directory belongs to a linked worktree: its parent is a directory named
/// `worktrees`.
pub open spec fn is_linked_worktree(parts: Seq<PathPart>) -> bool {
    &&& parts.len() >= 2
    &&& has_parent(parts)
    &&& parts[parts.len() - 2] == PathPart::Name(encode_utf8("worktrees"@))
}

/// The directory that all worktrees of a repository share. For a linked worktree this is the
/// directory two levels up; otherwise it is the git directory itself.
pub fn git_common_dir(git_dir: &PathBuf) -> (res: PathBuf)
    ensures
        is_linked_worktree(path_parts(*git_dir)) ==> path_parts(res) == path_parts(*git_dir).take(
            path_parts(*git_dir).len() - 2,
        ),
        !is_linked_worktree(path_parts(*git_dir)) ==> res == *git_dir,
{
    let ghost parts = path_parts(*git_dir);
    if let Some(parent) = path_parent(git_dir) {
        if let Some(name) = path_file_name(&parent) {
            if same_bytes(name.as_slice(), "worktrees".as_bytes()) {
                if let Some(common) = path_parent(&parent) {
                    assert(path_parts(common) =~= parts.take(parts.len() - 2));
                    return common;
                }
            }
        }
    }
    git_dir.clone()
}

/// An entry of a Git tree. A name that is no text is empty.
pub struct TreeEntry {
    pub name: String,
    pub kind: EntryKind,
    pub id: Oid,
}

/// A path in the repository, made of the path of a directory and a name in it. An absolute name
/// stands for itself.
pub open spec fn repo_path(dir: Seq<char>, name: Seq<char>) -> Seq<char> {
    if name.len() > 0 && name[0] == '/' {
        name
    } else if dir.len() == 0 || dir.last() == '/' {
        dir + name
    } else {
        dir + seq!['/'] + name
    }
}

/// Makes a path in the repository of the path of a directory and a name in it.
pub fn join_repo_path(dir: &str, name: &str) -> (res: String)
    ensures
        res@ == repo_path(dir@, name@),
{
    let dir_len: usize = dir.unicode_len();
    if name.unicode_len() > 0 && name.get_char(0) == '/' {
        name.to_owned()
    } else if dir_len == 0 || dir.get_char(dir_len - 1) == '/' {
        dir.to_owned().concat(name)
    } else {
        let mut path: String = dir.to_owned();
        path.push('/');
        path.append(name);
        assert(path@ =~= repo_path(dir@, name@));
        path
    }
}

/// The trees of a repository, by their ids.
pub type Trees = Map<Oid, Seq<TreeEntry>>;

/// A blob and where it stands in the repository.
pub struct BlobAt {
    pub path: Seq<char>,
    pub id: Oid,
}

/// The blobs below a tree that stands at `path`, down to `depth` levels of trees. A tree that
/// cannot be read has none.
pub open spec fn blobs_below(trees: Trees, depth: nat, path: Seq<char>, id: Oid) -> Seq<BlobAt>
    decreases depth, 0nat, 1nat,
{
    if depth > 0 && trees.contains_key(id) {
        blobs_in(trees, (depth - 1) as nat, path, trees[id])
    } else {
        Seq::empty()
    }
}

/// The blobs of a list of tree entries, each directory before the entry that follows it.
pub open spec fn blobs_in(trees: Trees, depth: nat, dir: Seq<char>, entries: Seq<TreeEntry>) -> Seq<
    BlobAt,
>
    decreases depth, entries.len(), 2nat,
{
    if entries.len() == 0 {
        Seq::empty()
    } else {
        let entry = entries[0];
        let path = repo_path(dir, entry.name@);
        let here = match entry.kind {
            EntryKind::Blob => seq![BlobAt { path, id: entry.id }],
            EntryKind::Tree => blobs_below(trees, depth, path, entry.id),
            EntryKind::Other => Seq::empty(),
        };
        here + blobs_in(trees, depth, dir, entries.drop_first())
    }
}

/// A directory on the way through a tree, and how far it has been gone through.
struct Directory {
    path: String,
    entries: Vec<TreeEntry>,
    index: usize,
}

/// What is read next on the way through a tree.
pub enum WalkRequest {
    /// A blob, which may be a placeholder.
    Blob { path: String, id: Oid },
    /// A tree, whose entries come next.
    Tree { path: String, id: Oid },
    /// Nothing: all entries have been gone through.
    Done,
}

/// A managed file: where it stands, the digest of its content, and the size of its placeholder.
pub struct ManagedFile {
    pub path: String,
    pub digest: String,
    pub size: usize,
}

/// A walk through the HEAD tree that finds every blob whose content is a fat placeholder.
pub struct ManagedFiles {
    stack: Vec<Directory>,
}

/// The blobs that a stack of directories, the innermost last, has still to offer.
closed spec fn pending_in(stack: Seq<Directory>, trees: Trees, depth: nat) -> Seq<BlobAt>
    decreases stack.len(),
{
    if stack.len() == 0 {
        Seq::empty()
    } else {
        let top = stack.last();
        blobs_in(
            trees,
            (depth - (stack.len() - 1)) as nat,
            top.path@,
            top.entries@.skip(top.index as int),
        ) + pending_in(stack.drop_last(), trees, depth)
    }
}

/// How many entries of the innermost directory are still to be gone through.
closed spec fn remaining(stack: Seq<Directory>) -> int {
    if stack.len() == 0 {
        0
    } else {
        stack.last().entries@.len() - stack.last().index
    }
}

impl ManagedFiles {
    /// No directory has been gone through further than it reaches.
    pub closed spec fn wf(self) -> bool {
        forall|i: int| 0 <= i < self.stack@.len() ==> (#[trigger] self.stack@[i]).index
            <= self.stack@[i].entries@.len()
    }

    /// How many directories deep the walk is.
    pub closed spec fn level(self) -> nat {
        self.stack@.len()
    }

    /// The blobs that are still to come in a repository with these trees, down to `depth`
    /// levels of trees below the root.
    pub closed spec fn pending(self, trees: Trees, depth: nat) -> Seq<BlobAt> {
        pending_in(self.stack@, trees, depth)
    }

    /// A walk through a tree with these entries. A repository without a HEAD has nothing to go
    /// through.
    pub fn new(root: Option<Vec<TreeEntry>>) -> (res: ManagedFiles)
        ensures
            res.wf(),
            res.level() == if root is Some {
                1nat
            } else {
                0nat
            },
            forall|trees: Trees, depth: nat|
                #![trigger res.pending(trees, depth)]
                res.pending(trees, depth) == match root {
                    Some(entries) => blobs_in(trees, depth, Seq::empty(), entries@),
                    None => Seq::empty(),
                },
    {
        let mut stack: Vec<Directory> = Vec::new();
        if let Some(entries) = root {
            stack.push(Directory { path: String::new(), entries, index: 0 });
        }
        let res = ManagedFiles { stack };
        proof {
            assert forall|trees: Trees, depth: nat|
                #![trigger res.pending(trees, depth)]
                res.pending(trees, depth) == match root {
                    Some(entries) => blobs_in(trees, depth, Seq::empty(), entries@),
                    None => Seq::empty(),
                } by {
                reveal_with_fuel(pending_in, 2);
                if let Some(entries) = root {
                    assert(entries@.skip(0) =~= entries@);
                    assert(stack@.drop_last() =~= Seq::empty());
                }
            }
        }
        res
    }

    /// Goes on to the next blob or tree. A blob is the first of those that were to come; a tree
    /// stands for the blobs below it, which come next once its entries are handed in.
    pub fn next_request(&mut self) -> (res: WalkRequest)
        requires
            old(self).wf(),
        ensures
            final(self).wf(),
            res is Done ==> final(self).level() == 0,
            !(res is Done) ==> 0 < final(self).level() <= old(self).level(),
            forall|trees: Trees, depth: nat|
                #![trigger old(self).pending(trees, depth)]
                #![trigger final(self).pending(trees, depth)]
                depth + 1 >= old(self).level() ==> old(self).pending(trees, depth) == match res {
                    WalkRequest::Blob { path, id } => seq![BlobAt { path: path@, id }]
                        + final(self).pending(trees, depth),
                    WalkRequest::Tree { path, id } => blobs_below(
                        trees,
                        (depth + 1 - final(self).level()) as nat,
                        path@,
                        id,
                    ) + final(self).pending(trees, depth),
                    WalkRequest::Done => Seq::empty(),
                },
    {
        loop
            invariant
                self.wf(),
                self.level() <= old(self).level(),
                forall|trees: Trees, depth: nat|
                    #![trigger old(self).pending(trees, depth)]
                    #![trigger self.pending(trees, depth)]
                    depth + 1 >= old(self).level() ==> old(self).pending(trees, depth)
                        == self.pending(trees, depth),
            decreases self.stack@.len(), remaining(self.stack@),
        {
            let ghost before = self.stack@;
            match self.stack.pop() {
                None => {
                    return WalkRequest::Done;
                },
                Some(directory) => {
                    let mut top: Directory = directory;
                    let index: usize = top.index;
                    assert(before.last() == directory);
                    assert(before[before.len() - 1].index <= before[before.len() - 1].entries@.len());
                    if index < top.entries.len() {
                        let entry = &top.entries[index];
                        let kind = entry.kind;
                        let id = entry.id;
                        let path = join_repo_path(top.path.as_str(), entry.name.as_str());
                        top.index = index + 1;
                        self.stack.push(top);
                        proof {
                            let after = self.stack@;
                            assert(after.drop_last() =~= before.drop_last());
                            let rest = directory.entries@.skip(index as int);
                            assert(rest.drop_first() =~= directory.entries@.skip(index + 1));
                            assert forall|trees: Trees, depth: nat|
                                #![trigger pending_in(before, trees, depth)]
                                #![trigger pending_in(after, trees, depth)]
                                pending_in(before, trees, depth) =~= (match kind {
                                    EntryKind::Blob => seq![BlobAt { path: path@, id }],
                                    EntryKind::Tree => blobs_below(
                                        trees,
                                        (depth - (before.len() - 1)) as nat,
                                        path@,
                                        id,
                                    ),
                                    EntryKind::Other => Seq::empty(),
                                }) + pending_in(after, trees, depth) by {
                            }
                        }
                        match kind {
                            EntryKind::Blob => {
                                return WalkRequest::Blob { path, id };
                            },
                            EntryKind::Tree => {
                                return WalkRequest::Tree { path, id };
                            },
                            EntryKind::Other => {
                                assert(forall|trees: Trees, depth: nat|
                                    #![trigger self.pending(trees, depth)]
                                    pending_in(before, trees, depth) =~= self.pending(trees, depth));
                            },
                        }
                    } else {
                        assert forall|trees: Trees, depth: nat|
                            #![trigger self.pending(trees, depth)]
                            pending_in(before, trees, depth) == self.pending(trees, depth) by {
                            assert(directory.entries@.skip(index as int) =~= Seq::empty());
                            assert(pending_in(before, trees, depth) =~= pending_in(
                                self.stack@,
                                trees,
                                depth,
                            ));
                        }
                    }
                },
            }
        }
    }

    /// Hands in the entries of a tree that was asked for, or nothing where it cannot be read.
    pub fn enter(&mut self, path: String, entries: Option<Vec<TreeEntry>>)
        requires
            old(self).wf(),
        ensures
            final(self).wf(),
            final(self).level() == old(self).level() + if entries is Some {
                1nat
            } else {
                0nat
            },
            forall|trees: Trees, depth: nat|
                #![trigger final(self).pending(trees, depth)]
                depth >= old(self).level() ==> final(self).pending(trees, depth) == match entries {
                    Some(list) => blobs_in(
                        trees,
                        (depth - old(self).level()) as nat,
                        path@,
                        list@,
                    ) + old(self).pending(trees, depth),
                    None => old(self).pending(trees, depth),
                },
    {
        let ghost before = self.stack@;
        if let Some(list) = entries {
            self.stack.push(Directory { path, entries: list, index: 0 });
            proof {
                assert(self.stack@.drop_last() =~= before);
                assert(list@.skip(0) =~= list@);
            }
        }
    }
}

/// What reading a blob makes of it: a managed file where its content is a placeholder.
pub fn managed_file(path: String, content: &[u8]) -> (res: Option<ManagedFile>)
    ensures
        match held_digest(content@) {
            Some(digest) => {
                &&& res matches Some(file)
                &&& file.path@ == path@
                &&& file.digest@ == digest
                &&& file.size == content@.len()
            },
            None => res is None,
        },
{
    match find_digest(content) {
        Some(digest) => Some(ManagedFile { path, digest, size: content.len() }),
        None => None,
    }
}

/// Whether a list of entries leads from a directory to a blob: each entry but the last is a tree
/// that holds the next one.
pub open spec fn leads_to_blob(trees: Trees, entries: Seq<TreeEntry>, chain: Seq<TreeEntry>) -> bool
    decreases chain.len(),
{
    &&& chain.len() > 0
    &&& entries.contains(chain[0])
    &&& if chain.len() == 1 {
        chain[0].kind == EntryKind::Blob
    } else {
        &&& chain[0].kind == EntryKind::Tree
        &&& trees.contains_key(chain[0].id)
        &&& leads_to_blob(trees, trees[chain[0].id], chain.drop_first())
    }
}

/// The path that a list of entries leads along.
pub open spec fn chain_path(dir: Seq<char>, chain: Seq<TreeEntry>) -> Seq<char>
    decreases chain.len(),
{
    if chain.len() == 0 {
        dir
    } else {
        chain_path(repo_path(dir, chain[0].name@), chain.drop_first())
    }
}

/// The walk misses nothing: every blob that can be reached through readable trees, within the
/// depth, is among those that it offers.
pub proof fn law_walk_reaches_every_blob(
    trees: Trees,
    depth: nat,
    dir: Seq<char>,
    entries: Seq<TreeEntry>,
    chain: Seq<TreeEntry>,
)
    requires
        leads_to_blob(trees, entries, chain),
        chain.len() <= depth + 1,
    ensures
        blobs_in(trees, depth, dir, entries).contains(
            BlobAt { path: chain_path(dir, chain), id: chain.last().id },
        ),
    decreases chain.len(), entries.len(),
{
    let blob = BlobAt { path: chain_path(dir, chain), id: chain.last().id };
    let blobs = blobs_in(trees, depth, dir, entries);
    let rest = entries.drop_first();
    let rest_blobs = blobs_in(trees, depth, dir, rest);
    let offset = blobs.len() - rest_blobs.len();
    if entries[0] == chain[0] {
        let path = repo_path(dir, chain[0].name@);
        if chain.len() == 1 {
            assert(chain.drop_first() =~= Seq::empty());
            reveal_with_fuel(chain_path, 2);
            assert(blobs[0] == blob);
        } else {
            let inner = chain.drop_first();
            let below = trees[chain[0].id];
            law_walk_reaches_every_blob(trees, (depth - 1) as nat, path, below, inner);
            let found = blobs_in(trees, (depth - 1) as nat, path, below);
            let i = found.index_of(blob);
            assert(blobs_below(trees, depth, path, chain[0].id) == found);
            assert(blobs =~= found + rest_blobs);
            assert(inner.last() == chain.last());
            assert(blobs[i] == blob);
        }
    } else {
        let k = entries.index_of(chain[0]);
        assert(rest[k - 1] == chain[0]);
        law_walk_reaches_every_blob(trees, depth, dir, rest, chain);
        let i = rest_blobs.index_of(blob);
        assert(blobs[offset + i] == blob);
    }
}

/// The walk makes nothing up: every blob that it offers can be reached through readable trees,
/// along the path that it is offered with.
pub proof fn law_walk_offers_only_blobs(
    trees: Trees,
    depth: nat,
    dir: Seq<char>,
    entries: Seq<TreeEntry>,
    blob: BlobAt,
)
    requires
        blobs_in(trees, depth, dir, entries).contains(blob),
    ensures
        exists|chain: Seq<TreeEntry>|
            {
                &&& #[trigger] leads_to_blob(trees, entries, chain)
                &&& chain.len() <= depth + 1
                &&& blob.path == chain_path(dir, chain)
                &&& blob.id == chain.last().id
            },
    decreases depth, entries.len(),
{
    let blobs = blobs_in(trees, depth, dir, entries);
    let at = blobs.index_of(blob);
    let rest = entries.drop_first();
    let rest_blobs = blobs_in(trees, depth, dir, rest);
    let offset = blobs.len() - rest_blobs.len();
    if at >= offset {
        assert(rest_blobs[at - offset] == blob);
        law_walk_offers_only_blobs(trees, depth, dir, rest, blob);
        let chain = choose|chain: Seq<TreeEntry>|
            {
                &&& #[trigger] leads_to_blob(trees, rest, chain)
                &&& chain.len() <= depth + 1
                &&& blob.path == chain_path(dir, chain)
                &&& blob.id == chain.last().id
            };
        let k = rest.index_of(chain[0]);
        assert(entries[k + 1] == chain[0]);
        assert(leads_to_blob(trees, entries, chain));
    } else {
        let entry = entries[0];
        let path = repo_path(dir, entry.name@);
        if entry.kind == EntryKind::Blob {
            let chain = seq![entry];
            assert(chain.drop_first() =~= Seq::empty());
            reveal_with_fuel(chain_path, 2);
            assert(entries.contains(chain[0]));
            assert(leads_to_blob(trees, entries, chain));
        } else {
            let below = trees[entry.id];
            let found = blobs_in(trees, (depth - 1) as nat, path, below);
            assert(blobs =~= blobs_below(trees, depth, path, entry.id) + rest_blobs);
            assert(blobs_below(trees, depth, path, entry.id) == found);
            assert(found[at] == blob);
            law_walk_offers_only_blobs(trees, (depth - 1) as nat, path, below, blob);
            let inner = choose|chain: Seq<TreeEntry>|
                {
                    &&& #[trigger] leads_to_blob(trees, below, chain)
                    &&& chain.len() <= depth
                    &&& blob.path == chain_path(path, chain)
                    &&& blob.id == chain.last().id
                };
            let chain = seq![entry] + inner;
            assert(chain.drop_first() =~= inner);
            assert(entries.contains(chain[0]));
            assert(leads_to_blob(trees, entries, chain));
            assert(chain.last() == inner.last());
        }
    }
}

/// A path leads from the directory to the name in it, with one slash between them. Where there is
/// no directory or it brings the slash, none is added; an absolute name stands alone.
pub proof fn law_repo_path(dir: Seq<char>, name: Seq<char>)
    ensures
        name.len() > 0 && name[0] == '/' ==> repo_path(dir, name) == name,
        (name.len() == 0 || name[0] != '/') && (dir.len() == 0 || dir[dir.len() - 1] == '/')
            ==> repo_path(dir, name) == dir + name,
        (name.len() == 0 || name[0] != '/') && dir.len() > 0 && dir[dir.len() - 1] != '/'
            ==> repo_path(dir, name) == dir + seq!['/'] + name,
{
}

/// A git directory belongs to a linked worktree exactly where the component before its last one is
/// the name `worktrees`, and the last one is neither a root nor a prefix.
pub proof fn law_linked_worktree(parts: Seq<PathPart>)
    ensures
        is_linked_worktree(parts) <==> (parts.len() >= 2 && parts[parts.len() - 2]
            == PathPart::Name(encode_utf8("worktrees"@)) && !(parts[parts.len() - 1] is Root) && !(
        parts[parts.len() - 1] is Prefix)),
{
}

/// The walk goes through a directory entry by entry: the blobs of two lists of entries, one behind
/// the other, are those of the first and then those of the second.
pub proof fn law_walk_keeps_order(
    trees: Trees,
    depth: nat,
    dir: Seq<char>,
    first: Seq<TreeEntry>,
    second: Seq<TreeEntry>,
)
    ensures
        blobs_in(trees, depth, dir, first + second) == blobs_in(trees, depth, dir, first)
            + blobs_in(trees, depth, dir, second),
        blobs_in(trees, depth, dir, Seq::empty()) == Seq::<BlobAt>::empty(),
    decreases first.len(),
{
    if first.len() == 0 {
        assert(first + second =~= second);
        assert(blobs_in(trees, depth, dir, first) =~= Seq::empty());
        assert(blobs_in(trees, depth, dir, first + second) =~= blobs_in(trees, depth, dir, first)
            + blobs_in(trees, depth, dir, second));
    } else {
        law_walk_keeps_order(trees, depth, dir, first.drop_first(), second);
        assert((first + second).drop_first() =~= first.drop_first() + second);
        assert((first + second)[0] == first[0]);
        assert(blobs_in(trees, depth, dir, first + second) =~= blobs_in(trees, depth, dir, first)
            + blobs_in(trees, depth, dir, second));
    }
}

/// What one entry of a directory comes to: a blob is offered with its id and the path of its
/// directory and its name; a tree that can be read stands for its own entries, one level down; and
/// anything else is passed over.
pub proof fn law_walk_of_entry(trees: Trees, depth: nat, dir: Seq<char>, entry: TreeEntry)
    ensures
        ({
            let path = if entry.name@.len() > 0 && entry.name@[0] == '/' {
                entry.name@
            } else if dir.len() == 0 || dir[dir.len() - 1] == '/' {
                dir + entry.name@
            } else {
                dir + seq!['/'] + entry.name@
            };
            let below = if depth > 0 && trees.contains_key(entry.id) {
                blobs_in(trees, (depth - 1) as nat, path, trees[entry.id])
            } else {
                Seq::empty()
            };
            &&& entry.kind == EntryKind::Blob ==> blobs_in(trees, depth, dir, seq![entry]) == seq![
                BlobAt { path, id: entry.id },
            ]
            &&& entry.kind == EntryKind::Tree ==> blobs_in(trees, depth, dir, seq![entry]) == below
                && blobs_below(trees, depth, path, entry.id) == below
            &&& entry.kind == EntryKind::Other ==> blobs_in(trees, depth, dir, seq![entry])
                == Seq::<BlobAt>::empty()
        }),
{
    let path = repo_path(dir, entry.name@);
    let rest = seq![entry].drop_first();
    assert(rest =~= Seq::empty());
    assert(blobs_in(trees, depth, dir, rest) =~= Seq::empty());
    let here = match entry.kind {
        EntryKind::Blob => seq![BlobAt { path, id: entry.id }],
        EntryKind::Tree => blobs_below(trees, depth, path, entry.id),
        EntryKind::Other => Seq::empty(),
    };
    assert(blobs_in(trees, depth, dir, seq![entry]) =~= here);
    assert(blobs_below(trees, depth, path, entry.id) == if depth > 0 && trees.contains_key(
        entry.id,
    ) {
        blobs_in(trees, (depth - 1) as nat, path, trees[entry.id])
    } else {
        Seq::empty()
    });
}

} // verus!
