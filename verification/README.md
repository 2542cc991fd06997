# git-fat

Large file support for Git. A large file is kept outside the repository, in an object cache under
`.git/fat/objects` and on a remote store. The repository holds a small placeholder in its stead:
a line of 74 bytes with the SHA-1 digest of the content and its size.

The library decides and computes; the program around it reads and writes. Every function of the
library states in its contract what it returns, and Verus proves it.

## The library (`src/`)

| Module        | What it holds |
|---------------|---------------|
| `placeholder` | writing, recognising and reading placeholders |
| `filter`      | the clean and smudge filters, and that a file comes back as it was |
| `index`       | the conversion of staged files, step by step |
| `backend`     | the stores that objects are pushed to and pulled from, and their configuration |
| `git`         | git directories and the walk through the HEAD tree |
| `fat`         | the operations on a repository |
| `names`       | sets of names |
| `hashing`, `oid`, `paths`, `text`, `error` | what the others are built from |

What is not proved is what other crates and the standard library do: SHA-1 (`sha1`), hexadecimal
(`hex`), object ids (`git2`), paths and a few functions on strings. Each such call stands in a
function of its own, marked `external_body`, or in an `assume_specification`, with a comment that
says what is taken for granted.

## The program (`app/`)

The command line, the repository (through `git2`), the files, and the runs of `git` and `rsync`.

```
git-fat init                    # set up the filters and the object cache
git-fat filter-clean [file]     # the clean filter, called by Git
git-fat filter-smudge [file]    # the smudge filter, called by Git
git-fat push [backend]          # push cached objects to the remote
git-fat pull [backend]          # pull missing objects from the remote
git-fat checkout                # restore files whose objects are in the cache
git-fat status                  # show orphan and stale objects
git-fat list                    # list the managed files
git-fat find <size>             # find files in the history over a size
git-fat index-filter <filelist> # convert staged files to placeholders
```
