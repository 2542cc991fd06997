//! Large file support for Git: large files are kept outside the repository, which holds small
//! placeholders in their stead.
pub mod backend;
pub mod error;
pub mod fat;
pub mod filter;
pub mod git;
pub mod hashing;
pub mod index;
pub mod names;
pub mod oid;
pub mod paths;
pub mod placeholder;
pub mod text;
