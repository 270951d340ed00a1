//! A small reader for the loose objects of a git repository.
//!
//! The library decodes object files into typed records (blob, tree, commit),
//! locates the repository directory by walking up from a starting directory,
//! and takes the decisions of the history walk. It touches no file itself:
//! the caller hands in how to probe for a directory and how to read a file.

mod objects;
mod repository;

pub use objects::{
    Blob, BlobView, Commit, CommitView, EntryView, GitError, Object, ObjectView, Tree, TreeEntry,
    TreeView, decode_object, hex_of, read_object, utf8_text, zlib_inflate,
};
pub use repository::{Repository, find_git_directory, joined_path, parent_path};
