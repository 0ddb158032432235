//! The commands of the command line, and what each of them is given.

use crate::types::ObjectId;
use std::path::PathBuf;
use vstd::prelude::*;

verus! {

/// `std::path::PathBuf`. A path is carried from the command line to where
/// the file is read; nothing is known of what it holds.
#[verifier::external_type_specification]
#[verifier::external_body]
pub struct ExPathBuf(PathBuf);

/// What the command line asks for.
#[derive(Debug)]
pub enum Command {
    /// Create an empty repository, or reinitialize an existing one.
    Init,
    /// Show the content of an object.
    CatFile(CatFileArgs),
    /// Compute the identifier of a file's content.
    HashObject(HashObjectArgs),
    /// List the entries of a tree.
    ListTree(ListTreeArgs),
    /// Store the working directory as a tree.
    WriteTree(WriteTreeArgs),
}

/// What `cat-file` is given.
#[derive(Debug)]
pub struct CatFileArgs {
    /// Show the content in the way that fits the object's kind.
    pub pretty: bool,
    /// The object to show.
    pub object: ObjectId,
}

/// What `hash-object` is given.
#[derive(Debug)]
pub struct HashObjectArgs {
    /// Store the object, besides naming it.
    pub write: bool,
    /// The file whose content is meant.
    pub file: PathBuf,
    /// Print nothing.
    pub quiet: bool,
}

impl HashObjectArgs {
    /// The arguments of one call.
    pub fn new(write: bool, file: PathBuf, quiet: bool) -> (args: Self)
        ensures
            args.write == write,
            args.file == file,
            args.quiet == quiet,
    {
        Self { write, file, quiet }
    }
}

/// What `ls-tree` is given.
#[derive(Debug)]
pub struct ListTreeArgs {
    /// List the names alone.
    pub name_only: bool,
    /// The tree to list.
    pub tree_sha: ObjectId,
}

/// What `write-tree` is given.
#[derive(Debug)]
pub struct WriteTreeArgs {
    /// The directory to store; the current one where none is given.
    pub path: Option<PathBuf>,
    /// Print nothing.
    pub quiet: bool,
}

} // verus!
