//! The embedded tree seen as one filesystem value.
//!
//! A [`FileSystem`] wraps the root entry of a tree and answers the same
//! questions a real filesystem would: is this path there, what lies at
//! it, and which entries match a pattern.

use vstd::prelude::*;

use crate::globs::{
    compile_pattern, deref_all, glob_filter, glob_valid, no_backslash, paths_clean, PatternError,
};
use crate::lookup::lookup_entry;
use crate::paths::split_path;
use crate::tree::{below_all, entry_inner_wf, Dir, DirEntry, File};

verus! {

/// A whole embedded tree, rooted at one entry.
#[derive(Debug, PartialEq)]
pub struct FileSystem {
    pub root: DirEntry,
}

/// What a search from the root ranges over: everything below a root
/// directory; nothing below a lone file.
pub open spec fn root_below(e: DirEntry) -> Seq<DirEntry> {
    match e {
        DirEntry::Dir(d) => below_all(d.entries@),
        DirEntry::File(_) => Seq::empty(),
    }
}

impl FileSystem {
    /// The tree below the root is well-formed.
    pub open spec fn wf(self) -> bool {
        entry_inner_wf(self.root)
    }

    /// Wraps a root entry.
    pub fn new(root: DirEntry) -> (r: FileSystem)
        ensures
            r.root == root,
    {
        FileSystem { root }
    }

    /// Resolves `path` from the root; the empty path yields the root
    /// itself.
    pub fn get(&self, path: &str) -> (r: Option<&DirEntry>)
        requires
            self.wf(),
        ensures
            match r {
                Some(e) => lookup_entry(self.root, split_path(path@)) == Some(*e),
                None => lookup_entry(self.root, split_path(path@)) is None,
            },
    {
        self.root.get(path)
    }

    /// Resolves `path` and keeps the result only when it is a file.
    pub fn get_file(&self, path: &str) -> (r: Option<&File>)
        requires
            self.wf(),
        ensures
            match r {
                Some(f) => lookup_entry(self.root, split_path(path@)) == Some(DirEntry::File(*f)),
                None => !(lookup_entry(self.root, split_path(path@)) matches Some(
                    DirEntry::File(_),
                )),
            },
    {
        self.root.get_file(path)
    }

    /// Resolves `path` and keeps the result only when it is a directory.
    pub fn get_dir(&self, path: &str) -> (r: Option<&Dir>)
        requires
            self.wf(),
        ensures
            match r {
                Some(d) => lookup_entry(self.root, split_path(path@)) == Some(DirEntry::Dir(*d)),
                None => !(lookup_entry(self.root, split_path(path@)) matches Some(
                    DirEntry::Dir(_),
                )),
            },
    {
        self.root.get_dir(path)
    }

    /// Whether `path` resolves to anything: true exactly when `get`
    /// yields an entry.
    pub fn contains(&self, path: &str) -> (r: bool)
        requires
            self.wf(),
        ensures
            r == (lookup_entry(self.root, split_path(path@)) is Some),
    {
        self.get(path).is_some()
    }

    /// Search below the root for the entries whose full relative path
    /// matches the glob pattern.  As with `Dir::find`, the contract
    /// speaks of backslash-free patterns and trees.
    pub fn find(&self, pattern: &str) -> (r: Result<Vec<&DirEntry>, PatternError>)
        ensures
            no_backslash(pattern@) ==> (r is Ok <==> glob_valid(pattern@)),
            r is Ok && no_backslash(pattern@) && paths_clean(root_below(self.root)) ==> deref_all(
                r->Ok_0@,
            ) == glob_filter(pattern@, root_below(self.root)),
    {
        match &self.root {
            DirEntry::Dir(d) => d.find(pattern),
            DirEntry::File(_) => {
                match compile_pattern(pattern) {
                    Err(e) => Err(e),
                    Ok(_) => {
                        let out: Vec<&DirEntry> = Vec::new();
                        proof {
                            reveal(Seq::filter);
                            assert(deref_all(out@) =~= glob_filter(
                                pattern@,
                                root_below(self.root),
                            ));
                        }
                        Ok(out)
                    },
                }
            },
        }
    }
}

} // verus!
