//! The tree model: files, directories and the entries that unite them.
//!
//! A tree is built once, from a scan of a real directory, and is immutable
//! afterwards.  Every entry carries its full path relative to the scanned
//! root, using `/` as the separator; a directory's entries are sorted
//! strictly by file name, which keeps lookup deterministic and lets it run
//! as a binary search.

use vstd::prelude::*;

use vstd::utf8::{decode_utf8, valid_utf8};

use crate::metadata::Metadata;
use crate::paths::{
    base_name, base_name_str, join_path, join_path_str, lemma_lex_lt_trans, lex_lt, str_eq, str_lt,
    valid_name,
};

verus! {

/// A file: a path and the exact bytes it held at scan time.
#[derive(Debug, PartialEq)]
pub struct File {
    pub path: String,
    pub contents: Vec<u8>,
    pub metadata: Option<Metadata>,
}

/// A directory: a path and its ordered child entries.
/// The root directory of a tree has the empty path.
#[derive(Debug, PartialEq)]
pub struct Dir {
    pub path: String,
    pub entries: Vec<DirEntry>,
}

/// One node of the tree: a directory or a file.
#[derive(Debug, PartialEq)]
pub enum DirEntry {
    /// A directory.
    Dir(Dir),
    /// A file.
    File(File),
}

/// The relative path of an entry.
pub open spec fn path_of(e: DirEntry) -> Seq<char> {
    match e {
        DirEntry::Dir(d) => d.path@,
        DirEntry::File(f) => f.path@,
    }
}

/// The file name of an entry: the final component of its path.
pub open spec fn name_of(e: DirEntry) -> Seq<char> {
    base_name(path_of(e))
}

/// Sibling entries stand in strictly rising lexicographic order of their
/// file names; in particular no name repeats.
pub open spec fn sorted_names(s: Seq<DirEntry>) -> bool {
    forall|i: int, j: int|
        0 <= i < j < s.len() ==> lex_lt(name_of(#[trigger] s[i]), name_of(#[trigger] s[j]))
}

/// Well-formedness of a sequence of sibling entries under a directory whose
/// path is `parent`: every child's path is the parent's path joined with a
/// legal name, the names rise strictly in lexicographic order, and every
/// child directory is well-formed in turn.
pub open spec fn entries_wf(parent: Seq<char>, s: Seq<DirEntry>) -> bool
    decreases s,
{
    &&& forall|i: int| 0 <= i < s.len() ==> entry_wf(#[trigger] s[i])
    &&& forall|i: int|
        0 <= i < s.len() ==> path_of(#[trigger] s[i]) == join_path(parent, name_of(s[i]))
    &&& sorted_names(s)
}

/// Well-formedness of a single entry: its name is a legal component and,
/// for a directory, its children are well-formed beneath it.
pub open spec fn entry_wf(e: DirEntry) -> bool
    decreases e,
{
    &&& valid_name(name_of(e))
    &&& match e {
        DirEntry::File(_) => true,
        DirEntry::Dir(d) => entries_wf(d.path@, d.entries@),
    }
}

/// Well-formedness below an entry, leaving the entry's own name aside.
/// A tree's root can serve as an entry of its own even though, with its
/// empty path, it has no file name.
pub open spec fn entry_inner_wf(e: DirEntry) -> bool
    decreases e,
{
    match e {
        DirEntry::File(_) => true,
        DirEntry::Dir(d) => entries_wf(d.path@, d.entries@),
    }
}

impl Dir {
    /// A whole tree is well-formed when its entries are well-formed beneath
    /// its own path.
    pub open spec fn wf(self) -> bool {
        entries_wf(self.path@, self.entries@)
    }
}

/// An entry and everything beneath it, in preorder: the entry first, then,
/// for a directory, each child's subtree in the order the children stand.
pub open spec fn entry_and_below(e: DirEntry) -> Seq<DirEntry>
    decreases e,
{
    match e {
        DirEntry::File(_) => seq![e],
        DirEntry::Dir(d) => seq![e] + below_all(d.entries@),
    }
}

/// All entries reachable from a sequence of siblings, in preorder.
pub open spec fn below_all(s: Seq<DirEntry>) -> Seq<DirEntry>
    decreases s,
{
    if s.len() == 0 {
        Seq::empty()
    } else {
        entry_and_below(s[0]) + below_all(s.drop_first())
    }
}

impl Dir {
    /// All entries reachable from this directory, in preorder.  The
    /// directory itself is not among them: it is the vantage point.
    pub open spec fn descendants(self) -> Seq<DirEntry> {
        below_all(self.entries@)
    }
}

impl File {
    /// Packs a path and contents into a file, without metadata.
    pub fn new(path: String, contents: Vec<u8>) -> (r: File)
        ensures
            r.path@ == path@,
            r.contents@ == contents@,
            r.metadata is None,
    {
        File { path, contents, metadata: None }
    }

    /// The file's path, relative to the scanned root.
    pub fn path(&self) -> (r: &str)
        ensures
            r@ == self.path@,
    {
        self.path.as_str()
    }

    /// The file's raw bytes.
    pub fn contents(&self) -> (r: &[u8])
        ensures
            r@ == self.contents@,
    {
        self.contents.as_slice()
    }

    /// The same file with metadata attached.
    pub fn with_metadata(self, metadata: Metadata) -> (r: File)
        ensures
            r.path@ == self.path@,
            r.contents@ == self.contents@,
            r.metadata == Some(metadata),
    {
        File { path: self.path, contents: self.contents, metadata: Some(metadata) }
    }

    /// The file's metadata, when the scan recorded it.
    pub fn metadata(&self) -> (r: Option<&Metadata>)
        ensures
            r is Some <==> self.metadata is Some,
            r is Some ==> *r->0 == self.metadata->0,
    {
        self.metadata.as_ref()
    }
}

impl Dir {
    /// Packs a path and child entries into a directory.
    pub fn new(path: String, entries: Vec<DirEntry>) -> (r: Dir)
        ensures
            r.path@ == path@,
            r.entries == entries,
    {
        Dir { path, entries }
    }

    /// The directory's path, relative to the scanned root; empty for the
    /// root itself.
    pub fn path(&self) -> (r: &str)
        ensures
            r@ == self.path@,
    {
        self.path.as_str()
    }

    /// The directory's child entries, files and subdirectories mixed, in
    /// their sorted order.
    pub fn entries(&self) -> (r: &[DirEntry])
        ensures
            r@ == self.entries@,
    {
        self.entries.as_slice()
    }
}

impl DirEntry {
    /// The entry's path, relative to the scanned root.
    pub fn path(&self) -> (r: &str)
        ensures
            r@ == path_of(*self),
    {
        match self {
            DirEntry::Dir(d) => d.path(),
            DirEntry::File(f) => f.path(),
        }
    }

    /// This entry as a directory, if it is one.
    pub fn as_dir(&self) -> (r: Option<&Dir>)
        ensures
            match r {
                Some(d) => *self == DirEntry::Dir(*d),
                None => self is File,
            },
    {
        match self {
            DirEntry::Dir(d) => Some(d),
            DirEntry::File(_) => None,
        }
    }

    /// This entry as a file, if it is one.
    pub fn as_file(&self) -> (r: Option<&File>)
        ensures
            match r {
                Some(f) => *self == DirEntry::File(*f),
                None => self is Dir,
            },
    {
        match self {
            DirEntry::File(f) => Some(f),
            DirEntry::Dir(_) => None,
        }
    }

    /// Whether the entry is a directory.
    pub fn is_dir(&self) -> (r: bool)
        ensures
            r == (self is Dir),
    {
        match self {
            DirEntry::Dir(_) => true,
            DirEntry::File(_) => false,
        }
    }

    /// Whether the entry is a file.
    pub fn is_file(&self) -> (r: bool)
        ensures
            r == (self is File),
    {
        match self {
            DirEntry::File(_) => true,
            DirEntry::Dir(_) => false,
        }
    }

    /// The entry's children: a directory's entries, nothing for a file.
    pub fn children(&self) -> (r: &[DirEntry])
        ensures
            match self {
                DirEntry::Dir(d) => r@ == d.entries@,
                DirEntry::File(_) => r@.len() == 0,
            },
    {
        match self {
            DirEntry::Dir(d) => d.entries.as_slice(),
            DirEntry::File(_) => &[],
        }
    }
}

/// The files among a run of siblings, in order.
pub open spec fn files_of(s: Seq<DirEntry>) -> Seq<File>
    decreases s,
{
    if s.len() == 0 {
        Seq::empty()
    } else {
        match s[0] {
            DirEntry::File(f) => seq![f] + files_of(s.drop_first()),
            DirEntry::Dir(_) => files_of(s.drop_first()),
        }
    }
}

/// The subdirectories among a run of siblings, in order.
pub open spec fn dirs_of(s: Seq<DirEntry>) -> Seq<Dir>
    decreases s,
{
    if s.len() == 0 {
        Seq::empty()
    } else {
        match s[0] {
            DirEntry::Dir(d) => seq![d] + dirs_of(s.drop_first()),
            DirEntry::File(_) => dirs_of(s.drop_first()),
        }
    }
}

/// One more sibling adds its file, if it is one.
proof fn lemma_files_of_snoc(s: Seq<DirEntry>, e: DirEntry)
    ensures
        files_of(s.push(e)) == (match e {
            DirEntry::File(f) => files_of(s).push(f),
            DirEntry::Dir(_) => files_of(s),
        }),
    decreases s,
{
    assert(files_of(Seq::<DirEntry>::empty()) == Seq::<File>::empty());
    if s.len() == 0 {
        assert(s.push(e)[0] == e);
        assert(s.push(e).drop_first() =~= Seq::<DirEntry>::empty());
        match e {
            DirEntry::File(f) => {
                assert(files_of(s.push(e)) == seq![f] + files_of(s.push(e).drop_first()));
                assert(files_of(s.push(e)) =~= files_of(s).push(f));
            },
            DirEntry::Dir(_) => {
                assert(files_of(s.push(e)) == files_of(s.push(e).drop_first()));
            },
        }
    } else {
        assert(s.push(e)[0] == s[0]);
        assert(s.push(e).drop_first() =~= s.drop_first().push(e));
        lemma_files_of_snoc(s.drop_first(), e);
        match e {
            DirEntry::File(f) => {
                assert(files_of(s.push(e)) =~= files_of(s).push(f));
            },
            DirEntry::Dir(_) => {
                assert(files_of(s.push(e)) =~= files_of(s));
            },
        }
    }
}

/// One more sibling adds its directory, if it is one.
proof fn lemma_dirs_of_snoc(s: Seq<DirEntry>, e: DirEntry)
    ensures
        dirs_of(s.push(e)) == (match e {
            DirEntry::Dir(d) => dirs_of(s).push(d),
            DirEntry::File(_) => dirs_of(s),
        }),
    decreases s,
{
    assert(dirs_of(Seq::<DirEntry>::empty()) == Seq::<Dir>::empty());
    if s.len() == 0 {
        assert(s.push(e)[0] == e);
        assert(s.push(e).drop_first() =~= Seq::<DirEntry>::empty());
        match e {
            DirEntry::Dir(d) => {
                assert(dirs_of(s.push(e)) == seq![d] + dirs_of(s.push(e).drop_first()));
                assert(dirs_of(s.push(e)) =~= dirs_of(s).push(d));
            },
            DirEntry::File(_) => {
                assert(dirs_of(s.push(e)) == dirs_of(s.push(e).drop_first()));
            },
        }
    } else {
        assert(s.push(e)[0] == s[0]);
        assert(s.push(e).drop_first() =~= s.drop_first().push(e));
        lemma_dirs_of_snoc(s.drop_first(), e);
        match e {
            DirEntry::Dir(d) => {
                assert(dirs_of(s.push(e)) =~= dirs_of(s).push(d));
            },
            DirEntry::File(_) => {
                assert(dirs_of(s.push(e)) =~= dirs_of(s));
            },
        }
    }
}

/// The bytes held by the files at and below one entry, added up.
pub open spec fn size_of_entry(e: DirEntry) -> nat
    decreases e,
{
    match e {
        DirEntry::File(f) => f.contents@.len(),
        DirEntry::Dir(d) => size_of_entries(d.entries@),
    }
}

/// The bytes held below a run of siblings, added up.
pub open spec fn size_of_entries(s: Seq<DirEntry>) -> nat
    decreases s,
{
    if s.len() == 0 {
        0
    } else {
        size_of_entry(s[0]) + size_of_entries(s.drop_first())
    }
}

/// Relies on `str::from_utf8`: it accepts exactly the valid UTF-8 byte
/// sequences and yields their decoding.
#[verifier::external_body]
fn utf8_str(bytes: &[u8]) -> (r: Option<&str>)
    ensures
        r is Some <==> valid_utf8(bytes@),
        r is Some ==> r->0@ == decode_utf8(bytes@),
{
    std::str::from_utf8(bytes).ok()
}

impl File {
    /// The file's contents read as text, when they are valid UTF-8.
    pub fn contents_utf8(&self) -> (r: Option<&str>)
        ensures
            r is Some <==> valid_utf8(self.contents@),
            r is Some ==> r->0@ == decode_utf8(self.contents@),
    {
        utf8_str(self.contents.as_slice())
    }

    /// The file's name: the final component of its path.
    pub fn name(&self) -> (r: &str)
        ensures
            r@ == base_name(self.path@),
    {
        base_name_str(self.path.as_str())
    }

    /// The file's size in bytes.
    pub fn size(&self) -> (r: usize)
        ensures
            r == self.contents@.len(),
    {
        self.contents.len()
    }
}

impl Dir {
    /// The directory's name: the final component of its path, empty for
    /// the root.
    pub fn name(&self) -> (r: &str)
        ensures
            r@ == base_name(self.path@),
    {
        base_name_str(self.path.as_str())
    }

    /// The files among this directory's immediate entries, in order.
    pub fn files(&self) -> (r: Vec<&File>)
        ensures
            r@.map_values(|f: &File| *f) == files_of(self.entries@),
    {
        let n = self.entries.len();
        let mut out: Vec<&File> = Vec::new();
        let mut i: usize = 0;
        proof {
            assert(self.entries@.take(0) =~= Seq::<DirEntry>::empty());
            assert(out@.map_values(|f: &File| *f) =~= files_of(self.entries@.take(0)));
        }
        while i < n
            invariant
                n == self.entries@.len(),
                i <= n,
                out@.map_values(|f: &File| *f) =~= files_of(self.entries@.take(i as int)),
            decreases n - i,
        {
            let ghost pre = out@;
            match &self.entries[i] {
                DirEntry::File(f) => {
                    out.push(f);
                    proof {
                        assert(out@.map_values(|x: &File| *x) =~= pre.map_values(
                            |x: &File| *x,
                        ).push(*f));
                    }
                },
                DirEntry::Dir(_) => {},
            }
            proof {
                lemma_files_of_snoc(self.entries@.take(i as int), self.entries@[i as int]);
                assert(self.entries@.take(i + 1) =~= self.entries@.take(i as int).push(
                    self.entries@[i as int],
                ));
            }
            i = i + 1;
        }
        proof {
            assert(self.entries@.take(n as int) =~= self.entries@);
        }
        out
    }

    /// The subdirectories among this directory's immediate entries, in
    /// order.
    pub fn dirs(&self) -> (r: Vec<&Dir>)
        ensures
            r@.map_values(|d: &Dir| *d) == dirs_of(self.entries@),
    {
        let n = self.entries.len();
        let mut out: Vec<&Dir> = Vec::new();
        let mut i: usize = 0;
        proof {
            assert(self.entries@.take(0) =~= Seq::<DirEntry>::empty());
            assert(out@.map_values(|d: &Dir| *d) =~= dirs_of(self.entries@.take(0)));
        }
        while i < n
            invariant
                n == self.entries@.len(),
                i <= n,
                out@.map_values(|d: &Dir| *d) =~= dirs_of(self.entries@.take(i as int)),
            decreases n - i,
        {
            let ghost pre = out@;
            match &self.entries[i] {
                DirEntry::Dir(d) => {
                    out.push(d);
                    proof {
                        assert(out@.map_values(|x: &Dir| *x) =~= pre.map_values(
                            |x: &Dir| *x,
                        ).push(*d));
                    }
                },
                DirEntry::File(_) => {},
            }
            proof {
                lemma_dirs_of_snoc(self.entries@.take(i as int), self.entries@[i as int]);
                assert(self.entries@.take(i + 1) =~= self.entries@.take(i as int).push(
                    self.entries@[i as int],
                ));
            }
            i = i + 1;
        }
        proof {
            assert(self.entries@.take(n as int) =~= self.entries@);
        }
        out
    }

    /// The total size in bytes of the files in this directory's subtree.
    pub fn size(&self) -> (r: usize)
        requires
            size_of_entries(self.entries@) <= usize::MAX,
        ensures
            r == size_of_entries(self.entries@),
    {
        proof {
            assert(self.entries@.skip(0) =~= self.entries@);
        }
        entries_size(&self.entries, 0)
    }
}

impl DirEntry {
    /// The entry's name: the final component of its path.
    pub fn name(&self) -> (r: &str)
        ensures
            r@ == base_name(path_of(*self)),
    {
        base_name_str(self.path())
    }

    /// The total size in bytes of the files at and below this entry.
    pub fn size(&self) -> (r: usize)
        requires
            size_of_entry(*self) <= usize::MAX,
        ensures
            r == size_of_entry(*self),
        decreases *self,
    {
        match self {
            DirEntry::File(f) => f.size(),
            DirEntry::Dir(d) => {
                proof {
                    assert(d.entries@.skip(0) =~= d.entries@);
                }
                entries_size(&d.entries, 0)
            },
        }
    }
}

/// Adds up the sizes of the siblings from `from` on.
fn entries_size(entries: &Vec<DirEntry>, from: usize) -> (r: usize)
    requires
        from <= entries@.len(),
        size_of_entries(entries@.skip(from as int)) <= usize::MAX,
    ensures
        r == size_of_entries(entries@.skip(from as int)),
    decreases entries@, entries@.len() - from,
{
    let n = entries.len();
    if from == n {
        proof {
            assert(entries@.skip(from as int) =~= Seq::<DirEntry>::empty());
        }
        0
    } else {
        proof {
            assert(entries@.skip(from as int)[0] == entries@[from as int]);
            assert(entries@.skip(from as int).drop_first() =~= entries@.skip(from + 1));
        }
        let here = entries[from].size();
        let rest = entries_size(entries, from + 1);
        here + rest
    }
}

/// Whether `n` is a legal single path component.
fn name_is_valid(n: &str) -> (r: bool)
    ensures
        r == valid_name(n@),
{
    let len = n.unicode_len();
    if len == 0 {
        return false;
    }
    let mut i: usize = 0;
    while i < len
        invariant
            len == n@.len(),
            i <= len,
            forall|j: int| 0 <= j < i ==> n@[j] != '/' && n@[j] != '\\',
        decreases len - i,
    {
        let c = n.get_char(i);
        if c == '/' || c == '\\' {
            return false;
        }
        i = i + 1;
    }
    true
}

/// Checks one entry: a legal name, and for a directory a well-formed run
/// of children beneath it.
fn entry_well_formed(e: &DirEntry) -> (r: bool)
    ensures
        r == entry_wf(*e),
    decreases *e,
{
    let name = base_name_str(e.path());
    if !name_is_valid(name) {
        return false;
    }
    match e {
        DirEntry::File(_) => true,
        DirEntry::Dir(d) => entries_well_formed(d.path.as_str(), &d.entries),
    }
}

/// Checks a run of siblings against `entries_wf`: each entry well-formed,
/// each path the parent's path joined with the entry's name, and names
/// strictly rising.
fn entries_well_formed(parent: &str, entries: &Vec<DirEntry>) -> (r: bool)
    ensures
        r == entries_wf(parent@, entries@),
    decreases entries@,
{
    let n = entries.len();
    let mut i: usize = 0;
    while i < n
        invariant
            n == entries@.len(),
            i <= n,
            forall|j: int| 0 <= j < i ==> entry_wf(#[trigger] entries@[j]),
            forall|j: int|
                0 <= j < i ==> path_of(#[trigger] entries@[j]) == join_path(
                    parent@,
                    name_of(entries@[j]),
                ),
            forall|j: int, k: int|
                0 <= j < k < i ==> lex_lt(name_of(#[trigger] entries@[j]), name_of(
                    #[trigger] entries@[k],
                )),
        decreases n - i,
    {
        let e = &entries[i];
        if !entry_well_formed(e) {
            return false;
        }
        let name = base_name_str(e.path());
        let expected = join_path_str(parent, name);
        if !str_eq(e.path(), expected.as_str()) {
            return false;
        }
        if i > 0 {
            let prev = base_name_str(entries[i - 1].path());
            if !str_lt(prev, name) {
                return false;
            }
        }
        proof {
            assert forall|j: int, k: int| 0 <= j < k < i + 1 implies lex_lt(
                name_of(#[trigger] entries@[j]),
                name_of(#[trigger] entries@[k]),
            ) by {
                if k == i && j < i - 1 {
                    lemma_lex_lt_trans(
                        name_of(entries@[j]),
                        name_of(entries@[i - 1]),
                        name_of(entries@[i as int]),
                    );
                }
            }
        }
        i = i + 1;
    }
    true
}

impl Dir {
    /// Checks this tree against `wf`: whether every directory's entries
    /// are sorted strictly by legal names and every path is its parent's
    /// path joined with the entry's name.
    pub fn is_well_formed(&self) -> (r: bool)
        ensures
            r == self.wf(),
    {
        entries_well_formed(self.path.as_str(), &self.entries)
    }
}

} // verus!
