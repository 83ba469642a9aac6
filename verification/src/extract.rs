//! Re-extraction of a tree onto a destination.
//!
//! Writing to a real disk is input and output, which stays outside the
//! verified core; everything the extractor decides is verified here over
//! an in-memory model of the destination.  [`FsModel`] holds the files and
//! directories a destination carries; extracting a tree onto it creates
//! every directory of the tree, in an order that puts each directory
//! before its own subtree, and writes every file's bytes, honoring the
//! chosen collision policy.  A run that fails leaves the files written so
//! far in place: the extractor does not roll back.

use vstd::prelude::*;

use vstd::slice::slice_to_vec;

use crate::globs::lemma_below_comp_at;
use crate::paths::{lemma_lex_lt_total, str_eq};
use crate::tree::{
    below_all, entries_wf, entry_and_below, entry_wf, name_of, path_of, Dir, DirEntry,
};

verus! {

/// The files at and below one entry: each file's path mapped to its bytes.
pub open spec fn entry_files(e: DirEntry) -> Map<Seq<char>, Seq<u8>>
    decreases e,
{
    match e {
        DirEntry::File(f) => Map::<Seq<char>, Seq<u8>>::empty().insert(f.path@, f.contents@),
        DirEntry::Dir(d) => entries_files(d.entries@),
    }
}

/// The files below a run of siblings.
pub open spec fn entries_files(s: Seq<DirEntry>) -> Map<Seq<char>, Seq<u8>>
    decreases s,
{
    if s.len() == 0 {
        Map::empty()
    } else {
        entry_files(s[0]).union_prefer_right(entries_files(s.drop_first()))
    }
}

/// The directories at and below one entry.
pub open spec fn entry_dirs(e: DirEntry) -> Set<Seq<char>>
    decreases e,
{
    match e {
        DirEntry::File(_) => Set::empty(),
        DirEntry::Dir(d) => entries_dirs(d.entries@).insert(d.path@),
    }
}

/// The directories below a run of siblings.
pub open spec fn entries_dirs(s: Seq<DirEntry>) -> Set<Seq<char>>
    decreases s,
{
    if s.len() == 0 {
        Set::empty()
    } else {
        entry_dirs(s[0]).union(entries_dirs(s.drop_first()))
    }
}

/// Modes in which a tree can be extracted onto a destination.
#[derive(Debug, Copy, Clone, PartialEq, Eq, Structural)]
pub enum ExtractMode {
    /// Halt with an error on the first file that already exists at the
    /// destination.  A directory that already exists is no error.
    FailIfExists,
    /// Replace every colliding file's contents.
    Overwrite,
}

/// A file write refused because the destination already held a file at
/// this path.
#[derive(Debug, PartialEq)]
pub struct ExtractError {
    pub path: String,
}

/// One file of the destination.
#[derive(Debug, PartialEq)]
struct FsFile {
    path: String,
    data: Vec<u8>,
}

/// The files of a destination, read as a map from path to contents; a
/// later entry overrides an earlier one at the same path, though the
/// model never keeps two entries at one path.
spec fn files_map_of(s: Seq<FsFile>) -> Map<Seq<char>, Seq<u8>>
    decreases s.len(),
{
    if s.len() == 0 {
        Map::empty()
    } else {
        files_map_of(s.drop_last()).insert(s.last().path@, s.last().data@)
    }
}

/// The directories of a destination, read as a set of paths.
spec fn dirs_set_of(s: Seq<String>) -> Set<Seq<char>> {
    Set::new(|p: Seq<char>| exists|i: int| 0 <= i < s.len() && s[i]@ == p)
}

/// A destination filesystem held in memory: which directories exist, and
/// which file lies at which path with which bytes.
#[derive(Debug, PartialEq)]
pub struct FsModel {
    dirs: Vec<String>,
    files: Vec<FsFile>,
}

/// A path of `s` occurs in the files map, and vice versa.
proof fn lemma_files_map_dom(s: Seq<FsFile>)
    ensures
        forall|p: Seq<char>| #[trigger]
            files_map_of(s).dom().contains(p) <==> (exists|i: int|
                0 <= i < s.len() && #[trigger] s[i].path@ == p),
    decreases s.len(),
{
    if s.len() > 0 {
        lemma_files_map_dom(s.drop_last());
        assert forall|p: Seq<char>| #[trigger] files_map_of(s).dom().contains(p) implies (
        exists|i: int| 0 <= i < s.len() && #[trigger] s[i].path@ == p) by {
            if p == s.last().path@ {
                assert(s[s.len() - 1].path@ == p);
            } else {
                assert(files_map_of(s.drop_last()).dom().contains(p));
                let i = choose|i: int| 0 <= i < s.drop_last().len() && #[trigger] s.drop_last()[i].path@
                    == p;
                assert(s[i].path@ == p);
            }
        }
        assert forall|p: Seq<char>| (exists|i: int|
            0 <= i < s.len() && #[trigger] s[i].path@ == p) implies #[trigger] files_map_of(
            s,
        ).dom().contains(p) by {
            let i = choose|i: int| 0 <= i < s.len() && #[trigger] s[i].path@ == p;
            if i < s.len() - 1 {
                assert(s.drop_last()[i].path@ == p);
                assert(files_map_of(s.drop_last()).dom().contains(p));
            } else {
                assert(p == s.last().path@);
            }
        }
    }
}

/// The files map reads back the entry at `i`, provided no later entry
/// shares its path.
proof fn lemma_files_map_value(s: Seq<FsFile>, i: int)
    requires
        0 <= i < s.len(),
        forall|j: int| i < j < s.len() ==> s[j].path@ != s[i].path@,
    ensures
        files_map_of(s).dom().contains(s[i].path@),
        files_map_of(s)[s[i].path@] == s[i].data@,
    decreases s.len(),
{
    if i < s.len() - 1 {
        assert(s.drop_last()[i] == s[i]);
        lemma_files_map_value(s.drop_last(), i);
    }
}

/// Replacing the entry at `i` with one at the same path updates the files
/// map at that path alone.
proof fn lemma_files_map_update(s: Seq<FsFile>, i: int, f: FsFile)
    requires
        0 <= i < s.len(),
        s[i].path@ == f.path@,
        forall|j: int, k: int| 0 <= j < k < s.len() ==> s[j].path@ != s[k].path@,
    ensures
        files_map_of(s.update(i, f)) == files_map_of(s).insert(f.path@, f.data@),
    decreases s.len(),
{
    let t = s.update(i, f);
    if i == s.len() - 1 {
        assert(t.drop_last() =~= s.drop_last());
        assert(t.last() == f);
        assert(files_map_of(t) =~= files_map_of(s).insert(f.path@, f.data@));
    } else {
        assert(t.drop_last() =~= s.drop_last().update(i, f));
        assert(s.drop_last()[i] == s[i]);
        assert(forall|j: int, k: int|
            0 <= j < k < s.drop_last().len() ==> s.drop_last()[j].path@ != s.drop_last()[k].path@);
        lemma_files_map_update(s.drop_last(), i, f);
        assert(t.last() == s.last());
        assert(s.last().path@ != f.path@);
        assert(files_map_of(t) =~= files_map_of(s).insert(f.path@, f.data@));
    }
}

/// Recording a directory again or anew is one set insertion.
proof fn lemma_dirs_set_push(s: Seq<String>, x: String)
    ensures
        dirs_set_of(s.push(x)) == dirs_set_of(s).insert(x@),
{
    assert forall|p: Seq<char>| #[trigger]
        dirs_set_of(s.push(x)).contains(p) implies dirs_set_of(s).insert(x@).contains(p) by {
        let i = choose|i: int| 0 <= i < s.push(x).len() && #[trigger] s.push(x)[i]@ == p;
        if i < s.len() {
            assert(s[i]@ == p);
        }
    }
    assert forall|p: Seq<char>| dirs_set_of(s).insert(x@).contains(p) implies #[trigger]
        dirs_set_of(s.push(x)).contains(p) by {
        if p == x@ {
            assert(s.push(x)[s.len() as int]@ == p);
        } else {
            let i = choose|i: int| 0 <= i < s.len() && #[trigger] s[i]@ == p;
            assert(s.push(x)[i]@ == p);
        }
    }
    assert(dirs_set_of(s.push(x)) =~= dirs_set_of(s).insert(x@));
}

/// Every path in the files of a subtree is the path of a reachable file
/// entry carrying those bytes, and every reachable file entry contributes
/// its path.
proof fn lemma_entry_files_below(e: DirEntry)
    ensures
        forall|p: Seq<char>| #[trigger]
            entry_files(e).dom().contains(p) ==> (exists|x: DirEntry|
                #[trigger] entry_and_below(e).contains(x) && x is File && path_of(x) == p
                    && entry_files(e)[p] == x->File_0.contents@),
        forall|x: DirEntry|
            #[trigger] entry_and_below(e).contains(x) && x is File ==> entry_files(
                e,
            ).dom().contains(path_of(x)),
    decreases e,
{
    match e {
        DirEntry::File(f) => {
            assert(entry_and_below(e) =~= seq![e]);
            assert(entry_and_below(e)[0] == e);
            assert(entry_and_below(e).contains(e));
            assert forall|x: DirEntry|
                #[trigger] entry_and_below(e).contains(x) && x is File implies entry_files(
                e,
            ).dom().contains(path_of(x)) by {
                assert(x == e);
            }
        },
        DirEntry::Dir(d) => {
            lemma_entries_files_below(d.entries@);
            let head = entry_and_below(e);
            let below = below_all(d.entries@);
            assert forall|p: Seq<char>| #[trigger] entry_files(e).dom().contains(p) implies (
            exists|x: DirEntry|
                #[trigger] entry_and_below(e).contains(x) && x is File && path_of(x) == p
                    && entry_files(e)[p] == x->File_0.contents@) by {
                let x = choose|x: DirEntry|
                    #[trigger] below_all(d.entries@).contains(x) && x is File && path_of(x) == p
                        && entries_files(d.entries@)[p] == x->File_0.contents@;
                let pos = choose|q: int| 0 <= q < below.len() && below[q] == x;
                assert(head[pos + 1] == x);
                assert(entry_and_below(e).contains(x));
            }
            assert forall|x: DirEntry|
                #[trigger] entry_and_below(e).contains(x) && x is File implies entry_files(
                e,
            ).dom().contains(path_of(x)) by {
                let pos = choose|q: int| 0 <= q < head.len() && head[q] == x;
                assert(pos != 0);
                assert(below[pos - 1] == x);
                assert(below_all(d.entries@).contains(x));
            }
        },
    }
}

/// The sibling-run form of `lemma_entry_files_below`.
proof fn lemma_entries_files_below(s: Seq<DirEntry>)
    ensures
        forall|p: Seq<char>| #[trigger]
            entries_files(s).dom().contains(p) ==> (exists|x: DirEntry|
                #[trigger] below_all(s).contains(x) && x is File && path_of(x) == p
                    && entries_files(s)[p] == x->File_0.contents@),
        forall|x: DirEntry|
            #[trigger] below_all(s).contains(x) && x is File ==> entries_files(s).dom().contains(
                path_of(x),
            ),
    decreases s,
{
    if s.len() > 0 {
        lemma_entry_files_below(s[0]);
        lemma_entries_files_below(s.drop_first());
        let head = entry_and_below(s[0]);
        let left = entry_files(s[0]);
        let right = entries_files(s.drop_first());
        assert forall|p: Seq<char>| #[trigger] entries_files(s).dom().contains(p) implies (exists|
            x: DirEntry,
        |
            #[trigger] below_all(s).contains(x) && x is File && path_of(x) == p && entries_files(
                s,
            )[p] == x->File_0.contents@) by {
            if right.dom().contains(p) {
                let x = choose|x: DirEntry|
                    #[trigger] below_all(s.drop_first()).contains(x) && x is File && path_of(x)
                        == p && entries_files(s.drop_first())[p] == x->File_0.contents@;
                let pos = choose|q: int|
                    0 <= q < below_all(s.drop_first()).len() && below_all(s.drop_first())[q] == x;
                assert(below_all(s)[head.len() + pos] == x);
                assert(below_all(s).contains(x));
            } else {
                assert(left.dom().contains(p));
                let x = choose|x: DirEntry|
                    #[trigger] entry_and_below(s[0]).contains(x) && x is File && path_of(x) == p
                        && entry_files(s[0])[p] == x->File_0.contents@;
                let pos = choose|q: int| 0 <= q < head.len() && head[q] == x;
                assert(below_all(s)[pos] == x);
                assert(below_all(s).contains(x));
            }
        }
        assert forall|x: DirEntry|
            #[trigger] below_all(s).contains(x) && x is File implies entries_files(
            s,
        ).dom().contains(path_of(x)) by {
            let pos = choose|q: int| 0 <= q < below_all(s).len() && below_all(s)[q] == x;
            if pos < head.len() {
                assert(head[pos] == x);
                assert(entry_and_below(s[0]).contains(x));
                assert(left.dom().contains(path_of(x)));
            } else {
                assert(below_all(s.drop_first())[pos - head.len()] == x);
                assert(below_all(s.drop_first()).contains(x));
                assert(right.dom().contains(path_of(x)));
            }
        }
    }
}

/// The files below a run of siblings are the union of the files below
/// each sibling.
proof fn lemma_entries_files_dom(s: Seq<DirEntry>)
    ensures
        forall|p: Seq<char>| #[trigger]
            entries_files(s).dom().contains(p) <==> (exists|j: int|
                0 <= j < s.len() && #[trigger] entry_files(s[j]).dom().contains(p)),
    decreases s,
{
    if s.len() > 0 {
        lemma_entries_files_dom(s.drop_first());
        assert forall|p: Seq<char>| #[trigger] entries_files(s).dom().contains(p) implies (exists|
            j: int,
        | 0 <= j < s.len() && #[trigger] entry_files(s[j]).dom().contains(p)) by {
            if entries_files(s.drop_first()).dom().contains(p) {
                let j = choose|j: int|
                    0 <= j < s.drop_first().len() && #[trigger] entry_files(
                        s.drop_first()[j],
                    ).dom().contains(p);
                assert(s.drop_first()[j] == s[j + 1]);
                assert(entry_files(s[j + 1]).dom().contains(p));
            } else {
                assert(entry_files(s[0]).dom().contains(p));
            }
        }
        assert forall|p: Seq<char>| (exists|j: int|
            0 <= j < s.len() && #[trigger] entry_files(s[j]).dom().contains(p)) implies #[trigger]
        entries_files(s).dom().contains(p) by {
            let j = choose|j: int| 0 <= j < s.len() && #[trigger] entry_files(s[j]).dom().contains(
                p,
            );
            if j > 0 {
                assert(s.drop_first()[j - 1] == s[j]);
                assert(entry_files(s.drop_first()[j - 1]).dom().contains(p));
                assert(entries_files(s.drop_first()).dom().contains(p));
            }
        }
    }
}

/// The directories below a run of siblings, sibling by sibling.
proof fn lemma_entries_dirs_dom(s: Seq<DirEntry>)
    ensures
        forall|p: Seq<char>| #[trigger]
            entries_dirs(s).contains(p) <==> (exists|j: int|
                0 <= j < s.len() && #[trigger] entry_dirs(s[j]).contains(p)),
    decreases s,
{
    if s.len() > 0 {
        lemma_entries_dirs_dom(s.drop_first());
        assert forall|p: Seq<char>| #[trigger] entries_dirs(s).contains(p) implies (exists|j: int|
            0 <= j < s.len() && #[trigger] entry_dirs(s[j]).contains(p)) by {
            if entries_dirs(s.drop_first()).contains(p) {
                let j = choose|j: int|
                    0 <= j < s.drop_first().len() && #[trigger] entry_dirs(
                        s.drop_first()[j],
                    ).contains(p);
                assert(s.drop_first()[j] == s[j + 1]);
                assert(entry_dirs(s[j + 1]).contains(p));
            } else {
                assert(entry_dirs(s[0]).contains(p));
            }
        }
        assert forall|p: Seq<char>| (exists|j: int|
            0 <= j < s.len() && #[trigger] entry_dirs(s[j]).contains(p)) implies #[trigger]
        entries_dirs(s).contains(p) by {
            let j = choose|j: int| 0 <= j < s.len() && #[trigger] entry_dirs(s[j]).contains(p);
            if j > 0 {
                assert(s.drop_first()[j - 1] == s[j]);
                assert(entry_dirs(s.drop_first()[j - 1]).contains(p));
                assert(entries_dirs(s.drop_first()).contains(p));
            }
        }
    }
}

/// Two distinct siblings share no file path: everything below one carries
/// its name where paths first differ, and the names differ.
proof fn lemma_sibling_files_disjoint(
    parent: Seq<char>,
    s: Seq<DirEntry>,
    i: int,
    j: int,
    p: Seq<char>,
)
    requires
        entries_wf(parent, s),
        0 <= i < s.len(),
        0 <= j < s.len(),
        i != j,
    ensures
        !(entry_files(s[i]).dom().contains(p) && entry_files(s[j]).dom().contains(p)),
{
    if entry_files(s[i]).dom().contains(p) && entry_files(s[j]).dom().contains(p) {
        lemma_sibling_files_collide(parent, s, i, j, p);
    }
}

/// The contradiction inside `lemma_sibling_files_disjoint`: were a path
/// below both siblings, both would carry both siblings' names at one
/// position.
proof fn lemma_sibling_files_collide(
    parent: Seq<char>,
    s: Seq<DirEntry>,
    i: int,
    j: int,
    p: Seq<char>,
)
    requires
        entries_wf(parent, s),
        0 <= i < s.len(),
        0 <= j < s.len(),
        i != j,
        entry_files(s[i]).dom().contains(p),
        entry_files(s[j]).dom().contains(p),
    ensures
        name_of(s[i]) == name_of(s[j]),
        !(entry_files(s[i]).dom().contains(p) && entry_files(s[j]).dom().contains(p)),
{
    lemma_entry_files_below(s[i]);
    lemma_entry_files_below(s[j]);
    let x = choose|x: DirEntry|
        #[trigger] entry_and_below(s[i]).contains(x) && x is File && path_of(x) == p && entry_files(
            s[i],
        )[p] == x->File_0.contents@;
    let y = choose|y: DirEntry|
        #[trigger] entry_and_below(s[j]).contains(y) && y is File && path_of(y) == p && entry_files(
            s[j],
        )[p] == y->File_0.contents@;
    lemma_below_comp_at(parent, s, i, x);
    lemma_below_comp_at(parent, s, j, y);
    assert(name_of(s[i]) == name_of(s[j]));
    if i < j {
        lemma_lex_lt_total(name_of(s[i]), name_of(s[j]));
    } else {
        lemma_lex_lt_total(name_of(s[j]), name_of(s[i]));
    }
}

/// Appending a sibling joins its files onto the run's.
proof fn lemma_entries_files_snoc(s: Seq<DirEntry>, e: DirEntry)
    ensures
        entries_files(s.push(e)) == entries_files(s).union_prefer_right(entry_files(e)),
    decreases s,
{
    if s.len() == 0 {
        assert(s.push(e)[0] == e);
        assert(s.push(e).drop_first() =~= Seq::<DirEntry>::empty());
        assert(entries_files(Seq::<DirEntry>::empty()) == Map::<Seq<char>, Seq<u8>>::empty());
        assert(entries_files(s.push(e)) == entry_files(e).union_prefer_right(
            entries_files(s.push(e).drop_first()),
        ));
        assert(entries_files(s.push(e)) =~= entries_files(s).union_prefer_right(entry_files(e)));
    } else {
        assert(s.push(e)[0] == s[0]);
        assert(s.push(e).drop_first() =~= s.drop_first().push(e));
        lemma_entries_files_snoc(s.drop_first(), e);
        assert(entries_files(s.push(e)) == entry_files(s[0]).union_prefer_right(
            entries_files(s.drop_first().push(e)),
        ));
        assert(entries_files(s) == entry_files(s[0]).union_prefer_right(
            entries_files(s.drop_first()),
        ));
        assert(entries_files(s.push(e)) =~= entries_files(s).union_prefer_right(entry_files(e)));
    }
}

/// Appending a sibling joins its directories onto the run's.
proof fn lemma_entries_dirs_snoc(s: Seq<DirEntry>, e: DirEntry)
    ensures
        entries_dirs(s.push(e)) == entries_dirs(s).union(entry_dirs(e)),
    decreases s,
{
    if s.len() == 0 {
        assert(s.push(e)[0] == e);
        assert(s.push(e).drop_first() =~= Seq::<DirEntry>::empty());
        assert(entries_dirs(Seq::<DirEntry>::empty()) == Set::<Seq<char>>::empty());
        assert(entries_dirs(s.push(e)) == entry_dirs(e).union(
            entries_dirs(s.push(e).drop_first()),
        ));
        assert(entries_dirs(s.push(e)) =~= entries_dirs(s).union(entry_dirs(e)));
    } else {
        assert(s.push(e)[0] == s[0]);
        assert(s.push(e).drop_first() =~= s.drop_first().push(e));
        lemma_entries_dirs_snoc(s.drop_first(), e);
        assert(entries_dirs(s.push(e)) == entry_dirs(s[0]).union(
            entries_dirs(s.drop_first().push(e)),
        ));
        assert(entries_dirs(s) == entry_dirs(s[0]).union(entries_dirs(s.drop_first())));
        assert(entries_dirs(s.push(e)) =~= entries_dirs(s).union(entry_dirs(e)));
    }
}

impl FsModel {
    /// The model never keeps two file entries at one path.  Constructors
    /// establish this and every operation preserves it.
    pub closed spec fn wf(self) -> bool {
        forall|j: int, k: int|
            0 <= j < k < self.files@.len() ==> self.files@[j].path@ != self.files@[k].path@
    }

    /// The destination's files: path to contents.
    pub closed spec fn files_map(self) -> Map<Seq<char>, Seq<u8>> {
        files_map_of(self.files@)
    }

    /// The destination's directories.
    pub closed spec fn dirs_set(self) -> Set<Seq<char>> {
        dirs_set_of(self.dirs@)
    }

    /// An empty destination: no files, no directories.
    pub fn new() -> (r: FsModel)
        ensures
            r.wf(),
            r.files_map() == Map::<Seq<char>, Seq<u8>>::empty(),
            r.dirs_set() == Set::<Seq<char>>::empty(),
    {
        let r = FsModel { dirs: Vec::new(), files: Vec::new() };
        proof {
            assert(r.dirs_set() =~= Set::<Seq<char>>::empty());
        }
        r
    }

    /// The position of the file at `path`, if one exists.
    fn find_file(&self, path: &str) -> (r: Option<usize>)
        ensures
            match r {
                Some(i) => i < self.files@.len() && self.files@[i as int].path@ == path@,
                None => forall|j: int| 0 <= j < self.files@.len() ==> self.files@[j].path@ != path@,
            },
    {
        let n = self.files.len();
        let mut i: usize = 0;
        while i < n
            invariant
                n == self.files@.len(),
                i <= n,
                forall|j: int| 0 <= j < i ==> self.files@[j].path@ != path@,
            decreases n - i,
        {
            if str_eq(self.files[i].path.as_str(), path) {
                return Some(i);
            }
            i = i + 1;
        }
        None
    }

    /// Whether a file lies at `path`.
    pub fn has_file(&self, path: &str) -> (r: bool)
        ensures
            r == self.files_map().dom().contains(path@),
    {
        proof {
            lemma_files_map_dom(self.files@);
        }
        self.find_file(path).is_some()
    }

    /// The contents of the file at `path`, if one exists.
    pub fn file_contents(&self, path: &str) -> (r: Option<&Vec<u8>>)
        requires
            self.wf(),
        ensures
            r is Some <==> self.files_map().dom().contains(path@),
            r is Some ==> r->0@ == self.files_map()[path@],
    {
        proof {
            lemma_files_map_dom(self.files@);
        }
        match self.find_file(path) {
            Some(i) => {
                proof {
                    lemma_files_map_value(self.files@, i as int);
                }
                Some(&self.files[i].data)
            },
            None => None,
        }
    }

    /// Whether a directory lies at `path`.
    pub fn has_dir(&self, path: &str) -> (r: bool)
        ensures
            r == self.dirs_set().contains(path@),
    {
        let n = self.dirs.len();
        let mut i: usize = 0;
        while i < n
            invariant
                n == self.dirs@.len(),
                i <= n,
                forall|j: int| 0 <= j < i ==> self.dirs@[j]@ != path@,
            decreases n - i,
        {
            if str_eq(self.dirs[i].as_str(), path) {
                proof {
                    assert(self.dirs@[i as int]@ == path@);
                }
                return true;
            }
            i = i + 1;
        }
        false
    }

    /// Creates the directory at `path`; one that already exists stays,
    /// and no file is touched.
    pub fn create_dir(&mut self, path: &str)
        requires
            old(self).wf(),
        ensures
            final(self).wf(),
            final(self).dirs_set() == old(self).dirs_set().insert(path@),
            final(self).files_map() == old(self).files_map(),
    {
        let ghost pre = self.dirs@;
        self.dirs.push(String::from_str(path));
        proof {
            assert(self.dirs@ =~= pre.push(self.dirs@[pre.len() as int]));
            lemma_dirs_set_push(pre, self.dirs@[pre.len() as int]);
        }
    }

    /// Writes `data` to the file at `path`.  A fresh path is always
    /// written; an occupied one is replaced under `Overwrite` and refused
    /// under `FailIfExists`, in which case the destination stands
    /// unchanged and the error names the path.
    pub fn write_file(&mut self, path: &str, data: &[u8], mode: ExtractMode) -> (r: Result<
        (),
        ExtractError,
    >)
        requires
            old(self).wf(),
        ensures
            final(self).wf(),
            r is Ok <==> (mode == ExtractMode::Overwrite || !old(self).files_map().dom().contains(
                path@,
            )),
            r is Ok ==> final(self).files_map() == old(self).files_map().insert(path@, data@),
            r is Err ==> *final(self) == *old(self) && r->Err_0.path@ == path@ && old(
                self,
            ).files_map().dom().contains(path@),
            final(self).dirs_set() == old(self).dirs_set(),
    {
        proof {
            lemma_files_map_dom(self.files@);
        }
        match self.find_file(path) {
            Some(i) => {
                match mode {
                    ExtractMode::FailIfExists => Err(ExtractError { path: String::from_str(path) }),
                    ExtractMode::Overwrite => {
                        let ghost pre = self.files@;
                        let replacement = FsFile {
                            path: String::from_str(path),
                            data: slice_to_vec(data),
                        };
                        proof {
                            lemma_files_map_update(pre, i as int, replacement);
                        }
                        self.files.set(i, replacement);
                        Ok(())
                    },
                }
            },
            None => {
                let ghost pre = self.files@;
                self.files.push(FsFile { path: String::from_str(path), data: slice_to_vec(data) });
                proof {
                    assert(self.files@.drop_last() =~= pre);
                }
                Ok(())
            },
        }
    }
}

/// Extracts the siblings `entries` onto the destination, in their sorted
/// order: each directory is created before anything beneath it, and each
/// file's bytes are written under the chosen collision policy.
fn extract_entries(
    entries: &Vec<DirEntry>,
    Ghost(parent): Ghost<Seq<char>>,
    dest: &mut FsModel,
    mode: ExtractMode,
) -> (r: Result<(), ExtractError>)
    requires
        entries_wf(parent, entries@),
        old(dest).wf(),
    ensures
        final(dest).wf(),
        mode == ExtractMode::Overwrite ==> r is Ok,
        r is Ok ==> final(dest).files_map() == old(dest).files_map().union_prefer_right(
            entries_files(entries@),
        ),
        r is Ok ==> final(dest).dirs_set() == old(dest).dirs_set().union(entries_dirs(entries@)),
        r is Ok && mode == ExtractMode::FailIfExists ==> entries_files(entries@).dom().disjoint(
            old(dest).files_map().dom(),
        ),
        r is Err ==> mode == ExtractMode::FailIfExists && entries_files(entries@).dom().contains(
            r->Err_0.path@,
        ) && old(dest).files_map().dom().contains(r->Err_0.path@),
        forall|p: Seq<char>|
            old(dest).files_map().dom().contains(p) ==> #[trigger] final(dest).files_map().dom().contains(p),
        mode == ExtractMode::FailIfExists ==> forall|p: Seq<char>|
            old(dest).files_map().dom().contains(p) ==> #[trigger] final(dest).files_map()[p]
                == old(dest).files_map()[p],
        forall|p: Seq<char>| #[trigger]
            final(dest).files_map().dom().contains(p) ==> old(dest).files_map().dom().contains(p)
                || entries_files(entries@).dom().contains(p),
        forall|p: Seq<char>|
            old(dest).dirs_set().contains(p) ==> #[trigger] final(dest).dirs_set().contains(p),
        forall|p: Seq<char>| #[trigger]
            final(dest).dirs_set().contains(p) ==> old(dest).dirs_set().contains(p)
                || entries_dirs(entries@).contains(p),
    decreases entries@,
{
    let n = entries.len();
    let mut i: usize = 0;
    proof {
        assert(entries@.take(0) =~= Seq::<DirEntry>::empty());
        assert(dest.files_map() =~= old(dest).files_map().union_prefer_right(
            entries_files(entries@.take(0)),
        ));
        assert(dest.dirs_set() =~= old(dest).dirs_set().union(entries_dirs(entries@.take(0))));
        assert(entries_files(entries@.take(0)).dom().disjoint(old(dest).files_map().dom()));
    }
    while i < n
        invariant
            entries_wf(parent, entries@),
            n == entries@.len(),
            i <= n,
            dest.wf(),
            dest.files_map() == old(dest).files_map().union_prefer_right(
                entries_files(entries@.take(i as int)),
            ),
            dest.dirs_set() == old(dest).dirs_set().union(entries_dirs(entries@.take(i as int))),
            mode == ExtractMode::FailIfExists ==> entries_files(
                entries@.take(i as int),
            ).dom().disjoint(old(dest).files_map().dom()),
        decreases n - i,
    {
        let ghost taken = entries@.take(i as int);
        let ghost cur = *dest;
        let ghost cut = entries@[i as int];
        proof {
            lemma_entries_files_snoc(taken, cut);
            lemma_entries_dirs_snoc(taken, cut);
            assert(entries@.take(i + 1) =~= taken.push(cut));
            lemma_entries_files_dom(taken);
            lemma_entries_files_dom(entries@);
            lemma_entries_dirs_dom(taken);
            lemma_entries_dirs_dom(entries@);
        }
        match &entries[i] {
            DirEntry::File(f) => {
                let res = dest.write_file(f.path.as_str(), f.contents.as_slice(), mode);
                match res {
                    Ok(()) => {
                        proof {
                            assert(entry_files(cut) =~= Map::<Seq<char>, Seq<u8>>::empty().insert(
                                f.path@,
                                f.contents@,
                            ));
                            assert(dest.files_map() =~= old(dest).files_map().union_prefer_right(
                                entries_files(entries@.take(i + 1)),
                            ));
                            assert(entries_dirs(entries@.take(i + 1)) =~= entries_dirs(taken));
                            if mode == ExtractMode::FailIfExists {
                                assert(!cur.files_map().dom().contains(f.path@));
                                assert(!old(dest).files_map().dom().contains(f.path@));
                                assert(entries_files(entries@.take(i + 1)).dom().disjoint(
                                    old(dest).files_map().dom(),
                                ));
                            }
                        }
                    },
                    Err(err) => {
                        proof {
                            let p = f.path@;
                            assert(cur.files_map().dom().contains(p));
                            assert(entry_files(cut).dom().contains(p));
                            if entries_files(taken).dom().contains(p) {
                                let j = choose|j: int|
                                    0 <= j < taken.len() && #[trigger] entry_files(
                                        taken[j],
                                    ).dom().contains(p);
                                assert(taken[j] == entries@[j]);
                                lemma_sibling_files_disjoint(parent, entries@, j, i as int, p);
                            }
                            assert(old(dest).files_map().dom().contains(p));
                            assert(entries_files(entries@).dom().contains(p));
                            assert forall|q: Seq<char>| #[trigger]
                                dest.files_map().dom().contains(q) implies old(
                                dest,
                            ).files_map().dom().contains(q) || entries_files(
                                entries@,
                            ).dom().contains(q) by {
                                if entries_files(taken).dom().contains(q) {
                                    let j = choose|j: int|
                                        0 <= j < taken.len() && #[trigger] entry_files(
                                            taken[j],
                                        ).dom().contains(q);
                                    assert(taken[j] == entries@[j]);
                                    assert(entries_files(entries@).dom().contains(q));
                                }
                            }
                            assert forall|q: Seq<char>| #[trigger]
                                dest.dirs_set().contains(q) implies old(dest).dirs_set().contains(
                                q,
                            ) || entries_dirs(entries@).contains(q) by {
                                if entries_dirs(taken).contains(q) {
                                    let j = choose|j: int|
                                        0 <= j < taken.len() && #[trigger] entry_dirs(
                                            taken[j],
                                        ).contains(q);
                                    assert(taken[j] == entries@[j]);
                                    assert(entries_dirs(entries@).contains(q));
                                }
                            }
                        }
                        return Err(err);
                    },
                }
            },
            DirEntry::Dir(d) => {
                dest.create_dir(d.path.as_str());
                let ghost cur2 = *dest;
                proof {
                    assert(entry_wf(cut));
                    assert(path_of(cut) == d.path@);
                    assert(entry_files(cut) == entries_files(d.entries@));
                    assert(entry_dirs(cut) == entries_dirs(d.entries@).insert(d.path@));
                }
                let res = extract_entries(&d.entries, Ghost(d.path@), dest, mode);
                match res {
                    Ok(()) => {
                        proof {
                            assert(dest.files_map() == cur2.files_map().union_prefer_right(
                                entries_files(d.entries@),
                            ));
                            assert(cur2.files_map() == cur.files_map());
                            assert(dest.files_map() =~= old(dest).files_map().union_prefer_right(
                                entries_files(entries@.take(i + 1)),
                            ));
                            assert(dest.dirs_set() == cur2.dirs_set().union(
                                entries_dirs(d.entries@),
                            ));
                            assert(cur2.dirs_set() == cur.dirs_set().insert(d.path@));
                            assert(dest.dirs_set() =~= old(dest).dirs_set().union(
                                entries_dirs(entries@.take(i + 1)),
                            ));
                            if mode == ExtractMode::FailIfExists {
                                assert(entries_files(d.entries@).dom().disjoint(
                                    cur2.files_map().dom(),
                                ));
                                assert forall|q: Seq<char>|
                                    entries_files(entries@.take(i + 1)).dom().contains(q) implies !
                                old(dest).files_map().dom().contains(q) by {
                                    if old(dest).files_map().dom().contains(q) {
                                        assert(cur2.files_map().dom().contains(q));
                                    }
                                }
                                assert(entries_files(entries@.take(i + 1)).dom().disjoint(
                                    old(dest).files_map().dom(),
                                ));
                            }
                        }
                    },
                    Err(err) => {
                        proof {
                            let p = err.path@;
                            assert(entries_files(d.entries@).dom().contains(p));
                            assert(entry_files(cut).dom().contains(p));
                            assert(cur2.files_map().dom().contains(p));
                            if entries_files(taken).dom().contains(p) {
                                let j = choose|j: int|
                                    0 <= j < taken.len() && #[trigger] entry_files(
                                        taken[j],
                                    ).dom().contains(p);
                                assert(taken[j] == entries@[j]);
                                lemma_sibling_files_disjoint(parent, entries@, j, i as int, p);
                            }
                            assert(old(dest).files_map().dom().contains(p));
                            assert(entries_files(entries@).dom().contains(p));
                            assert forall|q: Seq<char>|
                                old(dest).files_map().dom().contains(q) implies #[trigger]
                            dest.files_map().dom().contains(q) by {
                                assert(cur2.files_map().dom().contains(q));
                            }
                            if mode == ExtractMode::FailIfExists {
                                assert forall|q: Seq<char>|
                                    old(dest).files_map().dom().contains(q) implies #[trigger]
                                dest.files_map()[q] == old(dest).files_map()[q] by {
                                    assert(cur2.files_map().dom().contains(q));
                                    assert(dest.files_map()[q] == cur2.files_map()[q]);
                                    assert(!entries_files(taken).dom().contains(q));
                                    assert(cur2.files_map()[q] == old(dest).files_map()[q]);
                                }
                            }
                            assert forall|q: Seq<char>| #[trigger]
                                dest.files_map().dom().contains(q) implies old(
                                dest,
                            ).files_map().dom().contains(q) || entries_files(
                                entries@,
                            ).dom().contains(q) by {
                                if !old(dest).files_map().dom().contains(q) {
                                    if cur2.files_map().dom().contains(q) {
                                        assert(entries_files(taken).dom().contains(q));
                                        let j = choose|j: int|
                                            0 <= j < taken.len() && #[trigger] entry_files(
                                                taken[j],
                                            ).dom().contains(q);
                                        assert(taken[j] == entries@[j]);
                                        assert(entries_files(entries@).dom().contains(q));
                                    } else {
                                        assert(entries_files(d.entries@).dom().contains(q));
                                        assert(entry_files(entries@[i as int]).dom().contains(q));
                                        assert(entries_files(entries@).dom().contains(q));
                                    }
                                }
                            }
                            assert forall|q: Seq<char>|
                                old(dest).dirs_set().contains(q) implies #[trigger]
                            dest.dirs_set().contains(q) by {
                                assert(cur2.dirs_set().contains(q));
                            }
                            assert forall|q: Seq<char>| #[trigger]
                                dest.dirs_set().contains(q) implies old(dest).dirs_set().contains(
                                q,
                            ) || entries_dirs(entries@).contains(q) by {
                                if !old(dest).dirs_set().contains(q) {
                                    if cur2.dirs_set().contains(q) {
                                        if q == d.path@ {
                                            assert(entry_dirs(entries@[i as int]).contains(q));
                                            assert(entries_dirs(entries@).contains(q));
                                        } else {
                                            assert(entries_dirs(taken).contains(q));
                                            let j = choose|j: int|
                                                0 <= j < taken.len() && #[trigger] entry_dirs(
                                                    taken[j],
                                                ).contains(q);
                                            assert(taken[j] == entries@[j]);
                                            assert(entries_dirs(entries@).contains(q));
                                        }
                                    } else {
                                        assert(entries_dirs(d.entries@).contains(q));
                                        assert(entry_dirs(entries@[i as int]).contains(q));
                                        assert(entries_dirs(entries@).contains(q));
                                    }
                                }
                            }
                        }
                        return Err(err);
                    },
                }
            },
        }
        i = i + 1;
    }
    proof {
        assert(entries@.take(n as int) =~= entries@);
        lemma_entries_files_dom(entries@);
        lemma_entries_dirs_dom(entries@);
        if mode == ExtractMode::FailIfExists {
            assert forall|p: Seq<char>|
                old(dest).files_map().dom().contains(p) implies #[trigger] dest.files_map()[p]
                == old(dest).files_map()[p] by {
                assert(!entries_files(entries@).dom().contains(p));
            }
        }
    }
    Ok(())
}

impl Dir {
    /// Extracts this tree onto the destination: every directory of the
    /// tree is created, each before its own subtree, and every file's
    /// bytes are written.  Under `Overwrite` the run always succeeds and
    /// colliding files are replaced; under `FailIfExists` the run succeeds
    /// exactly when no file of the tree already lies at the destination,
    /// and otherwise stops at a collision, naming its path and leaving
    /// what was already written in place.
    pub fn extract(&self, dest: &mut FsModel, mode: ExtractMode) -> (r: Result<(), ExtractError>)
        requires
            self.wf(),
            old(dest).wf(),
        ensures
            final(dest).wf(),
            mode == ExtractMode::Overwrite ==> r is Ok,
            r is Ok ==> final(dest).files_map() == old(dest).files_map().union_prefer_right(
                entries_files(self.entries@),
            ),
            r is Ok ==> final(dest).dirs_set() == old(dest).dirs_set().union(
                entries_dirs(self.entries@),
            ),
            r is Ok && mode == ExtractMode::FailIfExists ==> entries_files(
                self.entries@,
            ).dom().disjoint(old(dest).files_map().dom()),
            r is Err ==> mode == ExtractMode::FailIfExists && entries_files(
                self.entries@,
            ).dom().contains(r->Err_0.path@) && old(dest).files_map().dom().contains(
                r->Err_0.path@,
            ),
            forall|p: Seq<char>|
                old(dest).files_map().dom().contains(p) ==> #[trigger] final(dest).files_map().dom().contains(p),
            mode == ExtractMode::FailIfExists ==> forall|p: Seq<char>|
                old(dest).files_map().dom().contains(p) ==> #[trigger] final(dest).files_map()[p]
                    == old(dest).files_map()[p],
            forall|p: Seq<char>| #[trigger]
                final(dest).files_map().dom().contains(p) ==> old(dest).files_map().dom().contains(p) || entries_files(self.entries@).dom().contains(p),
    {
        extract_entries(&self.entries, Ghost(self.path@), dest, mode)
    }
}

/// Extracting a tree twice.  Read beside `extract`'s contract: onto an
/// empty destination a `FailIfExists` run is owed success and leaves
/// exactly the tree's files; a second `FailIfExists` run onto that result
/// must fail whenever the tree holds any file at all (an empty tree's
/// second run succeeds instead); and `Overwrite` runs are always owed
/// success and leave the same file contents both times.
pub proof fn lemma_extract_twice(d: Dir)
    requires
        d.wf(),
    ensures
        entries_files(d.entries@).dom().disjoint(Map::<Seq<char>, Seq<u8>>::empty().dom()),
        Map::<Seq<char>, Seq<u8>>::empty().union_prefer_right(entries_files(d.entries@))
            == entries_files(d.entries@),
        (exists|p: Seq<char>| entries_files(d.entries@).dom().contains(p))
            ==> !entries_files(d.entries@).dom().disjoint(entries_files(d.entries@).dom()),
        entries_files(d.entries@).union_prefer_right(entries_files(d.entries@)) == entries_files(
            d.entries@,
        ),
{
    assert(Map::<Seq<char>, Seq<u8>>::empty().union_prefer_right(entries_files(d.entries@))
        =~= entries_files(d.entries@));
    assert(entries_files(d.entries@).union_prefer_right(entries_files(d.entries@))
        =~= entries_files(d.entries@));
    if exists|p: Seq<char>| entries_files(d.entries@).dom().contains(p) {
        let p = choose|p: Seq<char>| entries_files(d.entries@).dom().contains(p);
        assert(entries_files(d.entries@).dom().contains(p));
    }
}

} // verus!
