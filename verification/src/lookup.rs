//! Exact path lookup.
//!
//! A relative path is resolved component by component from a starting
//! entry: each component must name a child of the current directory, found
//! here by binary search over the sorted sibling names.  Resolution that
//! runs past a file, or names a missing child, yields nothing; absence is
//! a normal result, not an error.

use vstd::prelude::*;

use crate::paths::{
    lemma_lex_lt_total, lemma_lex_lt_trans, lemma_split_join, lex_lt, path_components, split_path,
    str_lt,
};
use crate::tree::{
    below_all, entries_wf, entry_and_below, entry_inner_wf, entry_wf, name_of, path_of,
    sorted_names, Dir, DirEntry, File,
};

verus! {

/// What resolving `comps` among the sibling entries `s` yields: nothing
/// for an empty path, otherwise the uniquely named child when the single
/// component names one, otherwise a descent into the named subdirectory.
pub open spec fn lookup_in(s: Seq<DirEntry>, comps: Seq<Seq<char>>) -> Option<DirEntry>
    decreases comps.len(),
{
    if comps.len() == 0 {
        None
    } else if exists|i: int| 0 <= i < s.len() && name_of(#[trigger] s[i]) == comps[0] {
        let i = choose|i: int| 0 <= i < s.len() && name_of(#[trigger] s[i]) == comps[0];
        if comps.len() == 1 {
            Some(s[i])
        } else {
            match s[i] {
                DirEntry::File(_) => None,
                DirEntry::Dir(d) => lookup_in(d.entries@, comps.drop_first()),
            }
        }
    } else {
        None
    }
}

/// What resolving `comps` against the entry `e` itself yields: `e` when no
/// components remain, otherwise a descent into `e`'s own entries.
pub open spec fn lookup_entry(e: DirEntry, comps: Seq<Seq<char>>) -> Option<DirEntry> {
    if comps.len() == 0 {
        Some(e)
    } else {
        match e {
            DirEntry::File(_) => None,
            DirEntry::Dir(d) => lookup_in(d.entries@, comps),
        }
    }
}

/// In a run of siblings with strictly rising names, a name picks out at
/// most one entry.
pub proof fn lemma_name_unique(s: Seq<DirEntry>, i: int, j: int)
    requires
        sorted_names(s),
        0 <= i < s.len(),
        0 <= j < s.len(),
        name_of(s[i]) == name_of(s[j]),
    ensures
        i == j,
{
    if i != j {
        lemma_lex_lt_total(name_of(s[i]), name_of(s[j]));
    }
}

/// The file name of an entry, read off the tail of its stored path.
pub fn entry_name<'a>(e: &'a DirEntry) -> (r: &'a str)
    ensures
        r@ == name_of(*e),
{
    crate::paths::base_name_str(e.path())
}

/// Binary search for the sibling whose file name is `name`.
fn find_child<'a>(entries: &'a Vec<DirEntry>, name: &str) -> (r: Option<&'a DirEntry>)
    requires
        sorted_names(entries@),
    ensures
        match r {
            Some(e) => exists|i: int|
                0 <= i < entries@.len() && *e == #[trigger] entries@[i] && name_of(entries@[i])
                    == name@,
            None => forall|i: int|
                0 <= i < entries@.len() ==> name_of(#[trigger] entries@[i]) != name@,
        },
{
    let mut lo: usize = 0;
    let mut hi: usize = entries.len();
    while lo < hi
        invariant
            lo <= hi <= entries@.len(),
            sorted_names(entries@),
            forall|i: int| 0 <= i < lo ==> lex_lt(name_of(#[trigger] entries@[i]), name@),
            forall|i: int|
                hi <= i < entries@.len() ==> lex_lt(name@, name_of(#[trigger] entries@[i])),
        decreases hi - lo,
    {
        let mid = lo + (hi - lo) / 2;
        let e = &entries[mid];
        let ename = entry_name(e);
        if str_lt(ename, name) {
            proof {
                assert forall|i: int| 0 <= i < mid + 1 implies lex_lt(
                    name_of(#[trigger] entries@[i]),
                    name@,
                ) by {
                    if i < mid {
                        lemma_lex_lt_trans(name_of(entries@[i]), name_of(entries@[mid as int]), name@);
                    }
                }
            }
            lo = mid + 1;
        } else if str_lt(name, ename) {
            proof {
                assert forall|i: int| mid <= i < entries@.len() implies lex_lt(
                    name@,
                    name_of(#[trigger] entries@[i]),
                ) by {
                    if i > mid {
                        lemma_lex_lt_trans(name@, name_of(entries@[mid as int]), name_of(entries@[i]));
                    }
                }
            }
            hi = mid;
        } else {
            proof {
                lemma_lex_lt_total(ename@, name@);
            }
            return Some(e);
        }
    }
    proof {
        assert forall|i: int| 0 <= i < entries@.len() implies name_of(#[trigger] entries@[i])
            != name@ by {
            lemma_lex_lt_total(name_of(entries@[i]), name@);
        }
    }
    None
}

/// Resolves the components `comps[from..]` among the sibling entries.
fn lookup_rec<'a>(entries: &'a Vec<DirEntry>, comps: &Vec<String>, from: usize) -> (r: Option<
    &'a DirEntry,
>)
    requires
        from < comps@.len(),
        sorted_names(entries@),
        forall|i: int| 0 <= i < entries@.len() ==> entry_wf(#[trigger] entries@[i]),
    ensures
        match r {
            Some(e) => lookup_in(entries@, comps.deep_view().skip(from as int)) == Some(*e),
            None => lookup_in(entries@, comps.deep_view().skip(from as int)) is None,
        },
    decreases comps@.len() - from,
{
    let ghost rest = comps.deep_view().skip(from as int);
    proof {
        assert(rest[0] == comps.deep_view()[from as int]);
    }
    let found = find_child(entries, comps[from].as_str());
    match found {
        None => {
            proof {
                assert(!(exists|i: int|
                    0 <= i < entries@.len() && name_of(#[trigger] entries@[i]) == rest[0]));
            }
            None
        },
        Some(e) => {
            proof {
                let i = choose|i: int|
                    0 <= i < entries@.len() && *e == #[trigger] entries@[i] && name_of(entries@[i])
                        == comps.deep_view()[from as int];
                let j = choose|j: int|
                    0 <= j < entries@.len() && name_of(#[trigger] entries@[j]) == rest[0];
                lemma_name_unique(entries@, i, j);
                assert(entries@[j] == *e);
            }
            let n = comps.len();
            if from + 1 == n {
                Some(e)
            } else {
                match e {
                    DirEntry::File(_) => {
                        proof {
                            assert(lookup_in(entries@, rest) is None);
                        }
                        None
                    },
                    DirEntry::Dir(d) => {
                        proof {
                            assert(rest.drop_first() =~= comps.deep_view().skip(from + 1));
                        }
                        lookup_rec(&d.entries, comps, from + 1)
                    },
                }
            }
        },
    }
}

impl DirEntry {
    /// Resolves `path` from this entry: the entry itself for the empty
    /// path, otherwise the descendant the components lead to.
    pub fn get(&self, path: &str) -> (r: Option<&DirEntry>)
        requires
            entry_inner_wf(*self),
        ensures
            match r {
                Some(e) => lookup_entry(*self, split_path(path@)) == Some(*e),
                None => lookup_entry(*self, split_path(path@)) is None,
            },
    {
        let comps = path_components(path);
        if comps.len() == 0 {
            Some(self)
        } else {
            match self {
                DirEntry::File(_) => None,
                DirEntry::Dir(d) => {
                    proof {
                        assert(comps.deep_view().skip(0) =~= comps.deep_view());
                    }
                    lookup_rec(&d.entries, &comps, 0)
                },
            }
        }
    }

    /// Resolves `path` and keeps the result only when it is a directory.
    pub fn get_dir(&self, path: &str) -> (r: Option<&Dir>)
        requires
            entry_inner_wf(*self),
        ensures
            match r {
                Some(d) => lookup_entry(*self, split_path(path@)) == Some(DirEntry::Dir(*d)),
                None => !(lookup_entry(*self, split_path(path@)) matches Some(DirEntry::Dir(_))),
            },
    {
        match self.get(path) {
            Some(DirEntry::Dir(d)) => Some(d),
            _ => None,
        }
    }

    /// Resolves `path` and keeps the result only when it is a file.
    pub fn get_file(&self, path: &str) -> (r: Option<&File>)
        requires
            entry_inner_wf(*self),
        ensures
            match r {
                Some(f) => lookup_entry(*self, split_path(path@)) == Some(DirEntry::File(*f)),
                None => !(lookup_entry(*self, split_path(path@)) matches Some(DirEntry::File(_))),
            },
    {
        match self.get(path) {
            Some(DirEntry::File(f)) => Some(f),
            _ => None,
        }
    }
}

impl Dir {
    /// Resolves `path` among this directory's entries.  The empty path
    /// names no entry here: it stands for the directory itself.
    pub fn get_entry(&self, path: &str) -> (r: Option<&DirEntry>)
        requires
            self.wf(),
        ensures
            match r {
                Some(e) => lookup_in(self.entries@, split_path(path@)) == Some(*e),
                None => lookup_in(self.entries@, split_path(path@)) is None,
            },
    {
        let comps = path_components(path);
        if comps.len() == 0 {
            None
        } else {
            proof {
                assert(comps.deep_view().skip(0) =~= comps.deep_view());
            }
            lookup_rec(&self.entries, &comps, 0)
        }
    }

    /// Resolves `path` and keeps the result only when it is a directory.
    pub fn get_dir(&self, path: &str) -> (r: Option<&Dir>)
        requires
            self.wf(),
        ensures
            match r {
                Some(d) => lookup_in(self.entries@, split_path(path@)) == Some(DirEntry::Dir(*d)),
                None => !(lookup_in(self.entries@, split_path(path@)) matches Some(
                    DirEntry::Dir(_),
                )),
            },
    {
        match self.get_entry(path) {
            Some(DirEntry::Dir(d)) => Some(d),
            _ => None,
        }
    }

    /// Resolves `path` and keeps the result only when it is a file.
    pub fn get_file(&self, path: &str) -> (r: Option<&File>)
        requires
            self.wf(),
        ensures
            match r {
                Some(f) => lookup_in(self.entries@, split_path(path@)) == Some(DirEntry::File(*f)),
                None => !(lookup_in(self.entries@, split_path(path@)) matches Some(
                    DirEntry::File(_),
                )),
            },
    {
        match self.get_entry(path) {
            Some(DirEntry::File(f)) => Some(f),
            _ => None,
        }
    }

    /// Whether `path` names an entry of this tree: true exactly when
    /// `get_entry` yields one.
    pub fn contains(&self, path: &str) -> (r: bool)
        requires
            self.wf(),
        ensures
            r == (lookup_in(self.entries@, split_path(path@)) is Some),
    {
        self.get_entry(path).is_some()
    }
}

/// An entry reachable from a run of siblings is reachable through one of
/// them.
pub proof fn lemma_below_all_index(s: Seq<DirEntry>, e: DirEntry)
    requires
        below_all(s).contains(e),
    ensures
        exists|k: int| 0 <= k < s.len() && entry_and_below(#[trigger] s[k]).contains(e),
    decreases s,
{
    let pos = choose|p: int| 0 <= p < below_all(s).len() && below_all(s)[p] == e;
    let head = entry_and_below(s[0]);
    if pos < head.len() {
        assert(head[pos] == e);
        assert(entry_and_below(s[0]).contains(e));
    } else {
        assert(below_all(s.drop_first())[pos - head.len()] == e);
        assert(below_all(s.drop_first()).contains(e));
        lemma_below_all_index(s.drop_first(), e);
        let k = choose|k: int|
            0 <= k < s.drop_first().len() && entry_and_below(#[trigger] s.drop_first()[k]).contains(
                e,
            );
        assert(s.drop_first()[k] == s[k + 1]);
        assert(entry_and_below(s[k + 1]).contains(e));
    }
}

/// Resolving a reachable entry's own path components, taken past those of
/// the directory it is reached from, finds exactly that entry.
pub proof fn lemma_lookup_below(parent: Seq<char>, s: Seq<DirEntry>, e: DirEntry)
    requires
        entries_wf(parent, s),
        below_all(s).contains(e),
    ensures
        split_path(path_of(e)).len() > split_path(parent).len(),
        split_path(path_of(e)).take(split_path(parent).len() as int) == split_path(parent),
        lookup_in(s, split_path(path_of(e)).skip(split_path(parent).len() as int)) == Some(e),
    decreases s,
{
    lemma_below_all_index(s, e);
    let k = choose|k: int| 0 <= k < s.len() && entry_and_below(#[trigger] s[k]).contains(e);
    let c = s[k];
    let pc = split_path(parent);
    lemma_split_join(parent, name_of(c));
    let cc = split_path(path_of(c));
    assert(cc == pc.push(name_of(c)));
    if e == c {
        let rest = cc.skip(pc.len() as int);
        assert(rest =~= seq![name_of(c)]);
        assert(name_of(s[k]) == rest[0]);
        let j = choose|i: int| 0 <= i < s.len() && name_of(#[trigger] s[i]) == rest[0];
        lemma_name_unique(s, j, k);
        assert(lookup_in(s, rest) == Some(e));
        assert(cc.take(pc.len() as int) =~= pc);
    } else {
        match c {
            DirEntry::File(_) => {
                assert(entry_and_below(c) =~= seq![c]);
                assert(false);
            },
            DirEntry::Dir(d) => {
                let head = entry_and_below(c);
                let below = below_all(d.entries@);
                let pos = choose|p: int| 0 <= p < head.len() && head[p] == e;
                assert(pos != 0);
                assert(below[pos - 1] == e);
                assert(below.contains(e));
                lemma_lookup_below(path_of(c), d.entries@, e);
                let ec = split_path(path_of(e));
                let rest = ec.skip(pc.len() as int);
                assert(ec.take(cc.len() as int) == cc);
                assert(ec[pc.len() as int] == cc[pc.len() as int]);
                assert(rest[0] == name_of(c));
                assert(name_of(s[k]) == rest[0]);
                let j = choose|i: int| 0 <= i < s.len() && name_of(#[trigger] s[i]) == rest[0];
                lemma_name_unique(s, j, k);
                assert(rest.len() > 1);
                assert(rest.drop_first() =~= ec.skip(cc.len() as int));
                assert(lookup_in(s, rest) == lookup_in(d.entries@, rest.drop_first()));
                assert(lookup_in(s, rest) == Some(e));
                assert forall|t: int| 0 <= t < pc.len() implies ec[t] == pc[t] by {
                    assert(ec.take(cc.len() as int)[t] == cc[t]);
                    assert(cc[t] == pc[t]);
                }
                assert(ec.take(pc.len() as int) =~= pc);
            },
        }
    }
}

/// A path with components trailing past a file resolves to nothing: when
/// some components lead to a file, any longer run of components that
/// begins the same way is simply not found.
pub proof fn lemma_lookup_past_file(
    s: Seq<DirEntry>,
    comps: Seq<Seq<char>>,
    longer: Seq<Seq<char>>,
    f: File,
)
    requires
        lookup_in(s, comps) == Some(DirEntry::File(f)),
        longer.len() > comps.len(),
        longer.take(comps.len() as int) == comps,
    ensures
        lookup_in(s, longer) is None,
    decreases comps.len(),
{
    assert(comps.len() > 0);
    assert(longer[0] == comps[0]);
    let i = choose|i: int| 0 <= i < s.len() && name_of(#[trigger] s[i]) == comps[0];
    if comps.len() == 1 {
        assert(s[i] == DirEntry::File(f));
    } else {
        match s[i] {
            DirEntry::File(_) => {
                assert(false);
            },
            DirEntry::Dir(d) => {
                assert forall|t: int| 0 <= t < comps.len() - 1 implies longer.drop_first()[t]
                    == comps.drop_first()[t] by {
                    assert(longer[t + 1] == longer.take(comps.len() as int)[t + 1]);
                }
                assert(longer.drop_first().take(comps.len() - 1) =~= comps.drop_first());
                lemma_lookup_past_file(d.entries@, comps.drop_first(), longer.drop_first(), f);
            },
        }
    }
}

/// Looking an entry up by its own path finds exactly that entry: in a
/// well-formed tree whose root has the empty path, every reachable entry
/// `e` satisfies `get_entry` at `e`'s own path, which resolves to `Some(e)`
/// and to nothing else.
pub proof fn lemma_get_roundtrip(root: Dir, e: DirEntry)
    requires
        root.wf(),
        root.path@.len() == 0,
        root.descendants().contains(e),
    ensures
        lookup_in(root.entries@, split_path(path_of(e))) == Some(e),
{
    lemma_lookup_below(root.path@, root.entries@, e);
    assert(split_path(root.path@) =~= Seq::empty());
    assert(split_path(path_of(e)).skip(0) =~= split_path(path_of(e)));
}

} // verus!
