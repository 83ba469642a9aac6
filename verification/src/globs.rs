//! Glob-pattern search over a tree.
//!
//! Matching itself is the business of the `glob` crate: a pattern is
//! compiled once, and every reachable entry's path is then tested against
//! it.  What this module proves is the search around those calls: the
//! traversal visits every reachable entry exactly once, and the result
//! holds exactly the entries whose paths the pattern matches, in traversal
//! order.

use vstd::prelude::*;

use crate::lookup::{lemma_below_all_index, lemma_lookup_below};
use crate::paths::{join_path, lemma_lex_lt_total, lemma_split_join, lex_lt, split_path};
use crate::tree::{
    below_all, entries_wf, entry_and_below, entry_wf, name_of, path_of, Dir, DirEntry,
};

verus! {

#[verifier::external_type_specification]
#[verifier::external_body]
pub struct ExPattern(glob::Pattern);

/// Whether `glob::Pattern::new` accepts this pattern text.  On
/// backslash-free text compilation depends on the text alone, so its
/// outcome can carry a name; the trusted contracts below say nothing of
/// text with backslashes, which some hosts would read as separators.
pub uninterp spec fn glob_valid(pat: Seq<char>) -> bool;

/// Whether `glob::Pattern::matches_with` matches this path against a
/// pattern compiled from this text.  On backslash-free texts the answer
/// depends on the two texts alone, so it can carry a name; the trusted
/// contracts below say nothing of texts with backslashes.
pub uninterp spec fn glob_matches(pat: Seq<char>, path: Seq<char>) -> bool;

/// Free of backslashes: the one character whose reading as a separator
/// differs between hosts.
pub open spec fn no_backslash(s: Seq<char>) -> bool {
    forall|i: int| 0 <= i < s.len() ==> s[i] != '\\'
}

/// Every entry of the run carries a backslash-free path.
pub open spec fn paths_clean(s: Seq<DirEntry>) -> bool {
    forall|k: int| 0 <= k < s.len() ==> no_backslash(path_of(#[trigger] s[k]))
}

/// A rejected glob pattern: where in the text compilation stopped, and the
/// compiler's description of the fault.
#[derive(Debug, PartialEq)]
pub struct PatternError {
    pub pos: usize,
    pub msg: String,
}

/// A compiled glob pattern, kept beside the text it was compiled from so
/// that contracts can speak of the text.
#[derive(Debug)]
pub struct GlobPattern {
    inner: glob::Pattern,
    text: String,
}

impl GlobPattern {
    /// The pattern text this value was compiled from.
    pub closed spec fn spec_text(self) -> Seq<char> {
        self.text@
    }
}

/// Relies on `glob::Pattern::new`: on backslash-free text it compiles
/// exactly the well-formed pattern texts, the same on every host, and on
/// failure reports a position and message.
#[verifier::external_body]
pub(crate) fn compile_pattern(pattern: &str) -> (r: Result<GlobPattern, PatternError>)
    ensures
        no_backslash(pattern@) ==> (r is Ok <==> glob_valid(pattern@)),
        r is Ok ==> r->Ok_0.spec_text() == pattern@,
{
    match glob::Pattern::new(pattern) {
        Ok(p) => Ok(GlobPattern { inner: p, text: pattern.to_string() }),
        Err(e) => Err(PatternError { pos: e.pos, msg: e.msg.to_string() }),
    }
}

/// Relies on `glob::Pattern::matches_with`: on backslash-free texts,
/// whether a path matches is a function of the pattern text and the
/// path, the same on every host.  Separators must be matched literally,
/// so that `*` stays within one path component and only `**` spans
/// directories.
#[verifier::external_body]
pub(crate) fn pattern_matches(p: &GlobPattern, path: &str) -> (r: bool)
    ensures
        no_backslash(p.spec_text()) && no_backslash(path@) ==> r == glob_matches(
            p.spec_text(),
            path@,
        ),
{
    let options = glob::MatchOptions {
        case_sensitive: true,
        require_literal_separator: true,
        require_literal_leading_dot: false,
    };
    p.inner.matches_with(path, options)
}

/// The entries of `s` taken out of their references.
pub open spec fn deref_all(s: Seq<&DirEntry>) -> Seq<DirEntry> {
    s.map_values(|e: &DirEntry| *e)
}

/// The entries whose paths the pattern text matches, kept in order.
pub open spec fn glob_filter(pat: Seq<char>, s: Seq<DirEntry>) -> Seq<DirEntry> {
    s.filter(|e: DirEntry| glob_matches(pat, path_of(e)))
}

/// Appending a run of siblings appends the subtree below the new sibling.
pub proof fn lemma_below_all_snoc(s: Seq<DirEntry>, e: DirEntry)
    ensures
        below_all(s.push(e)) == below_all(s) + entry_and_below(e),
    decreases s,
{
    if s.len() == 0 {
        assert(s.push(e)[0] == e);
        assert(s.push(e).drop_first() =~= Seq::<DirEntry>::empty());
        assert(below_all(Seq::<DirEntry>::empty()) == Seq::<DirEntry>::empty());
        assert(below_all(s.push(e)) == entry_and_below(e) + below_all(s.push(e).drop_first()));
        assert(below_all(s.push(e)) =~= below_all(s) + entry_and_below(e));
    } else {
        assert(s.push(e).drop_first() =~= s.drop_first().push(e));
        lemma_below_all_snoc(s.drop_first(), e);
        assert(s.push(e)[0] == s[0]);
        assert(below_all(s.push(e)) == entry_and_below(s[0]) + below_all(s.drop_first().push(e)));
        assert(below_all(s) == entry_and_below(s[0]) + below_all(s.drop_first()));
        assert(below_all(s.push(e)) =~= below_all(s) + entry_and_below(e));
    }
}

/// Filtering one more entry keeps the result when the pattern matches its
/// path and passes over it otherwise.
pub proof fn lemma_glob_filter_snoc(pat: Seq<char>, s: Seq<DirEntry>, e: DirEntry)
    ensures
        glob_filter(pat, s.push(e)) == if glob_matches(pat, path_of(e)) {
            glob_filter(pat, s).push(e)
        } else {
            glob_filter(pat, s)
        },
{
    reveal(Seq::filter);
    assert(s.push(e).drop_last() =~= s);
}

fn walk_entry<'a>(e: &'a DirEntry, out: &mut Vec<&'a DirEntry>)
    ensures
        deref_all(final(out)@) == deref_all(old(out)@) + entry_and_below(*e),
    decreases *e,
{
    let ghost pre = out@;
    out.push(e);
    proof {
        assert(deref_all(out@) =~= deref_all(pre).push(*e));
    }
    match e {
        DirEntry::File(_) => {
            proof {
                assert(deref_all(out@) =~= deref_all(pre) + entry_and_below(*e));
            }
        },
        DirEntry::Dir(d) => {
            walk_below(&d.entries, out);
            proof {
                assert(deref_all(out@) =~= deref_all(pre) + entry_and_below(*e));
            }
        },
    }
}

fn walk_below<'a>(entries: &'a Vec<DirEntry>, out: &mut Vec<&'a DirEntry>)
    ensures
        deref_all(final(out)@) == deref_all(old(out)@) + below_all(entries@),
    decreases entries@,
{
    let n = entries.len();
    let mut i: usize = 0;
    proof {
        assert(entries@.take(0) =~= Seq::empty());
        assert(deref_all(out@) =~= deref_all(out@) + below_all(entries@.take(0)));
    }
    while i < n
        invariant
            n == entries@.len(),
            i <= n,
            deref_all(out@) =~= deref_all(old(out)@) + below_all(entries@.take(i as int)),
        decreases n - i,
    {
        walk_entry(&entries[i], out);
        proof {
            lemma_below_all_snoc(entries@.take(i as int), entries@[i as int]);
            assert(entries@.take(i + 1) =~= entries@.take(i as int).push(entries@[i as int]));
            assert(deref_all(out@) =~= deref_all(old(out)@) + below_all(entries@.take(i + 1)));
        }
        i = i + 1;
    }
    proof {
        assert(entries@.take(n as int) =~= entries@);
    }
}

impl Dir {
    /// Every entry reachable from this directory, in preorder: each entry
    /// stands in the result exactly as often as in `descendants`.
    pub fn walk(&self) -> (r: Vec<&DirEntry>)
        ensures
            deref_all(r@) == below_all(self.entries@),
    {
        let mut out: Vec<&DirEntry> = Vec::new();
        proof {
            assert(deref_all(out@) =~= Seq::empty());
        }
        walk_below(&self.entries, &mut out);
        out
    }

    /// Search for the entries, files and directories alike, whose full
    /// relative path matches the glob pattern.  An ill-formed pattern is
    /// rejected before any traversal; a pattern that matches nothing
    /// yields an empty result, which is no error.  The contract speaks of
    /// backslash-free patterns and trees, the only ones whose matching
    /// reads the same on every host; `lemma_wf_paths_clean` shows every
    /// well-formed tree under a clean root is such a tree.
    pub fn find(&self, pattern: &str) -> (r: Result<Vec<&DirEntry>, PatternError>)
        ensures
            no_backslash(pattern@) ==> (r is Ok <==> glob_valid(pattern@)),
            r is Ok && no_backslash(pattern@) && paths_clean(below_all(self.entries@))
                ==> deref_all(r->Ok_0@) == glob_filter(pattern@, below_all(self.entries@)),
    {
        let pat = match compile_pattern(pattern) {
            Ok(p) => p,
            Err(e) => {
                return Err(e);
            },
        };
        let all = self.walk();
        let ghost below = below_all(self.entries@);
        let mut out: Vec<&DirEntry> = Vec::new();
        let n = all.len();
        let mut i: usize = 0;
        proof {
            reveal(Seq::filter);
            assert(below.take(0) =~= Seq::empty());
            assert(deref_all(out@) =~= glob_filter(pattern@, below.take(0)));
        }

        while i < n
            invariant
                n == all@.len(),
                i <= n,
                deref_all(all@) == below,
                below == below_all(self.entries@),
                pat.spec_text() == pattern@,
                no_backslash(pattern@) && paths_clean(below) ==> deref_all(out@) =~= glob_filter(
                    pattern@,
                    below.take(i as int),
                ),
            decreases n - i,
        {
            let e = all[i];
            proof {
                assert(*e == deref_all(all@)[i as int]);
            }
            let ghost pre = out@;
            if pattern_matches(&pat, e.path()) {
                out.push(e);
                proof {
                    assert(deref_all(out@) =~= deref_all(pre).push(*e));
                }
            }
            proof {
                if no_backslash(pattern@) && paths_clean(below) {
                    assert(no_backslash(path_of(below[i as int])));
                    lemma_glob_filter_snoc(pattern@, below.take(i as int), below[i as int]);
                    assert(below.take(i + 1) =~= below.take(i as int).push(below[i as int]));
                }
            }
            i = i + 1;
        }
        proof {
            assert(below.take(n as int) =~= below);
        }
        Ok(out)
    }
}

/// Dropping the first sibling keeps the rest well-formed.
proof fn lemma_entries_wf_drop_first(parent: Seq<char>, s: Seq<DirEntry>)
    requires
        entries_wf(parent, s),
        s.len() > 0,
    ensures
        entries_wf(parent, s.drop_first()),
{
    let t = s.drop_first();
    assert forall|i: int| 0 <= i < t.len() implies entry_wf(#[trigger] t[i]) by {
        assert(t[i] == s[i + 1]);
    }
    assert forall|i: int| 0 <= i < t.len() implies path_of(#[trigger] t[i]) == join_path(
        parent,
        name_of(t[i]),
    ) by {
        assert(t[i] == s[i + 1]);
    }
    assert forall|i: int, j: int| 0 <= i < j < t.len() implies lex_lt(
        name_of(#[trigger] t[i]),
        name_of(#[trigger] t[j]),
    ) by {
        assert(t[i] == s[i + 1]);
        assert(t[j] == s[j + 1]);
    }
}

/// Every entry reached through the `k`-th sibling shows that sibling's
/// name just past the parent's components.
pub(crate) proof fn lemma_below_comp_at(parent: Seq<char>, s: Seq<DirEntry>, k: int, e: DirEntry)
    requires
        entries_wf(parent, s),
        0 <= k < s.len(),
        entry_and_below(s[k]).contains(e),
    ensures
        split_path(path_of(e)).len() > split_path(parent).len(),
        split_path(path_of(e))[split_path(parent).len() as int] == name_of(s[k]),
{
    let c = s[k];
    let pc = split_path(parent);
    lemma_split_join(parent, name_of(c));
    let cc = split_path(path_of(c));
    if e == c {
    } else {
        match c {
            DirEntry::File(_) => {
                assert(entry_and_below(c) =~= seq![c]);
                assert(false);
            },
            DirEntry::Dir(d) => {
                let head = entry_and_below(c);
                let pos = choose|p: int| 0 <= p < head.len() && head[p] == e;
                assert(pos != 0);
                assert(below_all(d.entries@)[pos - 1] == e);
                assert(below_all(d.entries@).contains(e));
                lemma_lookup_below(path_of(c), d.entries@, e);
                let ec = split_path(path_of(e));
                assert(ec.take(cc.len() as int)[pc.len() as int] == cc[pc.len() as int]);
            },
        }
    }
}

/// No entry repeats in the subtree at and below a well-formed entry.
proof fn lemma_eab_no_dup(c: DirEntry)
    requires
        entry_wf(c),
    ensures
        entry_and_below(c).no_duplicates(),
    decreases c,
{
    match c {
        DirEntry::File(_) => {
            assert(entry_and_below(c) =~= seq![c]);
        },
        DirEntry::Dir(d) => {
            lemma_below_no_dup(d.path@, d.entries@);
            if below_all(d.entries@).contains(c) {
                lemma_lookup_below(d.path@, d.entries@, c);
                assert(false);
            }
            let head = entry_and_below(c);
            let below = below_all(d.entries@);
            assert forall|i: int, j: int|
                0 <= i < head.len() && 0 <= j < head.len() && i != j implies head[i]
                != head[j] by {
                if i == 0 {
                    assert(head[j] == below[j - 1]);
                    if head[i] == head[j] {
                        assert(below.contains(c));
                    }
                } else if j == 0 {
                    assert(head[i] == below[i - 1]);
                    if head[i] == head[j] {
                        assert(below.contains(c));
                    }
                } else {
                    assert(head[i] == below[i - 1]);
                    assert(head[j] == below[j - 1]);
                }
            }
            assert(head.no_duplicates());
        },
    }
}

/// No entry repeats below a well-formed run of siblings.
proof fn lemma_below_no_dup(parent: Seq<char>, s: Seq<DirEntry>)
    requires
        entries_wf(parent, s),
    ensures
        below_all(s).no_duplicates(),
    decreases s,
{
    if s.len() == 0 {
        assert(below_all(s).no_duplicates());
    } else {
        let b = below_all(s);
        let head = entry_and_below(s[0]);
        let tail = below_all(s.drop_first());
        assert(b == head + tail);
        lemma_eab_no_dup(s[0]);
        lemma_entries_wf_drop_first(parent, s);
        lemma_below_no_dup(parent, s.drop_first());
        let pc = split_path(parent);
        let hl = head.len() as int;
        assert forall|i: int, j: int|
            0 <= i < b.len() && 0 <= j < b.len() && i != j implies b[i] != b[j] by {
            if i < hl && j < hl {
                assert(b[i] == head[i]);
                assert(b[j] == head[j]);
            } else if i >= hl && j >= hl {
                assert(b[i] == tail[i - hl]);
                assert(b[j] == tail[j - hl]);
            } else {
                let ih = if i < hl {
                    i
                } else {
                    j
                };
                let it = if i < hl {
                    j
                } else {
                    i
                };
                assert(b[ih] == head[ih]);
                assert(head.contains(b[ih]));
                assert(b[it] == tail[it - hl]);
                assert(tail.contains(b[it]));
                lemma_below_comp_at(parent, s, 0, b[ih]);
                lemma_below_all_index(s.drop_first(), b[it]);
                let k = choose|k: int|
                    0 <= k < s.drop_first().len() && entry_and_below(
                        #[trigger] s.drop_first()[k],
                    ).contains(b[it]);
                assert(s.drop_first()[k] == s[k + 1]);
                lemma_below_comp_at(parent, s, k + 1, b[it]);
                assert(lex_lt(name_of(s[0]), name_of(s[k + 1])));
                lemma_lex_lt_total(name_of(s[0]), name_of(s[k + 1]));
                assert(b[ih] != b[it]);
            }
        }
        assert(b.no_duplicates());
    }
}

/// A pattern that matches every path filters nothing out.
proof fn lemma_glob_filter_all(pat: Seq<char>, s: Seq<DirEntry>)
    requires
        forall|p: Seq<char>| glob_matches(pat, p),
    ensures
        glob_filter(pat, s) == s,
    decreases s.len(),
{
    reveal(Seq::filter);
    if s.len() > 0 {
        lemma_glob_filter_all(pat, s.drop_last());
        assert(glob_matches(pat, path_of(s.last())));
        assert(glob_filter(pat, s) =~= s);
    } else {
        assert(glob_filter(pat, s) =~= s);
    }
}

/// An all-matching search yields every reachable entry exactly once: when
/// the pattern matches every path, the entries whose paths match — what
/// `find` returns — are the full preorder enumeration of the tree, and
/// that enumeration repeats no entry.
pub proof fn lemma_find_all(root: Dir, pat: Seq<char>)
    requires
        root.wf(),
        forall|p: Seq<char>| glob_matches(pat, p),
    ensures
        glob_filter(pat, below_all(root.entries@)) == below_all(root.entries@),
        below_all(root.entries@).no_duplicates(),
{
    lemma_glob_filter_all(pat, below_all(root.entries@));
    lemma_below_no_dup(root.path@, root.entries@);
}

/// Every path at and below a well-formed entry with a backslash-free
/// path is itself backslash-free.
proof fn lemma_eab_paths_clean(c: DirEntry)
    requires
        entry_wf(c),
        no_backslash(path_of(c)),
    ensures
        paths_clean(entry_and_below(c)),
    decreases c,
{
    match c {
        DirEntry::File(_) => {
            assert(entry_and_below(c) =~= seq![c]);
            assert forall|k: int| 0 <= k < entry_and_below(c).len() implies no_backslash(
                path_of(#[trigger] entry_and_below(c)[k]),
            ) by {
                assert(entry_and_below(c)[k] == c);
            }
        },
        DirEntry::Dir(d) => {
            lemma_below_paths_clean(d.path@, d.entries@);
            let head = entry_and_below(c);
            assert forall|k: int| 0 <= k < head.len() implies no_backslash(
                path_of(#[trigger] head[k]),
            ) by {
                if k == 0 {
                    assert(head[k] == c);
                } else {
                    assert(head[k] == below_all(d.entries@)[k - 1]);
                }
            }
        },
    }
}

/// Every path below a well-formed run of siblings under a backslash-free
/// parent path is backslash-free: each is the parent's path joined with
/// legal names, which admit no backslash.
pub proof fn lemma_wf_paths_clean(parent: Seq<char>, s: Seq<DirEntry>)
    requires
        entries_wf(parent, s),
        no_backslash(parent),
    ensures
        paths_clean(below_all(s)),
    decreases s,
{
    lemma_below_paths_clean(parent, s);
}

proof fn lemma_below_paths_clean(parent: Seq<char>, s: Seq<DirEntry>)
    requires
        entries_wf(parent, s),
        no_backslash(parent),
    ensures
        paths_clean(below_all(s)),
    decreases s,
{
    if s.len() > 0 {
        let head_path = path_of(s[0]);
        assert(head_path == join_path(parent, name_of(s[0])));
        assert(entry_wf(s[0]));
        assert forall|i: int| 0 <= i < head_path.len() implies head_path[i] != '\\' by {
            if parent.len() > 0 {
                if i < parent.len() {
                    assert(head_path[i] == parent[i]);
                } else if i > parent.len() {
                    assert(head_path[i] == name_of(s[0])[i - parent.len() - 1]);
                }
            } else {
                assert(head_path[i] == name_of(s[0])[i]);
            }
        }
        lemma_eab_paths_clean(s[0]);
        lemma_entries_wf_drop_first(parent, s);
        lemma_below_paths_clean(parent, s.drop_first());
        let head = entry_and_below(s[0]);
        let tail = below_all(s.drop_first());
        assert forall|k: int| 0 <= k < below_all(s).len() implies no_backslash(
            path_of(#[trigger] below_all(s)[k]),
        ) by {
            if k < head.len() {
                assert(below_all(s)[k] == head[k]);
            } else {
                assert(below_all(s)[k] == tail[k - head.len()]);
            }
        }
    }
}

/// Choices for the build-time scan: glob patterns naming entries to
/// leave out of the tree.  The walker asks `is_ignored` for each scanned
/// path; the matching itself is this module's business.
#[derive(Debug)]
pub struct Options {
    ignore: Vec<GlobPattern>,
}

impl Options {
    /// The pattern texts of the ignore list, in order.
    pub closed spec fn spec_ignore(self) -> Seq<Seq<char>> {
        self.ignore@.map_values(|p: GlobPattern| p.spec_text())
    }

    /// No pattern: nothing is ignored.
    pub fn new() -> (r: Options)
        ensures
            r.spec_ignore() == Seq::<Seq<char>>::empty(),
    {
        let r = Options { ignore: Vec::new() };
        proof {
            assert(r.spec_ignore() =~= Seq::<Seq<char>>::empty());
        }
        r
    }

    /// Adds a pattern to the ignore list; an ill-formed pattern is
    /// refused and the list stands unchanged.
    pub fn ignore(&mut self, name: &str) -> (r: Result<(), PatternError>)
        ensures
            no_backslash(name@) ==> (r is Ok <==> glob_valid(name@)),
            r is Ok ==> final(self).spec_ignore() == old(self).spec_ignore().push(name@),
            r is Err ==> *final(self) == *old(self),
    {
        match compile_pattern(name) {
            Ok(p) => {
                let ghost pre = self.ignore@;
                self.ignore.push(p);
                proof {
                    assert(self.spec_ignore() =~= old(self).spec_ignore().push(name@));
                }
                Ok(())
            },
            Err(e) => Err(e),
        }
    }

    /// Whether any pattern of the ignore list matches the path.  As with
    /// `find`, the contract speaks of backslash-free patterns and paths.
    pub fn is_ignored(&self, path: &str) -> (r: bool)
        ensures
            no_backslash(path@) && (forall|i: int|
                0 <= i < self.spec_ignore().len() ==> no_backslash(#[trigger] self.spec_ignore()[i]))
                ==> r == (exists|i: int|
                0 <= i < self.spec_ignore().len() && glob_matches(
                    #[trigger] self.spec_ignore()[i],
                    path@,
                )),
    {
        let ghost clean = no_backslash(path@) && (forall|i: int|
            0 <= i < self.spec_ignore().len() ==> no_backslash(#[trigger] self.spec_ignore()[i]));
        let n = self.ignore.len();
        let mut i: usize = 0;
        while i < n
            invariant
                n == self.ignore@.len(),
                i <= n,
                clean == (no_backslash(path@) && (forall|j: int|
                    0 <= j < self.spec_ignore().len() ==> no_backslash(
                        #[trigger] self.spec_ignore()[j],
                    ))),
                clean ==> forall|j: int|
                    0 <= j < i ==> !glob_matches(#[trigger] self.spec_ignore()[j], path@),
        decreases n - i,
        {
            if pattern_matches(&self.ignore[i], path) {
                proof {
                    if clean {
                        assert(no_backslash(self.spec_ignore()[i as int]));
                        assert(glob_matches(self.spec_ignore()[i as int], path@));
                    }
                }
                return true;
            }
            proof {
                if clean {
                    assert(no_backslash(self.spec_ignore()[i as int]));
                }
            }
            i = i + 1;
        }
        false
    }
}

impl Default for Options {
    /// The same empty ignore list as `new`.
    fn default() -> (r: Options)
        ensures
            r.spec_ignore() == Seq::<Seq<char>>::empty(),
    {
        Options::new()
    }
}

} // verus!
