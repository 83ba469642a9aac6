//! Relative paths as slash-separated strings.
//!
//! Every path in a tree is relative to the scanned root and uses `/` as the
//! separator regardless of the host.  This module gives the mathematical
//! reading of such a path (its sequence of components), the lexicographic
//! order on component names that keeps a directory's entries sorted, and the
//! executable helpers that work on path strings.

use vstd::prelude::*;

verus! {

/// Index of the first `/` in `p`, or `p.len()` if there is none.
pub open spec fn first_sep(p: Seq<char>) -> int
    decreases p.len(),
{
    if p.len() == 0 {
        0
    } else if p[0] == '/' {
        0
    } else {
        1 + first_sep(p.drop_first())
    }
}

pub proof fn lemma_first_sep_bounds(p: Seq<char>)
    ensures
        0 <= first_sep(p) <= p.len(),
        forall|j: int| 0 <= j < first_sep(p) ==> p[j] != '/',
        first_sep(p) < p.len() ==> p[first_sep(p)] == '/',
    decreases p.len(),
{
    if p.len() > 0 && p[0] != '/' {
        lemma_first_sep_bounds(p.drop_first());
        assert forall|j: int| 0 <= j < first_sep(p) implies p[j] != '/' by {
            if j > 0 {
                assert(p.drop_first()[j - 1] != '/');
            }
        }
    }
}

/// The components of a path: the pieces between separators, with empty
/// pieces (leading, trailing or doubled separators) dropped.
pub open spec fn split_path(p: Seq<char>) -> Seq<Seq<char>>
    decreases p.len(),
    via split_path_decreases
{
    if p.len() == 0 {
        Seq::empty()
    } else if p[0] == '/' {
        split_path(p.drop_first())
    } else {
        seq![p.take(first_sep(p))] + split_path(p.skip(first_sep(p)))
    }
}

#[via_fn]
proof fn split_path_decreases(p: Seq<char>) {
    lemma_first_sep_bounds(p);
}

/// A legal single component: nonempty, free of separators, and free of
/// backslashes, which some hosts would read as separators.
pub open spec fn valid_name(n: Seq<char>) -> bool {
    n.len() > 0 && forall|i: int| 0 <= i < n.len() ==> n[i] != '/' && n[i] != '\\'
}

/// A directory's path joined with the name of one of its children.
/// The root directory has the empty path, so joining under it yields
/// the bare name.
pub open spec fn join_path(p: Seq<char>, n: Seq<char>) -> Seq<char> {
    if p.len() == 0 {
        n
    } else {
        p + seq!['/'] + n
    }
}

/// The final component of a path: everything after the last separator.
pub open spec fn base_name(p: Seq<char>) -> Seq<char>
    decreases p.len(),
{
    if p.len() == 0 {
        p
    } else if p.last() == '/' {
        Seq::empty()
    } else {
        base_name(p.drop_last()).push(p.last())
    }
}

/// Strict lexicographic order on component names, by code point.
/// This is also the byte order of the UTF-8 encodings.
pub open spec fn lex_lt(a: Seq<char>, b: Seq<char>) -> bool
    decreases a.len(),
{
    if b.len() == 0 {
        false
    } else if a.len() == 0 {
        true
    } else if a[0] != b[0] {
        (a[0] as int) < (b[0] as int)
    } else {
        lex_lt(a.drop_first(), b.drop_first())
    }
}

/// The suffix of `p` that starts at `k` is exactly its base name, provided
/// everything from `k` on is separator-free and `k` sits just after a
/// separator or at the start.
pub proof fn lemma_base_name_at(p: Seq<char>, k: int)
    requires
        0 <= k <= p.len(),
        forall|j: int| k <= j < p.len() ==> p[j] != '/',
        k > 0 ==> p[k - 1] == '/',
    ensures
        base_name(p) == p.skip(k),
    decreases p.len(),
{
    if p.len() == 0 {
        assert(p.skip(0) =~= p);
    } else if p.last() == '/' {
        assert(k == p.len());
        assert(base_name(p) =~= p.skip(k));
    } else {
        assert(k < p.len());
        lemma_base_name_at(p.drop_last(), k);
        assert(base_name(p.drop_last()).push(p.last()) =~= p.skip(k));
    }
}

/// The final component of a path: everything after its last separator.
pub fn base_name_str<'a>(p: &'a str) -> (r: &'a str)
    ensures
        r@ == base_name(p@),
{
    let n = p.unicode_len();
    let mut k: usize = n;
    while k > 0 && p.get_char(k - 1) != '/'
        invariant
            n == p@.len(),
            k <= n,
            forall|j: int| k <= j < n ==> p@[j] != '/',
        decreases k,
    {
        k = k - 1;
    }
    proof {
        lemma_base_name_at(p@, k as int);
    }
    p.substring_char(k, n)
}

/// A path that is one legal component splits into that one component.
pub proof fn lemma_split_single(n: Seq<char>)
    requires
        valid_name(n),
    ensures
        split_path(n) == seq![n],
{
    assert(n[0] != '/');
    lemma_first_sep_at(n, n.len() as int);
    assert(n.take(n.len() as int) =~= n);
    assert(n.skip(n.len() as int) =~= Seq::<char>::empty());
    assert(split_path(Seq::<char>::empty()) =~= Seq::<Seq<char>>::empty());
    assert(split_path(n) == seq![n.take(n.len() as int)] + split_path(n.skip(n.len() as int)));
    assert(split_path(n) =~= seq![n]);
}

/// Appending a separator and a legal name to any path appends exactly one
/// component to its splitting.
pub proof fn lemma_split_sep_append(p: Seq<char>, n: Seq<char>)
    requires
        valid_name(n),
    ensures
        split_path(p + seq!['/'] + n) == split_path(p).push(n),
    decreases p.len(),
{
    let q = p + seq!['/'] + n;
    if p.len() == 0 {
        assert(q.drop_first() =~= n);
        lemma_split_single(n);
        assert(split_path(q) =~= split_path(p).push(n));
    } else if p[0] == '/' {
        assert(q.drop_first() =~= p.drop_first() + seq!['/'] + n);
        lemma_split_sep_append(p.drop_first(), n);
        assert(split_path(q) =~= split_path(p).push(n));
    } else {
        lemma_first_sep_bounds(p);
        let m = first_sep(p);
        lemma_first_sep_at(q, m);
        assert(q.take(m) =~= p.take(m));
        assert(q.skip(m) =~= p.skip(m) + seq!['/'] + n);
        lemma_split_sep_append(p.skip(m), n);
        assert(split_path(q) =~= split_path(p).push(n));
    }
}

/// The components of a child's path are the components of its parent's
/// path followed by the child's name.
pub proof fn lemma_split_join(p: Seq<char>, n: Seq<char>)
    requires
        valid_name(n),
    ensures
        split_path(join_path(p, n)) == split_path(p).push(n),
{
    if p.len() == 0 {
        lemma_split_single(n);
        assert(split_path(join_path(p, n)) =~= split_path(p).push(n));
    } else {
        lemma_split_sep_append(p, n);
    }
}

/// The lexicographic order is total: two names are ordered one way, the
/// other way, or equal, and never two of these at once.
pub proof fn lemma_lex_lt_total(a: Seq<char>, b: Seq<char>)
    ensures
        lex_lt(a, b) || a == b || lex_lt(b, a),
        !(lex_lt(a, b) && lex_lt(b, a)),
    decreases a.len(),
{
    if a.len() > 0 && b.len() > 0 && a[0] == b[0] {
        lemma_lex_lt_total(a.drop_first(), b.drop_first());
        if a.drop_first() == b.drop_first() {
            assert forall|k: int| 0 <= k < a.len() implies a[k] == b[k] by {
                if k > 0 {
                    assert(a.drop_first()[k - 1] == b.drop_first()[k - 1]);
                }
            }
            assert(a =~= b);
        }
    }
}

/// The lexicographic order is transitive.
pub proof fn lemma_lex_lt_trans(a: Seq<char>, b: Seq<char>, c: Seq<char>)
    requires
        lex_lt(a, b),
        lex_lt(b, c),
    ensures
        lex_lt(a, c),
    decreases a.len(),
{
    if a.len() > 0 && b.len() > 0 && c.len() > 0 && a[0] == b[0] && b[0] == c[0] {
        lemma_lex_lt_trans(a.drop_first(), b.drop_first(), c.drop_first());
    }
}

/// Comparing two names that agree on their first `i` characters comes down
/// to comparing what remains.
pub proof fn lemma_lex_lt_skip(a: Seq<char>, b: Seq<char>, i: int)
    requires
        0 <= i <= a.len(),
        i <= b.len(),
        forall|j: int| 0 <= j < i ==> a[j] == b[j],
    ensures
        lex_lt(a, b) == lex_lt(a.skip(i), b.skip(i)),
    decreases i,
{
    if i > 0 {
        assert(a[0] == b[0]);
        assert forall|j: int| 0 <= j < i - 1 implies a.drop_first()[j] == b.drop_first()[j] by {
            assert(a[j + 1] == b[j + 1]);
        }
        lemma_lex_lt_skip(a.drop_first(), b.drop_first(), i - 1);
        assert(a.drop_first().skip(i - 1) =~= a.skip(i));
        assert(b.drop_first().skip(i - 1) =~= b.skip(i));
    } else {
        assert(a.skip(0) =~= a);
        assert(b.skip(0) =~= b);
    }
}

/// Character-by-character equality of two string slices.
pub fn str_eq(a: &str, b: &str) -> (r: bool)
    ensures
        r == (a@ == b@),
{
    let a_len = a.unicode_len();
    let b_len = b.unicode_len();
    if a_len != b_len {
        return false;
    }
    let mut i: usize = 0;
    while i < a_len
        invariant
            a_len == a@.len(),
            a@.len() == b@.len(),
            i <= a_len,
            forall|j: int| 0 <= j < i ==> a@[j] == b@[j],
        decreases a_len - i,
    {
        if a.get_char(i) != b.get_char(i) {
            return false;
        }
        i = i + 1;
    }
    proof {
        assert(a@ =~= b@);
    }
    true
}

/// Character-by-character comparison of two string slices in the
/// lexicographic order.
pub fn str_lt(a: &str, b: &str) -> (r: bool)
    ensures
        r == lex_lt(a@, b@),
{
    let a_len = a.unicode_len();
    let b_len = b.unicode_len();
    let mut i: usize = 0;
    while i < a_len && i < b_len
        invariant
            a_len == a@.len(),
            b_len == b@.len(),
            i <= a_len,
            i <= b_len,
            forall|j: int| 0 <= j < i ==> a@[j] == b@[j],
        decreases a_len - i,
    {
        let ca = a.get_char(i);
        let cb = b.get_char(i);
        if ca != cb {
            proof {
                lemma_lex_lt_skip(a@, b@, i as int);
            }
            return (ca as u32) < (cb as u32);
        }
        i = i + 1;
    }
    proof {
        lemma_lex_lt_skip(a@, b@, i as int);
    }
    a_len < b_len
}

/// `first_sep` is pinned down by exhibiting the separator-free prefix.
pub proof fn lemma_first_sep_at(q: Seq<char>, m: int)
    requires
        0 <= m <= q.len(),
        forall|k: int| 0 <= k < m ==> q[k] != '/',
        m < q.len() ==> q[m] == '/',
    ensures
        first_sep(q) == m,
    decreases m,
{
    if m > 0 {
        lemma_first_sep_at(q.drop_first(), m - 1);
    }
}

/// Splits a path string into its components.
pub fn path_components(p: &str) -> (r: Vec<String>)
    ensures
        r.deep_view() == split_path(p@),
{
    let n = p.unicode_len();
    let mut r: Vec<String> = Vec::new();
    let mut i: usize = 0;
    proof {
        assert(p@.skip(0) =~= p@);
        assert(r.deep_view() + split_path(p@) =~= split_path(p@));
    }
    while i < n
        invariant
            n == p@.len(),
            i <= n,
            r.deep_view() + split_path(p@.skip(i as int)) =~= split_path(p@),
        decreases n - i,
    {
        if p.get_char(i) == '/' {
            proof {
                assert(p@.skip(i as int).drop_first() =~= p@.skip(i + 1));
            }
            i = i + 1;
        } else {
            let start = i;
            let mut j = i + 1;
            while j < n && p.get_char(j) != '/'
                invariant
                    n == p@.len(),
                    start < j <= n,
                    forall|k: int| start <= k < j ==> p@[k] != '/',
                decreases n - j,
            {
                j = j + 1;
            }
            let comp = String::from_str(p.substring_char(start, j));
            let ghost pre = r.deep_view();
            proof {
                let q = p@.skip(start as int);
                lemma_first_sep_at(q, j - start);
                assert(q.take(j - start) =~= p@.subrange(start as int, j as int));
                assert(q.skip(j - start) =~= p@.skip(j as int));
                assert(pre.push(comp@) + split_path(p@.skip(j as int)) =~= split_path(p@));
            }
            r.push(comp);
            proof {
                assert(r.deep_view() =~= pre.push(comp@));
            }
            i = j;
        }
    }
    proof {
        assert(p@.skip(n as int) =~= Seq::empty());
        assert(r.deep_view() + split_path(p@.skip(n as int)) =~= r.deep_view());
    }
    r
}

/// Relies on `String::push`: appends one character at the end.
#[verifier::external_body]
pub(crate) fn string_push(s: &mut String, c: char)
    ensures
        final(s)@ == old(s)@.push(c),
{
    s.push(c);
}

/// Joins a directory path and a child name with a separator, except under
/// the root (empty) path, where the name stands alone.
pub fn join_path_str(parent: &str, name: &str) -> (r: String)
    ensures
        r@ == join_path(parent@, name@),
{
    if parent.unicode_len() == 0 {
        String::from_str(name)
    } else {
        let mut s = String::from_str(parent);
        string_push(&mut s, '/');
        s.append(name);
        proof {
            assert(s@ =~= join_path(parent@, name@));
        }
        s
    }
}

/// Quotes a path as a Rust raw-string literal.
pub fn escape(path: &str) -> (r: String)
    ensures
        r@ == seq!['r', '"'] + path@ + seq!['"'],
{
    let mut s = String::new();
    string_push(&mut s, 'r');
    string_push(&mut s, '"');
    s.append(path);
    string_push(&mut s, '"');
    proof {
        assert(s@ =~= seq!['r', '"'] + path@ + seq!['"']);
    }
    s
}

/// The remainder of `path` once the leading prefix `root` and any
/// separators after it are removed, with every `\` turned into `/`, so
/// that the result reads the same on every host.
pub open spec fn normalized_rest(root: Seq<char>, path: Seq<char>) -> Seq<char> {
    drop_leading_seps(path.skip(root.len() as int)).map_values(
        |c: char| if c == '\\' { '/' } else { c },
    )
}

/// Drops leading `/` and `\` characters.
pub open spec fn drop_leading_seps(p: Seq<char>) -> Seq<char>
    decreases p.len(),
{
    if p.len() > 0 && (p[0] == '/' || p[0] == '\\') {
        drop_leading_seps(p.drop_first())
    } else {
        p
    }
}

/// Rewrites a scanned path, which must lie under `root`, as a relative
/// slash-separated path.
pub fn normalize_path(root: &str, path: &str) -> (r: String)
    requires
        root@.len() <= path@.len(),
        path@.take(root@.len() as int) == root@,
    ensures
        r@ == normalized_rest(root@, path@),
{
    let root_len = root.unicode_len();
    let path_len = path.unicode_len();
    let mut i: usize = root_len;
    while i < path_len && (path.get_char(i) == '/' || path.get_char(i) == '\\')
        invariant
            root_len == root@.len(),
            path_len == path@.len(),
            root@.len() <= i <= path@.len(),
            drop_leading_seps(path@.skip(root@.len() as int)) == drop_leading_seps(
                path@.skip(i as int),
            ),
        decreases path@.len() - i,
    {
        proof {
            assert(path@.skip(i as int).drop_first() =~= path@.skip(i + 1));
        }
        i = i + 1;
    }
    proof {
        assert(drop_leading_seps(path@.skip(i as int)) =~= path@.skip(i as int));
    }
    let mut r = String::new();
    let ghost rest = path@.skip(i as int);
    let start = i;
    while i < path_len
        invariant
            path_len == path@.len(),
            start <= i <= path@.len(),
            rest == path@.skip(start as int),
            r@ =~= path@.subrange(start as int, i as int).map_values(
                |c: char| if c == '\\' { '/' } else { c },
            ),
        decreases path@.len() - i,
    {
        let c = path.get_char(i);
        if c == '\\' {
            string_push(&mut r, '/');
        } else {
            string_push(&mut r, c);
        }
        proof {
            assert(path@.subrange(start as int, i + 1).map_values(
                |ch: char| if ch == '\\' { '/' } else { ch },
            ) =~= path@.subrange(start as int, i as int).map_values(
                |ch: char| if ch == '\\' { '/' } else { ch },
            ).push(if c == '\\' { '/' } else { c }));
        }
        i = i + 1;
    }
    proof {
        assert(path@.subrange(start as int, path@.len() as int) =~= path@.skip(start as int));
        assert(r@ =~= normalized_rest(root@, path@));
    }
    r
}

} // verus!
