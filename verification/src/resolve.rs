//! Interpolation of `$NAME` references in a source path argument.
//!
//! A path handed to the build-time scanner may reference variables of the
//! build environment, written `$NAME`.  Resolution walks the text once,
//! left to right: each reference is replaced by the variable's value, a
//! value is never rescanned, and the first unknown variable or malformed
//! reference stops resolution with an error.  The environment itself is
//! handed in as plain pairs; reading the live process environment is the
//! caller's business.

use vstd::prelude::*;

verus! {

/// One variable of the build environment.
#[derive(Debug, PartialEq)]
pub struct EnvVar {
    pub name: String,
    pub value: String,
}

impl EnvVar {
    /// Bundles a variable's name and value.
    pub fn new(name: &str, value: &str) -> (r: EnvVar)
        ensures
            r.name@ == name@,
            r.value@ == value@,
    {
        EnvVar { name: String::from_str(name), value: String::from_str(value) }
    }
}

/// Why resolution failed.
#[derive(Debug, PartialEq)]
pub enum ResolveError {
    /// A reference named a variable the environment does not hold.
    MissingVariable { variable: String },
    /// A `$` was not followed by a variable name.
    UnableToParseVariable { rest: String },
}

/// What resolution comes to: the resolved text, or the first failure.
pub enum ResolveOutcome {
    /// Every reference was replaced.
    Resolved(Seq<char>),
    /// The first failing reference named this unknown variable.
    MissingVariable(Seq<char>),
    /// The text from the first `$` that opens no variable name.
    Unparsable(Seq<char>),
}

/// Index of the first `$` in `p`, or `p.len()` if there is none.
pub open spec fn first_dollar(p: Seq<char>) -> int
    decreases p.len(),
{
    if p.len() == 0 {
        0
    } else if p[0] == '$' {
        0
    } else {
        1 + first_dollar(p.drop_first())
    }
}

pub proof fn lemma_first_dollar_bounds(p: Seq<char>)
    ensures
        0 <= first_dollar(p) <= p.len(),
        forall|j: int| 0 <= j < first_dollar(p) ==> p[j] != '$',
        first_dollar(p) < p.len() ==> p[first_dollar(p)] == '$',
    decreases p.len(),
{
    if p.len() > 0 && p[0] != '$' {
        lemma_first_dollar_bounds(p.drop_first());
        assert forall|j: int| 0 <= j < first_dollar(p) implies p[j] != '$' by {
            if j > 0 {
                assert(p.drop_first()[j - 1] != '$');
            }
        }
    }
}

/// `first_dollar` is pinned down by exhibiting the dollar-free prefix.
pub proof fn lemma_first_dollar_at(q: Seq<char>, m: int)
    requires
        0 <= m <= q.len(),
        forall|k: int| 0 <= k < m ==> q[k] != '$',
        m < q.len() ==> q[m] == '$',
    ensures
        first_dollar(q) == m,
    decreases m,
{
    if m > 0 {
        lemma_first_dollar_at(q.drop_first(), m - 1);
    }
}

/// A character that may open a variable name.
pub open spec fn is_ident_start(c: char) -> bool {
    c == '_' || ('a' <= c && c <= 'z') || ('A' <= c && c <= 'Z')
}

/// A character that may continue a variable name.
pub open spec fn is_ident_char(c: char) -> bool {
    is_ident_start(c) || ('0' <= c && c <= '9')
}

/// How many characters past the first the name runs on.
pub open spec fn ident_rest_len(p: Seq<char>) -> int
    decreases p.len(),
{
    if p.len() == 0 {
        0
    } else if !is_ident_char(p[0]) {
        0
    } else {
        1 + ident_rest_len(p.drop_first())
    }
}

/// The length of the variable name opening `p`: zero when `p` opens with
/// no name, else the longest run of name characters, whose first may not
/// be a digit.
pub open spec fn ident_len(p: Seq<char>) -> int {
    if p.len() == 0 || !is_ident_start(p[0]) {
        0
    } else {
        1 + ident_rest_len(p.drop_first())
    }
}

pub proof fn lemma_ident_rest_len_bounds(p: Seq<char>)
    ensures
        0 <= ident_rest_len(p) <= p.len(),
        forall|j: int| 0 <= j < ident_rest_len(p) ==> is_ident_char(p[j]),
        ident_rest_len(p) < p.len() ==> !is_ident_char(p[ident_rest_len(p)]),
    decreases p.len(),
{
    if p.len() > 0 && is_ident_char(p[0]) {
        lemma_ident_rest_len_bounds(p.drop_first());
        assert forall|j: int| 0 <= j < ident_rest_len(p) implies is_ident_char(p[j]) by {
            if j > 0 {
                assert(is_ident_char(p.drop_first()[j - 1]));
            }
        }
    }
}

/// `ident_rest_len` is pinned down by exhibiting the run of name
/// characters.
pub proof fn lemma_ident_rest_len_at(q: Seq<char>, m: int)
    requires
        0 <= m <= q.len(),
        forall|k: int| 0 <= k < m ==> is_ident_char(q[k]),
        m < q.len() ==> !is_ident_char(q[m]),
    ensures
        ident_rest_len(q) == m,
    decreases m,
{
    if m > 0 {
        lemma_ident_rest_len_at(q.drop_first(), m - 1);
    }
}

/// The first value the environment holds under `name`.
pub open spec fn env_lookup(env: Seq<EnvVar>, name: Seq<char>) -> Option<Seq<char>>
    decreases env.len(),
{
    if env.len() == 0 {
        None
    } else if env[0].name@ == name {
        Some(env[0].value@)
    } else {
        env_lookup(env.drop_first(), name)
    }
}

/// What resolving `raw` against `env` comes to.  The text up to the first
/// `$` stands; the reference there is replaced, or resolution stops with
/// the first failure; what a variable resolved to is never rescanned.
pub open spec fn resolve_spec(raw: Seq<char>, env: Seq<EnvVar>) -> ResolveOutcome
    decreases raw.len(),
    via resolve_spec_decreases
{
    if first_dollar(raw) == raw.len() {
        ResolveOutcome::Resolved(raw)
    } else {
        let d = first_dollar(raw);
        let head = raw.take(d);
        let after = raw.skip(d + 1);
        if ident_len(after) == 0 {
            ResolveOutcome::Unparsable(raw.skip(d))
        } else {
            let il = ident_len(after);
            let variable = after.take(il);
            match env_lookup(env, variable) {
                None => ResolveOutcome::MissingVariable(variable),
                Some(value) => match resolve_spec(after.skip(il), env) {
                    ResolveOutcome::Resolved(rest) => ResolveOutcome::Resolved(
                        head + value + rest,
                    ),
                    other => other,
                },
            }
        }
    }
}

#[via_fn]
proof fn resolve_spec_decreases(raw: Seq<char>, env: Seq<EnvVar>) {
    lemma_first_dollar_bounds(raw);
    if first_dollar(raw) < raw.len() {
        lemma_ident_rest_len_bounds(raw.skip(first_dollar(raw) + 1).drop_first());
    }
}

/// Whether `c` may open a variable name.
fn ident_start_char(c: char) -> (r: bool)
    ensures
        r == is_ident_start(c),
{
    c == '_' || ('a' <= c && c <= 'z') || ('A' <= c && c <= 'Z')
}

/// Whether `c` may continue a variable name.
fn ident_char(c: char) -> (r: bool)
    ensures
        r == is_ident_char(c),
{
    ident_start_char(c) || ('0' <= c && c <= '9')
}

/// Splits `text` into the variable name it opens with and the rest; no
/// opening name, no split.  The name's first character may not be a
/// digit; later characters may.
pub fn parse_identifier(text: &str) -> (r: Option<(String, String)>)
    ensures
        match r {
            Some(pair) => ident_len(text@) > 0 && pair.0@ == text@.take(ident_len(text@))
                && pair.1@ == text@.skip(ident_len(text@)),
            None => ident_len(text@) == 0,
        },
{
    let n = text.unicode_len();
    if n == 0 || !ident_start_char(text.get_char(0)) {
        return None;
    }
    let mut j: usize = 1;
    while j < n && ident_char(text.get_char(j))
        invariant
            n == text@.len(),
            1 <= j <= n,
            forall|k: int| 1 <= k < j ==> is_ident_char(text@[k]),
        decreases n - j,
    {
        j = j + 1;
    }
    proof {
        let after = text@.drop_first();
        assert forall|k: int| 0 <= k < j - 1 implies is_ident_char(after[k]) by {
            assert(is_ident_char(text@[k + 1]));
        }
        if j < n {
            assert(!is_ident_char(after[j - 1]));
        }
        lemma_ident_rest_len_at(after, j - 1);
    }
    let head = String::from_str(text.substring_char(0, j));
    let tail = String::from_str(text.substring_char(j, n));
    proof {
        assert(head@ =~= text@.take(j as int));
        assert(tail@ =~= text@.skip(j as int));
    }
    Some((head, tail))
}

/// Splits `s` at the longest prefix whose characters the predicate
/// accepts.
pub fn take_while<F: Fn(char) -> bool>(s: &str, predicate: F) -> (r: (String, String))
    requires
        forall|c: char| #[trigger] call_requires(predicate, (c,)),
    ensures
        r.0@ + r.1@ == s@,
        r.0@ == s@.take(r.0@.len() as int),
        forall|i: int| 0 <= i < r.0@.len() ==> call_ensures(predicate, (#[trigger] r.0@[i],), true),
        r.1@.len() > 0 ==> call_ensures(predicate, (r.1@[0],), false),
{
    let n = s.unicode_len();
    let mut j: usize = 0;
    let mut stopped = false;
    while j < n && !stopped
        invariant
            n == s@.len(),
            j <= n,
            forall|c: char| #[trigger] call_requires(predicate, (c,)),
            forall|k: int| 0 <= k < j ==> call_ensures(predicate, (#[trigger] s@[k],), true),
            stopped ==> j < n && call_ensures(predicate, (s@[j as int],), false),
        decreases n - j, 1int - (if stopped { 1int } else { 0int }),
    {
        if predicate(s.get_char(j)) {
            j = j + 1;
        } else {
            stopped = true;
        }
    }
    let head = String::from_str(s.substring_char(0, j));
    let tail = String::from_str(s.substring_char(j, n));
    proof {
        assert(head@ + tail@ =~= s@);
        assert(head@ =~= s@.take(j as int));
    }
    (head, tail)
}

/// The value the environment holds under `name`, searching from the
/// front.
fn lookup_env<'a>(env: &'a Vec<EnvVar>, name: &str) -> (r: Option<&'a String>)
    ensures
        match r {
            Some(v) => env_lookup(env@, name@) == Some(v@),
            None => env_lookup(env@, name@) is None,
        },
{
    let n = env.len();
    let mut i: usize = 0;
    proof {
        assert(env@.skip(0) =~= env@);
    }
    while i < n
        invariant
            n == env@.len(),
            i <= n,
            env_lookup(env@, name@) == env_lookup(env@.skip(i as int), name@),
        decreases n - i,
    {
        proof {
            assert(env@.skip(i as int)[0] == env@[i as int]);
            assert(env@.skip(i as int).drop_first() =~= env@.skip(i + 1));
        }
        if crate::paths::str_eq(env[i].name.as_str(), name) {
            return Some(&env[i].value);
        }
        i = i + 1;
    }
    None
}

/// Replaces every `$NAME` reference in `raw` by the environment's value
/// for `NAME`, left to right and without rescanning what a reference
/// resolved to.  The first reference that names an unknown variable, or
/// that opens no variable name at all, stops resolution with the matching
/// error.
pub fn resolve_path(raw: &str, env: &Vec<EnvVar>) -> (r: Result<String, ResolveError>)
    ensures
        match r {
            Ok(s) => resolve_spec(raw@, env@) == ResolveOutcome::Resolved(s@),
            Err(ResolveError::MissingVariable { variable }) => resolve_spec(raw@, env@)
                == ResolveOutcome::MissingVariable(variable@),
            Err(ResolveError::UnableToParseVariable { rest }) => resolve_spec(raw@, env@)
                == ResolveOutcome::Unparsable(rest@),
        },
{
    let n = raw.unicode_len();
    let mut resolved = String::new();
    let mut pos: usize = 0;
    proof {
        assert(raw@.skip(0) =~= raw@);
        match resolve_spec(raw@, env@) {
            ResolveOutcome::Resolved(rest) => {
                assert(resolved@ + rest =~= rest);
            },
            _ => {},
        }
    }
    while pos < n
        invariant
            n == raw@.len(),
            pos <= n,
            resolve_spec(raw@, env@) == (match resolve_spec(raw@.skip(pos as int), env@) {
                ResolveOutcome::Resolved(rest) => ResolveOutcome::Resolved(resolved@ + rest),
                other => other,
            }),
        decreases n - pos,
    {
        let ghost unprocessed = raw@.skip(pos as int);
        let ghost pre = resolved@;
        let mut j: usize = pos;
        while j < n && raw.get_char(j) != '$'
            invariant
                n == raw@.len(),
                pos <= j <= n,
                forall|k: int| pos <= k < j ==> raw@[k] != '$',
            decreases n - j,
        {
            j = j + 1;
        }
        proof {
            assert forall|k: int| 0 <= k < j - pos implies unprocessed[k] != '$' by {
                assert(raw@[pos + k] != '$');
            }
            lemma_first_dollar_at(unprocessed, j - pos);
        }
        if j == n {
            resolved.append(raw.substring_char(pos, n));
            proof {
                assert(resolve_spec(unprocessed, env@) == ResolveOutcome::Resolved(unprocessed));
                assert(raw@.subrange(pos as int, n as int) =~= unprocessed);
                assert(resolved@ =~= pre + unprocessed);
            }
            return Ok(resolved);
        }
        resolved.append(raw.substring_char(pos, j));
        let ghost head = unprocessed.take(j - pos);
        let ghost after = unprocessed.skip(j - pos + 1);
        proof {
            assert(raw@.subrange(pos as int, j as int) =~= head);
            assert(resolved@ =~= pre + head);
            assert(raw@.subrange(j + 1, n as int) =~= after);
        }
        match parse_identifier(raw.substring_char(j + 1, n)) {
            None => {
                let rest = String::from_str(raw.substring_char(j, n));
                proof {
                    assert(unprocessed.skip(j - pos) =~= raw@.subrange(j as int, n as int));
                    assert(resolve_spec(unprocessed, env@) == ResolveOutcome::Unparsable(rest@));
                }
                return Err(ResolveError::UnableToParseVariable { rest });
            },
            Some((variable, _rest)) => {
                let ghost il = ident_len(after);
                proof {
                    assert(il > 0);
                    assert(after.len() > 0);
                    lemma_ident_rest_len_bounds(after.drop_first());
                    assert(0 < il <= after.len());
                    assert(variable@ == after.take(il));
                }
                match lookup_env(env, variable.as_str()) {
                    None => {
                        proof {
                            assert(resolve_spec(unprocessed, env@)
                                == ResolveOutcome::MissingVariable(variable@));
                        }
                        return Err(ResolveError::MissingVariable { variable });
                    },
                    Some(value) => {
                        resolved.append(value.as_str());
                        let step = variable.unicode_len();
                        proof {
                            assert(step == il);
                            assert(after.skip(il) =~= raw@.skip(j + 1 + step as int));
                            assert(resolved@ =~= pre + head + value@);
                            assert(resolve_spec(unprocessed, env@) == (
                            match resolve_spec(after.skip(il), env@) {
                                ResolveOutcome::Resolved(rest) => ResolveOutcome::Resolved(
                                    head + value@ + rest,
                                ),
                                other => other,
                            }));
                            match resolve_spec(after.skip(il), env@) {
                                ResolveOutcome::Resolved(rest) => {
                                    assert(pre + (head + value@ + rest) =~= (pre + head + value@)
                                        + rest);
                                },
                                _ => {},
                            }
                        }
                        pos = j + 1 + step;
                    },
                }
            },
        }
    }
    proof {
        assert(raw@.skip(n as int) =~= Seq::<char>::empty());
        assert(first_dollar(Seq::<char>::empty()) == 0);
        assert(resolve_spec(raw@.skip(n as int), env@) == ResolveOutcome::Resolved(
            Seq::<char>::empty(),
        ));
        assert(resolved@ + Seq::<char>::empty() =~= resolved@);
    }
    Ok(resolved)
}

} // verus!
