//! Glob patterns that exclude files from a scan.
//!
//! A pattern is matched against a path relative to the scanned directory:
//! `*` matches any run of characters other than `/`, `?` any one character
//! other than `/`, `**/` any number of whole directories (none included),
//! and a trailing `**` everything; any other character matches itself.
use vstd::prelude::*;
use crate::engine::text::{chars_of, strings_view};

verus! {

/// Length of the first path component of `s` together with the `/` that
/// ends it, or `None` when `s` holds no `/`.
pub open spec fn component_end(s: Seq<char>) -> Option<int>
    decreases s.len(),
{
    if s.len() == 0 {
        None
    } else if s[0] == '/' {
        Some(1)
    } else {
        match component_end(s.drop_first()) {
            Some(n) => Some(n + 1),
            None => None,
        }
    }
}

/// The component found ends with the first `/`, and a path without `/` has none.
pub proof fn lemma_component_end(s: Seq<char>)
    ensures
        component_end(s) matches Some(n) ==> 1 <= n <= s.len() && s[n - 1] == '/' && forall|k: int|
            0 <= k < n - 1 ==> s[k] != '/',
        component_end(s) is None ==> forall|k: int| 0 <= k < s.len() ==> s[k] != '/',
    decreases s.len(),
{
    if s.len() > 0 {
        lemma_component_end(s.drop_first());
        assert forall|k: int| 0 < k < s.len() implies s[k] == s.drop_first()[k - 1] by {}
    }
}

/// Whether `p` starts with `**/`.
pub open spec fn starts_with_globstar_dir(p: Seq<char>) -> bool {
    p.len() >= 3 && p[0] == '*' && p[1] == '*' && p[2] == '/'
}

/// Whether `p` is exactly `**`.
pub open spec fn is_globstar(p: Seq<char>) -> bool {
    p.len() == 2 && p[0] == '*' && p[1] == '*'
}

/// Whether glob pattern `p` matches path `s`.
pub open spec fn glob_match(p: Seq<char>, s: Seq<char>) -> bool
    decreases p.len(), s.len(),
{
    if p.len() == 0 {
        s.len() == 0
    } else if is_globstar(p) {
        true
    } else if starts_with_globstar_dir(p) {
        glob_match(p.skip(3), s) || match component_end(s) {
            Some(n) => {
                proof {
                    lemma_component_end(s);
                }
                glob_match(p, s.skip(n))
            },
            None => false,
        }
    } else if p[0] == '*' {
        glob_match(p.skip(1), s) || (s.len() > 0 && s[0] != '/' && glob_match(p, s.skip(1)))
    } else if p[0] == '?' {
        s.len() > 0 && s[0] != '/' && glob_match(p.skip(1), s.skip(1))
    } else {
        s.len() > 0 && s[0] == p[0] && glob_match(p.skip(1), s.skip(1))
    }
}

/// Position just after the first `/` of `s[from..]`, if any.
fn component_end_from(s: &Vec<char>, from: usize) -> (r: Option<usize>)
    requires
        from <= s@.len(),
    ensures
        match r {
            Some(e) => from < e <= s@.len() && component_end(s@.skip(from as int)) == Some(
                (e - from) as int,
            ),
            None => component_end(s@.skip(from as int)) is None,
        },
{
    let mut i = from;
    while i < s.len()
        invariant
            from <= i <= s@.len(),
            forall|k: int| from <= k < i ==> s@[k] != '/',
            component_end(s@.skip(from as int)) == match component_end(s@.skip(i as int)) {
                Some(n) => Some(n + (i - from)),
                None => None,
            },
        decreases s@.len() - i,
    {
        assert(s@.skip(i as int)[0] == s@[i as int]);
        if s[i] == '/' {
            return Some(i + 1);
        }
        assert(s@.skip(i as int).drop_first() =~= s@.skip(i + 1));
        i = i + 1;
    }
    assert(s@.skip(i as int).len() == 0);
    None
}

/// Whether `p[pi..]` matches `s[si..]`.
fn match_from(p: &Vec<char>, pi: usize, s: &Vec<char>, si: usize) -> (r: bool)
    requires
        pi <= p@.len(),
        si <= s@.len(),
    ensures
        r == glob_match(p@.skip(pi as int), s@.skip(si as int)),
    decreases p@.len() - pi, s@.len() - si,
{
    let ghost ps = p@.skip(pi as int);
    let ghost ss = s@.skip(si as int);
    let pn = p.len();
    let sn = s.len();
    if pi == pn {
        return si == sn;
    }
    assert(ps[0] == p@[pi as int]);
    if pn - pi == 2 && p[pi] == '*' && p[pi + 1] == '*' {
        assert(is_globstar(ps));
        return true;
    }
    assert(!is_globstar(ps));
    if pn - pi >= 3 && p[pi] == '*' && p[pi + 1] == '*' && p[pi + 2] == '/' {
        assert(starts_with_globstar_dir(ps));
        assert(ps.skip(3) =~= p@.skip(pi + 3));
        if match_from(p, pi + 3, s, si) {
            return true;
        }
        return match component_end_from(s, si) {
            Some(e) => {
                assert(ss.skip(e - si) =~= s@.skip(e as int));
                match_from(p, pi, s, e)
            },
            None => false,
        };
    }
    assert(!starts_with_globstar_dir(ps));
    assert(ps.skip(1) =~= p@.skip(pi + 1));
    if si < sn {
        assert(ss[0] == s@[si as int]);
        assert(ss.skip(1) =~= s@.skip(si + 1));
    }
    if p[pi] == '*' {
        if match_from(p, pi + 1, s, si) {
            return true;
        }
        si < sn && s[si] != '/' && match_from(p, pi, s, si + 1)
    } else if p[pi] == '?' {
        si < sn && s[si] != '/' && match_from(p, pi + 1, s, si + 1)
    } else {
        si < sn && s[si] == p[pi] && match_from(p, pi + 1, s, si + 1)
    }
}

/// Whether glob `pattern` matches `path`.
pub fn glob_matches(pattern: &str, path: &str) -> (r: bool)
    ensures
        r == glob_match(pattern@, path@),
{
    let p = chars_of(pattern);
    let s = chars_of(path);
    assert(p@.skip(0) =~= p@);
    assert(s@.skip(0) =~= s@);
    match_from(&p, 0, &s, 0)
}

/// Whether some pattern of `patterns` matches `path`.
pub open spec fn excluded_by(patterns: Seq<Seq<char>>, path: Seq<char>) -> bool {
    exists|i: int| 0 <= i < patterns.len() && glob_match(#[trigger] patterns[i], path)
}

/// Whether a path, relative to the scanned directory, is excluded by one
/// of `patterns`.
pub fn is_excluded(patterns: &Vec<String>, path: &str) -> (r: bool)
    ensures
        r == excluded_by(strings_view(patterns@), path@),
{
    let mut i: usize = 0;
    while i < patterns.len()
        invariant
            i <= patterns@.len(),
            forall|j: int| 0 <= j < i ==> !glob_match(#[trigger] patterns@[j]@, path@),
        decreases patterns@.len() - i,
    {
        if glob_matches(patterns[i].as_str(), path) {
            assert(strings_view(patterns@)[i as int] == patterns@[i as int]@);
            return true;
        }
        i = i + 1;
    }
    assert(!excluded_by(strings_view(patterns@), path@)) by {
        if excluded_by(strings_view(patterns@), path@) {
            let j = choose|j: int|
                0 <= j < strings_view(patterns@).len() && glob_match(
                    #[trigger] strings_view(patterns@)[j],
                    path@,
                );
            assert(strings_view(patterns@)[j] == patterns@[j]@);
        }
    }
    false
}

/// `*` matches any run of characters without `/`: whatever `q` matches
/// after such a run, `*` followed by `q` matches with the run in front (for a
/// `q` that does not itself start with `*`, which would make a `**` pattern).
pub proof fn law_star_matches_any_run(q: Seq<char>, run: Seq<char>, t: Seq<char>)
    requires
        forall|i: int| 0 <= i < run.len() ==> run[i] != '/',
        q.len() == 0 || q[0] != '*',
        glob_match(q, t),
    ensures
        glob_match(seq!['*'] + q, run + t),
    decreases run.len(),
{
    let p = seq!['*'] + q;
    assert(p.skip(1) =~= q);
    assert(!is_globstar(p));
    assert(!starts_with_globstar_dir(p));
    if run.len() == 0 {
        assert(run + t =~= t);
    } else {
        let rest = run.drop_first();
        law_star_matches_any_run(q, rest, t);
        assert((run + t).skip(1) =~= rest + t);
        assert((run + t)[0] == run[0]);
    }
}

/// `*` never matches a `/`: on a path that starts with `/`, `*` followed by
/// `q` matches exactly when `q` does.
pub proof fn law_star_does_not_cross_slash(q: Seq<char>, s: Seq<char>)
    requires
        q.len() == 0 || q[0] != '*',
        s.len() > 0,
        s[0] == '/',
    ensures
        glob_match(seq!['*'] + q, s) == glob_match(q, s),
{
    let p = seq!['*'] + q;
    assert(p.skip(1) =~= q);
    assert(!is_globstar(p));
    assert(!starts_with_globstar_dir(p));
}

/// `**/` may match no directory: whatever `q` matches, `**/` followed by
/// `q` matches too.
pub proof fn law_globstar_matches_no_dir(q: Seq<char>, t: Seq<char>)
    requires
        glob_match(q, t),
    ensures
        glob_match(seq!['*', '*', '/'] + q, t),
{
    let p = seq!['*', '*', '/'] + q;
    assert(p.skip(3) =~= q);
    assert(starts_with_globstar_dir(p));
    assert(!is_globstar(p));
}

/// `**/` matches any further directory: where `**/` followed by `q` matches
/// a path, it matches that path below one more directory `dir/`.
pub proof fn law_globstar_matches_one_more_dir(q: Seq<char>, dir: Seq<char>, t: Seq<char>)
    requires
        forall|i: int| 0 <= i < dir.len() ==> dir[i] != '/',
        glob_match(seq!['*', '*', '/'] + q, t),
    ensures
        glob_match(seq!['*', '*', '/'] + q, dir + seq!['/'] + t),
{
    let p = seq!['*', '*', '/'] + q;
    let s = dir + seq!['/'] + t;
    assert(starts_with_globstar_dir(p));
    assert(!is_globstar(p));
    assert(component_end(s) == Some(dir.len() as int + 1)) by {
        lemma_component_end_after(dir, t);
    }
    assert(s.skip(dir.len() as int + 1) =~= t);
}

proof fn lemma_component_end_after(dir: Seq<char>, t: Seq<char>)
    requires
        forall|i: int| 0 <= i < dir.len() ==> dir[i] != '/',
    ensures
        component_end(dir + seq!['/'] + t) == Some(dir.len() as int + 1),
    decreases dir.len(),
{
    let s = dir + seq!['/'] + t;
    if dir.len() == 0 {
        assert(s[0] == '/');
    } else {
        assert(s[0] == dir[0]);
        assert(s.drop_first() =~= dir.drop_first() + seq!['/'] + t);
        lemma_component_end_after(dir.drop_first(), t);
    }
}

/// `?` matches exactly one character other than `/`.
pub proof fn law_question_matches_one_char(q: Seq<char>, c: char, t: Seq<char>)
    ensures
        glob_match(seq!['?'] + q, seq![c] + t) == (c != '/' && glob_match(q, t)),
{
    let p = seq!['?'] + q;
    let s = seq![c] + t;
    assert(p.skip(1) =~= q);
    assert(s.skip(1) =~= t);
    assert(!is_globstar(p));
    assert(!starts_with_globstar_dir(p));
}

/// Any other character matches only itself.
pub proof fn law_literal_matches_itself(c: char, q: Seq<char>, d: char, t: Seq<char>)
    requires
        c != '*',
        c != '?',
    ensures
        glob_match(seq![c] + q, seq![d] + t) == (c == d && glob_match(q, t)),
{
    let p = seq![c] + q;
    let s = seq![d] + t;
    assert(p.skip(1) =~= q);
    assert(s.skip(1) =~= t);
    assert(!is_globstar(p));
    assert(!starts_with_globstar_dir(p));
}

} // verus!
