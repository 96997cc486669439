//! Character-level helpers on strings, specified over `Seq<char>`.
use vstd::prelude::*;
use vstd::std_specs::iter::IteratorSpec;

verus! {

broadcast use vstd::string::group_string_axioms;

/// The views of a sequence of strings.
pub open spec fn strings_view(v: Seq<String>) -> Seq<Seq<char>> {
    v.map_values(|s: String| s@)
}

/// A copy of a vector of strings.
pub fn clone_strings(v: &Vec<String>) -> (out: Vec<String>)
    ensures
        out@ == v@,
{
    let mut out: Vec<String> = Vec::new();
    let mut i: usize = 0;
    while i < v.len()
        invariant
            i <= v@.len(),
            out@ == v@.take(i as int),
        decreases v@.len() - i,
    {
        out.push(v[i].clone());
        assert(out@ =~= v@.take(i + 1));
        i = i + 1;
    }
    assert(v@.take(v@.len() as int) =~= v@);
    out
}

/// The view of an optional string.
pub open spec fn text_view(o: Option<String>) -> Option<Seq<char>> {
    match o {
        Some(s) => Some(s@),
        None => None,
    }
}

/// The view of an optional list of strings.
pub open spec fn list_view(o: Option<Vec<String>>) -> Option<Seq<Seq<char>>> {
    match o {
        Some(v) => Some(strings_view(v@)),
        None => None,
    }
}

/// The characters of `s`, in order.
pub fn chars_of(s: &str) -> (out: Vec<char>)
    ensures
        out@ == s@,
{
    let mut out: Vec<char> = Vec::new();
    let mut it = s.chars();
    loop
        invariant
            out@ + it.remaining() == s@,
            it.decrease() is Some,
        decreases it.decrease()->0,
    {
        let ghost before = it.remaining();
        match it.next() {
            Some(c) => {
                out.push(c);
                assert(out@ + it.remaining() =~= s@) by {
                    assert(before == seq![c] + it.remaining());
                }
            },
            None => {
                assert(out@ =~= s@);
                return out;
            },
        }
    }
}

/// Index of the first occurrence of `c` in `s`.
pub open spec fn first_index_of(s: Seq<char>, c: char) -> Option<int>
    decreases s.len(),
{
    if s.len() == 0 {
        None
    } else if s[0] == c {
        Some(0)
    } else {
        match first_index_of(s.drop_first(), c) {
            Some(i) => Some(i + 1),
            None => None,
        }
    }
}


/// The first occurrence found is in range, and no earlier character matches.
pub proof fn lemma_first_index_bounds(s: Seq<char>, c: char)
    ensures
        first_index_of(s, c) matches Some(i) ==> 0 <= i < s.len() && s[i] == c && forall|k: int|
            0 <= k < i ==> s[k] != c,
        first_index_of(s, c) is None ==> forall|k: int| 0 <= k < s.len() ==> s[k] != c,
    decreases s.len(),
{
    if s.len() > 0 {
        lemma_first_index_bounds(s.drop_first(), c);
        assert forall|k: int| 0 < k < s.len() implies s[k] == s.drop_first()[k - 1] by {}
    }
}

/// Position of the first `c` in `cs[from..]`.
pub fn find_char_from(cs: &Vec<char>, from: usize, c: char) -> (r: Option<usize>)
    requires
        from <= cs@.len(),
    ensures
        match r {
            Some(i) => from <= i < cs@.len() && first_index_of(cs@.skip(from as int), c) == Some(
                i - from,
            ),
            None => first_index_of(cs@.skip(from as int), c) is None,
        },
{
    let ghost s = cs@.skip(from as int);
    let mut i = from;
    assert(cs@.skip(from as int).skip(0) =~= s);
    while i < cs.len()
        invariant
            from <= i <= cs@.len(),
            s == cs@.skip(from as int),
            first_index_of(s, c) == match first_index_of(cs@.skip(i as int), c) {
                Some(j) => Some(j + (i - from)),
                None => None,
            },
        decreases cs@.len() - i,
    {
        assert(cs@.skip(i as int)[0] == cs@[i as int]);
        if cs[i] == c {
            return Some(i);
        }
        assert(cs@.skip(i as int).drop_first() =~= cs@.skip(i + 1));
        i = i + 1;
    }
    assert(cs@.skip(i as int).len() == 0);
    None
}

/// Whether `p` is a prefix of `s`.
pub fn starts_with(s: &str, p: &str) -> (r: bool)
    ensures
        r == p@.is_prefix_of(s@),
{
    let sc = chars_of(s);
    let pc = chars_of(p);
    if pc.len() > sc.len() {
        return false;
    }
    let mut i: usize = 0;
    while i < pc.len()
        invariant
            i <= pc@.len() <= sc@.len(),
            sc@ == s@,
            pc@ == p@,
            forall|j: int| 0 <= j < i ==> pc@[j] == sc@[j],
        decreases pc@.len() - i,
    {
        if pc[i] != sc[i] {
            return false;
        }
        i = i + 1;
    }
    true
}

/// Whether `v` holds a string equal to `s`.
pub fn contains_string(v: &Vec<String>, s: &String) -> (r: bool)
    ensures
        r == strings_view(v@).contains(s@),
{
    let mut i: usize = 0;
    while i < v.len()
        invariant
            i <= v@.len(),
            forall|j: int| 0 <= j < i ==> v@[j]@ != s@,
        decreases v@.len() - i,
    {
        if v[i] == *s {
            assert(strings_view(v@)[i as int] == s@);
            return true;
        }
        i = i + 1;
    }
    assert(!strings_view(v@).contains(s@)) by {
        if strings_view(v@).contains(s@) {
            let j = choose|j: int| 0 <= j < strings_view(v@).len() && strings_view(v@)[j] == s@;
            assert(v@[j]@ == s@);
        }
    }
    false
}

/// Index of the last occurrence of `c` in `s`.
pub open spec fn last_index_of(s: Seq<char>, c: char) -> Option<int>
    decreases s.len(),
{
    if s.len() == 0 {
        None
    } else if s.last() == c {
        Some(s.len() - 1)
    } else {
        last_index_of(s.drop_last(), c)
    }
}

/// Index of the last occurrence of `c` in `cs`.
pub fn last_index_of_char(cs: &Vec<char>, c: char) -> (r: Option<usize>)
    ensures
        match r {
            Some(i) => i < cs@.len() && last_index_of(cs@, c) == Some(i as int),
            None => last_index_of(cs@, c) is None,
        },
{
    let mut found: Option<usize> = None;
    let mut i: usize = 0;
    while i < cs.len()
        invariant
            i <= cs@.len(),
            match found {
                Some(j) => j < i && last_index_of(cs@.take(i as int), c) == Some(j as int),
                None => last_index_of(cs@.take(i as int), c) is None,
            },
        decreases cs@.len() - i,
    {
        assert(cs@.take(i + 1).drop_last() =~= cs@.take(i as int));
        if cs[i] == c {
            found = Some(i);
        }
        i = i + 1;
    }
    assert(cs@.take(cs@.len() as int) =~= cs@);
    found
}

/// `s` with every backslash replaced by a slash.
pub open spec fn slashes_normalized(s: Seq<char>) -> Seq<char> {
    s.map_values(|c: char| if c == '\\' { '/' } else { c })
}

/// `s` with every backslash replaced by a slash.
pub fn normalize_slashes(s: &str) -> (r: String)
    ensures
        r@ == slashes_normalized(s@),
{
    let cs = chars_of(s);
    let mut out = String::new();
    let mut seg: usize = 0;
    let mut j: usize = 0;
    while j < cs.len()
        invariant
            cs@ == s@,
            seg <= j <= cs@.len(),
            out@ == slashes_normalized(s@.take(seg as int)),
            forall|k: int| seg <= k < j ==> s@[k] != '\\',
        decreases cs@.len() - j,
    {
        if cs[j] == '\\' {
            let ghost prev = out@;
            out.append(s.substring_char(seg, j));
            out.append("/");
            assert(out@ =~= slashes_normalized(s@.take(j + 1))) by {
                reveal_strlit("/");
                assert("/"@ == seq!['/']);
                assert(out@ == prev + s@.subrange(seg as int, j as int) + seq!['/']);
                assert forall|k: int| 0 <= k <= j implies out@[k] == slashes_normalized(
                    s@.take(j + 1),
                )[k] by {
                    if k < seg {
                        assert(out@[k] == prev[k]);
                    } else if k < j {
                        assert(out@[k] == s@[k]);
                    }
                }
            }
            seg = j + 1;
        }
        j = j + 1;
    }
    let ghost head = out@;
    out.append(s.substring_char(seg, cs.len()));
    assert(out@ =~= slashes_normalized(s@)) by {
        assert(s@.take(s@.len() as int) =~= s@);
        assert forall|k: int| 0 <= k < s@.len() implies out@[k] == slashes_normalized(s@)[k] by {
            if k >= seg {
                assert(out@[k] == s@[k]);
            }
        }
    }
    out
}

/// `p` without what `std::path::Path` ignores at its end: trailing `/`
/// separators and trailing `/.` components (`"a/b.ts/./"` names the file
/// `b.ts`).
///
/// Paths are handled as strings, following `Path` on Unix: `Path` and
/// `PathBuf` are not types that verified code can hold.
pub open spec fn path_trimmed(p: Seq<char>) -> Seq<char>
    decreases p.len(),
{
    if p.len() > 0 && p.last() == '/' {
        path_trimmed(p.drop_last())
    } else if p.len() >= 2 && p.last() == '.' && p[p.len() - 2] == '/' {
        path_trimmed(p.drop_last())
    } else {
        p
    }
}

/// Index at which the last component of `p` starts (just after its last `/`).
pub open spec fn file_name_start(p: Seq<char>) -> int {
    match last_index_of(p, '/') {
        Some(i) => i + 1,
        None => 0,
    }
}

/// The file name of `p`, as `Path::file_name` gives it: the last component
/// once trailing `/` and `/.` are dropped, unless that component is empty
/// (the root or an empty path), `.` or `..`.
pub open spec fn file_name(p: Seq<char>) -> Option<Seq<char>> {
    let t = path_trimmed(p);
    let name = t.skip(file_name_start(t));
    if name.len() == 0 || name == seq!['.'] || name == seq!['.', '.'] {
        None
    } else {
        Some(name)
    }
}

/// Index in `p` of the dot that starts the extension of its file name: the
/// last dot of the file name, unless that dot opens the name (as in
/// `.hidden`).
pub open spec fn extension_dot(p: Seq<char>) -> Option<int> {
    match file_name(p) {
        Some(name) => match last_index_of(name, '.') {
            Some(d) => if d > 0 {
                Some(file_name_start(path_trimmed(p)) + d)
            } else {
                None
            },
            None => None,
        },
        None => None,
    }
}

/// The extension of `p` without its dot, as `Path::extension` gives it.
pub open spec fn extension(p: Seq<char>) -> Option<Seq<char>> {
    match extension_dot(p) {
        Some(d) => Some(path_trimmed(p).skip(d + 1)),
        None => None,
    }
}

/// `p` as `Path::with_extension("")` leaves it: cut just after the stem of
/// its file name (the name without its extension), or unchanged when it has
/// no file name.
pub open spec fn without_extension(p: Seq<char>) -> Seq<char> {
    match file_name(p) {
        Some(name) => match extension_dot(p) {
            Some(d) => p.take(d),
            None => path_trimmed(p),
        },
        None => p,
    }
}

proof fn lemma_path_trimmed_prefix(p: Seq<char>)
    ensures
        path_trimmed(p).len() <= p.len(),
        path_trimmed(p) == p.take(path_trimmed(p).len() as int),
    decreases p.len(),
{
    if (p.len() > 0 && p.last() == '/') || (p.len() >= 2 && p.last() == '.' && p[p.len() - 2]
        == '/') {
        lemma_path_trimmed_prefix(p.drop_last());
        assert(p.drop_last().take(path_trimmed(p).len() as int) =~= p.take(
            path_trimmed(p).len() as int,
        ));
    } else {
        assert(p.take(p.len() as int) =~= p);
    }
}

/// The start and end in `cs` of the last component of `path_trimmed(cs@)`.
fn name_bounds(cs: &Vec<char>) -> (r: (usize, usize))
    ensures
        r.1 <= cs@.len(),
        cs@.take(r.1 as int) == path_trimmed(cs@),
        r.0 as int == file_name_start(path_trimmed(cs@)),
        r.0 <= r.1,
{
    let mut e = cs.len();
    assert(cs@.take(e as int) =~= cs@);
    while e > 0 && (cs[e - 1] == '/' || (e >= 2 && cs[e - 1] == '.' && cs[e - 2] == '/'))
        invariant
            e <= cs@.len(),
            path_trimmed(cs@.take(e as int)) == path_trimmed(cs@),
        decreases e,
    {
        assert(cs@.take(e as int).drop_last() =~= cs@.take(e - 1));
        e = e - 1;
    }
    let ghost t = cs@.take(e as int);
    assert(path_trimmed(t) == t);
    let mut start: usize = 0;
    let mut i: usize = 0;
    while i < e
        invariant
            i <= e <= cs@.len(),
            t == cs@.take(e as int),
            start <= i,
            start as int == file_name_start(t.take(i as int)),
        decreases e - i,
    {
        assert(t.take(i + 1).drop_last() =~= t.take(i as int));
        assert(t.take(i + 1).last() == cs@[i as int]);
        if cs[i] == '/' {
            start = i + 1;
        }
        i = i + 1;
    }
    assert(t.take(e as int) =~= t);
    (start, e)
}

/// Whether `cs[start..end]` is a file name: not empty, `.` or `..`.
fn is_file_name(cs: &Vec<char>, start: usize, end: usize) -> (r: bool)
    requires
        start <= end <= cs@.len(),
    ensures
        r == !(cs@.subrange(start as int, end as int).len() == 0 || cs@.subrange(
            start as int,
            end as int,
        ) == seq!['.'] || cs@.subrange(start as int, end as int) == seq!['.', '.']),
{
    let ghost name = cs@.subrange(start as int, end as int);
    if end == start {
        return false;
    }
    if end - start == 1 {
        if cs[start] == '.' {
            assert(name =~= seq!['.']);
            return false;
        }
        assert(name[0] != seq!['.'][0]);
        assert(name != seq!['.', '.']);
        return true;
    }
    if end - start == 2 {
        if cs[start] == '.' && cs[start + 1] == '.' {
            assert(name =~= seq!['.', '.']);
            return false;
        }
        if cs[start] != '.' {
            assert(name[0] != seq!['.', '.'][0]);
        } else {
            assert(name[1] != seq!['.', '.'][1]);
        }
        return true;
    }
    true
}

/// The last occurrence found is in range, and no later character matches.
pub proof fn lemma_last_index_bounds(s: Seq<char>, c: char)
    ensures
        last_index_of(s, c) matches Some(i) ==> 0 <= i < s.len() && s[i] == c && forall|k: int|
            i < k < s.len() ==> s[k] != c,
        last_index_of(s, c) is None ==> forall|k: int| 0 <= k < s.len() ==> s[k] != c,
    decreases s.len(),
{
    if s.len() > 0 {
        lemma_last_index_bounds(s.drop_last(), c);
        assert forall|k: int| 0 <= k < s.len() - 1 implies s.drop_last()[k] == s[k] by {}
    }
}

/// Index in `cs` of the dot that starts the extension of the file name.
pub fn extension_dot_index(cs: &Vec<char>) -> (r: Option<usize>)
    ensures
        match r {
            Some(d) => d < path_trimmed(cs@).len() && extension_dot(cs@) == Some(d as int),
            None => extension_dot(cs@) is None,
        },
{
    let ghost p = cs@;
    let (start, n) = name_bounds(cs);
    let ghost t = path_trimmed(p);
    let ghost name = t.skip(start as int);
    assert(name =~= cs@.subrange(start as int, n as int));
    if !is_file_name(cs, start, n) {
        return None;
    }
    let mut found: Option<usize> = None;
    let mut i: usize = start;
    while i < n
        invariant
            start <= i <= n <= p.len(),
            p == cs@,
            t == p.take(n as int),
            name == t.skip(start as int),
            match found {
                Some(j) => start <= j < i && last_index_of(name.take(i - start), '.') == Some(
                    j - start,
                ),
                None => last_index_of(name.take(i - start), '.') is None,
            },
        decreases n - i,
    {
        assert(name.take(i + 1 - start).drop_last() =~= name.take(i - start));
        assert(name.take(i + 1 - start).last() == cs@[i as int]);
        if cs[i] == '.' {
            found = Some(i);
        }
        i = i + 1;
    }
    assert(name.take(n - start) =~= name);
    match found {
        Some(d) => if d > start {
            Some(d)
        } else {
            None
        },
        None => None,
    }
}

/// The length of `path_trimmed(cs@)`.
pub fn trimmed_len(cs: &Vec<char>) -> (e: usize)
    ensures
        e <= cs@.len(),
        cs@.take(e as int) == path_trimmed(cs@),
{
    name_bounds(cs).1
}

/// The end of `cs` once cut as [`without_extension`] cuts it.
pub fn stem_end(cs: &Vec<char>) -> (e: usize)
    ensures
        e <= cs@.len(),
        cs@.take(e as int) == without_extension(cs@),
{
    let (start, n) = name_bounds(cs);
    proof {
        lemma_path_trimmed_prefix(cs@);
        assert(path_trimmed(cs@).skip(start as int) =~= cs@.subrange(start as int, n as int));
    }
    if !is_file_name(cs, start, n) {
        assert(cs@.take(cs@.len() as int) =~= cs@);
        return cs.len();
    }
    match extension_dot_index(cs) {
        Some(d) => d,
        None => n,
    }
}

/// The pieces of `s` between occurrences of `sep`: the maximal runs
/// without `sep`, in order (empty runs included; there is always at least
/// one piece).
pub open spec fn split_on(s: Seq<char>, sep: char) -> Seq<Seq<char>>
    decreases s.len(),
{
    match last_index_of(s, sep) {
        Some(i) => {
            proof {
                lemma_last_index_bounds(s, sep);
            }
            split_on(s.take(i), sep).push(s.skip(i + 1))
        },
        None => seq![s],
    }
}

proof fn lemma_last_sep(s: Seq<char>, sep: char, seg: int, j: int)
    requires
        0 <= seg <= j <= s.len(),
        forall|k: int| seg <= k < j ==> s[k] != sep,
        seg > 0 ==> s[seg - 1] == sep,
    ensures
        last_index_of(s.take(j), sep) == if seg > 0 {
            Some(seg - 1)
        } else {
            None::<int>
        },
    decreases j - seg,
{
    if j > seg {
        assert(s.take(j).drop_last() =~= s.take(j - 1));
        lemma_last_sep(s, sep, seg, j - 1);
    } else if seg > 0 {
        assert(s.take(j).last() == s[seg - 1]);
    }
}

/// The pieces of `text` between occurrences of `sep`.
pub fn split_str(text: &str, sep: char) -> (segments: Vec<String>)
    ensures
        strings_view(segments@) == split_on(text@, sep),
{
    let cs = chars_of(text);
    let n = cs.len();
    let mut out: Vec<String> = Vec::new();
    let mut seg: usize = 0;
    let mut j: usize = 0;
    while j < n
        invariant
            cs@ == text@,
            n == cs@.len(),
            seg <= j <= n,
            forall|k: int| seg <= k < j ==> cs@[k] != sep,
            seg > 0 ==> cs@[seg - 1] == sep && strings_view(out@) == split_on(
                cs@.take(seg - 1),
                sep,
            ),
            seg == 0 ==> out@.len() == 0,
        decreases n - j,
    {
        if cs[j] == sep {
            let piece = text.substring_char(seg, j).to_owned();
            proof {
                lemma_last_sep(cs@, sep, seg as int, j as int);
                if seg > 0 {
                    assert(cs@.take(j as int).take(seg - 1) =~= cs@.take(seg - 1));
                }
                assert(cs@.take(j as int).skip(seg as int) =~= cs@.subrange(seg as int, j as int));
            }
            let ghost prev = out@;
            out.push(piece);
            assert(strings_view(out@) =~= strings_view(prev).push(piece@));
            assert(strings_view(out@) =~= split_on(cs@.take(j as int), sep));
            seg = j + 1;
        }
        j = j + 1;
    }
    let last = text.substring_char(seg, n).to_owned();
    proof {
        lemma_last_sep(cs@, sep, seg as int, n as int);
        assert(cs@.take(n as int) =~= cs@);
        assert(cs@.skip(seg as int) =~= cs@.subrange(seg as int, n as int));
    }
    let ghost prev = out@;
    out.push(last);
    assert(strings_view(out@) =~= strings_view(prev).push(last@));
    out
}

/// The pieces `segs` joined with `sep` between consecutive pieces.
pub open spec fn join_on(segs: Seq<Seq<char>>, sep: char) -> Seq<char>
    decreases segs.len(),
{
    if segs.len() == 0 {
        Seq::empty()
    } else if segs.len() == 1 {
        segs[0]
    } else {
        join_on(segs.drop_last(), sep) + seq![sep] + segs.last()
    }
}

/// Splitting on a separator loses nothing: there is at least one piece, no
/// piece holds the separator, and joining the pieces with it gives back the
/// text.
pub proof fn law_split_join(s: Seq<char>, sep: char)
    ensures
        split_on(s, sep).len() >= 1,
        join_on(split_on(s, sep), sep) == s,
        forall|i: int|
            0 <= i < split_on(s, sep).len() ==> !(#[trigger] split_on(s, sep)[i]).contains(sep),
    decreases s.len(),
{
    lemma_last_index_bounds(s, sep);
    match last_index_of(s, sep) {
        Some(i) => {
            let head = s.take(i);
            law_split_join(head, sep);
            let pieces = split_on(s, sep);
            assert(pieces == split_on(head, sep).push(s.skip(i + 1)));
            assert(pieces.drop_last() =~= split_on(head, sep));
            assert(join_on(pieces, sep) =~= s) by {
                assert(join_on(pieces, sep) == head + seq![sep] + s.skip(i + 1));
            }
            assert forall|j: int| 0 <= j < pieces.len() implies !(#[trigger] pieces[j]).contains(
                sep,
            ) by {
                if j < pieces.len() - 1 {
                    assert(pieces[j] == split_on(head, sep)[j]);
                } else {
                    let tail = s.skip(i + 1);
                    if tail.contains(sep) {
                        let k = choose|k: int| 0 <= k < tail.len() && tail[k] == sep;
                        assert(s[i + 1 + k] == sep);
                    }
                }
            }
        },
        None => {
            if s.contains(sep) {
                let k = choose|k: int| 0 <= k < s.len() && s[k] == sep;
            }
        },
    }
}

} // verus!
