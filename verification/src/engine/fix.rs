//! Auto-fix: removing unused translation keys from locale documents.
//!
//! Removing a translation key deletes every member whose flattened path is
//! the key, whatever its value (whether the dots of the path come from
//! nesting or from member names that hold dots), then every object that the
//! deletion left empty.
use vstd::prelude::*;
use crate::engine::json::{
    JsonValue, JsonView, is_empty_object, is_empty_object_view, json_view, lemma_object_view,
    members_view, parse_json, render_json, spec_parse_json, spec_render_json,
};
use crate::engine::analysis::{UnusedKey, UnusedKeyView, unused_view};
use crate::engine::locale::{
    child_key, child_prefix, flatten, flatten_members, law_flattened_keys_nonempty,
};
use crate::engine::text::{chars_of, law_split_join, split_on, split_str, strings_view, text_view};

verus! {

// ---------------------------------------------------------------------------
// Removal
// ---------------------------------------------------------------------------

/// The document `v`, reached under `prefix`, without the members whose
/// flattened path is `key` (whatever their value: a string, a number, an
/// array, an object, ...), and whether any was removed.  A member name may
/// itself hold dots (`"cashDescription.default"`): what counts is the
/// flattened path, built as [`flatten`] builds keys.  Each object that a
/// removal left empty is removed from its parent in turn.
pub open spec fn strip(v: JsonView, prefix: Seq<char>, key: Seq<char>) -> (JsonView, bool)
    decreases v,
{
    match v {
        JsonView::Object(ms) => {
            let (kept, removed) = strip_members(ms, prefix, key);
            (JsonView::Object(kept), removed)
        },
        _ => (v, false),
    }
}

/// The members `ms` of an object reached under `prefix`, stripped of `key`
/// as [`strip`] does, and whether anything was removed.
pub open spec fn strip_members(ms: Seq<(Seq<char>, JsonView)>, prefix: Seq<char>, key: Seq<char>) -> (
    Seq<(Seq<char>, JsonView)>,
    bool,
)
    decreases ms,
{
    if ms.len() == 0 {
        (Seq::empty(), false)
    } else {
        let (kept, removed) = strip_members(ms.drop_last(), prefix, key);
        let name = ms.last().0;
        let child = ms.last().1;
        let p = child_prefix(prefix, name);
        if key.len() > 0 && p == key {
            (kept, true)
        } else {
            match child {
                JsonView::Object(_) => {
                    let (c, r) = strip(child, p, key);
                    if r && is_empty_object_view(c) {
                        (kept, true)
                    } else {
                        (kept.push((name, c)), removed || r)
                    }
                },
                _ => (kept.push((name, child)), removed),
            }
        }
    }
}

/// The locale document `v` after removing the translation key `key`, and
/// whether any member had that flattened path.
pub open spec fn removal(v: JsonView, key: Seq<char>) -> (JsonView, bool) {
    strip(v, Seq::empty(), key)
}

/// Removes from `value`, reached under `prefix`, the members whose flattened
/// path is `key`.
fn strip_value(value: &mut JsonValue, prefix: &String, key: &String) -> (removed: bool)
    ensures
        (json_view(*final(value)), removed) == strip(json_view(*old(value)), prefix@, key@),
    decreases *old(value),
{
    let ghost ov = *value;
    match value {
        JsonValue::Object(entries) => {
            let ghost orig = *entries;
            let ghost ms = members_view(orig@);
            proof {
                lemma_object_view(orig);
            }
            let n = entries.len();
            let mut rest: Vec<(String, JsonValue)> = Vec::new();
            std::mem::swap(entries, &mut rest);
            let mut removed = false;
            let mut i: usize = 0;
            assert(ms.take(0) =~= Seq::<(Seq<char>, JsonView)>::empty());
            assert(members_view(entries@) =~= Seq::<(Seq<char>, JsonView)>::empty());
            assert(orig@.skip(0) =~= orig@);
            while rest.len() > 0
                invariant
                    i + rest@.len() == orig@.len(),
                    n == orig@.len(),
                    rest@ == orig@.skip(i as int),
                    ms == members_view(orig@),
                    ov == *old(value),
                    ov == JsonValue::Object(orig),
                    strip_members(ms.take(i as int), prefix@, key@) == (
                        members_view(entries@),
                        removed,
                    ),
                decreases rest@.len(),
            {
                let ghost before = members_view(entries@);
                let (name, mut child) = rest.remove(0);
                assert(orig@[i as int] == (name, child));
                assert(rest@ =~= orig@.skip(i + 1));
                assert(ms.take(i + 1).drop_last() =~= ms.take(i as int));
                assert(ms.take(i + 1).last() == (name@, json_view(child)));
                let p = child_key(prefix, &name);
                let is_object = match &child {
                    JsonValue::Object(_) => true,
                    _ => false,
                };
                if !key.as_str().is_empty() && p == *key {
                    removed = true;
                } else if is_object {
                    proof {
                        assert(ov->Object_0 == orig);
                        assert(decreases_to!(ov => ov->Object_0));
                        assert(decreases_to!(orig => orig@));
                        assert(decreases_to!(orig@ => orig@[i as int]));
                        assert(decreases_to!(orig@[i as int] => orig@[i as int].1));
                        assert(decreases_to!(ov => child));
                    }
                    let ghost c0 = json_view(child);
                    let r = strip_value(&mut child, &p, key);
                    if r && is_empty_object(&child) {
                        removed = true;
                    } else {
                        let ghost cv = json_view(child);
                        entries.push((name, child));
                        assert(members_view(entries@) =~= before.push((name@, cv)));
                        removed = removed || r;
                    }
                } else {
                    let ghost cv = json_view(child);
                    entries.push((name, child));
                    assert(members_view(entries@) =~= before.push((name@, cv)));
                }
                i = i + 1;
            }
            assert(ms.take(i as int) =~= ms);
            proof {
                lemma_object_view(*entries);
            }
            removed
        },
        _ => false,
    }
}

/// Removes the translation key `key` from a locale document.
pub fn remove_key(root: &mut JsonValue, key: &str) -> (removed: bool)
    ensures
        (json_view(*final(root)), removed) == removal(json_view(*old(root)), key@),
{
    let prefix = String::new();
    let k = key.to_owned();
    strip_value(root, &prefix, &k)
}

/// The document after removing each key of `keys` in turn, and how many of
/// them it held at that point.
pub open spec fn removals(v: JsonView, keys: Seq<Seq<char>>) -> (JsonView, nat)
    decreases keys.len(),
{
    if keys.len() == 0 {
        (v, 0)
    } else {
        let (before, count) = removals(v, keys.drop_last());
        let (after, removed) = removal(before, keys.last());
        (after, if removed {
            count + 1
        } else {
            count
        })
    }
}

/// Removes each of `keys` from a locale document in turn and returns how
/// many of them it held.
pub fn remove_keys(root: &mut JsonValue, keys: &Vec<String>) -> (removed: usize)
    ensures
        (json_view(*final(root)), removed as nat) == removals(
            json_view(*old(root)),
            strings_view(keys@),
        ),
{
    let ghost ks = strings_view(keys@);
    let mut count: usize = 0;
    let mut i: usize = 0;
    while i < keys.len()
        invariant
            i <= keys@.len(),
            ks == strings_view(keys@),
            count <= i,
            (json_view(*root), count as nat) == removals(json_view(*old(root)), ks.take(i as int)),
        decreases keys@.len() - i,
    {
        assert(ks.take(i + 1).drop_last() =~= ks.take(i as int));
        assert(ks.take(i + 1).last() == keys@[i as int]@);
        if remove_key(root, keys[i].as_str()) {
            count = count + 1;
        }
        i = i + 1;
    }
    assert(ks.take(keys@.len() as int) =~= ks);
    count
}

/// The text written back for a fixed document: its rendering and a final
/// newline, or `None` where rendering fails.
pub open spec fn written_text(v: JsonView) -> Option<Seq<char>> {
    match spec_render_json(v) {
        Some(t) => Some(t.push('\n')),
        None => None,
    }
}

/// Auto-fix of one locale file whose text is `text`: removes `keys` from
/// its document and gives how many it held, with the text to write back
/// when any was removed.  `None` when the text is not JSON; no text to write
/// when nothing was removed or the document cannot be rendered.
pub fn fix_document(text: &str, keys: &Vec<String>) -> (r: Option<(usize, Option<String>)>)
    ensures
        spec_parse_json(text@) is None <==> r is None,
        r matches Some((n, out)) ==> spec_parse_json(text@) matches Some(doc) && {
            let (fixed, count) = removals(doc, strings_view(keys@));
            &&& n as nat == count
            &&& text_view(out) == if n > 0 {
                written_text(fixed)
            } else {
                None
            }
        },
{
    match parse_json(text) {
        Some(mut document) => {
            let n = remove_keys(&mut document, keys);
            if n == 0 {
                return Some((0, None));
            }
            match render_json(&document) {
                Some(rendered) => {
                    let mut out = rendered;
                    out.append("\n");
                    proof {
                        reveal_strlit("\n");
                    }
                    assert(out@ =~= spec_render_json(json_view(document))->0.push('\n'));
                    Some((n, Some(out)))
                },
                None => Some((n, None)),
            }
        },
        None => None,
    }
}

/// Summary of auto-fix mutations.
pub struct FixResult {
    /// Number of keys removed from locale files.
    pub removed_keys: usize,
    /// Number of locale files modified.
    pub touched_files: usize,
}

impl FixResult {
    /// No key removed, no file touched.
    pub fn new() -> (r: Self)
        ensures
            r.removed_keys == 0,
            r.touched_files == 0,
    {
        FixResult { removed_keys: 0, touched_files: 0 }
    }

    /// Accounts for one locale file from which `removed` keys were removed,
    /// and tells whether the file has changed and must be written back.
    pub fn record_file(&mut self, removed: usize) -> (rewrite: bool)
        requires
            removed > 0 ==> old(self).removed_keys + removed <= usize::MAX
                && old(self).touched_files < usize::MAX,
        ensures
            rewrite == (removed > 0),
            final(self).removed_keys == old(self).removed_keys + removed,
            final(self).touched_files == old(self).touched_files + if removed > 0 {
                1usize
            } else {
                0usize
            },
    {
        if removed > 0 {
            self.removed_keys = self.removed_keys + removed;
            self.touched_files = self.touched_files + 1;
            true
        } else {
            false
        }
    }
}

// ---------------------------------------------------------------------------
// Locale files in path order
// ---------------------------------------------------------------------------

/// The pieces of `segs` that name something: all but the empty ones and
/// `.`, in order.
pub open spec fn named_pieces(segs: Seq<Seq<char>>) -> Seq<Seq<char>>
    decreases segs.len(),
{
    if segs.len() == 0 {
        Seq::empty()
    } else {
        let rest = named_pieces(segs.drop_last());
        if segs.last().len() > 0 && segs.last() != seq!['.'] {
            rest.push(segs.last())
        } else {
            rest
        }
    }
}

/// The components of a path as `std::path::Path::components` gives them on
/// Unix, each written as a string: `/` for the root (when the path starts
/// with `/`), `.` for a leading current directory (when the path starts with
/// a `.` piece and no root), `..` for a parent directory, and the names
/// between slashes; empty pieces and other `.` pieces are dropped.  Two paths
/// with the same components are equal as `Path`s.
pub open spec fn path_components(p: Seq<char>) -> Seq<Seq<char>> {
    let pieces = split_on(p, '/');
    let head = if p.len() > 0 && p[0] == '/' {
        seq![seq!['/']]
    } else if pieces[0] == seq!['.'] {
        seq![seq!['.']]
    } else {
        Seq::empty()
    };
    head + named_pieces(pieces)
}

/// The rank of a component in the order of `std::path::Component`: the
/// root, then `.`, then `..`, then names.
pub open spec fn part_rank(c: Seq<char>) -> int {
    if c == seq!['/'] {
        0
    } else if c == seq!['.'] {
        1
    } else if c == seq!['.', '.'] {
        2
    } else {
        3
    }
}

/// The order of two components: by rank, and names by code point.
pub open spec fn part_lt(a: Seq<char>, b: Seq<char>) -> bool {
    part_rank(a) < part_rank(b) || (part_rank(a) == 3 && part_rank(b) == 3 && chars_lt(a, b))
}

/// Lexicographic order of strings by code point.
pub open spec fn chars_lt(a: Seq<char>, b: Seq<char>) -> bool
    decreases a.len(),
{
    if a.len() == 0 {
        b.len() > 0
    } else if b.len() == 0 {
        false
    } else if a[0] != b[0] {
        (a[0] as int) < (b[0] as int)
    } else {
        chars_lt(a.drop_first(), b.drop_first())
    }
}

/// Lexicographic order of component sequences, each component compared by
/// [`part_lt`]: the order of `std::path::Path`, in which paths are visited.
pub open spec fn components_lt(a: Seq<Seq<char>>, b: Seq<Seq<char>>) -> bool
    decreases a.len(),
{
    if a.len() == 0 {
        b.len() > 0
    } else if b.len() == 0 {
        false
    } else if a[0] != b[0] {
        part_lt(a[0], b[0])
    } else {
        components_lt(a.drop_first(), b.drop_first())
    }
}

proof fn lemma_seq_eq_by_head<T>(a: Seq<T>, b: Seq<T>)
    requires
        a.len() > 0,
        b.len() > 0,
        a[0] == b[0],
        a.drop_first() == b.drop_first(),
    ensures
        a == b,
{
    assert(a.drop_first().len() == a.len() - 1);
    assert(b.drop_first().len() == b.len() - 1);
    assert forall|k: int| 0 <= k < a.len() implies a[k] == b[k] by {
        if k > 0 {
            assert(a[k] == a.drop_first()[k - 1]);
            assert(b[k] == b.drop_first()[k - 1]);
        }
    }
    assert(a =~= b);
}

proof fn lemma_chars_lt_irreflexive(a: Seq<char>)
    ensures
        !chars_lt(a, a),
    decreases a.len(),
{
    if a.len() > 0 {
        lemma_chars_lt_irreflexive(a.drop_first());
    }
}

proof fn lemma_chars_lt_asymmetric(a: Seq<char>, b: Seq<char>)
    ensures
        chars_lt(a, b) ==> !chars_lt(b, a),
    decreases a.len(),
{
    if a.len() > 0 && b.len() > 0 {
        lemma_chars_lt_asymmetric(a.drop_first(), b.drop_first());
    }
}

proof fn lemma_chars_lt_total(a: Seq<char>, b: Seq<char>)
    ensures
        a != b ==> chars_lt(a, b) || chars_lt(b, a),
    decreases a.len(),
{
    if a.len() > 0 && b.len() > 0 {
        lemma_chars_lt_total(a.drop_first(), b.drop_first());
        assert(a[0] != b[0] ==> (a[0] as int) != (b[0] as int));
        if a[0] == b[0] && a.drop_first() == b.drop_first() {
            lemma_seq_eq_by_head(a, b);
        }
    }
    if a.len() == 0 && b.len() == 0 {
        assert(a =~= b);
    }
}

proof fn lemma_chars_lt_transitive(a: Seq<char>, b: Seq<char>, c: Seq<char>)
    ensures
        chars_lt(a, b) && chars_lt(b, c) ==> chars_lt(a, c),
    decreases a.len(),
{
    if a.len() > 0 && b.len() > 0 && c.len() > 0 {
        lemma_chars_lt_transitive(a.drop_first(), b.drop_first(), c.drop_first());
    }
}

proof fn lemma_part_lt_asymmetric(a: Seq<char>, b: Seq<char>)
    ensures
        part_lt(a, b) ==> !part_lt(b, a),
{
    lemma_chars_lt_asymmetric(a, b);
}

proof fn lemma_part_lt_total(a: Seq<char>, b: Seq<char>)
    ensures
        a != b ==> part_lt(a, b) || part_lt(b, a),
{
    lemma_chars_lt_total(a, b);
}

proof fn lemma_part_lt_transitive(a: Seq<char>, b: Seq<char>, c: Seq<char>)
    ensures
        part_lt(a, b) && part_lt(b, c) ==> part_lt(a, c),
{
    lemma_chars_lt_transitive(a, b, c);
}

proof fn lemma_components_lt_irreflexive(a: Seq<Seq<char>>)
    ensures
        !components_lt(a, a),
    decreases a.len(),
{
    if a.len() > 0 {
        lemma_components_lt_irreflexive(a.drop_first());
    }
}

proof fn lemma_components_lt_asymmetric(a: Seq<Seq<char>>, b: Seq<Seq<char>>)
    ensures
        components_lt(a, b) ==> !components_lt(b, a),
    decreases a.len(),
{
    if a.len() > 0 && b.len() > 0 {
        lemma_components_lt_asymmetric(a.drop_first(), b.drop_first());
        lemma_part_lt_asymmetric(a[0], b[0]);
    }
}

proof fn lemma_components_lt_total(a: Seq<Seq<char>>, b: Seq<Seq<char>>)
    ensures
        a != b ==> components_lt(a, b) || components_lt(b, a),
    decreases a.len(),
{
    if a.len() > 0 && b.len() > 0 {
        lemma_components_lt_total(a.drop_first(), b.drop_first());
        lemma_part_lt_total(a[0], b[0]);
        if a[0] == b[0] && a.drop_first() == b.drop_first() {
            lemma_seq_eq_by_head(a, b);
        }
    }
    if a.len() == 0 && b.len() == 0 {
        assert(a =~= b);
    }
}

proof fn lemma_components_lt_transitive(a: Seq<Seq<char>>, b: Seq<Seq<char>>, c: Seq<Seq<char>>)
    ensures
        components_lt(a, b) && components_lt(b, c) ==> components_lt(a, c),
    decreases a.len(),
{
    if a.len() > 0 && b.len() > 0 && c.len() > 0 {
        lemma_components_lt_transitive(a.drop_first(), b.drop_first(), c.drop_first());
        lemma_part_lt_transitive(a[0], b[0], c[0]);
        lemma_part_lt_asymmetric(a[0], b[0]);
    }
}

/// Whether `a` comes before `b` in code-point order.
fn chars_less(a: &str, b: &str) -> (r: bool)
    ensures
        r == chars_lt(a@, b@),
{
    let ac = chars_of(a);
    let bc = chars_of(b);
    let mut i: usize = 0;
    assert(a@.skip(0) =~= a@);
    assert(b@.skip(0) =~= b@);
    while i < ac.len() && i < bc.len()
        invariant
            ac@ == a@,
            bc@ == b@,
            i <= a@.len(),
            i <= b@.len(),
            chars_lt(a@, b@) == chars_lt(a@.skip(i as int), b@.skip(i as int)),
        decreases a@.len() - i,
    {
        if ac[i] != bc[i] {
            return ac[i] < bc[i];
        }
        assert(a@.skip(i as int).drop_first() =~= a@.skip(i + 1));
        assert(b@.skip(i as int).drop_first() =~= b@.skip(i + 1));
        i = i + 1;
    }
    i < bc.len()
}

/// The rank of component `c` (see [`part_rank`]).
fn rank_of(c: &str) -> (r: u8)
    ensures
        r as int == part_rank(c@),
{
    let cs = chars_of(c);
    if cs.len() == 1 && cs[0] == '/' {
        assert(c@ =~= seq!['/']);
        return 0;
    }
    if cs.len() == 1 && cs[0] == '.' {
        assert(c@ =~= seq!['.']);
        return 1;
    }
    if cs.len() == 2 && cs[0] == '.' && cs[1] == '.' {
        assert(c@ =~= seq!['.', '.']);
        return 2;
    }
    if cs.len() == 1 {
        assert(c@[0] != seq!['/'][0]);
        assert(c@[0] != seq!['.'][0]);
    }
    if cs.len() == 2 {
        if cs[0] != '.' {
            assert(c@[0] != seq!['.', '.'][0]);
        } else {
            assert(c@[1] != seq!['.', '.'][1]);
        }
    }
    3
}

/// Whether component `a` comes before component `b`.
fn part_less(a: &str, b: &str) -> (r: bool)
    ensures
        r == part_lt(a@, b@),
{
    let ra = rank_of(a);
    let rb = rank_of(b);
    if ra != rb {
        ra < rb
    } else if ra == 3 {
        chars_less(a, b)
    } else {
        false
    }
}

/// Whether two component sequences are equal.
fn components_equal(a: &Vec<String>, b: &Vec<String>) -> (r: bool)
    ensures
        r == (strings_view(a@) == strings_view(b@)),
{
    if a.len() != b.len() {
        assert(strings_view(a@).len() != strings_view(b@).len());
        return false;
    }
    let mut i: usize = 0;
    while i < a.len()
        invariant
            a@.len() == b@.len(),
            i <= a@.len(),
            forall|k: int| 0 <= k < i ==> a@[k]@ == b@[k]@,
        decreases a@.len() - i,
    {
        if a[i] != b[i] {
            assert(strings_view(a@)[i as int] != strings_view(b@)[i as int]);
            return false;
        }
        i = i + 1;
    }
    assert(strings_view(a@) =~= strings_view(b@));
    true
}

/// Whether component sequence `a` comes before `b`.
fn components_less(a: &Vec<String>, b: &Vec<String>) -> (r: bool)
    ensures
        r == components_lt(strings_view(a@), strings_view(b@)),
{
    let ghost av = strings_view(a@);
    let ghost bv = strings_view(b@);
    let mut i: usize = 0;
    assert(av.skip(0) =~= av);
    assert(bv.skip(0) =~= bv);
    while i < a.len() && i < b.len()
        invariant
            av == strings_view(a@),
            bv == strings_view(b@),
            i <= a@.len(),
            i <= b@.len(),
            components_lt(av, bv) == components_lt(av.skip(i as int), bv.skip(i as int)),
        decreases a@.len() - i,
    {
        assert(av.skip(i as int)[0] == a@[i as int]@);
        assert(bv.skip(i as int)[0] == b@[i as int]@);
        if a[i] != b[i] {
            return part_less(a[i].as_str(), b[i].as_str());
        }
        assert(av.skip(i as int).drop_first() =~= av.skip(i + 1));
        assert(bv.skip(i as int).drop_first() =~= bv.skip(i + 1));
        i = i + 1;
    }
    i < b.len()
}

/// The components of a path.
fn components_of(path: &str) -> (comps: Vec<String>)
    ensures
        strings_view(comps@) == path_components(path@),
{
    let cs = chars_of(path);
    let pieces = split_str(path, '/');
    let ghost pv = strings_view(pieces@);
    proof {
        law_split_join(path@, '/');
        reveal_strlit("/");
        reveal_strlit(".");
    }
    assert(pv[0] == pieces@[0]@);
    let root = String::from_str("/");
    let dot = String::from_str(".");
    assert(root@ =~= seq!['/']);
    assert(dot@ =~= seq!['.']);
    let ghost head = if path@.len() > 0 && path@[0] == '/' {
        seq![seq!['/']]
    } else if pv[0] == seq!['.'] {
        seq![seq!['.']]
    } else {
        Seq::<Seq<char>>::empty()
    };
    let mut out: Vec<String> = Vec::new();
    if cs.len() > 0 && cs[0] == '/' {
        out.push(root);
    } else if pieces[0] == dot {
        out.push(dot.clone());
    }
    assert(strings_view(out@) =~= head);
    assert(head + named_pieces(pv.take(0)) =~= head);
    let mut i: usize = 0;
    while i < pieces.len()
        invariant
            i <= pieces@.len(),
            pv == strings_view(pieces@),
            pv == split_on(path@, '/'),
            dot@ == seq!['.'],
            strings_view(out@) == head + named_pieces(pv.take(i as int)),
        decreases pieces@.len() - i,
    {
        assert(pv.take(i + 1).drop_last() =~= pv.take(i as int));
        assert(pv.take(i + 1).last() == pieces@[i as int]@);
        if !pieces[i].as_str().is_empty() && pieces[i] != dot {
            let ghost prev = out@;
            out.push(pieces[i].clone());
            assert(strings_view(out@) =~= strings_view(prev).push(pieces@[i as int]@));
            assert(head + named_pieces(pv.take(i + 1)) =~= (head + named_pieces(
                pv.take(i as int),
            )).push(pieces@[i as int]@));
        } else {
            assert(named_pieces(pv.take(i + 1)) == named_pieces(pv.take(i as int)));
        }
        i = i + 1;
    }
    assert(pv.take(pieces@.len() as int) =~= pv);
    out
}

/// The unused keys of one locale file.
pub struct FileKeys {
    /// Path of the locale file.
    pub path: String,
    /// Keys to remove from it, in report order.
    pub keys: Vec<String>,
}

/// Mathematical model of [`FileKeys`].
pub struct FileKeysView {
    pub path: Seq<char>,
    pub keys: Seq<Seq<char>>,
}

impl View for FileKeys {
    type V = FileKeysView;

    open spec fn view(&self) -> FileKeysView {
        FileKeysView { path: self.path@, keys: strings_view(self.keys@) }
    }
}

/// The models of a sequence of file groups.
pub open spec fn file_keys_view(v: Seq<FileKeys>) -> Seq<FileKeysView> {
    v.map_values(|g: FileKeys| g@)
}

/// The keys of the entries whose path has components `c`, in order.
pub open spec fn keys_at(uv: Seq<UnusedKeyView>, c: Seq<Seq<char>>) -> Seq<Seq<char>>
    decreases uv.len(),
{
    if uv.len() == 0 {
        Seq::empty()
    } else {
        let before = keys_at(uv.drop_last(), c);
        if path_components(uv.last().path) == c {
            before.push(uv.last().key)
        } else {
            before
        }
    }
}

/// Index of the first entry whose path has components `c`.
pub open spec fn first_at(uv: Seq<UnusedKeyView>, c: Seq<Seq<char>>) -> Option<int>
    decreases uv.len(),
{
    if uv.len() == 0 {
        None
    } else {
        match first_at(uv.drop_last(), c) {
            Some(i) => Some(i),
            None => if path_components(uv.last().path) == c {
                Some(uv.len() - 1)
            } else {
                None
            },
        }
    }
}

/// `gs` groups the entries `uv` by locale file: one group per file (paths
/// with the same components name the same file), named by the first path
/// seen for it, holding the keys of that file's entries in order, with the
/// groups in path order.
pub open spec fn groups_entries(uv: Seq<UnusedKeyView>, gs: Seq<FileKeysView>) -> bool {
    &&& forall|a: int, b: int|
        0 <= a < b < gs.len() ==> components_lt(
            path_components((#[trigger] gs[a]).path),
            path_components((#[trigger] gs[b]).path),
        )
    &&& forall|a: int|
        0 <= a < gs.len() ==> (first_at(uv, path_components((#[trigger] gs[a]).path)) matches Some(
            i,
        ) && uv[i].path == gs[a].path)
    &&& forall|a: int|
        0 <= a < gs.len() ==> (#[trigger] gs[a]).keys == keys_at(uv, path_components(gs[a].path))
    &&& forall|i: int|
        0 <= i < uv.len() ==> exists|a: int|
            0 <= a < gs.len() && path_components((#[trigger] gs[a]).path) == path_components(
                (#[trigger] uv[i]).path,
            )
}

proof fn lemma_first_at_bounds(uv: Seq<UnusedKeyView>, c: Seq<Seq<char>>)
    ensures
        first_at(uv, c) matches Some(i) ==> 0 <= i < uv.len() && path_components(uv[i].path)
            == c,
        keys_at(uv, c).len() > 0 ==> first_at(uv, c) is Some,
    decreases uv.len(),
{
    if uv.len() > 0 {
        lemma_first_at_bounds(uv.drop_last(), c);
    }
}

/// The unused keys grouped by locale file, in path order.
///
/// The groups are kept in a `Vec` ordered by [`components_lt`] rather than
/// in a `BTreeMap<PathBuf, _>`: `PathBuf` is a type that verified code
/// cannot hold, and vstd's `BTreeMap` contracts speak only of keys whose
/// order Verus knows, which a path's is not.
pub fn group_by_file(unused: &[UnusedKey]) -> (groups: Vec<FileKeys>)
    ensures
        groups_entries(unused_view(unused@), file_keys_view(groups@)),
{
    let ghost uv = unused_view(unused@);
    let mut groups: Vec<FileKeys> = Vec::new();
    let mut comps: Vec<Vec<String>> = Vec::new();
    let mut i: usize = 0;
    while i < unused.len()
        invariant
            i <= unused@.len(),
            uv == unused_view(unused@),
            comps@.len() == groups@.len(),
            forall|a: int|
                0 <= a < comps@.len() ==> strings_view((#[trigger] comps@[a])@) == path_components(
                    groups@[a].path@,
                ),
            groups_entries(uv.take(i as int), file_keys_view(groups@)),
        decreases unused@.len() - i,
    {
        let entry = &unused[i];
        let ghost e = entry@;
        let ghost us = uv.take(i as int);
        let ghost gv = file_keys_view(groups@);
        assert(uv.take(i + 1) =~= us.push(e));
        assert(us.push(e).drop_last() =~= us);
        let c = components_of(entry.path.as_str());
        let ghost cv = strings_view(c@);
        let mut j: usize = 0;
        while j < groups.len() && components_less(&comps[j], &c)
            invariant
                j <= groups@.len(),
                comps@.len() == groups@.len(),
                forall|a: int|
                    0 <= a < comps@.len() ==> strings_view((#[trigger] comps@[a])@)
                        == path_components(groups@[a].path@),
                cv == strings_view(c@),
                gv == file_keys_view(groups@),
                forall|a: int| 0 <= a < j ==> components_lt(path_components((#[trigger] gv[a]).path), cv),
            decreases groups@.len() - j,
        {
            assert(gv[j as int].path == groups@[j as int].path@);
            j = j + 1;
        }
        if j < groups.len() && components_equal(&comps[j], &c) {
            let mut g = groups.remove(j);
            g.keys.push(entry.key.clone());
            groups.insert(j, g);
            proof {
                let ngv = file_keys_view(groups@);
                assert(gv[j as int].path == groups@[j as int].path@);
                assert(path_components(gv[j as int].path) == cv);
                assert forall|a: int| 0 <= a < ngv.len() implies (#[trigger] ngv[a]).path == gv[a].path
                    && ngv[a].keys == keys_at(us.push(e), path_components(ngv[a].path)) by {
                    lemma_first_at_bounds(us, path_components(gv[a].path));
                    if a == j {
                        assert(strings_view(g.keys@) =~= gv[a].keys.push(e.key));
                    }
                }
                assert forall|a: int| 0 <= a < ngv.len() implies (first_at(
                    us.push(e),
                    path_components((#[trigger] ngv[a]).path),
                ) matches Some(k) && us.push(e)[k].path == ngv[a].path) by {
                    lemma_first_at_bounds(us, path_components(gv[a].path));
                    assert(first_at(us, path_components(gv[a].path)) is Some);
                }
                assert forall|k: int| 0 <= k < us.push(e).len() implies exists|a: int|
                    0 <= a < ngv.len() && path_components((#[trigger] ngv[a]).path)
                        == path_components((#[trigger] us.push(e)[k]).path) by {
                    if k < us.len() {
                        assert(us.push(e)[k] == us[k]);
                        let a = choose|a: int|
                            0 <= a < gv.len() && path_components((#[trigger] gv[a]).path)
                                == path_components((#[trigger] us[k]).path);
                        assert(ngv[a].path == gv[a].path);
                    } else {
                        assert(ngv[j as int].path == gv[j as int].path);
                    }
                }
                assert(groups_entries(uv.take(i + 1), ngv));
            }
        } else {
            let mut keys: Vec<String> = Vec::new();
            keys.push(entry.key.clone());
            let g = FileKeys { path: entry.path.clone(), keys };
            let ghost old_comps = comps@;
            let ghost old_groups = groups@;
            groups.insert(j, g);
            comps.insert(j, c);
            proof {
                let ngv = file_keys_view(groups@);
                assert(ngv[j as int].path == e.path);
                assert(path_components(e.path) == cv);
                // no existing group has the new components
                assert forall|a: int| 0 <= a < gv.len() implies path_components(
                    (#[trigger] gv[a]).path,
                ) != cv by {
                    lemma_components_lt_irreflexive(cv);
                    if a >= j {
                        assert(gv[j as int].path == groups@[j as int + 1].path@);
                        lemma_components_lt_total(path_components(gv[j as int].path), cv);
                        if a > j {
                            lemma_components_lt_transitive(
                                cv,
                                path_components(gv[j as int].path),
                                path_components(gv[a].path),
                            );
                            lemma_components_lt_irreflexive(cv);
                        }
                    }
                }
                assert(first_at(us, cv) is None) by {
                    lemma_first_at_bounds(us, cv);
                    if first_at(us, cv) is Some {
                        let k = first_at(us, cv)->0;
                        let a = choose|a: int|
                            0 <= a < gv.len() && path_components((#[trigger] gv[a]).path)
                                == path_components((#[trigger] us[k]).path);
                    }
                }
                assert(keys_at(us, cv).len() == 0) by {
                    lemma_first_at_bounds(us, cv);
                }
                assert forall|a: int, b: int|
                    0 <= a < b < ngv.len() implies components_lt(
                    path_components((#[trigger] ngv[a]).path),
                    path_components((#[trigger] ngv[b]).path),
                ) by {
                    if a < j && b == j {
                    } else if a < j && b > j {
                        assert(ngv[b].path == gv[b - 1].path);
                        lemma_components_lt_transitive(
                            path_components(gv[a].path),
                            cv,
                            path_components(gv[b - 1].path),
                        );
                        if b - 1 > j {
                            assert(gv[j as int].path == groups@[j as int + 1].path@);
                        }
                        lemma_components_lt_total(path_components(gv[j as int].path), cv);
                        lemma_components_lt_transitive(
                            cv,
                            path_components(gv[j as int].path),
                            path_components(gv[b - 1].path),
                        );
                    } else if a == j {
                        assert(ngv[b].path == gv[b - 1].path);
                        assert(gv[j as int].path == groups@[j as int + 1].path@);
                        lemma_components_lt_total(path_components(gv[j as int].path), cv);
                        lemma_components_lt_transitive(
                            cv,
                            path_components(gv[j as int].path),
                            path_components(gv[b - 1].path),
                        );
                    } else if a > j {
                        assert(ngv[a].path == gv[a - 1].path);
                        assert(ngv[b].path == gv[b - 1].path);
                    } else {
                        assert(ngv[a].path == gv[a].path);
                        assert(ngv[b].path == gv[b].path);
                    }
                }
                assert forall|a: int| 0 <= a < ngv.len() implies (#[trigger] ngv[a]).keys
                    == keys_at(us.push(e), path_components(ngv[a].path)) && (first_at(
                    us.push(e),
                    path_components(ngv[a].path),
                ) matches Some(k) && us.push(e)[k].path == ngv[a].path) by {
                    if a == j {
                        assert(strings_view(keys@) =~= seq![e.key]);
                        assert(keys_at(us.push(e), cv) =~= keys_at(us, cv).push(e.key));
                    } else {
                        let b = if a < j {
                            a
                        } else {
                            a - 1
                        };
                        assert(ngv[a] == gv[b]);
                        lemma_first_at_bounds(us, path_components(gv[b].path));
                    }
                }
                assert forall|k: int| 0 <= k < us.push(e).len() implies exists|a: int|
                    0 <= a < ngv.len() && path_components((#[trigger] ngv[a]).path)
                        == path_components((#[trigger] us.push(e)[k]).path) by {
                    if k < us.len() {
                        assert(us.push(e)[k] == us[k]);
                        let a = choose|a: int|
                            0 <= a < gv.len() && path_components((#[trigger] gv[a]).path)
                                == path_components((#[trigger] us[k]).path);
                        if a < j {
                            assert(ngv[a] == gv[a]);
                        } else {
                            assert(ngv[a + 1] == gv[a]);
                        }
                    } else {
                        assert(ngv[j as int].path == e.path);
                    }
                }
                assert forall|a: int| 0 <= a < comps@.len() implies strings_view(
                    (#[trigger] comps@[a])@,
                ) == path_components(groups@[a].path@) by {
                    if a > j {
                        assert(comps@[a] == old_comps[a - 1]);
                        assert(groups@[a] == old_groups[a - 1]);
                    } else if a < j {
                        assert(comps@[a] == old_comps[a]);
                        assert(groups@[a] == old_groups[a]);
                    }
                }
                assert(groups_entries(uv.take(i + 1), ngv));
            }
        }
        i = i + 1;
    }
    assert(uv.take(unused@.len() as int) =~= uv);
    groups
}

// ---------------------------------------------------------------------------
// Properties
// ---------------------------------------------------------------------------

/// Whether `k` lies under `p`: `k` is `p`, a dot, then more.
pub open spec fn key_under(k: Seq<char>, p: Seq<char>) -> bool {
    k.len() > p.len() && k[p.len() as int] == '.' && k.take(p.len() as int) == p
}

/// The flattened paths of all members of `v`, at every depth, reached under
/// `prefix`.
pub open spec fn member_paths(v: JsonView, prefix: Seq<char>) -> Set<Seq<char>>
    decreases v,
{
    match v {
        JsonView::Object(ms) => member_paths_of(ms, prefix),
        _ => Set::empty(),
    }
}

/// The flattened paths of the members `ms` and of all members below them.
pub open spec fn member_paths_of(ms: Seq<(Seq<char>, JsonView)>, prefix: Seq<char>) -> Set<
    Seq<char>,
>
    decreases ms,
{
    if ms.len() == 0 {
        Set::empty()
    } else {
        let p = child_prefix(prefix, ms.last().0);
        member_paths_of(ms.drop_last(), prefix).insert(p).union(member_paths(ms.last().1, p))
    }
}

proof fn lemma_flatten_push(ms: Seq<(Seq<char>, JsonView)>, prefix: Seq<char>, m: (Seq<char>, JsonView))
    ensures
        flatten_members(ms.push(m), prefix) == flatten_members(ms, prefix).union(
            flatten(m.1, child_prefix(prefix, m.0)),
        ),
        member_paths_of(ms.push(m), prefix) == member_paths_of(ms, prefix).insert(
            child_prefix(prefix, m.0),
        ).union(member_paths(m.1, child_prefix(prefix, m.0))),
{
    assert(ms.push(m).drop_last() =~= ms);
}

proof fn lemma_under_child(k: Seq<char>, p: Seq<char>, n: Seq<char>)
    requires
        p.len() > 0,
        k == child_prefix(p, n) || key_under(k, child_prefix(p, n)),
    ensures
        key_under(k, p),
{
    let q = child_prefix(p, n);
    assert(q[p.len() as int] == '.');
    assert(q.take(p.len() as int) =~= p);
    if k != q {
        assert forall|i: int| 0 <= i <= p.len() implies k[i] == q[i] by {
            assert(k.take(q.len() as int)[i] == k[i]);
        }
        assert(k.take(p.len() as int) =~= p);
    }
}

/// Under a non-empty prefix, every flattened key is the prefix or lies under it.
proof fn lemma_flatten_shape(v: JsonView, p: Seq<char>)
    requires
        p.len() > 0,
    ensures
        forall|k: Seq<char>| #[trigger] flatten(v, p).contains(k) ==> k == p || key_under(k, p),
    decreases v,
{
    match v {
        JsonView::Object(ms) => {
            lemma_flatten_members_shape(ms, p);
            assert(flatten(v, p) == flatten_members(ms, p));
        },
        JsonView::String(_) => {
            assert forall|k: Seq<char>| #[trigger] flatten(v, p).contains(k) implies k == p by {}
        },
        _ => {},
    }
}

proof fn lemma_flatten_members_shape(ms: Seq<(Seq<char>, JsonView)>, p: Seq<char>)
    requires
        p.len() > 0,
    ensures
        forall|k: Seq<char>| #[trigger] flatten_members(ms, p).contains(k) ==> key_under(k, p),
    decreases ms,
{
    if ms.len() > 0 {
        lemma_flatten_members_shape(ms.drop_last(), p);
        let q = child_prefix(p, ms.last().0);
        lemma_flatten_shape(ms.last().1, q);
        assert(flatten_members(ms, p) == flatten_members(ms.drop_last(), p).union(
            flatten(ms.last().1, q),
        ));
        assert forall|k: Seq<char>| #[trigger] flatten_members(ms, p).contains(k) implies key_under(
            k,
            p,
        ) by {
            if flatten(ms.last().1, q).contains(k) {
                lemma_under_child(k, p, ms.last().0);
            }
        }
    }
}

/// Under a non-empty prefix, every member path lies under the prefix.
proof fn lemma_paths_shape(v: JsonView, p: Seq<char>)
    requires
        p.len() > 0,
    ensures
        forall|x: Seq<char>| #[trigger] member_paths(v, p).contains(x) ==> key_under(x, p),
    decreases v,
{
    if let JsonView::Object(ms) = v {
        lemma_paths_of_shape(ms, p);
        assert(member_paths(v, p) == member_paths_of(ms, p));
    }
}

proof fn lemma_paths_of_shape(ms: Seq<(Seq<char>, JsonView)>, p: Seq<char>)
    requires
        p.len() > 0,
    ensures
        forall|x: Seq<char>| #[trigger] member_paths_of(ms, p).contains(x) ==> key_under(x, p),
    decreases ms,
{
    if ms.len() > 0 {
        lemma_paths_of_shape(ms.drop_last(), p);
        let q = child_prefix(p, ms.last().0);
        lemma_paths_shape(ms.last().1, q);
        assert(member_paths_of(ms, p) == member_paths_of(ms.drop_last(), p).insert(q).union(
            member_paths(ms.last().1, q),
        ));
        assert forall|x: Seq<char>| #[trigger] member_paths_of(ms, p).contains(x) implies key_under(
            x,
            p,
        ) by {
            if x == q || member_paths(ms.last().1, q).contains(x) {
                lemma_under_child(x, p, ms.last().0);
            }
        }
    }
}

/// The flattened keys of an object are paths of its members.
proof fn lemma_flatten_in_paths(ms: Seq<(Seq<char>, JsonView)>, p: Seq<char>)
    ensures
        flatten_members(ms, p).subset_of(member_paths_of(ms, p)),
    decreases ms,
{
    if ms.len() > 0 {
        lemma_flatten_in_paths(ms.drop_last(), p);
        let q = child_prefix(p, ms.last().0);
        assert(flatten_members(ms, p) == flatten_members(ms.drop_last(), p).union(
            flatten(ms.last().1, q),
        ));
        assert(member_paths_of(ms, p) == member_paths_of(ms.drop_last(), p).insert(q).union(
            member_paths(ms.last().1, q),
        ));
        if let JsonView::Object(cms) = ms.last().1 {
            lemma_flatten_in_paths(cms, q);
        }
        assert(flatten(ms.last().1, q).subset_of(member_paths_of(ms, p)));
    }
}

proof fn lemma_strip(v: JsonView, p: Seq<char>, key: Seq<char>)
    ensures
        flatten(strip(v, p, key).0, p).subset_of(flatten(v, p)),
        forall|k: Seq<char>|
            #[trigger] flatten(v, p).contains(k) && k != key && !key_under(k, key) ==> flatten(
                strip(v, p, key).0,
                p,
            ).contains(k),
        member_paths(strip(v, p, key).0, p).subset_of(member_paths(v, p)),
        key.len() > 0 ==> !member_paths(strip(v, p, key).0, p).contains(key),
        strip(v, p, key).1 == (key.len() > 0 && member_paths(v, p).contains(key)),
        v is Object <==> strip(v, p, key).0 is Object,
        !(v is Object) ==> strip(v, p, key).0 == v,
        forall|x: Seq<char>|
            #[trigger] member_paths(v, p).contains(x) && x.len() > 0 && x != key && !key_under(
                x,
                key,
            ) && !key_under(key, x) ==> member_paths(strip(v, p, key).0, p).contains(x),
    decreases v,
{
    if let JsonView::Object(ms) = v {
        lemma_strip_members(ms, p, key);
    }
}

proof fn lemma_strip_members(ms: Seq<(Seq<char>, JsonView)>, prefix: Seq<char>, key: Seq<char>)
    ensures
        flatten_members(strip_members(ms, prefix, key).0, prefix).subset_of(
            flatten_members(ms, prefix),
        ),
        forall|k: Seq<char>|
            #[trigger] flatten_members(ms, prefix).contains(k) && k != key && !key_under(k, key)
                ==> flatten_members(strip_members(ms, prefix, key).0, prefix).contains(k),
        member_paths_of(strip_members(ms, prefix, key).0, prefix).subset_of(
            member_paths_of(ms, prefix),
        ),
        key.len() > 0 ==> !member_paths_of(strip_members(ms, prefix, key).0, prefix).contains(key),
        strip_members(ms, prefix, key).1 == (key.len() > 0 && member_paths_of(ms, prefix).contains(
            key,
        )),
        forall|x: Seq<char>|
            #[trigger] member_paths_of(ms, prefix).contains(x) && x.len() > 0 && x != key
                && !key_under(x, key) && !key_under(key, x) ==> member_paths_of(
                strip_members(ms, prefix, key).0,
                prefix,
            ).contains(x),
    decreases ms,
{
    if ms.len() > 0 {
        let init = ms.drop_last();
        let (kept, r1) = strip_members(init, prefix, key);
        lemma_strip_members(init, prefix, key);
        let name = ms.last().0;
        let child = ms.last().1;
        let p = child_prefix(prefix, name);
        let fk = flatten_members(kept, prefix);
        let pk = member_paths_of(kept, prefix);
        assert(flatten_members(ms, prefix) == flatten_members(init, prefix).union(flatten(child, p)));
        assert(member_paths_of(ms, prefix) == member_paths_of(init, prefix).insert(p).union(
            member_paths(child, p),
        ));
        if key.len() > 0 && p == key {
            lemma_flatten_shape(child, p);
            lemma_paths_shape(child, p);
        } else {
            match child {
                JsonView::Object(cms) => {
                    let (c, r) = strip(child, p, key);
                    lemma_strip(child, p, key);
                    if r && is_empty_object_view(c) {
                        assert(flatten(c, p) =~= Set::<Seq<char>>::empty());
                        assert(member_paths(c, p) =~= Set::<Seq<char>>::empty());
                        if p.len() > 0 {
                            lemma_paths_shape(child, p);
                        }
                    } else {
                        lemma_flatten_push(kept, prefix, (name, c));
                    }
                },
                _ => {
                    lemma_flatten_push(kept, prefix, (name, child));
                },
            }
        }
    }
}

/// Removing a key deletes every member whose flattened path is the key,
/// whatever its value, and reports success exactly when there was one.
/// Afterwards no key is new, the key itself is gone, and every key that is
/// neither the key nor lies under it stays.
pub proof fn law_removal_deletes_the_key(v: JsonView, key: Seq<char>)
    ensures
        flatten(removal(v, key).0, Seq::empty()).subset_of(flatten(v, Seq::empty())),
        !flatten(removal(v, key).0, Seq::empty()).contains(key),
        forall|k: Seq<char>|
            #[trigger] flatten(v, Seq::empty()).contains(k) && k != key && !key_under(k, key)
                ==> flatten(removal(v, key).0, Seq::empty()).contains(k),
        removal(v, key).1 == (key.len() > 0 && member_paths(v, Seq::empty()).contains(key)),
        flatten(v, Seq::empty()).contains(key) ==> removal(v, key).1,
{
    let e = Seq::<char>::empty();
    lemma_strip(v, e, key);
    let after = removal(v, key).0;
    law_flattened_keys_nonempty(after, key);
    law_flattened_keys_nonempty(v, key);
    if let JsonView::Object(ms) = after {
        lemma_flatten_in_paths(ms, e);
    }
    if let JsonView::Object(ms) = v {
        lemma_flatten_in_paths(ms, e);
    }
}

/// What auto-fix with `keys` does to the document `v`: no key is new, no
/// listed key is left (as a key or as a member path), and every key that is
/// neither listed nor lies under a listed key stays.
proof fn lemma_removals(v: JsonView, keys: Seq<Seq<char>>)
    ensures
        flatten(removals(v, keys).0, Seq::empty()).subset_of(flatten(v, Seq::empty())),
        member_paths(removals(v, keys).0, Seq::empty()).subset_of(member_paths(v, Seq::empty())),
        forall|k: Seq<char>| #[trigger] keys.contains(k) ==> !flatten(
            removals(v, keys).0,
            Seq::empty(),
        ).contains(k),
        forall|k: Seq<char>| #[trigger]
            keys.contains(k) && k.len() > 0 ==> !member_paths(
                removals(v, keys).0,
                Seq::empty(),
            ).contains(k),
        forall|k: Seq<char>|
            #[trigger] flatten(v, Seq::empty()).contains(k) && (forall|j: int|
                0 <= j < keys.len() ==> keys[j] != k && !key_under(k, keys[j])) ==> flatten(
                removals(v, keys).0,
                Seq::empty(),
            ).contains(k),
    decreases keys.len(),
{
    let e = Seq::<char>::empty();
    if keys.len() > 0 {
        let init = keys.drop_last();
        let last = keys.last();
        lemma_removals(v, init);
        let before = removals(v, init).0;
        law_removal_deletes_the_key(before, last);
        lemma_strip(before, e, last);
        let after = removals(v, keys).0;
        assert forall|k: Seq<char>| #[trigger] keys.contains(k) implies !flatten(after, e).contains(
            k,
        ) by {
            let j = choose|j: int| 0 <= j < keys.len() && keys[j] == k;
            if j < init.len() {
                assert(init[j] == k);
                assert(init.contains(k));
            }
        }
        assert forall|k: Seq<char>| #[trigger] keys.contains(k) && k.len() > 0 implies !member_paths(
            after,
            e,
        ).contains(k) by {
            let j = choose|j: int| 0 <= j < keys.len() && keys[j] == k;
            if j < init.len() {
                assert(init[j] == k);
                assert(init.contains(k));
            }
        }
        assert forall|k: Seq<char>|
            #[trigger] flatten(v, e).contains(k) && (forall|j: int|
                0 <= j < keys.len() ==> keys[j] != k && !key_under(k, keys[j])) implies flatten(
            after,
            e,
        ).contains(k) by {
            assert forall|j: int| 0 <= j < init.len() implies init[j] != k && !key_under(
                k,
                init[j],
            ) by {
                assert(init[j] == keys[j]);
            }
            assert(keys[keys.len() - 1] == last);
        }
    }
}

/// Auto-fix removes the listed keys and keeps the others: afterwards no key
/// is new, no listed key is left, and every key that is neither listed nor
/// lies under a listed key stays.
pub proof fn law_removals_remove_listed_keys(v: JsonView, keys: Seq<Seq<char>>)
    ensures
        flatten(removals(v, keys).0, Seq::empty()).subset_of(flatten(v, Seq::empty())),
        forall|k: Seq<char>| #[trigger] keys.contains(k) ==> !flatten(
            removals(v, keys).0,
            Seq::empty(),
        ).contains(k),
        forall|k: Seq<char>|
            #[trigger] flatten(v, Seq::empty()).contains(k) && (forall|j: int|
                0 <= j < keys.len() ==> keys[j] != k && !key_under(k, keys[j])) ==> flatten(
                removals(v, keys).0,
                Seq::empty(),
            ).contains(k),
{
    lemma_removals(v, keys);
}

/// The flattened paths of the members of `v` (at every depth, reached under
/// `prefix`) whose value is an empty object.
pub open spec fn empty_object_paths(v: JsonView, prefix: Seq<char>) -> Set<Seq<char>>
    decreases v,
{
    match v {
        JsonView::Object(ms) => empty_object_paths_of(ms, prefix),
        _ => Set::empty(),
    }
}

/// [`empty_object_paths`] of the members `ms`.
pub open spec fn empty_object_paths_of(ms: Seq<(Seq<char>, JsonView)>, prefix: Seq<char>) -> Set<
    Seq<char>,
>
    decreases ms,
{
    if ms.len() == 0 {
        Set::empty()
    } else {
        let p = child_prefix(prefix, ms.last().0);
        let here = if is_empty_object_view(ms.last().1) {
            set![p]
        } else {
            Set::empty()
        };
        empty_object_paths_of(ms.drop_last(), prefix).union(here).union(
            empty_object_paths(ms.last().1, p),
        )
    }
}

proof fn lemma_strip_keeps_empty_objects(v: JsonView, p: Seq<char>, key: Seq<char>)
    ensures
        !strip(v, p, key).1 ==> strip(v, p, key).0 == v,
        empty_object_paths(strip(v, p, key).0, p).subset_of(empty_object_paths(v, p)),
    decreases v,
{
    if let JsonView::Object(ms) = v {
        lemma_strip_members_keeps_empty_objects(ms, p, key);
        if !strip(v, p, key).1 {
            assert(strip_members(ms, p, key).0 == ms);
        }
    }
}

proof fn lemma_strip_members_keeps_empty_objects(
    ms: Seq<(Seq<char>, JsonView)>,
    prefix: Seq<char>,
    key: Seq<char>,
)
    ensures
        !strip_members(ms, prefix, key).1 ==> strip_members(ms, prefix, key).0 == ms,
        empty_object_paths_of(strip_members(ms, prefix, key).0, prefix).subset_of(
            empty_object_paths_of(ms, prefix),
        ),
    decreases ms,
{
    if ms.len() > 0 {
        let init = ms.drop_last();
        let (kept, r1) = strip_members(init, prefix, key);
        lemma_strip_members_keeps_empty_objects(init, prefix, key);
        let name = ms.last().0;
        let child = ms.last().1;
        let p = child_prefix(prefix, name);
        let whole = empty_object_paths_of(ms, prefix);
        let here = if is_empty_object_view(child) {
            set![p]
        } else {
            Set::empty()
        };
        assert(whole == empty_object_paths_of(init, prefix).union(here).union(
            empty_object_paths(child, p),
        ));
        assert(init.push(ms.last()) =~= ms);
        if !(key.len() > 0 && p == key) {
            match child {
                JsonView::Object(_) => {
                    let (c, r) = strip(child, p, key);
                    lemma_strip_keeps_empty_objects(child, p, key);
                    if !(r && is_empty_object_view(c)) {
                        let res = kept.push((name, c));
                        assert(res.drop_last() =~= kept);
                        assert(empty_object_paths_of(res, prefix) == empty_object_paths_of(
                            kept,
                            prefix,
                        ).union(
                            if is_empty_object_view(c) {
                                set![p]
                            } else {
                                Set::empty()
                            },
                        ).union(empty_object_paths(c, p)));
                    }
                },
                _ => {
                    let res = kept.push((name, child));
                    assert(res.drop_last() =~= kept);
                },
            }
        }
    }
}

/// Removal leaves no empty object behind: every object that a removal
/// emptied is removed in turn, at every depth, so each empty object of the
/// document afterwards was already an empty object at the same path.
pub proof fn law_removal_leaves_no_new_empty_object(v: JsonView, key: Seq<char>)
    ensures
        empty_object_paths(removal(v, key).0, Seq::empty()).subset_of(
            empty_object_paths(v, Seq::empty()),
        ),
{
    lemma_strip_keeps_empty_objects(v, Seq::empty(), key);
}

/// Auto-fix with any list of keys leaves no empty object behind that was not
/// there before.
pub proof fn law_fix_leaves_no_new_empty_object(v: JsonView, keys: Seq<Seq<char>>)
    ensures
        empty_object_paths(removals(v, keys).0, Seq::empty()).subset_of(
            empty_object_paths(v, Seq::empty()),
        ),
    decreases keys.len(),
{
    if keys.len() > 0 {
        law_fix_leaves_no_new_empty_object(v, keys.drop_last());
        law_removal_leaves_no_new_empty_object(removals(v, keys.drop_last()).0, keys.last());
    }
}

/// How many of `keys` the set `present` holds, counted with repetition.
pub open spec fn count_present(keys: Seq<Seq<char>>, present: Set<Seq<char>>) -> nat
    decreases keys.len(),
{
    if keys.len() == 0 {
        0
    } else {
        count_present(keys.drop_last(), present) + if present.contains(keys.last()) {
            1nat
        } else {
            0nat
        }
    }
}

proof fn lemma_path_survives(v: JsonView, keys: Seq<Seq<char>>, x: Seq<char>)
    requires
        member_paths(v, Seq::empty()).contains(x),
        x.len() > 0,
        forall|j: int|
            0 <= j < keys.len() ==> x != #[trigger] keys[j] && !key_under(x, keys[j]) && !key_under(
                keys[j],
                x,
            ),
    ensures
        member_paths(removals(v, keys).0, Seq::empty()).contains(x),
    decreases keys.len(),
{
    if keys.len() > 0 {
        let init = keys.drop_last();
        assert forall|j: int| 0 <= j < init.len() implies x != #[trigger] init[j] && !key_under(
            x,
            init[j],
        ) && !key_under(init[j], x) by {
            assert(init[j] == keys[j]);
        }
        lemma_path_survives(v, init, x);
        lemma_strip(removals(v, init).0, Seq::empty(), keys.last());
        assert(keys[keys.len() - 1] == keys.last());
    }
}

/// When the listed keys are distinct, none empty and none under another,
/// the removed count is the number of listed keys that name a member of the
/// document as it was.
pub proof fn law_removed_count_is_keys_present(v: JsonView, keys: Seq<Seq<char>>)
    requires
        keys.no_duplicates(),
        forall|j: int| 0 <= j < keys.len() ==> (#[trigger] keys[j]).len() > 0,
        forall|i: int, j: int|
            0 <= i < keys.len() && 0 <= j < keys.len() ==> !key_under(
                #[trigger] keys[i],
                #[trigger] keys[j],
            ),
    ensures
        removals(v, keys).1 == count_present(keys, member_paths(v, Seq::empty())),
    decreases keys.len(),
{
    if keys.len() > 0 {
        let init = keys.drop_last();
        let last = keys.last();
        assert forall|i: int, j: int|
            0 <= i < init.len() && 0 <= j < init.len() implies !key_under(
            #[trigger] init[i],
            #[trigger] init[j],
        ) by {
            assert(init[i] == keys[i] && init[j] == keys[j]);
        }
        assert forall|j: int| 0 <= j < init.len() implies (#[trigger] init[j]).len() > 0 by {
            assert(init[j] == keys[j]);
        }
        law_removed_count_is_keys_present(v, init);
        lemma_removals(v, init);
        let before = removals(v, init).0;
        lemma_strip(before, Seq::empty(), last);
        assert(last == keys[keys.len() - 1]);
        assert(last.len() > 0);
        if member_paths(v, Seq::empty()).contains(last) {
            assert forall|j: int| 0 <= j < init.len() implies last != #[trigger] init[j]
                && !key_under(last, init[j]) && !key_under(init[j], last) by {
                assert(init[j] == keys[j]);
                assert(keys[j] != keys[keys.len() - 1]);
            }
            lemma_path_survives(v, init, last);
        }
    }
}

proof fn lemma_absent_keys_untouched(w: JsonView, keys: Seq<Seq<char>>)
    requires
        forall|k: Seq<char>| #[trigger]
            keys.contains(k) && k.len() > 0 ==> !member_paths(w, Seq::empty()).contains(k),
    ensures
        removals(w, keys).1 == 0,
    decreases keys.len(),
{
    if keys.len() > 0 {
        let init = keys.drop_last();
        assert forall|k: Seq<char>| #[trigger] init.contains(k) && k.len() > 0 implies !member_paths(
            w,
            Seq::empty(),
        ).contains(k) by {
            let j = choose|j: int| 0 <= j < init.len() && init[j] == k;
            assert(keys[j] == k);
            assert(keys.contains(k));
        }
        lemma_absent_keys_untouched(w, init);
        lemma_removals(w, init);
        law_removal_deletes_the_key(removals(w, init).0, keys.last());
        assert(keys.contains(keys[keys.len() - 1]));
    }
}

/// Running auto-fix again with the same keys removes nothing.
pub proof fn law_fix_again_removes_nothing(v: JsonView, keys: Seq<Seq<char>>)
    ensures
        removals(removals(v, keys).0, keys).1 == 0,
{
    lemma_removals(v, keys);
    lemma_absent_keys_untouched(removals(v, keys).0, keys);
}

/// The count of removed keys never exceeds the number of keys asked for.
pub proof fn law_removed_count_bounded(v: JsonView, keys: Seq<Seq<char>>)
    ensures
        removals(v, keys).1 <= keys.len(),
    decreases keys.len(),
{
    if keys.len() > 0 {
        law_removed_count_bounded(v, keys.drop_last());
    }
}

} // verus!
