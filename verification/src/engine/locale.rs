//! Locale catalogs: namespaces and flattened translation keys.
use vstd::prelude::*;
use crate::engine::json::{
    JsonValue, JsonView, json_view, lemma_object_view, members_view, parse_json, spec_parse_json,
};
use crate::engine::text::{
    chars_of, contains_string, extension, extension_dot_index, normalize_slashes, path_trimmed, stem_end, trimmed_len,
    slashes_normalized, strings_view, without_extension,
};

verus! {

/// One locale file: its namespace, its path and its flattened keys.
pub struct LocaleFile {
    /// Namespace: the file's path relative to the locale root, without
    /// extension, with `/` as separator.
    pub namespace: String,
    /// Path of the locale file.
    pub path: String,
    /// Flattened keys defined by the file, each once (a `Vec` without
    /// repeats: vstd's `HashSet` contracts prove nothing for `String`s).
    pub keys: Vec<String>,
}

/// Mathematical model of [`LocaleFile`].
pub struct LocaleView {
    pub namespace: Seq<char>,
    pub path: Seq<char>,
    pub keys: Seq<Seq<char>>,
}

impl View for LocaleFile {
    type V = LocaleView;

    open spec fn view(&self) -> LocaleView {
        LocaleView { namespace: self.namespace@, path: self.path@, keys: strings_view(self.keys@) }
    }
}

impl LocaleFile {
    /// Whether each key of the file is listed once, as a locale file's key
    /// set holds it.
    pub open spec fn keys_unique(&self) -> bool {
        strings_view(self.keys@).no_duplicates()
    }
}

/// The views of a sequence of locale files.
pub open spec fn locales_view(ls: Seq<LocaleFile>) -> Seq<LocaleView> {
    ls.map_values(|l: LocaleFile| l@)
}

/// The key of a member `k` nested under `prefix`: `prefix.k`, or `k` at top level.
pub open spec fn child_prefix(prefix: Seq<char>, k: Seq<char>) -> Seq<char> {
    if prefix.len() == 0 {
        k
    } else {
        prefix + seq!['.'] + k
    }
}

/// The flattened keys of `v` reached under `prefix`: every string value
/// yields the dotted path of object keys that leads to it (top-level strings
/// yield nothing); arrays, numbers, booleans and null yield nothing.
pub open spec fn flatten(v: JsonView, prefix: Seq<char>) -> Set<Seq<char>>
    decreases v,
{
    match v {
        JsonView::Object(ms) => flatten_members(ms, prefix),
        JsonView::String(_) => if prefix.len() > 0 {
            set![prefix]
        } else {
            Set::empty()
        },
        _ => Set::empty(),
    }
}

/// The flattened keys of object members under `prefix`.
pub open spec fn flatten_members(ms: Seq<(Seq<char>, JsonView)>, prefix: Seq<char>) -> Set<
    Seq<char>,
>
    decreases ms,
{
    if ms.len() == 0 {
        Set::empty()
    } else {
        flatten_members(ms.drop_last(), prefix).union(
            flatten(ms.last().1, child_prefix(prefix, ms.last().0)),
        )
    }
}

/// The key of member `k` under `prefix`.
pub fn child_key(prefix: &String, k: &String) -> (r: String)
    ensures
        r@ == child_prefix(prefix@, k@),
{
    if prefix.as_str().is_empty() {
        k.clone()
    } else {
        let mut r = prefix.clone();
        r.append(".");
        r.append(k.as_str());
        proof {
            reveal_strlit(".");
        }
        assert(r@ =~= prefix@ + seq!['.'] + k@);
        r
    }
}

/// Adds `s` to `out` unless it is already there.
fn insert_unique(out: &mut Vec<String>, s: String)
    requires
        strings_view(old(out)@).no_duplicates(),
    ensures
        strings_view(final(out)@).no_duplicates(),
        strings_view(final(out)@).to_set() == strings_view(old(out)@).to_set().insert(s@),
{
    broadcast use vstd::seq::Seq::lemma_push_to_set_commute;

    if !contains_string(out, &s) {
        let ghost sv = s@;
        out.push(s);
        assert(strings_view(out@) =~= strings_view(old(out)@).push(sv));
    } else {
        assert(strings_view(out@).to_set() =~= strings_view(old(out)@).to_set().insert(s@));
    }
}

/// Adds the flattened keys of `value` under `prefix` to `out`.
fn flatten_into(value: &JsonValue, prefix: &String, out: &mut Vec<String>)
    requires
        strings_view(old(out)@).no_duplicates(),
    ensures
        strings_view(final(out)@).no_duplicates(),
        strings_view(final(out)@).to_set() == strings_view(old(out)@).to_set().union(
            flatten(json_view(*value), prefix@),
        ),
    decreases value,
{
    match value {
        JsonValue::Object(entries) => {
            let ghost es = members_view(entries@);
            proof {
                lemma_object_view(*entries);
            }
            assert(es.take(0) =~= Seq::<(Seq<char>, JsonView)>::empty());
            let mut i: usize = 0;
            while i < entries.len()
                invariant
                    i <= es.len(),
                    es == members_view(entries@),
                    es.len() == entries@.len(),
                    json_view(*value) == JsonView::Object(es),
                    *value == JsonValue::Object(*entries),
                    strings_view(out@).no_duplicates(),
                    strings_view(out@).to_set() == strings_view(old(out)@).to_set().union(
                        flatten_members(es.take(i as int), prefix@),
                    ),
                decreases es.len() - i,
            {
                let child = child_key(prefix, &entries[i].0);
                assert(es.take(i + 1).drop_last() =~= es.take(i as int));
                assert(es.take(i + 1).last() == es[i as int]);
                assert(es[i as int] == (entries@[i as int].0@, json_view(entries@[i as int].1)));
                proof {
                    assert(value->Object_0 == *entries);
                    assert(decreases_to!(*value => value->Object_0));
                    assert(decreases_to!(*entries => entries@));
                    assert(decreases_to!(entries@ => entries@[i as int]));
                    assert(decreases_to!(entries@[i as int] => entries@[i as int].1));
                    assert(decreases_to!(*value => entries@[i as int].1));
                }
                flatten_into(&entries[i].1, &child, out);
                assert(strings_view(out@).to_set() =~= strings_view(old(out)@).to_set().union(
                    flatten_members(es.take(i + 1), prefix@),
                ));
                i = i + 1;
            }
            assert(es.take(es.len() as int) =~= es);
        },
        JsonValue::String(_) => {
            if !prefix.as_str().is_empty() {
                insert_unique(out, prefix.clone());
                assert(strings_view(out@).to_set() =~= strings_view(old(out)@).to_set().union(
                    flatten(json_view(*value), prefix@),
                ));
            } else {
                assert(strings_view(out@).to_set() =~= strings_view(old(out)@).to_set().union(
                    flatten(json_view(*value), prefix@),
                ));
            }
        },
        _ => {
            assert(strings_view(out@).to_set() =~= strings_view(old(out)@).to_set().union(
                flatten(json_view(*value), prefix@),
            ));
        },
    }
}

/// The flattened keys of a locale document, each once.
pub fn flatten_keys(value: &JsonValue) -> (keys: Vec<String>)
    ensures
        strings_view(keys@).no_duplicates(),
        strings_view(keys@).to_set() == flatten(json_view(*value), Seq::empty()),
{
    let mut out: Vec<String> = Vec::new();
    let prefix = String::new();
    assert(strings_view(out@).to_set() =~= Set::<Seq<char>>::empty());
    flatten_into(value, &prefix, &mut out);
    assert(strings_view(out@).to_set() =~= flatten(json_view(*value), Seq::empty()));
    out
}

/// The namespace of a locale file from its path relative to the locale
/// root: the extension of the file name is dropped and backslashes become
/// slashes.
pub open spec fn namespace_of(relative: Seq<char>) -> Seq<char> {
    slashes_normalized(without_extension(relative))
}

/// The namespace of a locale file from its path relative to the locale root.
pub fn derive_namespace(relative: &str) -> (ns: String)
    ensures
        ns@ == namespace_of(relative@),
{
    let cs = chars_of(relative);
    let end = stem_end(&cs);
    let stem = relative.substring_char(0, end);
    assert(stem@ =~= without_extension(relative@));
    normalize_slashes(stem)
}

/// The locale file at `path`, found at `relative` under the locale root,
/// whose document is `document`.
pub fn locale_from_json(relative: &str, path: String, document: &JsonValue) -> (locale: LocaleFile)
    ensures
        locale.namespace@ == namespace_of(relative@),
        locale.path@ == path@,
        strings_view(locale.keys@).no_duplicates(),
        strings_view(locale.keys@).to_set() == flatten(json_view(*document), Seq::empty()),
{
    LocaleFile { namespace: derive_namespace(relative), path, keys: flatten_keys(document) }
}

/// The locale file at `path`, found at `relative` under the locale root,
/// whose text is `text`; `None` when the text is not JSON.
pub fn load_locale(relative: &str, path: String, text: &str) -> (r: Option<LocaleFile>)
    ensures
        spec_parse_json(text@) is None <==> r is None,
        r matches Some(locale) ==> spec_parse_json(text@) matches Some(doc) && {
            &&& locale.namespace@ == namespace_of(relative@)
            &&& locale.path@ == path@
            &&& strings_view(locale.keys@).no_duplicates()
            &&& strings_view(locale.keys@).to_set() == flatten(doc, Seq::empty())
        },
{
    match parse_json(text) {
        Some(document) => Some(locale_from_json(relative, path, &document)),
        None => None,
    }
}

/// Whether the file at `path` is a locale catalog: its extension is `json`.
pub fn is_locale_file(path: &str) -> (r: bool)
    ensures
        r == (extension(path@) == Some("json"@)),
{
    let cs = chars_of(path);
    let n = trimmed_len(&cs);
    match extension_dot_index(&cs) {
        Some(d) => {
            assert(path_trimmed(path@).skip(d + 1) =~= path@.subrange(d + 1, n as int));
            path.substring_char(d + 1, n).to_owned() == String::from_str("json")
        },
        None => false,
    }
}

// ---------------------------------------------------------------------------
// Properties
// ---------------------------------------------------------------------------

proof fn lemma_flatten_extends(v: JsonView, prefix: Seq<char>, k: Seq<char>)
    ensures
        flatten(v, prefix).contains(k) ==> k.len() > 0 && prefix.is_prefix_of(k),
    decreases v,
{
    match v {
        JsonView::Object(ms) => {
            lemma_flatten_members_extends(ms, prefix, k);
        },
        _ => {},
    }
}

proof fn lemma_flatten_members_extends(
    ms: Seq<(Seq<char>, JsonView)>,
    prefix: Seq<char>,
    k: Seq<char>,
)
    ensures
        flatten_members(ms, prefix).contains(k) ==> k.len() > 0 && prefix.is_prefix_of(k),
    decreases ms,
{
    if ms.len() > 0 {
        lemma_flatten_members_extends(ms.drop_last(), prefix, k);
        let child = child_prefix(prefix, ms.last().0);
        lemma_flatten_extends(ms.last().1, child, k);
        if flatten(ms.last().1, child).contains(k) {
            assert(prefix.is_prefix_of(child));
            assert forall|i: int| 0 <= i < prefix.len() implies prefix[i] == k[i] by {
                assert(child[i] == prefix[i]);
            }
        }
    }
}

/// Every flattened key is non-empty.
pub proof fn law_flattened_keys_nonempty(v: JsonView, k: Seq<char>)
    ensures
        flatten(v, Seq::empty()).contains(k) ==> k.len() > 0,
{
    lemma_flatten_extends(v, Seq::empty(), k);
}

/// Namespaces always use `/` as separator: they hold no backslash.
pub proof fn law_namespace_has_no_backslash(relative: Seq<char>)
    ensures
        !namespace_of(relative).contains('\\'),
{
    let ns = namespace_of(relative);
    if ns.contains('\\') {
        let i = choose|i: int| 0 <= i < ns.len() && ns[i] == '\\';
        assert(ns[i] == slashes_normalized(without_extension(relative))[i]);
    }
}

} // verus!
