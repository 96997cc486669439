//! The settings file: where locale files and sources live, and which files
//! to skip.
//!
//! The file is written in a subset of TOML:
//!
//! ```toml
//! locales = "./public/locales/en-US"
//! src = "./src"
//!
//! # Optional
//! src_exclude = ["**/*.test.ts", "legacy/**"]
//! locales_exclude = ["Legacy/**"]
//! ```
//!
//! Blanks, blank lines and `#` comments are passed over.  A setting is a key
//! of letters, digits, `_` or `-`, then `=`, then on the same line a string
//! or an array of strings, optionally followed by a comment; the next
//! setting starts on a new line.  A string is double-quoted (with the escapes
//! `\"`, `\\`, `\b`, `\t`, `\n`, `\f` and `\r`) or single-quoted (taken as
//! it stands), on one line.  An array may span lines, with comments between
//! its items and a trailing comma.  Not accepted: `\u` escapes, multi-line
//! strings, quoted or dotted keys, tables, and values other than strings and
//! arrays of strings.  Keys other than the four above are ignored; each of
//! the four takes a value of the type shown and may be set once.  A file that
//! breaks one of these rules is refused with the number of the line at
//! fault.
use vstd::prelude::*;
use crate::engine::text::{
    chars_of, find_char_from, first_index_of, lemma_first_index_bounds, list_view, strings_view,
    text_view,
};

verus! {

// ---------------------------------------------------------------------------
// Syntax
// ---------------------------------------------------------------------------

/// Whether `c` is blank within a line.
pub open spec fn is_space(c: char) -> bool {
    c == ' ' || c == '\t' || c == '\r'
}

/// `s` without its leading blanks.
pub open spec fn trim_start(s: Seq<char>) -> Seq<char>
    decreases s.len(),
{
    if s.len() > 0 && is_space(s[0]) {
        trim_start(s.drop_first())
    } else {
        s
    }
}

/// `s` without its trailing blanks.
pub open spec fn trim_end(s: Seq<char>) -> Seq<char>
    decreases s.len(),
{
    if s.len() > 0 && is_space(s.last()) {
        trim_end(s.drop_last())
    } else {
        s
    }
}

/// `s` from the end of its current line on: the `\n` that ends it, or
/// nothing on the last line.
pub open spec fn line_rest(s: Seq<char>) -> Seq<char>
    decreases s.len(),
{
    if s.len() == 0 || s[0] == '\n' {
        s
    } else {
        line_rest(s.drop_first())
    }
}

/// `s` without the blanks, line breaks and `#` comments it starts with: the
/// gaps allowed between the items of an array.
pub open spec fn gap(s: Seq<char>) -> Seq<char>
    decreases s.len(),
{
    if s.len() > 0 && (is_space(s[0]) || s[0] == '\n') {
        gap(s.drop_first())
    } else if s.len() > 0 && s[0] == '#' {
        gap_in_comment(s.drop_first())
    } else {
        s
    }
}

/// [`gap`] within a comment: up to and including the line break.
pub open spec fn gap_in_comment(s: Seq<char>) -> Seq<char>
    decreases s.len(),
{
    if s.len() == 0 {
        s
    } else if s[0] == '\n' {
        gap(s.drop_first())
    } else {
        gap_in_comment(s.drop_first())
    }
}

pub proof fn lemma_gap(s: Seq<char>)
    ensures
        gap(s).len() <= s.len(),
        gap(s) == s.skip(s.len() - gap(s).len()),
        gap_in_comment(s).len() <= s.len(),
        gap_in_comment(s) == s.skip(s.len() - gap_in_comment(s).len()),
    decreases s.len(),
{
    if s.len() > 0 {
        lemma_gap(s.drop_first());
        let d = s.drop_first();
        assert(d.skip(d.len() - gap(d).len()) =~= s.skip(s.len() - gap(d).len()));
        assert(d.skip(d.len() - gap_in_comment(d).len()) =~= s.skip(
            s.len() - gap_in_comment(d).len(),
        ));
    }
    assert(s.skip(0) =~= s);
}

pub proof fn lemma_line_rest(s: Seq<char>)
    ensures
        line_rest(s).len() <= s.len(),
        line_rest(s) == s.skip(s.len() - line_rest(s).len()),
    decreases s.len(),
{
    if s.len() > 0 && s[0] != '\n' {
        lemma_line_rest(s.drop_first());
        let d = s.drop_first();
        assert(d.skip(d.len() - line_rest(d).len()) =~= s.skip(s.len() - line_rest(d).len()));
    } else {
        assert(s.skip(0) =~= s);
    }
}

/// Whether `c` may appear in a key.
pub open spec fn is_key_char(c: char) -> bool {
    ('a' <= c <= 'z') || ('A' <= c <= 'Z') || ('0' <= c <= '9') || c == '_' || c == '-'
}

/// Whether `k` is a key.
pub open spec fn is_key(k: Seq<char>) -> bool {
    k.len() > 0 && forall|i: int| 0 <= i < k.len() ==> is_key_char(#[trigger] k[i])
}

/// The character that the escape `\c` stands for in a double-quoted
/// string: `\"`, `\\`, `\b`, `\t`, `\n`, `\f` and `\r`.
pub open spec fn escaped(c: char) -> Option<char> {
    if c == '"' {
        Some('"')
    } else if c == '\\' {
        Some('\\')
    } else if c == 'b' {
        Some('\u{8}')
    } else if c == 't' {
        Some('\t')
    } else if c == 'n' {
        Some('\n')
    } else if c == 'f' {
        Some('\u{c}')
    } else if c == 'r' {
        Some('\r')
    } else {
        None
    }
}

/// The rest of a double-quoted string after its opening quote: its content,
/// escapes decoded, and what follows the closing quote.
pub open spec fn basic_rest(s: Seq<char>) -> Option<(Seq<char>, Seq<char>)>
    decreases s.len(),
{
    if s.len() == 0 || s[0] == '\n' {
        None
    } else if s[0] == '"' {
        Some((Seq::empty(), s.drop_first()))
    } else if s[0] == '\\' {
        if s.len() < 2 {
            None
        } else {
            match escaped(s[1]) {
                Some(c) => match basic_rest(s.skip(2)) {
                    Some((t, r)) => Some((seq![c] + t, r)),
                    None => None,
                },
                None => None,
            }
        }
    } else {
        match basic_rest(s.drop_first()) {
            Some((t, r)) => Some((seq![s[0]] + t, r)),
            None => None,
        }
    }
}

/// A string at the start of `s`: its content and what follows its closing
/// quote.  A double-quoted (basic) string may hold the escapes of
/// [`escaped`]; a single-quoted (literal) string is taken as it stands, up
/// to the next single quote.  Neither spans a line break.
pub open spec fn quoted(s: Seq<char>) -> Option<(Seq<char>, Seq<char>)> {
    if s.len() > 0 && s[0] == '"' {
        basic_rest(s.drop_first())
    } else if s.len() > 0 && s[0] == '\'' {
        let body = s.drop_first();
        match first_index_of(body, '\'') {
            Some(j) => if body.take(j).contains('\n') {
                None
            } else {
                Some((body.take(j), body.skip(j + 1)))
            },
            None => None,
        }
    } else {
        None
    }
}

pub proof fn lemma_basic_rest(s: Seq<char>)
    ensures
        basic_rest(s) matches Some((c, rest)) ==> rest.len() < s.len(),
    decreases s.len(),
{
    if s.len() > 0 && s[0] != '"' {
        if s[0] == '\\' {
            if s.len() >= 2 {
                lemma_basic_rest(s.skip(2));
            }
        } else {
            lemma_basic_rest(s.drop_first());
        }
    }
}

pub proof fn lemma_trim_start(s: Seq<char>)
    ensures
        trim_start(s).len() <= s.len(),
        trim_start(s) == s.skip(s.len() - trim_start(s).len()),
    decreases s.len(),
{
    if s.len() > 0 && is_space(s[0]) {
        lemma_trim_start(s.drop_first());
        assert(s.drop_first().skip(s.drop_first().len() - trim_start(s.drop_first()).len())
            =~= s.skip(s.len() - trim_start(s).len()));
    } else {
        assert(s.skip(0) =~= s);
    }
}

pub proof fn lemma_quoted(s: Seq<char>)
    ensures
        quoted(s) matches Some((c, rest)) ==> rest.len() < s.len(),
{
    if s.len() > 0 && s[0] == '"' {
        lemma_basic_rest(s.drop_first());
    } else if s.len() > 0 && s[0] == '\'' {
        lemma_first_index_bounds(s.drop_first(), '\'');
    }
}

/// The items of a string array after its opening `[`, and what follows the
/// closing `]`.  Blanks, line breaks and comments may stand between the
/// items, which are separated by commas (a trailing comma is allowed).
pub open spec fn list_rest(s: Seq<char>) -> Option<(Seq<Seq<char>>, Seq<char>)>
    decreases s.len(),
{
    let t = gap(s);
    if t.len() > 0 && t[0] == ']' {
        Some((Seq::empty(), t.drop_first()))
    } else {
        match quoted(t) {
            Some((item, after)) => {
                let u = gap(after);
                if u.len() > 0 && u[0] == ']' {
                    Some((seq![item], u.drop_first()))
                } else if u.len() > 0 && u[0] == ',' {
                    proof {
                        lemma_gap(s);
                        lemma_quoted(t);
                        lemma_gap(after);
                    }
                    match list_rest(u.drop_first()) {
                        Some((items, rest)) => Some((seq![item] + items, rest)),
                        None => None,
                    }
                } else {
                    None
                }
            },
            None => None,
        }
    }
}

/// A setting's value.
pub enum SettingValue {
    Text(String),
    List(Vec<String>),
}

/// Mathematical model of [`SettingValue`].
pub enum ValueView {
    Text(Seq<char>),
    List(Seq<Seq<char>>),
}

impl View for SettingValue {
    type V = ValueView;

    open spec fn view(&self) -> ValueView {
        match self {
            SettingValue::Text(t) => ValueView::Text(t@),
            SettingValue::List(items) => ValueView::List(strings_view(items@)),
        }
    }
}

/// A value at the start of `s`, and what follows it.
pub open spec fn value_of(s: Seq<char>) -> Option<(ValueView, Seq<char>)> {
    match quoted(s) {
        Some((v, rest)) => Some((ValueView::Text(v), rest)),
        None => if s.len() > 0 && s[0] == '[' {
            match list_rest(s.drop_first()) {
                Some((items, rest)) => Some((ValueView::List(items), rest)),
                None => None,
            }
        } else {
            None
        },
    }
}

/// The number of line breaks in `s`.
pub open spec fn newlines(s: Seq<char>) -> nat
    decreases s.len(),
{
    if s.len() == 0 {
        0
    } else {
        newlines(s.drop_last()) + if s.last() == '\n' {
            1nat
        } else {
            0nat
        }
    }
}

/// A setting at the start of `t`: its key, its value, and what follows it
/// (from the line break that ends it, once blanks and a comment after the
/// value are passed over).  The key and `=` stand on one line with the start
/// of the value; an array may go on over several lines.
pub open spec fn entry_of(t: Seq<char>) -> Option<(Seq<char>, ValueView, Seq<char>)> {
    match first_index_of(t, '=') {
        Some(i) => {
            let key = trim_end(t.take(i));
            if is_key(key) {
                match value_of(trim_start(t.skip(i + 1))) {
                    Some((v, rest)) => {
                        let r = trim_start(rest);
                        if r.len() == 0 || r[0] == '\n' {
                            Some((key, v, r))
                        } else if r[0] == '#' {
                            Some((key, v, line_rest(r)))
                        } else {
                            None
                        }
                    },
                    None => None,
                }
            } else {
                None
            }
        },
        None => None,
    }
}

pub proof fn lemma_list_rest(s: Seq<char>)
    ensures
        list_rest(s) matches Some((items, rest)) ==> rest.len() < s.len(),
    decreases s.len(),
{
    lemma_gap(s);
    let t = gap(s);
    if !(t.len() > 0 && t[0] == ']') {
        if let Some((item, after)) = quoted(t) {
            lemma_quoted(t);
            lemma_gap(after);
            let u = gap(after);
            if u.len() > 0 && u[0] == ',' {
                lemma_list_rest(u.drop_first());
            }
        }
    }
}

pub proof fn lemma_entry_shorter(t: Seq<char>)
    ensures
        entry_of(t) matches Some((k, v, rest)) ==> rest.len() < t.len(),
{
    if let Some(i) = first_index_of(t, '=') {
        lemma_first_index_bounds(t, '=');
        let s = trim_start(t.skip(i + 1));
        lemma_trim_start(t.skip(i + 1));
        lemma_quoted(s);
        if s.len() > 0 {
            lemma_list_rest(s.drop_first());
        }
        if let Some((v, rest)) = value_of(s) {
            lemma_trim_start(rest);
            lemma_line_rest(trim_start(rest));
        }
    }
}

// ---------------------------------------------------------------------------
// Reading one line
// ---------------------------------------------------------------------------

/// The first position at or after `i` that is not blank.
fn skip_spaces(cs: &Vec<char>, i: usize) -> (j: usize)
    requires
        i <= cs@.len(),
    ensures
        i <= j <= cs@.len(),
        cs@.skip(j as int) == trim_start(cs@.skip(i as int)),
{
    let mut j = i;
    while j < cs.len() && (cs[j] == ' ' || cs[j] == '\t' || cs[j] == '\r')
        invariant
            i <= j <= cs@.len(),
            trim_start(cs@.skip(j as int)) == trim_start(cs@.skip(i as int)),
        decreases cs@.len() - j,
    {
        assert(cs@.skip(j as int).drop_first() =~= cs@.skip(j + 1));
        j = j + 1;
    }
    if j < cs.len() {
        assert(cs@.skip(j as int)[0] == cs@[j as int]);
    } else {
        assert(cs@.skip(j as int).len() == 0);
    }
    j
}

/// The position where [`gap`] of `cs[i..]` starts.
fn skip_gap(cs: &Vec<char>, i: usize) -> (j: usize)
    requires
        i <= cs@.len(),
    ensures
        i <= j <= cs@.len(),
        cs@.skip(j as int) == gap(cs@.skip(i as int)),
{
    let mut j = i;
    let mut in_comment = false;
    while j < cs.len() && (in_comment || cs[j] == ' ' || cs[j] == '\t' || cs[j] == '\r' || cs[j]
        == '\n' || cs[j] == '#')
        invariant
            i <= j <= cs@.len(),
            gap(cs@.skip(i as int)) == if in_comment {
                gap_in_comment(cs@.skip(j as int))
            } else {
                gap(cs@.skip(j as int))
            },
        decreases cs@.len() - j,
    {
        assert(cs@.skip(j as int)[0] == cs@[j as int]);
        assert(cs@.skip(j as int).drop_first() =~= cs@.skip(j + 1));
        if in_comment {
            if cs[j] == '\n' {
                in_comment = false;
            }
        } else if cs[j] == '#' {
            in_comment = true;
        }
        j = j + 1;
    }
    if j < cs.len() {
        assert(cs@.skip(j as int)[0] == cs@[j as int]);
    } else {
        assert(cs@.skip(j as int).len() == 0);
    }
    j
}

/// The position where [`line_rest`] of `cs[i..]` starts.
fn line_rest_at(cs: &Vec<char>, i: usize) -> (j: usize)
    requires
        i <= cs@.len(),
    ensures
        i <= j <= cs@.len(),
        cs@.skip(j as int) == line_rest(cs@.skip(i as int)),
{
    let mut j = i;
    while j < cs.len() && cs[j] != '\n'
        invariant
            i <= j <= cs@.len(),
            line_rest(cs@.skip(j as int)) == line_rest(cs@.skip(i as int)),
        decreases cs@.len() - j,
    {
        assert(cs@.skip(j as int)[0] == cs@[j as int]);
        assert(cs@.skip(j as int).drop_first() =~= cs@.skip(j + 1));
        j = j + 1;
    }
    if j < cs.len() {
        assert(cs@.skip(j as int)[0] == cs@[j as int]);
    } else {
        assert(cs@.skip(j as int).len() == 0);
    }
    j
}

/// The end of `cs[lo..hi]` once its trailing blanks are dropped.
fn trim_end_at(cs: &Vec<char>, lo: usize, hi: usize) -> (e: usize)
    requires
        lo <= hi <= cs@.len(),
    ensures
        lo <= e <= hi,
        cs@.subrange(lo as int, e as int) == trim_end(cs@.subrange(lo as int, hi as int)),
{
    let mut e = hi;
    while e > lo && (cs[e - 1] == ' ' || cs[e - 1] == '\t' || cs[e - 1] == '\r')
        invariant
            lo <= e <= hi <= cs@.len(),
            trim_end(cs@.subrange(lo as int, e as int)) == trim_end(
                cs@.subrange(lo as int, hi as int),
            ),
        decreases e,
    {
        assert(cs@.subrange(lo as int, e as int).drop_last() =~= cs@.subrange(
            lo as int,
            e - 1,
        ));
        e = e - 1;
    }
    e
}

/// Whether `cs[lo..hi]` holds `c`.
fn has_char(cs: &Vec<char>, lo: usize, hi: usize, c: char) -> (r: bool)
    requires
        lo <= hi <= cs@.len(),
    ensures
        r == cs@.subrange(lo as int, hi as int).contains(c),
{
    let mut k = lo;
    while k < hi
        invariant
            lo <= k <= hi <= cs@.len(),
            forall|m: int| lo <= m < k ==> cs@[m] != c,
        decreases hi - k,
    {
        if cs[k] == c {
            assert(cs@.subrange(lo as int, hi as int)[k - lo] == c);
            return true;
        }
        k = k + 1;
    }
    assert(!cs@.subrange(lo as int, hi as int).contains(c)) by {
        assert forall|m: int| 0 <= m < hi - lo implies cs@.subrange(lo as int, hi as int)[m]
            != c by {
            assert(cs@.subrange(lo as int, hi as int)[m] == cs@[lo + m]);
        }
    }
    false
}

/// The text of the escape `\c`, where it is one.
fn escape_text(c: char) -> (r: Option<String>)
    ensures
        match escaped(c) {
            Some(d) => r matches Some(t) && t@ == seq![d],
            None => r is None,
        },
{
    proof {
        reveal_strlit("\"");
        reveal_strlit("\\");
        reveal_strlit("\u{8}");
        reveal_strlit("\t");
        reveal_strlit("\n");
        reveal_strlit("\u{c}");
        reveal_strlit("\r");
    }
    let t = if c == '"' {
        String::from_str("\"")
    } else if c == '\\' {
        String::from_str("\\")
    } else if c == 'b' {
        String::from_str("\u{8}")
    } else if c == 't' {
        String::from_str("\t")
    } else if c == 'n' {
        String::from_str("\n")
    } else if c == 'f' {
        String::from_str("\u{c}")
    } else if c == 'r' {
        String::from_str("\r")
    } else {
        return None;
    };
    assert(t@ =~= seq![escaped(c)->0]);
    Some(t)
}

/// The rest of the double-quoted string whose opening quote ends just
/// before position `j` of `line`, and the position after its closing quote.
fn basic_at(line: &str, cs: &Vec<char>, j: usize) -> (r: Option<(String, usize)>)
    requires
        cs@ == line@,
        j <= cs@.len(),
    ensures
        match basic_rest(cs@.skip(j as int)) {
            Some((content, rest)) => r matches Some((s, k)) && s@ == content && k <= cs@.len()
                && cs@.skip(k as int) == rest,
            None => r is None,
        },
    decreases cs@.len() - j,
{
    let ghost s = cs@.skip(j as int);
    if j >= cs.len() {
        assert(s.len() == 0);
        return None;
    }
    assert(s[0] == cs@[j as int]);
    if cs[j] == '\n' {
        return None;
    }
    if cs[j] == '"' {
        assert(s.drop_first() =~= cs@.skip(j + 1));
        return Some((String::new(), j + 1));
    }
    if cs[j] == '\\' {
        if j + 1 >= cs.len() {
            return None;
        }
        assert(s[1] == cs@[j + 1]);
        assert(s.skip(2) =~= cs@.skip(j + 2));
        match escape_text(cs[j + 1]) {
            Some(e) => match basic_at(line, cs, j + 2) {
                Some((t, k)) => {
                    let mut out = e;
                    out.append(t.as_str());
                    Some((out, k))
                },
                None => None,
            },
            None => None,
        }
    } else {
        assert(s.drop_first() =~= cs@.skip(j + 1));
        match basic_at(line, cs, j + 1) {
            Some((t, k)) => {
                let mut out = line.substring_char(j, j + 1).to_owned();
                out.append(t.as_str());
                assert(out@ =~= seq![cs@[j as int]] + t@);
                Some((out, k))
            },
            None => None,
        }
    }
}

/// The string that starts at position `i` of `line`, and the position after
/// its closing quote.
fn quoted_at(line: &str, cs: &Vec<char>, i: usize) -> (r: Option<(String, usize)>)
    requires
        cs@ == line@,
        i <= cs@.len(),
    ensures
        match quoted(cs@.skip(i as int)) {
            Some((content, rest)) => r matches Some((s, j)) && s@ == content && j <= cs@.len()
                && cs@.skip(j as int) == rest,
            None => r is None,
        },
{
    if i < cs.len() {
        assert(cs@.skip(i as int)[0] == cs@[i as int]);
    }
    if i < cs.len() && cs[i] == '"' {
        assert(cs@.skip(i as int).drop_first() =~= cs@.skip(i + 1));
        basic_at(line, cs, i + 1)
    } else if i < cs.len() && cs[i] == '\'' {
        let ghost body = cs@.skip(i as int).drop_first();
        assert(body =~= cs@.skip(i + 1));
        match find_char_from(cs, i + 1, '\'') {
            Some(j) => {
                let ghost k = j - (i + 1);
                assert(body.take(k) =~= cs@.subrange(i + 1, j as int));
                assert(body.skip(k + 1) =~= cs@.skip(j + 1));
                if has_char(cs, i + 1, j, '\n') {
                    return None;
                }
                let content = line.substring_char(i + 1, j).to_owned();
                Some((content, j + 1))
            },
            None => None,
        }
    } else {
        None
    }
}

/// The items of the string array whose opening `[` ends just before
/// position `i` of `line`, and the position after its closing `]`.
fn list_at(line: &str, cs: &Vec<char>, i: usize) -> (r: Option<(Vec<String>, usize)>)
    requires
        cs@ == line@,
        i <= cs@.len(),
    ensures
        match list_rest(cs@.skip(i as int)) {
            Some((items, rest)) => r matches Some((v, j)) && strings_view(v@) == items && j
                <= cs@.len() && cs@.skip(j as int) == rest,
            None => r is None,
        },
    decreases cs@.len() - i,
{
    let t = skip_gap(cs, i);
    if t < cs.len() && cs[t] == ']' {
        assert(cs@.skip(t as int)[0] == ']');
        assert(cs@.skip(t as int).drop_first() =~= cs@.skip(t + 1));
        let empty: Vec<String> = Vec::new();
        assert(strings_view(empty@) =~= Seq::<Seq<char>>::empty());
        return Some((empty, t + 1));
    }
    if t < cs.len() {
        assert(cs@.skip(t as int)[0] == cs@[t as int]);
    }
    match quoted_at(line, cs, t) {
        Some((item, a)) => {
            let u = skip_gap(cs, a);
            if u < cs.len() && cs[u] == ']' {
                assert(cs@.skip(u as int)[0] == ']');
                assert(cs@.skip(u as int).drop_first() =~= cs@.skip(u + 1));
                let mut v: Vec<String> = Vec::new();
                v.push(item);
                assert(strings_view(v@) =~= seq![v@[0]@]);
                Some((v, u + 1))
            } else if u < cs.len() && cs[u] == ',' {
                assert(cs@.skip(u as int)[0] == ',');
                assert(cs@.skip(u as int).drop_first() =~= cs@.skip(u + 1));
                proof {
                    lemma_quoted(cs@.skip(t as int));
                }
                match list_at(line, cs, u + 1) {
                    Some((mut items, b)) => {
                        let ghost rest_items = strings_view(items@);
                        let ghost first = item@;
                        items.insert(0, item);
                        assert(strings_view(items@) =~= seq![first] + rest_items);
                        Some((items, b))
                    },
                    None => None,
                }
            } else {
                if u < cs.len() {
                    assert(cs@.skip(u as int)[0] == cs@[u as int]);
                }
                None
            }
        },
        None => None,
    }
}

/// The value that starts at position `i` of `line`, and the position after
/// it.
fn value_at(line: &str, cs: &Vec<char>, i: usize) -> (r: Option<(SettingValue, usize)>)
    requires
        cs@ == line@,
        i <= cs@.len(),
    ensures
        match value_of(cs@.skip(i as int)) {
            Some((value, rest)) => r matches Some((v, j)) && v@ == value && j <= cs@.len()
                && cs@.skip(j as int) == rest,
            None => r is None,
        },
{
    match quoted_at(line, cs, i) {
        Some((text, j)) => Some((SettingValue::Text(text), j)),
        None => {
            if i < cs.len() && cs[i] == '[' {
                assert(cs@.skip(i as int)[0] == '[');
                assert(cs@.skip(i as int).drop_first() =~= cs@.skip(i + 1));
                match list_at(line, cs, i + 1) {
                    Some((items, j)) => Some((SettingValue::List(items), j)),
                    None => None,
                }
            } else {
                if i < cs.len() {
                    assert(cs@.skip(i as int)[0] == cs@[i as int]);
                }
                None
            }
        },
    }
}

/// Whether `cs[lo..hi]` is a key.
fn key_at(cs: &Vec<char>, lo: usize, hi: usize) -> (r: bool)
    requires
        lo <= hi <= cs@.len(),
    ensures
        r == is_key(cs@.subrange(lo as int, hi as int)),
{
    if lo == hi {
        return false;
    }
    let mut k = lo;
    while k < hi
        invariant
            lo <= k <= hi <= cs@.len(),
            forall|m: int| lo <= m < k ==> is_key_char(cs@[m]),
        decreases hi - k,
    {
        let c = cs[k];
        if !(('a' <= c && c <= 'z') || ('A' <= c && c <= 'Z') || ('0' <= c && c <= '9') || c
            == '_' || c == '-') {
            assert(cs@.subrange(lo as int, hi as int)[k - lo] == c);
            return false;
        }
        k = k + 1;
    }
    assert forall|m: int| 0 <= m < hi - lo implies is_key_char(
        #[trigger] cs@.subrange(lo as int, hi as int)[m],
    ) by {
        assert(cs@.subrange(lo as int, hi as int)[m] == cs@[lo + m]);
    }
    true
}

/// Counts the line breaks in `cs[lo..hi]`.
fn newlines_in(cs: &Vec<char>, lo: usize, hi: usize) -> (r: usize)
    requires
        lo <= hi <= cs@.len(),
    ensures
        r == newlines(cs@.subrange(lo as int, hi as int)),
        r <= hi - lo,
{
    let mut count: usize = 0;
    let mut k = lo;
    assert(cs@.subrange(lo as int, lo as int) =~= Seq::<char>::empty());
    while k < hi
        invariant
            lo <= k <= hi <= cs@.len(),
            count == newlines(cs@.subrange(lo as int, k as int)),
            count <= k - lo,
        decreases hi - k,
    {
        assert(cs@.subrange(lo as int, k + 1).drop_last() =~= cs@.subrange(lo as int, k as int));
        if cs[k] == '\n' {
            count = count + 1;
        }
        k = k + 1;
    }
    count
}

/// Reads the setting that starts at position `a` of `text`: its key, its
/// value and the position after it (see [`entry_of`]).
fn entry_at(text: &str, cs: &Vec<char>, a: usize) -> (r: Option<(String, SettingValue, usize)>)
    requires
        cs@ == text@,
        a <= cs@.len(),
    ensures
        match entry_of(cs@.skip(a as int)) {
            Some((key, value, rest)) => r matches Some((k, v, j)) && k@ == key && v@ == value
                && a < j <= cs@.len() && cs@.skip(j as int) == rest,
            None => r is None,
        },
{
    let n = cs.len();
    let ghost t = cs@.skip(a as int);
    proof {
        lemma_entry_shorter(t);
    }
    match find_char_from(cs, a, '=') {
        Some(eq) => {
            let ghost i = eq - a;
            let e = trim_end_at(cs, a, eq);
            assert(t.take(i) =~= cs@.subrange(a as int, eq as int));
            if !key_at(cs, a, e) {
                return None;
            }
            assert(t.skip(i + 1) =~= cs@.skip(eq + 1));
            let b = skip_spaces(cs, eq + 1);
            match value_at(text, cs, b) {
                Some((value, c)) => {
                    let d = skip_spaces(cs, c);
                    if d < n {
                        assert(cs@.skip(d as int)[0] == cs@[d as int]);
                    }
                    let key = text.substring_char(a, e).to_owned();
                    if d == n || cs[d] == '\n' {
                        Some((key, value, d))
                    } else if cs[d] == '#' {
                        let f = line_rest_at(cs, d);
                        Some((key, value, f))
                    } else {
                        None
                    }
                },
                None => None,
            }
        },
        None => None,
    }
}

// ---------------------------------------------------------------------------
// The whole file
// ---------------------------------------------------------------------------

/// Why a settings file is refused, with the (1-based) number of the line at
/// fault.
#[derive(Clone, Copy, Debug, PartialEq, Eq, Structural)]
pub enum SettingsError {
    /// A line that is neither blank, a comment, nor `key = value`.
    InvalidLine(usize),
    /// A known key whose value has the wrong type (`locales` and `src` take
    /// a string, the two exclude lists an array of strings).
    WrongType(usize),
    /// A known key set a second time.
    DuplicateKey(usize),
}

/// What a settings file sets; a setting the file leaves out is `None`.
pub struct Settings {
    pub locales: Option<String>,
    pub src: Option<String>,
    pub src_exclude: Option<Vec<String>>,
    pub locales_exclude: Option<Vec<String>>,
}

/// Mathematical model of [`Settings`].
pub struct SettingsView {
    pub locales: Option<Seq<char>>,
    pub src: Option<Seq<char>>,
    pub src_exclude: Option<Seq<Seq<char>>>,
    pub locales_exclude: Option<Seq<Seq<char>>>,
}

impl View for Settings {
    type V = SettingsView;

    open spec fn view(&self) -> SettingsView {
        SettingsView {
            locales: text_view(self.locales),
            src: text_view(self.src),
            src_exclude: list_view(self.src_exclude),
            locales_exclude: list_view(self.locales_exclude),
        }
    }
}

/// A file that sets nothing.
pub open spec fn no_settings() -> SettingsView {
    SettingsView { locales: None, src: None, src_exclude: None, locales_exclude: None }
}

/// The settings `st` once line `n` has set `key` to `v`.
pub open spec fn entry_applied(st: SettingsView, key: Seq<char>, v: ValueView, n: usize) -> Result<
    SettingsView,
    SettingsError,
> {
    if key == "locales"@ {
        match v {
            ValueView::Text(t) => if st.locales is Some {
                Err(SettingsError::DuplicateKey(n))
            } else {
                Ok(SettingsView { locales: Some(t), ..st })
            },
            ValueView::List(_) => Err(SettingsError::WrongType(n)),
        }
    } else if key == "src"@ {
        match v {
            ValueView::Text(t) => if st.src is Some {
                Err(SettingsError::DuplicateKey(n))
            } else {
                Ok(SettingsView { src: Some(t), ..st })
            },
            ValueView::List(_) => Err(SettingsError::WrongType(n)),
        }
    } else if key == "src_exclude"@ {
        match v {
            ValueView::List(items) => if st.src_exclude is Some {
                Err(SettingsError::DuplicateKey(n))
            } else {
                Ok(SettingsView { src_exclude: Some(items), ..st })
            },
            ValueView::Text(_) => Err(SettingsError::WrongType(n)),
        }
    } else if key == "locales_exclude"@ {
        match v {
            ValueView::List(items) => if st.locales_exclude is Some {
                Err(SettingsError::DuplicateKey(n))
            } else {
                Ok(SettingsView { locales_exclude: Some(items), ..st })
            },
            ValueView::Text(_) => Err(SettingsError::WrongType(n)),
        }
    } else {
        Ok(st)
    }
}

/// What the rest `s` of a settings file sets on top of `st`, its first line
/// being line `n`; or the first line at fault.  Blanks are passed over, a
/// line break moves to the next line, a comment runs to the end of its line,
/// and anything else must be a setting.
pub open spec fn doc_from(s: Seq<char>, n: nat, st: SettingsView) -> Result<
    SettingsView,
    SettingsError,
>
    decreases s.len(),
{
    let t = trim_start(s);
    if t.len() == 0 {
        Ok(st)
    } else if t[0] == '\n' {
        proof {
            lemma_trim_start(s);
        }
        doc_from(t.drop_first(), n + 1, st)
    } else if t[0] == '#' {
        proof {
            lemma_trim_start(s);
            lemma_line_rest(t.drop_first());
        }
        doc_from(line_rest(t.drop_first()), n, st)
    } else {
        match entry_of(t) {
            None => Err(SettingsError::InvalidLine(n as usize)),
            Some((key, v, rest)) => match entry_applied(st, key, v, n as usize) {
                Err(e) => Err(e),
                Ok(next) => {
                    proof {
                        lemma_trim_start(s);
                        lemma_entry_shorter(t);
                    }
                    doc_from(rest, n + newlines(t.take(t.len() - rest.len())), next)
                },
            },
        }
    }
}

/// What the settings file `text` sets, or the first line at fault.
pub open spec fn settings_of(text: Seq<char>) -> Result<SettingsView, SettingsError> {
    doc_from(text, 1, no_settings())
}

/// The model of a settings result.
pub open spec fn outcome(r: Result<Settings, SettingsError>) -> Result<SettingsView, SettingsError> {
    match r {
        Ok(s) => Ok(s@),
        Err(e) => Err(e),
    }
}

/// Takes in line `n`, which sets `key` to `value`.
fn apply_entry(st: Settings, key: String, value: SettingValue, n: usize) -> (r: Result<
    Settings,
    SettingsError,
>)
    ensures
        outcome(r) == entry_applied(st@, key@, value@, n),
{
    let mut st = st;
    if key == String::from_str("locales") {
        match value {
            SettingValue::Text(t) => {
                if st.locales.is_some() {
                    return Err(SettingsError::DuplicateKey(n));
                }
                st.locales = Some(t);
                Ok(st)
            },
            SettingValue::List(_) => Err(SettingsError::WrongType(n)),
        }
    } else if key == String::from_str("src") {
        match value {
            SettingValue::Text(t) => {
                if st.src.is_some() {
                    return Err(SettingsError::DuplicateKey(n));
                }
                st.src = Some(t);
                Ok(st)
            },
            SettingValue::List(_) => Err(SettingsError::WrongType(n)),
        }
    } else if key == String::from_str("src_exclude") {
        match value {
            SettingValue::List(items) => {
                if st.src_exclude.is_some() {
                    return Err(SettingsError::DuplicateKey(n));
                }
                st.src_exclude = Some(items);
                Ok(st)
            },
            SettingValue::Text(_) => Err(SettingsError::WrongType(n)),
        }
    } else if key == String::from_str("locales_exclude") {
        match value {
            SettingValue::List(items) => {
                if st.locales_exclude.is_some() {
                    return Err(SettingsError::DuplicateKey(n));
                }
                st.locales_exclude = Some(items);
                Ok(st)
            },
            SettingValue::Text(_) => Err(SettingsError::WrongType(n)),
        }
    } else {
        Ok(st)
    }
}

/// Reads a settings file.
///
/// Succeeds exactly when the file holds only blanks, comments and settings,
/// no known key has a value of the wrong type and none is set twice; the
/// error names the line at fault (for a setting, the line where it starts).
pub fn parse_settings(text: &str) -> (r: Result<Settings, SettingsError>)
    requires
        text@.len() < usize::MAX,
    ensures
        outcome(r) == settings_of(text@),
{
    let cs = chars_of(text);
    let len = cs.len();
    let mut st = Settings { locales: None, src: None, src_exclude: None, locales_exclude: None };
    let mut pos: usize = 0;
    let mut n: usize = 1;
    assert(cs@.skip(0) =~= cs@);
    loop
        invariant
            pos <= len,
            len == cs@.len(),
            cs@ == text@,
            len < usize::MAX,
            1 <= n <= pos + 1,
            doc_from(cs@.skip(pos as int), n as nat, st@) == settings_of(text@),
        decreases len - pos,
    {
        let t = skip_spaces(&cs, pos);
        if t == len {
            assert(cs@.skip(t as int).len() == 0);
            return Ok(st);
        }
        assert(cs@.skip(t as int)[0] == cs@[t as int]);
        assert(cs@.skip(t as int).drop_first() =~= cs@.skip(t + 1));
        if cs[t] == '\n' {
            pos = t + 1;
            n = n + 1;
        } else if cs[t] == '#' {
            pos = line_rest_at(&cs, t + 1);
        } else {
            match entry_at(text, &cs, t) {
                None => {
                    return Err(SettingsError::InvalidLine(n));
                },
                Some((key, value, j)) => {
                    match apply_entry(st, key, value, n) {
                        Ok(next) => {
                            st = next;
                        },
                        Err(e) => {
                            return Err(e);
                        },
                    }
                    let k = newlines_in(&cs, t, j);
                    assert(cs@.skip(t as int).take(cs@.skip(t as int).len() - cs@.skip(
                        j as int,
                    ).len()) =~= cs@.subrange(t as int, j as int));
                    n = n + k;
                    pos = j;
                },
            }
        }
    }
}

// ---------------------------------------------------------------------------
// Properties
// ---------------------------------------------------------------------------

/// Whether `b` is a run of blanks (spaces and tabs).
pub open spec fn is_blank_run(b: Seq<char>) -> bool {
    forall|i: int| 0 <= i < b.len() ==> b[i] == ' ' || b[i] == '\t'
}

proof fn lemma_trim_start_blanks(b: Seq<char>, s: Seq<char>)
    requires
        is_blank_run(b),
    ensures
        trim_start(b + s) == trim_start(s),
    decreases b.len(),
{
    if b.len() > 0 {
        assert((b + s)[0] == b[0]);
        assert((b + s).drop_first() =~= b.drop_first() + s);
        lemma_trim_start_blanks(b.drop_first(), s);
    } else {
        assert(b + s =~= s);
    }
}

proof fn lemma_trim_end_blanks(k: Seq<char>, b: Seq<char>)
    requires
        is_blank_run(b),
        k.len() > 0,
        !is_space(k.last()),
    ensures
        trim_end(k + b) == k,
    decreases b.len(),
{
    if b.len() > 0 {
        assert((k + b).last() == b.last());
        assert((k + b).drop_last() =~= k + b.drop_last());
        lemma_trim_end_blanks(k, b.drop_last());
    } else {
        assert(k + b =~= k);
    }
}

proof fn lemma_first_index_after(a: Seq<char>, b: Seq<char>, c: char)
    requires
        !a.contains(c),
    ensures
        first_index_of(a + b, c) == match first_index_of(b, c) {
            Some(i) => Some(i + a.len()),
            None => None::<int>,
        },
    decreases a.len(),
{
    if a.len() > 0 {
        assert((a + b)[0] == a[0]);
        assert(a.contains(a[0]));
        assert((a + b).drop_first() =~= a.drop_first() + b);
        assert(!a.drop_first().contains(c)) by {
            if a.drop_first().contains(c) {
                let m = choose|m: int| 0 <= m < a.drop_first().len() && a.drop_first()[m] == c;
                assert(a[m + 1] == c);
            }
        }
        lemma_first_index_after(a.drop_first(), b, c);
    } else {
        assert(a + b =~= b);
    }
}

/// Blanks at the start of a settings file mean nothing: a space or a tab in
/// front of it changes nothing of what it sets or of its faults.
pub proof fn law_leading_blank_ignored(c: char, text: Seq<char>)
    requires
        c == ' ' || c == '\t',
    ensures
        settings_of(seq![c] + text) == settings_of(text),
{
    assert((seq![c] + text)[0] == c);
    assert((seq![c] + text).drop_first() =~= text);
    assert(trim_start(seq![c] + text) == trim_start(text));
}

/// Blanks at the start of a line mean nothing: a space or a tab at the start
/// of any line of the rest of a file changes nothing of what it sets or of
/// its faults.
pub proof fn law_blank_at_line_start_ignored(
    c: char,
    s: Seq<char>,
    n: nat,
    st: SettingsView,
)
    requires
        c == ' ' || c == '\t',
    ensures
        doc_from(seq![c] + s, n, st) == doc_from(s, n, st),
        doc_from(seq!['\n', c] + s, n, st) == doc_from(seq!['\n'] + s, n, st),
{
    assert((seq![c] + s)[0] == c);
    assert((seq![c] + s).drop_first() =~= s);
    assert(trim_start(seq![c] + s) == trim_start(s));
    let a = seq!['\n', c] + s;
    let b = seq!['\n'] + s;
    assert(trim_start(a) == a);
    assert(trim_start(b) == b);
    assert(a.drop_first() =~= seq![c] + s);
    assert(b.drop_first() =~= s);
    assert(doc_from(seq![c] + s, n + 1, st) == doc_from(s, n + 1, st)) by {
        assert(trim_start(seq![c] + s) == trim_start(s));
    }
}

/// Blanks around the `=` of a setting mean nothing: any run of spaces and
/// tabs before and after it reads as none.
pub proof fn law_blanks_around_equals_ignored(
    key: Seq<char>,
    before: Seq<char>,
    after: Seq<char>,
    rest: Seq<char>,
)
    requires
        is_key(key),
        is_blank_run(before),
        is_blank_run(after),
    ensures
        entry_of(key + before + seq!['='] + after + rest) == entry_of(key + seq!['='] + rest),
{
    let spaced = key + before + seq!['='] + after + rest;
    let tight = key + seq!['='] + rest;
    assert(is_key_char(key[key.len() - 1]));
    assert(!key.contains('=')) by {
        if key.contains('=') {
            let m = choose|m: int| 0 <= m < key.len() && key[m] == '=';
            assert(is_key_char(key[m]));
        }
    }
    assert(!(key + before).contains('=')) by {
        if (key + before).contains('=') {
            let m = choose|m: int| 0 <= m < (key + before).len() && (key + before)[m] == '=';
            if m < key.len() {
                assert(is_key_char(key[m]));
            } else {
                assert(before[m - key.len()] == '=');
            }
        }
    }
    assert(spaced =~= (key + before) + (seq!['='] + (after + rest)));
    assert(tight =~= key + (seq!['='] + rest));
    lemma_first_index_after(key + before, seq!['='] + (after + rest), '=');
    lemma_first_index_after(key, seq!['='] + rest, '=');
    let i: int = (key.len() + before.len()) as int;
    assert(spaced.take(i) =~= key + before);
    assert(spaced.skip(i + 1) =~= after + rest);
    assert(tight.take(key.len() as int) =~= key);
    assert(tight.skip(key.len() as int + 1) =~= rest);
    lemma_trim_end_blanks(key, before);
    lemma_trim_end_blanks(key, Seq::empty());
    assert(key + Seq::<char>::empty() =~= key);
    lemma_trim_start_blanks(after, rest);
}

proof fn lemma_gap_blanks(b: Seq<char>, s: Seq<char>)
    requires
        forall|i: int| 0 <= i < b.len() ==> b[i] == ' ' || b[i] == '\t' || b[i] == '\n',
    ensures
        gap(b + s) == gap(s),
    decreases b.len(),
{
    if b.len() > 0 {
        assert((b + s)[0] == b[0]);
        assert((b + s).drop_first() =~= b.drop_first() + s);
        lemma_gap_blanks(b.drop_first(), s);
    } else {
        assert(b + s =~= s);
    }
}

/// Blanks and line breaks between the items of an array mean nothing: any
/// run of spaces, tabs and line breaks in front of an item (or of the closing
/// `]`) reads as none.
pub proof fn law_blanks_in_array_ignored(b: Seq<char>, s: Seq<char>)
    requires
        forall|i: int| 0 <= i < b.len() ==> b[i] == ' ' || b[i] == '\t' || b[i] == '\n',
    ensures
        list_rest(b + s) == list_rest(s),
{
    lemma_gap_blanks(b, s);
}

} // verus!
