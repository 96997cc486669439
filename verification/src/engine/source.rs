//! Translation usages found in source files.
//!
//! A parser outside the library walks each source file and reports what it
//! meets, in walk order, as [`SourceEvent`]s: calls, JSX elements, `const`
//! bindings and the callbacks of iterator methods, with the expressions
//! involved reduced to [`KeyExpr`]s.  [`collect_file_usages`] then decides,
//! event by event, which namespaces come into scope (`useTranslation(ns)`,
//! `getServerTranslate(ns)`), what names are bound to, and which key usages
//! a translation (`t(key)`, `i18next.t(key)`, `<Trans i18nKey=..>`) records:
//! static keys, prefixes of template literals, or dynamic usages.
use vstd::prelude::*;
use vstd::string::StringSliceAdditionalSpecFns;
use crate::engine::text::{
    chars_of, clone_strings, extension, extension_dot_index, first_index_of,
    lemma_first_index_bounds, path_trimmed, strings_view, trimmed_len,
};

verus! {

/// How a translation call refers to its key.
pub enum UsageKind {
    /// An exact key, e.g. `t("form.email")` or `` t(`title`) ``.
    Static(String),
    /// The stable leading part of a template literal, e.g. `` t(`form.${f}`) `` gives `form.`.
    Prefix(String),
    /// A key that cannot be resolved statically, e.g. `t(key)`.
    Dynamic,
}

/// Mathematical model of [`UsageKind`].
pub enum KindView {
    Static(Seq<char>),
    Prefix(Seq<char>),
    Dynamic,
}

impl View for UsageKind {
    type V = KindView;

    open spec fn view(&self) -> KindView {
        match self {
            UsageKind::Static(k) => KindView::Static(k@),
            UsageKind::Prefix(p) => KindView::Prefix(p@),
            UsageKind::Dynamic => KindView::Dynamic,
        }
    }
}

/// One translation call found in a source file.
pub struct Usage {
    /// Source file of the call.
    pub path: String,
    /// 1-based line of the call.
    pub line: usize,
    /// Namespaces of the call: those in scope, in declaration order, unless
    /// the call names its own.
    pub namespaces: Vec<String>,
    /// How the call refers to its key.
    pub kind: UsageKind,
}

/// Mathematical model of [`Usage`].
pub struct UsageView {
    pub path: Seq<char>,
    pub line: nat,
    pub namespaces: Seq<Seq<char>>,
    pub kind: KindView,
}

impl View for Usage {
    type V = UsageView;

    open spec fn view(&self) -> UsageView {
        UsageView {
            path: self.path@,
            line: self.line as nat,
            namespaces: strings_view(self.namespaces@),
            kind: self.kind@,
        }
    }
}

/// The views of a sequence of usages.
pub open spec fn usages_view(us: Seq<Usage>) -> Seq<UsageView> {
    us.map_values(|u: Usage| u@)
}

/// An expression that may denote translation keys, as reported by the
/// parser.  Parentheses and TypeScript `as`/`satisfies` wrappers are
/// transparent.
pub enum KeyExpr {
    /// No expression (a call without argument).
    Missing,
    /// A string literal, with its value.
    Literal(String),
    /// A template literal: the raw text of its first quasi (if any) and
    /// whether it embeds at least one expression.
    Template { head: Option<String>, has_expressions: bool },
    /// An array literal.
    Array(Vec<KeyExpr>),
    /// `test ? consequent : alternate` (the two branches).
    Conditional(Box<KeyExpr>, Box<KeyExpr>),
    /// `left || right` or `left ?? right`.
    Or(Box<KeyExpr>, Box<KeyExpr>),
    /// `left && right`.
    And(Box<KeyExpr>, Box<KeyExpr>),
    /// A reference to a binding, by name.
    Name(String),
    /// `object.property` or `object["property"]` (`Some`), or
    /// `object[expression]` (`None`), on a named object.
    Member { object: String, property: Option<String> },
    /// A call `f(..)` of a named function.
    CallOf(String),
    /// An object literal: its members with a static name, in order.
    Object(Vec<(String, KeyExpr)>),
    /// Any other expression.
    Other,
}

/// Something the parser met while walking a source file, in walk order.
pub enum SourceEvent {
    /// A call whose callee is a name (`t`) or a member of a name
    /// (`i18next.t`), with its arguments.
    Call { callee: String, offset: usize, args: Vec<KeyExpr> },
    /// A JSX element with a plain name, and its named attributes in order.
    Element { name: String, offset: usize, attributes: Vec<(String, KeyExpr)> },
    /// A `const` binding of a name.
    Const { name: String, init: KeyExpr },
    /// Entering a function passed as first argument to method `method` of
    /// `items` (as in `items.map((param) => ..)`), whose first parameter is
    /// the name `param`.
    CallbackStart { method: String, param: String, items: KeyExpr },
    /// Leaving the function of the matching `CallbackStart`.
    CallbackEnd,
}

/// A function declared at the top level of a file, with the expressions of
/// its `return` statements.
pub struct FunctionReturns {
    pub name: String,
    pub returns: Vec<KeyExpr>,
}

/// What a name is bound to, as far as keys are concerned.
pub enum Binding {
    /// The keys the bound value may hold.
    Keys(Vec<UsageKind>),
    /// An object literal: the keys each named member may hold.
    Members(Vec<(String, Vec<UsageKind>)>),
}

/// Mathematical model of [`Binding`].
pub enum BindingView {
    Keys(Seq<KindView>),
    Members(Seq<(Seq<char>, Seq<KindView>)>),
}

/// The models of a sequence of usage kinds.
pub open spec fn kinds_view(ks: Seq<UsageKind>) -> Seq<KindView> {
    ks.map_values(|k: UsageKind| k@)
}

/// The model of an object map's members.
pub open spec fn map_view(m: Seq<(String, Vec<UsageKind>)>) -> Seq<(Seq<char>, Seq<KindView>)> {
    m.map_values(|e: (String, Vec<UsageKind>)| (e.0@, kinds_view(e.1@)))
}

impl View for Binding {
    type V = BindingView;

    open spec fn view(&self) -> BindingView {
        match self {
            Binding::Keys(ks) => BindingView::Keys(kinds_view(ks@)),
            Binding::Members(m) => BindingView::Members(map_view(m@)),
        }
    }
}

/// The models of a sequence of name bindings.
pub open spec fn bindings_view(bs: Seq<(String, Binding)>) -> Seq<(Seq<char>, BindingView)> {
    bs.map_values(|b: (String, Binding)| (b.0@, b.1@))
}

/// What is known while walking a file: the namespaces in scope, the `const`
/// bindings seen so far, and the parameters of the callbacks being walked.
pub struct ScanView {
    pub namespaces: Seq<Seq<char>>,
    pub consts: Seq<(Seq<char>, BindingView)>,
    pub params: Seq<(Seq<char>, BindingView)>,
}

/// The model of an optional string.
pub open spec fn opt_string_view(o: Option<String>) -> Option<Seq<char>> {
    match o {
        Some(s) => Some(s@),
        None => None,
    }
}

/// The known keys among `ks` (static and prefix), in order.
pub open spec fn known_kinds(ks: Seq<KindView>) -> Seq<KindView>
    decreases ks.len(),
{
    if ks.len() == 0 {
        Seq::empty()
    } else if ks.last() is Dynamic {
        known_kinds(ks.drop_last())
    } else {
        known_kinds(ks.drop_last()).push(ks.last())
    }
}

/// Alternatives combine to their known keys, or to one dynamic usage when
/// none is known.
pub open spec fn settle(ks: Seq<KindView>) -> Seq<KindView> {
    if known_kinds(ks).len() > 0 {
        known_kinds(ks)
    } else {
        seq![KindView::Dynamic]
    }
}

/// The binding of `n` among `bs`: the last one.
pub open spec fn binding_in(bs: Seq<(Seq<char>, BindingView)>, n: Seq<char>) -> Option<BindingView>
    decreases bs.len(),
{
    if bs.len() == 0 {
        None
    } else if bs.last().0 == n {
        Some(bs.last().1)
    } else {
        binding_in(bs.drop_last(), n)
    }
}

/// The binding a name refers to: the innermost callback parameter, else the
/// latest `const`.
pub open spec fn lookup(st: ScanView, n: Seq<char>) -> Option<BindingView> {
    match binding_in(st.params, n) {
        Some(b) => Some(b),
        None => binding_in(st.consts, n),
    }
}

/// The keys of member `p` of an object map (its last member so named).
pub open spec fn member_keys(m: Seq<(Seq<char>, Seq<KindView>)>, p: Seq<char>) -> Option<Seq<KindView>>
    decreases m.len(),
{
    if m.len() == 0 {
        None
    } else if m.last().0 == p {
        Some(m.last().1)
    } else {
        member_keys(m.drop_last(), p)
    }
}

/// The keys of all members of an object map, in order.
pub open spec fn all_member_keys(m: Seq<(Seq<char>, Seq<KindView>)>) -> Seq<KindView>
    decreases m.len(),
{
    if m.len() == 0 {
        Seq::empty()
    } else {
        all_member_keys(m.drop_last()) + m.last().1
    }
}

/// Index of the function named `f` (the last one so named).
pub open spec fn function_index(fns: Seq<FunctionReturns>, f: Seq<char>) -> Option<int>
    decreases fns.len(),
{
    if fns.len() == 0 {
        None
    } else if fns.last().name@ == f {
        Some(fns.len() - 1)
    } else {
        function_index(fns.drop_last(), f)
    }
}

/// The key of a template literal: static without expressions, a prefix
/// when its leading text is non-empty, dynamic otherwise.
pub open spec fn template_key(head: Option<Seq<char>>, has_expressions: bool) -> KindView {
    let prefix = match head {
        Some(h) => h,
        None => Seq::empty(),
    };
    if !has_expressions {
        KindView::Static(prefix)
    } else if prefix.len() == 0 {
        KindView::Dynamic
    } else {
        KindView::Prefix(prefix)
    }
}

/// The keys an expression may denote.  Alternatives (array elements, the
/// branches of `?:`, the sides of `||` and `??`) settle to their known keys;
/// `&&` is dynamic; a name denotes what its binding holds; a member of an
/// object map denotes that member's keys, and a computed member all
/// members' keys; a call of a top-level function denotes what its `return`
/// statements denote (calls inside those are dynamic).
pub open spec fn eval(e: KeyExpr, st: ScanView, fns: Seq<FunctionReturns>, nested: bool) -> Seq<KindView>
    decreases (if nested { 0int } else { 1int }), e,
{
    match e {
        KeyExpr::Missing => Seq::empty(),
        KeyExpr::Literal(s) => seq![KindView::Static(s@)],
        KeyExpr::Template { head, has_expressions } => seq![
            template_key(opt_string_view(head), has_expressions),
        ],
        KeyExpr::Array(es) => settle(eval_all(es@, st, fns, nested)),
        KeyExpr::Conditional(a, b) => settle(eval(*a, st, fns, nested) + eval(*b, st, fns, nested)),
        KeyExpr::Or(a, b) => settle(eval(*a, st, fns, nested) + eval(*b, st, fns, nested)),
        KeyExpr::And(_, _) => seq![KindView::Dynamic],
        KeyExpr::Name(n) => match lookup(st, n@) {
            Some(BindingView::Keys(ks)) => ks,
            _ => seq![KindView::Dynamic],
        },
        KeyExpr::Member { object, property } => match lookup(st, object@) {
            Some(BindingView::Members(m)) => match property {
                Some(p) => match member_keys(m, p@) {
                    Some(ks) => ks,
                    None => seq![KindView::Dynamic],
                },
                None => settle(all_member_keys(m)),
            },
            _ => seq![KindView::Dynamic],
        },
        KeyExpr::CallOf(f) => if nested {
            seq![KindView::Dynamic]
        } else {
            match function_index(fns, f@) {
                Some(i) => {
                    if 0 <= i < fns.len() {
                        settle(eval_all(fns[i].returns@, st, fns, true))
                    } else {
                        seq![KindView::Dynamic]
                    }
                },
                None => seq![KindView::Dynamic],
            }
        },
        _ => seq![KindView::Dynamic],
    }
}

/// The keys of a sequence of expressions, in order.
pub open spec fn eval_all(es: Seq<KeyExpr>, st: ScanView, fns: Seq<FunctionReturns>, nested: bool) -> Seq<KindView>
    decreases (if nested { 0int } else { 1int }), es,
{
    if es.len() == 0 {
        Seq::empty()
    } else {
        eval_all(es.drop_last(), st, fns, nested) + eval(es.last(), st, fns, nested)
    }
}

/// The binding a `const` declaration creates: an object literal becomes an
/// object map of its members' keys; anything else binds the keys it denotes.
pub open spec fn binding_of(init: KeyExpr, st: ScanView, fns: Seq<FunctionReturns>) -> BindingView {
    match init {
        KeyExpr::Object(props) => BindingView::Members(
            props@.map_values(|m: (String, KeyExpr)| (m.0@, eval(m.1, st, fns, false))),
        ),
        _ => BindingView::Keys(eval(init, st, fns, false)),
    }
}

/// The string literals among `es`, in order.
pub open spec fn literal_strings(es: Seq<KeyExpr>) -> Seq<Seq<char>>
    decreases es.len(),
{
    if es.len() == 0 {
        Seq::empty()
    } else {
        let rest = literal_strings(es.drop_last());
        match es.last() {
            KeyExpr::Literal(s) => rest.push(s@),
            _ => rest,
        }
    }
}

/// The namespaces an argument names: a string literal names one, an array
/// names its string literals.
pub open spec fn namespace_list(e: KeyExpr) -> Seq<Seq<char>> {
    match e {
        KeyExpr::Literal(s) => seq![s@],
        KeyExpr::Array(es) => literal_strings(es@),
        _ => Seq::empty(),
    }
}

/// Index of the member named `name` among object members or attributes
/// (the last one so named).
pub open spec fn named_index(ms: Seq<(String, KeyExpr)>, name: Seq<char>) -> Option<int>
    decreases ms.len(),
{
    if ms.len() == 0 {
        None
    } else if ms.last().0@ == name {
        Some(ms.len() - 1)
    } else {
        named_index(ms.drop_last(), name)
    }
}

/// Whether a call brings namespaces into scope (`useTranslation(ns)` or
/// `getServerTranslate(ns)`).
pub open spec fn declares_namespaces(callee: Seq<char>) -> bool {
    callee == "useTranslation"@ || callee == "getServerTranslate"@
}

/// Whether a call translates a key (`t(key)` or `i18next.t(key)`).
pub open spec fn translates(callee: Seq<char>) -> bool {
    callee == "t"@ || callee == "i18next.t"@
}

/// The namespaces named by the `ns` member of a call's options object (its
/// second argument), when it names any.
pub open spec fn options_namespaces(args: Seq<KeyExpr>) -> Option<Seq<Seq<char>>> {
    if args.len() > 1 {
        match args[1] {
            KeyExpr::Object(props) => match named_index(props@, "ns"@) {
                Some(i) => if 0 <= i < props@.len() && namespace_list(props@[i].1).len() > 0 {
                    Some(namespace_list(props@[i].1))
                } else {
                    None
                },
                None => None,
            },
            _ => None,
        }
    } else {
        None
    }
}

/// The usage of key `k` found at `line`, with namespaces `base` in scope.
/// A key of the form `ns:key` names its namespace itself; a prefix of the
/// form `ns:` names its namespace and leaves the key dynamic.
pub open spec fn usage_for(path: Seq<char>, line: nat, base: Seq<Seq<char>>, k: KindView) -> UsageView {
    match k {
        KindView::Static(key) => match first_index_of(key, ':') {
            Some(i) => UsageView {
                path,
                line,
                namespaces: seq![key.take(i)],
                kind: KindView::Static(key.skip(i + 1)),
            },
            None => UsageView { path, line, namespaces: base, kind: k },
        },
        KindView::Prefix(p) => match first_index_of(p, ':') {
            Some(i) => UsageView {
                path,
                line,
                namespaces: seq![p.take(i)],
                kind: if p.skip(i + 1).len() > 0 {
                    KindView::Prefix(p.skip(i + 1))
                } else {
                    KindView::Dynamic
                },
            },
            None => UsageView { path, line, namespaces: base, kind: k },
        },
        KindView::Dynamic => UsageView { path, line, namespaces: base, kind: k },
    }
}

/// The usages of keys `ks` found at `line`.
pub open spec fn usages_for(path: Seq<char>, line: nat, base: Seq<Seq<char>>, ks: Seq<KindView>) -> Seq<
    UsageView,
> {
    ks.map_values(|k: KindView| usage_for(path, line, base, k))
}

/// The scan state after one event.
pub open spec fn step(st: ScanView, fns: Seq<FunctionReturns>, ev: SourceEvent) -> ScanView {
    match ev {
        SourceEvent::Call { callee, offset, args } => if declares_namespaces(callee@) && args@.len()
            > 0 {
            ScanView { namespaces: st.namespaces + namespace_list(args@[0]), ..st }
        } else {
            st
        },
        SourceEvent::Const { name, init } => ScanView {
            consts: st.consts.push((name@, binding_of(init, st, fns))),
            ..st
        },
        SourceEvent::CallbackStart { method, param, items } => ScanView {
            params: st.params.push(
                (
                    param@,
                    if method@ == "map"@ || method@ == "forEach"@ {
                        BindingView::Keys(eval(items, st, fns, false))
                    } else {
                        BindingView::Keys(seq![KindView::Dynamic])
                    },
                ),
            ),
            ..st
        },
        SourceEvent::CallbackEnd => ScanView {
            params: if st.params.len() > 0 {
                st.params.drop_last()
            } else {
                st.params
            },
            ..st
        },
        SourceEvent::Element { .. } => st,
    }
}

/// The usages one event records in state `st`: a translation call records
/// the keys of its first argument, in the namespaces of its options or else
/// those in scope; a `<Trans>` element records the keys of its `i18nKey`
/// attribute, in the namespace of its `ns` attribute or else those in scope.
pub open spec fn event_usages(
    path: Seq<char>,
    text: Seq<u8>,
    st: ScanView,
    fns: Seq<FunctionReturns>,
    ev: SourceEvent,
) -> Seq<UsageView> {
    match ev {
        SourceEvent::Call { callee, offset, args } => if translates(callee@) && args@.len() > 0 {
            usages_for(
                path,
                line_at(text, offset as nat),
                match options_namespaces(args@) {
                    Some(ns) => ns,
                    None => st.namespaces,
                },
                eval(args@[0], st, fns, false),
            )
        } else {
            Seq::empty()
        },
        SourceEvent::Element { name, offset, attributes } => if name@ == "Trans"@ {
            match named_index(attributes@, "i18nKey"@) {
                Some(i) => if 0 <= i < attributes@.len() {
                    usages_for(
                        path,
                        line_at(text, offset as nat),
                        match named_index(attributes@, "ns"@) {
                            Some(j) => if 0 <= j < attributes@.len() && attributes@[j].1 is Literal {
                                seq![attributes@[j].1->Literal_0@]
                            } else {
                                st.namespaces
                            },
                            None => st.namespaces,
                        },
                        eval(attributes@[i].1, st, fns, false),
                    )
                } else {
                    Seq::empty()
                },
                None => Seq::empty(),
            }
        } else {
            Seq::empty()
        },
        _ => Seq::empty(),
    }
}

/// The scan state after the events `evs`.
pub open spec fn scan(fns: Seq<FunctionReturns>, evs: Seq<SourceEvent>) -> ScanView
    decreases evs.len(),
{
    if evs.len() == 0 {
        ScanView { namespaces: Seq::empty(), consts: Seq::empty(), params: Seq::empty() }
    } else {
        step(scan(fns, evs.drop_last()), fns, evs.last())
    }
}

/// The usages recorded by the events `evs` of the file at `path`.
pub open spec fn file_usages(
    path: Seq<char>,
    text: Seq<u8>,
    fns: Seq<FunctionReturns>,
    evs: Seq<SourceEvent>,
) -> Seq<UsageView>
    decreases evs.len(),
{
    if evs.len() == 0 {
        Seq::empty()
    } else {
        file_usages(path, text, fns, evs.drop_last()) + event_usages(
            path,
            text,
            scan(fns, evs.drop_last()),
            fns,
            evs.last(),
        )
    }
}

// ---------------------------------------------------------------------------
// Evaluation of key expressions
// ---------------------------------------------------------------------------

fn clone_kind(k: &UsageKind) -> (r: UsageKind)
    ensures
        r@ == k@,
{
    match k {
        UsageKind::Static(s) => UsageKind::Static(s.clone()),
        UsageKind::Prefix(p) => UsageKind::Prefix(p.clone()),
        UsageKind::Dynamic => UsageKind::Dynamic,
    }
}

/// Appends copies of `ks` to `out`.
fn append_kinds(out: &mut Vec<UsageKind>, ks: &Vec<UsageKind>)
    ensures
        kinds_view(final(out)@) == kinds_view(old(out)@) + kinds_view(ks@),
{
    let mut i: usize = 0;
    while i < ks.len()
        invariant
            i <= ks@.len(),
            kinds_view(out@) == kinds_view(old(out)@) + kinds_view(ks@).take(i as int),
        decreases ks@.len() - i,
    {
        let ghost prev = out@;
        out.push(clone_kind(&ks[i]));
        assert(kinds_view(out@) =~= kinds_view(prev).push(ks@[i as int]@));
        assert(kinds_view(ks@).take(i + 1) =~= kinds_view(ks@).take(i as int).push(ks@[i as int]@));
        i = i + 1;
    }
    assert(kinds_view(ks@).take(ks@.len() as int) =~= kinds_view(ks@));
}

/// A copy of `ks`.
fn clone_kinds(ks: &Vec<UsageKind>) -> (r: Vec<UsageKind>)
    ensures
        kinds_view(r@) == kinds_view(ks@),
{
    let mut out: Vec<UsageKind> = Vec::new();
    append_kinds(&mut out, ks);
    assert(kinds_view(out@) =~= kinds_view(ks@));
    out
}

/// The known keys of `ks`, or one dynamic usage when none is known.
fn settle_kinds(ks: Vec<UsageKind>) -> (r: Vec<UsageKind>)
    ensures
        kinds_view(r@) == settle(kinds_view(ks@)),
{
    let ghost kv = kinds_view(ks@);
    let mut out: Vec<UsageKind> = Vec::new();
    let mut i: usize = 0;
    while i < ks.len()
        invariant
            i <= ks@.len(),
            kv == kinds_view(ks@),
            kinds_view(out@) == known_kinds(kv.take(i as int)),
        decreases ks@.len() - i,
    {
        assert(kv.take(i + 1).drop_last() =~= kv.take(i as int));
        assert(kv.take(i + 1).last() == ks@[i as int]@);
        match &ks[i] {
            UsageKind::Dynamic => {},
            k => {
                let ghost prev = out@;
                out.push(clone_kind(k));
                assert(kinds_view(out@) =~= kinds_view(prev).push(ks@[i as int]@));
            },
        }
        i = i + 1;
    }
    assert(kv.take(ks@.len() as int) =~= kv);
    if out.len() == 0 {
        let mut d: Vec<UsageKind> = Vec::new();
        d.push(UsageKind::Dynamic);
        assert(kinds_view(d@) =~= seq![KindView::Dynamic]);
        d
    } else {
        out
    }
}

fn one_kind(k: UsageKind) -> (r: Vec<UsageKind>)
    ensures
        kinds_view(r@) == seq![k@],
{
    let mut v: Vec<UsageKind> = Vec::new();
    v.push(k);
    assert(kinds_view(v@) =~= seq![k@]);
    v
}

/// Index of the binding of `n` among `bs` (the last one).
fn binding_index(bs: &Vec<(String, Binding)>, n: &String) -> (r: Option<usize>)
    ensures
        match r {
            Some(i) => i < bs@.len() && binding_in(bindings_view(bs@), n@) == Some(bs@[i as int].1@),
            None => binding_in(bindings_view(bs@), n@) is None,
        },
{
    let ghost bv = bindings_view(bs@);
    let mut found: Option<usize> = None;
    let mut i: usize = 0;
    while i < bs.len()
        invariant
            i <= bs@.len(),
            bv == bindings_view(bs@),
            match found {
                Some(j) => j < i && binding_in(bv.take(i as int), n@) == Some(bs@[j as int].1@),
                None => binding_in(bv.take(i as int), n@) is None,
            },
        decreases bs@.len() - i,
    {
        assert(bv.take(i + 1).drop_last() =~= bv.take(i as int));
        assert(bv.take(i + 1).last() == (bs@[i as int].0@, bs@[i as int].1@));
        if bs[i].0 == *n {
            found = Some(i);
        }
        i = i + 1;
    }
    assert(bv.take(bs@.len() as int) =~= bv);
    found
}

/// Index of member `p` of an object map (the last one so named).
fn member_index_of(m: &Vec<(String, Vec<UsageKind>)>, p: &String) -> (r: Option<usize>)
    ensures
        match r {
            Some(i) => i < m@.len() && member_keys(map_view(m@), p@) == Some(kinds_view(m@[i as int].1@)),
            None => member_keys(map_view(m@), p@) is None,
        },
{
    let ghost mv = map_view(m@);
    let mut found: Option<usize> = None;
    let mut i: usize = 0;
    while i < m.len()
        invariant
            i <= m@.len(),
            mv == map_view(m@),
            match found {
                Some(j) => j < i && member_keys(mv.take(i as int), p@) == Some(kinds_view(m@[j as int].1@)),
                None => member_keys(mv.take(i as int), p@) is None,
            },
        decreases m@.len() - i,
    {
        assert(mv.take(i + 1).drop_last() =~= mv.take(i as int));
        assert(mv.take(i + 1).last() == (m@[i as int].0@, kinds_view(m@[i as int].1@)));
        if m[i].0 == *p {
            found = Some(i);
        }
        i = i + 1;
    }
    assert(mv.take(m@.len() as int) =~= mv);
    found
}

/// The keys of all members of an object map.
fn all_members(m: &Vec<(String, Vec<UsageKind>)>) -> (r: Vec<UsageKind>)
    ensures
        kinds_view(r@) == all_member_keys(map_view(m@)),
{
    let ghost mv = map_view(m@);
    let mut out: Vec<UsageKind> = Vec::new();
    let mut i: usize = 0;
    while i < m.len()
        invariant
            i <= m@.len(),
            mv == map_view(m@),
            kinds_view(out@) == all_member_keys(mv.take(i as int)),
        decreases m@.len() - i,
    {
        assert(mv.take(i + 1).drop_last() =~= mv.take(i as int));
        assert(mv.take(i + 1).last() == (m@[i as int].0@, kinds_view(m@[i as int].1@)));
        append_kinds(&mut out, &m[i].1);
        i = i + 1;
    }
    assert(mv.take(m@.len() as int) =~= mv);
    out
}

/// Index of the function named `f` (the last one so named).
fn function_index_of(fns: &Vec<FunctionReturns>, f: &String) -> (r: Option<usize>)
    ensures
        match r {
            Some(i) => i < fns@.len() && function_index(fns@, f@) == Some(i as int),
            None => function_index(fns@, f@) is None,
        },
{
    let mut found: Option<usize> = None;
    let mut i: usize = 0;
    while i < fns.len()
        invariant
            i <= fns@.len(),
            match found {
                Some(j) => j < i && function_index(fns@.take(i as int), f@) == Some(j as int),
                None => function_index(fns@.take(i as int), f@) is None,
            },
        decreases fns@.len() - i,
    {
        assert(fns@.take(i + 1).drop_last() =~= fns@.take(i as int));
        if fns[i].name == *f {
            found = Some(i);
        }
        i = i + 1;
    }
    assert(fns@.take(fns@.len() as int) =~= fns@);
    found
}

/// The key of a template literal.
fn template_kind(head: &Option<String>, has_expressions: bool) -> (kind: UsageKind)
    ensures
        kind@ == template_key(opt_string_view(*head), has_expressions),
{
    let prefix = match head {
        Some(h) => h.clone(),
        None => String::new(),
    };
    if !has_expressions {
        UsageKind::Static(prefix)
    } else if prefix.as_str().is_empty() {
        UsageKind::Dynamic
    } else {
        UsageKind::Prefix(prefix)
    }
}

/// What is known while walking one file.
struct Scanner {
    namespaces: Vec<String>,
    consts: Vec<(String, Binding)>,
    params: Vec<(String, Binding)>,
}

impl Scanner {
    spec fn state(&self) -> ScanView {
        ScanView {
            namespaces: strings_view(self.namespaces@),
            consts: bindings_view(self.consts@),
            params: bindings_view(self.params@),
        }
    }

    /// The binding name `n` refers to.
    fn lookup(&self, n: &String) -> (r: Option<&Binding>)
        ensures
            match r {
                Some(b) => lookup(self.state(), n@) == Some(b@),
                None => lookup(self.state(), n@) is None,
            },
    {
        match binding_index(&self.params, n) {
            Some(i) => Some(&self.params[i].1),
            None => match binding_index(&self.consts, n) {
                Some(i) => Some(&self.consts[i].1),
                None => None,
            },
        }
    }
}

/// The keys expression `e` denotes.
fn eval_key(e: &KeyExpr, sc: &Scanner, fns: &Vec<FunctionReturns>, nested: bool) -> (r: Vec<UsageKind>)
    ensures
        kinds_view(r@) == eval(*e, sc.state(), fns@, nested),
    decreases (if nested { 0int } else { 1int }), *e,
{
    match e {
        KeyExpr::Missing => {
            let v: Vec<UsageKind> = Vec::new();
            assert(kinds_view(v@) =~= Seq::<KindView>::empty());
            v
        },
        KeyExpr::Literal(s) => one_kind(UsageKind::Static(s.clone())),
        KeyExpr::Template { head, has_expressions } => one_kind(template_kind(head, *has_expressions)),
        KeyExpr::Array(es) => {
            proof {
                assert(decreases_to!(*e => e->Array_0));
                assert(decreases_to!(e->Array_0 => es@));
            }
            settle_kinds(eval_keys(es, sc, fns, nested))
        },
        KeyExpr::Conditional(a, b) => {
            let mut ks = eval_key(a, sc, fns, nested);
            let kb = eval_key(b, sc, fns, nested);
            append_kinds(&mut ks, &kb);
            settle_kinds(ks)
        },
        KeyExpr::Or(a, b) => {
            let mut ks = eval_key(a, sc, fns, nested);
            let kb = eval_key(b, sc, fns, nested);
            append_kinds(&mut ks, &kb);
            settle_kinds(ks)
        },
        KeyExpr::And(_, _) => one_kind(UsageKind::Dynamic),
        KeyExpr::Name(n) => match sc.lookup(n) {
            Some(Binding::Keys(ks)) => clone_kinds(ks),
            _ => one_kind(UsageKind::Dynamic),
        },
        KeyExpr::Member { object, property } => match sc.lookup(object) {
            Some(Binding::Members(m)) => match property {
                Some(p) => match member_index_of(m, p) {
                    Some(i) => clone_kinds(&m[i].1),
                    None => one_kind(UsageKind::Dynamic),
                },
                None => settle_kinds(all_members(m)),
            },
            _ => one_kind(UsageKind::Dynamic),
        },
        KeyExpr::CallOf(f) => {
            if nested {
                one_kind(UsageKind::Dynamic)
            } else {
                match function_index_of(fns, f) {
                    Some(i) => settle_kinds(eval_keys(&fns[i].returns, sc, fns, true)),
                    None => one_kind(UsageKind::Dynamic),
                }
            }
        },
        _ => one_kind(UsageKind::Dynamic),
    }
}

/// The keys of a sequence of expressions, in order.
fn eval_keys(es: &Vec<KeyExpr>, sc: &Scanner, fns: &Vec<FunctionReturns>, nested: bool) -> (r: Vec<
    UsageKind,
>)
    ensures
        kinds_view(r@) == eval_all(es@, sc.state(), fns@, nested),
    decreases (if nested { 0int } else { 1int }), es@,
{
    let mut out: Vec<UsageKind> = Vec::new();
    let mut i: usize = 0;
    assert(kinds_view(out@) =~= eval_all(es@.take(0), sc.state(), fns@, nested));
    while i < es.len()
        invariant
            i <= es@.len(),
            kinds_view(out@) == eval_all(es@.take(i as int), sc.state(), fns@, nested),
        decreases es@.len() - i,
    {
        assert(es@.take(i + 1).drop_last() =~= es@.take(i as int));
        assert(es@.take(i + 1).last() == es@[i as int]);
        proof {
            assert(decreases_to!(es@ => es@[i as int]));
        }
        let ks = eval_key(&es[i], sc, fns, nested);
        append_kinds(&mut out, &ks);
        i = i + 1;
    }
    assert(es@.take(es@.len() as int) =~= es@);
    out
}

// ---------------------------------------------------------------------------
// Scanning events
// ---------------------------------------------------------------------------

/// The string literals among `es`, in order.
fn literal_strings_of(es: &Vec<KeyExpr>) -> (r: Vec<String>)
    ensures
        strings_view(r@) == literal_strings(es@),
{
    let mut out: Vec<String> = Vec::new();
    let mut i: usize = 0;
    while i < es.len()
        invariant
            i <= es@.len(),
            strings_view(out@) == literal_strings(es@.take(i as int)),
        decreases es@.len() - i,
    {
        assert(es@.take(i + 1).drop_last() =~= es@.take(i as int));
        assert(es@.take(i + 1).last() == es@[i as int]);
        match &es[i] {
            KeyExpr::Literal(s) => {
                let ghost prev = out@;
                out.push(s.clone());
                assert(strings_view(out@) =~= strings_view(prev).push(s@));
            },
            _ => {},
        }
        i = i + 1;
    }
    assert(es@.take(es@.len() as int) =~= es@);
    out
}

/// The namespaces an argument names.
fn namespace_list_of(e: &KeyExpr) -> (r: Vec<String>)
    ensures
        strings_view(r@) == namespace_list(*e),
{
    match e {
        KeyExpr::Literal(s) => {
            let mut v: Vec<String> = Vec::new();
            v.push(s.clone());
            assert(strings_view(v@) =~= seq![s@]);
            v
        },
        KeyExpr::Array(es) => literal_strings_of(es),
        _ => {
            let v: Vec<String> = Vec::new();
            assert(strings_view(v@) =~= Seq::<Seq<char>>::empty());
            v
        },
    }
}

/// Index of the member named `name` (the last one so named).
fn named_index_of(ms: &Vec<(String, KeyExpr)>, name: &String) -> (r: Option<usize>)
    ensures
        match r {
            Some(i) => i < ms@.len() && named_index(ms@, name@) == Some(i as int),
            None => named_index(ms@, name@) is None,
        },
{
    let mut found: Option<usize> = None;
    let mut i: usize = 0;
    while i < ms.len()
        invariant
            i <= ms@.len(),
            match found {
                Some(j) => j < i && named_index(ms@.take(i as int), name@) == Some(j as int),
                None => named_index(ms@.take(i as int), name@) is None,
            },
        decreases ms@.len() - i,
    {
        assert(ms@.take(i + 1).drop_last() =~= ms@.take(i as int));
        if ms[i].0 == *name {
            found = Some(i);
        }
        i = i + 1;
    }
    assert(ms@.take(ms@.len() as int) =~= ms@);
    found
}

/// The namespaces named by a call's options object.
fn options_namespaces_of(args: &Vec<KeyExpr>) -> (r: Option<Vec<String>>)
    ensures
        match r {
            Some(ns) => options_namespaces(args@) == Some(strings_view(ns@)),
            None => options_namespaces(args@) is None,
        },
{
    if args.len() > 1 {
        match &args[1] {
            KeyExpr::Object(props) => {
                let ns_name = String::from_str("ns");
                match named_index_of(props, &ns_name) {
                    Some(i) => {
                        let ns = namespace_list_of(&props[i].1);
                        if ns.len() > 0 {
                            Some(ns)
                        } else {
                            None
                        }
                    },
                    None => None,
                }
            },
            _ => None,
        }
    } else {
        None
    }
}

/// The binding a `const` declaration creates.
fn binding_for(init: &KeyExpr, sc: &Scanner, fns: &Vec<FunctionReturns>) -> (r: Binding)
    ensures
        r@ == binding_of(*init, sc.state(), fns@),
{
    match init {
        KeyExpr::Object(props) => {
            let ghost target = props@.map_values(
                |m: (String, KeyExpr)| (m.0@, eval(m.1, sc.state(), fns@, false)),
            );
            let mut out: Vec<(String, Vec<UsageKind>)> = Vec::new();
            let mut i: usize = 0;
            while i < props.len()
                invariant
                    i <= props@.len(),
                    target == props@.map_values(
                        |m: (String, KeyExpr)| (m.0@, eval(m.1, sc.state(), fns@, false)),
                    ),
                    map_view(out@) == target.take(i as int),
                decreases props@.len() - i,
            {
                let name = props[i].0.clone();
                let ks = eval_key(&props[i].1, sc, fns, false);
                let ghost prev = out@;
                out.push((name, ks));
                assert(map_view(out@) =~= map_view(prev).push(target[i as int]));
                assert(target.take(i + 1) =~= target.take(i as int).push(target[i as int]));
                i = i + 1;
            }
            assert(target.take(props@.len() as int) =~= target);
            Binding::Members(out)
        },
        _ => Binding::Keys(eval_key(init, sc, fns, false)),
    }
}

/// Position of the first `:` in `key`, with the text before and after it.
fn split_namespace(key: &String) -> (r: Option<(String, String)>)
    ensures
        match r {
            Some((ns, rest)) => first_index_of(key@, ':') matches Some(i) && ns@ == key@.take(i)
                && rest@ == key@.skip(i + 1),
            None => first_index_of(key@, ':') is None,
        },
{
    let cs = chars_of(key.as_str());
    let n = cs.len();
    let ghost s = key@;
    let mut i: usize = 0;
    assert(s.skip(0) =~= s);
    while i < n
        invariant
            cs@ == s,
            s == key@,
            n == s.len(),
            i <= n,
            first_index_of(s, ':') == match first_index_of(s.skip(i as int), ':') {
                Some(j) => Some(j + i),
                None => None,
            },
        decreases n - i,
    {
        assert(s.skip(i as int)[0] == s[i as int]);
        if cs[i] == ':' {
            let ns = key.as_str().substring_char(0, i).to_owned();
            let rest = key.as_str().substring_char(i + 1, n).to_owned();
            return Some((ns, rest));
        }
        assert(s.skip(i as int).drop_first() =~= s.skip(i + 1));
        i = i + 1;
    }
    assert(s.skip(i as int).len() == 0);
    None
}

/// The usage of key `k` found at `line`, with namespaces `base` in scope.
fn usage_for_kind(path: &String, line: usize, base: &Vec<String>, k: &UsageKind) -> (u: Usage)
    ensures
        u@ == usage_for(path@, line as nat, strings_view(base@), k@),
{
    match k {
        UsageKind::Static(key) => match split_namespace(key) {
            Some((ns, rest)) => {
                let mut namespaces: Vec<String> = Vec::new();
                namespaces.push(ns);
                let u = Usage {
                    path: path.clone(),
                    line,
                    namespaces,
                    kind: UsageKind::Static(rest),
                };
                assert(u@.namespaces =~= usage_for(path@, line as nat, strings_view(base@), k@).namespaces);
                u
            },
            None => Usage {
                path: path.clone(),
                line,
                namespaces: clone_strings(base),
                kind: UsageKind::Static(key.clone()),
            },
        },
        UsageKind::Prefix(p) => match split_namespace(p) {
            Some((ns, rest)) => {
                let mut namespaces: Vec<String> = Vec::new();
                namespaces.push(ns);
                let kind = if rest.as_str().is_empty() {
                    UsageKind::Dynamic
                } else {
                    UsageKind::Prefix(rest)
                };
                let u = Usage { path: path.clone(), line, namespaces, kind };
                assert(u@.namespaces =~= usage_for(path@, line as nat, strings_view(base@), k@).namespaces);
                u
            },
            None => Usage {
                path: path.clone(),
                line,
                namespaces: clone_strings(base),
                kind: UsageKind::Prefix(p.clone()),
            },
        },
        UsageKind::Dynamic => Usage {
            path: path.clone(),
            line,
            namespaces: clone_strings(base),
            kind: UsageKind::Dynamic,
        },
    }
}

/// Appends the usages of keys `ks` found at `line` to `out`.
fn push_usages(out: &mut Vec<Usage>, path: &String, line: usize, base: &Vec<String>, ks: &Vec<UsageKind>)
    ensures
        usages_view(final(out)@) == usages_view(old(out)@) + usages_for(
            path@,
            line as nat,
            strings_view(base@),
            kinds_view(ks@),
        ),
{
    let ghost target = usages_for(path@, line as nat, strings_view(base@), kinds_view(ks@));
    let mut i: usize = 0;
    while i < ks.len()
        invariant
            i <= ks@.len(),
            target == usages_for(path@, line as nat, strings_view(base@), kinds_view(ks@)),
            target.len() == ks@.len(),
            usages_view(out@) == usages_view(old(out)@) + target.take(i as int),
        decreases ks@.len() - i,
    {
        let u = usage_for_kind(path, line, base, &ks[i]);
        let ghost prev = out@;
        out.push(u);
        assert(target[i as int] == usage_for(path@, line as nat, strings_view(base@), ks@[i as int]@));
        assert(usages_view(out@) =~= usages_view(prev).push(u@));
        assert(target.take(i + 1) =~= target.take(i as int).push(target[i as int]));
        i = i + 1;
    }
    assert(target.take(ks@.len() as int) =~= target);
}

/// Appends copies of `v` to `out`.
fn append_strings(out: &mut Vec<String>, v: &Vec<String>)
    ensures
        strings_view(final(out)@) == strings_view(old(out)@) + strings_view(v@),
{
    let mut i: usize = 0;
    while i < v.len()
        invariant
            i <= v@.len(),
            strings_view(out@) == strings_view(old(out)@) + strings_view(v@).take(i as int),
        decreases v@.len() - i,
    {
        let ghost prev = out@;
        out.push(v[i].clone());
        assert(strings_view(out@) =~= strings_view(prev).push(v@[i as int]@));
        assert(strings_view(v@).take(i + 1) =~= strings_view(v@).take(i as int).push(v@[i as int]@));
        i = i + 1;
    }
    assert(strings_view(v@).take(v@.len() as int) =~= strings_view(v@));
}

impl Scanner {
    /// Appends to `out` the usages that event `ev` records in the current state.
    fn record_usages(
        &self,
        path: &String,
        source: &str,
        fns: &Vec<FunctionReturns>,
        ev: &SourceEvent,
        out: &mut Vec<Usage>,
    )
        requires
            source.spec_bytes().len() < usize::MAX,
        ensures
            usages_view(final(out)@) == usages_view(old(out)@) + event_usages(
                path@,
                source.spec_bytes(),
                self.state(),
                fns@,
                *ev,
            ),
    {
        let ghost expected = event_usages(path@, source.spec_bytes(), self.state(), fns@, *ev);
        match ev {
            SourceEvent::Call { callee, offset, args } => {
                let t_name = String::from_str("t");
                let i18next_t = String::from_str("i18next.t");
                if (*callee == t_name || *callee == i18next_t) && args.len() > 0 {
                    let ks = eval_key(&args[0], self, fns, false);
                    let line = line_of_offset(source, *offset);
                    match options_namespaces_of(args) {
                        Some(ns) => push_usages(out, path, line, &ns, &ks),
                        None => push_usages(out, path, line, &self.namespaces, &ks),
                    }
                } else {
                    assert(expected =~= Seq::<UsageView>::empty());
                    assert(usages_view(out@) =~= usages_view(old(out)@) + expected);
                }
            },
            SourceEvent::Element { name, offset, attributes } => {
                let trans = String::from_str("Trans");
                let key_attr = String::from_str("i18nKey");
                let ns_attr = String::from_str("ns");
                let mut recorded = false;
                if *name == trans {
                    match named_index_of(attributes, &key_attr) {
                        Some(i) => {
                            let ks = eval_key(&attributes[i].1, self, fns, false);
                            let line = line_of_offset(source, *offset);
                            let base: Vec<String> = match named_index_of(attributes, &ns_attr) {
                                Some(j) => match &attributes[j].1 {
                                    KeyExpr::Literal(ns) => {
                                        let mut v: Vec<String> = Vec::new();
                                        v.push(ns.clone());
                                        assert(strings_view(v@) =~= seq![ns@]);
                                        v
                                    },
                                    _ => clone_strings(&self.namespaces),
                                },
                                None => clone_strings(&self.namespaces),
                            };
                            push_usages(out, path, line, &base, &ks);
                            recorded = true;
                        },
                        None => {},
                    }
                }
                if !recorded {
                    assert(expected =~= Seq::<UsageView>::empty());
                    assert(usages_view(out@) =~= usages_view(old(out)@) + expected);
                }
            },
            _ => {
                assert(expected =~= Seq::<UsageView>::empty());
                assert(usages_view(out@) =~= usages_view(old(out)@) + expected);
            },
        }
    }

    /// Advances the state past event `ev`.
    fn advance(&mut self, fns: &Vec<FunctionReturns>, ev: &SourceEvent)
        ensures
            final(self).state() == step(old(self).state(), fns@, *ev),
    {
        match ev {
            SourceEvent::Call { callee, offset, args } => {
                let use_translation = String::from_str("useTranslation");
                let server = String::from_str("getServerTranslate");
                if (*callee == use_translation || *callee == server) && args.len() > 0 {
                    let ns = namespace_list_of(&args[0]);
                    append_strings(&mut self.namespaces, &ns);
                }
                assert(self.state().namespaces =~= step(old(self).state(), fns@, *ev).namespaces);
            },
            SourceEvent::Const { name, init } => {
                let b = binding_for(init, self, fns);
                let ghost prev = self.consts@;
                self.consts.push((name.clone(), b));
                assert(bindings_view(self.consts@) =~= bindings_view(prev).push((name@, b@)));
            },
            SourceEvent::CallbackStart { method, param, items } => {
                let map_name = String::from_str("map");
                let for_each = String::from_str("forEach");
                let b = if *method == map_name || *method == for_each {
                    Binding::Keys(eval_key(items, self, fns, false))
                } else {
                    Binding::Keys(one_kind(UsageKind::Dynamic))
                };
                let ghost prev = self.params@;
                self.params.push((param.clone(), b));
                assert(bindings_view(self.params@) =~= bindings_view(prev).push((param@, b@)));
            },
            SourceEvent::CallbackEnd => {
                let ghost prev = self.params@;
                if self.params.len() > 0 {
                    self.params.pop();
                    assert(bindings_view(self.params@) =~= bindings_view(prev).drop_last());
                }
            },
            SourceEvent::Element { .. } => {},
        }
    }
}

/// The usages that the events of one source file record, in order.
///
/// `events` are what a depth-first walk of the file at `path` met, in walk
/// order; `functions` are the file's top-level function declarations;
/// `source` is the file's text, from which each usage's line is computed.
pub fn collect_file_usages(
    path: &String,
    source: &str,
    functions: &Vec<FunctionReturns>,
    events: &Vec<SourceEvent>,
) -> (usages: Vec<Usage>)
    requires
        source.spec_bytes().len() < usize::MAX,
    ensures
        usages_view(usages@) == file_usages(path@, source.spec_bytes(), functions@, events@),
{
    let mut scanner = Scanner { namespaces: Vec::new(), consts: Vec::new(), params: Vec::new() };
    let mut usages: Vec<Usage> = Vec::new();
    assert(scanner.state() == scan(functions@, events@.take(0))) by {
        assert(scanner.state().namespaces =~= Seq::<Seq<char>>::empty());
        assert(scanner.state().consts =~= Seq::<(Seq<char>, BindingView)>::empty());
        assert(scanner.state().params =~= Seq::<(Seq<char>, BindingView)>::empty());
    }
    assert(usages_view(usages@) =~= file_usages(path@, source.spec_bytes(), functions@, events@.take(0)));
    let mut i: usize = 0;
    while i < events.len()
        invariant
            i <= events@.len(),
            source.spec_bytes().len() < usize::MAX,
            scanner.state() == scan(functions@, events@.take(i as int)),
            usages_view(usages@) == file_usages(
                path@,
                source.spec_bytes(),
                functions@,
                events@.take(i as int),
            ),
        decreases events@.len() - i,
    {
        assert(events@.take(i + 1).drop_last() =~= events@.take(i as int));
        assert(events@.take(i + 1).last() == events@[i as int]);
        scanner.record_usages(path, source, functions, &events[i], &mut usages);
        scanner.advance(functions, &events[i]);
        i = i + 1;
    }
    assert(events@.take(events@.len() as int) =~= events@);
    usages
}

/// Number of newline bytes in `bytes`.
pub open spec fn count_newlines(bytes: Seq<u8>) -> nat
    decreases bytes.len(),
{
    if bytes.len() == 0 {
        0
    } else {
        count_newlines(bytes.drop_last()) + if bytes.last() == 10u8 { 1nat } else { 0nat }
    }
}

/// The 1-based line on which byte `offset` of `text` lies (an offset past
/// the end counts as the end).
pub open spec fn line_at(text: Seq<u8>, offset: nat) -> nat {
    let end = if offset <= text.len() { offset as int } else { text.len() as int };
    1 + count_newlines(text.take(end))
}

/// The 1-based line of byte `offset` in `text`.
pub fn line_of_offset(text: &str, offset: usize) -> (line: usize)
    requires
        text.spec_bytes().len() < usize::MAX,
    ensures
        line == line_at(text.spec_bytes(), offset as nat),
{
    let bytes = text.as_bytes();
    let end = if offset <= bytes.len() { offset } else { bytes.len() };
    let mut line: usize = 1;
    let mut i: usize = 0;
    while i < end
        invariant
            end <= bytes@.len() < usize::MAX,
            bytes@ == text.spec_bytes(),
            i <= end,
            line == 1 + count_newlines(bytes@.take(i as int)),
            line <= i + 1,
        decreases end - i,
    {
        assert(bytes@.take(i + 1).drop_last() =~= bytes@.take(i as int));
        if bytes[i] == 10u8 {
            line = line + 1;
        }
        i = i + 1;
    }
    line
}

/// Whether a path names a JavaScript or TypeScript source file: the
/// extension of its file name is `ts`, `tsx`, `js` or `jsx`.
pub open spec fn is_supported_source_path(path: Seq<char>) -> bool {
    match extension(path) {
        Some(e) => e == "ts"@ || e == "tsx"@ || e == "js"@ || e == "jsx"@,
        None => false,
    }
}

/// Whether the file at `path` is scanned for translation calls.
pub fn is_supported_source_file(path: &str) -> (r: bool)
    ensures
        r == is_supported_source_path(path@),
{
    let cs = chars_of(path);
    let n = trimmed_len(&cs);
    match extension_dot_index(&cs) {
        Some(d) => {
            assert(path_trimmed(path@).skip(d + 1) =~= path@.subrange(d + 1, n as int));
            let ext = path.substring_char(d + 1, n).to_owned();
            ext == String::from_str("ts") || ext == String::from_str("tsx") || ext
                == String::from_str("js") || ext == String::from_str("jsx")
        },
        None => false,
    }
}


// ---------------------------------------------------------------------------
// Properties
// ---------------------------------------------------------------------------

proof fn lemma_function_index_last(fns: Seq<FunctionReturns>, f: Seq<char>, i: int)
    requires
        0 <= i < fns.len(),
        fns[i].name@ == f,
        forall|k: int| i < k < fns.len() ==> (#[trigger] fns[k]).name@ != f,
    ensures
        function_index(fns, f) == Some(i),
    decreases fns.len(),
{
    if i < fns.len() - 1 {
        let init = fns.drop_last();
        assert(fns.last() == fns[fns.len() - 1]);
        assert forall|k: int| i < k < init.len() implies (#[trigger] init[k]).name@ != f by {
            assert(init[k] == fns[k]);
        }
        lemma_function_index_last(init, f, i);
    }
}

proof fn lemma_eval_all_contains(
    es: Seq<KeyExpr>,
    st: ScanView,
    fns: Seq<FunctionReturns>,
    nested: bool,
    j: int,
    x: KindView,
)
    requires
        0 <= j < es.len(),
        eval(es[j], st, fns, nested).contains(x),
    ensures
        eval_all(es, st, fns, nested).contains(x),
    decreases es.len(),
{
    let init = es.drop_last();
    let left = eval_all(init, st, fns, nested);
    let right = eval(es.last(), st, fns, nested);
    assert(eval_all(es, st, fns, nested) == left + right);
    if j < es.len() - 1 {
        assert(init[j] == es[j]);
        lemma_eval_all_contains(init, st, fns, nested, j, x);
        let m = choose|m: int| 0 <= m < left.len() && left[m] == x;
        assert((left + right)[m] == x);
    } else {
        let m = choose|m: int| 0 <= m < right.len() && right[m] == x;
        assert((left + right)[left.len() + m] == x);
    }
}

proof fn lemma_known_kinds_contains(ks: Seq<KindView>, x: KindView)
    requires
        ks.contains(x),
        !(x is Dynamic),
    ensures
        known_kinds(ks).contains(x),
    decreases ks.len(),
{
    let m = choose|m: int| 0 <= m < ks.len() && ks[m] == x;
    if m < ks.len() - 1 {
        assert(ks.drop_last()[m] == x);
        lemma_known_kinds_contains(ks.drop_last(), x);
        let known = known_kinds(ks.drop_last());
        let w = choose|w: int| 0 <= w < known.len() && known[w] == x;
        if !(ks.last() is Dynamic) {
            assert(known.push(ks.last())[w] == x);
        }
    } else {
        assert(ks.last() == x);
        let known = known_kinds(ks.drop_last());
        assert(known.push(x)[known.len() as int] == x);
    }
}

/// Calling a top-level function denotes every key its `return` statements
/// denote: each `return "key"` of the (last) function of that name is a
/// static key of the call.
pub proof fn law_call_denotes_every_return(
    st: ScanView,
    fns: Seq<FunctionReturns>,
    name: String,
    i: int,
    j: int,
)
    requires
        0 <= i < fns.len(),
        fns[i].name@ == name@,
        forall|k: int| i < k < fns.len() ==> (#[trigger] fns[k]).name@ != name@,
        0 <= j < fns[i].returns@.len(),
        fns[i].returns@[j] is Literal,
    ensures
        eval(KeyExpr::CallOf(name), st, fns, false).contains(
            KindView::Static(fns[i].returns@[j]->Literal_0@),
        ),
{
    let x = KindView::Static(fns[i].returns@[j]->Literal_0@);
    lemma_function_index_last(fns, name@, i);
    let rs = fns[i].returns@;
    assert(eval(rs[j], st, fns, true) == seq![x]);
    assert(eval(rs[j], st, fns, true)[0] == x);
    lemma_eval_all_contains(rs, st, fns, true, j, x);
    lemma_known_kinds_contains(eval_all(rs, st, fns, true), x);
}

/// A translation call `t(f())` of a top-level function `f` records a static
/// usage of every key that a `return` statement of `f` holds (a key without
/// a `ns:` part), whatever events came before.
pub proof fn law_translated_call_records_every_return(
    path: Seq<char>,
    text: Seq<u8>,
    fns: Seq<FunctionReturns>,
    evs: Seq<SourceEvent>,
    callee: String,
    offset: usize,
    args: Vec<KeyExpr>,
    i: int,
    j: int,
)
    requires
        callee@ == "t"@,
        args@.len() > 0,
        args@[0] is CallOf,
        0 <= i < fns.len(),
        fns[i].name@ == args@[0]->CallOf_0@,
        forall|k: int| i < k < fns.len() ==> (#[trigger] fns[k]).name@ != args@[0]->CallOf_0@,
        0 <= j < fns[i].returns@.len(),
        fns[i].returns@[j] is Literal,
        !fns[i].returns@[j]->Literal_0@.contains(':'),
    ensures
        exists|u: int|
            0 <= u < file_usages(
                path,
                text,
                fns,
                evs.push(SourceEvent::Call { callee, offset, args }),
            ).len() && (#[trigger] file_usages(
                path,
                text,
                fns,
                evs.push(SourceEvent::Call { callee, offset, args }),
            )[u]).kind == KindView::Static(fns[i].returns@[j]->Literal_0@),
{
    let ev = SourceEvent::Call { callee, offset, args };
    let all = evs.push(ev);
    assert(all.drop_last() =~= evs);
    assert(all.last() == ev);
    let key = fns[i].returns@[j]->Literal_0@;
    let x = KindView::Static(key);
    let st = scan(fns, evs);
    let fname = args@[0]->CallOf_0;
    law_call_denotes_every_return(st, fns, fname, i, j);
    assert(args@[0] == KeyExpr::CallOf(fname));
    let ks = eval(args@[0], st, fns, false);
    let m = choose|m: int| 0 <= m < ks.len() && ks[m] == x;
    let base = match options_namespaces(args@) {
        Some(ns) => ns,
        None => st.namespaces,
    };
    let line = line_at(text, offset as nat);
    lemma_first_index_bounds(key, ':');
    assert(first_index_of(key, ':') is None) by {
        if first_index_of(key, ':') is Some {
            let c = first_index_of(key, ':')->0;
            assert(key.contains(key[c]));
        }
    }
    let here = usages_for(path, line, base, ks);
    assert(event_usages(path, text, st, fns, ev) == here);
    assert(here[m] == usage_for(path, line, base, x));
    let before = file_usages(path, text, fns, evs);
    assert(file_usages(path, text, fns, all) == before + here);
    assert(file_usages(path, text, fns, all)[before.len() + m] == here[m]);
}

/// Namespaces only accumulate within a file: those in scope after a prefix
/// of the events are a prefix of those in scope after more events.
pub proof fn law_scope_only_grows(fns: Seq<FunctionReturns>, evs: Seq<SourceEvent>, a: int)
    requires
        0 <= a <= evs.len(),
    ensures
        scan(fns, evs.take(a)).namespaces.is_prefix_of(scan(fns, evs).namespaces),
    decreases evs.len() - a,
{
    if a < evs.len() {
        law_scope_only_grows(fns, evs.drop_last(), a);
        assert(evs.drop_last().take(a) =~= evs.take(a));
        let before = scan(fns, evs.drop_last()).namespaces;
        let after = scan(fns, evs).namespaces;
        assert(before.is_prefix_of(after));
    } else {
        assert(evs.take(a) =~= evs);
    }
}

/// A translation call `t("key")` without options records one usage: of the
/// static key `key` in the namespaces in scope; or, when the key reads
/// `ns:rest`, of `rest` in namespace `ns`.
pub proof fn law_literal_call_records_its_key(
    path: Seq<char>,
    text: Seq<u8>,
    fns: Seq<FunctionReturns>,
    evs: Seq<SourceEvent>,
    callee: String,
    offset: usize,
    args: Vec<KeyExpr>,
)
    requires
        callee@ == "t"@ || callee@ == "i18next.t"@,
        args@.len() == 1,
        args@[0] is Literal,
    ensures
        ({
            let key = args@[0]->Literal_0@;
            let before = file_usages(path, text, fns, evs);
            let after = file_usages(
                path,
                text,
                fns,
                evs.push(SourceEvent::Call { callee, offset, args }),
            );
            &&& after.len() == before.len() + 1
            &&& after.take(before.len() as int) == before
            &&& after.last().path == path
            &&& after.last().line == line_at(text, offset as nat)
            &&& (!key.contains(':') ==> after.last().namespaces == scan(fns, evs).namespaces
                && after.last().kind == KindView::Static(key))
            &&& forall|i: int|
                0 <= i < key.len() && key[i] == ':' && !key.take(i).contains(':')
                    ==> after.last().namespaces == seq![key.take(i)] && after.last().kind
                    == KindView::Static(key.skip(i + 1))
        }),
{
    let ev = SourceEvent::Call { callee, offset, args };
    let all = evs.push(ev);
    assert(all.drop_last() =~= evs);
    assert(all.last() == ev);
    let key = args@[0]->Literal_0@;
    let st = scan(fns, evs);
    assert(eval(args@[0], st, fns, false) == seq![KindView::Static(key)]);
    assert(options_namespaces(args@) is None);
    let here = event_usages(path, text, st, fns, ev);
    let before = file_usages(path, text, fns, evs);
    assert(file_usages(path, text, fns, all) == before + here);
    assert(here.len() == 1);
    assert((before + here).take(before.len() as int) =~= before);
    assert((before + here).last() == here[0]);
    lemma_first_index_bounds(key, ':');
    if !key.contains(':') {
        assert(first_index_of(key, ':') is None) by {
            if first_index_of(key, ':') is Some {
                let c = first_index_of(key, ':')->0;
                assert(key.contains(key[c]));
            }
        }
    }
    assert forall|i: int|
        0 <= i < key.len() && key[i] == ':' && !key.take(i).contains(':') implies here[0].namespaces
        == seq![key.take(i)] && here[0].kind == KindView::Static(key.skip(i + 1)) by {
        assert(first_index_of(key, ':') is Some);
        let c = first_index_of(key, ':')->0;
        if c < i {
            assert(key.take(i)[c] == ':');
        } else if c > i {
        }
        assert(c == i);
    }
}

proof fn lemma_count_newlines_take(text: Seq<u8>, a: int, b: int)
    requires
        0 <= a <= b <= text.len(),
    ensures
        count_newlines(text.take(a)) <= count_newlines(text.take(b)),
    decreases b - a,
{
    if a < b {
        lemma_count_newlines_take(text, a, b - 1);
        assert(text.take(b).drop_last() =~= text.take(b - 1));
    }
}

/// Lines are numbered from 1 and never decrease along the text.
pub proof fn law_lines_increase(text: Seq<u8>, o1: nat, o2: nat)
    requires
        o1 <= o2,
    ensures
        1 <= line_at(text, o1) <= line_at(text, o2),
{
    let e1 = if o1 <= text.len() { o1 as int } else { text.len() as int };
    let e2 = if o2 <= text.len() { o2 as int } else { text.len() as int };
    lemma_count_newlines_take(text, e1, e2);
}

proof fn lemma_known_kinds(ks: Seq<KindView>)
    ensures
        forall|i: int| 0 <= i < known_kinds(ks).len() ==> !(#[trigger] known_kinds(ks)[i] is Dynamic),
        forall|i: int| 0 <= i < ks.len() && !(ks[i] is Dynamic) ==> known_kinds(ks).contains(
            #[trigger] ks[i],
        ),
        forall|i: int|
            0 <= i < known_kinds(ks).len() ==> ks.contains(#[trigger] known_kinds(ks)[i]),
    decreases ks.len(),
{
    if ks.len() > 0 {
        let init = ks.drop_last();
        lemma_known_kinds(init);
        let k0 = known_kinds(init);
        let k1 = known_kinds(ks);
        assert forall|i: int| 0 <= i < ks.len() && !(ks[i] is Dynamic) implies k1.contains(
            #[trigger] ks[i],
        ) by {
            if i < init.len() {
                assert(init[i] == ks[i]);
                let j = choose|j: int| 0 <= j < k0.len() && k0[j] == init[i];
                assert(k1[j] == k0[j]);
            } else {
                assert(k1[k1.len() - 1] == ks[i]);
            }
        }
        assert forall|i: int| 0 <= i < k1.len() implies ks.contains(#[trigger] k1[i]) by {
            if i < k0.len() {
                assert(k1[i] == k0[i]);
                let j = choose|j: int| 0 <= j < init.len() && init[j] == k0[i];
                assert(ks[j] == init[j]);
            } else {
                assert(ks[ks.len() - 1] == k1[i]);
            }
        }
    }
}

/// Alternatives keep exactly their known keys: a settled list is the known
/// keys of the alternatives when there are any, and a single dynamic usage
/// otherwise.
pub proof fn law_settle(ks: Seq<KindView>, k: KindView)
    ensures
        !(k is Dynamic) ==> (settle(ks).contains(k) <==> ks.contains(k)),
        settle(ks).contains(KindView::Dynamic) <==> (forall|i: int|
            0 <= i < ks.len() ==> (#[trigger] ks[i]) is Dynamic),
{
    lemma_known_kinds(ks);
    if !(k is Dynamic) && ks.contains(k) {
        let i = choose|i: int| 0 <= i < ks.len() && ks[i] == k;
        assert(known_kinds(ks).contains(ks[i]));
    }
    if !(k is Dynamic) && settle(ks).contains(k) {
        if known_kinds(ks).len() == 0 {
            assert(settle(ks)[0] == KindView::Dynamic);
        } else {
            let j = choose|j: int| 0 <= j < known_kinds(ks).len() && known_kinds(ks)[j] == k;
            assert(ks.contains(known_kinds(ks)[j]));
        }
    }
    if forall|i: int| 0 <= i < ks.len() ==> (#[trigger] ks[i]) is Dynamic {
        if known_kinds(ks).len() > 0 {
            assert(ks.contains(known_kinds(ks)[0]));
            let j = choose|j: int| 0 <= j < ks.len() && ks[j] == known_kinds(ks)[0];
            assert(ks[j] is Dynamic);
        }
        assert(settle(ks)[0] == KindView::Dynamic);
    }
    if settle(ks).contains(KindView::Dynamic) {
        if known_kinds(ks).len() > 0 {
            let j = choose|j: int| 0 <= j < known_kinds(ks).len() && known_kinds(ks)[j] == KindView::Dynamic;
        }
        assert forall|i: int| 0 <= i < ks.len() implies (#[trigger] ks[i]) is Dynamic by {
            if !(ks[i] is Dynamic) {
                assert(known_kinds(ks).contains(ks[i]));
            }
        }
    }
}

} // verus!
