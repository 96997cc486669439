//! Analysis that maps locale keys to observed translation usages.
//!
//! A usage is attributed to one namespace: the first namespace in scope
//! whose catalog defines the key (static usage) or some key with the prefix
//! (prefix usage), and otherwise the first namespace in scope.  A locale key
//! is protected when a usage attributed to its namespace names it exactly or
//! contributes a prefix of it; every other key is reported as unused.
use vstd::prelude::*;
use crate::engine::locale::{LocaleFile, LocaleView, locales_view};
use crate::engine::source::{KindView, Usage, UsageKind, UsageView, usages_view};
use crate::engine::text::{clone_strings, contains_string, starts_with, strings_view};

verus! {

// ---------------------------------------------------------------------------
// Specification
// ---------------------------------------------------------------------------

/// Index of the locale that a lookup of namespace `ns` finds: when several
/// locale files share a namespace, the last one.
pub open spec fn locale_for(ls: Seq<LocaleView>, ns: Seq<char>) -> Option<int>
    decreases ls.len(),
{
    if ls.len() == 0 {
        None
    } else if ls.last().namespace == ns {
        Some(ls.len() - 1)
    } else {
        locale_for(ls.drop_last(), ns)
    }
}

/// Whether some key of `keys` starts with `prefix`.
pub open spec fn has_key_with_prefix(keys: Seq<Seq<char>>, prefix: Seq<char>) -> bool {
    exists|j: int| 0 <= j < keys.len() && prefix.is_prefix_of(#[trigger] keys[j])
}

/// Whether the catalog of namespace `ns` accounts for a usage of this kind:
/// it defines the static key, or some key with the prefix.
pub open spec fn namespace_defines(ls: Seq<LocaleView>, ns: Seq<char>, kind: KindView) -> bool {
    match locale_for(ls, ns) {
        Some(i) => match kind {
            KindView::Static(k) => ls[i].keys.contains(k),
            KindView::Prefix(p) => has_key_with_prefix(ls[i].keys, p),
            KindView::Dynamic => false,
        },
        None => false,
    }
}

/// The first of `namespaces` whose catalog accounts for the usage kind.
pub open spec fn first_defining(
    ls: Seq<LocaleView>,
    namespaces: Seq<Seq<char>>,
    kind: KindView,
) -> Option<Seq<char>>
    decreases namespaces.len(),
{
    if namespaces.len() == 0 {
        None
    } else if namespace_defines(ls, namespaces[0], kind) {
        Some(namespaces[0])
    } else {
        first_defining(ls, namespaces.drop_first(), kind)
    }
}

/// The namespace a usage is attributed to: the first namespace in scope
/// whose catalog accounts for it, else the first namespace in scope, else
/// none.
pub open spec fn resolve_namespace(ls: Seq<LocaleView>, u: UsageView) -> Option<Seq<char>> {
    match first_defining(ls, u.namespaces, u.kind) {
        Some(n) => Some(n),
        None => if u.namespaces.len() > 0 {
            Some(u.namespaces[0])
        } else {
            None
        },
    }
}

/// Whether a usage of this kind protects `key`: a static usage protects
/// exactly its key, a prefix usage every key that starts with the prefix.
pub open spec fn kind_protects(kind: KindView, key: Seq<char>) -> bool {
    match kind {
        KindView::Static(k) => k == key,
        KindView::Prefix(p) => p.is_prefix_of(key),
        KindView::Dynamic => false,
    }
}

/// Whether some usage attributed to namespace `ns` protects `key`.
pub open spec fn key_is_used(
    ls: Seq<LocaleView>,
    us: Seq<UsageView>,
    ns: Seq<char>,
    key: Seq<char>,
) -> bool {
    exists|i: int|
        #![trigger us[i]]
        0 <= i < us.len() && resolve_namespace(ls, us[i]) == Some(ns) && kind_protects(
            us[i].kind,
            key,
        )
}

/// Mathematical model of [`UnusedKey`].
pub struct UnusedKeyView {
    pub namespace: Seq<char>,
    pub key: Seq<char>,
    pub path: Seq<char>,
}

/// The unused keys among `keys` of locale `l`, in order.
pub open spec fn unused_keys_of(
    ls: Seq<LocaleView>,
    us: Seq<UsageView>,
    l: LocaleView,
    keys: Seq<Seq<char>>,
) -> Seq<UnusedKeyView>
    decreases keys.len(),
{
    if keys.len() == 0 {
        Seq::empty()
    } else {
        let before = unused_keys_of(ls, us, l, keys.drop_last());
        if key_is_used(ls, us, l.namespace, keys.last()) {
            before
        } else {
            before.push(UnusedKeyView { namespace: l.namespace, key: keys.last(), path: l.path })
        }
    }
}

/// The unused keys of the locales `todo`, locale by locale and key by key.
pub open spec fn unused_keys(
    ls: Seq<LocaleView>,
    us: Seq<UsageView>,
    todo: Seq<LocaleView>,
) -> Seq<UnusedKeyView>
    decreases todo.len(),
{
    if todo.len() == 0 {
        Seq::empty()
    } else {
        unused_keys(ls, us, todo.drop_last()) + unused_keys_of(
            ls,
            us,
            todo.last(),
            todo.last().keys,
        )
    }
}

/// Mathematical model of [`DynamicUsageSite`].
pub struct DynamicSiteView {
    pub path: Seq<char>,
    pub line: nat,
    pub namespaces: Seq<Seq<char>>,
}

/// The dynamic usages among `us`, in order.
pub open spec fn dynamic_sites(us: Seq<UsageView>) -> Seq<DynamicSiteView>
    decreases us.len(),
{
    if us.len() == 0 {
        Seq::empty()
    } else {
        let before = dynamic_sites(us.drop_last());
        let u = us.last();
        if u.kind is Dynamic {
            before.push(DynamicSiteView { path: u.path, line: u.line, namespaces: u.namespaces })
        } else {
            before
        }
    }
}

// ---------------------------------------------------------------------------
// Result types
// ---------------------------------------------------------------------------

/// A locale key that no usage protects.
pub struct UnusedKey {
    /// Namespace in which the unused key is defined.
    pub namespace: String,
    /// Flattened translation key that appears unused.
    pub key: String,
    /// Locale file path where the key is defined.
    pub path: String,
}

impl View for UnusedKey {
    type V = UnusedKeyView;

    open spec fn view(&self) -> UnusedKeyView {
        UnusedKeyView { namespace: self.namespace@, key: self.key@, path: self.path@ }
    }
}

/// The models of a sequence of unused keys.
pub open spec fn unused_view(v: Seq<UnusedKey>) -> Seq<UnusedKeyView> {
    v.map_values(|k: UnusedKey| k@)
}

/// A usage site whose key is dynamic.
pub struct DynamicUsageSite {
    /// Source file where unresolved dynamic usage was found.
    pub path: String,
    /// 1-based source line for the unresolved usage.
    pub line: usize,
    /// Namespaces in scope for this usage.
    pub namespaces: Vec<String>,
}

impl View for DynamicUsageSite {
    type V = DynamicSiteView;

    open spec fn view(&self) -> DynamicSiteView {
        DynamicSiteView {
            path: self.path@,
            line: self.line as nat,
            namespaces: strings_view(self.namespaces@),
        }
    }
}

/// The models of a sequence of dynamic usage sites.
pub open spec fn sites_view(v: Seq<DynamicUsageSite>) -> Seq<DynamicSiteView> {
    v.map_values(|s: DynamicUsageSite| s@)
}

/// Result of a full unused-key analysis run.
pub struct AnalysisResult {
    /// All locale keys not matched by observed usage.
    pub unused_keys: Vec<UnusedKey>,
    /// Usage sites where translation key is dynamic/unresolved.
    pub dynamic_usages: Vec<DynamicUsageSite>,
}

// ---------------------------------------------------------------------------
// Namespace resolution
// ---------------------------------------------------------------------------

/// Index of the locale that a lookup of `ns` finds (the last one with that
/// namespace).
fn locale_index(locales: &[LocaleFile], ns: &String) -> (r: Option<usize>)
    ensures
        match r {
            Some(i) => i < locales@.len() && locale_for(locales_view(locales@), ns@) == Some(
                i as int,
            ),
            None => locale_for(locales_view(locales@), ns@) is None,
        },
{
    let ghost lv = locales_view(locales@);
    let mut found: Option<usize> = None;
    let mut i: usize = 0;
    while i < locales.len()
        invariant
            i <= locales@.len(),
            lv == locales_view(locales@),
            match found {
                Some(j) => j < i && locale_for(lv.take(i as int), ns@) == Some(j as int),
                None => locale_for(lv.take(i as int), ns@) is None,
            },
        decreases locales@.len() - i,
    {
        assert(lv.take(i + 1).drop_last() =~= lv.take(i as int));
        assert(lv.take(i + 1).last() == locales@[i as int]@);
        if locales[i].namespace == *ns {
            found = Some(i);
        }
        i = i + 1;
    }
    assert(lv.take(locales@.len() as int) =~= lv);
    found
}

/// Whether some key of `keys` starts with `prefix`.
fn any_key_with_prefix(keys: &Vec<String>, prefix: &String) -> (r: bool)
    ensures
        r == has_key_with_prefix(strings_view(keys@), prefix@),
{
    let mut i: usize = 0;
    while i < keys.len()
        invariant
            i <= keys@.len(),
            forall|j: int| 0 <= j < i ==> !prefix@.is_prefix_of(#[trigger] keys@[j]@),
        decreases keys@.len() - i,
    {
        if starts_with(keys[i].as_str(), prefix.as_str()) {
            assert(strings_view(keys@)[i as int] == keys@[i as int]@);
            return true;
        }
        i = i + 1;
    }
    assert(!has_key_with_prefix(strings_view(keys@), prefix@)) by {
        if has_key_with_prefix(strings_view(keys@), prefix@) {
            let j = choose|j: int|
                0 <= j < strings_view(keys@).len() && prefix@.is_prefix_of(
                    #[trigger] strings_view(keys@)[j],
                );
            assert(strings_view(keys@)[j] == keys@[j]@);
        }
    }
    false
}

/// Whether the catalog of `ns` accounts for a usage of kind `kind`.
fn namespace_defines_kind(locales: &[LocaleFile], ns: &String, kind: &UsageKind) -> (r: bool)
    ensures
        r == namespace_defines(locales_view(locales@), ns@, kind@),
{
    match locale_index(locales, ns) {
        Some(i) => {
            assert(locales_view(locales@)[i as int] == locales@[i as int]@);
            match kind {
                UsageKind::Static(key) => contains_string(&locales[i].keys, key),
                UsageKind::Prefix(prefix) => any_key_with_prefix(&locales[i].keys, prefix),
                UsageKind::Dynamic => false,
            }
        },
        None => false,
    }
}

/// The namespace a usage is attributed to.
fn resolve_usage_namespace(usage: &Usage, locales: &[LocaleFile]) -> (r: Option<String>)
    ensures
        match r {
            Some(n) => resolve_namespace(locales_view(locales@), usage@) == Some(n@),
            None => resolve_namespace(locales_view(locales@), usage@) is None,
        },
{
    let ghost lv = locales_view(locales@);
    let ghost nss = usage@.namespaces;
    let fallback: Option<String> = if usage.namespaces.len() > 0 {
        Some(usage.namespaces[0].clone())
    } else {
        None
    };
    if let UsageKind::Dynamic = &usage.kind {
        assert(first_defining(lv, nss, usage@.kind) is None) by {
            lemma_dynamic_never_defined(lv, nss);
        }
        return fallback;
    }
    assert(nss.skip(0) =~= nss);
    let mut i: usize = 0;
    while i < usage.namespaces.len()
        invariant
            i <= usage.namespaces@.len(),
            lv == locales_view(locales@),
            nss == usage@.namespaces,
            nss.len() == usage.namespaces@.len(),
            first_defining(lv, nss, usage@.kind) == first_defining(
                lv,
                nss.skip(i as int),
                usage@.kind,
            ),
        decreases usage.namespaces@.len() - i,
    {
        assert(nss.skip(i as int)[0] == usage.namespaces@[i as int]@);
        if namespace_defines_kind(locales, &usage.namespaces[i], &usage.kind) {
            return Some(usage.namespaces[i].clone());
        }
        assert(nss.skip(i as int).drop_first() =~= nss.skip(i + 1));
        i = i + 1;
    }
    assert(nss.skip(i as int).len() == 0);
    fallback
}

proof fn lemma_dynamic_never_defined(ls: Seq<LocaleView>, nss: Seq<Seq<char>>)
    ensures
        first_defining(ls, nss, KindView::Dynamic) is None,
    decreases nss.len(),
{
    if nss.len() > 0 {
        lemma_dynamic_never_defined(ls, nss.drop_first());
    }
}

// ---------------------------------------------------------------------------
// Usage index
// ---------------------------------------------------------------------------

/// Whether one of `prefixes` is a prefix of `key`.
pub open spec fn has_prefix_of(prefixes: Seq<Seq<char>>, key: Seq<char>) -> bool {
    exists|j: int| 0 <= j < prefixes.len() && (#[trigger] prefixes[j]).is_prefix_of(key)
}

/// Usages attributed to one namespace: the static keys and the prefixes seen.
///
/// Held in `Vec`s without repeats rather than `HashSet<String>`s: vstd's
/// hash-set contracts prove nothing for `String` elements.
struct NamespaceAnalysis {
    used_static: Vec<String>,
    prefixes: Vec<String>,
}

impl NamespaceAnalysis {
    /// Whether the recorded usages protect `key`.
    spec fn protects(&self, key: Seq<char>) -> bool {
        strings_view(self.used_static@).contains(key) || has_prefix_of(
            strings_view(self.prefixes@),
            key,
        )
    }

    fn new() -> (r: Self)
        ensures
            r.used_static@.len() == 0,
            r.prefixes@.len() == 0,
    {
        NamespaceAnalysis { used_static: Vec::new(), prefixes: Vec::new() }
    }

    /// Records one usage: a static key joins the static keys, a prefix joins
    /// the prefixes (each kept once); a dynamic usage records nothing.
    fn record_usage(&mut self, kind: &UsageKind)
        ensures
            strings_view(final(self).used_static@).to_set() == match kind@ {
                KindView::Static(k) => strings_view(old(self).used_static@).to_set().insert(k),
                _ => strings_view(old(self).used_static@).to_set(),
            },
            strings_view(final(self).prefixes@).to_set() == match kind@ {
                KindView::Prefix(p) => strings_view(old(self).prefixes@).to_set().insert(p),
                _ => strings_view(old(self).prefixes@).to_set(),
            },
            forall|key: Seq<char>|
                #![trigger final(self).protects(key)]
                final(self).protects(key) == (old(self).protects(key) || kind_protects(
                    kind@,
                    key,
                )),
    {
        broadcast use vstd::seq::Seq::lemma_push_to_set_commute;

        match kind {
            UsageKind::Static(key) => {
                if !contains_string(&self.used_static, key) {
                    self.used_static.push(key.clone());
                    assert(strings_view(self.used_static@) =~= strings_view(
                        old(self).used_static@,
                    ).push(key@));
                }
                assert(strings_view(self.used_static@).to_set() =~= strings_view(
                    old(self).used_static@,
                ).to_set().insert(key@));
                assert forall|k: Seq<char>| #![trigger self.protects(k)]
                    self.protects(k) == (old(self).protects(k) || kind_protects(kind@, k)) by {
                    if strings_view(self.used_static@).contains(k) {
                        assert(strings_view(self.used_static@).to_set().contains(k));
                    }
                    if strings_view(old(self).used_static@).contains(k) {
                        assert(strings_view(old(self).used_static@).to_set().contains(k));
                        assert(strings_view(self.used_static@).to_set().contains(k));
                    }
                    if k == key@ {
                        assert(strings_view(self.used_static@).to_set().contains(k));
                    }
                }
            },
            UsageKind::Prefix(prefix) => {
                if !contains_string(&self.prefixes, prefix) {
                    self.prefixes.push(prefix.clone());
                    assert(strings_view(self.prefixes@) =~= strings_view(old(self).prefixes@).push(
                        prefix@,
                    ));
                }
                assert(strings_view(self.prefixes@).to_set() =~= strings_view(
                    old(self).prefixes@,
                ).to_set().insert(prefix@));
                assert forall|k: Seq<char>| #![trigger self.protects(k)]
                    self.protects(k) == (old(self).protects(k) || kind_protects(kind@, k)) by {
                    let np = strings_view(self.prefixes@);
                    let op = strings_view(old(self).prefixes@);
                    if has_prefix_of(np, k) {
                        let j = choose|j: int| 0 <= j < np.len() && (#[trigger] np[j]).is_prefix_of(k);
                        assert(np.to_set().contains(np[j]));
                        if np[j] != prefix@ {
                            assert(op.to_set().contains(np[j]));
                            let j2 = choose|j2: int| 0 <= j2 < op.len() && op[j2] == np[j];
                            assert(op[j2].is_prefix_of(k));
                        }
                    }
                    if has_prefix_of(op, k) {
                        let j = choose|j: int| 0 <= j < op.len() && (#[trigger] op[j]).is_prefix_of(k);
                        assert(op.to_set().contains(op[j]));
                        assert(np.to_set().contains(op[j]));
                        let j2 = choose|j2: int| 0 <= j2 < np.len() && np[j2] == op[j];
                        assert(np[j2].is_prefix_of(k));
                    }
                    if prefix@.is_prefix_of(k) {
                        assert(np.to_set().contains(prefix@));
                        let j2 = choose|j2: int| 0 <= j2 < np.len() && np[j2] == prefix@;
                        assert(np[j2].is_prefix_of(k));
                    }
                }
            },
            UsageKind::Dynamic => {},
        }
    }

    /// Whether the recorded usages protect `key`.
    fn protects_key(&self, key: &String) -> (r: bool)
        ensures
            r == self.protects(key@),
    {
        if contains_string(&self.used_static, key) {
            return true;
        }
        let mut i: usize = 0;
        while i < self.prefixes.len()
            invariant
                i <= self.prefixes@.len(),
                forall|j: int| 0 <= j < i ==> !(#[trigger] self.prefixes@[j])@.is_prefix_of(key@),
            decreases self.prefixes@.len() - i,
        {
            if starts_with(key.as_str(), self.prefixes[i].as_str()) {
                assert(strings_view(self.prefixes@)[i as int].is_prefix_of(key@));
                return true;
            }
            i = i + 1;
        }
        assert(!has_prefix_of(strings_view(self.prefixes@), key@)) by {
            if has_prefix_of(strings_view(self.prefixes@), key@) {
                let j = choose|j: int|
                    0 <= j < strings_view(self.prefixes@).len() && (#[trigger] strings_view(
                        self.prefixes@,
                    )[j]).is_prefix_of(key@);
                assert(self.prefixes@[j]@ == strings_view(self.prefixes@)[j]);
            }
        }
        false
    }
}

/// Per-namespace record of the usages attributed to each namespace.
///
/// Parallel `Vec`s keyed by namespace rather than a `HashMap<String, _>`:
/// vstd's hash-map contracts prove nothing for `String` keys.
struct UsageIndex {
    namespaces: Vec<String>,
    analyses: Vec<NamespaceAnalysis>,
}

impl UsageIndex {
    /// One entry per namespace.
    spec fn wf(&self) -> bool {
        &&& self.namespaces@.len() == self.analyses@.len()
        &&& forall|a: int, b: int|
            0 <= a < b < self.namespaces@.len() ==> (#[trigger] self.namespaces@[a])@
                != (#[trigger] self.namespaces@[b])@
    }

    /// Whether the usages attributed to `ns` protect `key`.
    spec fn protects(&self, ns: Seq<char>, key: Seq<char>) -> bool {
        exists|j: int|
            0 <= j < self.namespaces@.len() && (#[trigger] self.namespaces@[j])@ == ns
                && self.analyses@[j].protects(key)
    }

    fn new() -> (r: Self)
        ensures
            r.wf(),
            forall|ns: Seq<char>, key: Seq<char>| !r.protects(ns, key),
    {
        UsageIndex { namespaces: Vec::new(), analyses: Vec::new() }
    }

    /// The entry of namespace `ns`, if any.
    fn find(&self, ns: &String) -> (r: Option<usize>)
        requires
            self.wf(),
        ensures
            match r {
                Some(j) => j < self.namespaces@.len() && self.namespaces@[j as int]@ == ns@,
                None => forall|j: int|
                    0 <= j < self.namespaces@.len() ==> (#[trigger] self.namespaces@[j])@ != ns@,
            },
    {
        let mut i: usize = 0;
        while i < self.namespaces.len()
            invariant
                i <= self.namespaces@.len(),
                forall|j: int| 0 <= j < i ==> (#[trigger] self.namespaces@[j])@ != ns@,
            decreases self.namespaces@.len() - i,
        {
            if self.namespaces[i] == *ns {
                return Some(i);
            }
            i = i + 1;
        }
        None
    }

    /// Records a usage attributed to namespace `ns`.
    fn record(&mut self, ns: String, kind: &UsageKind)
        requires
            old(self).wf(),
        ensures
            final(self).wf(),
            forall|n: Seq<char>, key: Seq<char>|
                #![trigger final(self).protects(n, key)]
                final(self).protects(n, key) == (old(self).protects(n, key) || (n == ns@
                    && kind_protects(kind@, key))),
    {
        match self.find(&ns) {
            Some(j) => {
                let mut entry = self.analyses.remove(j);
                entry.record_usage(kind);
                self.analyses.insert(j, entry);
                assert forall|n: Seq<char>, key: Seq<char>|
                    #![trigger self.protects(n, key)]
                    self.protects(n, key) == (old(self).protects(n, key) || (n == ns@
                        && kind_protects(kind@, key))) by {
                    assert(self.analyses@[j as int] == entry);
                    if self.protects(n, key) {
                        let i = choose|i: int|
                            0 <= i < self.namespaces@.len() && (#[trigger] self.namespaces@[i])@
                                == n && self.analyses@[i].protects(key);
                        if i != j {
                            assert(old(self).analyses@[i] == self.analyses@[i]);
                        }
                    }
                    if old(self).protects(n, key) {
                        let i = choose|i: int|
                            0 <= i < old(self).namespaces@.len() && (#[trigger] old(
                                self,
                            ).namespaces@[i])@ == n && old(self).analyses@[i].protects(key);
                        if i != j {
                            assert(old(self).analyses@[i] == self.analyses@[i]);
                        }
                        assert(self.namespaces@[i]@ == n);
                    }
                    if n == ns@ && kind_protects(kind@, key) {
                        assert(self.namespaces@[j as int]@ == n);
                    }
                }
            },
            None => {
                let mut entry = NamespaceAnalysis::new();
                let ghost fresh = entry;
                entry.record_usage(kind);
                let ghost old_ns = self.namespaces@;
                self.namespaces.push(ns);
                self.analyses.push(entry);
                let ghost last = self.namespaces@.len() - 1;
                assert forall|n: Seq<char>, key: Seq<char>|
                    #![trigger self.protects(n, key)]
                    self.protects(n, key) == (old(self).protects(n, key) || (n == ns@
                        && kind_protects(kind@, key))) by {
                    assert(!fresh.protects(key)) by {
                        assert(strings_view(fresh.used_static@).len() == 0);
                        assert(strings_view(fresh.prefixes@).len() == 0);
                    }
                    assert(entry.protects(key) ==> kind_protects(kind@, key));
                    if self.protects(n, key) {
                        let i = choose|i: int|
                            0 <= i < self.namespaces@.len() && (#[trigger] self.namespaces@[i])@
                                == n && self.analyses@[i].protects(key);
                        if i < last {
                            assert(old(self).namespaces@[i] == self.namespaces@[i]);
                            assert(old(self).analyses@[i] == self.analyses@[i]);
                        } else {
                            assert(self.analyses@[i] == entry);
                        }
                    }
                    if old(self).protects(n, key) {
                        let i = choose|i: int|
                            0 <= i < old(self).namespaces@.len() && (#[trigger] old(
                                self,
                            ).namespaces@[i])@ == n && old(self).analyses@[i].protects(key);
                        assert(self.namespaces@[i] == old(self).namespaces@[i]);
                        assert(self.analyses@[i] == old(self).analyses@[i]);
                    }
                    if n == ns@ && kind_protects(kind@, key) {
                        assert(self.namespaces@[last]@ == n);
                        assert(self.analyses@[last] == entry);
                    }
                }
            },
        }
    }
}

// ---------------------------------------------------------------------------
// Analysis
// ---------------------------------------------------------------------------

/// A usage appended to `us` adds exactly its own protection.
proof fn lemma_key_is_used_push(
    ls: Seq<LocaleView>,
    us: Seq<UsageView>,
    u: UsageView,
    ns: Seq<char>,
    key: Seq<char>,
)
    ensures
        key_is_used(ls, us.push(u), ns, key) == (key_is_used(ls, us, ns, key) || (
        resolve_namespace(ls, u) == Some(ns) && kind_protects(u.kind, key))),
{
    let us2 = us.push(u);
    if key_is_used(ls, us2, ns, key) {
        let i = choose|i: int|
            #![trigger us2[i]]
            0 <= i < us2.len() && resolve_namespace(ls, us2[i]) == Some(ns) && kind_protects(
                us2[i].kind,
                key,
            );
        if i < us.len() {
            assert(us2[i] == us[i]);
        }
    }
    if key_is_used(ls, us, ns, key) {
        let i = choose|i: int|
            #![trigger us[i]]
            0 <= i < us.len() && resolve_namespace(ls, us[i]) == Some(ns) && kind_protects(
                us[i].kind,
                key,
            );
        assert(us2[i] == us[i]);
    }
    if resolve_namespace(ls, u) == Some(ns) && kind_protects(u.kind, key) {
        assert(us2[us.len() as int] == u);
    }
}

/// Computes unused translation keys from locale definitions and source usages.
///
/// A key is considered protected when a static key usage attributed to its
/// namespace matches it exactly, or when a template-literal usage attributed
/// to its namespace contributes a prefix that the key starts with.  Every
/// dynamic usage is reported as a dynamic usage site.
pub fn analyze(locales: &[LocaleFile], usages: &[Usage]) -> (result: AnalysisResult)
    requires
        forall|i: int| 0 <= i < locales@.len() ==> (#[trigger] locales@[i]).keys_unique(),
    ensures
        unused_view(result.unused_keys@) == unused_keys(
            locales_view(locales@),
            usages_view(usages@),
            locales_view(locales@),
        ),
        sites_view(result.dynamic_usages@) == dynamic_sites(usages_view(usages@)),
{
    let ghost lv = locales_view(locales@);
    let ghost uv = usages_view(usages@);
    let mut index = UsageIndex::new();
    let mut dynamic_usages: Vec<DynamicUsageSite> = Vec::new();

    assert(sites_view(dynamic_usages@) =~= dynamic_sites(uv.take(0)));
    let mut i: usize = 0;
    while i < usages.len()
        invariant
            i <= usages@.len(),
            lv == locales_view(locales@),
            uv == usages_view(usages@),
            index.wf(),
            forall|ns: Seq<char>, key: Seq<char>|
                #![trigger index.protects(ns, key)]
                index.protects(ns, key) == key_is_used(lv, uv.take(i as int), ns, key),
            sites_view(dynamic_usages@) == dynamic_sites(uv.take(i as int)),
        decreases usages@.len() - i,
    {
        let usage = &usages[i];
        let ghost before_index = index;
        assert(uv.take(i + 1).drop_last() =~= uv.take(i as int));
        assert(uv.take(i + 1) =~= uv.take(i as int).push(usage@));
        if let UsageKind::Dynamic = &usage.kind {
            let site = DynamicUsageSite {
                path: usage.path.clone(),
                line: usage.line,
                namespaces: clone_strings(&usage.namespaces),
            };
            dynamic_usages.push(site);
        }
        assert(sites_view(dynamic_usages@) =~= dynamic_sites(uv.take(i + 1)));
        let resolved = resolve_usage_namespace(usage, locales);
        match resolved {
            Some(ns) => {
                index.record(ns, &usage.kind);
            },
            None => {},
        }
        assert forall|ns: Seq<char>, key: Seq<char>|
            #![trigger index.protects(ns, key)]
            index.protects(ns, key) == key_is_used(lv, uv.take(i + 1), ns, key) by {
            lemma_key_is_used_push(lv, uv.take(i as int), usage@, ns, key);
            assert(before_index.protects(ns, key) == key_is_used(
                lv,
                uv.take(i as int),
                ns,
                key,
            ));
        }
        i = i + 1;
    }
    assert(uv.take(usages@.len() as int) =~= uv);
    assert(sites_view(dynamic_usages@) == dynamic_sites(uv));

    let mut unused: Vec<UnusedKey> = Vec::new();
    assert(unused_view(unused@) =~= unused_keys(lv, uv, lv.take(0)));
    let mut a: usize = 0;
    while a < locales.len()
        invariant
            a <= locales@.len(),
            lv == locales_view(locales@),
            uv == usages_view(usages@),
            index.wf(),
            forall|ns: Seq<char>, key: Seq<char>|
                #![trigger index.protects(ns, key)]
                index.protects(ns, key) == key_is_used(lv, uv, ns, key),
            unused_view(unused@) == unused_keys(lv, uv, lv.take(a as int)),
        decreases locales@.len() - a,
    {
        let locale = &locales[a];
        let ghost l = locale@;
        assert(lv[a as int] == l);
        let found = index.find(&locale.namespace);
        let ghost start = unused_view(unused@);
        assert(unused_view(unused@) =~= start + unused_keys_of(lv, uv, l, l.keys.take(0)));
        let mut b: usize = 0;
        while b < locale.keys.len()
            invariant
                b <= locale.keys@.len(),
                l == locale@,
                l.keys.len() == locale.keys@.len(),
                index.wf(),
                forall|ns: Seq<char>, key: Seq<char>|
                    #![trigger index.protects(ns, key)]
                    index.protects(ns, key) == key_is_used(lv, uv, ns, key),
                match found {
                    Some(j) => j < index.namespaces@.len() && index.namespaces@[j as int]@
                        == locale.namespace@,
                    None => forall|j: int|
                        0 <= j < index.namespaces@.len() ==> (#[trigger] index.namespaces@[j])@
                            != locale.namespace@,
                },
                unused_view(unused@) == start + unused_keys_of(lv, uv, l, l.keys.take(b as int)),
            decreases locale.keys@.len() - b,
        {
            let key = &locale.keys[b];
            assert(l.keys[b as int] == key@);
            let is_used = match found {
                Some(j) => index.analyses[j].protects_key(key),
                None => false,
            };
            assert(is_used == key_is_used(lv, uv, l.namespace, key@)) by {
                assert(is_used == index.protects(l.namespace, key@)) by {
                    if index.protects(l.namespace, key@) {
                        let j2 = choose|j2: int|
                            0 <= j2 < index.namespaces@.len() && (
                            #[trigger] index.namespaces@[j2])@ == l.namespace
                                && index.analyses@[j2].protects(key@);
                        match found {
                            Some(j) => {
                                if j2 != j {
                                    if j2 < j {
                                        assert(index.namespaces@[j2]@ != index.namespaces@[j as int]@);
                                    } else {
                                        assert(index.namespaces@[j as int]@ != index.namespaces@[j2]@);
                                    }
                                }
                            },
                            None => {},
                        }
                    }
                }
            }
            assert(l.keys.take(b + 1).drop_last() =~= l.keys.take(b as int));
            assert(l.keys.take(b + 1).last() == key@);
            let ghost prev = unused@;
            if !is_used {
                let entry = UnusedKey {
                    namespace: locale.namespace.clone(),
                    key: key.clone(),
                    path: locale.path.clone(),
                };
                unused.push(entry);
                assert(unused_view(unused@) =~= unused_view(prev).push(
                    UnusedKeyView { namespace: l.namespace, key: key@, path: l.path },
                ));
            }
            assert(unused_view(unused@) =~= start + unused_keys_of(
                lv,
                uv,
                l,
                l.keys.take(b + 1),
            ));
            b = b + 1;
        }
        assert(l.keys.take(l.keys.len() as int) =~= l.keys);
        assert(lv.take(a + 1).drop_last() =~= lv.take(a as int));
        assert(lv.take(a + 1).last() == l);
        a = a + 1;
    }
    assert(lv.take(locales@.len() as int) =~= lv);
    AnalysisResult { unused_keys: unused, dynamic_usages }
}

// ---------------------------------------------------------------------------
// Properties
// ---------------------------------------------------------------------------

/// The unused-key entry of key `key` of locale `l`.
pub open spec fn unused_entry(l: LocaleView, key: Seq<char>) -> UnusedKeyView {
    UnusedKeyView { namespace: l.namespace, key, path: l.path }
}

proof fn lemma_unused_keys_of_members(
    ls: Seq<LocaleView>,
    us: Seq<UsageView>,
    l: LocaleView,
    keys: Seq<Seq<char>>,
    x: UnusedKeyView,
)
    ensures
        unused_keys_of(ls, us, l, keys).contains(x) <==> exists|b: int|
            0 <= b < keys.len() && x == unused_entry(l, #[trigger] keys[b]) && !key_is_used(
                ls,
                us,
                l.namespace,
                keys[b],
            ),
    decreases keys.len(),
{
    if keys.len() > 0 {
        let init = keys.drop_last();
        lemma_unused_keys_of_members(ls, us, l, init, x);
        let before = unused_keys_of(ls, us, l, init);
        if unused_keys_of(ls, us, l, keys).contains(x) {
            if !before.contains(x) {
                let k = keys.len() - 1;
                assert(x == unused_entry(l, keys[k]));
            } else {
                let b = choose|b: int|
                    0 <= b < init.len() && x == unused_entry(l, #[trigger] init[b])
                        && !key_is_used(ls, us, l.namespace, init[b]);
                assert(keys[b] == init[b]);
            }
        }
        if exists|b: int|
            0 <= b < keys.len() && x == unused_entry(l, #[trigger] keys[b]) && !key_is_used(
                ls,
                us,
                l.namespace,
                keys[b],
            ) {
            let b = choose|b: int|
                0 <= b < keys.len() && x == unused_entry(l, #[trigger] keys[b]) && !key_is_used(
                    ls,
                    us,
                    l.namespace,
                    keys[b],
                );
            if b < init.len() {
                assert(init[b] == keys[b]);
                assert(before.contains(x));
                let w = choose|w: int| 0 <= w < before.len() && before[w] == x;
                assert(unused_keys_of(ls, us, l, keys)[w] == x);
            } else {
                assert(unused_keys_of(ls, us, l, keys) == before.push(x));
                assert(unused_keys_of(ls, us, l, keys)[before.len() as int] == x);
            }
        }
    }
}

proof fn lemma_unused_keys_members(
    ls: Seq<LocaleView>,
    us: Seq<UsageView>,
    todo: Seq<LocaleView>,
    x: UnusedKeyView,
)
    ensures
        unused_keys(ls, us, todo).contains(x) <==> exists|a: int, b: int|
            0 <= a < todo.len() && 0 <= b < todo[a].keys.len() && x == unused_entry(
                #[trigger] todo[a],
                #[trigger] todo[a].keys[b],
            ) && !key_is_used(ls, us, todo[a].namespace, todo[a].keys[b]),
    decreases todo.len(),
{
    if todo.len() > 0 {
        let init = todo.drop_last();
        let l = todo.last();
        lemma_unused_keys_members(ls, us, init, x);
        lemma_unused_keys_of_members(ls, us, l, l.keys, x);
        let left = unused_keys(ls, us, init);
        let right = unused_keys_of(ls, us, l, l.keys);
        let all = unused_keys(ls, us, todo);
        assert(all == left + right);
        if all.contains(x) {
            let w = choose|w: int| 0 <= w < all.len() && all[w] == x;
            if w < left.len() {
                assert(left[w] == x);
                let (a, b) = choose|a: int, b: int|
                    0 <= a < init.len() && 0 <= b < init[a].keys.len() && x == unused_entry(
                        #[trigger] init[a],
                        #[trigger] init[a].keys[b],
                    ) && !key_is_used(ls, us, init[a].namespace, init[a].keys[b]);
                assert(todo[a] == init[a]);
            } else {
                assert(right[w - left.len()] == x);
                let b = choose|b: int|
                    0 <= b < l.keys.len() && x == unused_entry(l, #[trigger] l.keys[b])
                        && !key_is_used(ls, us, l.namespace, l.keys[b]);
                assert(todo[todo.len() - 1] == l);
            }
        }
        if exists|a: int, b: int|
            0 <= a < todo.len() && 0 <= b < todo[a].keys.len() && x == unused_entry(
                #[trigger] todo[a],
                #[trigger] todo[a].keys[b],
            ) && !key_is_used(ls, us, todo[a].namespace, todo[a].keys[b]) {
            let (a, b) = choose|a: int, b: int|
                0 <= a < todo.len() && 0 <= b < todo[a].keys.len() && x == unused_entry(
                    #[trigger] todo[a],
                    #[trigger] todo[a].keys[b],
                ) && !key_is_used(ls, us, todo[a].namespace, todo[a].keys[b]);
            if a < init.len() {
                assert(init[a] == todo[a]);
                assert(left.contains(x));
                let w = choose|w: int| 0 <= w < left.len() && left[w] == x;
                assert(all[w] == x);
            } else {
                assert(todo[a] == l);
                assert(right.contains(x));
                let w = choose|w: int| 0 <= w < right.len() && right[w] == x;
                assert(all[left.len() + w] == x);
            }
        }
    }
}

/// An entry is reported unused exactly when it is a key of some locale file
/// (with that file's namespace and path) that no usage attributed to the
/// namespace protects.
pub proof fn law_unused_iff_unprotected(
    ls: Seq<LocaleView>,
    us: Seq<UsageView>,
    x: UnusedKeyView,
)
    ensures
        unused_keys(ls, us, ls).contains(x) <==> exists|a: int, b: int|
            0 <= a < ls.len() && 0 <= b < ls[a].keys.len() && x == unused_entry(
                #[trigger] ls[a],
                #[trigger] ls[a].keys[b],
            ) && !key_is_used(ls, us, ls[a].namespace, ls[a].keys[b]),
{
    lemma_unused_keys_members(ls, us, ls, x);
}

/// A static usage protects its key in the namespace it is attributed to: no
/// such key is reported unused.
pub proof fn law_static_usage_protects(
    ls: Seq<LocaleView>,
    us: Seq<UsageView>,
    i: int,
    x: UnusedKeyView,
)
    requires
        0 <= i < us.len(),
        us[i].kind matches KindView::Static(k) && k == x.key,
        resolve_namespace(ls, us[i]) == Some(x.namespace),
    ensures
        !unused_keys(ls, us, ls).contains(x),
{
    lemma_unused_keys_members(ls, us, ls, x);
    assert(key_is_used(ls, us, x.namespace, x.key));
}

/// A prefix usage protects every key that starts with the prefix in the
/// namespace it is attributed to.
pub proof fn law_prefix_usage_protects(
    ls: Seq<LocaleView>,
    us: Seq<UsageView>,
    i: int,
    x: UnusedKeyView,
)
    requires
        0 <= i < us.len(),
        us[i].kind matches KindView::Prefix(p) && p.is_prefix_of(x.key),
        resolve_namespace(ls, us[i]) == Some(x.namespace),
    ensures
        !unused_keys(ls, us, ls).contains(x),
{
    lemma_unused_keys_members(ls, us, ls, x);
    assert(key_is_used(ls, us, x.namespace, x.key));
}

/// More usages never make more keys unused: every key unused with the
/// usages `us + more` is unused with `us` alone.
pub proof fn law_more_usages_fewer_unused(
    ls: Seq<LocaleView>,
    us: Seq<UsageView>,
    more: Seq<UsageView>,
    x: UnusedKeyView,
)
    ensures
        unused_keys(ls, us + more, ls).contains(x) ==> unused_keys(ls, us, ls).contains(x),
{
    lemma_unused_keys_members(ls, us + more, ls, x);
    lemma_unused_keys_members(ls, us, ls, x);
    if unused_keys(ls, us + more, ls).contains(x) {
        let (a, b) = choose|a: int, b: int|
            0 <= a < ls.len() && 0 <= b < ls[a].keys.len() && x == unused_entry(
                #[trigger] ls[a],
                #[trigger] ls[a].keys[b],
            ) && !key_is_used(ls, us + more, ls[a].namespace, ls[a].keys[b]);
        if key_is_used(ls, us, ls[a].namespace, ls[a].keys[b]) {
            let i = choose|i: int|
                #![trigger us[i]]
                0 <= i < us.len() && resolve_namespace(ls, us[i]) == Some(ls[a].namespace)
                    && kind_protects(us[i].kind, ls[a].keys[b]);
            assert((us + more)[i] == us[i]);
        }
    }
}

proof fn lemma_unused_keys_of_congruent(
    ls: Seq<LocaleView>,
    us1: Seq<UsageView>,
    us2: Seq<UsageView>,
    l: LocaleView,
    keys: Seq<Seq<char>>,
)
    requires
        forall|ns: Seq<char>, key: Seq<char>|
            key_is_used(ls, us1, ns, key) == key_is_used(ls, us2, ns, key),
    ensures
        unused_keys_of(ls, us1, l, keys) == unused_keys_of(ls, us2, l, keys),
    decreases keys.len(),
{
    if keys.len() > 0 {
        lemma_unused_keys_of_congruent(ls, us1, us2, l, keys.drop_last());
        assert(key_is_used(ls, us1, l.namespace, keys.last()) == key_is_used(
            ls,
            us2,
            l.namespace,
            keys.last(),
        ));
    }
}

proof fn lemma_unused_keys_congruent(
    ls: Seq<LocaleView>,
    us1: Seq<UsageView>,
    us2: Seq<UsageView>,
    todo: Seq<LocaleView>,
)
    requires
        forall|ns: Seq<char>, key: Seq<char>|
            key_is_used(ls, us1, ns, key) == key_is_used(ls, us2, ns, key),
    ensures
        unused_keys(ls, us1, todo) == unused_keys(ls, us2, todo),
    decreases todo.len(),
{
    if todo.len() > 0 {
        lemma_unused_keys_congruent(ls, us1, us2, todo.drop_last());
        lemma_unused_keys_of_congruent(ls, us1, us2, todo.last(), todo.last().keys);
    }
}

/// Only which usages occur matters, not their order or how often each
/// occurs: usage lists with the same elements leave the same unused keys.
pub proof fn law_usage_order_irrelevant(
    ls: Seq<LocaleView>,
    us1: Seq<UsageView>,
    us2: Seq<UsageView>,
)
    requires
        us1.to_set() == us2.to_set(),
    ensures
        unused_keys(ls, us1, ls) == unused_keys(ls, us2, ls),
{
    assert forall|ns: Seq<char>, key: Seq<char>|
        key_is_used(ls, us1, ns, key) == key_is_used(ls, us2, ns, key) by {
        if key_is_used(ls, us1, ns, key) {
            let i = choose|i: int|
                #![trigger us1[i]]
                0 <= i < us1.len() && resolve_namespace(ls, us1[i]) == Some(ns) && kind_protects(
                    us1[i].kind,
                    key,
                );
            assert(us1.to_set().contains(us1[i]));
            assert(us2.to_set().contains(us1[i]));
            let j = choose|j: int| 0 <= j < us2.len() && us2[j] == us1[i];
            assert(us2[j] == us1[i]);
        }
        if key_is_used(ls, us2, ns, key) {
            let i = choose|i: int|
                #![trigger us2[i]]
                0 <= i < us2.len() && resolve_namespace(ls, us2[i]) == Some(ns) && kind_protects(
                    us2[i].kind,
                    key,
                );
            assert(us2.to_set().contains(us2[i]));
            assert(us1.to_set().contains(us2[i]));
            let j = choose|j: int| 0 <= j < us1.len() && us1[j] == us2[i];
            assert(us1[j] == us2[i]);
        }
    }
    lemma_unused_keys_congruent(ls, us1, us2, ls);
}

proof fn lemma_first_defining_in(ls: Seq<LocaleView>, nss: Seq<Seq<char>>, kind: KindView)
    ensures
        first_defining(ls, nss, kind) matches Some(n) ==> nss.contains(n),
    decreases nss.len(),
{
    if nss.len() > 0 {
        lemma_first_defining_in(ls, nss.drop_first(), kind);
        if !namespace_defines(ls, nss[0], kind) {
            if let Some(n) = first_defining(ls, nss.drop_first(), kind) {
                let j = choose|j: int| 0 <= j < nss.drop_first().len() && nss.drop_first()[j] == n;
                assert(nss[j + 1] == n);
            }
        } else {
            assert(nss[0] == nss[0]);
        }
    }
}

/// A usage is attributed to one of the namespaces in scope at it, and to
/// some namespace whenever one is in scope.
pub proof fn law_attributed_namespace_in_scope(ls: Seq<LocaleView>, u: UsageView)
    ensures
        resolve_namespace(ls, u) matches Some(n) ==> u.namespaces.contains(n),
        u.namespaces.len() > 0 ==> resolve_namespace(ls, u) is Some,
{
    lemma_first_defining_in(ls, u.namespaces, u.kind);
    if u.namespaces.len() > 0 {
        assert(u.namespaces[0] == u.namespaces[0]);
    }
}

proof fn lemma_same_use_same_unused(
    ls: Seq<LocaleView>,
    us1: Seq<UsageView>,
    us2: Seq<UsageView>,
    todo: Seq<LocaleView>,
)
    requires
        forall|ns: Seq<char>, k: Seq<char>|
            #[trigger] key_is_used(ls, us1, ns, k) == #[trigger] key_is_used(ls, us2, ns, k),
    ensures
        unused_keys(ls, us1, todo) == unused_keys(ls, us2, todo),
    decreases todo.len(),
{
    if todo.len() > 0 {
        lemma_same_use_same_unused(ls, us1, us2, todo.drop_last());
        lemma_same_use_same_unused_of(ls, us1, us2, todo.last(), todo.last().keys);
    }
}

proof fn lemma_same_use_same_unused_of(
    ls: Seq<LocaleView>,
    us1: Seq<UsageView>,
    us2: Seq<UsageView>,
    l: LocaleView,
    keys: Seq<Seq<char>>,
)
    requires
        forall|ns: Seq<char>, k: Seq<char>|
            #[trigger] key_is_used(ls, us1, ns, k) == #[trigger] key_is_used(ls, us2, ns, k),
    ensures
        unused_keys_of(ls, us1, l, keys) == unused_keys_of(ls, us2, l, keys),
    decreases keys.len(),
{
    if keys.len() > 0 {
        lemma_same_use_same_unused_of(ls, us1, us2, l, keys.drop_last());
        assert(key_is_used(ls, us1, l.namespace, keys.last()) == key_is_used(
            ls,
            us2,
            l.namespace,
            keys.last(),
        ));
    }
}

/// A dynamic usage protects no key: adding one leaves the unused keys as
/// they were, and adds its site at the end of the dynamic sites.
pub proof fn law_dynamic_usage_protects_nothing(
    ls: Seq<LocaleView>,
    us: Seq<UsageView>,
    d: UsageView,
)
    requires
        d.kind is Dynamic,
    ensures
        unused_keys(ls, us.push(d), ls) == unused_keys(ls, us, ls),
        dynamic_sites(us.push(d)) == dynamic_sites(us).push(site_of(d)),
{
    let us2 = us.push(d);
    assert(us2.drop_last() =~= us);
    assert forall|ns: Seq<char>, k: Seq<char>|
        #[trigger] key_is_used(ls, us2, ns, k) == #[trigger] key_is_used(ls, us, ns, k) by {
        if key_is_used(ls, us2, ns, k) {
            let i = choose|i: int|
                #![trigger us2[i]]
                0 <= i < us2.len() && resolve_namespace(ls, us2[i]) == Some(ns) && kind_protects(
                    us2[i].kind,
                    k,
                );
            assert(i < us.len());
            assert(us2[i] == us[i]);
        }
        if key_is_used(ls, us, ns, k) {
            let i = choose|i: int|
                #![trigger us[i]]
                0 <= i < us.len() && resolve_namespace(ls, us[i]) == Some(ns) && kind_protects(
                    us[i].kind,
                    k,
                );
            assert(us2[i] == us[i]);
        }
    }
    lemma_same_use_same_unused(ls, us2, us, ls);
}

/// A static usage protects its own key and no other: when no usage is a
/// prefix usage and no static usage names `key`, every locale entry of
/// `key` is reported unused (a usage of `title` leaves `titleDescription`
/// unused).
pub proof fn law_static_usage_protects_only_its_key(
    ls: Seq<LocaleView>,
    us: Seq<UsageView>,
    a: int,
    b: int,
)
    requires
        0 <= a < ls.len(),
        0 <= b < ls[a].keys.len(),
        forall|i: int|
            0 <= i < us.len() ==> !((#[trigger] us[i]).kind is Prefix) && (us[i].kind matches KindView::Static(
                k,
            ) ==> k != ls[a].keys[b]),
    ensures
        unused_keys(ls, us, ls).contains(unused_entry(ls[a], ls[a].keys[b])),
{
    let key = ls[a].keys[b];
    let x = unused_entry(ls[a], key);
    lemma_unused_keys_members(ls, us, ls, x);
    assert(!key_is_used(ls, us, ls[a].namespace, key)) by {
        if key_is_used(ls, us, ls[a].namespace, key) {
            let i = choose|i: int|
                #![trigger us[i]]
                0 <= i < us.len() && resolve_namespace(ls, us[i]) == Some(ls[a].namespace)
                    && kind_protects(us[i].kind, key);
            assert(!(us[i].kind is Prefix));
        }
    }
    assert(x == unused_entry(ls[a], ls[a].keys[b]));
}

/// The site of a dynamic usage.
pub open spec fn site_of(u: UsageView) -> DynamicSiteView {
    DynamicSiteView { path: u.path, line: u.line, namespaces: u.namespaces }
}

/// Every dynamic usage is reported as a dynamic site, and every reported
/// site is that of a dynamic usage.
pub proof fn law_dynamic_sites(us: Seq<UsageView>, x: DynamicSiteView)
    ensures
        dynamic_sites(us).contains(x) <==> exists|i: int|
            0 <= i < us.len() && (#[trigger] us[i]).kind is Dynamic && x == site_of(us[i]),
    decreases us.len(),
{
    if us.len() > 0 {
        let init = us.drop_last();
        law_dynamic_sites(init, x);
        let before = dynamic_sites(init);
        if dynamic_sites(us).contains(x) {
            if before.contains(x) {
                let i = choose|i: int|
                    0 <= i < init.len() && (#[trigger] init[i]).kind is Dynamic && x == site_of(
                        init[i],
                    );
                assert(us[i] == init[i]);
            } else {
                assert(us[us.len() - 1] == us.last());
            }
        }
        if exists|i: int|
            0 <= i < us.len() && (#[trigger] us[i]).kind is Dynamic && x == site_of(us[i]) {
            let i = choose|i: int|
                0 <= i < us.len() && (#[trigger] us[i]).kind is Dynamic && x == site_of(us[i]);
            if i < init.len() {
                assert(init[i] == us[i]);
                let w = choose|w: int| 0 <= w < before.len() && before[w] == x;
                assert(dynamic_sites(us)[w] == x);
            } else {
                assert(dynamic_sites(us)[before.len() as int] == x);
            }
        }
    }
}

} // verus!
