use std::collections::HashMap;
use vstd::prelude::*;
use crate::conflicts::{Conflict, Severity};
use crate::db::{ModMetaCache, cache_view, CacheView, copy_list, copy_opt, copy_components, opt_view, list_view, components_view};
use crate::order::{stable_sort, sorted_by_key, sort_keyed, keyed_view, lemma_stable_sort_sorted, lemma_stable_sort_perm};
use crate::text::{
    eq_ignore_ascii_case, has_infix, join_with, lower, nat_decimal, str_eq_ignore_ascii_case,
    to_lowercase, trim, trim_seq, contains_str, join_strings,
};

verus! {

#[derive(Debug, Clone)]
pub struct ProfileView {
    pub name: String,
    pub slug: String,
    pub is_active: bool,
    pub total: i64,
    pub enabled: i64,
}

#[derive(Debug)]
pub struct ModView {
    pub id: i64,
    pub folder: String,
    pub name: String,
    pub enabled: bool,
    pub order: i64,
    pub meta: ModMetaCache,
    pub groups: Vec<String>,
    /// Expanded screenshot paths (relative to the mod folder), for the gallery.
    pub screenshots: Vec<String>,
}

/// Dependency health of one mod within the active profile.
#[derive(Debug, Clone, Default)]
pub struct ModDepStatus {
    /// How many required dependencies it declares.
    pub required: usize,
    /// How many optional dependencies it declares.
    pub optional: usize,
    /// Required dependencies that exist but are disabled.
    pub disabled: Vec<String>,
    /// Required dependencies that are not installed.
    pub missing: Vec<String>,
}

#[derive(Debug, Default)]
pub struct Snapshot {
    pub profiles: Vec<ProfileView>,
    pub mods: Vec<ModView>,
    pub active_slug: String,
    pub all_tags: Vec<String>,
    pub all_groups: Vec<String>,
    /// Effective overlay priority order of the enabled mods (top first).
    pub resolved: Vec<String>,
    /// (group name, members in the active profile).
    pub group_counts: Vec<(String, usize)>,
    /// Per-mod dependency health, keyed by mod id.
    pub dep_status: HashMap<i64, ModDepStatus>,
    /// Folder chains of every required-dependency cycle in the profile.
    pub dep_cycles: Vec<Vec<String>>,
}

/// One file conflict for the Conflicts tab.
#[derive(Debug, Clone)]
pub struct ConflictView {
    pub path: String,
    pub severity: String,
    pub providers: Vec<String>,
    pub duplicate: bool,
}

/// Dependencies and dependents of a mod within the active profile.
#[derive(Debug, Clone, Default)]
pub struct ModRelations {
    /// (folder, name, required, enabled-in-profile)
    pub depends: Vec<(String, String, bool, bool)>,
    /// (folder, name, enabled-in-profile)
    pub dependents: Vec<(String, String, bool)>,
}

/// What the background work reports to the window.
#[derive(Debug)]
pub enum GuiEvent {
    LogLine(String),
    CommandDone(bool, String),
    ConflictScan(u64, Vec<ConflictView>),
}

/// One image in the gallery.
#[derive(Debug, Clone)]
pub struct GalleryItem {
    /// Cache key (also used as the texture name).
    pub key: String,
    pub path: String,
    pub label: String,
}

/// The label of a severity in the Conflicts tab.
pub open spec fn severity_label(s: Severity) -> Seq<char> {
    match s {
        Severity::High => "alta"@,
        Severity::Medium => "media"@,
        Severity::Info => "info"@,
    }
}

/// A conflict as the Conflicts tab shows it.
pub fn conflict_view_of(c: Conflict) -> (v: ConflictView)
    ensures
        v.path@ == c.path@,
        v.severity@ == severity_label(c.severity),
        v.providers@ == c.providers@,
        v.duplicate == c.duplicate,
{
    let severity = match c.severity {
        Severity::High => String::from_str("alta"),
        Severity::Medium => String::from_str("media"),
        Severity::Info => String::from_str("info"),
    };
    ConflictView { path: c.path, severity, providers: c.providers, duplicate: c.duplicate }
}

/// Lowercased haystack used by the free-text search: name, folder, authors,
/// id, description and tags, separated by spaces.
pub open spec fn searchable_spec(m: ModView) -> Seq<char> {
    let s1 = lower(m.name@) + " "@ + lower(m.folder@) + " "@ + lower(join_with(list_view(m.meta.author), " "@));
    let s2 = match m.meta.mod_id {
        Some(id) => s1 + " "@ + lower(id@),
        None => s1,
    };
    let s3 = match m.meta.description {
        Some(d) => s2 + " "@ + lower(d@),
        None => s2,
    };
    s3 + " "@ + lower(join_with(list_view(m.meta.tags), " "@))
}

impl ModView {
    /// Lowercased haystack used by the free-text search.
    pub fn searchable(&self) -> (s: String)
        ensures
            s@ == searchable_spec(*self),
    {
        let mut s = to_lowercase(self.name.as_str());
        s.push(' ');
        s.append(to_lowercase(self.folder.as_str()).as_str());
        s.push(' ');
        let authors = join_strings(&self.meta.author, " ");
        s.append(to_lowercase(authors.as_str()).as_str());
        proof {
            reveal_strlit(" ");
            assert(" "@ =~= seq![' ']);
        }
        let ghost s1 = s@;
        assert(s1 =~= lower(self.name@) + " "@ + lower(self.folder@) + " "@ + lower(join_with(list_view(self.meta.author), " "@)));
        match &self.meta.mod_id {
            Some(id) => {
                s.push(' ');
                s.append(to_lowercase(id.as_str()).as_str());
            },
            None => {},
        }
        match &self.meta.description {
            Some(d) => {
                s.push(' ');
                s.append(to_lowercase(d.as_str()).as_str());
            },
            None => {},
        }
        s.push(' ');
        let tags = join_strings(&self.meta.tags, " ");
        s.append(to_lowercase(tags.as_str()).as_str());
        proof {
            assert(s@ =~= searchable_spec(*self));
        }
        s
    }
}

#[derive(Debug, Clone, Copy, PartialEq, Eq, Structural)]
pub enum SortField {
    Order,
    Name,
    Folder,
    Author,
    Version,
    ModId,
    Status,
}

impl SortField {
    pub fn label(&self) -> (l: &'static str)
        ensures
            l@ == (match *self {
                SortField::Order => "Prioridad"@,
                SortField::Name => "Nombre"@,
                SortField::Folder => "Carpeta"@,
                SortField::Author => "Autor"@,
                SortField::Version => "Versión"@,
                SortField::ModId => "Mod ID"@,
                SortField::Status => "Estado"@,
            }),
    {
        match self {
            SortField::Order => "Prioridad",
            SortField::Name => "Nombre",
            SortField::Folder => "Carpeta",
            SortField::Author => "Autor",
            SortField::Version => "Versión",
            SortField::ModId => "Mod ID",
            SortField::Status => "Estado",
        }
    }
}

#[derive(Debug, Clone, Copy, PartialEq, Eq, Structural)]
pub enum StatusFilter {
    All,
    Enabled,
    Disabled,
}

impl StatusFilter {
    pub fn label(&self) -> (l: &'static str)
        ensures
            l@ == (match *self {
                StatusFilter::All => "Todos"@,
                StatusFilter::Enabled => "Activados"@,
                StatusFilter::Disabled => "Desactivados"@,
            }),
    {
        match self {
            StatusFilter::All => "Todos",
            StatusFilter::Enabled => "Activados",
            StatusFilter::Disabled => "Desactivados",
        }
    }
}

#[derive(Debug, Clone)]
pub struct Filters {
    pub search: String,
    pub tag: Option<String>,
    pub group: Option<String>,
    pub status: StatusFilter,
    pub sort: SortField,
    pub desc: bool,
}

impl Default for Filters {
    /// No search, tag or group; every status; by priority, highest first.
    fn default() -> (f: Self)
        ensures
            f.search@.len() == 0,
            f.tag is None,
            f.group is None,
            f.status == StatusFilter::All,
            f.sort == SortField::Order,
            f.desc,
    {
        Filters {
            search: String::new(),
            tag: None,
            group: None,
            status: StatusFilter::All,
            sort: SortField::Order,
            desc: true,
        }
    }
}

/// Some entry of `list` equals `x` ignoring ASCII case.
pub open spec fn any_ignore_case(list: Seq<Seq<char>>, x: Seq<char>) -> bool {
    exists|i: int| 0 <= i < list.len() && eq_ignore_ascii_case(#[trigger] list[i], x)
}

/// Whether a mod passes the filters: status, tag and group (ignoring ASCII
/// case), and the trimmed, lowercased search text inside its haystack.
pub open spec fn passes(m: ModView, f: Filters) -> bool {
    &&& match f.status {
        StatusFilter::All => true,
        StatusFilter::Enabled => m.enabled,
        StatusFilter::Disabled => !m.enabled,
    }
    &&& match f.tag {
        Some(t) => any_ignore_case(list_view(m.meta.tags), t@),
        None => true,
    }
    &&& match f.group {
        Some(g) => any_ignore_case(list_view(m.groups), g@),
        None => true,
    }
    &&& {
        let q = lower(trim_seq(f.search@));
        q.len() == 0 || has_infix(searchable_spec(m), q)
    }
}

/// `n` zeros.
pub open spec fn zeros(n: int) -> Seq<char>
    decreases n,
{
    if n <= 0 { Seq::empty() } else { zeros(n - 1).push('0') }
}

/// An `i64` as `{:010}` formats it: the sign, then the digits left-padded with
/// zeros so that the whole text is at least 10 characters.
pub open spec fn padded10(i: int) -> Seq<char> {
    if i < 0 {
        let d = nat_decimal((-i) as nat);
        seq!['-'] + zeros(9 - d.len()) + d
    } else {
        let d = nat_decimal(i as nat);
        zeros(10 - d.len()) + d
    }
}

/// The text a mod is sorted by.
pub open spec fn sort_key(m: ModView, field: SortField) -> Seq<char> {
    match field {
        SortField::Order => padded10(m.order as int),
        SortField::Name => lower(m.name@),
        SortField::Folder => lower(m.folder@),
        SortField::Author => lower(join_with(list_view(m.meta.author), " "@)),
        SortField::Version => match m.meta.version {
            Some(v) => v@,
            None => Seq::empty(),
        },
        SortField::ModId => lower(match m.meta.mod_id {
            Some(v) => v@,
            None => Seq::empty(),
        }),
        SortField::Status => if m.enabled { "1"@ } else { "0"@ },
    }
}

fn push_zeros(s: &mut String, n: usize)
    ensures
        final(s)@ == old(s)@ + zeros(n as int),
{
    let mut k: usize = 0;
    while k < n
        invariant
            k <= n,
            s@ == old(s)@ + zeros(k as int),
        decreases n - k,
    {
        s.push('0');
        proof {
            assert(zeros(k + 1) == zeros(k as int).push('0'));
        }
        k = k + 1;
    }
}

pub fn padded10_exec(i: i64) -> (r: String)
    ensures
        r@ == padded10(i as int),
{
    let mut digits = String::new();
    let mag: u64 = if i < 0 {
        if i == i64::MIN { 9223372036854775808u64 } else { (-i) as u64 }
    } else {
        i as u64
    };
    crate::text::push_nat_decimal(&mut digits, mag as u128);
    assert(digits@ =~= nat_decimal(mag as nat));
    let len = digits.as_str().unicode_len();
    let mut r = String::new();
    if i < 0 {
        r.push('-');
        if len < 9 {
            push_zeros(&mut r, 9 - len);
        } else {
            assert(zeros(9 - len) =~= Seq::<char>::empty());
        }
    } else if len < 10 {
        push_zeros(&mut r, 10 - len);
    } else {
        assert(zeros(10 - len) =~= Seq::<char>::empty());
    }
    r.append(digits.as_str());
    proof {
        if i < 0 {
            assert(r@ =~= padded10(i as int));
        } else {
            assert(r@ =~= padded10(i as int));
        }
    }
    r
}

fn lower_opt(o: &Option<String>) -> (r: String)
    ensures
        r@ == lower(match *o {
            Some(v) => v@,
            None => Seq::empty(),
        }),
{
    match o {
        Some(v) => to_lowercase(v.as_str()),
        None => {
            proof {
                reveal_strlit("");
                assert(""@ =~= Seq::<char>::empty());
            }
            to_lowercase("")
        },
    }
}

fn sort_key_exec(m: &ModView, field: SortField) -> (k: String)
    ensures
        k@ == sort_key(*m, field),
{
    match field {
        SortField::Order => padded10_exec(m.order),
        SortField::Name => to_lowercase(m.name.as_str()),
        SortField::Folder => to_lowercase(m.folder.as_str()),
        SortField::Author => {
            let a = join_strings(&m.meta.author, " ");
            to_lowercase(a.as_str())
        },
        SortField::Version => match &m.meta.version {
            Some(v) => v.clone(),
            None => String::new(),
        },
        SortField::ModId => lower_opt(&m.meta.mod_id),
        SortField::Status => if m.enabled { String::from_str("1") } else { String::from_str("0") },
    }
}

fn any_eq_ignore_case(list: &Vec<String>, x: &String) -> (r: bool)
    ensures
        r == any_ignore_case(list_view(*list), x@),
{
    let mut i: usize = 0;
    while i < list.len()
        invariant
            i <= list.len(),
            forall|k: int| 0 <= k < i ==> !eq_ignore_ascii_case(#[trigger] list_view(*list)[k], x@),
        decreases list.len() - i,
    {
        if str_eq_ignore_ascii_case(list[i].as_str(), x.as_str()) {
            assert(list_view(*list)[i as int] == list@[i as int]@);
            return true;
        }
        assert(list_view(*list)[i as int] == list@[i as int]@);
        i = i + 1;
    }
    false
}

fn passes_exec(m: &ModView, f: &Filters) -> (r: bool)
    ensures
        r == passes(*m, *f),
{
    let status_ok = match f.status {
        StatusFilter::All => true,
        StatusFilter::Enabled => m.enabled,
        StatusFilter::Disabled => !m.enabled,
    };
    if !status_ok {
        return false;
    }
    match &f.tag {
        Some(t) => {
            if !any_eq_ignore_case(&m.meta.tags, t) {
                return false;
            }
        },
        None => {},
    }
    match &f.group {
        Some(g) => {
            if !any_eq_ignore_case(&m.groups, g) {
                return false;
            }
        },
        None => {},
    }
    let q = to_lowercase(trim(f.search.as_str()));
    if q.as_str().unicode_len() == 0 {
        return true;
    }
    let hay = m.searchable();
    contains_str(hay.as_str(), q.as_str())
}

/// The mods that pass the filters, in the order given.
pub open spec fn kept_mods(mods: Seq<ModView>, f: Filters) -> Seq<ModView>
    decreases mods.len(),
{
    if mods.len() == 0 {
        mods
    } else if passes(mods.last(), f) {
        kept_mods(mods.drop_last(), f).push(mods.last())
    } else {
        kept_mods(mods.drop_last(), f)
    }
}

/// The mods paired with their sort keys.
pub open spec fn with_keys(mods: Seq<ModView>, field: SortField) -> Seq<(Seq<char>, ModView)> {
    mods.map_values(|m: ModView| (sort_key(m, field), m))
}

/// The result of filtering and sorting: the passing mods, stably sorted by the
/// chosen key (highest first when `desc`).
pub open spec fn filter_and_sort_spec(mods: Seq<ModView>, f: Filters) -> Seq<ModView> {
    stable_sort(with_keys(kept_mods(mods, f), f.sort), f.desc).map_values(|p: (Seq<char>, ModView)| p.1)
}

/// Keeps the mods that pass the filters and sorts them by the chosen field,
/// keeping the previous order among equal keys.
pub fn filter_and_sort(mods: &mut Vec<ModView>, filters: &Filters)
    ensures
        final(mods)@ == filter_and_sort_spec(old(mods)@, *filters),
        sorted_by_key(with_keys(final(mods)@, filters.sort), filters.desc),
        with_keys(final(mods)@, filters.sort).to_multiset()
            == with_keys(kept_mods(old(mods)@, *filters), filters.sort).to_multiset(),
{
    let ghost orig = mods@;
    let mut taken: Vec<ModView> = Vec::new();
    std::mem::swap(mods, &mut taken);
    let n = taken.len();
    let mut keyed: Vec<(String, ModView)> = Vec::new();
    let mut k: usize = 0;
    proof {
        assert(orig.skip(0) =~= orig);
        assert(orig.take(0) =~= Seq::<ModView>::empty());
    }
    while taken.len() > 0
        invariant
            k + taken.len() == n,
            orig.len() == n,
            taken@ == orig.skip(k as int),
            keyed_view(keyed@) == with_keys(kept_mods(orig.take(k as int), *filters), filters.sort),
        decreases taken.len(),
    {
        let ghost before = taken@;
        let m = taken.remove(0);
        proof {
            assert(m == orig[k as int]);
            assert(taken@ =~= orig.skip(k + 1));
            assert(orig.take(k + 1).drop_last() =~= orig.take(k as int));
            assert(orig.take(k + 1).last() == m);
        }
        if passes_exec(&m, filters) {
            let key = sort_key_exec(&m, filters.sort);
            let ghost prev = keyed_view(keyed@);
            keyed.push((key, m));
            proof {
                assert(keyed_view(keyed@) =~= prev.push((sort_key(m, filters.sort), m)));
                assert(keyed_view(keyed@) =~= with_keys(kept_mods(orig.take(k + 1), *filters), filters.sort));
            }
        }
        k = k + 1;
    }
    proof {
        assert(orig.take(n as int) =~= orig);
    }
    let sorted = sort_keyed(keyed, filters.desc);
    let ghost sv = keyed_view(sorted@);
    let m_len = sorted.len();
    let mut sorted = sorted;
    let mut out: Vec<ModView> = Vec::new();
    let mut t: usize = 0;
    proof {
        assert(sv.skip(0) =~= sv);
    }
    while sorted.len() > 0
        invariant
            t + sorted.len() == sv.len(),
            sv.len() == m_len,
            keyed_view(sorted@) == sv.skip(t as int),
            out@ == sv.take(t as int).map_values(|p: (Seq<char>, ModView)| p.1),
        decreases sorted.len(),
    {
        let ghost before = sorted@;
        let p = sorted.remove(0);
        proof {
            assert(sv.skip(t as int)[0] == (p.0@, p.1));
            assert forall|u: int| 0 <= u < sorted@.len() implies #[trigger] keyed_view(sorted@)[u] == sv.skip(t + 1)[u] by {
                assert(sorted@[u] == before[u + 1]);
                assert(keyed_view(before)[u + 1] == sv.skip(t as int)[u + 1]);
            }
            assert(keyed_view(sorted@) =~= sv.skip(t + 1));
        }
        let ghost prev = out@;
        out.push(p.1);
        proof {
            assert(sv.take(t + 1) =~= sv.take(t as int).push(sv[t as int]));
            assert(out@ =~= sv.take(t + 1).map_values(|p: (Seq<char>, ModView)| p.1));
        }
        t = t + 1;
    }
    proof {
        assert(sv.take(t as int) =~= sv);
        let ks = with_keys(kept_mods(orig, *filters), filters.sort);
        lemma_stable_sort_sorted(ks, filters.desc);
        lemma_stable_sort_perm(ks, filters.desc);
        let ss = stable_sort(ks, filters.desc);
        assert(with_keys(out@, filters.sort) =~= ss) by {
            assert forall|u: int| 0 <= u < ss.len() implies #[trigger] ss[u] == (sort_key(ss[u].1, filters.sort), ss[u].1) by {
                lemma_sorted_keys_consistent(ks, filters.desc, filters.sort, u);
            }
        }

    }
    *mods = out;
}

/// Every element of the sorted sequence keeps the key of its mod.
proof fn lemma_sorted_keys_consistent(ks: Seq<(Seq<char>, ModView)>, desc: bool, field: SortField, u: int)
    requires
        forall|i: int| 0 <= i < ks.len() ==> (#[trigger] ks[i]).0 == sort_key(ks[i].1, field),
        0 <= u < stable_sort(ks, desc).len(),
    ensures
        stable_sort(ks, desc)[u] == (sort_key(stable_sort(ks, desc)[u].1, field), stable_sort(ks, desc)[u].1),
{
    lemma_stable_sort_perm(ks, desc);
    let ss = stable_sort(ks, desc);
    broadcast use vstd::seq_lib::group_to_multiset_ensures;
    assert(ss.to_multiset().count(ss[u]) > 0);
    assert(ks.to_multiset().count(ss[u]) > 0);
    assert(ks.contains(ss[u]));
    let i = choose|i: int| 0 <= i < ks.len() && ks[i] == ss[u];
    assert(ks[i].0 == sort_key(ks[i].1, field));
}

/// An optional field: the live one when present, else the cached one.
pub open spec fn prefer<T>(live: Option<T>, cached: Option<T>) -> Option<T> {
    if live is Some { live } else { cached }
}

/// A list field: the live one when not empty, else the cached one.
pub open spec fn prefer_list<T>(live: Seq<T>, cached: Seq<T>) -> Seq<T> {
    if live.len() > 0 { live } else { cached }
}

/// Live metadata merged over the cache, field by field.
pub open spec fn merged_cache(cached: CacheView, live: CacheView) -> CacheView {
    CacheView {
        mod_id: prefer(live.mod_id, cached.mod_id),
        version: prefer(live.version, cached.version),
        author: prefer_list(live.author, cached.author),
        url: prefer(live.url, cached.url),
        description: prefer(live.description, cached.description),
        cover: prefer(live.cover, cached.cover),
        mount: prefer_list(live.mount, cached.mount),
        guides: prefer_list(live.guides, cached.guides),
        screenshots: prefer_list(live.screenshots, cached.screenshots),
        tags: prefer_list(live.tags, cached.tags),
        components: prefer_list(live.components, cached.components),
        variant_group: prefer(live.variant_group, cached.variant_group),
        variant_name: prefer(live.variant_name, cached.variant_name),
        conflicts: prefer_list(live.conflicts, cached.conflicts),
        modloader_priority: prefer(live.modloader_priority, cached.modloader_priority),
        modloader_folders: prefer_list(live.modloader_folders, cached.modloader_folders),
    }
}

fn pick<T>(live: Option<T>, cached: Option<T>) -> (r: Option<T>)
    ensures
        r == prefer(live, cached),
{
    match live {
        Some(v) => Some(v),
        None => cached,
    }
}

fn pick_list<T>(live: Vec<T>, cached: Vec<T>) -> (r: Vec<T>)
    ensures
        r == (if live@.len() > 0 { live } else { cached }),
{
    if live.len() == 0 { cached } else { live }
}

/// Live `mod.toml` metadata wins; fields the manifest leaves absent or empty
/// fall back to the database cache.
#[verifier::rlimit(40)]
pub fn merge_meta_caches(cached: ModMetaCache, live: ModMetaCache) -> (m: ModMetaCache)
    ensures
        cache_view(m) == merged_cache(cache_view(cached), cache_view(live)),
{
    let m = ModMetaCache {
        mod_id: pick(live.mod_id, cached.mod_id),
        version: pick(live.version, cached.version),
        author: pick_list(live.author, cached.author),
        url: pick(live.url, cached.url),
        description: pick(live.description, cached.description),
        cover: pick(live.cover, cached.cover),
        mount: pick_list(live.mount, cached.mount),
        guides: pick_list(live.guides, cached.guides),
        screenshots: pick_list(live.screenshots, cached.screenshots),
        tags: pick_list(live.tags, cached.tags),
        components: pick_list(live.components, cached.components),
        variant_group: pick(live.variant_group, cached.variant_group),
        variant_name: pick(live.variant_name, cached.variant_name),
        conflicts: pick_list(live.conflicts, cached.conflicts),
        modloader_priority: pick(live.modloader_priority, cached.modloader_priority),
        modloader_folders: pick_list(live.modloader_folders, cached.modloader_folders),
    };
    proof {
        let a = cache_view(m);
        let b = merged_cache(cache_view(cached), cache_view(live));
        assert(a.mod_id == b.mod_id);
        assert(a.version == b.version);
        assert(a.author == b.author);
        assert(a.url == b.url);
        assert(a.description == b.description);
        assert(a.cover == b.cover);
        assert(a.mount == b.mount);
        assert(a.guides == b.guides);
        assert(a.screenshots == b.screenshots);
        assert(a.tags == b.tags);
        assert(a.components == b.components);
        assert(a.variant_group == b.variant_group);
        assert(a.variant_name == b.variant_name);
        assert(a.conflicts == b.conflicts);
        assert(a.modloader_priority == b.modloader_priority);
        assert(a.modloader_folders == b.modloader_folders);
    }
    m
}

/// A manifest with nothing in it leaves the cache as it is.
pub proof fn lemma_merge_empty_live(cached: CacheView, live: CacheView)
    requires
        live.mod_id is None && live.version is None && live.url is None,
        live.description is None && live.cover is None,
        live.variant_group is None && live.variant_name is None && live.modloader_priority is None,
        live.author.len() == 0 && live.mount.len() == 0 && live.guides.len() == 0,
        live.screenshots.len() == 0 && live.tags.len() == 0 && live.components.len() == 0,
        live.conflicts.len() == 0 && live.modloader_folders.len() == 0,
    ensures
        merged_cache(cached, live) == cached,
{
}

/// Merging a cache over itself changes nothing.
pub proof fn lemma_merge_idempotent(c: CacheView)
    ensures
        merged_cache(c, c) == c,
{
}

/// Every tag of the mods, mods in order, each mod's tags in order.
pub open spec fn tags_of_mods(mods: Seq<ModView>) -> Seq<Seq<char>>
    decreases mods.len(),
{
    if mods.len() == 0 {
        Seq::empty()
    } else {
        tags_of_mods(mods.drop_last()) + list_view(mods.last().meta.tags)
    }
}

/// The tags kept when repeats ignoring ASCII case are dropped (the first
/// spelling stays).
pub open spec fn unique_ignore_case(ts: Seq<Seq<char>>) -> Seq<Seq<char>>
    decreases ts.len(),
{
    if ts.len() == 0 {
        ts
    } else {
        let rest = unique_ignore_case(ts.drop_last());
        if any_ignore_case(rest, ts.last()) { rest } else { rest.push(ts.last()) }
    }
}

/// The tag list of the filters: every tag of the mods once (ignoring ASCII
/// case, first spelling kept), sorted.
pub open spec fn snapshot_tags_spec(mods: Seq<ModView>) -> Seq<Seq<char>> {
    key_texts(stable_sort(as_keys(unique_ignore_case(tags_of_mods(mods))), false))
}

/// Texts as sort keys.
pub open spec fn as_keys(ts: Seq<Seq<char>>) -> Seq<(Seq<char>, ())> {
    ts.map_values(|t: Seq<char>| (t, ()))
}

/// The texts of sort keys.
pub open spec fn key_texts(ks: Seq<(Seq<char>, ())>) -> Seq<Seq<char>> {
    ks.map_values(|p: (Seq<char>, ())| p.0)
}

/// Collects the tags offered as filters: every tag of the mods once,
/// ignoring ASCII case (the first spelling found is kept), sorted.
pub fn snapshot_tags(mods: &Vec<ModView>) -> (out: Vec<String>)
    ensures
        list_view(out) == snapshot_tags_spec(mods@),
{
    let mut tags: Vec<String> = Vec::new();
    let mut i: usize = 0;
    while i < mods.len()
        invariant
            i <= mods.len(),
            list_view(tags) == unique_ignore_case(tags_of_mods(mods@.take(i as int))),
        decreases mods.len() - i,
    {
        proof {
            assert(mods@.take(i + 1).drop_last() =~= mods@.take(i as int));
            assert(mods@.take(i + 1).last() == mods@[i as int]);
        }
        let ts = &mods[i].meta.tags;
        let ghost base = tags_of_mods(mods@.take(i as int));
        let mut j: usize = 0;
        proof {
            assert(base + list_view(*ts).take(0) =~= base);
        }
        while j < ts.len()
            invariant
                j <= ts.len(),
                list_view(tags) == unique_ignore_case(base + list_view(*ts).take(j as int)),
            decreases ts.len() - j,
        {
            proof {
                assert((base + list_view(*ts).take(j + 1)).drop_last() =~= base + list_view(*ts).take(j as int));
                assert((base + list_view(*ts).take(j + 1)).last() == ts@[j as int]@);
            }
            if !any_eq_ignore_case(&tags, &ts[j]) {
                let ghost prev = list_view(tags);
                tags.push(ts[j].clone());
                assert(list_view(tags) =~= prev.push(ts@[j as int]@));
            }
            j = j + 1;
        }
        proof {
            assert(list_view(*ts).take(ts.len() as int) =~= list_view(*ts));
            assert(tags_of_mods(mods@.take(i + 1)) == base + list_view(*ts));
        }
        i = i + 1;
    }
    proof {
        assert(mods@.take(mods.len() as int) =~= mods@);
    }
    let mut keyed: Vec<(String, ())> = Vec::new();
    let mut k: usize = 0;
    while k < tags.len()
        invariant
            k <= tags.len(),
            keyed_view(keyed@) == as_keys(list_view(tags).take(k as int)),
        decreases tags.len() - k,
    {
        let ghost prev = keyed_view(keyed@);
        keyed.push((tags[k].clone(), ()));
        proof {
            assert(list_view(tags).take(k + 1) =~= list_view(tags).take(k as int).push(tags@[k as int]@));
            assert(keyed_view(keyed@) =~= prev.push((tags@[k as int]@, ())));
            assert(as_keys(list_view(tags).take(k + 1)) =~= as_keys(list_view(tags).take(k as int)).push((tags@[k as int]@, ())));
        }
        k = k + 1;
    }
    proof {
        assert(list_view(tags).take(tags.len() as int) =~= list_view(tags));
    }
    let sorted = sort_keyed(keyed, false);
    let ghost sv = keyed_view(sorted@);
    let mut out: Vec<String> = Vec::new();
    let mut q: usize = 0;
    while q < sorted.len()
        invariant
            q <= sorted.len(),
            sv == keyed_view(sorted@),
            list_view(out) == key_texts(sv.take(q as int)),
        decreases sorted.len() - q,
    {
        let ghost prev = list_view(out);
        out.push(sorted[q].0.clone());
        proof {
            assert(sv.take(q + 1) =~= sv.take(q as int).push(sv[q as int]));
            assert(list_view(out) =~= prev.push(sorted@[q as int].0@));
            assert(key_texts(sv.take(q + 1)) =~= key_texts(sv.take(q as int)).push(sv[q as int].0));
        }
        q = q + 1;
    }
    proof {
        assert(sv.take(sorted.len() as int) =~= sv);
    }
    out
}

/// `(order, position)` of each mod.
pub open spec fn order_keys(mods: Seq<ModView>) -> Seq<(i64, i64)>
    decreases mods.len(),
{
    if mods.len() == 0 {
        Seq::empty()
    } else {
        order_keys(mods.drop_last()).push((mods.last().order, (mods.len() - 1) as i64))
    }
}

/// The folders in priority order: highest order first, ties in list order.
pub open spec fn by_priority(mods: Seq<ModView>) -> Seq<Seq<char>> {
    crate::resolver::sort_desc(order_keys(mods)).map_values(|p: (i64, i64)| mods[p.1 as int].folder@)
}

/// `s` without the entries equal to `x`.
pub open spec fn without(s: Seq<Seq<char>>, x: Seq<char>) -> Seq<Seq<char>>
    decreases s.len(),
{
    if s.len() == 0 {
        s
    } else {
        let r = without(s.drop_last(), x);
        if s.last() == x { r } else { r.push(s.last()) }
    }
}

/// Where `x` first appears in `s`.
pub open spec fn position_of(s: Seq<Seq<char>>, x: Seq<char>) -> Option<int>
    decreases s.len(),
{
    if s.len() == 0 {
        None
    } else if s[0] == x {
        Some(0)
    } else {
        match position_of(s.drop_first(), x) {
            Some(k) => Some(k + 1),
            None => None,
        }
    }
}

/// The priority order after dragging `dragged` to `index` (a position in the
/// full list, taken before the dragged mod leaves it): none when the mod is
/// not listed or nothing changes.
pub open spec fn reordered(mods: Seq<ModView>, dragged: Seq<char>, index: int) -> Option<Seq<Seq<char>>> {
    let full = by_priority(mods);
    match position_of(full, dragged) {
        None => None,
        Some(orig) => {
            let rest = without(full, dragged);
            let at0 = if orig < index { index - 1 } else { index };
            let at = if at0 > rest.len() { rest.len() as int } else { at0 };
            let s = rest.insert(at, dragged);
            if s == full { None } else { Some(s) }
        },
    }
}

proof fn lemma_insert_desc_len(s: Seq<(i64, i64)>, x: (i64, i64))
    ensures
        crate::resolver::insert_desc(s, x).len() == s.len() + 1,
    decreases s.len(),
{
    if s.len() > 0 && s.last().0 < x.0 {
        lemma_insert_desc_len(s.drop_last(), x);
    }
}

proof fn lemma_sort_desc_len(s: Seq<(i64, i64)>)
    ensures
        crate::resolver::sort_desc(s).len() == s.len(),
    decreases s.len(),
{
    if s.len() > 0 {
        lemma_sort_desc_len(s.drop_last());
        lemma_insert_desc_len(crate::resolver::sort_desc(s.drop_last()), s.last());
    }
}

proof fn lemma_order_keys_len(mods: Seq<ModView>)
    ensures
        order_keys(mods).len() == mods.len(),
    decreases mods.len(),
{
    if mods.len() > 0 {
        lemma_order_keys_len(mods.drop_last());
    }
}

proof fn lemma_order_keys_bounds(mods: Seq<ModView>, e: (i64, i64))
    requires
        mods.len() < 0x7fff_ffff_ffff_ffff,
    ensures
        order_keys(mods).contains(e) ==> 0 <= e.1 < mods.len(),
    decreases mods.len(),
{
    if mods.len() > 0 {
        lemma_order_keys_bounds(mods.drop_last(), e);
        let r = order_keys(mods.drop_last());
        if order_keys(mods).contains(e) && !r.contains(e) {
            let k = choose|k: int| 0 <= k < order_keys(mods).len() && order_keys(mods)[k] == e;
            if k < r.len() {
                assert(r[k] == e);
            }
        }
    }
}

proof fn lemma_position_bounds(s: Seq<Seq<char>>, x: Seq<char>)
    ensures
        position_of(s, x) matches Some(k) ==> 0 <= k < s.len() && s[k] == x,
    decreases s.len(),
{
    if s.len() > 0 && s[0] != x {
        lemma_position_bounds(s.drop_first(), x);
    }
}

proof fn lemma_without_len(s: Seq<Seq<char>>, x: Seq<char>)
    ensures
        without(s, x).len() <= s.len(),
    decreases s.len(),
{
    if s.len() > 0 {
        lemma_without_len(s.drop_last(), x);
    }
}

fn same_strings(a: &Vec<String>, b: &Vec<String>) -> (r: bool)
    ensures
        r == (list_view(*a) == list_view(*b)),
{
    if a.len() != b.len() {
        assert(list_view(*a).len() != list_view(*b).len());
        return false;
    }
    let mut i: usize = 0;
    while i < a.len()
        invariant
            i <= a.len(),
            a.len() == b.len(),
            forall|k: int| 0 <= k < i ==> a@[k]@ == b@[k]@,
        decreases a.len() - i,
    {
        if !crate::meta::str_is(a[i].as_str(), b[i].as_str()) {
            assert(list_view(*a)[i as int] != list_view(*b)[i as int]);
            return false;
        }
        i = i + 1;
    }
    assert(list_view(*a) =~= list_view(*b));
    true
}

/// Dragging mod `dragged` to position `index` of the priority list (highest
/// order first): the new list, each folder with its new order (the top one
/// gets the list's length, then one less each), or none when the mod is not
/// listed or the list does not change.
pub fn reorder_drop(mods: &Vec<ModView>, dragged: &str, index: usize) -> (r: Option<Vec<(String, i64)>>)
    requires
        mods.len() < 0x7fff_ffff_ffff_ffff,
    ensures
        match reordered(mods@, dragged@, index as int) {
            Some(s) => r matches Some(v) && v.len() == s.len()
                && forall|i: int| 0 <= i < v.len() ==> (#[trigger] v@[i]).0@ == s[i] && v@[i].1 == s.len() - i,
            None => r is None,
        },
{
    let mut keys: Vec<(i64, i64)> = Vec::new();
    let mut i: usize = 0;
    while i < mods.len()
        invariant
            i <= mods.len(),
            mods.len() < 0x7fff_ffff_ffff_ffff,
            keys@ == order_keys(mods@.take(i as int)),
        decreases mods.len() - i,
    {
        keys.push((mods[i].order, i as i64));
        proof {
            assert(mods@.take(i + 1).drop_last() =~= mods@.take(i as int));
        }
        i = i + 1;
    }
    proof {
        assert(mods@.take(mods.len() as int) =~= mods@);
    }
    let ghost ks = keys@;
    let sorted = crate::resolver::sort_by_order_desc(keys);
    proof {
        assert forall|t: int| 0 <= t < sorted.len() implies 0 <= (#[trigger] sorted@[t]).1 < mods.len() by {
            assert(sorted@.contains(sorted@[t]));
            crate::resolver::lemma_sort_desc_contains(ks, sorted@[t]);
            lemma_order_keys_bounds(mods@, sorted@[t]);
        }
    }
    let mut full: Vec<String> = Vec::new();
    let mut j: usize = 0;
    while j < sorted.len()
        invariant
            j <= sorted.len(),
            sorted@ == crate::resolver::sort_desc(order_keys(mods@)),
            forall|t: int| 0 <= t < sorted.len() ==> 0 <= (#[trigger] sorted@[t]).1 < mods.len(),
            list_view(full) == sorted@.take(j as int).map_values(|p: (i64, i64)| mods@[p.1 as int].folder@),
        decreases sorted.len() - j,
    {
        let idx = sorted[j].1;
        let ghost prev = list_view(full);
        full.push(mods[idx as usize].folder.clone());
        proof {
            assert(sorted@.take(j + 1) =~= sorted@.take(j as int).push(sorted@[j as int]));
            assert(list_view(full) =~= prev.push(mods@[idx as int].folder@));
        }
        j = j + 1;
    }
    proof {
        assert(sorted@.take(sorted.len() as int) =~= sorted@);
    }
    let ghost fv = list_view(full);
    assert(fv == by_priority(mods@));
    // Where the dragged mod is now.
    let mut orig: usize = 0;
    proof {
        assert(fv.skip(0) =~= fv);
    }
    while orig < full.len() && !crate::meta::str_is(full[orig].as_str(), dragged)
        invariant
            orig <= full.len(),
            fv == list_view(full),
            position_of(fv, dragged@) == match position_of(fv.skip(orig as int), dragged@) {
                Some(k) => Some(k + orig),
                None => None,
            },
        decreases full.len() - orig,
    {
        proof {
            assert(fv.skip(orig as int)[0] == fv[orig as int]);
            assert(fv.skip(orig as int).drop_first() =~= fv.skip(orig + 1));
        }
        orig = orig + 1;
    }
    if orig == full.len() {
        proof {
            assert(fv.skip(orig as int).len() == 0);
        }
        return None;
    }
    proof {
        assert(fv.skip(orig as int)[0] == fv[orig as int]);
    }
    assert(position_of(fv, dragged@) == Some(orig as int));
    let mut rest: Vec<String> = Vec::new();
    let mut k: usize = 0;
    while k < full.len()
        invariant
            k <= full.len(),
            fv == list_view(full),
            list_view(rest) == without(fv.take(k as int), dragged@),
        decreases full.len() - k,
    {
        proof {
            assert(fv.take(k + 1).drop_last() =~= fv.take(k as int));
            assert(fv.take(k + 1).last() == fv[k as int]);
        }
        if !crate::meta::str_is(full[k].as_str(), dragged) {
            let ghost prev = list_view(rest);
            rest.push(full[k].clone());
            assert(list_view(rest) =~= prev.push(fv[k as int]));
        }
        k = k + 1;
    }
    proof {
        assert(fv.take(full.len() as int) =~= fv);
        lemma_without_len(fv, dragged@);
        lemma_order_keys_len(mods@);
        lemma_sort_desc_len(order_keys(mods@));
    }
    let at0 = if orig < index { index - 1 } else { index };
    let at = if at0 > rest.len() { rest.len() } else { at0 };
    let ghost rv = list_view(rest);
    rest.insert(at, String::from_str(dragged));
    assert(list_view(rest) =~= rv.insert(at as int, dragged@));
    if same_strings(&rest, &full) {
        return None;
    }
    let n = rest.len();
    let mut out: Vec<(String, i64)> = Vec::new();
    let mut q: usize = 0;
    while q < n
        invariant
            q <= n,
            n == rest.len(),
            n <= mods.len() + 1,
            mods.len() < 0x7fff_ffff_ffff_ffff,
            out.len() == q,
            forall|t: int| 0 <= t < q ==> (#[trigger] out@[t]).0@ == rest@[t]@ && out@[t].1 == n - t,
        decreases n - q,
    {
        out.push((rest[q].clone(), (n - q) as i64));
        q = q + 1;
    }
    Some(out)
}

/// How many filters differ from the defaults: a tag, a group, a status other
/// than all, a sort other than by priority, a non-blank search.
pub open spec fn filter_count_spec(f: Filters) -> nat {
    (if f.tag is Some { 1nat } else { 0nat })
        + (if f.group is Some { 1nat } else { 0nat })
        + (if f.status != StatusFilter::All { 1nat } else { 0nat })
        + (if f.sort != SortField::Order { 1nat } else { 0nat })
        + (if trim_seq(f.search@).len() > 0 { 1nat } else { 0nat })
}

/// The number shown on the filter button: how many filters are set.
pub fn active_filter_count(f: &Filters) -> (n: usize)
    ensures
        n == filter_count_spec(*f),
{
    let mut n: usize = 0;
    if f.tag.is_some() {
        n = n + 1;
    }
    if f.group.is_some() {
        n = n + 1;
    }
    let all = match f.status {
        StatusFilter::All => true,
        _ => false,
    };
    if !all {
        n = n + 1;
    }
    let by_order = match f.sort {
        SortField::Order => true,
        _ => false,
    };
    if !by_order {
        n = n + 1;
    }
    if trim(f.search.as_str()).unicode_len() > 0 {
        n = n + 1;
    }
    n
}

/// The images of a mod's gallery: its cover (labelled `Portada — <name>`),
/// then its screenshots, each keyed by `<folder>/<path>` and found under the
/// mods directory; none when the mods directory is unknown.
pub open spec fn gallery_spec(mods_dir: Option<Seq<char>>, m: ModView) -> Seq<(Seq<char>, Seq<char>, Seq<char>)> {
    match mods_dir {
        None => Seq::empty(),
        Some(d) => {
            let cover: Seq<(Seq<char>, Seq<char>, Seq<char>)> = match m.meta.cover {
                Some(c) => seq![(m.folder@ + "/"@ + c@, crate::paths::join_path(crate::paths::join_path(d, m.folder@), c@),
                    "Portada — "@ + m.name@)],
                None => Seq::empty(),
            };
            cover + list_view(m.screenshots).map_values(|r: Seq<char>|
                (m.folder@ + "/"@ + r, crate::paths::join_path(crate::paths::join_path(d, m.folder@), r), r))
        },
    }
}

/// A gallery item as plain values.
pub open spec fn item_view(g: GalleryItem) -> (Seq<char>, Seq<char>, Seq<char>) {
    (g.key@, g.path@, g.label@)
}

fn gallery_item(dir: &String, m: &ModView, rel: &String, label: String) -> (g: GalleryItem)
    ensures
        item_view(g) == (m.folder@ + "/"@ + rel@, crate::paths::join_path(crate::paths::join_path(dir@, m.folder@), rel@), label@),
{
    let mut key = m.folder.clone();
    key.append("/");
    key.append(rel.as_str());
    let base = crate::paths::join(dir.as_str(), m.folder.as_str());
    let path = crate::paths::join(base.as_str(), rel.as_str());
    GalleryItem { key, path, label }
}

/// The gallery of a mod (see `gallery_spec`).
pub fn gallery_items(mods_dir: &Option<String>, m: &ModView) -> (items: Vec<GalleryItem>)
    ensures
        items@.map_values(|g: GalleryItem| item_view(g)) == gallery_spec(opt_view(*mods_dir), *m),
{
    let mut items: Vec<GalleryItem> = Vec::new();
    match mods_dir {
        None => {
            assert(items@.map_values(|g: GalleryItem| item_view(g)) =~= Seq::<(Seq<char>, Seq<char>, Seq<char>)>::empty());
        },
        Some(dir) => {
            match &m.meta.cover {
                Some(c) => {
                    let mut label = String::from_str("Portada — ");
                    label.append(m.name.as_str());
                    let item = gallery_item(dir, m, c, label);
                    items.push(item);
                },
                None => {},
            }
            let ghost head = items@.map_values(|g: GalleryItem| item_view(g));
            let ghost d = dir@;
            let mut i: usize = 0;
            while i < m.screenshots.len()
                invariant
                    i <= m.screenshots.len(),
                    d == dir@,
                    items@.map_values(|g: GalleryItem| item_view(g)) == head + list_view(m.screenshots).take(i as int).map_values(|r: Seq<char>|
                        (m.folder@ + "/"@ + r, crate::paths::join_path(crate::paths::join_path(d, m.folder@), r), r)),
                decreases m.screenshots.len() - i,
            {
                let rel = &m.screenshots[i];
                let item = gallery_item(dir, m, rel, rel.clone());
                let ghost prev = items@.map_values(|g: GalleryItem| item_view(g));
                items.push(item);
                proof {
                    assert(items@.map_values(|g: GalleryItem| item_view(g)) =~= prev.push(item_view(item)));
                    assert(list_view(m.screenshots).take(i + 1) =~= list_view(m.screenshots).take(i as int).push(rel@));
                    assert(list_view(m.screenshots).take(i + 1).map_values(|r: Seq<char>|
                        (m.folder@ + "/"@ + r, crate::paths::join_path(crate::paths::join_path(d, m.folder@), r), r))
                        =~= list_view(m.screenshots).take(i as int).map_values(|r: Seq<char>|
                        (m.folder@ + "/"@ + r, crate::paths::join_path(crate::paths::join_path(d, m.folder@), r), r)).push(item_view(item)));
                }
                i = i + 1;
            }
            proof {
                assert(list_view(m.screenshots).take(m.screenshots.len() as int) =~= list_view(m.screenshots));
            }
        },
    }
    assert(items@.map_values(|g: GalleryItem| item_view(g)) =~= gallery_spec(opt_view(*mods_dir), *m));
    items
}

/// The image viewer: the gallery and the image shown.
#[derive(Debug)]
pub struct Lightbox {
    pub items: Vec<GalleryItem>,
    pub index: usize,
}

impl Lightbox {
    /// Opens the viewer on image `index`, or on the last one when `index` is
    /// past the end.
    pub fn new(items: Vec<GalleryItem>, index: usize) -> (l: Self)
        ensures
            l.items == items,
            l.index == (if items.len() == 0 { 0 } else if index < items.len() { index as int } else { items.len() - 1 }),
    {
        let last = if items.len() == 0 { 0 } else { items.len() - 1 };
        let index = if index < last { index } else { last };
        Lightbox { items, index }
    }

    pub fn len(&self) -> (n: usize)
        ensures
            n == self.items.len(),
    {
        self.items.len()
    }

    /// Moves `go` images forward (backward when negative), wrapping around;
    /// nothing moves with fewer than two images.
    pub fn step(&mut self, go: i32)
        requires
            old(self).items.len() < 0x7fff_ffff,
            old(self).index < 0x7fff_ffff,
            -1 <= go <= 1,
        ensures
            final(self).items == old(self).items,
            final(self).index == (if old(self).items.len() > 1 && go != 0 {
                (old(self).index + go) % (old(self).items.len() as int)
            } else {
                old(self).index as int
            }),
    {
        let total = self.items.len();
        if total > 1 && go != 0 {
            let t = total as i32;
            let i = self.index as i32 + go;
            let r: i32 = if i < 0 { t - 1 } else { ((i as u32) % (t as u32)) as i32 };
            assert(r == (self.index + go) % (total as int)) by (nonlinear_arith)
                requires
                    i < 0 ==> r == t - 1,
                    i >= 0 ==> r == i % t,
                    i == self.index + go,
                    t == total,
                    total > 1,
                    -1 <= go <= 1,
                    self.index >= 0;
            self.index = r as usize;
        }
    }
}

/// `f` with every status let through.
pub open spec fn any_status(f: Filters) -> Filters {
    Filters { search: f.search, tag: f.tag, group: f.group, status: StatusFilter::All, sort: f.sort, desc: f.desc }
}

proof fn lemma_kept_contains(mods: Seq<ModView>, f: Filters, m: ModView)
    ensures
        kept_mods(mods, f).contains(m) <==> mods.contains(m) && passes(m, f),
    decreases mods.len(),
{
    if mods.len() > 0 {
        let d = mods.drop_last();
        lemma_kept_contains(d, f, m);
        let k = kept_mods(d, f);
        if kept_mods(mods, f).contains(m) {
            let j = choose|j: int| 0 <= j < kept_mods(mods, f).len() && kept_mods(mods, f)[j] == m;
            if passes(mods.last(), f) && j == k.len() {
                assert(mods[mods.len() - 1] == m);
            } else {
                assert(kept_mods(mods, f)[j] == k[j]);
                let t = choose|t: int| 0 <= t < d.len() && d[t] == m;
                assert(mods[t] == m);
            }
        }
        if mods.contains(m) && passes(m, f) {
            let t = choose|t: int| 0 <= t < mods.len() && mods[t] == m;
            if t == mods.len() - 1 {
                assert(kept_mods(mods, f)[k.len() as int] == m);
            } else {
                assert(d[t] == m);
                let j = choose|j: int| 0 <= j < k.len() && k[j] == m;
                assert(kept_mods(mods, f)[j] == m);
            }
        }
    }
}

/// The status filter: a mod is in the filtered list exactly when it is one
/// of the mods, passes the other filters (search, tag and group, as with
/// every status), and its state matches the status asked for: any state
/// for `All`, enabled for `Enabled`, disabled for `Disabled`.
pub proof fn lemma_status_filter(mods: Seq<ModView>, f: Filters, m: ModView)
    ensures
        filter_and_sort_spec(mods, f).contains(m) <==> mods.contains(m) && passes(m, any_status(f))
            && match f.status {
                StatusFilter::All => true,
                StatusFilter::Enabled => m.enabled,
                StatusFilter::Disabled => !m.enabled,
            },
{
    broadcast use vstd::seq_lib::group_to_multiset_ensures;
    let kept = kept_mods(mods, f);
    let w = with_keys(kept, f.sort);
    let sorted = stable_sort(w, f.desc);
    let out = filter_and_sort_spec(mods, f);
    lemma_kept_contains(mods, f, m);
    lemma_stable_sort_perm(w, f.desc);
    let pair = (sort_key(m, f.sort), m);
    if out.contains(m) {
        let j = choose|j: int| 0 <= j < out.len() && out[j] == m;
        let q = sorted[j];
        assert(sorted.contains(q));
        assert(sorted.to_multiset().count(q) > 0);
        assert(w.contains(q));
        let t = choose|t: int| 0 <= t < w.len() && w[t] == q;
        assert(kept[t] == m);
        assert(kept.contains(m));
    }
    if kept.contains(m) {
        let t = choose|t: int| 0 <= t < kept.len() && kept[t] == m;
        assert(w[t] == pair);
        assert(w.contains(pair));
        assert(w.to_multiset().count(pair) > 0);
        assert(sorted.contains(pair));
        let j = choose|j: int| 0 <= j < sorted.len() && sorted[j] == pair;
        assert(out[j] == m);
    }
}

} // verus!
