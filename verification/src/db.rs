use vstd::prelude::*;
use crate::meta::{MetaComponent, ModMeta};
use crate::constraints::{contains_string, views};
use crate::text::{
    all_ascii, ascii_lower, ascii_alnum, chars_of, char_is_alphanumeric, char_is_whitespace, digits_value, is_alnum, is_ws,
    lemma_nat_decimal_digits, lower, nat_decimal, non_ascii_alnum, push_nat_decimal, to_lowercase,
    trim, trim_seq,
};
use vstd::relations::injective_on;
use vstd::set_lib::{lemma_int_range, lemma_len_subset, lemma_map_size, set_int_range};

verus! {

/// A mod registered in a profile: identity plus the profile-scoped state.
#[derive(Debug, Clone)]
pub struct ModEntry {
    pub id: i64,
    pub folder_name: String,
    pub name: String,
    pub enabled: bool,
    pub load_order: i64,
}

/// Identity data of a mod, without any profile-scoped state (enabled/order).
#[derive(Debug, Clone)]
pub struct ModIdentity {
    pub id: i64,
    pub folder_name: String,
    pub name: String,
}

/// Cached mod metadata, populated from `mod.toml` on every `discover`.
#[derive(Debug, Clone, Default)]
pub struct ModMetaCache {
    /// Stable `author:slug` identifier.
    pub mod_id: Option<String>,
    pub version: Option<String>,
    pub author: Vec<String>,
    pub url: Option<String>,
    pub description: Option<String>,
    pub cover: Option<String>,
    pub mount: Vec<String>,
    pub guides: Vec<String>,
    pub screenshots: Vec<String>,
    pub tags: Vec<String>,
    /// Bundled components of a composite pack.
    pub components: Vec<MetaComponent>,
    pub variant_group: Option<String>,
    pub variant_name: Option<String>,
    pub conflicts: Vec<String>,
    pub modloader_priority: Option<i64>,
    pub modloader_folders: Vec<String>,
}

/// A dependency reference: the target mod id and whether it is required.
#[derive(Debug, Clone, Copy)]
pub struct DepRef {
    pub id: i64,
    pub required: bool,
}

#[derive(Debug, Clone)]
pub struct Profile {
    pub id: i64,
    pub name: String,
    pub slug: String,
    pub is_active: bool,
    pub created_at: String,
}

#[derive(Debug, Clone)]
pub struct Group {
    pub id: i64,
    pub name: String,
    pub slug: String,
    pub created_at: String,
}

/// An optional text as plain value.
pub open spec fn opt_view(o: Option<String>) -> Option<Seq<char>> {
    match o {
        Some(s) => Some(s@),
        None => None,
    }
}

/// A list of texts as plain values.
pub open spec fn list_view(v: Vec<String>) -> Seq<Seq<char>> {
    v@.map_values(|s: String| s@)
}

/// A component as plain values.
pub open spec fn component_view(c: MetaComponent) -> (Seq<char>, Option<Seq<char>>, Option<Seq<char>>, Option<Seq<char>>, Option<Seq<char>>) {
    (c.name@, opt_view(c.version), opt_view(c.author), opt_view(c.url), opt_view(c.path))
}

/// Components as plain values.
pub open spec fn components_view(v: Vec<MetaComponent>) -> Seq<(Seq<char>, Option<Seq<char>>, Option<Seq<char>>, Option<Seq<char>>, Option<Seq<char>>)> {
    v@.map_values(|c: MetaComponent| component_view(c))
}

/// A copy of an optional text.
pub fn copy_opt(o: &Option<String>) -> (r: Option<String>)
    ensures
        opt_view(r) == opt_view(*o),
{
    match o {
        Some(s) => Some(s.clone()),
        None => None,
    }
}

/// A copy of a list of texts.
pub fn copy_list(v: &Vec<String>) -> (r: Vec<String>)
    ensures
        list_view(r) == list_view(*v),
{
    let mut r: Vec<String> = Vec::new();
    let mut i: usize = 0;
    while i < v.len()
        invariant
            i <= v.len(),
            r@.map_values(|s: String| s@) == v@.take(i as int).map_values(|s: String| s@),
        decreases v.len() - i,
    {
        let ghost prev = r@.map_values(|s: String| s@);
        r.push(v[i].clone());
        proof {
            assert(v@.take(i + 1) =~= v@.take(i as int).push(v@[i as int]));
            assert(r@.map_values(|s: String| s@) =~= prev.push(v@[i as int]@));
            assert(r@.map_values(|s: String| s@) =~= v@.take(i + 1).map_values(|s: String| s@));
        }
        i = i + 1;
    }
    assert(v@.take(v.len() as int) =~= v@);
    r
}

/// A copy of an optional list of texts, empty when absent.
pub fn copy_list_or_empty(v: &Option<Vec<String>>) -> (r: Vec<String>)
    ensures
        list_view(r) == (match v {
            Some(l) => list_view(*l),
            None => Seq::empty(),
        }),
{
    match v {
        Some(l) => copy_list(l),
        None => {
            let r: Vec<String> = Vec::new();
            assert(list_view(r) =~= Seq::<Seq<char>>::empty());
            r
        },
    }
}

impl MetaComponent {
    /// A copy with the same fields.
    pub fn copy(&self) -> (r: MetaComponent)
        ensures
            component_view(r) == component_view(*self),
    {
        MetaComponent {
            name: self.name.clone(),
            version: copy_opt(&self.version),
            author: copy_opt(&self.author),
            url: copy_opt(&self.url),
            path: copy_opt(&self.path),
        }
    }
}

/// A copy of a list of components.
pub fn copy_components(v: &Vec<MetaComponent>) -> (r: Vec<MetaComponent>)
    ensures
        components_view(r) == components_view(*v),
{
    let mut r: Vec<MetaComponent> = Vec::new();
    let mut i: usize = 0;
    while i < v.len()
        invariant
            i <= v.len(),
            r@.map_values(|c: MetaComponent| component_view(c)) == v@.take(i as int).map_values(|c: MetaComponent| component_view(c)),
        decreases v.len() - i,
    {
        let ghost prev = r@.map_values(|c: MetaComponent| component_view(c));
        r.push(v[i].copy());
        proof {
            assert(v@.take(i + 1) =~= v@.take(i as int).push(v@[i as int]));
            assert(r@.map_values(|c: MetaComponent| component_view(c)) =~= prev.push(component_view(v@[i as int])));
            assert(r@.map_values(|c: MetaComponent| component_view(c)) =~= v@.take(i + 1).map_values(|c: MetaComponent| component_view(c)));
        }
        i = i + 1;
    }
    assert(v@.take(v.len() as int) =~= v@);
    r
}

impl ModMetaCache {
    /// True when the mod is a composite pack (has bundled components).
    pub fn is_pack(&self) -> (r: bool)
        ensures
            r == (self.components@.len() > 0),
    {
        self.components.len() > 0
    }
}

/// What the cache says, as plain values.
pub struct CacheView {
    pub mod_id: Option<Seq<char>>,
    pub version: Option<Seq<char>>,
    pub author: Seq<Seq<char>>,
    pub url: Option<Seq<char>>,
    pub description: Option<Seq<char>>,
    pub cover: Option<Seq<char>>,
    pub mount: Seq<Seq<char>>,
    pub guides: Seq<Seq<char>>,
    pub screenshots: Seq<Seq<char>>,
    pub tags: Seq<Seq<char>>,
    pub components: Seq<(Seq<char>, Option<Seq<char>>, Option<Seq<char>>, Option<Seq<char>>, Option<Seq<char>>)>,
    pub variant_group: Option<Seq<char>>,
    pub variant_name: Option<Seq<char>>,
    pub conflicts: Seq<Seq<char>>,
    pub modloader_priority: Option<i64>,
    pub modloader_folders: Seq<Seq<char>>,
}

pub open spec fn cache_view(c: ModMetaCache) -> CacheView {
    CacheView {
        mod_id: opt_view(c.mod_id),
        version: opt_view(c.version),
        author: list_view(c.author),
        url: opt_view(c.url),
        description: opt_view(c.description),
        cover: opt_view(c.cover),
        mount: list_view(c.mount),
        guides: list_view(c.guides),
        screenshots: list_view(c.screenshots),
        tags: list_view(c.tags),
        components: components_view(c.components),
        variant_group: opt_view(c.variant_group),
        variant_name: opt_view(c.variant_name),
        conflicts: list_view(c.conflicts),
        modloader_priority: c.modloader_priority,
        modloader_folders: list_view(c.modloader_folders),
    }
}

/// An optional list, empty when absent.
pub open spec fn list_or_empty(v: Option<Vec<String>>) -> Seq<Seq<char>> {
    match v {
        Some(l) => list_view(l),
        None => Seq::empty(),
    }
}

/// The cache entry a manifest gives: its fields, absent lists empty.
pub open spec fn cache_of_meta(m: ModMeta) -> CacheView {
    CacheView {
        mod_id: opt_view(m.id),
        version: opt_view(m.version),
        author: list_view(m.author),
        url: opt_view(m.url),
        description: opt_view(m.description),
        cover: opt_view(m.cover),
        mount: list_or_empty(m.mount),
        guides: list_or_empty(m.guides),
        screenshots: list_or_empty(m.screenshots),
        tags: list_or_empty(m.tags),
        components: match m.components {
            Some(c) => components_view(c),
            None => Seq::empty(),
        },
        variant_group: match m.variant {
            Some(v) => Some(v.group@),
            None => None,
        },
        variant_name: match m.variant {
            Some(v) => opt_view(v.name),
            None => None,
        },
        conflicts: list_view(m.conflicts),
        modloader_priority: match m.modloader {
            Some(l) => l.priority,
            None => None,
        },
        modloader_folders: match m.modloader {
            Some(l) => list_or_empty(l.folders),
            None => Seq::empty(),
        },
    }
}

/// Builds a cache entry straight from a `mod.toml` manifest (file wins over
/// the database cache when displaying a mod).
pub fn meta_cache_from_meta(meta: &ModMeta) -> (c: ModMetaCache)
    ensures
        cache_view(c) == cache_of_meta(*meta),
{
    let components = match &meta.components {
        Some(c) => copy_components(c),
        None => {
            let v: Vec<MetaComponent> = Vec::new();
            assert(components_view(v) =~= Seq::empty());
            v
        },
    };
    let (variant_group, variant_name) = match &meta.variant {
        Some(v) => (Some(v.group.clone()), copy_opt(&v.name)),
        None => (None, None),
    };
    let (modloader_priority, modloader_folders) = match &meta.modloader {
        Some(l) => (l.priority, copy_list_or_empty(&l.folders)),
        None => {
            let v: Vec<String> = Vec::new();
            assert(list_view(v) =~= Seq::<Seq<char>>::empty());
            (None, v)
        },
    };
    ModMetaCache {
        mod_id: copy_opt(&meta.id),
        version: copy_opt(&meta.version),
        author: copy_list(&meta.author),
        url: copy_opt(&meta.url),
        description: copy_opt(&meta.description),
        cover: copy_opt(&meta.cover),
        mount: copy_list_or_empty(&meta.mount),
        guides: copy_list_or_empty(&meta.guides),
        screenshots: copy_list_or_empty(&meta.screenshots),
        tags: copy_list_or_empty(&meta.tags),
        components,
        variant_group,
        variant_name,
        conflicts: copy_list(&meta.conflicts),
        modloader_priority,
        modloader_folders,
    }
}

/// One step of building a slug: alphanumerics are kept; whitespace, `-` and
/// `_` become a single `-`, never at the start; anything else is dropped.
pub open spec fn slug_step(acc: Seq<char>, c: char) -> Seq<char> {
    if is_alnum(c) {
        acc.push(c)
    } else if (is_ws(c) || c == '-' || c == '_') && acc.len() > 0 && acc.last() != '-' {
        acc.push('-')
    } else {
        acc
    }
}

/// The slug steps applied to every character in order.
pub open spec fn slug_chars(s: Seq<char>) -> Seq<char>
    decreases s.len(),
{
    if s.len() == 0 {
        s
    } else {
        slug_step(slug_chars(s.drop_last()), s.last())
    }
}

/// `s` without its trailing `-` characters.
pub open spec fn drop_trailing_dashes(s: Seq<char>) -> Seq<char>
    decreases s.len(),
{
    if s.len() > 0 && s.last() == '-' {
        drop_trailing_dashes(s.drop_last())
    } else {
        s
    }
}

/// The kebab-case slug of a name: trimmed, lowercased, slug steps, trailing
/// dashes removed.
pub open spec fn slug_of(input: Seq<char>) -> Seq<char> {
    drop_trailing_dashes(slug_chars(lower(trim_seq(input))))
}

/// Kebab-case slug of a profile or group name.
pub fn slugify(input: &str) -> (slug: String)
    ensures
        slug@ == slug_of(input@),
{
    let low = to_lowercase(trim(input));
    let v = chars_of(low.as_str());
    let mut slug: Vec<char> = Vec::new();
    let mut i: usize = 0;
    while i < v.len()
        invariant
            i <= v.len(),
            v@ == lower(trim_seq(input@)),
            slug@ == slug_chars(v@.take(i as int)),
        decreases v.len() - i,
    {
        let c = v[i];
        proof {
            assert(v@.take(i + 1).drop_last() =~= v@.take(i as int));
            assert(v@.take(i + 1).last() == c);
        }
        if char_is_alphanumeric(c) {
            slug.push(c);
        } else if (char_is_whitespace(c) || c == '-' || c == '_') && slug.len() > 0 && slug[slug.len() - 1] != '-' {
            slug.push('-');
        }
        i = i + 1;
    }
    proof {
        assert(v@.take(v.len() as int) =~= v@);
    }
    while slug.len() > 0 && slug[slug.len() - 1] == '-'
        invariant
            drop_trailing_dashes(slug@) == slug_of(input@),
        decreases slug.len(),
    {
        slug.pop();
    }
    crate::text::string_of(&slug)
}

/// No `-` at either end, never two in a row.
pub open spec fn is_kebab(s: Seq<char>) -> bool {
    &&& (s.len() > 0 ==> s[0] != '-' && s.last() != '-')
    &&& forall|i: int| 0 <= i < s.len() - 1 ==> !(#[trigger] s[i] == '-' && s[i + 1] == '-')
}

proof fn lemma_slug_chars_shape(s: Seq<char>)
    ensures
        slug_chars(s).len() > 0 ==> slug_chars(s)[0] != '-',
        forall|i: int| 0 <= i < slug_chars(s).len() - 1 ==> !(#[trigger] slug_chars(s)[i] == '-' && slug_chars(s)[i + 1] == '-'),
    decreases s.len(),
{
    if s.len() > 0 {
        lemma_slug_chars_shape(s.drop_last());
        let acc = slug_chars(s.drop_last());
        let c = s.last();
        assert(!is_alnum('-'));
        let r = slug_step(acc, c);
        assert forall|i: int| 0 <= i < r.len() - 1 implies !(#[trigger] r[i] == '-' && r[i + 1] == '-') by {
            if i < acc.len() - 1 {
                assert(r[i] == acc[i] && r[i + 1] == acc[i + 1]);
            }
        }
    }
}

proof fn lemma_drop_trailing(s: Seq<char>)
    requires
        s.len() > 0 ==> s[0] != '-',
        forall|i: int| 0 <= i < s.len() - 1 ==> !(#[trigger] s[i] == '-' && s[i + 1] == '-'),
    ensures
        is_kebab(drop_trailing_dashes(s)),
    decreases s.len(),
{
    if s.len() > 0 && s.last() == '-' {
        let d = s.drop_last();
        assert forall|i: int| 0 <= i < d.len() - 1 implies !(#[trigger] d[i] == '-' && d[i + 1] == '-') by {
            assert(d[i] == s[i] && d[i + 1] == s[i + 1]);
        }
        lemma_drop_trailing(d);
    }
}

/// Every slug is kebab-case: no `-` at either end and never two in a row.
pub proof fn lemma_slug_is_kebab(input: Seq<char>)
    ensures
        is_kebab(slug_of(input)),
{
    lemma_slug_chars_shape(lower(trim_seq(input)));
    lemma_drop_trailing(slug_chars(lower(trim_seq(input))));
}

/// Some character of `s` is alphanumeric.
pub open spec fn has_alnum(s: Seq<char>) -> bool {
    exists|i: int| 0 <= i < s.len() && is_alnum(#[trigger] s[i])
}

/// A character a slug may hold: alphanumeric or `-`.
pub open spec fn slug_char(c: char) -> bool {
    is_alnum(c) || c == '-'
}

/// No ASCII capital letter in `s`.
pub open spec fn no_ascii_upper(s: Seq<char>) -> bool {
    forall|i: int| 0 <= i < s.len() ==> !('A' <= #[trigger] s[i] && s[i] <= 'Z')
}

proof fn lemma_slug_chars_content(s: Seq<char>)
    ensures
        forall|i: int| 0 <= i < slug_chars(s).len() ==> slug_char(#[trigger] slug_chars(s)[i]),
        has_alnum(slug_chars(s)) == has_alnum(s),
        all_ascii(s) ==> all_ascii(slug_chars(s)),
        no_ascii_upper(s) ==> no_ascii_upper(slug_chars(s)),
    decreases s.len(),
{
    if s.len() > 0 {
        let p = s.drop_last();
        lemma_slug_chars_content(p);
        let acc = slug_chars(p);
        let c = s.last();
        let r = slug_chars(s);
        assert(r == slug_step(acc, c));
        assert(s[s.len() - 1] == c);
        assert forall|i: int| 0 <= i < r.len() implies slug_char(#[trigger] r[i]) by {
            if i < acc.len() {
                assert(r[i] == acc[i]);
            }
        }
        if has_alnum(s) {
            let j = choose|j: int| 0 <= j < s.len() && is_alnum(#[trigger] s[j]);
            if j == s.len() - 1 {
                assert(r[r.len() - 1] == c);
            } else {
                assert(p[j] == s[j]);
                let k = choose|k: int| 0 <= k < acc.len() && is_alnum(#[trigger] acc[k]);
                assert(r[k] == acc[k]);
            }
        }
        if has_alnum(r) {
            let k = choose|k: int| 0 <= k < r.len() && is_alnum(#[trigger] r[k]);
            if k < acc.len() {
                assert(r[k] == acc[k]);
                let j = choose|j: int| 0 <= j < p.len() && is_alnum(#[trigger] p[j]);
                assert(s[j] == p[j]);
            } else {
                assert(!is_alnum('-'));
                assert(s[s.len() - 1] == c);
            }
        }
        if all_ascii(s) {
            assert(all_ascii(p)) by {
                assert forall|i: int| 0 <= i < p.len() implies (#[trigger] p[i] as u32) < 128 by {
                    assert(p[i] == s[i]);
                }
            }
            assert forall|i: int| 0 <= i < r.len() implies (#[trigger] r[i] as u32) < 128 by {
                if i < acc.len() {
                    assert(r[i] == acc[i]);
                }
            }
        }
        if no_ascii_upper(s) {
            assert(no_ascii_upper(p)) by {
                assert forall|i: int| 0 <= i < p.len() implies !('A' <= #[trigger] p[i] && p[i] <= 'Z') by {
                    assert(p[i] == s[i]);
                }
            }
            assert forall|i: int| 0 <= i < r.len() implies !('A' <= #[trigger] r[i] && r[i] <= 'Z') by {
                if i < acc.len() {
                    assert(r[i] == acc[i]);
                }
            }
        }
    }
}

proof fn lemma_drop_trailing_prefix(s: Seq<char>)
    ensures
        drop_trailing_dashes(s).len() <= s.len(),
        forall|i: int| 0 <= i < drop_trailing_dashes(s).len() ==> #[trigger] drop_trailing_dashes(s)[i] == s[i],
        forall|i: int| drop_trailing_dashes(s).len() <= i < s.len() ==> #[trigger] s[i] == '-',
        drop_trailing_dashes(s).len() > 0 ==> drop_trailing_dashes(s).last() != '-',
    decreases s.len(),
{
    if s.len() > 0 && s.last() == '-' {
        lemma_drop_trailing_prefix(s.drop_last());
        assert forall|i: int| drop_trailing_dashes(s).len() <= i < s.len() implies #[trigger] s[i] == '-' by {
            if i < s.len() - 1 {
                assert(s.drop_last()[i] == s[i]);
            }
        }
    }
}

/// Every character of a slug is alphanumeric or `-`.
pub proof fn lemma_slug_chars_allowed(input: Seq<char>)
    ensures
        forall|i: int| 0 <= i < slug_of(input).len() ==> slug_char(#[trigger] slug_of(input)[i]),
{
    let s = slug_chars(lower(trim_seq(input)));
    lemma_slug_chars_content(lower(trim_seq(input)));
    lemma_drop_trailing_prefix(s);
    assert forall|i: int| 0 <= i < slug_of(input).len() implies slug_char(#[trigger] slug_of(input)[i]) by {
        assert(slug_of(input)[i] == s[i]);
    }
}

/// A slug is empty exactly when the trimmed, lowercased name has no
/// alphanumeric character.
pub proof fn lemma_slug_empty(input: Seq<char>)
    ensures
        (slug_of(input).len() == 0) == !has_alnum(lower(trim_seq(input))),
{
    let l = lower(trim_seq(input));
    let s = slug_chars(l);
    lemma_slug_chars_content(l);
    lemma_slug_chars_shape(l);
    lemma_drop_trailing_prefix(s);
    let d = drop_trailing_dashes(s);
    if has_alnum(l) {
        let k = choose|k: int| 0 <= k < s.len() && is_alnum(#[trigger] s[k]);
        assert(!is_alnum('-'));
        if d.len() == 0 {
            assert(s[k] == '-');
        }
    } else {
        if s.len() > 0 {
            assert(slug_char(s[0]));
            assert(is_alnum(s[0]));
        }
    }
}

proof fn lemma_trim_seq_bounds(s: Seq<char>) -> (ab: (int, int))
    ensures
        0 <= ab.0 <= ab.1 <= s.len(),
        trim_seq(s) == s.subrange(ab.0, ab.1),
        forall|i: int| 0 <= i < ab.0 ==> is_ws(#[trigger] s[i]),
        forall|i: int| ab.1 <= i < s.len() ==> is_ws(#[trigger] s[i]),
    decreases s.len(),
{
    if s.len() > 0 && is_ws(s[0]) {
        let t = s.drop_first();
        let (a, b) = lemma_trim_seq_bounds(t);
        assert(t.subrange(a, b) =~= s.subrange(a + 1, b + 1));
        assert forall|i: int| 0 <= i < a + 1 implies is_ws(#[trigger] s[i]) by {
            if i > 0 {
                assert(s[i] == t[i - 1]);
            }
        }
        assert forall|i: int| b + 1 <= i < s.len() implies is_ws(#[trigger] s[i]) by {
            assert(s[i] == t[i - 1]);
        }
        (a + 1, b + 1)
    } else if s.len() > 0 && is_ws(s.last()) {
        let t = s.drop_last();
        let (a, b) = lemma_trim_seq_bounds(t);
        assert(t.subrange(a, b) =~= s.subrange(a, b));
        assert forall|i: int| 0 <= i < a implies is_ws(#[trigger] s[i]) by {
            assert(s[i] == t[i]);
        }
        assert forall|i: int| b <= i < s.len() implies is_ws(#[trigger] s[i]) by {
            if i < s.len() - 1 {
                assert(s[i] == t[i]);
            }
        }
        (a, b)
    } else {
        assert(s.subrange(0, s.len() as int) =~= s);
        (0, s.len() as int)
    }
}

proof fn lemma_ascii_lower_alnum(s: Seq<char>)
    requires
        all_ascii(s),
    ensures
        all_ascii(ascii_lower(s)),
        no_ascii_upper(ascii_lower(s)),
        has_alnum(ascii_lower(s)) == has_alnum(s),
{
    let l = ascii_lower(s);
    assert forall|i: int| 0 <= i < l.len() implies (#[trigger] l[i] as u32) < 128 && !('A' <= l[i] && l[i] <= 'Z')
        && is_alnum(l[i]) == is_alnum(s[i]) by {
        assert((s[i] as u32) < 128);
    }
    if has_alnum(s) {
        let j = choose|j: int| 0 <= j < s.len() && is_alnum(#[trigger] s[j]);
        assert(is_alnum(l[j]));
    }
    if has_alnum(l) {
        let j = choose|j: int| 0 <= j < l.len() && is_alnum(#[trigger] l[j]);
        assert(is_alnum(s[j]));
    }
}

/// On ASCII names: the slug is empty exactly when the name has no letter or
/// digit.
pub proof fn lemma_slug_empty_ascii(input: Seq<char>)
    requires
        all_ascii(input),
    ensures
        (slug_of(input).len() == 0) == !has_alnum(input),
{
    lemma_slug_empty(input);
    let (a, b) = lemma_trim_seq_bounds(input);
    let t = trim_seq(input);
    assert(all_ascii(t)) by {
        assert forall|i: int| 0 <= i < t.len() implies (#[trigger] t[i] as u32) < 128 by {
            assert(t[i] == input[i + a]);
        }
    }
    lemma_ascii_lower_alnum(t);
    if has_alnum(input) {
        let j = choose|j: int| 0 <= j < input.len() && is_alnum(#[trigger] input[j]);
        assert((input[j] as u32) < 128);
        assert(a <= j < b);
        assert(t[j - a] == input[j]);
    }
    if has_alnum(t) {
        let j = choose|j: int| 0 <= j < t.len() && is_alnum(#[trigger] t[j]);
        assert(input[j + a] == t[j]);
    }
}

proof fn lemma_slug_chars_fixed(s: Seq<char>, k: int)
    requires
        0 <= k <= s.len(),
        forall|i: int| 0 <= i < s.len() ==> slug_char(#[trigger] s[i]),
        is_kebab(s),
    ensures
        slug_chars(s.take(k)) == s.take(k),
    decreases k,
{
    if k > 0 {
        lemma_slug_chars_fixed(s, k - 1);
        let p = s.take(k);
        assert(p.drop_last() =~= s.take(k - 1));
        assert(p.last() == s[k - 1]);
        if s[k - 1] == '-' {
            assert(k - 1 > 0);
            assert(!(s[k - 2] == '-' && s[k - 1] == '-'));
            assert(s.take(k - 1).last() == s[k - 2]);
        }
        assert(s.take(k - 1).push(s[k - 1]) =~= p);
    }
}

/// On ASCII names a slug is its own slug: slugifying again changes nothing.
pub proof fn lemma_slug_idempotent(input: Seq<char>)
    requires
        all_ascii(input),
    ensures
        slug_of(slug_of(input)) == slug_of(input),
{
    let t = trim_seq(input);
    let (a, b) = lemma_trim_seq_bounds(input);
    assert(all_ascii(t)) by {
        assert forall|i: int| 0 <= i < t.len() implies (#[trigger] t[i] as u32) < 128 by {
            assert(t[i] == input[i + a]);
        }
    }
    lemma_ascii_lower_alnum(t);
    let l = lower(t);
    let c = slug_chars(l);
    lemma_slug_chars_content(l);
    lemma_drop_trailing_prefix(c);
    lemma_slug_is_kebab(input);
    lemma_slug_chars_allowed(input);
    let s = slug_of(input);
    assert(all_ascii(s) && no_ascii_upper(s)) by {
        assert forall|i: int| 0 <= i < s.len() implies (#[trigger] s[i] as u32) < 128 && !('A' <= s[i] && s[i] <= 'Z') by {
            assert(s[i] == c[i]);
        }
    }
    // the slug has nothing to trim: its ends are letters or digits
    if s.len() > 0 {
        assert(slug_char(s[0]) && s[0] != '-');
        assert((s[0] as u32) < 128);
        assert(!is_ws(s[0]));
        assert(slug_char(s[s.len() - 1]) && s.last() != '-');
        assert((s[s.len() - 1] as u32) < 128);
        assert(!is_ws(s.last()));
    }
    assert(trim_seq(s) == s);
    assert(ascii_lower(s) =~= s) by {
        assert forall|i: int| 0 <= i < s.len() implies #[trigger] ascii_lower(s)[i] == s[i] by {
            assert(!('A' <= s[i] && s[i] <= 'Z'));
        }
    }
    assert(lower(s) == s);
    lemma_slug_chars_fixed(s, s.len() as int);
    assert(s.take(s.len() as int) =~= s);
    assert(drop_trailing_dashes(s) == s);
}

/// The slug with a numeric suffix: `base-i`.
pub open spec fn numbered_slug(base: Seq<char>, i: nat) -> Seq<char> {
    base + seq!['-'] + nat_decimal(i)
}

/// The slug of `name`, or `fallback` when the name has no slug characters.
pub open spec fn slug_base(name: Seq<char>, fallback: Seq<char>) -> Seq<char> {
    if slug_of(name).len() == 0 { fallback } else { slug_of(name) }
}

/// The first free slug for `name` among the `taken` ones: the base slug when
/// it is free, else `base-i` for the least `i >= 2` that is free.
pub open spec fn is_unique_slug(r: Seq<char>, name: Seq<char>, fallback: Seq<char>, taken: Seq<String>) -> bool {
    let b = slug_base(name, fallback);
    if !views(taken).contains(b) {
        r == b
    } else {
        exists|i: nat| #![trigger numbered_slug(b, i)]
            i >= 2 && r == numbered_slug(b, i) && !views(taken).contains(r)
            && forall|j: nat| 2 <= j < i ==> views(taken).contains(#[trigger] numbered_slug(b, j))
    }
}

proof fn lemma_numbered_injective(b: Seq<char>, i: nat, j: nat)
    requires
        numbered_slug(b, i) == numbered_slug(b, j),
    ensures
        i == j,
{
    lemma_nat_decimal_digits(i);
    lemma_nat_decimal_digits(j);
    let pre = b + seq!['-'];
    assert(numbered_slug(b, i).skip(pre.len() as int) =~= nat_decimal(i));
    assert(numbered_slug(b, j).skip(pre.len() as int) =~= nat_decimal(j));
}

/// When every suffix `2..=i` is taken, there are at least `i - 1` taken slugs.
proof fn lemma_taken_bound(b: Seq<char>, i: nat, taken: Seq<String>)
    requires
        i >= 2,
        forall|j: nat| 2 <= j <= i ==> views(taken).contains(#[trigger] numbered_slug(b, j)),
    ensures
        i - 1 <= taken.len(),
{
    let f = |k: int| numbered_slug(b, k as nat);
    let dom = set_int_range(2, (i + 1) as int);
    lemma_int_range(2, (i + 1) as int);
    assert(injective_on(f, dom)) by {
        assert forall|x1: int, x2: int| dom.contains(x1) && dom.contains(x2) && #[trigger] f(x1) == #[trigger] f(x2) implies x1 == x2 by {
            lemma_numbered_injective(b, x1 as nat, x2 as nat);
        }
    }
    let img = dom.map(f);
    lemma_map_size(dom, img, f);
    let all = views(taken).to_set();
    assert(img.subset_of(all)) by {
        assert forall|s: Seq<char>| img.contains(s) implies all.contains(s) by {
            let k = choose|k: int| dom.contains(k) && f(k) == s;
            assert(views(taken).contains(numbered_slug(b, k as nat)));
        }
    }
    vstd::seq_lib::seq_to_set_is_finite(views(taken));
    lemma_len_subset(img, all);
    views(taken).lemma_cardinality_of_set();
}

fn unique_slug_with(name: &str, fallback: &str, taken: &Vec<String>) -> (r: String)
    requires
        fallback@.len() > 0,
    ensures
        is_unique_slug(r@, name@, fallback@, taken@),
{
    let s = slugify(name);
    let base = if s.as_str().is_empty() { fallback.to_owned() } else { s };
    let ghost b = slug_base(name@, fallback@);
    assert(base@ == b);
    if !contains_string(taken, base.as_str()) {
        return base;
    }
    let bound: u128 = taken.len() as u128 + 2;
    let mut i: u128 = 2;
    loop
        invariant
            2 <= i <= bound,
            bound == taken.len() + 2,
            base@ == b,
            b == slug_base(name@, fallback@),
            views(taken@).contains(b),
            forall|j: nat| 2 <= j < i ==> views(taken@).contains(#[trigger] numbered_slug(b, j)),
        decreases bound - i,
    {
        let mut cand = base.clone();
        cand.push('-');
        push_nat_decimal(&mut cand, i);
        assert(cand@ == numbered_slug(b, i as nat));
        if !contains_string(taken, cand.as_str()) {
            proof {
                let w = i as nat;
                assert(w >= 2 && cand@ == numbered_slug(b, w) && !views(taken@).contains(cand@));
                assert(forall|j: nat| 2 <= j < w ==> views(taken@).contains(#[trigger] numbered_slug(b, j)));
            }
            return cand;
        }
        proof {
            lemma_taken_bound(b, i as nat, taken@);
        }
        i = i + 1;
    }
}

/// Slug for a new profile named `name`, unique among the `taken` profile
/// slugs (`p` when the name has no slug characters).
pub fn unique_slug(name: &str, taken: &Vec<String>) -> (r: String)
    ensures
        is_unique_slug(r@, name@, seq!['p'], taken@),
{
    let fallback = "p";
    proof {
        reveal_strlit("p");
        assert(fallback@ =~= seq!['p']);
    }
    unique_slug_with(name, fallback, taken)
}

/// Slug for a new group named `name`, unique among the `taken` group slugs
/// (`g` when the name has no slug characters).
pub fn unique_group_slug(name: &str, taken: &Vec<String>) -> (r: String)
    ensures
        is_unique_slug(r@, name@, seq!['g'], taken@),
{
    let fallback = "g";
    proof {
        reveal_strlit("g");
        assert(fallback@ =~= seq!['g']);
    }
    unique_slug_with(name, fallback, taken)
}

} // verus!
