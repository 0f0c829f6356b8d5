use vstd::prelude::*;
use crate::db::{
    CacheView, ModEntry, ModIdentity, ModMetaCache, cache_view, components_view, copy_components,
    copy_list, copy_opt, list_view, opt_view,
};
use crate::meta::{
    MetaComponent, ModLoaderMeta, ModVariant, id_part, mod_id_ok, normalize_mod_id, normalized_id,
    str_is, valid_mod_id, valid_tag,
};
use crate::text::{
    ascii_lower, chars_of, has_prefix, join_with, join_strings, lower, lower_ascii_char, to_lowercase,
    trim, trim_seq, starts_with_str,
};

verus! {

/// `ctl` arguments.
#[derive(Debug)]
pub struct CtlArgs {
    pub command: CtlCommand,
}

/// The `ctl` subcommands.
#[derive(Debug)]
pub enum CtlCommand {
    List {
        verbose: bool,
        enabled: bool,
        disabled: bool,
        tag: Option<String>,
        group: Option<String>,
        author: Option<String>,
        id: Option<String>,
        search: Option<String>,
        sort: Option<String>,
        dir: Option<String>,
        json: bool,
    },
    Add { folder: String, name: Option<String> },
    Init { folder: String },
    Remove { ident: String, yes: bool },
    Enable { ident: String },
    Disable { ident: String, yes: bool },
    Order { ident: String, new_order: i64 },
    Rename { ident: String, new_name: String, folder: bool },
    Info { ident: String, verbose: bool, json: bool },
    Open { ident: String, url: bool },
    Export { path: Option<String> },
    Import { path: String, force: bool },
    Health { conflicts: bool },
    Conflicts { json: bool },
    Which { path: String },
    Dep { action: DepAction },
    Profile { action: ProfileAction },
    Group { action: GroupAction },
}

/// `ctl profile` subcommands.
#[derive(Debug)]
pub enum ProfileAction {
    List { json: bool },
    Create { name: String },
    Delete { ident: String, yes: bool },
    Use { ident: String },
    Rename { ident: String, new_name: String },
    Copy { source: String, new_name: String },
    Diff { a: String, b: String },
}

/// `ctl dep` subcommands.
#[derive(Debug)]
pub enum DepAction {
    Add { mod_ident: String, dep_ident: String, optional: bool },
    Remove { mod_ident: String, dep_ident: String },
}

/// `ctl group` subcommands.
#[derive(Debug)]
pub enum GroupAction {
    List { json: bool },
    Create { name: String },
    Rename { ident: String, new_name: String },
    Delete { ident: String, yes: bool },
    Add { mod_ident: String, group_ident: String, global: bool },
    Remove { mod_ident: String, group_ident: String, global: bool },
    Enable { group_ident: String },
    Disable { group_ident: String },
}

/// A folder name that the database accepts: not empty, not hidden, no path
/// separators, `|`, `:` or `,` (which would corrupt the overlay options), not
/// `.`/`..` or starting like a parent reference, and without surrounding
/// whitespace.
pub open spec fn folder_name_ok(f: Seq<char>) -> bool {
    &&& f.len() > 0
    &&& f[0] != '.'
    &&& !f.contains('|') && !f.contains('/') && !f.contains('\\') && !f.contains(':') && !f.contains(',')
    &&& f != "."@ && f != ".."@
    &&& !has_prefix(f, ".. "@) && !has_prefix(f, "..\\"@) && !has_prefix(f, "../"@)
    &&& trim_seq(f) == f
}

/// Validates a mod folder name before anything touches the filesystem.
pub fn valid_folder_name(folder: &str) -> (r: bool)
    ensures
        r == folder_name_ok(folder@),
{
    let v = chars_of(folder);
    if v.len() == 0 || v[0] == '.' {
        return false;
    }
    let mut i: usize = 0;
    while i < v.len()
        invariant
            i <= v.len(),
            v@ == folder@,
            forall|k: int| 0 <= k < i ==> {
                let c = #[trigger] folder@[k];
                c != '|' && c != '/' && c != '\\' && c != ':' && c != ','
            },
        decreases v.len() - i,
    {
        let c = v[i];
        if c == '|' || c == '/' || c == '\\' || c == ':' || c == ',' {
            assert(folder@[i as int] == c);
            return false;
        }
        i = i + 1;
    }
    if str_is(folder, ".") || str_is(folder, "..") {
        return false;
    }
    if starts_with_str(folder, ".. ") || starts_with_str(folder, "..\\") || starts_with_str(folder, "../") {
        return false;
    }
    let t = trim(folder);
    proof {
        crate::text::lemma_trim_len(folder@);
    }
    t.unicode_len() == folder.unicode_len()
}

/// A dependency as `ctl info --json` prints it.
#[derive(Debug)]
pub struct DepJson {
    pub id: i64,
    pub folder: String,
    pub name: String,
    pub required: bool,
}

impl DepJson {
    pub fn from_entry(d: &ModEntry, required: bool) -> (j: Self)
        ensures
            j.id == d.id,
            j.folder@ == d.folder_name@,
            j.name@ == d.name@,
            j.required == required,
    {
        DepJson { id: d.id, folder: d.folder_name.clone(), name: d.name.clone(), required }
    }
}

/// A variant family as `ctl info --json` prints it.
#[derive(Debug)]
pub struct VariantJson {
    pub group: String,
    pub name: Option<String>,
}

impl VariantJson {
    pub fn from_cache(cache: &ModMetaCache) -> (j: Option<Self>)
        ensures
            match j {
                Some(v) => cache.variant_group matches Some(g) && v.group@ == g@
                    && opt_view(v.name) == opt_view(cache.variant_name),
                None => cache.variant_group is None,
            },
    {
        match &cache.variant_group {
            Some(g) => Some(VariantJson { group: g.clone(), name: copy_opt(&cache.variant_name) }),
            None => None,
        }
    }
}

/// The value stored under `key` in an association list (the first match).
pub open spec fn lookup(pairs: Seq<(String, String)>, key: Seq<char>) -> Option<Seq<char>>
    decreases pairs.len(),
{
    if pairs.len() == 0 {
        None
    } else if pairs[0].0@ == key {
        Some(pairs[0].1@)
    } else {
        lookup(pairs.drop_first(), key)
    }
}

fn lookup_exec(pairs: &Vec<(String, String)>, key: &str) -> (r: Option<String>)
    ensures
        (match r { Some(v) => Some(v@), None => None }) == lookup(pairs@, key@),
{
    let mut i: usize = 0;
    proof {
        assert(pairs@.skip(0) =~= pairs@);
    }
    while i < pairs.len()
        invariant
            i <= pairs.len(),
            lookup(pairs@, key@) == lookup(pairs@.skip(i as int), key@),
        decreases pairs.len() - i,
    {
        proof {
            assert(pairs@.skip(i as int)[0] == pairs@[i as int]);
            assert(pairs@.skip(i as int).drop_first() =~= pairs@.skip(i + 1));
        }
        if str_is(pairs[i].0.as_str(), key) {
            return Some(pairs[i].1.clone());
        }
        i = i + 1;
    }
    None
}

/// The folder a conflict reference names: by `author:slug` id when valid and
/// known, else the trimmed reference when it is a known folder.
pub open spec fn conflict_ref_spec(reference: Seq<char>, by_id: Seq<(String, String)>, folders: Seq<String>) -> Option<Seq<char>> {
    let n = normalized_id(reference);
    let by = if mod_id_ok(n) { lookup(by_id, n) } else { None };
    if by is Some {
        by
    } else if crate::constraints::views(folders).contains(trim_seq(reference)) {
        Some(trim_seq(reference))
    } else {
        None
    }
}

/// Resolves a conflict reference (by `author:slug` or folder) to a folder,
/// given the known ids (`(id, folder)` pairs) and folders.
pub fn resolve_conflict_ref(reference: &str, by_id: &Vec<(String, String)>, folders: &Vec<String>) -> (r: Option<String>)
    ensures
        (match r { Some(f) => Some(f@), None => None }) == conflict_ref_spec(reference@, by_id@, folders@),
{
    let normalized = normalize_mod_id(reference);
    if valid_mod_id(normalized.as_str()) {
        let f = lookup_exec(by_id, normalized.as_str());
        if f.is_some() {
            return f;
        }
    }
    let trimmed = trim(reference);
    let ghost n = normalized_id(reference@);
    assert(!(mod_id_ok(n) && lookup(by_id@, n) is Some));
    let mut i: usize = 0;
    while i < folders.len()
        invariant
            i <= folders.len(),
            n == normalized_id(reference@),
            trimmed@ == trim_seq(reference@),
            !(mod_id_ok(n) && lookup(by_id@, n) is Some),
            forall|k: int| 0 <= k < i ==> folders@[k]@ != trimmed@,
        decreases folders.len() - i,
    {
        if str_is(folders[i].as_str(), trimmed) {
            assert(crate::constraints::views(folders@)[i as int] == trimmed@);
            return Some(trimmed.to_owned());
        }
        i = i + 1;
    }
    proof {
        if crate::constraints::views(folders@).contains(trimmed@) {
            let k = choose|k: int| 0 <= k < folders@.len() && #[trigger] crate::constraints::views(folders@)[k] == trimmed@;
            assert(folders@[k]@ == trimmed@);
        }
    }
    None
}

/// An `http://` or `https://` URL (scheme in any ASCII case, surrounding
/// whitespace ignored).
pub open spec fn http_url(u: Seq<char>) -> bool {
    let l = ascii_lower(trim_seq(u));
    has_prefix(l, "http://"@) || has_prefix(l, "https://"@)
}

fn ascii_lowercase(s: &str) -> (r: String)
    ensures
        r@ == ascii_lower(s@),
{
    let v = chars_of(s);
    let mut r = String::new();
    let mut i: usize = 0;
    while i < v.len()
        invariant
            i <= v.len(),
            v@ == s@,
            r@ == ascii_lower(s@.take(i as int)),
        decreases v.len() - i,
    {
        r.push(lower_ascii_char(v[i]));
        proof {
            assert(s@.take(i + 1) =~= s@.take(i as int).push(v@[i as int]));
            assert(r@ =~= ascii_lower(s@.take(i + 1)));
        }
        i = i + 1;
    }
    assert(s@.take(v.len() as int) =~= s@);
    r
}

/// True when `u` is an `http://`/`https://` URL: only those are handed to the
/// desktop opener, so a manifest cannot invoke arbitrary URI handlers.
pub fn is_http_url(u: &str) -> (r: bool)
    ensures
        r == http_url(u@),
{
    let l = ascii_lowercase(trim(u));
    starts_with_str(l.as_str(), "http://") || starts_with_str(l.as_str(), "https://")
}

/// `s` without its leading `#` characters.
pub open spec fn drop_hashes(s: Seq<char>) -> Seq<char>
    decreases s.len(),
{
    if s.len() > 0 && s[0] == '#' { drop_hashes(s.drop_first()) } else { s }
}

/// A tag argument in canonical form: trimmed, leading `#` removed, trimmed
/// again, lowercased.
pub open spec fn tag_form(t: Seq<char>) -> Seq<char> {
    lower(trim_seq(drop_hashes(trim_seq(t))))
}

/// The canonical tags of some arguments, each once and in order, empty ones
/// skipped; `Err` with the first malformed tag.
pub open spec fn tags_spec(raw: Seq<Seq<char>>) -> Result<Seq<Seq<char>>, Seq<char>>
    decreases raw.len(),
{
    if raw.len() == 0 {
        Ok(Seq::empty())
    } else {
        match tags_spec(raw.drop_last()) {
            Err(e) => Err(e),
            Ok(out) => {
                let t = tag_form(raw.last());
                if t.len() == 0 {
                    Ok(out)
                } else if !id_part(t) {
                    Err(t)
                } else if out.contains(t) {
                    Ok(out)
                } else {
                    Ok(out.push(t))
                }
            },
        }
    }
}

/// `Tag inválido: '<t>' (usa minúsculas, dígitos, '-' o '_').`
pub open spec fn bad_tag_msg(t: Seq<char>) -> Seq<char> {
    "Tag inválido: '"@ + t + "' (usa minúsculas, dígitos, '-' o '_')."@
}

pub(crate) fn drop_hashes_exec(s: &str) -> (r: String)
    ensures
        r@ == drop_hashes(s@),
{
    let v = chars_of(s);
    let mut i: usize = 0;
    proof {
        assert(s@.skip(0) =~= s@);
    }
    while i < v.len() && v[i] == '#'
        invariant
            i <= v.len(),
            v@ == s@,
            drop_hashes(s@) == drop_hashes(s@.skip(i as int)),
        decreases v.len() - i,
    {
        proof {
            assert(s@.skip(i as int).drop_first() =~= s@.skip(i + 1));
        }
        i = i + 1;
    }
    let mut r = String::new();
    let start = i;
    while i < v.len()
        invariant
            start <= i <= v.len(),
            v@ == s@,
            r@ == s@.subrange(start as int, i as int),
        decreases v.len() - i,
    {
        r.push(v[i]);
        assert(s@.subrange(start as int, i + 1) =~= s@.subrange(start as int, i as int).push(v@[i as int]));
        i = i + 1;
    }
    assert(s@.subrange(start as int, v.len() as int) =~= s@.skip(start as int));
    r
}

/// Normalizes and validates tag arguments (trim, drop a leading `#`,
/// lowercase, deduplicate). Errors on a malformed tag.
pub fn normalize_tags(raw: &Vec<String>) -> (r: Result<Vec<String>, String>)
    ensures
        match r {
            Ok(v) => tags_spec(raw@.map_values(|t: String| t@)) == Ok::<Seq<Seq<char>>, Seq<char>>(list_view(v)),
            Err(msg) => tags_spec(raw@.map_values(|t: String| t@)) matches Err(t) && msg@ == bad_tag_msg(t),
        },
{
    let ghost rv = raw@.map_values(|t: String| t@);
    let mut out: Vec<String> = Vec::new();
    let mut i: usize = 0;
    proof {
        assert(rv.take(0) =~= Seq::<Seq<char>>::empty());
        assert(list_view(out) =~= Seq::<Seq<char>>::empty());
    }
    while i < raw.len()
        invariant
            i <= raw.len(),
            rv == raw@.map_values(|t: String| t@),
            tags_spec(rv.take(i as int)) == Ok::<Seq<Seq<char>>, Seq<char>>(list_view(out)),
        decreases raw.len() - i,
    {
        proof {
            assert(rv.take(i + 1).drop_last() =~= rv.take(i as int));
            assert(rv.take(i + 1).last() == raw@[i as int]@);
        }
        let h = drop_hashes_exec(trim(raw[i].as_str()));
        let t = to_lowercase(trim(h.as_str()));
        if t.as_str().unicode_len() > 0 {
            if !valid_tag(t.as_str()) {
                let mut msg = String::from_str("Tag inválido: '");
                msg.append(t.as_str());
                msg.append("' (usa minúsculas, dígitos, '-' o '_').");
                proof {
                    lemma_tags_err_sticky(rv, (i + 1) as int, t@);
                }
                return Err(msg);
            }
            let mut seen = false;
            let mut j: usize = 0;
            while j < out.len()
                invariant
                    j <= out.len(),
                    seen == list_view(out).take(j as int).contains(t@),
                decreases out.len() - j,
            {
                proof {
                    assert(list_view(out).take(j + 1) =~= list_view(out).take(j as int).push(out@[j as int]@));
                    lemma_push_contains(list_view(out).take(j as int), out@[j as int]@, t@);
                }
                if str_is(out[j].as_str(), t.as_str()) {
                    seen = true;
                }
                j = j + 1;
            }
            proof {
                assert(list_view(out).take(out.len() as int) =~= list_view(out));
            }
            if !seen {
                let ghost prev = list_view(out);
                out.push(t);
                proof {
                    assert(list_view(out) =~= prev.push(tag_form(raw@[i as int]@)));
                }
            }
        }
        i = i + 1;
    }
    proof {
        assert(rv.take(raw.len() as int) =~= rv);
    }
    Ok(out)
}

proof fn lemma_push_contains(s: Seq<Seq<char>>, x: Seq<char>, y: Seq<char>)
    ensures
        s.push(x).contains(y) == (s.contains(y) || x == y),
{
    if s.push(x).contains(y) {
        let k = choose|k: int| 0 <= k < s.push(x).len() && s.push(x)[k] == y;
        if k < s.len() {
            assert(s[k] == y);
        }
    }
    if s.contains(y) {
        let k = choose|k: int| 0 <= k < s.len() && s[k] == y;
        assert(s.push(x)[k] == y);
    }
    if x == y {
        assert(s.push(x)[s.len() as int] == y);
    }
}

proof fn lemma_tags_err_sticky(rv: Seq<Seq<char>>, k: int, t: Seq<char>)
    requires
        0 <= k <= rv.len(),
        tags_spec(rv.take(k)) == Err::<Seq<Seq<char>>, Seq<char>>(t),
    ensures
        tags_spec(rv) == Err::<Seq<Seq<char>>, Seq<char>>(t),
    decreases rv.len() - k,
{
    if k < rv.len() {
        assert(rv.take(k + 1).drop_last() =~= rv.take(k));
        lemma_tags_err_sticky(rv, k + 1, t);
    } else {
        assert(rv.take(k) =~= rv);
    }
}

/// The mods directory, or the error shown when the config gives none.
pub fn mods_dir_or_bail(mods_dir: Option<String>) -> (r: Result<String, String>)
    ensures
        match r {
            Ok(d) => mods_dir matches Some(m) && d@ == m@,
            Err(msg) => mods_dir is None
                && msg@ == "No se pudo resolver el directorio de mods (revisa game_root/mods_dir en la config)."@,
        },
{
    match mods_dir {
        Some(d) => Ok(d),
        None => Err(String::from_str("No se pudo resolver el directorio de mods (revisa game_root/mods_dir en la config).")),
    }
}

/// Tags shown as `#a #b`, or `(ninguno)` when there are none.
pub open spec fn tags_text(tags: Seq<Seq<char>>) -> Seq<char> {
    if tags.len() == 0 {
        "(ninguno)"@
    } else {
        join_with(tags.map_values(|t: Seq<char>| "#"@ + t), " "@)
    }
}

pub fn tags_display(tags: &Vec<String>) -> (s: String)
    ensures
        s@ == tags_text(list_view(*tags)),
{
    if tags.len() == 0 {
        return String::from_str("(ninguno)");
    }
    let mut hashed: Vec<String> = Vec::new();
    let mut i: usize = 0;
    while i < tags.len()
        invariant
            i <= tags.len(),
            hashed@.map_values(|p: String| p@) == list_view(*tags).take(i as int).map_values(|t: Seq<char>| "#"@ + t),
        decreases tags.len() - i,
    {
        let mut h = String::from_str("#");
        h.append(tags[i].as_str());
        let ghost prev = hashed@.map_values(|p: String| p@);
        hashed.push(h);
        proof {
            assert(list_view(*tags).take(i + 1) =~= list_view(*tags).take(i as int).push(tags@[i as int]@));
            assert(hashed@.map_values(|p: String| p@) =~= prev.push("#"@ + tags@[i as int]@));
            assert(hashed@.map_values(|p: String| p@) =~= list_view(*tags).take(i + 1).map_values(|t: Seq<char>| "#"@ + t));
        }
        i = i + 1;
    }
    proof {
        assert(list_view(*tags).take(tags.len() as int) =~= list_view(*tags));
    }
    join_strings(&hashed, " ")
}

/// A mod in an export file: identity, cached metadata and manifest sections.
#[derive(Debug)]
pub struct ExportMod {
    pub folder: String,
    pub name: String,
    pub mod_id: Option<String>,
    pub version: Option<String>,
    pub author: Vec<String>,
    pub url: Option<String>,
    pub description: Option<String>,
    pub cover: Option<String>,
    pub mount: Vec<String>,
    pub guides: Vec<String>,
    pub screenshots: Vec<String>,
    pub tags: Vec<String>,
    pub components: Vec<MetaComponent>,
    pub variant: Option<ModVariant>,
    pub conflicts: Vec<String>,
    pub modloader: Option<ModLoaderMeta>,
}

/// What the export keeps of the variant and Mod Loader fields: the variant
/// only with a family; the Mod Loader section when it has a priority or folders.
pub open spec fn export_ok(e: ExportMod, m: ModIdentity, c: ModMetaCache) -> bool {
    &&& e.folder@ == m.folder_name@ && e.name@ == m.name@
    &&& opt_view(e.mod_id) == opt_view(c.mod_id) && opt_view(e.version) == opt_view(c.version)
    &&& list_view(e.author) == list_view(c.author) && opt_view(e.url) == opt_view(c.url)
    &&& opt_view(e.description) == opt_view(c.description) && opt_view(e.cover) == opt_view(c.cover)
    &&& list_view(e.mount) == list_view(c.mount) && list_view(e.guides) == list_view(c.guides)
    &&& list_view(e.screenshots) == list_view(c.screenshots) && list_view(e.tags) == list_view(c.tags)
    &&& components_view(e.components) == components_view(c.components)
    &&& list_view(e.conflicts) == list_view(c.conflicts)
    &&& match e.variant {
        Some(v) => c.variant_group matches Some(g) && v.group@ == g@ && opt_view(v.name) == opt_view(c.variant_name),
        None => c.variant_group is None,
    }
    &&& match e.modloader {
        Some(l) => (c.modloader_priority is Some || c.modloader_folders@.len() > 0)
            && l.priority == c.modloader_priority
            && (match l.folders {
                Some(f) => c.modloader_folders@.len() > 0 && list_view(f) == list_view(c.modloader_folders),
                None => c.modloader_folders@.len() == 0,
            }),
        None => c.modloader_priority is None && c.modloader_folders@.len() == 0,
    }
}

/// The cache an export entry restores.
pub open spec fn imported(e: ExportMod) -> CacheView {
    CacheView {
        mod_id: opt_view(e.mod_id),
        version: opt_view(e.version),
        author: list_view(e.author),
        url: opt_view(e.url),
        description: opt_view(e.description),
        cover: opt_view(e.cover),
        mount: list_view(e.mount),
        guides: list_view(e.guides),
        screenshots: list_view(e.screenshots),
        tags: list_view(e.tags),
        components: components_view(e.components),
        variant_group: match e.variant { Some(v) => Some(v.group@), None => None },
        variant_name: match e.variant { Some(v) => opt_view(v.name), None => None },
        conflicts: list_view(e.conflicts),
        modloader_priority: match e.modloader { Some(l) => l.priority, None => None },
        modloader_folders: match e.modloader {
            Some(l) => match l.folders { Some(f) => list_view(f), None => Seq::empty() },
            None => Seq::empty(),
        },
    }
}

impl ExportMod {
    pub fn from_identity(m: &ModIdentity, cache: &ModMetaCache) -> (e: Self)
        ensures
            export_ok(e, *m, *cache),
    {
        let variant = match &cache.variant_group {
            Some(g) => Some(ModVariant { group: g.clone(), name: copy_opt(&cache.variant_name) }),
            None => None,
        };
        let modloader = if cache.modloader_priority.is_some() || cache.modloader_folders.len() > 0 {
            let folders = if cache.modloader_folders.len() > 0 {
                Some(copy_list(&cache.modloader_folders))
            } else {
                None
            };
            Some(ModLoaderMeta { priority: cache.modloader_priority, folders })
        } else {
            None
        };
        ExportMod {
            folder: m.folder_name.clone(),
            name: m.name.clone(),
            mod_id: copy_opt(&cache.mod_id),
            version: copy_opt(&cache.version),
            author: copy_list(&cache.author),
            url: copy_opt(&cache.url),
            description: copy_opt(&cache.description),
            cover: copy_opt(&cache.cover),
            mount: copy_list(&cache.mount),
            guides: copy_list(&cache.guides),
            screenshots: copy_list(&cache.screenshots),
            tags: copy_list(&cache.tags),
            components: copy_components(&cache.components),
            variant,
            conflicts: copy_list(&cache.conflicts),
            modloader,
        }
    }

    pub fn to_cache(&self) -> (c: ModMetaCache)
        ensures
            cache_view(c) == imported(*self),
    {
        let (variant_group, variant_name) = match &self.variant {
            Some(v) => (Some(v.group.clone()), copy_opt(&v.name)),
            None => (None, None),
        };
        let (modloader_priority, modloader_folders) = match &self.modloader {
            Some(l) => (l.priority, match &l.folders {
                Some(f) => copy_list(f),
                None => {
                    let v: Vec<String> = Vec::new();
                    assert(list_view(v) =~= Seq::<Seq<char>>::empty());
                    v
                },
            }),
            None => {
                let v: Vec<String> = Vec::new();
                assert(list_view(v) =~= Seq::<Seq<char>>::empty());
                (None, v)
            },
        };
        let c = ModMetaCache {
            mod_id: copy_opt(&self.mod_id),
            version: copy_opt(&self.version),
            author: copy_list(&self.author),
            url: copy_opt(&self.url),
            description: copy_opt(&self.description),
            cover: copy_opt(&self.cover),
            mount: copy_list(&self.mount),
            guides: copy_list(&self.guides),
            screenshots: copy_list(&self.screenshots),
            tags: copy_list(&self.tags),
            components: copy_components(&self.components),
            variant_group,
            variant_name,
            conflicts: copy_list(&self.conflicts),
            modloader_priority,
            modloader_folders,
        };
        proof {
            let a = cache_view(c);
            let b = imported(*self);
            assert(a.mod_id == b.mod_id);
            assert(a.modloader_folders == b.modloader_folders);
            assert(a.variant_name == b.variant_name);
        }
        c
    }
}

/// Exporting a mod and importing it back restores its cache, for every cache
/// that does not name a variant without a family (the export keeps a variant
/// only with its family).
pub proof fn lemma_export_import(e: ExportMod, m: ModIdentity, c: ModMetaCache)
    requires
        export_ok(e, m, c),
        !(c.variant_group is None && c.variant_name is Some),
    ensures
        imported(e) == cache_view(c),
{
    let a = imported(e);
    let b = cache_view(c);
    assert(a.variant_name == b.variant_name);
    assert(a.modloader_folders == b.modloader_folders) by {
        if e.modloader is Some && e.modloader->0.folders is None {
            assert(list_view(c.modloader_folders) =~= Seq::<Seq<char>>::empty());
        }
        if e.modloader is None {
            assert(list_view(c.modloader_folders) =~= Seq::<Seq<char>>::empty());
        }
    }
}

/// The metadata filters of `ctl list`.
#[derive(Debug, Clone, Default)]
pub struct ListFilters {
    pub tag: Option<String>,
    pub group: Option<String>,
    pub author: Option<String>,
    pub id: Option<String>,
    pub search: Option<String>,
}

/// A mod as `ctl list` sees it: its profile entry, its display name and its
/// metadata (live manifest over cache).
#[derive(Debug)]
pub struct ListedMod {
    pub entry: ModEntry,
    pub name: String,
    pub meta: ModMetaCache,
}

/// Lowercased haystack of the free-text search of `ctl list`.
pub open spec fn list_haystack(l: ListedMod) -> Seq<char> {
    let s1 = lower(l.name@) + " "@ + lower(l.entry.folder_name@) + " "@ + lower(join_with(list_view(l.meta.author), " "@));
    let s2 = match l.meta.mod_id {
        Some(id) => s1 + " "@ + lower(id@),
        None => s1,
    };
    let s3 = match l.meta.description {
        Some(d) => s2 + " "@ + lower(d@),
        None => s2,
    };
    s3 + " "@ + lower(join_with(list_view(l.meta.tags), " "@))
}

/// Whether a listed mod passes the status filter (`enabled`/`disabled`), the
/// group membership and the metadata filters: a tag (ignoring ASCII case), an
/// author containing the text (lowercased), an id equal to its mod id or
/// folder (ignoring ASCII case), the lowercased search text in its haystack.
pub open spec fn list_passes(l: ListedMod, status: Option<Seq<char>>, f: ListFilters, group_ids: Seq<i64>) -> bool {
    &&& match status {
        Some(st) => if st == "enabled"@ { l.entry.enabled } else if st == "disabled"@ { !l.entry.enabled } else { true },
        None => true,
    }
    &&& (f.group is Some ==> group_ids.contains(l.entry.id))
    &&& match f.tag {
        Some(t) => crate::view::any_ignore_case(list_view(l.meta.tags), t@),
        None => true,
    }
    &&& match f.author {
        Some(a) => exists|i: int| 0 <= i < l.meta.author@.len()
            && crate::text::has_infix(lower(#[trigger] l.meta.author@[i]@), lower(a@)),
        None => true,
    }
    &&& match f.id {
        Some(i) => (l.meta.mod_id matches Some(x) && crate::text::eq_ignore_ascii_case(x@, i@))
            || crate::text::eq_ignore_ascii_case(l.entry.folder_name@, i@),
        None => true,
    }
    &&& match f.search {
        Some(q) => crate::text::has_infix(list_haystack(l), lower(q@)),
        None => true,
    }
}

/// The sort key of a listed mod for a `--sort` field (empty for an unknown one).
pub open spec fn list_key(l: ListedMod, field: Seq<char>) -> Seq<char> {
    if field == "name"@ {
        lower(l.name@)
    } else if field == "folder"@ {
        lower(l.entry.folder_name@)
    } else if field == "author"@ {
        lower(join_with(list_view(l.meta.author), " "@))
    } else if field == "order"@ {
        crate::view::padded10(l.entry.load_order as int)
    } else if field == "mod_id"@ {
        lower(match l.meta.mod_id { Some(v) => v@, None => Seq::empty() })
    } else if field == "version"@ {
        match l.meta.version { Some(v) => v@, None => Seq::empty() }
    } else if field == "status"@ {
        if l.entry.enabled { "1"@ } else { "0"@ }
    } else {
        Seq::empty()
    }
}

/// The mods that pass, in input order.
pub open spec fn listed(ms: Seq<ListedMod>, status: Option<Seq<char>>, f: ListFilters, group_ids: Seq<i64>) -> Seq<ListedMod>
    decreases ms.len(),
{
    if ms.len() == 0 {
        ms
    } else if list_passes(ms.last(), status, f, group_ids) {
        listed(ms.drop_last(), status, f, group_ids).push(ms.last())
    } else {
        listed(ms.drop_last(), status, f, group_ids)
    }
}

/// Whether a listing sorts highest first: `--dir desc`, or `--sort order`
/// without a direction.
pub open spec fn list_desc(field: Seq<char>, dir: Option<Seq<char>>) -> bool {
    dir == Some("desc"@) || (field == "order"@ && dir is None)
}

/// The listing: the passing mods, stably sorted by `sort` when given.
pub open spec fn list_spec(ms: Seq<ListedMod>, status: Option<Seq<char>>, f: ListFilters, group_ids: Seq<i64>,
    sort: Option<Seq<char>>, dir: Option<Seq<char>>) -> Seq<ListedMod>
{
    let kept = listed(ms, status, f, group_ids);
    match sort {
        Some(field) => crate::order::stable_sort(kept.map_values(|l: ListedMod| (list_key(l, field), l)), list_desc(field, dir))
            .map_values(|p: (Seq<char>, ListedMod)| p.1),
        None => kept,
    }
}

fn list_haystack_exec(l: &ListedMod) -> (s: String)
    ensures
        s@ == list_haystack(*l),
{
    let mut s = to_lowercase(l.name.as_str());
    s.push(' ');
    s.append(to_lowercase(l.entry.folder_name.as_str()).as_str());
    s.push(' ');
    let authors = join_strings(&l.meta.author, " ");
    s.append(to_lowercase(authors.as_str()).as_str());
    proof {
        reveal_strlit(" ");
        assert(" "@ =~= seq![' ']);
    }
    match &l.meta.mod_id {
        Some(id) => {
            s.push(' ');
            s.append(to_lowercase(id.as_str()).as_str());
        },
        None => {},
    }
    match &l.meta.description {
        Some(d) => {
            s.push(' ');
            s.append(to_lowercase(d.as_str()).as_str());
        },
        None => {},
    }
    s.push(' ');
    let tags = join_strings(&l.meta.tags, " ");
    s.append(to_lowercase(tags.as_str()).as_str());
    proof {
        assert(s@ =~= list_haystack(*l));
    }
    s
}

fn any_tag(list: &Vec<String>, x: &String) -> (r: bool)
    ensures
        r == crate::view::any_ignore_case(list_view(*list), x@),
{
    let mut i: usize = 0;
    while i < list.len()
        invariant
            i <= list.len(),
            forall|k: int| 0 <= k < i ==> !crate::text::eq_ignore_ascii_case(#[trigger] list_view(*list)[k], x@),
        decreases list.len() - i,
    {
        assert(list_view(*list)[i as int] == list@[i as int]@);
        if crate::text::str_eq_ignore_ascii_case(list[i].as_str(), x.as_str()) {
            return true;
        }
        i = i + 1;
    }
    false
}

fn contains_id(v: &Vec<i64>, x: i64) -> (r: bool)
    ensures
        r == v@.contains(x),
{
    let mut i: usize = 0;
    while i < v.len()
        invariant
            i <= v.len(),
            forall|k: int| 0 <= k < i ==> v@[k] != x,
        decreases v.len() - i,
    {
        if v[i] == x {
            assert(v@[i as int] == x);
            return true;
        }
        i = i + 1;
    }
    false
}

fn list_passes_exec(l: &ListedMod, status: Option<&str>, f: &ListFilters, group_ids: &Vec<i64>) -> (r: bool)
    ensures
        r == list_passes(*l, opt_view_str(status), *f, group_ids@),
{
    match status {
        Some(st) => {
            if str_is(st, "enabled") {
                if !l.entry.enabled {
                    return false;
                }
            } else if str_is(st, "disabled") {
                if l.entry.enabled {
                    return false;
                }
            }
        },
        None => {},
    }
    if f.group.is_some() {
        if !contains_id(group_ids, l.entry.id) {
            return false;
        }
    }
    match &f.tag {
        Some(t) => {
            if !any_tag(&l.meta.tags, t) {
                return false;
            }
        },
        None => {},
    }
    match &f.author {
        Some(a) => {
            let al = to_lowercase(a.as_str());
            let mut ok = false;
            let mut i: usize = 0;
            while i < l.meta.author.len()
                invariant
                    i <= l.meta.author.len(),
                    al@ == lower(a@),
                    ok == exists|k: int| 0 <= k < i && crate::text::has_infix(lower(#[trigger] l.meta.author@[k]@), lower(a@)),
                decreases l.meta.author.len() - i,
            {
                let xl = to_lowercase(l.meta.author[i].as_str());
                if crate::text::contains_str(xl.as_str(), al.as_str()) {
                    ok = true;
                }
                i = i + 1;
            }
            if !ok {
                return false;
            }
        },
        None => {},
    }
    match &f.id {
        Some(i) => {
            let by_id = match &l.meta.mod_id {
                Some(x) => crate::text::str_eq_ignore_ascii_case(x.as_str(), i.as_str()),
                None => false,
            };
            let by_folder = crate::text::str_eq_ignore_ascii_case(l.entry.folder_name.as_str(), i.as_str());
            if !by_id && !by_folder {
                return false;
            }
        },
        None => {},
    }
    match &f.search {
        Some(q) => {
            let ql = to_lowercase(q.as_str());
            let hay = list_haystack_exec(l);
            if !crate::text::contains_str(hay.as_str(), ql.as_str()) {
                return false;
            }
        },
        None => {},
    }
    proof {
        reveal_strlit("enabled");
        reveal_strlit("disabled");
    }
    true
}

/// An optional text as plain value.
pub open spec fn opt_view_str(o: Option<&str>) -> Option<Seq<char>> {
    match o {
        Some(s) => Some(s@),
        None => None,
    }
}

fn list_key_exec(l: &ListedMod, field: &str) -> (k: String)
    ensures
        k@ == list_key(*l, field@),
{
    proof {
        reveal_strlit("name");
        reveal_strlit("folder");
        reveal_strlit("author");
        reveal_strlit("order");
        reveal_strlit("mod_id");
        reveal_strlit("version");
        reveal_strlit("status");
    }
    if str_is(field, "name") {
        to_lowercase(l.name.as_str())
    } else if str_is(field, "folder") {
        to_lowercase(l.entry.folder_name.as_str())
    } else if str_is(field, "author") {
        let a = join_strings(&l.meta.author, " ");
        to_lowercase(a.as_str())
    } else if str_is(field, "order") {
        crate::view::padded10_exec(l.entry.load_order)
    } else if str_is(field, "mod_id") {
        match &l.meta.mod_id {
            Some(v) => to_lowercase(v.as_str()),
            None => {
                proof {
                    reveal_strlit("");
                    assert(""@ =~= Seq::<char>::empty());
                }
                to_lowercase("")
            },
        }
    } else if str_is(field, "version") {
        match &l.meta.version {
            Some(v) => v.clone(),
            None => String::new(),
        }
    } else if str_is(field, "status") {
        if l.entry.enabled { String::from_str("1") } else { String::from_str("0") }
    } else {
        String::new()
    }
}

/// The mods `ctl list` shows: filtered by status, group and metadata, then
/// sorted by `--sort` when given (see `list_desc` for the direction).
pub fn list_mods(mods: Vec<ListedMod>, status: Option<&str>, filters: &ListFilters, group_ids: &Vec<i64>,
    sort: Option<&str>, dir: Option<&str>) -> (out: Vec<ListedMod>)
    ensures
        out@ == list_spec(mods@, opt_view_str(status), *filters, group_ids@, opt_view_str(sort), opt_view_str(dir)),
{
    let ghost orig = mods@;
    let n = mods.len();
    let mut mods = mods;
    let mut kept: Vec<ListedMod> = Vec::new();
    let mut k: usize = 0;
    proof {
        assert(orig.skip(0) =~= orig);
    }
    while mods.len() > 0
        invariant
            k + mods.len() == n,
            orig.len() == n,
            mods@ == orig.skip(k as int),
            kept@ == listed(orig.take(k as int), opt_view_str(status), *filters, group_ids@),
        decreases mods.len(),
    {
        let m = mods.remove(0);
        proof {
            assert(m == orig[k as int]);
            assert(mods@ =~= orig.skip(k + 1));
            assert(orig.take(k + 1).drop_last() =~= orig.take(k as int));
            assert(orig.take(k + 1).last() == m);
        }
        if list_passes_exec(&m, status, filters, group_ids) {
            kept.push(m);
        }
        k = k + 1;
    }
    proof {
        assert(orig.take(n as int) =~= orig);
    }
    let field = match sort {
        Some(f) => f,
        None => {
            return kept;
        },
    };
    let desc = match dir {
        Some(d) => str_is(d, "desc"),
        None => str_is(field, "order"),
    };
    proof {
        reveal_strlit("desc");
        assert(desc == list_desc(field@, opt_view_str(dir)));
    }
    let ghost kv = kept@;
    let kn = kept.len();
    let mut keyed: Vec<(String, ListedMod)> = Vec::new();
    let mut t: usize = 0;
    proof {
        assert(kv.skip(0) =~= kv);
    }
    while kept.len() > 0
        invariant
            t + kept.len() == kn,
            kv.len() == kn,
            kept@ == kv.skip(t as int),
            crate::order::keyed_view(keyed@) == kv.take(t as int).map_values(|l: ListedMod| (list_key(l, field@), l)),
        decreases kept.len(),
    {
        let m = kept.remove(0);
        proof {
            assert(m == kv[t as int]);
            assert(kept@ =~= kv.skip(t + 1));
        }
        let key = list_key_exec(&m, field);
        let ghost prev = crate::order::keyed_view(keyed@);
        let ghost mv = m;
        keyed.push((key, m));
        proof {
            assert(kv.take(t + 1) =~= kv.take(t as int).push(kv[t as int]));
            assert(crate::order::keyed_view(keyed@) =~= prev.push((list_key(mv, field@), mv)));
            assert(crate::order::keyed_view(keyed@) =~= kv.take(t + 1).map_values(|l: ListedMod| (list_key(l, field@), l)));
        }
        t = t + 1;
    }
    proof {
        assert(kv.take(kn as int) =~= kv);
    }
    let sorted = crate::order::sort_keyed(keyed, desc);
    let ghost sv = crate::order::keyed_view(sorted@);
    let sn = sorted.len();
    let mut sorted = sorted;
    let mut out: Vec<ListedMod> = Vec::new();
    let mut u: usize = 0;
    proof {
        assert(sv.skip(0) =~= sv);
    }
    while sorted.len() > 0
        invariant
            u + sorted.len() == sv.len(),
            sv.len() == sn,
            crate::order::keyed_view(sorted@) == sv.skip(u as int),
            out@ == sv.take(u as int).map_values(|p: (Seq<char>, ListedMod)| p.1),
        decreases sorted.len(),
    {
        let ghost before = sorted@;
        let p = sorted.remove(0);
        proof {
            assert(sv.skip(u as int)[0] == (p.0@, p.1));
            assert forall|w: int| 0 <= w < sorted@.len() implies #[trigger] crate::order::keyed_view(sorted@)[w] == sv.skip(u + 1)[w] by {
                assert(sorted@[w] == before[w + 1]);
                assert(crate::order::keyed_view(before)[w + 1] == sv.skip(u as int)[w + 1]);
            }
            assert(crate::order::keyed_view(sorted@) =~= sv.skip(u + 1));
        }
        out.push(p.1);
        proof {
            assert(sv.take(u + 1) =~= sv.take(u as int).push(sv[u as int]));
            assert(out@ =~= sv.take(u + 1).map_values(|p: (Seq<char>, ListedMod)| p.1));
        }
        u = u + 1;
    }
    proof {
        assert(sv.take(u as int) =~= sv);
    }
    out
}

/// Normalized tags are valid and each appears once.
pub proof fn lemma_tags_valid_unique(raw: Seq<Seq<char>>)
    ensures
        tags_spec(raw) matches Ok(v) ==> v.no_duplicates() && forall|i: int| 0 <= i < v.len() ==> id_part(#[trigger] v[i]),
    decreases raw.len(),
{
    if raw.len() > 0 {
        lemma_tags_valid_unique(raw.drop_last());
        match tags_spec(raw.drop_last()) {
            Ok(out) => {
                let t = tag_form(raw.last());
                if t.len() > 0 && id_part(t) && !out.contains(t) {
                    let v = out.push(t);
                    assert forall|i: int, j: int| 0 <= i < v.len() && 0 <= j < v.len() && i != j implies v[i] != v[j] by {
                        if i == out.len() as int {
                            assert(out[j] == v[j]);
                        } else if j == out.len() as int {
                            assert(out[i] == v[i]);
                        }
                    }
                    assert forall|i: int| 0 <= i < v.len() implies id_part(#[trigger] v[i]) by {
                        if i < out.len() {
                            assert(v[i] == out[i]);
                        }
                    }
                }
            },
            Err(_) => {},
        }
    }
}

/// `current` with each tag of `add` appended that it does not hold yet, in
/// the order given.
pub open spec fn tags_added(current: Seq<Seq<char>>, add: Seq<Seq<char>>) -> Seq<Seq<char>>
    decreases add.len(),
{
    if add.len() == 0 {
        current
    } else {
        let r = tags_added(current, add.drop_last());
        if r.contains(add.last()) { r } else { r.push(add.last()) }
    }
}

/// `current` without the tags of `remove`, the rest in order.
pub open spec fn tags_removed(current: Seq<Seq<char>>, remove: Seq<Seq<char>>) -> Seq<Seq<char>>
    decreases current.len(),
{
    if current.len() == 0 {
        current
    } else {
        let r = tags_removed(current.drop_last(), remove);
        if remove.contains(current.last()) { r } else { r.push(current.last()) }
    }
}

fn holds(v: &Vec<String>, t: &String) -> (r: bool)
    ensures
        r == list_view(*v).contains(t@),
{
    let mut i: usize = 0;
    while i < v.len()
        invariant
            i <= v.len(),
            forall|k: int| 0 <= k < i ==> v@[k]@ != t@,
        decreases v.len() - i,
    {
        if str_is(v[i].as_str(), t.as_str()) {
            assert(list_view(*v)[i as int] == t@);
            return true;
        }
        i = i + 1;
    }
    proof {
        if list_view(*v).contains(t@) {
            let k = choose|k: int| 0 <= k < list_view(*v).len() && list_view(*v)[k] == t@;
            assert(v@[k]@ == t@);
        }
    }
    false
}

/// The tags of a manifest after `ctl tag add`: each new tag appended once.
pub fn add_tags(current: Vec<String>, add: &Vec<String>) -> (r: Vec<String>)
    ensures
        list_view(r) == tags_added(list_view(current), list_view(*add)),
{
    let mut r = current;
    let ghost cur = list_view(r);
    let mut i: usize = 0;
    while i < add.len()
        invariant
            i <= add.len(),
            list_view(r) == tags_added(cur, list_view(*add).take(i as int)),
        decreases add.len() - i,
    {
        proof {
            assert(list_view(*add).take(i + 1).drop_last() =~= list_view(*add).take(i as int));
            assert(list_view(*add).take(i + 1).last() == add@[i as int]@);
        }
        if !holds(&r, &add[i]) {
            let ghost prev = list_view(r);
            r.push(add[i].clone());
            assert(list_view(r) =~= prev.push(add@[i as int]@));
        }
        i = i + 1;
    }
    proof {
        assert(list_view(*add).take(add.len() as int) =~= list_view(*add));
    }
    r
}

/// The tags of a manifest after `ctl tag remove`: every removed tag gone,
/// the others in order.
pub fn remove_tags(current: &Vec<String>, remove: &Vec<String>) -> (r: Vec<String>)
    ensures
        list_view(r) == tags_removed(list_view(*current), list_view(*remove)),
{
    let mut r: Vec<String> = Vec::new();
    let mut i: usize = 0;
    while i < current.len()
        invariant
            i <= current.len(),
            list_view(r) == tags_removed(list_view(*current).take(i as int), list_view(*remove)),
        decreases current.len() - i,
    {
        proof {
            assert(list_view(*current).take(i + 1).drop_last() =~= list_view(*current).take(i as int));
            assert(list_view(*current).take(i + 1).last() == current@[i as int]@);
        }
        if !holds(remove, &current[i]) {
            let ghost prev = list_view(r);
            r.push(current[i].clone());
            assert(list_view(r) =~= prev.push(current@[i as int]@));
        }
        i = i + 1;
    }
    proof {
        assert(list_view(*current).take(current.len() as int) =~= list_view(*current));
    }
    r
}

/// After adding, the tags hold every old and every added tag, and no tag
/// twice when the old ones had none twice.
pub proof fn lemma_tags_added(current: Seq<Seq<char>>, add: Seq<Seq<char>>)
    ensures
        forall|t: Seq<char>| current.contains(t) || add.contains(t) <==> tags_added(current, add).contains(t),
        current.no_duplicates() ==> tags_added(current, add).no_duplicates(),
    decreases add.len(),
{
    if add.len() > 0 {
        lemma_tags_added(current, add.drop_last());
        let r = tags_added(current, add.drop_last());
        assert forall|t: Seq<char>| current.contains(t) || add.contains(t) <==> tags_added(current, add).contains(t) by {
            if add.contains(t) && !add.drop_last().contains(t) {
                let k = choose|k: int| 0 <= k < add.len() && add[k] == t;
                if k < add.len() - 1 {
                    assert(add.drop_last()[k] == t);
                }
            }
            if add.drop_last().contains(t) {
                let k = choose|k: int| 0 <= k < add.drop_last().len() && add.drop_last()[k] == t;
                assert(add[k] == t);
            }
            if !r.contains(add.last()) {
                if r.push(add.last()).contains(t) && t != add.last() {
                    let k = choose|k: int| 0 <= k < r.push(add.last()).len() && r.push(add.last())[k] == t;
                    assert(r[k] == t);
                }
                if r.contains(t) {
                    let k = choose|k: int| 0 <= k < r.len() && r[k] == t;
                    assert(r.push(add.last())[k] == t);
                }
                assert(r.push(add.last())[r.len() as int] == add.last());
            }
            assert(add[add.len() - 1] == add.last());
        }
        if current.no_duplicates() && !r.contains(add.last()) {
            let v = r.push(add.last());
            assert forall|i: int, j: int| 0 <= i < v.len() && 0 <= j < v.len() && i != j implies v[i] != v[j] by {
                if i == r.len() as int {
                    assert(r[j] == v[j]);
                } else if j == r.len() as int {
                    assert(r[i] == v[i]);
                }
            }
        }
    }
}

/// After removing, no removed tag is left and every other tag stays.
pub proof fn lemma_tags_removed(current: Seq<Seq<char>>, remove: Seq<Seq<char>>)
    ensures
        forall|t: Seq<char>| tags_removed(current, remove).contains(t) <==> current.contains(t) && !remove.contains(t),
    decreases current.len(),
{
    if current.len() > 0 {
        lemma_tags_removed(current.drop_last(), remove);
        let r = tags_removed(current.drop_last(), remove);
        let d = current.drop_last();
        assert forall|t: Seq<char>| tags_removed(current, remove).contains(t) <==> current.contains(t) && !remove.contains(t) by {
            if d.contains(t) {
                let k = choose|k: int| 0 <= k < d.len() && d[k] == t;
                assert(current[k] == t);
            }
            if current.contains(t) && t != current.last() {
                let k = choose|k: int| 0 <= k < current.len() && current[k] == t;
                assert(k < current.len() - 1);
                assert(d[k] == t);
            }
            if !remove.contains(current.last()) {
                let v = r.push(current.last());
                assert(v[r.len() as int] == current.last());
                if v.contains(t) && t != current.last() {
                    let k = choose|k: int| 0 <= k < v.len() && v[k] == t;
                    assert(r[k] == t);
                }
                if r.contains(t) {
                    let k = choose|k: int| 0 <= k < r.len() && r[k] == t;
                    assert(v[k] == t);
                }
            }
            assert(current[current.len() - 1] == current.last());
        }
    }
}

/// The display name a new mod gets from its folder: `_` read as a space.
pub open spec fn display_name_of(folder: Seq<char>) -> Seq<char> {
    folder.map_values(|c: char| if c == '_' { ' ' } else { c })
}

/// The display name a new mod gets from its folder (`_` read as a space).
pub fn display_name_for(folder: &str) -> (r: String)
    ensures
        r@ == display_name_of(folder@),
{
    let v = chars_of(folder);
    let mut r = String::new();
    let mut i: usize = 0;
    while i < v.len()
        invariant
            i <= v.len(),
            v@ == folder@,
            r@ == display_name_of(folder@.take(i as int)),
        decreases v.len() - i,
    {
        let c = if v[i] == '_' { ' ' } else { v[i] };
        r.push(c);
        proof {
            assert(display_name_of(folder@.take(i + 1)) =~= display_name_of(folder@.take(i as int)).push(c));
        }
        i = i + 1;
    }
    proof {
        assert(folder@.take(v.len() as int) =~= folder@);
    }
    r
}

/// A confirmation answer: `s` or `si`, any case, surrounding whitespace ignored.
pub open spec fn confirms(input: Seq<char>) -> bool {
    let a = lower(trim_seq(input));
    a == "s"@ || a == "si"@
}

/// Whether an answer to `[s/N]` confirms.
pub fn is_confirmation(input: &str) -> (r: bool)
    ensures
        r == confirms(input@),
{
    let a = to_lowercase(trim(input));
    str_is(a.as_str(), "s") || str_is(a.as_str(), "si")
}

} // verus!
