use vstd::prelude::*;
use crate::db::{is_unique_slug, unique_group_slug, Group, Profile};
use crate::text::{trim, trim_seq};
use crate::meta::{ModMeta, ModDeps, mod_id_ok, str_is, valid_mod_id};
use crate::text::{int_decimal, parse_i64, parse_i64_spec, push_int_decimal};

verus! {

/// A row of the mods table: its key, its folder and its cached stable id.
#[derive(Debug, Clone)]
pub struct ModRow {
    pub id: i64,
    pub folder_name: String,
    pub mod_id: Option<String>,
}

/// The id of the first row whose folder is `folder`.
pub open spec fn first_with_folder(rows: Seq<ModRow>, folder: Seq<char>) -> Option<i64>
    decreases rows.len(),
{
    if rows.len() == 0 {
        None
    } else if rows[0].folder_name@ == folder {
        Some(rows[0].id)
    } else {
        first_with_folder(rows.drop_first(), folder)
    }
}

/// The id of the first row whose stable id is `mod_id`.
pub open spec fn first_with_mod_id(rows: Seq<ModRow>, mod_id: Seq<char>) -> Option<i64>
    decreases rows.len(),
{
    if rows.len() == 0 {
        None
    } else if rows[0].mod_id matches Some(x) && x@ == mod_id {
        Some(rows[0].id)
    } else {
        first_with_mod_id(rows.drop_first(), mod_id)
    }
}

/// Some row has key `id`.
pub open spec fn has_id(rows: Seq<ModRow>, id: i64) -> bool {
    exists|k: int| 0 <= k < rows.len() && (#[trigger] rows[k]).id == id
}

/// `Mod con id=<id> no encontrado.`
pub open spec fn id_not_found(id: i64) -> Seq<char> {
    "Mod con id="@ + int_decimal(id as int) + " no encontrado."@
}

/// `Mod '<ident>' no encontrado.`
pub open spec fn ident_not_found(ident: Seq<char>) -> Seq<char> {
    "Mod '"@ + ident + "' no encontrado."@
}

/// A mod named by the user: a number is taken as a key when such a row
/// exists, else (numbers included) as a folder name.
pub open spec fn resolve_ident_spec(ident: Seq<char>, rows: Seq<ModRow>) -> Result<i64, Seq<char>> {
    match parse_i64_spec(ident) {
        Some(id) => if has_id(rows, id) {
            Ok(id)
        } else {
            match first_with_folder(rows, ident) {
                Some(x) => Ok(x),
                None => Err(id_not_found(id)),
            }
        },
        None => match first_with_folder(rows, ident) {
            Some(x) => Ok(x),
            None => Err(ident_not_found(ident)),
        },
    }
}

fn find_folder(rows: &Vec<ModRow>, folder: &str) -> (r: Option<i64>)
    ensures
        r == first_with_folder(rows@, folder@),
{
    let mut i: usize = 0;
    proof {
        assert(rows@.skip(0) =~= rows@);
    }
    while i < rows.len()
        invariant
            i <= rows.len(),
            first_with_folder(rows@, folder@) == first_with_folder(rows@.skip(i as int), folder@),
        decreases rows.len() - i,
    {
        proof {
            assert(rows@.skip(i as int)[0] == rows@[i as int]);
            assert(rows@.skip(i as int).drop_first() =~= rows@.skip(i + 1));
        }
        if str_is(rows[i].folder_name.as_str(), folder) {
            return Some(rows[i].id);
        }
        i = i + 1;
    }
    None
}

fn find_mod_id(rows: &Vec<ModRow>, mod_id: &str) -> (r: Option<i64>)
    ensures
        r == first_with_mod_id(rows@, mod_id@),
{
    let mut i: usize = 0;
    proof {
        assert(rows@.skip(0) =~= rows@);
    }
    while i < rows.len()
        invariant
            i <= rows.len(),
            first_with_mod_id(rows@, mod_id@) == first_with_mod_id(rows@.skip(i as int), mod_id@),
        decreases rows.len() - i,
    {
        proof {
            assert(rows@.skip(i as int)[0] == rows@[i as int]);
            assert(rows@.skip(i as int).drop_first() =~= rows@.skip(i + 1));
        }
        match &rows[i].mod_id {
            Some(x) => {
                if str_is(x.as_str(), mod_id) {
                    return Some(rows[i].id);
                }
            },
            None => {},
        }
        i = i + 1;
    }
    None
}

fn contains_id(rows: &Vec<ModRow>, id: i64) -> (r: bool)
    ensures
        r == has_id(rows@, id),
{
    let mut i: usize = 0;
    while i < rows.len()
        invariant
            i <= rows.len(),
            forall|k: int| 0 <= k < i ==> (#[trigger] rows@[k]).id != id,
        decreases rows.len() - i,
    {
        if rows[i].id == id {
            assert(rows@[i as int].id == id);
            return true;
        }
        i = i + 1;
    }
    false
}

/// Resolves a mod given by key (a number) or folder name to its key.
pub fn resolve_mod_ident(ident: &str, rows: &Vec<ModRow>) -> (r: Result<i64, String>)
    ensures
        (match r { Ok(id) => Ok(id), Err(e) => Err(e@) }) == resolve_ident_spec(ident@, rows@),
{
    match parse_i64(ident) {
        Some(id) => {
            if contains_id(rows, id) {
                return Ok(id);
            }
            match find_folder(rows, ident) {
                Some(x) => Ok(x),
                None => {
                    let mut m = String::from_str("Mod con id=");
                    push_int_decimal(&mut m, id);
                    m.append(" no encontrado.");
                    Err(m)
                },
            }
        },
        None => match find_folder(rows, ident) {
            Some(x) => Ok(x),
            None => {
                let mut m = String::from_str("Mod '");
                m.append(ident);
                m.append("' no encontrado.");
                Err(m)
            },
        },
    }
}

/// A dependency reference of a manifest: by stable id when it has that
/// form, else by folder name.
pub open spec fn dep_ref_spec(reference: Seq<char>, rows: Seq<ModRow>) -> Option<i64> {
    if mod_id_ok(reference) {
        first_with_mod_id(rows, reference)
    } else {
        first_with_folder(rows, reference)
    }
}

/// Resolves a dependency reference of a manifest to a key, when it names a
/// known mod.
pub fn resolve_dep_ref(reference: &str, rows: &Vec<ModRow>) -> (r: Option<i64>)
    ensures
        r == dep_ref_spec(reference@, rows@),
{
    if valid_mod_id(reference) {
        find_mod_id(rows, reference)
    } else {
        find_folder(rows, reference)
    }
}

/// The keys that references resolve to, in order, leaving out the ones that
/// do not resolve and those that name the mod itself.
pub open spec fn resolved_deps(mod_id: i64, refs: Seq<String>, rows: Seq<ModRow>) -> Seq<i64>
    decreases refs.len(),
{
    if refs.len() == 0 {
        Seq::empty()
    } else {
        let rest = resolved_deps(mod_id, refs.drop_last(), rows);
        match dep_ref_spec(refs.last()@, rows) {
            Some(d) => if d != mod_id { rest.push(d) } else { rest },
            None => rest,
        }
    }
}

/// The warning a reference gives: it names the mod itself, or nothing known.
pub open spec fn dep_warning(mod_id: i64, reference: Seq<char>, rows: Seq<ModRow>) -> Option<Seq<char>> {
    match dep_ref_spec(reference, rows) {
        Some(d) => if d == mod_id {
            Some("    [!] Dependencia cíclica ignorada: un mod no puede depender de sí mismo ('"@ + reference + "')"@)
        } else {
            None
        },
        None => Some("    [!] Dependencia no resuelta: '"@ + reference + "' (mod no instalado o referencia inválida)"@),
    }
}

/// The warnings of some references, in order.
pub open spec fn dep_warnings(mod_id: i64, refs: Seq<String>, rows: Seq<ModRow>) -> Seq<Seq<char>>
    decreases refs.len(),
{
    if refs.len() == 0 {
        Seq::empty()
    } else {
        let rest = dep_warnings(mod_id, refs.drop_last(), rows);
        match dep_warning(mod_id, refs.last()@, rows) {
            Some(w) => rest.push(w),
            None => rest,
        }
    }
}

/// The dependency rows of a manifest mod: what replaces its rows in the
/// dependencies table, with a warning for each reference left out.
pub struct DepSync {
    pub required: Vec<i64>,
    pub optional: Vec<i64>,
    pub warnings: Vec<String>,
}

/// `s` holds the rows the manifest's `[dependencies]` section gives: the
/// required and the optional references resolved, and their warnings.
pub open spec fn synced(s: DepSync, mod_id: i64, meta: Option<ModMeta>, rows: Seq<ModRow>) -> bool {
    match meta {
        Some(m) => match m.dependencies {
            Some(d) => {
                &&& s.required@ == resolved_deps(mod_id, d.required@, rows)
                &&& s.optional@ == resolved_deps(mod_id, d.optional@, rows)
                &&& string_views(s.warnings@) == dep_warnings(mod_id, d.required@, rows) + dep_warnings(mod_id, d.optional@, rows)
            },
            None => false,
        },
        None => false,
    }
}

/// Whether a manifest has a `[dependencies]` section.
pub open spec fn has_dep_section(meta: Option<ModMeta>) -> bool {
    meta matches Some(m) && m.dependencies is Some
}

pub open spec fn string_views(s: Seq<String>) -> Seq<Seq<char>> {
    s.map_values(|x: String| x@)
}

fn resolve_refs(mod_id: i64, refs: &Vec<String>, rows: &Vec<ModRow>, warnings: &mut Vec<String>) -> (ids: Vec<i64>)
    ensures
        ids@ == resolved_deps(mod_id, refs@, rows@),
        string_views(final(warnings)@) == string_views(old(warnings)@) + dep_warnings(mod_id, refs@, rows@),
{
    let mut ids: Vec<i64> = Vec::new();
    let mut i: usize = 0;
    proof {
        assert(refs@.take(0) =~= Seq::<String>::empty());
        assert(string_views(warnings@) =~= string_views(old(warnings)@) + Seq::<Seq<char>>::empty());
    }
    while i < refs.len()
        invariant
            i <= refs.len(),
            ids@ == resolved_deps(mod_id, refs@.take(i as int), rows@),
            string_views(warnings@) == string_views(old(warnings)@) + dep_warnings(mod_id, refs@.take(i as int), rows@),
        decreases refs.len() - i,
    {
        proof {
            assert(refs@.take(i + 1).drop_last() =~= refs@.take(i as int));
            assert(refs@.take(i + 1).last() == refs@[i as int]);
        }
        let r = &refs[i];
        let ghost pre = warnings@;
        match resolve_dep_ref(r.as_str(), rows) {
            Some(d) => {
                if d != mod_id {
                    ids.push(d);
                } else {
                    let mut w = String::from_str("    [!] Dependencia cíclica ignorada: un mod no puede depender de sí mismo ('");
                    w.append(r.as_str());
                    w.append("')");
                    warnings.push(w);
                    assert(string_views(warnings@) =~= string_views(pre).push(w@));
                }
            },
            None => {
                let mut w = String::from_str("    [!] Dependencia no resuelta: '");
                w.append(r.as_str());
                w.append("' (mod no instalado o referencia inválida)");
                warnings.push(w);
                assert(string_views(warnings@) =~= string_views(pre).push(w@));
            },
        }
        proof {
            assert(string_views(warnings@) =~= string_views(old(warnings)@) + dep_warnings(mod_id, refs@.take(i + 1), rows@));
        }
        i = i + 1;
    }
    proof {
        assert(refs@.take(refs.len() as int) =~= refs@);
    }
    ids
}

/// The dependency rows a manifest declares for mod `mod_id`: `None` when it
/// has no manifest or no `[dependencies]` section (its rows stay as they
/// are); otherwise the required and the optional references resolved, in
/// order, with a warning for each one that names the mod itself or nothing
/// known (required ones first).
pub fn sync_mod_dependencies(mod_id: i64, meta: &Option<ModMeta>, rows: &Vec<ModRow>) -> (r: Option<DepSync>)
    ensures
        r is Some <==> has_dep_section(*meta),
        r matches Some(s) ==> synced(s, mod_id, *meta, rows@),
{
    match meta {
        None => None,
        Some(m) => match &m.dependencies {
            None => None,
            Some(d) => {
                let mut warnings: Vec<String> = Vec::new();
                let required = resolve_refs(mod_id, &d.required, rows, &mut warnings);
                let optional = resolve_refs(mod_id, &d.optional, rows, &mut warnings);
                proof {
                    assert(string_views(Seq::<String>::empty()) =~= Seq::<Seq<char>>::empty());
                    assert(Seq::<Seq<char>>::empty() + dep_warnings(mod_id, d.required@, rows@) =~= dep_warnings(mod_id, d.required@, rows@));
                }
                Some(DepSync { required, optional, warnings })
            },
        },
    }
}

/// The row has stable id `id`.
pub open spec fn row_uses(row: ModRow, id: Seq<char>) -> bool {
    row.mod_id matches Some(x) && x@ == id
}

/// Some other row (key other than `mod_id`) already uses stable id `id`.
pub open spec fn id_taken(rows: Seq<ModRow>, mod_id: i64, id: Seq<char>) -> bool {
    exists|k: int| 0 <= k < rows.len() && (#[trigger] rows[k]).id != mod_id && row_uses(rows[k], id)
}

/// Why a manifest's stable id is set aside: a bad format, or another mod
/// using it already.
pub open spec fn id_problem(folder: Seq<char>, meta: Option<ModMeta>, mod_id: i64, rows: Seq<ModRow>) -> Option<Seq<char>> {
    match meta {
        Some(m) => match m.id {
            Some(id) => if !mod_id_ok(id@) {
                Some("    [!] "@ + folder + ": id '"@ + id@ + "' inválido (formato autor:slug); se ignora"@)
            } else if id_taken(rows, mod_id, id@) {
                Some("    [!] "@ + folder + ": id '"@ + id@ + "' ya lo usa otro mod; se ignora"@)
            } else {
                None
            },
            None => None,
        },
        None => None,
    }
}

fn taken_by_other(rows: &Vec<ModRow>, mod_id: i64, id: &str) -> (r: bool)
    ensures
        r == id_taken(rows@, mod_id, id@),
{
    let mut i: usize = 0;
    while i < rows.len()
        invariant
            i <= rows.len(),
            forall|k: int| 0 <= k < i ==> !((#[trigger] rows@[k]).id != mod_id && row_uses(rows@[k], id@)),
        decreases rows.len() - i,
    {
        if rows[i].id != mod_id {
            match &rows[i].mod_id {
                Some(x) => {
                    if str_is(x.as_str(), id) {
                        assert(rows@[i as int].id != mod_id && row_uses(rows@[i as int], id@));
                        return true;
                    }
                },
                None => {},
            }
        }
        i = i + 1;
    }
    false
}

/// Checks the stable id of a manifest (format, and no other mod using it):
/// when it fails, the manifest is given back with its id cleared, together
/// with the warning; otherwise unchanged.
pub fn validate_meta_id(mod_id: i64, folder: &str, meta: Option<ModMeta>, rows: &Vec<ModRow>) -> (r: (Option<ModMeta>, Option<String>))
    ensures
        (match r.1 { Some(w) => Some(w@), None => None }) == id_problem(folder@, meta, mod_id, rows@),
        r.1 is Some ==> (meta matches Some(m) && r.0 == Some((ModMeta { id: None, ..m }))),
        r.1 is None ==> r.0 == meta,
{
    match meta {
        None => (None, None),
        Some(mut m) => {
            let problem = match &m.id {
                None => None,
                Some(id) => {
                    if !valid_mod_id(id.as_str()) {
                        let mut w = String::from_str("    [!] ");
                        w.append(folder);
                        w.append(": id '");
                        w.append(id.as_str());
                        w.append("' inválido (formato autor:slug); se ignora");
                        Some(w)
                    } else if taken_by_other(rows, mod_id, id.as_str()) {
                        let mut w = String::from_str("    [!] ");
                        w.append(folder);
                        w.append(": id '");
                        w.append(id.as_str());
                        w.append("' ya lo usa otro mod; se ignora");
                        Some(w)
                    } else {
                        None
                    }
                },
            };
            if problem.is_some() {
                m.id = None;
            }
            (Some(m), problem)
        },
    }
}

/// The index of the first item satisfying a test, given the test's results.
pub open spec fn first_true(s: Seq<bool>) -> Option<int>
    decreases s.len(),
{
    if s.len() == 0 {
        None
    } else if s[0] {
        Some(0)
    } else {
        match first_true(s.drop_first()) {
            Some(k) => Some(k + 1),
            None => None,
        }
    }
}

/// Where a name given by the user points among items with a key, a slug and
/// a name: a number is tried as a key first, then the text as a slug, then
/// as a name; the first match of each wins.
pub open spec fn lookup_spec(ids: Seq<i64>, slugs: Seq<Seq<char>>, names: Seq<Seq<char>>, ident: Seq<char>) -> Option<int> {
    let by_id = match parse_i64_spec(ident) {
        Some(id) => first_true(id_flags(ids, id)),
        None => None,
    };
    if by_id is Some {
        by_id
    } else if first_true(text_flags(slugs, ident)) is Some {
        first_true(text_flags(slugs, ident))
    } else {
        first_true(text_flags(names, ident))
    }
}

/// Which keys are `id`.
pub open spec fn id_flags(ids: Seq<i64>, id: i64) -> Seq<bool> {
    ids.map_values(|x: i64| x == id)
}

/// Which texts are `t`.
pub open spec fn text_flags(s: Seq<Seq<char>>, t: Seq<char>) -> Seq<bool> {
    s.map_values(|x: Seq<char>| x == t)
}

pub open spec fn profile_ids(ps: Seq<Profile>) -> Seq<i64> { ps.map_values(|p: Profile| p.id) }
pub open spec fn profile_slugs(ps: Seq<Profile>) -> Seq<Seq<char>> { ps.map_values(|p: Profile| p.slug@) }
pub open spec fn profile_names(ps: Seq<Profile>) -> Seq<Seq<char>> { ps.map_values(|p: Profile| p.name@) }
pub open spec fn group_ids(gs: Seq<Group>) -> Seq<i64> { gs.map_values(|g: Group| g.id) }
pub open spec fn group_slugs(gs: Seq<Group>) -> Seq<Seq<char>> { gs.map_values(|g: Group| g.slug@) }
pub open spec fn group_names(gs: Seq<Group>) -> Seq<Seq<char>> { gs.map_values(|g: Group| g.name@) }

proof fn lemma_first_true(s: Seq<bool>, k: int)
    requires
        0 <= k <= s.len(),
        forall|j: int| 0 <= j < k ==> !s[j],
    ensures
        k < s.len() && s[k] ==> first_true(s) == Some(k),
        k == s.len() ==> first_true(s) is None,
    decreases k,
{
    if k > 0 {
        lemma_first_true(s.drop_first(), k - 1);
    } else if s.len() > 0 {
    }
}

fn first_index(tests: &Vec<bool>) -> (r: Option<usize>)
    ensures
        match r {
            Some(k) => first_true(tests@) == Some(k as int) && k < tests.len(),
            None => first_true(tests@) is None,
        },
{
    let mut i: usize = 0;
    while i < tests.len()
        invariant
            i <= tests.len(),
            forall|j: int| 0 <= j < i ==> !tests@[j],
        decreases tests.len() - i,
    {
        if tests[i] {
            proof {
                lemma_first_true(tests@, i as int);
            }
            return Some(i);
        }
        i = i + 1;
    }
    proof {
        lemma_first_true(tests@, i as int);
    }
    None
}

fn locate(ids: &Vec<i64>, slugs: &Vec<String>, names: &Vec<String>, ident: &str) -> (r: Option<usize>)
    requires
        ids.len() == slugs.len(),
        ids.len() == names.len(),
    ensures
        match r {
            Some(k) => k < ids.len() && lookup_spec(ids@, string_views(slugs@), string_views(names@), ident@) == Some(k as int),
            None => lookup_spec(ids@, string_views(slugs@), string_views(names@), ident@) is None,
        },
{
    let ghost sv = string_views(slugs@);
    let ghost nv = string_views(names@);
    let ghost by_id = match parse_i64_spec(ident@) {
        Some(id) => first_true(id_flags(ids@, id)),
        None => None,
    };
    match parse_i64(ident) {
        Some(id) => {
            let mut t: Vec<bool> = Vec::new();
            let mut i: usize = 0;
            while i < ids.len()
                invariant
                    i <= ids.len(),
                    t@ == id_flags(ids@.take(i as int), id),
                decreases ids.len() - i,
            {
                t.push(ids[i] == id);
                proof {
                    assert(id_flags(ids@.take(i + 1), id) =~= id_flags(ids@.take(i as int), id).push(ids@[i as int] == id));
                }
                i = i + 1;
            }
            proof {
                assert(ids@.take(ids.len() as int) =~= ids@);
            }
            match first_index(&t) {
                Some(k) => {
                    return Some(k);
                },
                None => {},
            }
        },
        None => {},
    }
    assert(by_id is None);
    let mut t: Vec<bool> = Vec::new();
    let mut i: usize = 0;
    while i < slugs.len()
        invariant
            i <= slugs.len(),
            t@ == text_flags(sv.take(i as int), ident@),
            sv == string_views(slugs@),
        decreases slugs.len() - i,
    {
        t.push(str_is(slugs[i].as_str(), ident));
        proof {
            assert(text_flags(sv.take(i + 1), ident@) =~= text_flags(sv.take(i as int), ident@).push(slugs@[i as int]@ == ident@));
        }
        i = i + 1;
    }
    proof {
        assert(sv.take(slugs.len() as int) =~= sv);
    }
    match first_index(&t) {
        Some(k) => {
            return Some(k);
        },
        None => {},
    }
    let mut t: Vec<bool> = Vec::new();
    let mut i: usize = 0;
    while i < names.len()
        invariant
            i <= names.len(),
            t@ == text_flags(nv.take(i as int), ident@),
            nv == string_views(names@),
        decreases names.len() - i,
    {
        t.push(str_is(names[i].as_str(), ident));
        proof {
            assert(text_flags(nv.take(i + 1), ident@) =~= text_flags(nv.take(i as int), ident@).push(names@[i as int]@ == ident@));
        }
        i = i + 1;
    }
    proof {
        assert(nv.take(names.len() as int) =~= nv);
    }
    first_index(&t)
}

/// `Perfil '<ident>' no encontrado.`
pub open spec fn profile_not_found(ident: Seq<char>) -> Seq<char> {
    "Perfil '"@ + ident + "' no encontrado."@
}

/// `Grupo '<ident>' no encontrado.`
pub open spec fn group_not_found(ident: Seq<char>) -> Seq<char> {
    "Grupo '"@ + ident + "' no encontrado."@
}

/// Finds a profile given by key, slug or name (tried in that order).
pub fn resolve_profile<'a>(profiles: &'a Vec<Profile>, ident: &str) -> (r: Result<&'a Profile, String>)
    ensures
        match lookup_spec(profile_ids(profiles@), profile_slugs(profiles@), profile_names(profiles@), ident@) {
            Some(k) => r matches Ok(p) && *p == profiles@[k],
            None => r matches Err(e) && e@ == profile_not_found(ident@),
        },
{
    let mut ids: Vec<i64> = Vec::new();
    let mut slugs: Vec<String> = Vec::new();
    let mut names: Vec<String> = Vec::new();
    let mut i: usize = 0;
    while i < profiles.len()
        invariant
            i <= profiles.len(),
            ids@ == profile_ids(profiles@.take(i as int)),
            string_views(slugs@) == profile_slugs(profiles@.take(i as int)),
            string_views(names@) == profile_names(profiles@.take(i as int)),
        decreases profiles.len() - i,
    {
        let ghost ps = string_views(slugs@);
        let ghost pn = string_views(names@);
        ids.push(profiles[i].id);
        slugs.push(profiles[i].slug.clone());
        names.push(profiles[i].name.clone());
        proof {
            assert(ids@ =~= profile_ids(profiles@.take(i + 1)));
            assert(string_views(slugs@) =~= ps.push(profiles@[i as int].slug@));
            assert(string_views(names@) =~= pn.push(profiles@[i as int].name@));
            assert(profile_slugs(profiles@.take(i + 1)) =~= profile_slugs(profiles@.take(i as int)).push(profiles@[i as int].slug@));
            assert(profile_names(profiles@.take(i + 1)) =~= profile_names(profiles@.take(i as int)).push(profiles@[i as int].name@));
        }
        i = i + 1;
    }
    proof {
        assert(profiles@.take(profiles.len() as int) =~= profiles@);
    }
    match locate(&ids, &slugs, &names, ident) {
        Some(k) => Ok(&profiles[k]),
        None => {
            let mut e = String::from_str("Perfil '");
            e.append(ident);
            e.append("' no encontrado.");
            Err(e)
        },
    }
}

/// Finds a group given by key, slug or name (tried in that order).
pub fn resolve_group<'a>(groups: &'a Vec<Group>, ident: &str) -> (r: Result<&'a Group, String>)
    ensures
        match lookup_spec(group_ids(groups@), group_slugs(groups@), group_names(groups@), ident@) {
            Some(k) => r matches Ok(g) && *g == groups@[k],
            None => r matches Err(e) && e@ == group_not_found(ident@),
        },
{
    let mut ids: Vec<i64> = Vec::new();
    let mut slugs: Vec<String> = Vec::new();
    let mut names: Vec<String> = Vec::new();
    let mut i: usize = 0;
    while i < groups.len()
        invariant
            i <= groups.len(),
            ids@ == group_ids(groups@.take(i as int)),
            string_views(slugs@) == group_slugs(groups@.take(i as int)),
            string_views(names@) == group_names(groups@.take(i as int)),
        decreases groups.len() - i,
    {
        let ghost ps = string_views(slugs@);
        let ghost pn = string_views(names@);
        ids.push(groups[i].id);
        slugs.push(groups[i].slug.clone());
        names.push(groups[i].name.clone());
        proof {
            assert(ids@ =~= group_ids(groups@.take(i + 1)));
            assert(string_views(slugs@) =~= ps.push(groups@[i as int].slug@));
            assert(string_views(names@) =~= pn.push(groups@[i as int].name@));
            assert(group_slugs(groups@.take(i + 1)) =~= group_slugs(groups@.take(i as int)).push(groups@[i as int].slug@));
            assert(group_names(groups@.take(i + 1)) =~= group_names(groups@.take(i as int)).push(groups@[i as int].name@));
        }
        i = i + 1;
    }
    proof {
        assert(groups@.take(groups.len() as int) =~= groups@);
    }
    match locate(&ids, &slugs, &names, ident) {
        Some(k) => Ok(&groups[k]),
        None => {
            let mut e = String::from_str("Grupo '");
            e.append(ident);
            e.append("' no encontrado.");
            Err(e)
        },
    }
}

/// `El nombre del grupo no puede estar vacío.`
pub open spec fn empty_group_name_msg() -> Seq<char> {
    "El nombre del grupo no puede estar vac\u{ed}o."@
}

/// The name and slug of a new group: the name without surrounding
/// whitespace and a slug of it unique among the `taken` group slugs; an
/// empty name is refused.
pub fn new_group(name: &str, taken: &Vec<String>) -> (r: Result<(String, String), String>)
    ensures
        match r {
            Ok((n, slug)) => trim_seq(name@).len() > 0 && n@ == trim_seq(name@)
                && is_unique_slug(slug@, name@, seq!['g'], taken@),
            Err(m) => trim_seq(name@).len() == 0 && m@ == empty_group_name_msg(),
        },
{
    let t = trim(name);
    if t.unicode_len() == 0 {
        return Err("El nombre del grupo no puede estar vac\u{ed}o.".to_owned());
    }
    Ok((t.to_owned(), unique_group_slug(name, taken)))
}

/// A group's new name (its slug does not change): the name trimmed, or an
/// error when nothing is left.
pub fn group_new_name(name: &str) -> (r: Result<String, String>)
    ensures
        match r {
            Ok(n) => trim_seq(name@).len() > 0 && n@ == trim_seq(name@),
            Err(m) => trim_seq(name@).len() == 0 && m@ == empty_group_name_msg(),
        },
{
    let t = trim(name);
    if t.unicode_len() == 0 {
        Err("El nombre del grupo no puede estar vac\u{ed}o.".to_owned())
    } else {
        Ok(t.to_owned())
    }
}

} // verus!
