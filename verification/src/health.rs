use std::collections::HashMap;
use vstd::prelude::*;
use crate::constraints::{Violation, views};
use crate::db::DepRef;
use crate::meta::{mount_entry_ok, valid_mount_entry};
use crate::text::{int_decimal, nat_decimal, push_int_decimal, push_nat_decimal};

verus! {

broadcast use vstd::std_specs::hash::group_hash_axioms;

/// A `mount` entry of a manifest and whether that folder exists in the mod.
#[derive(Debug, Clone)]
pub struct MountCheck {
    pub entry: String,
    pub exists: bool,
}

/// What reading a mod's manifest gave.
#[derive(Debug, Clone)]
pub enum Manifest {
    /// No `mod.toml`.
    Missing,
    /// A `mod.toml` that could not be read, with the error.
    Invalid(String),
    /// A manifest, with its `mount` list checked on disk.
    Present(Option<Vec<MountCheck>>),
}

/// A registered mod as found on disk.
#[derive(Debug, Clone)]
pub struct HealthMod {
    pub id: i64,
    pub folder_name: String,
    pub dir_exists: bool,
    pub manifest: Manifest,
}

/// The problems found: errors, then warnings.
pub struct HealthReport {
    pub errors: Vec<String>,
    pub warnings: Vec<String>,
}

/// `<folder>: carpeta no existe en disco` for each mod whose folder is gone.
pub open spec fn missing_folders(mods: Seq<HealthMod>) -> Seq<Seq<char>>
    decreases mods.len(),
{
    if mods.len() == 0 {
        Seq::empty()
    } else {
        let rest = missing_folders(mods.drop_last());
        if !mods.last().dir_exists {
            rest.push(mods.last().folder_name@ + ": carpeta no existe en disco"@)
        } else {
            rest
        }
    }
}

/// The warning of one `mount` entry: not a safe relative path, or missing.
pub open spec fn mount_warning(folder: Seq<char>, m: MountCheck) -> Option<Seq<char>> {
    if !mount_entry_ok(m.entry@) {
        Some(folder + ": mount inválido '"@ + m.entry@ + "'"@)
    } else if !m.exists {
        Some(folder + ": mount '"@ + m.entry@ + "' no existe"@)
    } else {
        None
    }
}

/// The warnings of a `mount` list, in order.
pub open spec fn mount_warnings(folder: Seq<char>, ms: Seq<MountCheck>) -> Seq<Seq<char>>
    decreases ms.len(),
{
    if ms.len() == 0 {
        Seq::empty()
    } else {
        let rest = mount_warnings(folder, ms.drop_last());
        match mount_warning(folder, ms.last()) {
            Some(w) => rest.push(w),
            None => rest,
        }
    }
}

/// The warnings of one mod's manifest (none when its folder is gone).
pub open spec fn manifest_warnings(m: HealthMod) -> Seq<Seq<char>> {
    if !m.dir_exists {
        Seq::empty()
    } else {
        match m.manifest {
            Manifest::Missing => Seq::empty(),
            Manifest::Invalid(e) => seq![m.folder_name@ + ": "@ + e@],
            Manifest::Present(None) => Seq::empty(),
            Manifest::Present(Some(ms)) => mount_warnings(m.folder_name@, ms@),
        }
    }
}

/// The manifest warnings of all mods, in order.
pub open spec fn all_manifest_warnings(mods: Seq<HealthMod>) -> Seq<Seq<char>>
    decreases mods.len(),
{
    if mods.len() == 0 {
        Seq::empty()
    } else {
        all_manifest_warnings(mods.drop_last()) + manifest_warnings(mods.last())
    }
}

/// The folder of the mod with key `id` (the last one listed with it).
pub open spec fn folder_with_id(mods: Seq<HealthMod>, id: i64) -> Option<Seq<char>>
    decreases mods.len(),
{
    if mods.len() == 0 {
        None
    } else if mods.last().id == id {
        Some(mods.last().folder_name@)
    } else {
        folder_with_id(mods.drop_last(), id)
    }
}

/// The name a dependency problem is reported under: the mod's folder, or
/// nothing when the key is unknown.
pub open spec fn name_of(mods: Seq<HealthMod>, id: i64) -> Seq<char> {
    match folder_with_id(mods, id) {
        Some(f) => f,
        None => Seq::empty(),
    }
}

/// An error for a dependency on a mod that is not installed.
pub open spec fn dep_error(mods: Seq<HealthMod>, mid: i64, r: DepRef) -> Option<Seq<char>> {
    match folder_with_id(mods, r.id) {
        Some(_) => None,
        None => Some(name_of(mods, mid) + ": dependencia no resuelta (id="@ + int_decimal(r.id as int) + " no instalado)"@),
    }
}

/// A warning for a required dependency that is installed but not enabled.
pub open spec fn dep_warning(mods: Seq<HealthMod>, enabled: Seq<i64>, mid: i64, r: DepRef) -> Option<Seq<char>> {
    match folder_with_id(mods, r.id) {
        Some(df) => if r.required && !enabled.contains(r.id) {
            Some(name_of(mods, mid) + ": dependencia requerida desactivada '"@ + df + "'"@)
        } else {
            None
        },
        None => None,
    }
}

/// The dependency errors (`errors == true`) or warnings of one mod's references.
pub open spec fn ref_problems(mods: Seq<HealthMod>, enabled: Seq<i64>, mid: i64, refs: Seq<DepRef>, errors: bool) -> Seq<Seq<char>>
    decreases refs.len(),
{
    if refs.len() == 0 {
        Seq::empty()
    } else {
        let rest = ref_problems(mods, enabled, mid, refs.drop_last(), errors);
        let p = if errors { dep_error(mods, mid, refs.last()) } else { dep_warning(mods, enabled, mid, refs.last()) };
        match p {
            Some(x) => rest.push(x),
            None => rest,
        }
    }
}

/// The dependency errors or warnings of the enabled mods, in their order.
pub open spec fn dep_problems(mods: Seq<HealthMod>, enabled: Seq<i64>, deps: Map<i64, Vec<DepRef>>, ids: Seq<i64>, errors: bool) -> Seq<Seq<char>>
    decreases ids.len(),
{
    if ids.len() == 0 {
        Seq::empty()
    } else {
        let rest = dep_problems(mods, enabled, deps, ids.drop_last(), errors);
        if deps.contains_key(ids.last()) {
            rest + ref_problems(mods, enabled, ids.last(), deps[ids.last()]@, errors)
        } else {
            rest
        }
    }
}

/// The messages of some violations.
pub open spec fn violation_messages(vs: Seq<Violation>) -> Seq<Seq<char>> {
    vs.map_values(|v: Violation| v.message@)
}

fn find_folder(mods: &Vec<HealthMod>, id: i64) -> (r: Option<String>)
    ensures
        (match r { Some(f) => Some(f@), None => None }) == folder_with_id(mods@, id),
{
    let mut k: usize = mods.len();
    proof {
        assert(mods@.take(mods.len() as int) =~= mods@);
    }
    while k > 0
        invariant
            k <= mods.len(),
            folder_with_id(mods@, id) == folder_with_id(mods@.take(k as int), id),
        decreases k,
    {
        proof {
            assert(mods@.take(k as int).drop_last() =~= mods@.take(k - 1));
            assert(mods@.take(k as int).last() == mods@[k - 1]);
        }
        if mods[k - 1].id == id {
            return Some(mods[k - 1].folder_name.clone());
        }
        k = k - 1;
    }
    None
}

fn contains_id(v: &Vec<i64>, id: i64) -> (r: bool)
    ensures
        r == v@.contains(id),
{
    let mut i: usize = 0;
    while i < v.len()
        invariant
            i <= v.len(),
            forall|k: int| 0 <= k < i ==> v@[k] != id,
        decreases v.len() - i,
    {
        if v[i] == id {
            assert(v@[i as int] == id);
            return true;
        }
        i = i + 1;
    }
    false
}

fn push_mount_warnings(folder: &String, ms: &Vec<MountCheck>, out: &mut Vec<String>)
    ensures
        views(final(out)@) == views(old(out)@) + mount_warnings(folder@, ms@),
{
    let mut i: usize = 0;
    proof {
        assert(views(out@) =~= views(old(out)@) + mount_warnings(folder@, ms@.take(0)));
    }
    while i < ms.len()
        invariant
            i <= ms.len(),
            views(out@) == views(old(out)@) + mount_warnings(folder@, ms@.take(i as int)),
        decreases ms.len() - i,
    {
        proof {
            assert(ms@.take(i + 1).drop_last() =~= ms@.take(i as int));
            assert(ms@.take(i + 1).last() == ms@[i as int]);
        }
        let ghost pre = out@;
        let e = &ms[i].entry;
        if !valid_mount_entry(e.as_str()) {
            let mut w = folder.clone();
            w.append(": mount inválido '");
            w.append(e.as_str());
            w.append("'");
            out.push(w);
            assert(views(out@) =~= views(pre).push(w@));
        } else if !ms[i].exists {
            let mut w = folder.clone();
            w.append(": mount '");
            w.append(e.as_str());
            w.append("' no existe");
            out.push(w);
            assert(views(out@) =~= views(pre).push(w@));
        }
        proof {
            assert(views(out@) =~= views(old(out)@) + mount_warnings(folder@, ms@.take(i + 1)));
        }
        i = i + 1;
    }
    proof {
        assert(ms@.take(ms.len() as int) =~= ms@);
    }
}

fn push_ref_problems(mods: &Vec<HealthMod>, enabled: &Vec<i64>, mid: i64, refs: &Vec<DepRef>, errors: &mut Vec<String>, warnings: &mut Vec<String>)
    ensures
        views(final(errors)@) == views(old(errors)@) + ref_problems(mods@, enabled@, mid, refs@, true),
        views(final(warnings)@) == views(old(warnings)@) + ref_problems(mods@, enabled@, mid, refs@, false),
{
    let name = match find_folder(mods, mid) {
        Some(f) => f,
        None => String::new(),
    };
    assert(name@ == name_of(mods@, mid));
    let mut i: usize = 0;
    proof {
        assert(views(errors@) =~= views(old(errors)@) + ref_problems(mods@, enabled@, mid, refs@.take(0), true));
        assert(views(warnings@) =~= views(old(warnings)@) + ref_problems(mods@, enabled@, mid, refs@.take(0), false));
    }
    while i < refs.len()
        invariant
            i <= refs.len(),
            name@ == name_of(mods@, mid),
            views(errors@) == views(old(errors)@) + ref_problems(mods@, enabled@, mid, refs@.take(i as int), true),
            views(warnings@) == views(old(warnings)@) + ref_problems(mods@, enabled@, mid, refs@.take(i as int), false),
        decreases refs.len() - i,
    {
        proof {
            assert(refs@.take(i + 1).drop_last() =~= refs@.take(i as int));
            assert(refs@.take(i + 1).last() == refs@[i as int]);
        }
        let r = refs[i];
        let ghost pe = errors@;
        let ghost pw = warnings@;
        match find_folder(mods, r.id) {
            Some(df) => {
                if r.required && !contains_id(enabled, r.id) {
                    let mut w = name.clone();
                    w.append(": dependencia requerida desactivada '");
                    w.append(df.as_str());
                    w.append("'");
                    warnings.push(w);
                    assert(views(warnings@) =~= views(pw).push(w@));
                }
            },
            None => {
                let mut e = name.clone();
                e.append(": dependencia no resuelta (id=");
                push_int_decimal(&mut e, r.id);
                e.append(" no instalado)");
                errors.push(e);
                assert(views(errors@) =~= views(pe).push(e@));
            },
        }
        proof {
            assert(views(errors@) =~= views(old(errors)@) + ref_problems(mods@, enabled@, mid, refs@.take(i + 1), true));
            assert(views(warnings@) =~= views(old(warnings)@) + ref_problems(mods@, enabled@, mid, refs@.take(i + 1), false));
        }
        i = i + 1;
    }
    proof {
        assert(refs@.take(refs.len() as int) =~= refs@);
    }
}

/// The health of a profile's mods. `mods` are all registered mods as found on
/// disk, `enabled` the keys enabled in the profile (in order), `deps` each
/// mod's dependency references, `violations` the variant and conflict
/// violations of the enabled mods.
///
/// Errors: each mod whose folder is gone, each reference of an enabled mod to
/// a mod that is not installed, each violation. Warnings: each manifest that
/// could not be read, each invalid or missing `mount` entry, each required
/// dependency of an enabled mod that is not enabled.
pub fn health_report(mods: &Vec<HealthMod>, enabled: &Vec<i64>, deps: &HashMap<i64, Vec<DepRef>>, violations: &Vec<Violation>) -> (r: HealthReport)
    ensures
        views(r.errors@) == missing_folders(mods@) + dep_problems(mods@, enabled@, deps@, enabled@, true) + violation_messages(violations@),
        views(r.warnings@) == all_manifest_warnings(mods@) + dep_problems(mods@, enabled@, deps@, enabled@, false),
{
    let mut errors: Vec<String> = Vec::new();
    let mut warnings: Vec<String> = Vec::new();
    let mut i: usize = 0;
    while i < mods.len()
        invariant
            i <= mods.len(),
            views(errors@) == missing_folders(mods@.take(i as int)),
            views(warnings@) == all_manifest_warnings(mods@.take(i as int)),
        decreases mods.len() - i,
    {
        proof {
            assert(mods@.take(i + 1).drop_last() =~= mods@.take(i as int));
            assert(mods@.take(i + 1).last() == mods@[i as int]);
        }
        let m = &mods[i];
        let ghost pe = errors@;
        let ghost pw = warnings@;
        if !m.dir_exists {
            let mut e = m.folder_name.clone();
            e.append(": carpeta no existe en disco");
            errors.push(e);
            assert(views(errors@) =~= views(pe).push(e@));
            assert(views(warnings@) =~= views(pw) + manifest_warnings(mods@[i as int]));
        } else {
            match &m.manifest {
                Manifest::Missing => {
                    assert(views(warnings@) =~= views(pw) + manifest_warnings(mods@[i as int]));
                },
                Manifest::Invalid(err) => {
                    let mut w = m.folder_name.clone();
                    w.append(": ");
                    w.append(err.as_str());
                    warnings.push(w);
                    assert(views(warnings@) =~= views(pw) + manifest_warnings(mods@[i as int]));
                },
                Manifest::Present(None) => {
                    assert(views(warnings@) =~= views(pw) + manifest_warnings(mods@[i as int]));
                },
                Manifest::Present(Some(ms)) => {
                    push_mount_warnings(&m.folder_name, ms, &mut warnings);
                },
            }
        }
        i = i + 1;
    }
    proof {
        assert(mods@.take(mods.len() as int) =~= mods@);
    }
    let ghost e0 = views(errors@);
    let ghost w0 = views(warnings@);
    let mut j: usize = 0;
    proof {
        assert(e0 + dep_problems(mods@, enabled@, deps@, enabled@.take(0), true) =~= e0);
        assert(w0 + dep_problems(mods@, enabled@, deps@, enabled@.take(0), false) =~= w0);
    }
    while j < enabled.len()
        invariant
            j <= enabled.len(),
            views(errors@) == e0 + dep_problems(mods@, enabled@, deps@, enabled@.take(j as int), true),
            views(warnings@) == w0 + dep_problems(mods@, enabled@, deps@, enabled@.take(j as int), false),
        decreases enabled.len() - j,
    {
        proof {
            assert(enabled@.take(j + 1).drop_last() =~= enabled@.take(j as int));
            assert(enabled@.take(j + 1).last() == enabled@[j as int]);
        }
        let mid = enabled[j];
        match deps.get(&mid) {
            Some(refs) => {
                push_ref_problems(mods, enabled, mid, refs, &mut errors, &mut warnings);
            },
            None => {},
        }
        j = j + 1;
    }
    proof {
        assert(enabled@.take(enabled.len() as int) =~= enabled@);
    }
    let ghost e1 = views(errors@);
    let mut k: usize = 0;
    while k < violations.len()
        invariant
            k <= violations.len(),
            views(errors@) == e1 + violation_messages(violations@.take(k as int)),
        decreases violations.len() - k,
    {
        let ghost pe = errors@;
        errors.push(violations[k].message.clone());
        proof {
            assert(views(errors@) =~= views(pe).push(violations@[k as int].message@));
            assert(violation_messages(violations@.take(k + 1)) =~= violation_messages(violations@.take(k as int)).push(violations@[k as int].message@));
        }
        k = k + 1;
    }
    proof {
        assert(violations@.take(violations.len() as int) =~= violations@);
    }
    HealthReport { errors, warnings }
}

/// The printed report: the healthy line when there is nothing, else each
/// error (`[X] `), each warning (`[!] `), an empty line and the counts.
pub open spec fn health_lines_spec(errors: Seq<Seq<char>>, warnings: Seq<Seq<char>>, profile: Seq<char>) -> Seq<Seq<char>> {
    if errors.len() == 0 && warnings.len() == 0 {
        seq!["Estado saludable: sin problemas en los mods del perfil '"@ + profile + "'."@]
    } else {
        errors.map_values(|e: Seq<char>| "[X] "@ + e) + warnings.map_values(|w: Seq<char>| "[!] "@ + w)
            + seq![Seq::<char>::empty(),
                "Resumen: "@ + nat_decimal(errors.len()) + " error(es), "@ + nat_decimal(warnings.len()) + " advertencia(s)"@]
    }
}

fn prefixed(prefix: &str, items: &Vec<String>, out: &mut Vec<String>)
    ensures
        views(final(out)@) == views(old(out)@) + views(items@).map_values(|x: Seq<char>| prefix@ + x),
{
    let mut i: usize = 0;
    while i < items.len()
        invariant
            i <= items.len(),
            views(out@) == views(old(out)@) + views(items@.take(i as int)).map_values(|x: Seq<char>| prefix@ + x),
        decreases items.len() - i,
    {
        let mut l = String::from_str(prefix);
        l.append(items[i].as_str());
        let ghost pre = out@;
        out.push(l);
        proof {
            assert(views(items@.take(i + 1)).map_values(|x: Seq<char>| prefix@ + x)
                =~= views(items@.take(i as int)).map_values(|x: Seq<char>| prefix@ + x).push(prefix@ + items@[i as int]@));
            assert(views(out@) =~= views(pre).push(l@));
        }
        i = i + 1;
    }
    proof {
        assert(items@.take(items.len() as int) =~= items@);
    }
}

/// The lines `health` prints for a report on profile `profile`.
pub fn health_lines(report: &HealthReport, profile: &str) -> (lines: Vec<String>)
    ensures
        views(lines@) == health_lines_spec(views(report.errors@), views(report.warnings@), profile@),
{
    let mut lines: Vec<String> = Vec::new();
    if report.errors.len() == 0 && report.warnings.len() == 0 {
        let mut l = String::from_str("Estado saludable: sin problemas en los mods del perfil '");
        l.append(profile);
        l.append("'.");
        lines.push(l);
        assert(views(lines@) =~= health_lines_spec(views(report.errors@), views(report.warnings@), profile@));
        return lines;
    }
    prefixed("[X] ", &report.errors, &mut lines);
    prefixed("[!] ", &report.warnings, &mut lines);
    let ghost mid = views(lines@);
    lines.push(String::new());
    let mut summary = String::from_str("Resumen: ");
    push_nat_decimal(&mut summary, report.errors.len() as u128);
    summary.append(" error(es), ");
    push_nat_decimal(&mut summary, report.warnings.len() as u128);
    summary.append(" advertencia(s)");
    lines.push(summary);
    proof {
        assert(views(Seq::<String>::empty()) =~= Seq::<Seq<char>>::empty());
        assert(views(lines@) =~= health_lines_spec(views(report.errors@), views(report.warnings@), profile@));
    }
    lines
}

} // verus!
