use vstd::prelude::*;
use crate::cli::ExportMod;
use crate::meta::str_is;

verus! {

/// A profile in an export file.
#[derive(Debug, Clone)]
pub struct ExportProfile {
    pub name: String,
    pub slug: String,
    pub is_active: bool,
}

/// A mod's state in one profile (`profile` is the profile's slug).
#[derive(Debug, Clone)]
pub struct ExportProfileMod {
    pub profile: String,
    pub folder: String,
    pub enabled: bool,
    pub load_order: i64,
}

/// A dependency between two mods, by folder.
#[derive(Debug, Clone)]
pub struct ExportDep {
    pub folder: String,
    pub dep: String,
    pub required: bool,
}

/// A group.
#[derive(Debug, Clone)]
pub struct ExportGroup {
    pub name: String,
    pub slug: String,
}

/// A group membership (`group` is the group's slug; `profile` a profile's
/// slug, none for a global membership).
#[derive(Debug, Clone)]
pub struct ExportModGroup {
    pub group: String,
    pub folder: String,
    pub profile: Option<String>,
}

/// The whole state as exported.
pub struct ExportFile {
    pub profiles: Vec<ExportProfile>,
    pub mods: Vec<ExportMod>,
    pub profile_mods: Vec<ExportProfileMod>,
    pub dependencies: Vec<ExportDep>,
    pub groups: Vec<ExportGroup>,
    pub mod_groups: Vec<ExportModGroup>,
}

/// What an import writes, once the profiles, mods and groups of the file are
/// inserted in file order: rows that refer to them by their position in the
/// file. References to a slug or folder the file does not have are dropped;
/// when a slug or folder repeats, the last one listed is the one referred to.
pub struct ImportPlan {
    /// The file has no profile: a `default` one is created (and is active).
    pub default_profile: bool,
    /// The profile to mark active (position in the file).
    pub active: Option<usize>,
    /// `(profile, mod, enabled, load_order)`.
    pub profile_mods: Vec<(usize, usize, bool, i64)>,
    /// `(mod, dependency, required)`.
    pub dependencies: Vec<(usize, usize, bool)>,
    /// `(group, mod, profile)`; no profile for a global membership.
    pub mod_groups: Vec<(usize, usize, Option<usize>)>,
}

/// Position of the last profile with slug `slug`.
pub open spec fn last_profile(ps: Seq<ExportProfile>, slug: Seq<char>) -> Option<int>
    decreases ps.len(),
{
    if ps.len() == 0 {
        None
    } else if ps.last().slug@ == slug {
        Some(ps.len() - 1)
    } else {
        last_profile(ps.drop_last(), slug)
    }
}

/// Position of the last mod with folder `folder`.
pub open spec fn last_mod(ms: Seq<ExportMod>, folder: Seq<char>) -> Option<int>
    decreases ms.len(),
{
    if ms.len() == 0 {
        None
    } else if ms.last().folder@ == folder {
        Some(ms.len() - 1)
    } else {
        last_mod(ms.drop_last(), folder)
    }
}

/// Position of the last group with slug `slug`.
pub open spec fn last_group(gs: Seq<ExportGroup>, slug: Seq<char>) -> Option<int>
    decreases gs.len(),
{
    if gs.len() == 0 {
        None
    } else if gs.last().slug@ == slug {
        Some(gs.len() - 1)
    } else {
        last_group(gs.drop_last(), slug)
    }
}

/// Position of the last active profile.
pub open spec fn last_active(ps: Seq<ExportProfile>) -> Option<int>
    decreases ps.len(),
{
    if ps.len() == 0 {
        None
    } else if ps.last().is_active {
        Some(ps.len() - 1)
    } else {
        last_active(ps.drop_last())
    }
}

/// The profile made active: the last one marked active; when none is, the
/// first one that no later profile with the same slug replaces.
pub open spec fn active_spec(ps: Seq<ExportProfile>) -> Option<int> {
    if last_active(ps) is Some {
        last_active(ps)
    } else if ps.len() > 0 {
        Some(choose_kept(ps))
    } else {
        None
    }
}

/// The first profile that is the last one with its slug.
pub open spec fn choose_kept(ps: Seq<ExportProfile>) -> int {
    choose|i: int| 0 <= i < ps.len() && last_profile(ps, ps[i].slug@) == Some(i)
        && forall|j: int| 0 <= j < i ==> last_profile(ps, (#[trigger] ps[j]).slug@) != Some(j)
}

pub open spec fn pm_rows(ps: Seq<ExportProfile>, ms: Seq<ExportMod>, pms: Seq<ExportProfileMod>) -> Seq<(usize, usize, bool, i64)>
    decreases pms.len(),
{
    if pms.len() == 0 {
        Seq::empty()
    } else {
        let rest = pm_rows(ps, ms, pms.drop_last());
        let pm = pms.last();
        match (last_profile(ps, pm.profile@), last_mod(ms, pm.folder@)) {
            (Some(p), Some(m)) => rest.push((p as usize, m as usize, pm.enabled, pm.load_order)),
            _ => rest,
        }
    }
}

pub open spec fn dep_rows(ms: Seq<ExportMod>, ds: Seq<ExportDep>) -> Seq<(usize, usize, bool)>
    decreases ds.len(),
{
    if ds.len() == 0 {
        Seq::empty()
    } else {
        let rest = dep_rows(ms, ds.drop_last());
        let d = ds.last();
        match (last_mod(ms, d.folder@), last_mod(ms, d.dep@)) {
            (Some(m), Some(x)) => rest.push((m as usize, x as usize, d.required)),
            _ => rest,
        }
    }
}

pub open spec fn mg_rows(ps: Seq<ExportProfile>, ms: Seq<ExportMod>, gs: Seq<ExportGroup>, mgs: Seq<ExportModGroup>) -> Seq<(usize, usize, Option<usize>)>
    decreases mgs.len(),
{
    if mgs.len() == 0 {
        Seq::empty()
    } else {
        let rest = mg_rows(ps, ms, gs, mgs.drop_last());
        let mg = mgs.last();
        match (last_group(gs, mg.group@), last_mod(ms, mg.folder@)) {
            (Some(g), Some(m)) => {
                let p = match mg.profile {
                    Some(s) => match last_profile(ps, s@) {
                        Some(i) => Some(i as usize),
                        None => None,
                    },
                    None => None,
                };
                rest.push((g as usize, m as usize, p))
            },
            _ => rest,
        }
    }
}

fn find_profile(ps: &Vec<ExportProfile>, slug: &str) -> (r: Option<usize>)
    ensures
        match r {
            Some(i) => last_profile(ps@, slug@) == Some(i as int),
            None => last_profile(ps@, slug@) is None,
        },
{
    let mut k: usize = ps.len();
    proof {
        assert(ps@.take(ps.len() as int) =~= ps@);
    }
    while k > 0
        invariant
            k <= ps.len(),
            last_profile(ps@, slug@) == last_profile(ps@.take(k as int), slug@),
        decreases k,
    {
        proof {
            assert(ps@.take(k as int).drop_last() =~= ps@.take(k - 1));
            assert(ps@.take(k as int).last() == ps@[k - 1]);
        }
        if str_is(ps[k - 1].slug.as_str(), slug) {
            return Some(k - 1);
        }
        k = k - 1;
    }
    None
}

fn find_mod(ms: &Vec<ExportMod>, folder: &str) -> (r: Option<usize>)
    ensures
        match r {
            Some(i) => last_mod(ms@, folder@) == Some(i as int),
            None => last_mod(ms@, folder@) is None,
        },
{
    let mut k: usize = ms.len();
    proof {
        assert(ms@.take(ms.len() as int) =~= ms@);
    }
    while k > 0
        invariant
            k <= ms.len(),
            last_mod(ms@, folder@) == last_mod(ms@.take(k as int), folder@),
        decreases k,
    {
        proof {
            assert(ms@.take(k as int).drop_last() =~= ms@.take(k - 1));
            assert(ms@.take(k as int).last() == ms@[k - 1]);
        }
        if str_is(ms[k - 1].folder.as_str(), folder) {
            return Some(k - 1);
        }
        k = k - 1;
    }
    None
}

fn find_group(gs: &Vec<ExportGroup>, slug: &str) -> (r: Option<usize>)
    ensures
        match r {
            Some(i) => last_group(gs@, slug@) == Some(i as int),
            None => last_group(gs@, slug@) is None,
        },
{
    let mut k: usize = gs.len();
    proof {
        assert(gs@.take(gs.len() as int) =~= gs@);
    }
    while k > 0
        invariant
            k <= gs.len(),
            last_group(gs@, slug@) == last_group(gs@.take(k as int), slug@),
        decreases k,
    {
        proof {
            assert(gs@.take(k as int).drop_last() =~= gs@.take(k - 1));
            assert(gs@.take(k as int).last() == gs@[k - 1]);
        }
        if str_is(gs[k - 1].slug.as_str(), slug) {
            return Some(k - 1);
        }
        k = k - 1;
    }
    None
}

fn pick_active(ps: &Vec<ExportProfile>) -> (r: Option<usize>)
    ensures
        match r {
            Some(i) => active_spec(ps@) == Some(i as int),
            None => active_spec(ps@) is None,
        },
{
    let mut k: usize = ps.len();
    proof {
        assert(ps@.take(ps.len() as int) =~= ps@);
    }
    while k > 0
        invariant
            k <= ps.len(),
            last_active(ps@) == last_active(ps@.take(k as int)),
        decreases k,
    {
        proof {
            assert(ps@.take(k as int).drop_last() =~= ps@.take(k - 1));
            assert(ps@.take(k as int).last() == ps@[k - 1]);
        }
        if ps[k - 1].is_active {
            return Some(k - 1);
        }
        k = k - 1;
    }
    assert(last_active(ps@) is None);
    let mut i: usize = 0;
    while i < ps.len()
        invariant
            i <= ps.len(),
            last_active(ps@) is None,
            forall|j: int| 0 <= j < i ==> last_profile(ps@, (#[trigger] ps@[j]).slug@) != Some(j),
        decreases ps.len() - i,
    {
        match find_profile(ps, ps[i].slug.as_str()) {
            Some(k) => {
                if k == i {
                    proof {
                        let w = i as int;
                        assert(0 <= w < ps@.len() && last_profile(ps@, ps@[w].slug@) == Some(w)
                            && forall|j: int| 0 <= j < w ==> last_profile(ps@, (#[trigger] ps@[j]).slug@) != Some(j));
                        let c = choose_kept(ps@);
                        assert(0 <= c < ps@.len() && last_profile(ps@, ps@[c].slug@) == Some(c)
                            && forall|j: int| 0 <= j < c ==> last_profile(ps@, (#[trigger] ps@[j]).slug@) != Some(j));
                        if c < w {
                        } else if c > w {
                            assert(last_profile(ps@, ps@[w].slug@) != Some(w));
                        }
                        assert(c == w);
                    }
                    return Some(i);
                }
            },
            None => {},
        }
        i = i + 1;
    }
    proof {
        if ps@.len() > 0 {
            // The last profile is always the last one with its slug.
            let n = ps@.len() - 1;
            assert(last_profile(ps@, ps@[n].slug@) == Some(n));
        }
    }
    None
}

/// Plans an import: which profile becomes active and which profile states,
/// dependencies and group memberships are written, each referring to the
/// file's profiles, mods and groups by position (see `ImportPlan`).
pub fn import_plan(data: &ExportFile) -> (p: ImportPlan)
    ensures
        p.default_profile == (data.profiles.len() == 0),
        match p.active {
            Some(i) => active_spec(data.profiles@) == Some(i as int),
            None => active_spec(data.profiles@) is None,
        },
        p.profile_mods@ == pm_rows(data.profiles@, data.mods@, data.profile_mods@),
        p.dependencies@ == dep_rows(data.mods@, data.dependencies@),
        p.mod_groups@ == mg_rows(data.profiles@, data.mods@, data.groups@, data.mod_groups@),
{
    let active = pick_active(&data.profiles);
    let mut pms: Vec<(usize, usize, bool, i64)> = Vec::new();
    let mut i: usize = 0;
    while i < data.profile_mods.len()
        invariant
            i <= data.profile_mods.len(),
            pms@ == pm_rows(data.profiles@, data.mods@, data.profile_mods@.take(i as int)),
        decreases data.profile_mods.len() - i,
    {
        proof {
            assert(data.profile_mods@.take(i + 1).drop_last() =~= data.profile_mods@.take(i as int));
            assert(data.profile_mods@.take(i + 1).last() == data.profile_mods@[i as int]);
        }
        let pm = &data.profile_mods[i];
        match (find_profile(&data.profiles, pm.profile.as_str()), find_mod(&data.mods, pm.folder.as_str())) {
            (Some(p), Some(m)) => pms.push((p, m, pm.enabled, pm.load_order)),
            _ => {},
        }
        i = i + 1;
    }
    proof {
        assert(data.profile_mods@.take(data.profile_mods.len() as int) =~= data.profile_mods@);
    }
    let mut deps: Vec<(usize, usize, bool)> = Vec::new();
    let mut i: usize = 0;
    while i < data.dependencies.len()
        invariant
            i <= data.dependencies.len(),
            deps@ == dep_rows(data.mods@, data.dependencies@.take(i as int)),
        decreases data.dependencies.len() - i,
    {
        proof {
            assert(data.dependencies@.take(i + 1).drop_last() =~= data.dependencies@.take(i as int));
            assert(data.dependencies@.take(i + 1).last() == data.dependencies@[i as int]);
        }
        let d = &data.dependencies[i];
        match (find_mod(&data.mods, d.folder.as_str()), find_mod(&data.mods, d.dep.as_str())) {
            (Some(m), Some(x)) => deps.push((m, x, d.required)),
            _ => {},
        }
        i = i + 1;
    }
    proof {
        assert(data.dependencies@.take(data.dependencies.len() as int) =~= data.dependencies@);
    }
    let mut mgs: Vec<(usize, usize, Option<usize>)> = Vec::new();
    let mut i: usize = 0;
    while i < data.mod_groups.len()
        invariant
            i <= data.mod_groups.len(),
            mgs@ == mg_rows(data.profiles@, data.mods@, data.groups@, data.mod_groups@.take(i as int)),
        decreases data.mod_groups.len() - i,
    {
        proof {
            assert(data.mod_groups@.take(i + 1).drop_last() =~= data.mod_groups@.take(i as int));
            assert(data.mod_groups@.take(i + 1).last() == data.mod_groups@[i as int]);
        }
        let mg = &data.mod_groups[i];
        match (find_group(&data.groups, mg.group.as_str()), find_mod(&data.mods, mg.folder.as_str())) {
            (Some(g), Some(m)) => {
                let p = match &mg.profile {
                    Some(s) => find_profile(&data.profiles, s.as_str()),
                    None => None,
                };
                mgs.push((g, m, p));
            },
            _ => {},
        }
        i = i + 1;
    }
    proof {
        assert(data.mod_groups@.take(data.mod_groups.len() as int) =~= data.mod_groups@);
    }
    ImportPlan {
        default_profile: data.profiles.len() == 0,
        active,
        profile_mods: pms,
        dependencies: deps,
        mod_groups: mgs,
    }
}

proof fn lemma_last_profile_some(ps: Seq<ExportProfile>, slug: Seq<char>)
    ensures
        last_profile(ps, slug) matches Some(i) ==> 0 <= i < ps.len() && ps[i].slug@ == slug,
        (exists|i: int| 0 <= i < ps.len() && (#[trigger] ps[i]).slug@ == slug) ==> last_profile(ps, slug) is Some,
    decreases ps.len(),
{
    if ps.len() > 0 && ps.last().slug@ != slug {
        lemma_last_profile_some(ps.drop_last(), slug);
        if exists|i: int| 0 <= i < ps.len() && (#[trigger] ps[i]).slug@ == slug {
            let i = choose|i: int| 0 <= i < ps.len() && (#[trigger] ps[i]).slug@ == slug;
            assert(ps.drop_last()[i] == ps[i]);
        }
    }
}

proof fn lemma_last_mod_some(ms: Seq<ExportMod>, folder: Seq<char>)
    ensures
        last_mod(ms, folder) matches Some(i) ==> 0 <= i < ms.len() && ms[i].folder@ == folder,
        (exists|i: int| 0 <= i < ms.len() && (#[trigger] ms[i]).folder@ == folder) ==> last_mod(ms, folder) is Some,
    decreases ms.len(),
{
    if ms.len() > 0 && ms.last().folder@ != folder {
        lemma_last_mod_some(ms.drop_last(), folder);
        if exists|i: int| 0 <= i < ms.len() && (#[trigger] ms[i]).folder@ == folder {
            let i = choose|i: int| 0 <= i < ms.len() && (#[trigger] ms[i]).folder@ == folder;
            assert(ms.drop_last()[i] == ms[i]);
        }
    }
}

/// Some profile of the file has slug `slug`.
pub open spec fn has_profile(ps: Seq<ExportProfile>, slug: Seq<char>) -> bool {
    exists|i: int| 0 <= i < ps.len() && (#[trigger] ps[i]).slug@ == slug
}

/// Some mod of the file has folder `folder`.
pub open spec fn has_mod(ms: Seq<ExportMod>, folder: Seq<char>) -> bool {
    exists|i: int| 0 <= i < ms.len() && (#[trigger] ms[i]).folder@ == folder
}

/// Importing loses no profile state whose profile and mod the file has:
/// each becomes one row, in order, naming a profile with that slug and a mod
/// with that folder, with the same state.
pub proof fn lemma_import_keeps_profile_mods(ps: Seq<ExportProfile>, ms: Seq<ExportMod>, pms: Seq<ExportProfileMod>)
    requires
        ps.len() <= usize::MAX,
        ms.len() <= usize::MAX,
        forall|k: int| 0 <= k < pms.len() ==> has_profile(ps, (#[trigger] pms[k]).profile@) && has_mod(ms, pms[k].folder@),
    ensures
        pm_rows(ps, ms, pms).len() == pms.len(),
        forall|k: int| 0 <= k < pms.len() ==> {
            let r = #[trigger] pm_rows(ps, ms, pms)[k];
            &&& r.0 < ps.len() && ps[r.0 as int].slug@ == pms[k].profile@
            &&& r.1 < ms.len() && ms[r.1 as int].folder@ == pms[k].folder@
            &&& r.2 == pms[k].enabled && r.3 == pms[k].load_order
        },
    decreases pms.len(),
{
    if pms.len() > 0 {
        let d = pms.drop_last();
        assert forall|k: int| 0 <= k < d.len() implies has_profile(ps, (#[trigger] d[k]).profile@) && has_mod(ms, d[k].folder@) by {
            assert(d[k] == pms[k]);
        }
        lemma_import_keeps_profile_mods(ps, ms, d);
        let pm = pms.last();
        assert(has_profile(ps, pm.profile@) && has_mod(ms, pm.folder@)) by {
            assert(pms[pms.len() - 1] == pm);
        }
        lemma_last_profile_some(ps, pm.profile@);
        lemma_last_mod_some(ms, pm.folder@);
        let p = last_profile(ps, pm.profile@).unwrap();
        let m = last_mod(ms, pm.folder@).unwrap();
        assert(pm_rows(ps, ms, pms) == pm_rows(ps, ms, d).push((p as usize, m as usize, pm.enabled, pm.load_order)));
        assert forall|k: int| 0 <= k < pms.len() implies {
            let r = #[trigger] pm_rows(ps, ms, pms)[k];
            &&& r.0 < ps.len() && ps[r.0 as int].slug@ == pms[k].profile@
            &&& r.1 < ms.len() && ms[r.1 as int].folder@ == pms[k].folder@
            &&& r.2 == pms[k].enabled && r.3 == pms[k].load_order
        } by {
            if k < d.len() {
                assert(pm_rows(ps, ms, pms)[k] == pm_rows(ps, ms, d)[k]);
                assert(d[k] == pms[k]);
            }
        }
    }
}

/// Importing loses no dependency between two mods the file has: each becomes
/// one row, in order, naming mods with those folders, with the same kind.
pub proof fn lemma_import_keeps_dependencies(ms: Seq<ExportMod>, ds: Seq<ExportDep>)
    requires
        ms.len() <= usize::MAX,
        forall|k: int| 0 <= k < ds.len() ==> has_mod(ms, (#[trigger] ds[k]).folder@) && has_mod(ms, ds[k].dep@),
    ensures
        dep_rows(ms, ds).len() == ds.len(),
        forall|k: int| 0 <= k < ds.len() ==> {
            let r = #[trigger] dep_rows(ms, ds)[k];
            &&& r.0 < ms.len() && ms[r.0 as int].folder@ == ds[k].folder@
            &&& r.1 < ms.len() && ms[r.1 as int].folder@ == ds[k].dep@
            &&& r.2 == ds[k].required
        },
    decreases ds.len(),
{
    if ds.len() > 0 {
        let d = ds.drop_last();
        assert forall|k: int| 0 <= k < d.len() implies has_mod(ms, (#[trigger] d[k]).folder@) && has_mod(ms, d[k].dep@) by {
            assert(d[k] == ds[k]);
        }
        lemma_import_keeps_dependencies(ms, d);
        let x = ds.last();
        assert(has_mod(ms, x.folder@) && has_mod(ms, x.dep@)) by {
            assert(ds[ds.len() - 1] == x);
        }
        lemma_last_mod_some(ms, x.folder@);
        lemma_last_mod_some(ms, x.dep@);
        let a = last_mod(ms, x.folder@).unwrap();
        let b = last_mod(ms, x.dep@).unwrap();
        assert(dep_rows(ms, ds) == dep_rows(ms, d).push((a as usize, b as usize, x.required)));
        assert forall|k: int| 0 <= k < ds.len() implies {
            let r = #[trigger] dep_rows(ms, ds)[k];
            &&& r.0 < ms.len() && ms[r.0 as int].folder@ == ds[k].folder@
            &&& r.1 < ms.len() && ms[r.1 as int].folder@ == ds[k].dep@
            &&& r.2 == ds[k].required
        } by {
            if k < d.len() {
                assert(dep_rows(ms, ds)[k] == dep_rows(ms, d)[k]);
                assert(d[k] == ds[k]);
            }
        }
    }
}

proof fn lemma_last_active_is(ps: Seq<ExportProfile>, i: int)
    requires
        0 <= i < ps.len(),
        ps[i].is_active,
        forall|j: int| i < j < ps.len() ==> !(#[trigger] ps[j]).is_active,
    ensures
        last_active(ps) == Some(i),
    decreases ps.len(),
{
    if i < ps.len() - 1 {
        let d = ps.drop_last();
        assert(d[i] == ps[i]);
        assert(!ps[ps.len() - 1].is_active);
        assert forall|j: int| i < j < d.len() implies !(#[trigger] d[j]).is_active by {
            assert(d[j] == ps[j]);
        }
        lemma_last_active_is(d, i);
    }
}

/// The profile an import makes active is the last one the file marks active.
pub proof fn lemma_import_active(ps: Seq<ExportProfile>, i: int)
    requires
        0 <= i < ps.len(),
        ps[i].is_active,
        forall|j: int| i < j < ps.len() ==> !(#[trigger] ps[j]).is_active,
    ensures
        active_spec(ps) == Some(i),
{
    lemma_last_active_is(ps, i);
}

} // verus!
