use vstd::prelude::*;
use crate::constraints::{family, family_of, resolve_target, target_of, views};
use crate::db::{ModEntry, ModIdentity};
use crate::meta::{ModMeta, str_is};
use crate::text::{join_strings, join_with};

verus! {

/// What enabling a mod entails once no declared conflict stands in the way.
pub struct EnablePlan {
    /// Shown when the mod asks for one of several alternatives and none of
    /// them is enabled.
    pub warning: Option<String>,
    /// The other enabled members of the mod's variant family, `(key, folder)`,
    /// to be disabled.
    pub disable: Vec<(i64, String)>,
}

/// The folders of some mods.
pub open spec fn folders_of(mods: Seq<ModEntry>) -> Seq<String> {
    mods.map_values(|m: ModEntry| m.folder_name)
}

/// One of `refs` names `folder`.
pub open spec fn hits(refs: Seq<String>, folder: Seq<char>, all: Seq<String>, metas: Seq<Option<ModMeta>>) -> bool {
    exists|k: int| 0 <= k < refs.len() && target_of(all, metas, (#[trigger] refs[k])@) == Some(folder)
}

/// An enabled mod other than the target.
pub open spec fn is_other(m: ModEntry, target_id: i64) -> bool {
    m.enabled && m.id != target_id
}

/// The conflict references of a manifest (none without one).
pub open spec fn conflicts_of(m: Option<ModMeta>) -> Seq<String> {
    match m {
        Some(mm) => mm.conflicts@,
        None => Seq::empty(),
    }
}

/// `No se puede activar '<t>': es incompatible con '<o>' (activado).`
pub open spec fn incompatible_msg(target: Seq<char>, other: Seq<char>) -> Seq<char> {
    "No se puede activar '"@ + target + "': es incompatible con '"@ + other + "' (activado)."@
}

/// Why mod `k` stops the target from being enabled: its manifest could not be
/// read, or one of the two declares the other incompatible.
pub open spec fn refusal(k: int, target: ModIdentity, tmeta: ModMeta, mods: Seq<ModEntry>, metas: Seq<Option<ModMeta>>, errors: Seq<Option<String>>) -> Option<Seq<char>> {
    if is_other(mods[k], target.id) {
        match errors[k] {
            Some(e) => Some(e@),
            None => {
                let all = folders_of(mods);
                if hits(tmeta.conflicts@, mods[k].folder_name@, all, metas)
                    || hits(conflicts_of(metas[k]), target.folder_name@, all, metas) {
                    Some(incompatible_msg(target.folder_name@, mods[k].folder_name@))
                } else {
                    None
                }
            },
        }
    } else {
        None
    }
}

/// The first refusal among the first `n` mods.
pub open spec fn first_refusal(n: int, target: ModIdentity, tmeta: ModMeta, mods: Seq<ModEntry>, metas: Seq<Option<ModMeta>>, errors: Seq<Option<String>>) -> Option<Seq<char>>
    decreases n,
{
    if n <= 0 {
        None
    } else {
        match first_refusal(n - 1, target, tmeta, mods, metas, errors) {
            Some(e) => Some(e),
            None => refusal(n - 1, target, tmeta, mods, metas, errors),
        }
    }
}

proof fn lemma_refusal_stays(n: int, m: int, target: ModIdentity, tmeta: ModMeta, mods: Seq<ModEntry>, metas: Seq<Option<ModMeta>>, errors: Seq<Option<String>>)
    requires
        0 <= n <= m,
        first_refusal(n, target, tmeta, mods, metas, errors) is Some,
    ensures
        first_refusal(m, target, tmeta, mods, metas, errors) == first_refusal(n, target, tmeta, mods, metas, errors),
    decreases m - n,
{
    if m > n {
        lemma_refusal_stays(n, m - 1, target, tmeta, mods, metas, errors);
    }
}

/// Some enabled mod has folder `f`.
pub open spec fn folder_enabled(mods: Seq<ModEntry>, f: Seq<char>) -> bool {
    exists|j: int| 0 <= j < mods.len() && (#[trigger] mods[j]).enabled && mods[j].folder_name@ == f
}

/// Some alternative the target asks for is enabled.
pub open spec fn alternative_enabled(tmeta: ModMeta, mods: Seq<ModEntry>, metas: Seq<Option<ModMeta>>) -> bool {
    exists|k: int| 0 <= k < tmeta.requires_any.len()
        && (match target_of(folders_of(mods), metas, (#[trigger] tmeta.requires_any@[k])@) {
            Some(f) => folder_enabled(mods, f),
            None => false,
        })
}

/// The warning of a mod that asks for alternatives of which none is enabled.
pub open spec fn alternatives_warning(target: ModIdentity, tmeta: ModMeta, mods: Seq<ModEntry>, metas: Seq<Option<ModMeta>>) -> Option<Seq<char>> {
    if tmeta.requires_any.len() > 0 && !alternative_enabled(tmeta, mods, metas) {
        Some("'"@ + target.folder_name@ + "' requiere al menos uno de: "@ + join_with(views(tmeta.requires_any@), ", "@)
            + " (ninguno activado)."@)
    } else {
        None
    }
}

/// The other enabled members of family `g` among the first `n` mods.
pub open spec fn family_members(n: int, target_id: i64, g: Seq<char>, mods: Seq<ModEntry>, metas: Seq<Option<ModMeta>>) -> Seq<(i64, Seq<char>)>
    decreases n,
{
    if n <= 0 {
        Seq::empty()
    } else {
        let rest = family_members(n - 1, target_id, g, mods, metas);
        if is_other(mods[n - 1], target_id) && family_of(metas[n - 1]) == Some(g) {
            rest.push((mods[n - 1].id, mods[n - 1].folder_name@))
        } else {
            rest
        }
    }
}

/// The mods to disable so that the target is the only enabled member of its
/// variant family.
pub open spec fn siblings_to_disable(target: ModIdentity, tmeta: ModMeta, mods: Seq<ModEntry>, metas: Seq<Option<ModMeta>>) -> Seq<(i64, Seq<char>)> {
    match tmeta.variant {
        Some(v) => family_members(mods.len() as int, target.id, v.group@, mods, metas),
        None => Seq::empty(),
    }
}

/// The views of a disable list.
pub open spec fn disable_view(d: Seq<(i64, String)>) -> Seq<(i64, Seq<char>)> {
    d.map_values(|p: (i64, String)| (p.0, p.1@))
}

fn any_hits(refs: &Vec<String>, folder: &String, all: &Vec<String>, metas: &Vec<Option<ModMeta>>) -> (r: bool)
    requires
        all.len() == metas.len(),
    ensures
        r == hits(refs@, folder@, all@, metas@),
{
    let mut i: usize = 0;
    while i < refs.len()
        invariant
            i <= refs.len(),
            all.len() == metas.len(),
            forall|k: int| 0 <= k < i ==> target_of(all@, metas@, (#[trigger] refs@[k])@) != Some(folder@),
        decreases refs.len() - i,
    {
        match resolve_target(all, metas, &refs[i]) {
            Some(t) => {
                if str_is(t.as_str(), folder.as_str()) {
                    return true;
                }
            },
            None => {},
        }
        i = i + 1;
    }
    false
}

fn folder_list(mods: &Vec<ModEntry>) -> (out: Vec<String>)
    ensures
        out@ == folders_of(mods@),
{
    let mut out: Vec<String> = Vec::new();
    let mut i: usize = 0;
    while i < mods.len()
        invariant
            i <= mods.len(),
            out@ == folders_of(mods@.take(i as int)),
        decreases mods.len() - i,
    {
        out.push(mods[i].folder_name.clone());
        proof {
            assert(folders_of(mods@.take(i + 1)) =~= folders_of(mods@.take(i as int)).push(mods@[i as int].folder_name));
        }
        i = i + 1;
    }
    proof {
        assert(mods@.take(mods.len() as int) =~= mods@);
    }
    out
}

fn any_enabled_folder(mods: &Vec<ModEntry>, f: &String) -> (r: bool)
    ensures
        r == folder_enabled(mods@, f@),
{
    let mut j: usize = 0;
    while j < mods.len()
        invariant
            j <= mods.len(),
            forall|q: int| 0 <= q < j ==> !((#[trigger] mods@[q]).enabled && mods@[q].folder_name@ == f@),
        decreases mods.len() - j,
    {
        if mods[j].enabled && str_is(mods[j].folder_name.as_str(), f.as_str()) {
            assert(mods@[j as int].enabled && mods@[j as int].folder_name@ == f@);
            return true;
        }
        j = j + 1;
    }
    false
}

fn some_alternative(tmeta: &ModMeta, mods: &Vec<ModEntry>, all: &Vec<String>, metas: &Vec<Option<ModMeta>>) -> (r: bool)
    requires
        all@ == folders_of(mods@),
        all.len() == metas.len(),
    ensures
        r == alternative_enabled(*tmeta, mods@, metas@),
{
    let mut i: usize = 0;
    while i < tmeta.requires_any.len()
        invariant
            i <= tmeta.requires_any.len(),
            all@ == folders_of(mods@),
            all.len() == metas.len(),
            forall|k: int| 0 <= k < i ==> !(match target_of(folders_of(mods@), metas@, (#[trigger] tmeta.requires_any@[k])@) {
                Some(f) => folder_enabled(mods@, f),
                None => false,
            }),
        decreases tmeta.requires_any.len() - i,
    {
        match resolve_target(all, metas, &tmeta.requires_any[i]) {
            Some(f) => {
                if any_enabled_folder(mods, &f) {
                    assert(target_of(folders_of(mods@), metas@, tmeta.requires_any@[i as int]@) == Some(f@));
                    return true;
                }
            },
            None => {},
        }
        i = i + 1;
    }
    false
}

/// Decides whether mod `target` (with manifest `target_meta`, the default one
/// when it has none) may be enabled in a profile whose mods are `mods`, each
/// with its manifest (`metas[k]`, `None` when it has none or it could not be
/// read) and the error reading it gave (`errors[k]`).
///
/// Going through the other enabled mods in order, the first one whose
/// manifest could not be read stops it with that error, and the first one
/// declared incompatible (by either side) stops it with
/// `No se puede activar '<t>': es incompatible con '<o>' (activado).`
/// Otherwise the plan holds a warning when the mod asks for one of several
/// alternatives and none is enabled, and the other enabled members of its
/// variant family, in order, to disable.
pub fn enable_plan(target: &ModIdentity, target_meta: &ModMeta, mods: &Vec<ModEntry>, metas: &Vec<Option<ModMeta>>, errors: &Vec<Option<String>>) -> (r: Result<EnablePlan, String>)
    requires
        mods.len() == metas.len(),
        mods.len() == errors.len(),
    ensures
        match first_refusal(mods.len() as int, *target, *target_meta, mods@, metas@, errors@) {
            Some(e) => r matches Err(m) && m@ == e,
            None => r matches Ok(p)
                && (match p.warning { Some(w) => Some(w@), None => None }) == alternatives_warning(*target, *target_meta, mods@, metas@)
                && disable_view(p.disable@) == siblings_to_disable(*target, *target_meta, mods@, metas@),
        },
{
    let all = folder_list(mods);
    let mut i: usize = 0;
    while i < mods.len()
        invariant
            i <= mods.len(),
            mods.len() == metas.len(),
            mods.len() == errors.len(),
            all@ == folders_of(mods@),
            first_refusal(i as int, *target, *target_meta, mods@, metas@, errors@) is None,
        decreases mods.len() - i,
    {
        let m = &mods[i];
        if m.enabled && m.id != target.id {
            match &errors[i] {
                Some(e) => {
                    proof {
                        lemma_refusal_stays(i + 1, mods.len() as int, *target, *target_meta, mods@, metas@, errors@);
                    }
                    return Err(e.clone());
                },
                None => {},
            }
            let other_hits = match &metas[i] {
                Some(om) => any_hits(&om.conflicts, &target.folder_name, &all, metas),
                None => {
                    assert(conflicts_of(metas@[i as int]) =~= Seq::<String>::empty());
                    false
                },
            };
            if any_hits(&target_meta.conflicts, &m.folder_name, &all, metas) || other_hits {
                let mut msg = String::from_str("No se puede activar '");
                msg.append(target.folder_name.as_str());
                msg.append("': es incompatible con '");
                msg.append(m.folder_name.as_str());
                msg.append("' (activado).");
                proof {
                    lemma_refusal_stays(i + 1, mods.len() as int, *target, *target_meta, mods@, metas@, errors@);
                }
                return Err(msg);
            }
        }
        i = i + 1;
    }
    let warning = if target_meta.requires_any.len() > 0 && !some_alternative(target_meta, mods, &all, metas) {
        let mut w = String::from_str("'");
        w.append(target.folder_name.as_str());
        w.append("' requiere al menos uno de: ");
        let joined = join_strings(&target_meta.requires_any, ", ");
        assert(target_meta.requires_any@.map_values(|p: String| p@) =~= views(target_meta.requires_any@));
        w.append(joined.as_str());
        w.append(" (ninguno activado).");
        Some(w)
    } else {
        None
    };
    let mut disable: Vec<(i64, String)> = Vec::new();
    match &target_meta.variant {
        Some(v) => {
            let mut k: usize = 0;
            while k < mods.len()
                invariant
                    k <= mods.len(),
                    mods.len() == metas.len(),
                    disable_view(disable@) == family_members(k as int, target.id, v.group@, mods@, metas@),
                decreases mods.len() - k,
            {
                let m = &mods[k];
                if m.enabled && m.id != target.id {
                    match family(&metas[k]) {
                        Some(g) => {
                            if str_is(g.as_str(), v.group.as_str()) {
                                let ghost prev = disable@;
                                disable.push((m.id, m.folder_name.clone()));
                                assert(disable_view(disable@) =~= disable_view(prev).push((m.id, m.folder_name@)));
                            }
                        },
                        None => {},
                    }
                }
                k = k + 1;
            }
        },
        None => {
            assert(disable_view(disable@) =~= Seq::<(i64, Seq<char>)>::empty());
        },
    }
    Ok(EnablePlan { warning, disable })
}

proof fn lemma_family_members(target: ModIdentity, mods: Seq<ModEntry>, metas: Seq<Option<ModMeta>>, g: Seq<char>, n: int)
    requires
        0 <= n <= mods.len(),
        mods.len() == metas.len(),
    ensures
        forall|k: int| 0 <= k < n && is_other(#[trigger] mods[k], target.id) && family_of(metas[k]) == Some(g)
            ==> family_members(n, target.id, g, mods, metas).contains((mods[k].id, mods[k].folder_name@)),
        forall|x: (i64, Seq<char>)| family_members(n, target.id, g, mods, metas).contains(x)
            ==> exists|k: int| 0 <= k < n && is_other(#[trigger] mods[k], target.id) && family_of(metas[k]) == Some(g)
                && x == (mods[k].id, mods[k].folder_name@),
    decreases n,
{
    if n > 0 {
        lemma_family_members(target, mods, metas, g, n - 1);
        let rest = family_members(n - 1, target.id, g, mods, metas);
        let cur = family_members(n, target.id, g, mods, metas);
        assert forall|k: int| 0 <= k < n && is_other(#[trigger] mods[k], target.id) && family_of(metas[k]) == Some(g)
            implies cur.contains((mods[k].id, mods[k].folder_name@)) by {
            if k < n - 1 {
                let j = choose|j: int| 0 <= j < rest.len() && rest[j] == (mods[k].id, mods[k].folder_name@);
                assert(cur[j] == rest[j]);
            } else {
                assert(cur.last() == (mods[k].id, mods[k].folder_name@));
            }
        }
        assert forall|x: (i64, Seq<char>)| cur.contains(x) implies exists|k: int| 0 <= k < n && is_other(#[trigger] mods[k], target.id)
            && family_of(metas[k]) == Some(g) && x == (mods[k].id, mods[k].folder_name@) by {
            let j = choose|j: int| 0 <= j < cur.len() && cur[j] == x;
            if j < rest.len() {
                assert(rest[j] == x);
                assert(rest.contains(x));
            } else {
                assert(x == (mods[n - 1].id, mods[n - 1].folder_name@));
            }
        }
    }
}

/// Enabling a mod of a variant family leaves no other member enabled: every
/// other enabled mod of its family is in the list of mods to disable, and
/// the list holds nothing else.
pub proof fn lemma_family_exclusive(target: ModIdentity, tmeta: ModMeta, mods: Seq<ModEntry>, metas: Seq<Option<ModMeta>>)
    requires
        tmeta.variant is Some,
        mods.len() == metas.len(),
    ensures
        forall|k: int| 0 <= k < mods.len() && is_other(#[trigger] mods[k], target.id)
            && family_of(metas[k]) == Some(tmeta.variant.unwrap().group@)
            ==> siblings_to_disable(target, tmeta, mods, metas).contains((mods[k].id, mods[k].folder_name@)),
        forall|x: (i64, Seq<char>)| siblings_to_disable(target, tmeta, mods, metas).contains(x)
            ==> exists|k: int| 0 <= k < mods.len() && is_other(#[trigger] mods[k], target.id)
                && family_of(metas[k]) == Some(tmeta.variant.unwrap().group@)
                && x == (mods[k].id, mods[k].folder_name@),
{
    lemma_family_members(target, mods, metas, tmeta.variant.unwrap().group@, mods.len() as int);
}

} // verus!
