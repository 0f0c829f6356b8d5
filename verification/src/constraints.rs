use vstd::prelude::*;
use crate::meta::{ModMeta, mod_id_ok, normalize_mod_id, normalized_id, valid_mod_id, str_is};
use crate::order::{seq_lt, str_lt, stable_sort, sort_keyed, keyed_view};
use crate::text::{trim, trim_seq, join_with, join_strings};

verus! {

/// Kind of a constraint violation.
#[derive(Debug, Clone, Copy, PartialEq, Eq, Structural)]
pub enum Kind {
    /// More than one variant of the same family is enabled.
    Variant,
    /// Two mods declared incompatible are enabled.
    Conflict,
}

/// One violated constraint.
#[derive(Debug)]
pub struct Violation {
    pub kind: Kind,
    pub message: String,
}

/// The folder whose manifest declares the (normalized) id `key`; when several
/// do, the last one listed.
pub open spec fn folder_by_id(all: Seq<String>, metas: Seq<Option<ModMeta>>, key: Seq<char>) -> Option<Seq<char>>
    decreases all.len(),
{
    if all.len() == 0 || metas.len() == 0 {
        None
    } else if metas.last() matches Some(m) && m.id matches Some(id) && normalized_id(id@) == key {
        Some(all.last()@)
    } else {
        folder_by_id(all.drop_last(), metas.drop_last(), key)
    }
}

/// The views of some strings.
pub open spec fn views(s: Seq<String>) -> Seq<Seq<char>> {
    s.map_values(|x: String| x@)
}

/// The folder a conflict reference names: by `author:slug` id when it is a
/// valid id of a known manifest, otherwise a folder whose name is the trimmed
/// reference.
pub open spec fn target_of(all: Seq<String>, metas: Seq<Option<ModMeta>>, reference: Seq<char>) -> Option<Seq<char>> {
    let n = normalized_id(reference);
    let by = if mod_id_ok(n) { folder_by_id(all, metas, n) } else { None };
    if by is Some {
        by
    } else if views(all).contains(trim_seq(reference)) {
        Some(trim_seq(reference))
    } else {
        None
    }
}

/// The two folders in code point order.
pub open spec fn ordered_pair(a: Seq<char>, b: Seq<char>) -> (Seq<char>, Seq<char>) {
    if seq_lt(b, a) { (b, a) } else { (a, b) }
}

/// The incompatible pairs that one enabled folder's references produce.
pub open spec fn ref_pairs(folder: Seq<char>, refs: Seq<String>, all: Seq<String>, metas: Seq<Option<ModMeta>>, enabled: Seq<String>) -> Seq<(Seq<char>, Seq<char>)>
    decreases refs.len(),
{
    if refs.len() == 0 {
        Seq::empty()
    } else {
        let rest = ref_pairs(folder, refs.drop_last(), all, metas, enabled);
        match target_of(all, metas, refs.last()@) {
            Some(t) => if t != folder && views(enabled).contains(t) {
                rest.push(ordered_pair(folder, t))
            } else {
                rest
            },
            None => rest,
        }
    }
}

/// The incompatible pairs of all enabled folders, in order, repeats included.
pub open spec fn all_pairs(en: Seq<String>, emetas: Seq<Option<ModMeta>>, all: Seq<String>, metas: Seq<Option<ModMeta>>, enabled: Seq<String>) -> Seq<(Seq<char>, Seq<char>)>
    decreases en.len(),
{
    if en.len() == 0 || emetas.len() == 0 {
        Seq::empty()
    } else {
        let rest = all_pairs(en.drop_last(), emetas.drop_last(), all, metas, enabled);
        match emetas.last() {
            Some(m) => rest + ref_pairs(en.last()@, m.conflicts@, all, metas, enabled),
            None => rest,
        }
    }
}

/// First occurrences only, in order.
pub open spec fn dedup<A>(s: Seq<A>) -> Seq<A>
    decreases s.len(),
{
    if s.len() == 0 {
        s
    } else {
        let rest = dedup(s.drop_last());
        if rest.contains(s.last()) { rest } else { rest.push(s.last()) }
    }
}

/// `'a' es incompatible con 'b' (ambos activados).`
pub open spec fn conflict_msg(p: (Seq<char>, Seq<char>)) -> Seq<char> {
    "'"@ + p.0 + "' es incompatible con '"@ + p.1 + "' (ambos activados)."@
}

/// The variant family of a manifest.
pub open spec fn family_of(m: Option<ModMeta>) -> Option<Seq<char>> {
    match m {
        Some(mm) => match mm.variant {
            Some(v) => Some(v.group@),
            None => None,
        },
        None => None,
    }
}

/// The families of the enabled folders, each once, in order of appearance.
pub open spec fn families(emetas: Seq<Option<ModMeta>>) -> Seq<Seq<char>>
    decreases emetas.len(),
{
    if emetas.len() == 0 {
        Seq::empty()
    } else {
        let rest = families(emetas.drop_last());
        match family_of(emetas.last()) {
            Some(g) => if rest.contains(g) { rest } else { rest.push(g) },
            None => rest,
        }
    }
}

/// The enabled folders of family `g`, in order.
pub open spec fn members_of(en: Seq<String>, emetas: Seq<Option<ModMeta>>, g: Seq<char>) -> Seq<Seq<char>>
    decreases en.len(),
{
    if en.len() == 0 || emetas.len() == 0 {
        Seq::empty()
    } else {
        let rest = members_of(en.drop_last(), emetas.drop_last(), g);
        if family_of(emetas.last()) == Some(g) { rest.push(en.last()@) } else { rest }
    }
}

/// Strings in code point order.
pub open spec fn sorted_strings(s: Seq<Seq<char>>) -> Seq<Seq<char>> {
    stable_sort(s.map_values(|x: Seq<char>| (x, ())), false).map_values(|p: (Seq<char>, ())| p.0)
}

/// `Varias variantes de 'g' activadas a la vez: a, b.`
pub open spec fn variant_msg(g: Seq<char>, members: Seq<Seq<char>>) -> Seq<char> {
    "Varias variantes de '"@ + g + "' activadas a la vez: "@ + join_with(sorted_strings(members), ", "@) + "."@
}

/// The variant violations: one per family with more than one enabled member.
pub open spec fn variant_msgs(fams: Seq<Seq<char>>, en: Seq<String>, emetas: Seq<Option<ModMeta>>) -> Seq<Seq<char>>
    decreases fams.len(),
{
    if fams.len() == 0 {
        Seq::empty()
    } else {
        let rest = variant_msgs(fams.drop_last(), en, emetas);
        let ms = members_of(en, emetas, fams.last());
        if ms.len() > 1 { rest.push(variant_msg(fams.last(), ms)) } else { rest }
    }
}

/// A violation as plain values.
pub open spec fn violation_view(v: Violation) -> (Kind, Seq<char>) {
    (v.kind, v.message@)
}

/// Everything `check` reports: the incompatible pairs (each once, in the order
/// they are found), then the variant families with several enabled members
/// (in order of their first enabled member).
pub open spec fn check_spec(all: Seq<String>, metas: Seq<Option<ModMeta>>, enabled: Seq<String>, emetas: Seq<Option<ModMeta>>) -> Seq<(Kind, Seq<char>)> {
    dedup(all_pairs(enabled, emetas, all, metas, enabled)).map_values(|p: (Seq<char>, Seq<char>)| (Kind::Conflict, conflict_msg(p)))
        + variant_msgs(families(emetas), enabled, emetas).map_values(|m: Seq<char>| (Kind::Variant, m))
}

fn lookup_id(all: &Vec<String>, metas: &Vec<Option<ModMeta>>, key: &String) -> (r: Option<String>)
    requires
        all.len() == metas.len(),
    ensures
        (match r { Some(f) => Some(f@), None => None }) == folder_by_id(all@, metas@, key@),
{
    let mut k: usize = all.len();
    proof {
        assert(all@.take(all.len() as int) =~= all@);
        assert(metas@.take(metas.len() as int) =~= metas@);
    }
    while k > 0
        invariant
            k <= all.len(),
            all.len() == metas.len(),
            folder_by_id(all@, metas@, key@) == folder_by_id(all@.take(k as int), metas@.take(k as int), key@),
        decreases k,
    {
        proof {
            assert(all@.take(k as int).drop_last() =~= all@.take(k - 1));
            assert(metas@.take(k as int).drop_last() =~= metas@.take(k - 1));
            assert(all@.take(k as int).last() == all@[k - 1]);
            assert(metas@.take(k as int).last() == metas@[k - 1]);
        }
        match &metas[k - 1] {
            Some(m) => match &m.id {
                Some(id) => {
                    let n = normalize_mod_id(id.as_str());
                    if str_is(n.as_str(), key.as_str()) {
                        return Some(all[k - 1].clone());
                    }
                },
                None => {},
            },
            None => {},
        }
        k = k - 1;
    }
    None
}

pub(crate) fn contains_string(v: &Vec<String>, s: &str) -> (r: bool)
    ensures
        r == views(v@).contains(s@),
{
    let mut i: usize = 0;
    while i < v.len()
        invariant
            i <= v.len(),
            forall|k: int| 0 <= k < i ==> v@[k]@ != s@,
        decreases v.len() - i,
    {
        if str_is(v[i].as_str(), s) {
            assert(views(v@)[i as int] == s@);
            return true;
        }
        i = i + 1;
    }
    proof {
        if views(v@).contains(s@) {
            let k = choose|k: int| 0 <= k < views(v@).len() && views(v@)[k] == s@;
            assert(v@[k]@ == s@);
        }
    }
    false
}

pub(crate) fn resolve_target(all: &Vec<String>, metas: &Vec<Option<ModMeta>>, reference: &String) -> (r: Option<String>)
    requires
        all.len() == metas.len(),
    ensures
        (match r { Some(f) => Some(f@), None => None }) == target_of(all@, metas@, reference@),
{
    let n = normalize_mod_id(reference.as_str());
    if valid_mod_id(n.as_str()) {
        let by = lookup_id(all, metas, &n);
        if by.is_some() {
            return by;
        }
    }
    let t = trim(reference.as_str());
    if contains_string(all, t) {
        Some(t.to_owned())
    } else {
        None
    }
}

fn ordered(a: &String, b: &String) -> (p: (String, String))
    ensures
        (p.0@, p.1@) == ordered_pair(a@, b@),
{
    if str_lt(b.as_str(), a.as_str()) {
        (b.clone(), a.clone())
    } else {
        (a.clone(), b.clone())
    }
}

/// The views of some string pairs.
pub open spec fn pair_views(s: Seq<(String, String)>) -> Seq<(Seq<char>, Seq<char>)> {
    s.map_values(|p: (String, String)| (p.0@, p.1@))
}

fn collect_pairs(all: &Vec<String>, metas: &Vec<Option<ModMeta>>, enabled: &Vec<String>, emetas: &Vec<Option<ModMeta>>) -> (out: Vec<(String, String)>)
    requires
        all.len() == metas.len(),
        enabled.len() == emetas.len(),
    ensures
        pair_views(out@) == all_pairs(enabled@, emetas@, all@, metas@, enabled@),
{
    let mut out: Vec<(String, String)> = Vec::new();
    let mut i: usize = 0;
    while i < enabled.len()
        invariant
            i <= enabled.len(),
            all.len() == metas.len(),
            enabled.len() == emetas.len(),
            pair_views(out@) == all_pairs(enabled@.take(i as int), emetas@.take(i as int), all@, metas@, enabled@),
        decreases enabled.len() - i,
    {
        proof {
            assert(enabled@.take(i + 1).drop_last() =~= enabled@.take(i as int));
            assert(emetas@.take(i + 1).drop_last() =~= emetas@.take(i as int));
            assert(enabled@.take(i + 1).last() == enabled@[i as int]);
            assert(emetas@.take(i + 1).last() == emetas@[i as int]);
        }
        match &emetas[i] {
            Some(m) => {
                let folder = &enabled[i];
                let ghost base = pair_views(out@);
                let mut j: usize = 0;
                proof {
                    assert(base + ref_pairs(folder@, m.conflicts@.take(0), all@, metas@, enabled@) =~= base);
                }
                while j < m.conflicts.len()
                    invariant
                        j <= m.conflicts.len(),
                        all.len() == metas.len(),
                        pair_views(out@) == base + ref_pairs(folder@, m.conflicts@.take(j as int), all@, metas@, enabled@),
                    decreases m.conflicts.len() - j,
                {
                    proof {
                        assert(m.conflicts@.take(j + 1).drop_last() =~= m.conflicts@.take(j as int));
                        assert(m.conflicts@.take(j + 1).last() == m.conflicts@[j as int]);
                    }
                    let t = resolve_target(all, metas, &m.conflicts[j]);
                    match t {
                        Some(tf) => {
                            if !str_is(tf.as_str(), folder.as_str()) && contains_string(enabled, tf.as_str()) {
                                let p = ordered(folder, &tf);
                                let ghost prev = pair_views(out@);
                                out.push(p);
                                proof {
                                    assert(pair_views(out@) =~= prev.push((p.0@, p.1@)));
                                }
                            }
                        },
                        None => {},
                    }
                    proof {
                        assert(pair_views(out@) =~= base + ref_pairs(folder@, m.conflicts@.take(j + 1), all@, metas@, enabled@));
                    }
                    j = j + 1;
                }
                proof {
                    assert(m.conflicts@.take(m.conflicts.len() as int) =~= m.conflicts@);
                }
            },
            None => {},
        }
        i = i + 1;
    }
    proof {
        assert(enabled@.take(enabled.len() as int) =~= enabled@);
        assert(emetas@.take(emetas.len() as int) =~= emetas@);
    }
    out
}

fn dedup_pairs(v: &Vec<(String, String)>) -> (out: Vec<(String, String)>)
    ensures
        pair_views(out@) == dedup(pair_views(v@)),
{
    let mut out: Vec<(String, String)> = Vec::new();
    let mut i: usize = 0;
    while i < v.len()
        invariant
            i <= v.len(),
            pair_views(out@) == dedup(pair_views(v@.take(i as int))),
        decreases v.len() - i,
    {
        let ghost cur = pair_views(out@);
        let ghost x = (v@[i as int].0@, v@[i as int].1@);
        proof {
            assert(pair_views(v@.take(i + 1)).drop_last() =~= pair_views(v@.take(i as int)));
            assert(pair_views(v@.take(i + 1)).last() == x);
        }
        let mut found = false;
        let mut j: usize = 0;
        while j < out.len()
            invariant
                j <= out.len(),
                i < v.len(),
                x == (v@[i as int].0@, v@[i as int].1@),
                cur == pair_views(out@),
                found == (exists|k: int| 0 <= k < j && #[trigger] cur[k] == x),
            decreases out.len() - j,
        {
            assert(cur[j as int] == (out@[j as int].0@, out@[j as int].1@));
            if str_is(out[j].0.as_str(), v[i].0.as_str()) && str_is(out[j].1.as_str(), v[i].1.as_str()) {
                assert(cur[j as int] == x);
                found = true;
            } else {
                assert(cur[j as int] != x);
            }
            j = j + 1;
        }
        proof {
            if cur.contains(x) {
                let k = choose|k: int| 0 <= k < cur.len() && cur[k] == x;
            }
        }
        if !found {
            let p = (v[i].0.clone(), v[i].1.clone());
            out.push(p);
            proof {
                assert(pair_views(out@) =~= cur.push(x));
            }
        }
        i = i + 1;
    }
    proof {
        assert(v@.take(v.len() as int) =~= v@);
    }
    out
}

fn conflict_message(p: &(String, String)) -> (m: String)
    ensures
        m@ == conflict_msg((p.0@, p.1@)),
{
    let mut m = String::from_str("'");
    m.append(p.0.as_str());
    m.append("' es incompatible con '");
    m.append(p.1.as_str());
    m.append("' (ambos activados).");
    m
}

pub(crate) fn family(m: &Option<ModMeta>) -> (r: Option<&String>)
    ensures
        (match r { Some(g) => Some(g@), None => None }) == family_of(*m),
{
    match m {
        Some(mm) => match &mm.variant {
            Some(v) => Some(&v.group),
            None => None,
        },
        None => None,
    }
}

fn family_list(emetas: &Vec<Option<ModMeta>>) -> (out: Vec<String>)
    ensures
        views(out@) == families(emetas@),
{
    let mut out: Vec<String> = Vec::new();
    let mut i: usize = 0;
    while i < emetas.len()
        invariant
            i <= emetas.len(),
            views(out@) == families(emetas@.take(i as int)),
        decreases emetas.len() - i,
    {
        proof {
            assert(emetas@.take(i + 1).drop_last() =~= emetas@.take(i as int));
            assert(emetas@.take(i + 1).last() == emetas@[i as int]);
        }
        match family(&emetas[i]) {
            Some(g) => {
                if !contains_string(&out, g.as_str()) {
                    let ghost prev = views(out@);
                    out.push(g.clone());
                    proof {
                        assert(views(out@) =~= prev.push(g@));
                    }
                }
            },
            None => {},
        }
        i = i + 1;
    }
    proof {
        assert(emetas@.take(emetas.len() as int) =~= emetas@);
    }
    out
}

fn members(enabled: &Vec<String>, emetas: &Vec<Option<ModMeta>>, g: &String) -> (out: Vec<String>)
    requires
        enabled.len() == emetas.len(),
    ensures
        views(out@) == members_of(enabled@, emetas@, g@),
{
    let mut out: Vec<String> = Vec::new();
    let mut i: usize = 0;
    while i < enabled.len()
        invariant
            i <= enabled.len(),
            enabled.len() == emetas.len(),
            views(out@) == members_of(enabled@.take(i as int), emetas@.take(i as int), g@),
        decreases enabled.len() - i,
    {
        proof {
            assert(enabled@.take(i + 1).drop_last() =~= enabled@.take(i as int));
            assert(emetas@.take(i + 1).drop_last() =~= emetas@.take(i as int));
            assert(enabled@.take(i + 1).last() == enabled@[i as int]);
            assert(emetas@.take(i + 1).last() == emetas@[i as int]);
        }
        match family(&emetas[i]) {
            Some(f) => {
                if str_is(f.as_str(), g.as_str()) {
                    let ghost prev = views(out@);
                    out.push(enabled[i].clone());
                    proof {
                        assert(views(out@) =~= prev.push(enabled@[i as int]@));
                    }
                }
            },
            None => {},
        }
        i = i + 1;
    }
    proof {
        assert(enabled@.take(enabled.len() as int) =~= enabled@);
        assert(emetas@.take(emetas.len() as int) =~= emetas@);
    }
    out
}

/// The strings in code point order.
pub fn sort_strings(v: Vec<String>) -> (out: Vec<String>)
    ensures
        views(out@) == sorted_strings(views(v@)),
{
    let ghost orig = views(v@);
    let n = v.len();
    let mut v = v;
    let mut keyed: Vec<(String, ())> = Vec::new();
    let mut k: usize = 0;
    proof {
        assert(orig.skip(0) =~= orig);
    }
    while v.len() > 0
        invariant
            k + v.len() == orig.len(),
            orig.len() == n,
            views(v@) == orig.skip(k as int),
            keyed_view(keyed@) == orig.take(k as int).map_values(|x: Seq<char>| (x, ())),
        decreases v.len(),
    {
        let ghost before = v@;
        let s = v.remove(0);
        let ghost prev = keyed_view(keyed@);
        proof {
            assert(orig.skip(k as int)[0] == s@);
            assert forall|t: int| 0 <= t < v@.len() implies #[trigger] views(v@)[t] == orig.skip(k + 1)[t] by {
                assert(v@[t] == before[t + 1]);
                assert(views(before)[t + 1] == orig.skip(k as int)[t + 1]);
            }
            assert(views(v@) =~= orig.skip(k + 1));
        }
        keyed.push((s, ()));
        proof {
            assert(orig.take(k + 1) =~= orig.take(k as int).push(orig[k as int]));
            assert(keyed_view(keyed@) =~= prev.push((orig[k as int], ())));
            assert(keyed_view(keyed@) =~= orig.take(k + 1).map_values(|x: Seq<char>| (x, ())));
        }
        k = k + 1;
    }
    proof {
        assert(orig.take(k as int) =~= orig);
    }
    let sorted = sort_keyed(keyed, false);
    let ghost sv = keyed_view(sorted@);
    let m = sorted.len();
    let mut sorted = sorted;
    let mut out: Vec<String> = Vec::new();
    let mut t: usize = 0;
    proof {
        assert(sv.skip(0) =~= sv);
    }
    while sorted.len() > 0
        invariant
            t + sorted.len() == sv.len(),
            sv.len() == m,
            keyed_view(sorted@) == sv.skip(t as int),
            views(out@) == sv.take(t as int).map_values(|p: (Seq<char>, ())| p.0),
        decreases sorted.len(),
    {
        let ghost before = sorted@;
        let p = sorted.remove(0);
        let ghost prev = views(out@);
        proof {
            assert(sv.skip(t as int)[0] == (p.0@, p.1));
            assert forall|u: int| 0 <= u < sorted@.len() implies #[trigger] keyed_view(sorted@)[u] == sv.skip(t + 1)[u] by {
                assert(sorted@[u] == before[u + 1]);
                assert(keyed_view(before)[u + 1] == sv.skip(t as int)[u + 1]);
            }
            assert(keyed_view(sorted@) =~= sv.skip(t + 1));
        }
        out.push(p.0);
        proof {
            assert(sv.take(t + 1) =~= sv.take(t as int).push(sv[t as int]));
            assert(views(out@) =~= prev.push(sv[t as int].0));
            assert(views(out@) =~= sv.take(t + 1).map_values(|p: (Seq<char>, ())| p.0));
        }
        t = t + 1;
    }
    proof {
        assert(sv.take(t as int) =~= sv);
    }
    out
}

fn variant_message(g: &String, ms: Vec<String>) -> (m: String)
    ensures
        m@ == variant_msg(g@, views(ms@)),
{
    let sorted = sort_strings(ms);
    let joined = join_strings(&sorted, ", ");
    proof {
        assert(sorted@.map_values(|p: String| p@) == views(sorted@));
    }
    let mut m = String::from_str("Varias variantes de '");
    m.append(g.as_str());
    m.append("' activadas a la vez: ");
    m.append(joined.as_str());
    m.append(".");
    m
}

/// Checks the enabled mods for variant/conflict violations. `all_folders` are
/// every known mod folder with its manifest (`None` when it has none or it
/// could not be read), used to resolve references by `author:slug` id;
/// `enabled` are the folders enabled in the profile, with their manifests.
pub fn check(all_folders: &Vec<String>, all_metas: &Vec<Option<ModMeta>>, enabled: &Vec<String>, enabled_metas: &Vec<Option<ModMeta>>) -> (out: Vec<Violation>)
    requires
        all_folders.len() == all_metas.len(),
        enabled.len() == enabled_metas.len(),
    ensures
        out@.map_values(|v: Violation| violation_view(v)) == check_spec(all_folders@, all_metas@, enabled@, enabled_metas@),
{
    let pairs = collect_pairs(all_folders, all_metas, enabled, enabled_metas);
    let unique = dedup_pairs(&pairs);
    let mut out: Vec<Violation> = Vec::new();
    let ghost up = pair_views(unique@);
    let mut i: usize = 0;
    while i < unique.len()
        invariant
            i <= unique.len(),
            up == pair_views(unique@),
            out@.map_values(|v: Violation| violation_view(v))
                == up.take(i as int).map_values(|p: (Seq<char>, Seq<char>)| (Kind::Conflict, conflict_msg(p))),
        decreases unique.len() - i,
    {
        let m = conflict_message(&unique[i]);
        let ghost prev = out@.map_values(|v: Violation| violation_view(v));
        let ghost mv = m@;
        out.push(Violation { kind: Kind::Conflict, message: m });
        proof {
            assert(up[i as int] == (unique@[i as int].0@, unique@[i as int].1@));
            assert(out@.map_values(|v: Violation| violation_view(v)) =~= prev.push((Kind::Conflict, mv)));
            assert(up.take(i + 1) =~= up.take(i as int).push(up[i as int]));
            assert(out@.map_values(|v: Violation| violation_view(v))
                =~= up.take(i + 1).map_values(|p: (Seq<char>, Seq<char>)| (Kind::Conflict, conflict_msg(p))));
        }
        i = i + 1;
    }
    proof {
        assert(up.take(unique.len() as int) =~= up);
    }
    let ghost first = out@.map_values(|v: Violation| violation_view(v));
    let fams = family_list(enabled_metas);
    let ghost fv = views(fams@);
    let mut k: usize = 0;
    proof {
        assert(first + variant_msgs(fv.take(0), enabled@, enabled_metas@).map_values(|m: Seq<char>| (Kind::Variant, m)) =~= first);
    }
    while k < fams.len()
        invariant
            k <= fams.len(),
            enabled.len() == enabled_metas.len(),
            fv == views(fams@),
            out@.map_values(|v: Violation| violation_view(v))
                == first + variant_msgs(fv.take(k as int), enabled@, enabled_metas@).map_values(|m: Seq<char>| (Kind::Variant, m)),
        decreases fams.len() - k,
    {
        proof {
            assert(fv.take(k + 1).drop_last() =~= fv.take(k as int));
            assert(fv.take(k + 1).last() == fams@[k as int]@);
        }
        let ms = members(enabled, enabled_metas, &fams[k]);
        if ms.len() > 1 {
            let msg = variant_message(&fams[k], ms);
            let ghost prev = out@.map_values(|v: Violation| violation_view(v));
            out.push(Violation { kind: Kind::Variant, message: msg });
            proof {
                assert(out@.map_values(|v: Violation| violation_view(v)) =~= prev.push((Kind::Variant, msg@)));
            }
        }
        proof {
            assert(out@.map_values(|v: Violation| violation_view(v))
                =~= first + variant_msgs(fv.take(k + 1), enabled@, enabled_metas@).map_values(|m: Seq<char>| (Kind::Variant, m)));
        }
        k = k + 1;
    }
    proof {
        assert(fv.take(fams.len() as int) =~= fv);
    }
    out
}

/// Deduplicating leaves each element once and loses none.
pub proof fn lemma_dedup<A>(s: Seq<A>)
    ensures
        dedup(s).no_duplicates(),
        forall|x: A| s.contains(x) <==> dedup(s).contains(x),
    decreases s.len(),
{
    if s.len() > 0 {
        lemma_dedup(s.drop_last());
        let r = dedup(s.drop_last());
        assert forall|x: A| s.contains(x) <==> dedup(s).contains(x) by {
            if r.contains(s.last()) {
                assert(dedup(s) == r);
            } else {
                assert(dedup(s) == r.push(s.last()));
            }
            if s.contains(x) {
                let k = choose|k: int| 0 <= k < s.len() && s[k] == x;
                if k < s.len() - 1 {
                    assert(s.drop_last()[k] == x);
                    assert(s.drop_last().contains(x));
                    assert(r.contains(x));
                    let i = choose|i: int| 0 <= i < r.len() && r[i] == x;
                    assert(dedup(s)[i] == x);
                } else if !r.contains(s.last()) {
                    assert(dedup(s)[r.len() as int] == x);
                } else {
                    assert(x == s.last());
                }
            }
            if dedup(s).contains(x) {
                let k = choose|k: int| 0 <= k < dedup(s).len() && dedup(s)[k] == x;
                if r.contains(s.last()) {
                    assert(dedup(s) == r);
                } else {
                    assert(dedup(s) == r.push(s.last()));
                }
                if k < r.len() {
                    assert(r[k] == x);
                    assert(r.contains(x));
                    assert(s.drop_last().contains(x));
                    let j = choose|j: int| 0 <= j < s.drop_last().len() && s.drop_last()[j] == x;
                    assert(s.drop_last()[j] == s[j]);
                } else {
                    assert(s[s.len() - 1] == x);
                }
            }
        }
        if !r.contains(s.last()) {
            let v = r.push(s.last());
            assert forall|i: int, j: int| 0 <= i < v.len() && 0 <= j < v.len() && i != j implies v[i] != v[j] by {
                if i == r.len() as int {
                    assert(r[j] == v[j]);
                } else if j == r.len() as int {
                    assert(r[i] == v[i]);
                }
            }
        }
    }
}

/// Reference `r` of `folder` names an enabled mod `t` other than `folder`,
/// and `p` is the pair of the two.
pub open spec fn ref_hit(folder: Seq<char>, r: String, all: Seq<String>, metas: Seq<Option<ModMeta>>, enabled: Seq<String>, p: (Seq<char>, Seq<char>)) -> bool {
    match target_of(all, metas, r@) {
        Some(t) => t != folder && views(enabled).contains(t) && p == ordered_pair(folder, t),
        None => false,
    }
}

/// The enabled mod with this folder and manifest declares a conflict whose
/// pair is `p`.
pub open spec fn mod_hit(folder: Seq<char>, meta: Option<ModMeta>, all: Seq<String>, metas: Seq<Option<ModMeta>>, enabled: Seq<String>, p: (Seq<char>, Seq<char>)) -> bool {
    match meta {
        Some(m) => exists|k: int| 0 <= k < m.conflicts.len() && #[trigger] ref_hit(folder, m.conflicts@[k], all, metas, enabled, p),
        None => false,
    }
}

proof fn lemma_ref_pairs(folder: Seq<char>, refs: Seq<String>, all: Seq<String>, metas: Seq<Option<ModMeta>>, enabled: Seq<String>, p: (Seq<char>, Seq<char>))
    ensures
        ref_pairs(folder, refs, all, metas, enabled).contains(p)
            <==> exists|k: int| 0 <= k < refs.len() && #[trigger] ref_hit(folder, refs[k], all, metas, enabled, p),
    decreases refs.len(),
{
    if refs.len() > 0 {
        let d = refs.drop_last();
        lemma_ref_pairs(folder, d, all, metas, enabled, p);
        let rest = ref_pairs(folder, d, all, metas, enabled);
        let out = ref_pairs(folder, refs, all, metas, enabled);
        if out.contains(p) {
            if rest.contains(p) {
                let k = choose|k: int| 0 <= k < d.len() && #[trigger] ref_hit(folder, d[k], all, metas, enabled, p);
                assert(refs[k] == d[k]);
            } else {
                let j = choose|j: int| 0 <= j < out.len() && out[j] == p;
                assert(j == rest.len());
                assert(ref_hit(folder, refs[refs.len() - 1], all, metas, enabled, p));
            }
        }
        if exists|k: int| 0 <= k < refs.len() && #[trigger] ref_hit(folder, refs[k], all, metas, enabled, p) {
            let k = choose|k: int| 0 <= k < refs.len() && #[trigger] ref_hit(folder, refs[k], all, metas, enabled, p);
            if k < d.len() {
                assert(d[k] == refs[k]);
                let j = choose|j: int| 0 <= j < rest.len() && rest[j] == p;
                assert(out[j] == p);
            } else {
                assert(out[rest.len() as int] == p);
            }
        }
    }
}

proof fn lemma_all_pairs(en: Seq<String>, emetas: Seq<Option<ModMeta>>, all: Seq<String>, metas: Seq<Option<ModMeta>>, enabled: Seq<String>, p: (Seq<char>, Seq<char>))
    requires
        en.len() == emetas.len(),
    ensures
        all_pairs(en, emetas, all, metas, enabled).contains(p)
            <==> exists|i: int| 0 <= i < en.len() && #[trigger] mod_hit(en[i]@, emetas[i], all, metas, enabled, p),
    decreases en.len(),
{
    if en.len() > 0 {
        let de = en.drop_last();
        let dm = emetas.drop_last();
        lemma_all_pairs(de, dm, all, metas, enabled, p);
        let rest = all_pairs(de, dm, all, metas, enabled);
        let out = all_pairs(en, emetas, all, metas, enabled);
        let last = en.len() - 1;
        match emetas.last() {
            Some(m) => {
                lemma_ref_pairs(en.last()@, m.conflicts@, all, metas, enabled, p);
                let tail = ref_pairs(en.last()@, m.conflicts@, all, metas, enabled);
                assert(out == rest + tail);
                if out.contains(p) {
                    let j = choose|j: int| 0 <= j < out.len() && out[j] == p;
                    if j < rest.len() {
                        assert(rest[j] == p);
                        let i = choose|i: int| 0 <= i < de.len() && #[trigger] mod_hit(de[i]@, dm[i], all, metas, enabled, p);
                        assert(en[i] == de[i] && emetas[i] == dm[i]);
                    } else {
                        assert(tail[j - rest.len()] == p);
                        assert(mod_hit(en[last]@, emetas[last], all, metas, enabled, p));
                    }
                }
                if exists|i: int| 0 <= i < en.len() && #[trigger] mod_hit(en[i]@, emetas[i], all, metas, enabled, p) {
                    let i = choose|i: int| 0 <= i < en.len() && #[trigger] mod_hit(en[i]@, emetas[i], all, metas, enabled, p);
                    if i < de.len() {
                        assert(en[i] == de[i] && emetas[i] == dm[i]);
                        let j = choose|j: int| 0 <= j < rest.len() && rest[j] == p;
                        assert(out[j] == p);
                    } else {
                        let j = choose|j: int| 0 <= j < tail.len() && tail[j] == p;
                        assert(out[rest.len() + j] == p);
                    }
                }
            },
            None => {
                if exists|i: int| 0 <= i < en.len() && #[trigger] mod_hit(en[i]@, emetas[i], all, metas, enabled, p) {
                    let i = choose|i: int| 0 <= i < en.len() && #[trigger] mod_hit(en[i]@, emetas[i], all, metas, enabled, p);
                    if i < de.len() {
                        assert(en[i] == de[i] && emetas[i] == dm[i]);
                    }
                }
                if out.contains(p) {
                    let i = choose|i: int| 0 <= i < de.len() && #[trigger] mod_hit(de[i]@, dm[i], all, metas, enabled, p);
                    assert(en[i] == de[i] && emetas[i] == dm[i]);
                }
            },
        }
    }
}

/// The conflict reports correspond one to one with the incompatible pairs:
/// each pair of enabled mods of which one declares a conflict with the other
/// (found by folder or by stable id) is reported once, and nothing else is.
pub proof fn lemma_conflicts_one_to_one(all: Seq<String>, metas: Seq<Option<ModMeta>>, enabled: Seq<String>, emetas: Seq<Option<ModMeta>>, p: (Seq<char>, Seq<char>))
    requires
        enabled.len() == emetas.len(),
    ensures
        dedup(all_pairs(enabled, emetas, all, metas, enabled)).no_duplicates(),
        dedup(all_pairs(enabled, emetas, all, metas, enabled)).contains(p)
            <==> exists|i: int| 0 <= i < enabled.len() && #[trigger] mod_hit(enabled[i]@, emetas[i], all, metas, enabled, p),
{
    lemma_dedup(all_pairs(enabled, emetas, all, metas, enabled));
    lemma_all_pairs(enabled, emetas, all, metas, enabled, p);
}

/// The families among `fams` with two or more enabled members, in order.
pub open spec fn crowded(fams: Seq<Seq<char>>, en: Seq<String>, emetas: Seq<Option<ModMeta>>) -> Seq<Seq<char>>
    decreases fams.len(),
{
    if fams.len() == 0 {
        Seq::empty()
    } else {
        let rest = crowded(fams.drop_last(), en, emetas);
        if members_of(en, emetas, fams.last()).len() > 1 { rest.push(fams.last()) } else { rest }
    }
}

proof fn lemma_families(emetas: Seq<Option<ModMeta>>, g: Seq<char>)
    ensures
        families(emetas).no_duplicates(),
        families(emetas).contains(g) <==> exists|i: int| 0 <= i < emetas.len() && family_of(#[trigger] emetas[i]) == Some(g),
    decreases emetas.len(),
{
    if emetas.len() > 0 {
        let d = emetas.drop_last();
        lemma_families(d, g);
        let rest = families(d);
        let f = families(emetas);
        match family_of(emetas.last()) {
            Some(h) => {
                if !rest.contains(h) {
                    assert forall|i: int, j: int| 0 <= i < f.len() && 0 <= j < f.len() && i != j implies f[i] != f[j] by {
                        if i < rest.len() && j < rest.len() {
                        } else if i < rest.len() {
                            assert(f[j] == h && f[i] == rest[i]);
                        } else {
                            assert(f[i] == h && f[j] == rest[j]);
                        }
                    }
                    if f.contains(g) && !rest.contains(g) {
                        let k = choose|k: int| 0 <= k < f.len() && f[k] == g;
                        if k < rest.len() {
                            assert(rest[k] == g);
                        }
                    }
                    if rest.contains(g) {
                        let k = choose|k: int| 0 <= k < rest.len() && rest[k] == g;
                        assert(f[k] == g);
                    }
                    if h == g {
                        assert(f[f.len() - 1] == g);
                    }
                }
            },
            None => {},
        }
        if exists|i: int| 0 <= i < emetas.len() && family_of(#[trigger] emetas[i]) == Some(g) {
            let i = choose|i: int| 0 <= i < emetas.len() && family_of(#[trigger] emetas[i]) == Some(g);
            if i < d.len() {
                assert(d[i] == emetas[i]);
            } else {
                assert(emetas[i] == emetas.last());
            }
        }
        if exists|i: int| 0 <= i < d.len() && family_of(#[trigger] d[i]) == Some(g) {
            let i = choose|i: int| 0 <= i < d.len() && family_of(#[trigger] d[i]) == Some(g);
            assert(d[i] == emetas[i]);
        }
    }
}

proof fn lemma_members_family(en: Seq<String>, emetas: Seq<Option<ModMeta>>, g: Seq<char>)
    requires
        members_of(en, emetas, g).len() > 0,
    ensures
        exists|i: int| 0 <= i < emetas.len() && family_of(#[trigger] emetas[i]) == Some(g),
    decreases en.len(),
{
    let d = emetas.drop_last();
    if family_of(emetas.last()) == Some(g) {
        assert(emetas[emetas.len() - 1] == emetas.last());
    } else {
        lemma_members_family(en.drop_last(), d, g);
        let i = choose|i: int| 0 <= i < d.len() && family_of(#[trigger] d[i]) == Some(g);
        assert(d[i] == emetas[i]);
    }
}

proof fn lemma_crowded(fams: Seq<Seq<char>>, en: Seq<String>, emetas: Seq<Option<ModMeta>>, g: Seq<char>)
    ensures
        variant_msgs(fams, en, emetas) == crowded(fams, en, emetas).map_values(|f: Seq<char>| variant_msg(f, members_of(en, emetas, f))),
        fams.no_duplicates() ==> crowded(fams, en, emetas).no_duplicates(),
        crowded(fams, en, emetas).contains(g) <==> fams.contains(g) && members_of(en, emetas, g).len() > 1,
    decreases fams.len(),
{
    if fams.len() > 0 {
        let d = fams.drop_last();
        let x = fams.last();
        lemma_crowded(d, en, emetas, g);
        let rest = crowded(d, en, emetas);
        let c = crowded(fams, en, emetas);
        assert(fams =~= d.push(x));
        if fams.no_duplicates() {
            assert(d.no_duplicates()) by {
                assert forall|i: int, j: int| 0 <= i < d.len() && 0 <= j < d.len() && i != j implies d[i] != d[j] by {
                    assert(d[i] == fams[i] && d[j] == fams[j]);
                }
            }
            lemma_crowded(d, en, emetas, x);
            assert(!d.contains(x)) by {
                if d.contains(x) {
                    let k = choose|k: int| 0 <= k < d.len() && d[k] == x;
                    assert(fams[k] == fams[fams.len() - 1]);
                }
            }
            if members_of(en, emetas, x).len() > 1 {
                assert forall|i: int, j: int| 0 <= i < c.len() && 0 <= j < c.len() && i != j implies c[i] != c[j] by {
                    if i < rest.len() && j < rest.len() {
                    } else if i < rest.len() {
                        assert(c[i] == rest[i] && c[j] == x);
                    } else {
                        assert(c[j] == rest[j] && c[i] == x);
                    }
                }
            }
        }
        if members_of(en, emetas, x).len() > 1 {
            assert(c.map_values(|f: Seq<char>| variant_msg(f, members_of(en, emetas, f)))
                =~= rest.map_values(|f: Seq<char>| variant_msg(f, members_of(en, emetas, f))).push(variant_msg(x, members_of(en, emetas, x))));
            if c.contains(g) {
                let k = choose|k: int| 0 <= k < c.len() && c[k] == g;
                if k < rest.len() {
                    assert(rest[k] == g);
                } else {
                    assert(fams[fams.len() - 1] == g);
                }
            }
            if fams.contains(g) && members_of(en, emetas, g).len() > 1 {
                if g == x {
                    assert(c[c.len() - 1] == g);
                } else {
                    let k = choose|k: int| 0 <= k < fams.len() && fams[k] == g;
                    assert(d[k] == g);
                    let t = choose|t: int| 0 <= t < rest.len() && rest[t] == g;
                    assert(c[t] == g);
                }
            }
        } else {
            if c.contains(g) {
                let k = choose|k: int| 0 <= k < rest.len() && rest[k] == g;
                let t = choose|t: int| 0 <= t < d.len() && d[t] == g;
                assert(fams[t] == g);
            }
            if fams.contains(g) && members_of(en, emetas, g).len() > 1 {
                let k = choose|k: int| 0 <= k < fams.len() && fams[k] == g;
                assert(k < d.len());
                assert(d[k] == g);
            }
        }
    }
}

/// The variant reports correspond one to one with the variant families that
/// have two or more enabled members: one message per such family, naming
/// its enabled members (sorted), each family once, in order of its first
/// enabled member, and nothing else.
pub proof fn lemma_variants_one_to_one(enabled: Seq<String>, emetas: Seq<Option<ModMeta>>, g: Seq<char>)
    requires
        enabled.len() == emetas.len(),
    ensures
        variant_msgs(families(emetas), enabled, emetas)
            == crowded(families(emetas), enabled, emetas).map_values(|f: Seq<char>| variant_msg(f, members_of(enabled, emetas, f))),
        crowded(families(emetas), enabled, emetas).no_duplicates(),
        crowded(families(emetas), enabled, emetas).contains(g) <==> members_of(enabled, emetas, g).len() >= 2,
{
    lemma_families(emetas, g);
    lemma_crowded(families(emetas), enabled, emetas, g);
    if members_of(enabled, emetas, g).len() >= 2 {
        lemma_members_family(enabled, emetas, g);
    }
}

} // verus!
