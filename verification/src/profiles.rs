use vstd::prelude::*;
use crate::constraints::views;
use crate::db::{is_unique_slug, unique_slug, ModEntry, Profile};
use crate::text::{trim, trim_seq};
use crate::order::{keyed_view, sort_keyed, stable_sort};

verus! {

/// How two profiles differ: the mods enabled only in one of them, and the
/// mods enabled in both at a different place, each list by folder name.
pub struct ProfileDiff {
    pub only_in_a: Vec<String>,
    pub only_in_b: Vec<String>,
    /// `(folder, (order in a, order in b))`.
    pub order: Vec<(String, (i64, i64))>,
}

/// The entry of mod `id` in a profile (the last one listed with that key).
pub open spec fn entry_with(ms: Seq<ModEntry>, id: i64) -> Option<ModEntry>
    decreases ms.len(),
{
    if ms.len() == 0 {
        None
    } else if ms.last().id == id {
        Some(ms.last())
    } else {
        entry_with(ms.drop_last(), id)
    }
}

/// Mod `id` is enabled in the profile.
pub open spec fn enabled_in(ms: Seq<ModEntry>, id: i64) -> bool {
    entry_with(ms, id) matches Some(e) && e.enabled
}

/// The folders of the mods enabled in `a` but not in `b`, in `a`'s order.
pub open spec fn only_in(a: Seq<ModEntry>, b: Seq<ModEntry>) -> Seq<(Seq<char>, ())>
    decreases a.len(),
{
    if a.len() == 0 {
        Seq::empty()
    } else {
        let rest = only_in(a.drop_last(), b);
        let m = a.last();
        if m.enabled && !enabled_in(b, m.id) { rest.push((m.folder_name@, ())) } else { rest }
    }
}

/// The mods enabled in both at different places: folder and both orders.
pub open spec fn moved(a: Seq<ModEntry>, b: Seq<ModEntry>) -> Seq<(Seq<char>, (i64, i64))>
    decreases a.len(),
{
    if a.len() == 0 {
        Seq::empty()
    } else {
        let rest = moved(a.drop_last(), b);
        let m = a.last();
        match entry_with(b, m.id) {
            Some(e) => if m.enabled && e.enabled && e.load_order != m.load_order {
                rest.push((m.folder_name@, (m.load_order, e.load_order)))
            } else {
                rest
            },
            None => rest,
        }
    }
}

/// The keys of some keyed items.
pub open spec fn keys<T>(s: Seq<(Seq<char>, T)>) -> Seq<Seq<char>> {
    s.map_values(|p: (Seq<char>, T)| p.0)
}

fn find_entry(ms: &Vec<ModEntry>, id: i64) -> (r: Option<&ModEntry>)
    ensures
        match r {
            Some(e) => entry_with(ms@, id) == Some(*e),
            None => entry_with(ms@, id) is None,
        },
{
    let mut k: usize = ms.len();
    proof {
        assert(ms@.take(ms.len() as int) =~= ms@);
    }
    while k > 0
        invariant
            k <= ms.len(),
            entry_with(ms@, id) == entry_with(ms@.take(k as int), id),
        decreases k,
    {
        proof {
            assert(ms@.take(k as int).drop_last() =~= ms@.take(k - 1));
            assert(ms@.take(k as int).last() == ms@[k - 1]);
        }
        if ms[k - 1].id == id {
            return Some(&ms[k - 1]);
        }
        k = k - 1;
    }
    None
}

fn collect_only(a: &Vec<ModEntry>, b: &Vec<ModEntry>) -> (out: Vec<(String, ())>)
    ensures
        keyed_view(out@) == only_in(a@, b@),
{
    let mut out: Vec<(String, ())> = Vec::new();
    let mut i: usize = 0;
    while i < a.len()
        invariant
            i <= a.len(),
            keyed_view(out@) == only_in(a@.take(i as int), b@),
        decreases a.len() - i,
    {
        proof {
            assert(a@.take(i + 1).drop_last() =~= a@.take(i as int));
            assert(a@.take(i + 1).last() == a@[i as int]);
        }
        let m = &a[i];
        let other = match find_entry(b, m.id) {
            Some(e) => e.enabled,
            None => false,
        };
        if m.enabled && !other {
            let ghost prev = keyed_view(out@);
            out.push((m.folder_name.clone(), ()));
            assert(keyed_view(out@) =~= prev.push((m.folder_name@, ())));
        }
        i = i + 1;
    }
    proof {
        assert(a@.take(a.len() as int) =~= a@);
    }
    out
}

fn collect_moved(a: &Vec<ModEntry>, b: &Vec<ModEntry>) -> (out: Vec<(String, (i64, i64))>)
    ensures
        keyed_view(out@) == moved(a@, b@),
{
    let mut out: Vec<(String, (i64, i64))> = Vec::new();
    let mut i: usize = 0;
    while i < a.len()
        invariant
            i <= a.len(),
            keyed_view(out@) == moved(a@.take(i as int), b@),
        decreases a.len() - i,
    {
        proof {
            assert(a@.take(i + 1).drop_last() =~= a@.take(i as int));
            assert(a@.take(i + 1).last() == a@[i as int]);
        }
        let m = &a[i];
        match find_entry(b, m.id) {
            Some(e) => {
                if m.enabled && e.enabled && e.load_order != m.load_order {
                    let ghost prev = keyed_view(out@);
                    out.push((m.folder_name.clone(), (m.load_order, e.load_order)));
                    assert(keyed_view(out@) =~= prev.push((m.folder_name@, (m.load_order, e.load_order))));
                }
            },
            None => {},
        }
        i = i + 1;
    }
    proof {
        assert(a@.take(a.len() as int) =~= a@);
    }
    out
}

fn key_list(v: Vec<(String, ())>) -> (out: Vec<String>)
    ensures
        views(out@) == keys(keyed_view(v@)),
{
    let mut out: Vec<String> = Vec::new();
    let mut i: usize = 0;
    while i < v.len()
        invariant
            i <= v.len(),
            views(out@) == keys(keyed_view(v@.take(i as int))),
        decreases v.len() - i,
    {
        out.push(v[i].0.clone());
        proof {
            assert(keys(keyed_view(v@.take(i + 1))) =~= keys(keyed_view(v@.take(i as int))).push(v@[i as int].0@));
            assert(views(out@) =~= keys(keyed_view(v@.take(i + 1))));
        }
        i = i + 1;
    }
    proof {
        assert(v@.take(v.len() as int) =~= v@);
    }
    out
}

/// Compares the mods of profile `a` with those of profile `b` (each mod
/// listed once per profile): the folders enabled only in `a`, those enabled
/// only in `b`, and the mods enabled in both whose order differs, each list
/// sorted by folder name.
pub fn profile_diff(a: &Vec<ModEntry>, b: &Vec<ModEntry>) -> (d: ProfileDiff)
    ensures
        views(d.only_in_a@) == keys(stable_sort(only_in(a@, b@), false)),
        views(d.only_in_b@) == keys(stable_sort(only_in(b@, a@), false)),
        keyed_view(d.order@) == stable_sort(moved(a@, b@), false),
{
    let only_a = sort_keyed(collect_only(a, b), false);
    let only_b = sort_keyed(collect_only(b, a), false);
    let order = sort_keyed(collect_moved(a, b), false);
    ProfileDiff { only_in_a: key_list(only_a), only_in_b: key_list(only_b), order }
}

/// Each mod is listed once.
pub open spec fn keys_unique(ms: Seq<ModEntry>) -> bool {
    forall|i: int, j: int| 0 <= i < j < ms.len() ==> (#[trigger] ms[i]).id != (#[trigger] ms[j]).id
}

proof fn lemma_entry_with_self(ms: Seq<ModEntry>, k: int)
    requires
        keys_unique(ms),
        0 <= k < ms.len(),
    ensures
        entry_with(ms, ms[k].id) == Some(ms[k]),
    decreases ms.len(),
{
    if k < ms.len() - 1 {
        let d = ms.drop_last();
        assert(d[k] == ms[k]);
        assert(ms.last() == ms[ms.len() - 1]);
        lemma_entry_with_self(d, k);
    }
}

proof fn lemma_no_self_diff(a: Seq<ModEntry>, n: int)
    requires
        keys_unique(a),
        0 <= n <= a.len(),
    ensures
        only_in(a.take(n), a).len() == 0,
        moved(a.take(n), a).len() == 0,
    decreases n,
{
    if n > 0 {
        lemma_no_self_diff(a, n - 1);
        assert(a.take(n).drop_last() =~= a.take(n - 1));
        assert(a.take(n).last() == a[n - 1]);
        lemma_entry_with_self(a, n - 1);
    }
}

/// A profile compared with itself shows no difference.
pub proof fn lemma_diff_with_itself(a: Seq<ModEntry>)
    requires
        keys_unique(a),
    ensures
        stable_sort(only_in(a, a), false).len() == 0,
        stable_sort(moved(a, a), false).len() == 0,
{
    lemma_no_self_diff(a, a.len() as int);
    assert(a.take(a.len() as int) =~= a);
    crate::order::lemma_stable_sort_sorted(only_in(a, a), false);
    crate::order::lemma_stable_sort_sorted(moved(a, a), false);
}

/// `El nombre del perfil no puede estar vacío.`
pub open spec fn empty_name_msg() -> Seq<char> {
    "El nombre del perfil no puede estar vac\u{ed}o."@
}

/// A profile about to be created or copied: its name and slug.
pub struct NewProfile {
    pub name: String,
    pub slug: String,
}

/// The name and slug of a new profile: the name without surrounding
/// whitespace, and a slug of the name unique among the `taken` slugs; an
/// empty name is refused.
pub fn new_profile(name: &str, taken: &Vec<String>) -> (r: Result<NewProfile, String>)
    ensures
        match r {
            Ok(p) => trim_seq(name@).len() > 0 && p.name@ == trim_seq(name@)
                && is_unique_slug(p.slug@, name@, seq!['p'], taken@),
            Err(m) => trim_seq(name@).len() == 0 && m@ == empty_name_msg(),
        },
{
    let t = trim(name);
    if t.unicode_len() == 0 {
        return Err("El nombre del perfil no puede estar vac\u{ed}o.".to_owned());
    }
    let slug = unique_slug(name, taken);
    Ok(NewProfile { name: t.to_owned(), slug })
}

/// The state a new profile gives the registered mods (by id, in id order):
/// all disabled, with priorities 10, 20, 30...
pub fn initial_load_orders(mod_ids: &Vec<i64>) -> (out: Vec<(i64, i64)>)
    requires
        mod_ids.len() * 10 <= i64::MAX,
    ensures
        out.len() == mod_ids.len(),
        forall|i: int| 0 <= i < out.len() ==> #[trigger] out@[i] == (mod_ids@[i], ((i + 1) * 10) as i64),
{
    let mut out: Vec<(i64, i64)> = Vec::new();
    let mut i: usize = 0;
    while i < mod_ids.len()
        invariant
            i <= mod_ids.len(),
            mod_ids.len() * 10 <= i64::MAX,
            out.len() == i,
            forall|k: int| 0 <= k < i ==> #[trigger] out@[k] == (mod_ids@[k], ((k + 1) * 10) as i64),
        decreases mod_ids.len() - i,
    {
        assert((i + 1) * 10 <= mod_ids.len() * 10) by (nonlinear_arith)
            requires i + 1 <= mod_ids.len();
        let o = ((i + 1) as i64) * 10;
        out.push((mod_ids[i], o));
        i = i + 1;
    }
    out
}

/// `No se puede eliminar el último perfil.`
pub open spec fn last_profile_msg() -> Seq<char> {
    "No se puede eliminar el \u{fa}ltimo perfil."@
}

/// A profile can be deleted only while another one remains.
pub fn delete_profile_check(count: usize) -> (r: Result<(), String>)
    ensures
        match r {
            Ok(()) => count > 1,
            Err(m) => count <= 1 && m@ == last_profile_msg(),
        },
{
    if count <= 1 {
        Err("No se puede eliminar el \u{fa}ltimo perfil.".to_owned())
    } else {
        Ok(())
    }
}

/// A profile's rename: its new name, and its slug before and after.
pub struct ProfileRename {
    pub name: String,
    pub old_slug: String,
    pub new_slug: String,
}

/// The slugs of every profile but `p`.
pub open spec fn other_slugs(all: Seq<Profile>, id: i64) -> Seq<String>
    decreases all.len(),
{
    if all.len() == 0 {
        Seq::empty()
    } else {
        other_slugs(all.drop_last(), id) + if all.last().id == id { Seq::empty() } else { seq![all.last().slug] }
    }
}

/// Renames profile `p` among `all`: the new name trimmed (an empty one is
/// refused) and a slug of it unique among the other profiles' slugs (so a
/// name whose slug does not change keeps it).
pub fn rename_profile_plan(p: &Profile, new_name: &str, all: &Vec<Profile>) -> (r: Result<ProfileRename, String>)
    ensures
        match r {
            Ok(x) => trim_seq(new_name@).len() > 0 && x.name@ == trim_seq(new_name@)
                && x.old_slug@ == p.slug@
                && is_unique_slug(x.new_slug@, new_name@, seq!['p'], other_slugs(all@, p.id)),
            Err(m) => trim_seq(new_name@).len() == 0 && m@ == empty_name_msg(),
        },
{
    let mut others: Vec<String> = Vec::new();
    let mut i: usize = 0;
    while i < all.len()
        invariant
            i <= all.len(),
            others@ == other_slugs(all@.take(i as int), p.id),
        decreases all.len() - i,
    {
        assert(all@.take(i + 1).drop_last() =~= all@.take(i as int));
        if all[i].id != p.id {
            others.push(all[i].slug.clone());
        }
        assert(others@ =~= other_slugs(all@.take(i + 1), p.id));
        i = i + 1;
    }
    assert(all@.take(all.len() as int) =~= all@);
    match new_profile(new_name, &others) {
        Ok(np) => Ok(ProfileRename { name: np.name, old_slug: p.slug.clone(), new_slug: np.slug }),
        Err(m) => Err(m),
    }
}

/// What happens to a renamed profile's runtime directory.
#[derive(Debug, Clone, Copy, PartialEq, Eq, Structural)]
pub enum DirMove {
    /// The slug did not change, or there is no directory to move.
    Keep,
    /// A directory with the new slug is already there: nothing is moved.
    Blocked,
    /// The directory moves to the new slug.
    Move,
}

/// Whether `run/profiles/<old>` moves to `run/profiles/<new>`, given which
/// of the two exist.
pub fn dir_move(old_slug: &str, new_slug: &str, new_exists: bool, old_exists: bool) -> (m: DirMove)
    ensures
        m == (if old_slug@ == new_slug@ {
            DirMove::Keep
        } else if new_exists {
            DirMove::Blocked
        } else if old_exists {
            DirMove::Move
        } else {
            DirMove::Keep
        }),
{
    if crate::meta::str_is(old_slug, new_slug) {
        DirMove::Keep
    } else if new_exists {
        DirMove::Blocked
    } else if old_exists {
        DirMove::Move
    } else {
        DirMove::Keep
    }
}

/// The reorder entry `e` is that of a mod of `a` enabled there and in `b`,
/// with its place in `a`, then its place in `b`, the two differing.
pub open spec fn reordered_in_both(a: Seq<ModEntry>, b: Seq<ModEntry>, e: (Seq<char>, (i64, i64))) -> bool {
    exists|k: int| 0 <= k < a.len() && #[trigger] a[k].folder_name@ == e.0 && a[k].enabled
        && enabled_in(b, a[k].id) && e.1.0 == a[k].load_order
        && entry_with(b, a[k].id).unwrap().load_order == e.1.1 && e.1.0 != e.1.1
}

/// The entry `x` is the folder of a mod of `a` enabled there and not in `b`.
pub open spec fn enabled_only_in(a: Seq<ModEntry>, b: Seq<ModEntry>, x: Seq<char>) -> bool {
    exists|k: int| 0 <= k < a.len() && #[trigger] a[k].folder_name@ == x && a[k].enabled && !enabled_in(b, a[k].id)
}

proof fn lemma_moved_items(a: Seq<ModEntry>, b: Seq<ModEntry>, e: (Seq<char>, (i64, i64)))
    ensures
        moved(a, b).contains(e) ==> reordered_in_both(a, b, e),
    decreases a.len(),
{
    if a.len() > 0 {
        let d = a.drop_last();
        lemma_moved_items(d, b, e);
        let r = moved(d, b);
        if moved(a, b).contains(e) {
            let j = choose|j: int| 0 <= j < moved(a, b).len() && moved(a, b)[j] == e;
            if j < r.len() && moved(a, b)[j] == r[j] {
                assert(r.contains(e));
                let k = choose|k: int| 0 <= k < d.len() && #[trigger] d[k].folder_name@ == e.0 && d[k].enabled
                    && enabled_in(b, d[k].id) && e.1.0 == d[k].load_order
                    && entry_with(b, d[k].id).unwrap().load_order == e.1.1 && e.1.0 != e.1.1;
                assert(a[k] == d[k]);
            } else {
                assert(a[a.len() - 1] == a.last());
            }
        }
    }
}

proof fn lemma_only_items(a: Seq<ModEntry>, b: Seq<ModEntry>, x: (Seq<char>, ()))
    ensures
        only_in(a, b).contains(x) ==> enabled_only_in(a, b, x.0),
    decreases a.len(),
{
    if a.len() > 0 {
        let d = a.drop_last();
        lemma_only_items(d, b, x);
        let r = only_in(d, b);
        if only_in(a, b).contains(x) {
            let j = choose|j: int| 0 <= j < only_in(a, b).len() && only_in(a, b)[j] == x;
            if j < r.len() && only_in(a, b)[j] == r[j] {
                assert(r.contains(x));
                let k = choose|k: int| 0 <= k < d.len() && #[trigger] d[k].folder_name@ == x.0 && d[k].enabled && !enabled_in(b, d[k].id);
                assert(a[k] == d[k]);
            } else {
                assert(a[a.len() - 1] == a.last());
            }
        }
    }
}

/// What the profile comparison lists as reordered: every entry is a mod of
/// `a` enabled in both profiles, with its place in `a` and its place in
/// `b`, which differ. When no two mods of `a` share a folder, no folder is
/// both listed as enabled only in `a` and as reordered.
pub proof fn lemma_diff_order_enabled_in_both(a: Seq<ModEntry>, b: Seq<ModEntry>)
    ensures
        forall|i: int| 0 <= i < stable_sort(moved(a, b), false).len()
            ==> reordered_in_both(a, b, #[trigger] stable_sort(moved(a, b), false)[i]),
        (forall|k1: int, k2: int| 0 <= k1 < a.len() && 0 <= k2 < a.len()
            && (#[trigger] a[k1]).folder_name@ == (#[trigger] a[k2]).folder_name@ ==> k1 == k2)
            ==> forall|i: int, j: int| 0 <= i < stable_sort(only_in(a, b), false).len()
                && 0 <= j < stable_sort(moved(a, b), false).len()
                ==> (#[trigger] stable_sort(only_in(a, b), false)[i]).0 != (#[trigger] stable_sort(moved(a, b), false)[j]).0,
{
    broadcast use vstd::seq_lib::group_to_multiset_ensures;
    let o = stable_sort(moved(a, b), false);
    let q = stable_sort(only_in(a, b), false);
    crate::order::lemma_stable_sort_perm(moved(a, b), false);
    crate::order::lemma_stable_sort_perm(only_in(a, b), false);
    assert forall|i: int| 0 <= i < o.len() implies reordered_in_both(a, b, #[trigger] o[i]) by {
        assert(o.contains(o[i]));
        assert(o.to_multiset().count(o[i]) > 0);
        assert(moved(a, b).contains(o[i]));
        lemma_moved_items(a, b, o[i]);
    }
    if forall|k1: int, k2: int| 0 <= k1 < a.len() && 0 <= k2 < a.len()
        && (#[trigger] a[k1]).folder_name@ == (#[trigger] a[k2]).folder_name@ ==> k1 == k2 {
        assert forall|i: int, j: int| 0 <= i < q.len() && 0 <= j < o.len() implies (#[trigger] q[i]).0 != (#[trigger] o[j]).0 by {
            assert(q.contains(q[i]));
            assert(q.to_multiset().count(q[i]) > 0);
            assert(only_in(a, b).contains(q[i]));
            lemma_only_items(a, b, q[i]);
            assert(reordered_in_both(a, b, o[j]));
            if q[i].0 == o[j].0 {
                let k1 = choose|k: int| 0 <= k < a.len() && #[trigger] a[k].folder_name@ == q[i].0 && a[k].enabled && !enabled_in(b, a[k].id);
                let k2 = choose|k: int| 0 <= k < a.len() && #[trigger] a[k].folder_name@ == o[j].0 && a[k].enabled
                    && enabled_in(b, a[k].id) && o[j].1.0 == a[k].load_order
                    && entry_with(b, a[k].id).unwrap().load_order == o[j].1.1 && o[j].1.0 != o[j].1.1;
                assert(a[k1].folder_name@ == a[k2].folder_name@);
            }
        }
    }
}

} // verus!
