use std::time::SystemTime;
use vstd::prelude::*;
use crate::meta::{file_ext, image_ext, is_image_file, mount_entry_ok, valid_relative_path};
use crate::order::{stable_sort, sort_keyed, keyed_view, sorted_by_key, lemma_stable_sort_sorted};
use crate::paths::{join, join_path};
use crate::text::{
    chars_of, has_prefix, has_suffix, lower, split_char, split_on, starts_with_str,
    ends_with_str, to_lowercase, str_eq_ignore_ascii_case, eq_ignore_ascii_case,
};

verus! {

#[verifier::external_type_specification]
#[verifier::external_body]
pub struct ExSystemTime(SystemTime);

/// Kind of user-data file.
#[derive(Debug, Clone, Copy, PartialEq, Eq, Structural)]
pub enum Category {
    Saves,
    Settings,
    UserTracks,
    Screenshots,
    Other,
}

impl Category {
    pub open spec fn key_spec(self) -> Seq<char> {
        match self {
            Category::Saves => "saves"@,
            Category::Settings => "settings"@,
            Category::UserTracks => "usertracks"@,
            Category::Screenshots => "screenshots"@,
            Category::Other => "other"@,
        }
    }

    pub fn label(self) -> (l: &'static str)
        ensures
            l@ == (match self {
                Category::Saves => "Partidas"@,
                Category::Settings => "Ajustes"@,
                Category::UserTracks => "User Tracks"@,
                Category::Screenshots => "Capturas"@,
                Category::Other => "Otros"@,
            }),
    {
        match self {
            Category::Saves => "Partidas",
            Category::Settings => "Ajustes",
            Category::UserTracks => "User Tracks",
            Category::Screenshots => "Capturas",
            Category::Other => "Otros",
        }
    }

    pub fn key(self) -> (k: &'static str)
        ensures
            k@ == self.key_spec(),
    {
        match self {
            Category::Saves => "saves",
            Category::Settings => "settings",
            Category::UserTracks => "usertracks",
            Category::Screenshots => "screenshots",
            Category::Other => "other",
        }
    }
}

/// One file inside the user-data directory.
#[derive(Debug)]
pub struct Entry {
    /// Path relative to the user-data root, with `/` separators.
    pub rel: String,
    pub name: String,
    pub size: u64,
    pub modified: Option<SystemTime>,
    pub category: Category,
}

/// `\\` turned into `/`.
pub open spec fn slashes(s: Seq<char>) -> Seq<char> {
    s.map_values(|c: char| if c == '\\' { '/' } else { c })
}

/// How a user-data path is classified (after `\\` → `/` and lowercasing):
/// under `user tracks/` or `usertracks/`, `.b` saves, `.set` settings,
/// pictures, or other.
pub open spec fn classify_spec(rel: Seq<char>) -> Category {
    let l = lower(slashes(rel));
    if has_prefix(l, "user tracks/"@) || has_prefix(l, "usertracks/"@) {
        Category::UserTracks
    } else if has_suffix(l, ".b"@) {
        Category::Saves
    } else if has_suffix(l, ".set"@) {
        Category::Settings
    } else if file_ext(l) matches Some(e) && image_ext(e) {
        Category::Screenshots
    } else {
        Category::Other
    }
}

fn to_slashes(s: &str) -> (r: String)
    ensures
        r@ == slashes(s@),
{
    let v = chars_of(s);
    let mut r = String::new();
    let mut i: usize = 0;
    while i < v.len()
        invariant
            i <= v.len(),
            v@ == s@,
            r@ == slashes(s@.take(i as int)),
        decreases v.len() - i,
    {
        let c = v[i];
        if c == '\\' {
            r.push('/');
        } else {
            r.push(c);
        }
        proof {
            assert(s@.take(i + 1) =~= s@.take(i as int).push(c));
            assert(r@ =~= slashes(s@.take(i + 1)));
        }
        i = i + 1;
    }
    assert(s@.take(v.len() as int) =~= s@);
    r
}

/// Classifies a user-data-relative path.
pub fn classify(rel: &str) -> (c: Category)
    ensures
        c == classify_spec(rel@),
{
    let s = to_slashes(rel);
    let lower_rel = to_lowercase(s.as_str());
    let l = lower_rel.as_str();
    if starts_with_str(l, "user tracks/") || starts_with_str(l, "usertracks/") {
        Category::UserTracks
    } else if ends_with_str(l, ".b") {
        Category::Saves
    } else if ends_with_str(l, ".set") {
        Category::Settings
    } else if is_image_file(l) {
        Category::Screenshots
    } else {
        Category::Other
    }
}

/// The text the listing is sorted by: the category key, then the path. No
/// category key is a prefix of another, so this orders by category first.
pub open spec fn entry_key(e: Entry) -> Seq<char> {
    e.category.key_spec() + e.rel@
}

/// The entries paired with their sort keys.
pub open spec fn keyed_entries(es: Seq<Entry>) -> Seq<(Seq<char>, Entry)> {
    es.map_values(|e: Entry| (entry_key(e), e))
}

/// The listing order: by category, then by path.
pub open spec fn scan_spec(es: Seq<Entry>) -> Seq<Entry> {
    stable_sort(keyed_entries(es), false).map_values(|p: (Seq<char>, Entry)| p.1)
}

/// Sorts the files found in a user-data directory by category, then path.
pub fn scan(found: Vec<Entry>) -> (out: Vec<Entry>)
    ensures
        out@ == scan_spec(found@),
{
    let ghost orig = found@;
    let n = found.len();
    let mut found = found;
    let mut keyed: Vec<(String, Entry)> = Vec::new();
    let mut k: usize = 0;
    proof {
        assert(orig.skip(0) =~= orig);
    }
    while found.len() > 0
        invariant
            k + found.len() == n,
            orig.len() == n,
            found@ == orig.skip(k as int),
            keyed_view(keyed@) == keyed_entries(orig.take(k as int)),
        decreases found.len(),
    {
        let e = found.remove(0);
        proof {
            assert(e == orig[k as int]);
            assert(found@ =~= orig.skip(k + 1));
        }
        let mut key = String::from_str(e.category.key());
        key.append(e.rel.as_str());
        let ghost prev = keyed_view(keyed@);
        let ghost ev = e;
        assert(key@ == entry_key(ev));
        keyed.push((key, e));
        proof {
            assert(keyed_view(keyed@) =~= prev.push((entry_key(ev), ev)));
        }
        proof {
            assert(orig.take(k + 1) =~= orig.take(k as int).push(orig[k as int]));
            assert(keyed_view(keyed@) =~= keyed_entries(orig.take(k + 1)));
        }
        k = k + 1;
    }
    proof {
        assert(orig.take(n as int) =~= orig);
    }
    let sorted = sort_keyed(keyed, false);
    let ghost sv = keyed_view(sorted@);
    let m = sorted.len();
    let mut sorted = sorted;
    let mut out: Vec<Entry> = Vec::new();
    let mut t: usize = 0;
    proof {
        assert(sv.skip(0) =~= sv);
    }
    while sorted.len() > 0
        invariant
            t + sorted.len() == sv.len(),
            sv.len() == m,
            keyed_view(sorted@) == sv.skip(t as int),
            out@ == sv.take(t as int).map_values(|p: (Seq<char>, Entry)| p.1),
        decreases sorted.len(),
    {
        let ghost before = sorted@;
        let p = sorted.remove(0);
        proof {
            assert(sv.skip(t as int)[0] == (p.0@, p.1));
            assert forall|u: int| 0 <= u < sorted@.len() implies #[trigger] keyed_view(sorted@)[u] == sv.skip(t + 1)[u] by {
                assert(sorted@[u] == before[u + 1]);
                assert(keyed_view(before)[u + 1] == sv.skip(t as int)[u + 1]);
            }
            assert(keyed_view(sorted@) =~= sv.skip(t + 1));
        }
        out.push(p.1);
        proof {
            assert(sv.take(t + 1) =~= sv.take(t as int).push(sv[t as int]));
            assert(out@ =~= sv.take(t + 1).map_values(|p: (Seq<char>, Entry)| p.1));
        }
        t = t + 1;
    }
    proof {
        assert(sv.take(t as int) =~= sv);
    }
    out
}

/// `Ruta de datos inválida: '<rel>'`
pub open spec fn invalid_rel_msg(rel: Seq<char>) -> Seq<char> {
    "Ruta de datos inválida: '"@ + rel + "'"@
}

/// Where a user-data entry lives: `<upper>/<subdir>` and `<upper>/<subdir>/<rel>`,
/// both still to be canonicalized; an error when `rel` is not a relative path
/// that stays inside (absolute, `.`, `..` or empty components).
pub fn resolve_entry(upper: &str, subdir: &str, rel: &str) -> (r: Result<(String, String), String>)
    ensures
        match r {
            Ok((base, target)) => mount_entry_ok(rel@)
                && base@ == join_path(upper@, subdir@)
                && target@ == join_path(join_path(upper@, subdir@), rel@),
            Err(msg) => !mount_entry_ok(rel@) && msg@ == invalid_rel_msg(rel@),
        },
{
    if !valid_relative_path(rel) {
        let mut msg = String::from_str("Ruta de datos inválida: '");
        msg.append(rel);
        msg.append("'");
        return Err(msg);
    }
    let base = join(upper, subdir);
    let target = join(base.as_str(), rel);
    Ok((base, target))
}

/// The non-empty `/`-separated components of a path.
pub open spec fn components(p: Seq<char>) -> Seq<Seq<char>> {
    split_on(p, '/').filter(|c: Seq<char>| c.len() > 0)
}

/// `Path::starts_with` for paths without `.` components: both absolute or
/// both relative, and the components of `base` begin those of `p`.
pub open spec fn path_within(p: Seq<char>, base: Seq<char>) -> bool {
    let a = p.len() > 0 && p[0] == '/';
    let b = base.len() > 0 && base[0] == '/';
    a == b && components(base).len() <= components(p).len()
        && components(p).take(components(base).len() as int) == components(base)
}

fn components_exec(p: &str) -> (out: Vec<String>)
    ensures
        out@.map_values(|c: String| c@) == components(p@),
{
    let pieces = split_char(p, '/');
    let ghost ps = pieces@.map_values(|c: String| c@);
    let mut out: Vec<String> = Vec::new();
    let mut i: usize = 0;
    while i < pieces.len()
        invariant
            i <= pieces.len(),
            ps == pieces@.map_values(|c: String| c@),
            ps == split_on(p@, '/'),
            out@.map_values(|c: String| c@) == ps.take(i as int).filter(|c: Seq<char>| c.len() > 0),
        decreases pieces.len() - i,
    {
        proof {
            reveal(Seq::filter);
            assert(ps.take(i + 1).drop_last() =~= ps.take(i as int));
            assert(ps.take(i + 1).last() == pieces@[i as int]@);
        }
        if pieces[i].as_str().unicode_len() > 0 {
            let ghost prev = out@.map_values(|c: String| c@);
            out.push(pieces[i].clone());
            proof {
                assert(out@.map_values(|c: String| c@) =~= prev.push(pieces@[i as int]@));
            }
        }
        i = i + 1;
    }
    proof {
        assert(ps.take(pieces.len() as int) =~= ps);
    }
    out
}

/// `Ruta fuera de la carpeta de datos: '<rel>'`
pub open spec fn outside_msg(rel: Seq<char>) -> Seq<char> {
    "Ruta fuera de la carpeta de datos: '"@ + rel + "'"@
}

/// Accepts the canonical target of an entry only when it lies inside the
/// canonical data directory (a symlink may point elsewhere).
pub fn confine_entry(canon_base: &str, canon_target: &str, rel: &str) -> (r: Result<String, String>)
    ensures
        match r {
            Ok(t) => path_within(canon_target@, canon_base@) && t@ == canon_target@,
            Err(msg) => !path_within(canon_target@, canon_base@) && msg@ == outside_msg(rel@),
        },
{
    let bc = components_exec(canon_base);
    let tc = components_exec(canon_target);
    let bv = chars_of(canon_base);
    let tv = chars_of(canon_target);
    let babs = bv.len() > 0 && bv[0] == '/';
    let tabs = tv.len() > 0 && tv[0] == '/';
    let mut ok = babs == tabs && bc.len() <= tc.len();
    let ghost bcv = bc@.map_values(|c: String| c@);
    let ghost tcv = tc@.map_values(|c: String| c@);
    if ok {
        let mut i: usize = 0;
        while i < bc.len() && ok
            invariant
                i <= bc.len() <= tc.len(),
                bcv == bc@.map_values(|c: String| c@),
                tcv == tc@.map_values(|c: String| c@),
                forall|k: int| 0 <= k < i ==> tcv[k] == bcv[k],
                !ok ==> tcv.take(bcv.len() as int) != bcv,
            decreases bc.len() - i + (if ok { 1int } else { 0int }),
        {
            if !crate::meta::str_is(bc[i].as_str(), tc[i].as_str()) {
                assert(tcv.take(bcv.len() as int)[i as int] != bcv[i as int]);
                ok = false;
            } else {
                i = i + 1;
            }
        }
        if ok {
            assert(tcv.take(bcv.len() as int) =~= bcv);
        }
    }
    if ok {
        Ok(String::from_str(canon_target))
    } else {
        let mut msg = String::from_str("Ruta fuera de la carpeta de datos: '");
        msg.append(rel);
        msg.append("'");
        Err(msg)
    }
}

/// True when one of the names found in the enabled mods' layers is
/// `portablegta.asi` (ignoring ASCII case), so that the game writes its user
/// files inside the game directory, per profile.
pub fn portablegta_installed(names: &Vec<String>) -> (r: bool)
    ensures
        r == exists|i: int| 0 <= i < names.len() && eq_ignore_ascii_case(#[trigger] names@[i]@, "portablegta.asi"@),
{
    let mut i: usize = 0;
    while i < names.len()
        invariant
            i <= names.len(),
            forall|k: int| 0 <= k < i ==> !eq_ignore_ascii_case(#[trigger] names@[k]@, "portablegta.asi"@),
        decreases names.len() - i,
    {
        if str_eq_ignore_ascii_case(names[i].as_str(), "portablegta.asi") {
            return true;
        }
        i = i + 1;
    }
    false
}

/// The order in which the data panel lists the categories.
pub open spec fn category_order() -> Seq<Category> {
    seq![Category::Saves, Category::Settings, Category::UserTracks, Category::Screenshots, Category::Other]
}

/// Positions of the entries of category `c`, in list order.
pub open spec fn in_category(es: Seq<Entry>, c: Category) -> Seq<int>
    decreases es.len(),
{
    if es.len() == 0 {
        Seq::empty()
    } else {
        in_category(es.drop_last(), c) + if es.last().category == c { seq![es.len() - 1] } else { Seq::empty() }
    }
}

/// The first `k` categories of the panel with their entries, leaving out the
/// empty ones.
pub open spec fn groups_upto(es: Seq<Entry>, k: int) -> Seq<(Category, Seq<int>)>
    decreases k,
{
    if k <= 0 {
        Seq::empty()
    } else {
        let c = category_order()[k - 1];
        groups_upto(es, k - 1) + if in_category(es, c).len() > 0 { seq![(c, in_category(es, c))] } else { Seq::empty() }
    }
}

/// The data panel's sections: each non-empty category, in panel order, with
/// the positions of its entries.
pub open spec fn by_category_spec(es: Seq<Entry>) -> Seq<(Category, Seq<int>)> {
    groups_upto(es, 5)
}

fn positions_of(entries: &Vec<Entry>, c: Category) -> (out: Vec<usize>)
    ensures
        out@.map_values(|i: usize| i as int) == in_category(entries@, c),
{
    let mut out: Vec<usize> = Vec::new();
    let mut i: usize = 0;
    while i < entries.len()
        invariant
            i <= entries.len(),
            out@.map_values(|x: usize| x as int) == in_category(entries@.take(i as int), c),
        decreases entries.len() - i,
    {
        proof {
            assert(entries@.take(i + 1).drop_last() =~= entries@.take(i as int));
        }
        let ghost prev = out@.map_values(|x: usize| x as int);
        if entries[i].category == c {
            out.push(i);
        }
        assert(out@.map_values(|x: usize| x as int) =~= in_category(entries@.take(i + 1), c));
        i = i + 1;
    }
    proof {
        assert(entries@.take(entries.len() as int) =~= entries@);
    }
    out
}

/// Positions as plain integers.
pub open spec fn group_view(g: (Category, Vec<usize>)) -> (Category, Seq<int>) {
    (g.0, g.1@.map_values(|i: usize| i as int))
}

/// Groups the user data for the data panel: saves, settings, user tracks,
/// screenshots, then the rest, each with its entries in list order; a
/// category with no entry is left out.
pub fn by_category(entries: &Vec<Entry>) -> (out: Vec<(Category, Vec<usize>)>)
    ensures
        out@.map_values(|g: (Category, Vec<usize>)| group_view(g)) == by_category_spec(entries@),
{
    let order = vec![Category::Saves, Category::Settings, Category::UserTracks, Category::Screenshots, Category::Other];
    assert(order@ =~= category_order());
    let mut out: Vec<(Category, Vec<usize>)> = Vec::new();
    let mut k: usize = 0;
    while k < order.len()
        invariant
            k <= order.len(),
            order@ == category_order(),
            out@.map_values(|g: (Category, Vec<usize>)| group_view(g)) == groups_upto(entries@, k as int),
        decreases order.len() - k,
    {
        let c = order[k];
        let pos = positions_of(entries, c);
        let ghost prev = out@.map_values(|g: (Category, Vec<usize>)| group_view(g));
        if pos.len() > 0 {
            out.push((c, pos));
        }
        assert(out@.map_values(|g: (Category, Vec<usize>)| group_view(g)) =~= groups_upto(entries@, k + 1));
        k = k + 1;
    }
    out
}

proof fn lemma_scan_keys(es: Seq<Entry>)
    ensures
        scan_spec(es).to_multiset() == es.to_multiset(),
        stable_sort(keyed_entries(es), false).len() == es.len(),
        forall|i: int| 0 <= i < es.len() ==> (#[trigger] stable_sort(keyed_entries(es), false)[i]).0
            == entry_key(stable_sort(keyed_entries(es), false)[i].1),
    decreases es.len(),
{
    broadcast use vstd::seq_lib::group_to_multiset_ensures;
    let k = keyed_entries(es);
    lemma_stable_sort_sorted(k, false);
    if es.len() > 0 {
        let d = es.drop_last();
        lemma_scan_keys(d);
        assert(keyed_entries(d) =~= k.drop_last());
        let rest = stable_sort(k.drop_last(), false);
        let x = k.last();
        assert(x == (entry_key(es.last()), es.last()));
        let p = crate::order::insert_pos(rest, x.0, false) as int;
        crate::order::lemma_insert_pos_bound(rest, x.0, false);
        let sorted = stable_sort(k, false);
        assert(sorted == rest.insert(p, x));
        assert(sorted.map_values(|q: (Seq<char>, Entry)| q.1)
            =~= rest.map_values(|q: (Seq<char>, Entry)| q.1).insert(p, es.last()));
        assert(es =~= d.push(es.last()));
        assert forall|i: int| 0 <= i < es.len() implies (#[trigger] sorted[i]).0 == entry_key(sorted[i].1) by {
            if i < p {
                assert(sorted[i] == rest[i]);
            } else if i > p {
                assert(sorted[i] == rest[i - 1]);
            }
        }
    } else {
        assert(scan_spec(es) =~= es);
    }
}

/// The listing of the found files holds each of them exactly once (it is a
/// rearrangement of what was found) and orders them by category key, then
/// by path.
pub proof fn lemma_scan_sorted_perm(es: Seq<Entry>)
    ensures
        scan_spec(es).to_multiset() == es.to_multiset(),
        scan_spec(es).len() == es.len(),
        forall|i: int, j: int| 0 <= i < j < scan_spec(es).len()
            ==> !crate::order::seq_lt(entry_key(#[trigger] scan_spec(es)[j]), entry_key(#[trigger] scan_spec(es)[i])),
{
    lemma_scan_keys(es);
    let sorted = stable_sort(keyed_entries(es), false);
    lemma_stable_sort_sorted(keyed_entries(es), false);
    let out = scan_spec(es);
    assert forall|i: int, j: int| 0 <= i < j < out.len()
        implies !crate::order::seq_lt(entry_key(#[trigger] out[j]), entry_key(#[trigger] out[i])) by {
        assert(out[i] == sorted[i].1 && out[j] == sorted[j].1);
        assert(sorted[i].0 == entry_key(sorted[i].1));
        assert(sorted[j].0 == entry_key(sorted[j].1));
        assert(!crate::order::precedes(sorted[j].0, sorted[i].0, false));
    }
}

} // verus!
