use std::collections::HashMap;
use std::collections::HashSet;
use vstd::prelude::*;
use crate::db::{DepRef, ModEntry};
use crate::maps::keys_of;
use crate::log::{LogLevel, LogLine};
use crate::text::{int_decimal, one_char, push_int_decimal, trim, trim_seq};

verus! {

broadcast use {vstd::std_specs::hash::group_hash_axioms, vstd::seq_lib::group_seq_properties};

#[derive(Clone, Copy, PartialEq, Eq, Structural)]
pub enum CycleMark {
    Open,
    Done,
}

/// What to do with required dependencies that are disabled.
#[derive(Clone, Copy, PartialEq, Eq, Structural, Debug)]
pub enum DepPrompt {
    Prompt,
    AutoEnable,
    Ignore,
}

/// Dependency graph of the mods of one profile.
pub struct DepGraph {
    pub mods: HashMap<i64, ModEntry>,
    pub deps: HashMap<i64, Vec<i64>>,
    pub optional_deps: HashMap<i64, Vec<i64>>,
    pub enabled_ids: Vec<i64>,
    pub prompt: DepPrompt,
    pub skip_ids: HashSet<i64>,
}

/// The adjacency lists of a map from mod id to dependency ids.
pub open spec fn adj(m: Map<i64, Vec<i64>>) -> Map<i64, Seq<i64>> {
    Map::new(|k: i64| m.contains_key(k), |k: i64| m[k]@)
}

/// `a` lists `b` as a dependency.
pub open spec fn edge(g: Map<i64, Seq<i64>>, a: i64, b: i64) -> bool {
    g.contains_key(a) && g[a].contains(b)
}

/// The ids of the references with the given `required` flag, in order.
pub open spec fn ids_with(refs: Seq<DepRef>, required: bool) -> Seq<i64>
    decreases refs.len(),
{
    if refs.len() == 0 {
        Seq::empty()
    } else if refs.last().required == required {
        ids_with(refs.drop_last(), required).push(refs.last().id)
    } else {
        ids_with(refs.drop_last(), required)
    }
}

/// Splits the references of every mod into the adjacency lists of one kind;
/// a mod without references of that kind has no entry.
pub open spec fn split_refs(deps: Map<i64, Vec<DepRef>>, required: bool) -> Map<i64, Seq<i64>> {
    Map::new(
        |k: i64| deps.contains_key(k) && ids_with(deps[k]@, required).len() > 0,
        |k: i64| ids_with(deps[k]@, required),
    )
}

fn ids_of_kind(refs: &Vec<DepRef>, required: bool) -> (out: Vec<i64>)
    ensures
        out@ == ids_with(refs@, required),
{
    let mut out: Vec<i64> = Vec::new();
    let mut i: usize = 0;
    while i < refs.len()
        invariant
            i <= refs.len(),
            out@ == ids_with(refs@.take(i as int), required),
        decreases refs.len() - i,
    {
        assert(refs@.take(i + 1).drop_last() =~= refs@.take(i as int));
        if refs[i].required == required {
            out.push(refs[i].id);
        }
        i = i + 1;
    }
    assert(refs@.take(refs.len() as int) =~= refs@);
    out
}

/// Folder of a mod, or `?` for an id that is not in the graph.
pub open spec fn folder_of(mods: Map<i64, ModEntry>, id: i64) -> Seq<char> {
    if mods.contains_key(id) {
        mods[id].folder_name@
    } else {
        "?"@
    }
}

/// Every dependency of `g` names a mod that exists.
pub open spec fn deps_exist(g: Map<i64, Seq<i64>>, mods: Map<i64, ModEntry>) -> bool {
    forall|a: i64, b: i64| #[trigger] edge(g, a, b) ==> mods.contains_key(b)
}

/// `(mid, d)` pairs for the dependencies `ds` of `mid` that exist but are disabled.
pub open spec fn disabled_in(mods: Map<i64, ModEntry>, mid: i64, ds: Seq<i64>) -> Seq<(i64, i64)>
    decreases ds.len(),
{
    if ds.len() == 0 {
        Seq::empty()
    } else {
        let rest = disabled_in(mods, mid, ds.drop_last());
        let d = ds.last();
        if mods.contains_key(d) && !mods[d].enabled {
            rest.push((mid, d))
        } else {
            rest
        }
    }
}

/// Disabled required dependencies of the mods `ids`, in order.
pub open spec fn disabled_pairs(mods: Map<i64, ModEntry>, g: Map<i64, Seq<i64>>, ids: Seq<i64>) -> Seq<(i64, i64)>
    decreases ids.len(),
{
    if ids.len() == 0 {
        Seq::empty()
    } else {
        let mid = ids.last();
        disabled_pairs(mods, g, ids.drop_last()) + (if g.contains_key(mid) {
            disabled_in(mods, mid, g[mid])
        } else {
            Seq::empty()
        })
    }
}

/// Message for a dependency on a mod that does not exist.
pub open spec fn missing_msg(mods: Map<i64, ModEntry>, mid: i64, did: i64, required: bool) -> Seq<char> {
    if required {
        "'"@ + folder_of(mods, mid) + "' depende del mod con id="@ + int_decimal(did as int)
            + ", que no existe en la base de datos."@
    } else {
        "'"@ + folder_of(mods, mid) + "' recomienda el mod con id="@ + int_decimal(did as int)
            + ", que no existe en la base de datos."@
    }
}

pub proof fn lemma_disabled_in(mods: Map<i64, ModEntry>, mid: i64, ds: Seq<i64>, a: i64, b: i64)
    ensures
        disabled_in(mods, mid, ds).contains((a, b)) <==> a == mid && ds.contains(b)
            && mods.contains_key(b) && !mods[b].enabled,
    decreases ds.len(),
{
    if ds.len() > 0 {
        lemma_disabled_in(mods, mid, ds.drop_last(), a, b);
        let rest = disabled_in(mods, mid, ds.drop_last());
        assert(ds =~= ds.drop_last().push(ds.last()));
        if ds.contains(b) && !ds.drop_last().contains(b) {
            let j = choose|j: int| 0 <= j < ds.len() && ds[j] == b;
            if j < ds.len() - 1 {
                assert(ds.drop_last()[j] == b);
            }
        }
        if ds.drop_last().contains(b) {
            let j = choose|j: int| 0 <= j < ds.drop_last().len() && ds.drop_last()[j] == b;
            assert(ds[j] == b);
        }
        if mods.contains_key(ds.last()) && !mods[ds.last()].enabled {
            if rest.push((mid, ds.last())).contains((a, b)) && !rest.contains((a, b)) {
                let j = choose|j: int| 0 <= j < rest.len() + 1 && rest.push((mid, ds.last()))[j] == (a, b);
                if j < rest.len() {
                    assert(rest[j] == (a, b));
                }
            }
            if rest.contains((a, b)) {
                let j = choose|j: int| 0 <= j < rest.len() && rest[j] == (a, b);
                assert(rest.push((mid, ds.last()))[j] == (a, b));
            }
            if a == mid && b == ds.last() {
                assert(rest.push((mid, ds.last()))[rest.len() as int] == (a, b));
            }
        }
    }
}

/// The disabled-dependency report lists exactly the pairs `(m, d)` where `m` is
/// one of the given mods, `d` is a required dependency of `m`, and `d` exists but
/// is disabled.
pub proof fn lemma_disabled_pairs_exact(mods: Map<i64, ModEntry>, g: Map<i64, Seq<i64>>, ids: Seq<i64>, a: i64, b: i64)
    ensures
        disabled_pairs(mods, g, ids).contains((a, b)) <==> ids.contains(a) && edge(g, a, b)
            && mods.contains_key(b) && !mods[b].enabled,
    decreases ids.len(),
{
    if ids.len() > 0 {
        lemma_disabled_pairs_exact(mods, g, ids.drop_last(), a, b);
        let mid = ids.last();
        let rest = disabled_pairs(mods, g, ids.drop_last());
        let tail = if g.contains_key(mid) { disabled_in(mods, mid, g[mid]) } else { Seq::empty() };
        if g.contains_key(mid) {
            lemma_disabled_in(mods, mid, g[mid], a, b);
        }
        assert(ids =~= ids.drop_last().push(mid));
        if (rest + tail).contains((a, b)) {
            let j = choose|j: int| 0 <= j < (rest + tail).len() && (rest + tail)[j] == (a, b);
            if j < rest.len() {
                assert(rest[j] == (a, b));
            } else {
                assert(tail[j - rest.len()] == (a, b));
            }
        }
        if rest.contains((a, b)) {
            let j = choose|j: int| 0 <= j < rest.len() && rest[j] == (a, b);
            assert((rest + tail)[j] == (a, b));
        }
        if tail.contains((a, b)) {
            let j = choose|j: int| 0 <= j < tail.len() && tail[j] == (a, b);
            assert((rest + tail)[j + rest.len()] == (a, b));
        }
        if ids.contains(a) && !ids.drop_last().contains(a) {
            let j = choose|j: int| 0 <= j < ids.len() && ids[j] == a;
            if j < ids.len() - 1 {
                assert(ids.drop_last()[j] == a);
            }
        }
        if ids.drop_last().contains(a) {
            let j = choose|j: int| 0 <= j < ids.drop_last().len() && ids.drop_last()[j] == a;
            assert(ids[j] == a);
        }
    }
}

/// `p` is a walk along dependency edges (at least one node).
pub open spec fn is_path(g: Map<i64, Seq<i64>>, p: Seq<i64>) -> bool {
    &&& p.len() >= 1
    &&& forall|i: int| 0 <= i < p.len() - 1 ==> #[trigger] edge(g, p[i], p[i + 1])
}

/// Some mod depends on itself, directly or through other mods.
pub open spec fn has_cycle(g: Map<i64, Seq<i64>>) -> bool {
    exists|p: Seq<i64>| #[trigger] is_path(g, p) && p.len() >= 2 && p[0] == p.last()
}

/// Every mod that has or is a dependency.
pub open spec fn nodes(g: Map<i64, Seq<i64>>) -> Set<i64> {
    Set::new(|x: i64| g.contains_key(x) || exists|a: i64| #[trigger] edge(g, a, x))
}

pub proof fn lemma_nodes_finite(g: Map<i64, Seq<i64>>)
    requires
        g.dom().finite(),
    ensures
        nodes(g).finite(),
    decreases g.dom().len(),
{
    if g.dom().len() == 0 {
        assert(nodes(g) =~= Set::<i64>::empty()) by {
            assert forall|x: i64| !nodes(g).contains(x) by {
                if g.contains_key(x) {
                    assert(g.dom().contains(x));
                }
                if (exists|a: i64| #[trigger] edge(g, a, x)) {
                    let a = choose|a: i64| #[trigger] edge(g, a, x);
                    assert(g.dom().contains(a));
                }
            }
        }
    } else {
        let k = g.dom().choose();
        let g2 = g.remove(k);
        assert(g2.dom() =~= g.dom().remove(k));
        lemma_nodes_finite(g2);
        let bigger = nodes(g2).union(g[k].to_set()).insert(k);
        assert(nodes(g).subset_of(bigger)) by {
            assert forall|x: i64| nodes(g).contains(x) implies bigger.contains(x) by {
                if x != k {
                    if g.contains_key(x) {
                        assert(g2.contains_key(x));
                    } else {
                        let a = choose|a: i64| #[trigger] edge(g, a, x);
                        if a == k {
                            assert(g[k].to_set().contains(x));
                        } else {
                            assert(edge(g2, a, x));
                        }
                    }
                }
            }
        }
        vstd::set_lib::lemma_set_subset_finite(bigger, nodes(g));
    }
}

pub proof fn lemma_subpath(g: Map<i64, Seq<i64>>, p: Seq<i64>, j: int)
    requires
        is_path(g, p),
        0 <= j < p.len(),
    ensures
        is_path(g, p.subrange(j, p.len() as int)),
{
    let q = p.subrange(j, p.len() as int);
    assert forall|i: int| 0 <= i < q.len() - 1 implies #[trigger] edge(g, q[i], q[i + 1]) by {
        assert(edge(g, p[j + i], p[j + i + 1]));
    }
}

/// Finishing order of a depth-first search: every finished mod has all its
/// dependencies finished before it.
pub open spec fn finish_order(st: Map<i64, CycleMark>, fin: Seq<i64>, g: Map<i64, Seq<i64>>) -> bool {
    &&& fin.no_duplicates()
    &&& forall|k: i64| (st.contains_key(k) && st[k] == CycleMark::Done) <==> #[trigger] fin.contains(k)
    &&& forall|i: int, b: i64| 0 <= i < fin.len() && #[trigger] edge(g, fin[i], b) ==> fin.take(i).contains(b)
}

/// Position of `x` in a sequence that contains it.
pub open spec fn pos(s: Seq<i64>, x: i64) -> int {
    choose|i: int| 0 <= i < s.len() && s[i] == x
}

proof fn lemma_pos_unique(s: Seq<i64>, x: i64, i: int)
    requires
        s.no_duplicates(),
        0 <= i < s.len(),
        s[i] == x,
    ensures
        pos(s, x) == i,
{
    let j = pos(s, x);
    assert(s.contains(x));
    assert(0 <= j < s.len() && s[j] == x);
}

proof fn lemma_path_descends(g: Map<i64, Seq<i64>>, st: Map<i64, CycleMark>, fin: Seq<i64>, p: Seq<i64>, k: int)
    requires
        finish_order(st, fin, g),
        is_path(g, p),
        fin.contains(p[0]),
        0 <= k < p.len(),
    ensures
        fin.contains(p[k]),
        pos(fin, p[k]) <= pos(fin, p[0]) - k,
    decreases k,
{
    if k == 0 {
        lemma_pos_unique(fin, p[0], pos(fin, p[0]));
    } else {
        lemma_path_descends(g, st, fin, p, k - 1);
        let i = pos(fin, p[k - 1]);
        lemma_pos_unique(fin, p[k - 1], i);
        assert(edge(g, p[k - 1], p[(k - 1) + 1]));
        assert(edge(g, fin[i], p[k]));
        assert(fin.take(i).contains(p[k]));
        let j = choose|j: int| 0 <= j < fin.take(i).len() && fin.take(i)[j] == p[k];
        assert(fin[j] == p[k]);
        lemma_pos_unique(fin, p[k], j);
    }
}

/// A finishing order that covers every mod with dependencies rules out cycles.
proof fn lemma_acyclic(g: Map<i64, Seq<i64>>, st: Map<i64, CycleMark>, fin: Seq<i64>)
    requires
        finish_order(st, fin, g),
        forall|k: i64| g.contains_key(k) ==> fin.contains(k),
    ensures
        !has_cycle(g),
{
    if has_cycle(g) {
        let p = choose|p: Seq<i64>| #[trigger] is_path(g, p) && p.len() >= 2 && p[0] == p.last();
        assert(edge(g, p[0], p[0int + 1]));
        lemma_path_descends(g, st, fin, p, p.len() - 1);
    }
}

/// `s` begins with `p`.
pub open spec fn starts_with(s: Seq<char>, p: Seq<char>) -> bool {
    p.len() <= s.len() && s.take(p.len() as int) == p
}

/// Start of the message reported for a dependency cycle.
pub open spec fn cycle_msg_prefix() -> Seq<char> {
    "Ciclo de dependencias detectado: "@
}

proof fn lemma_measure(all: Set<i64>, d_old: Set<i64>, d_new: Set<i64>, mid: i64)
    requires
        all.finite(),
        d_old.subset_of(d_new),
        d_new.contains(mid),
        !d_old.contains(mid),
        all.contains(mid),
    ensures
        all.difference(d_new).len() < all.difference(d_old).len(),
{
    let a = all.difference(d_old);
    let b = all.difference(d_new);
    vstd::set_lib::lemma_len_subset(a, all);
    assert(b.subset_of(a.remove(mid)));
    vstd::set_lib::lemma_len_subset(b, a.remove(mid));
}

/// Mods of the map that are disabled.
pub open spec fn disabled_set(mods: Map<i64, ModEntry>) -> Set<i64> {
    Set::new(|k: i64| mods.contains_key(k) && !mods[k].enabled)
}

/// Mods reachable from `d` along required dependencies, passing only through
/// mods that exist and are disabled (`d` included when it is one of them).
pub open spec fn reach_disabled(mods: Map<i64, ModEntry>, g: Map<i64, Seq<i64>>, d: i64) -> Set<i64> {
    Set::new(|x: i64| exists|p: Seq<i64>| #[trigger] is_path(g, p) && p[0] == d && p.last() == x
        && forall|i: int| 0 <= i < p.len() ==> #[trigger] disabled_set(mods).contains(p[i]))
}

/// `b` is `a` followed by items that occur nowhere earlier in `b`: nothing
/// already listed is listed again, and nothing is listed twice.
pub open spec fn appends_fresh(a: Seq<i64>, b: Seq<i64>) -> bool {
    &&& b.len() >= a.len()
    &&& b.take(a.len() as int) == a
    &&& forall|i: int, j: int| a.len() <= i < b.len() && 0 <= j < i ==> #[trigger] b[j] != #[trigger] b[i]
}

/// Appending fresh items twice appends fresh items.
pub proof fn lemma_appends_fresh_trans(a: Seq<i64>, b: Seq<i64>, c: Seq<i64>)
    requires
        appends_fresh(a, b),
        appends_fresh(b, c),
    ensures
        appends_fresh(a, c),
{
    assert forall|k: int| 0 <= k < b.len() implies c[k] == b[k] by {
        assert(c.take(b.len() as int)[k] == b[k]);
    }
    assert forall|k: int| 0 <= k < a.len() implies b[k] == a[k] by {
        assert(b.take(a.len() as int)[k] == a[k]);
    }
    assert(c.take(a.len() as int) =~= a);
    assert forall|i: int, j: int| a.len() <= i < c.len() && 0 <= j < i implies #[trigger] c[j] != #[trigger] c[i] by {
        if i < b.len() {
            assert(b[j] != b[i]);
        }
    }
}

/// Mods enabled in `after` that were disabled in `before`.
pub open spec fn newly_enabled(before: Map<i64, ModEntry>, after: Map<i64, ModEntry>) -> Set<i64> {
    Set::new(|k: i64| before.contains_key(k) && !before[k].enabled && after.contains_key(k) && after[k].enabled)
}

/// `after` differs from `before` at most in `enabled` flags turned on.
pub open spec fn only_enables(before: Map<i64, ModEntry>, after: Map<i64, ModEntry>) -> bool {
    &&& after.dom() == before.dom()
    &&& forall|k: i64| #[trigger] before.contains_key(k) ==> {
        &&& after[k].id == before[k].id
        &&& after[k].folder_name == before[k].folder_name
        &&& after[k].name == before[k].name
        &&& after[k].load_order == before[k].load_order
        &&& (before[k].enabled ==> after[k].enabled)
    }
}

proof fn lemma_reach_prepend(mods0: Map<i64, ModEntry>, mods1: Map<i64, ModEntry>, g: Map<i64, Seq<i64>>, d: i64, s: i64, x: i64)
    requires
        disabled_set(mods1).subset_of(disabled_set(mods0)),
        disabled_set(mods0).contains(d),
        edge(g, d, s),
        reach_disabled(mods1, g, s).contains(x),
    ensures
        reach_disabled(mods0, g, d).contains(x),
{
    let p = choose|p: Seq<i64>| #[trigger] is_path(g, p) && p[0] == s && p.last() == x
        && forall|i: int| 0 <= i < p.len() ==> #[trigger] disabled_set(mods1).contains(p[i]);
    let q = seq![d] + p;
    assert forall|i: int| 0 <= i < q.len() - 1 implies #[trigger] edge(g, q[i], q[i + 1]) by {
        if i > 0 {
            assert(edge(g, p[i - 1], p[(i - 1) + 1]));
        }
    }
    assert forall|i: int| 0 <= i < q.len() implies #[trigger] disabled_set(mods0).contains(q[i]) by {
        if i > 0 {
            assert(disabled_set(mods1).contains(p[i - 1]));
        }
    }
    assert(is_path(g, q));
    assert(q.last() == x);
}

proof fn lemma_reach_self(mods: Map<i64, ModEntry>, g: Map<i64, Seq<i64>>, d: i64)
    requires
        disabled_set(mods).contains(d),
    ensures
        reach_disabled(mods, g, d).contains(d),
{
    let p = seq![d];
    assert(is_path(g, p));
    assert forall|i: int| 0 <= i < p.len() implies #[trigger] disabled_set(mods).contains(p[i]) by {}
}

proof fn lemma_disabled_shrinks(mods: Map<i64, ModEntry>, d: i64, e: ModEntry)
    requires
        mods.dom().finite(),
        mods.contains_key(d),
        !mods[d].enabled,
        e.enabled,
    ensures
        disabled_set(mods.insert(d, e)).len() < disabled_set(mods).len(),
{
    vstd::set_lib::lemma_len_subset(disabled_set(mods), mods.dom());
    assert(disabled_set(mods.insert(d, e)) =~= disabled_set(mods).remove(d));
}

/// Places `x` after every entry whose key is at least its key (a stable
/// descending insertion).
pub open spec fn insert_desc(sorted: Seq<(i64, i64)>, x: (i64, i64)) -> Seq<(i64, i64)>
    decreases sorted.len(),
{
    if sorted.len() == 0 {
        seq![x]
    } else if sorted.last().0 >= x.0 {
        sorted.push(x)
    } else {
        insert_desc(sorted.drop_last(), x).push(sorted.last())
    }
}

/// Stable sort by key, highest key first (entries with equal keys keep their order).
pub open spec fn sort_desc(s: Seq<(i64, i64)>) -> Seq<(i64, i64)>
    decreases s.len(),
{
    if s.len() == 0 {
        Seq::empty()
    } else {
        insert_desc(sort_desc(s.drop_last()), s.last())
    }
}

/// `(load_order, id)` for the ids of `ds` that are mods of the graph (and
/// enabled, when `only_enabled`), in order.
pub open spec fn keyed(mods: Map<i64, ModEntry>, ds: Seq<i64>, only_enabled: bool) -> Seq<(i64, i64)>
    decreases ds.len(),
{
    if ds.len() == 0 {
        Seq::empty()
    } else {
        let rest = keyed(mods, ds.drop_last(), only_enabled);
        let d = ds.last();
        if mods.contains_key(d) && (!only_enabled || mods[d].enabled) {
            rest.push((mods[d].load_order, d))
        } else {
            rest
        }
    }
}

/// The ids of a keyed sequence.
pub open spec fn ids_of(s: Seq<(i64, i64)>) -> Seq<i64> {
    s.map_values(|p: (i64, i64)| p.1)
}

proof fn lemma_insert_at(s: Seq<(i64, i64)>, x: (i64, i64), j: int)
    requires
        0 <= j <= s.len(),
        forall|t: int| j <= t < s.len() ==> #[trigger] s[t].0 < x.0,
        j == 0 || s[j - 1].0 >= x.0,
    ensures
        insert_desc(s, x) == s.insert(j, x),
    decreases s.len(),
{
    if s.len() == 0 {
        assert(s.insert(j, x) =~= seq![x]);
    } else if j == s.len() {
        assert(s.insert(j, x) =~= s.push(x));
    } else {
        lemma_insert_at(s.drop_last(), x, j);
        assert(s.insert(j, x) =~= s.drop_last().insert(j, x).push(s.last()));
    }
}

/// Stable sort of `(load_order, id)` pairs, highest load order first.
pub(crate) fn sort_by_order_desc(v: Vec<(i64, i64)>) -> (out: Vec<(i64, i64)>)
    ensures
        out@ == sort_desc(v@),
{
    let mut out: Vec<(i64, i64)> = Vec::new();
    let mut i: usize = 0;
    while i < v.len()
        invariant
            i <= v.len(),
            out@ == sort_desc(v@.take(i as int)),
        decreases v.len() - i,
    {
        let x = v[i];
        let mut j: usize = out.len();
        while j > 0 && out[j - 1].0 < x.0
            invariant
                j <= out.len(),
                forall|t: int| j <= t < out.len() ==> #[trigger] out@[t].0 < x.0,
            decreases j,
        {
            j = j - 1;
        }
        proof {
            lemma_insert_at(out@, x, j as int);
            assert(v@.take(i + 1).drop_last() =~= v@.take(i as int));
        }
        out.insert(j, x);
        i = i + 1;
    }
    assert(v@.take(v.len() as int) =~= v@);
    out
}

proof fn lemma_insert_desc_contains(sorted: Seq<(i64, i64)>, x: (i64, i64), e: (i64, i64))
    ensures
        insert_desc(sorted, x).contains(e) ==> sorted.contains(e) || e == x,
    decreases sorted.len(),
{
    if sorted.len() > 0 && sorted.last().0 < x.0 {
        lemma_insert_desc_contains(sorted.drop_last(), x, e);
        let r = insert_desc(sorted.drop_last(), x);
        if r.push(sorted.last()).contains(e) {
            let j = choose|j: int| 0 <= j < r.len() + 1 && r.push(sorted.last())[j] == e;
            if j < r.len() {
                assert(r[j] == e);
                if sorted.drop_last().contains(e) {
                    let t = choose|t: int| 0 <= t < sorted.drop_last().len() && sorted.drop_last()[t] == e;
                    assert(sorted[t] == e);
                }
            } else {
                assert(sorted[sorted.len() - 1] == e);
            }
        }
    } else if sorted.len() > 0 {
        if sorted.push(x).contains(e) {
            let j = choose|j: int| 0 <= j < sorted.len() + 1 && sorted.push(x)[j] == e;
            if j < sorted.len() {
                assert(sorted[j] == e);
            }
        }
    }
}

pub(crate) proof fn lemma_sort_desc_contains(s: Seq<(i64, i64)>, e: (i64, i64))
    ensures
        sort_desc(s).contains(e) ==> s.contains(e),
    decreases s.len(),
{
    if s.len() > 0 {
        lemma_sort_desc_contains(s.drop_last(), e);
        lemma_insert_desc_contains(sort_desc(s.drop_last()), s.last(), e);
        if s.drop_last().contains(e) {
            let t = choose|t: int| 0 <= t < s.drop_last().len() && s.drop_last()[t] == e;
            assert(s[t] == e);
        }
        if e == s.last() {
            assert(s[s.len() - 1] == e);
        }
    }
}

proof fn lemma_keyed_contains(mods: Map<i64, ModEntry>, ds: Seq<i64>, only_enabled: bool, e: (i64, i64))
    ensures
        keyed(mods, ds, only_enabled).contains(e) ==> mods.contains_key(e.1),
    decreases ds.len(),
{
    if ds.len() > 0 {
        lemma_keyed_contains(mods, ds.drop_last(), only_enabled, e);
        let rest = keyed(mods, ds.drop_last(), only_enabled);
        let d = ds.last();
        if mods.contains_key(d) && (!only_enabled || mods[d].enabled) {
            if rest.push((mods[d].load_order, d)).contains(e) {
                let j = choose|j: int| 0 <= j < rest.len() + 1 && rest.push((mods[d].load_order, d))[j] == e;
                if j < rest.len() {
                    assert(rest[j] == e);
                }
            }
        }
    }
}

/// Every entry of the sorted, keyed list names a mod of the map.
proof fn lemma_sorted_ids_are_mods(mods: Map<i64, ModEntry>, ds: Seq<i64>, only_enabled: bool, t: int)
    requires
        0 <= t < ids_of(sort_desc(keyed(mods, ds, only_enabled))).len(),
    ensures
        mods.contains_key(ids_of(sort_desc(keyed(mods, ds, only_enabled)))[t]),
{
    let s = sort_desc(keyed(mods, ds, only_enabled));
    let e = s[t];
    assert(s.contains(e));
    lemma_sort_desc_contains(keyed(mods, ds, only_enabled), e);
    lemma_keyed_contains(mods, ds, only_enabled, e);
}

/// Warning for an optional dependency `d` of `mid` that is disabled or missing.
pub open spec fn opt_warning(mods: Map<i64, ModEntry>, mid: i64, d: i64) -> Seq<char> {
    if mods.contains_key(d) {
        "'"@ + folder_of(mods, mid) + "' recomienda '"@ + mods[d].folder_name@ + "', pero está desactivado."@
    } else {
        "'"@ + folder_of(mods, mid) + "' recomienda el mod con id="@ + int_decimal(d as int) + ", que no está instalado."@
    }
}

/// Warnings for the optional dependencies `ds` of `mid`, in order.
pub open spec fn opt_warnings_in(mods: Map<i64, ModEntry>, mid: i64, ds: Seq<i64>) -> Seq<Seq<char>>
    decreases ds.len(),
{
    if ds.len() == 0 {
        Seq::empty()
    } else {
        let rest = opt_warnings_in(mods, mid, ds.drop_last());
        let d = ds.last();
        if mods.contains_key(d) && mods[d].enabled {
            rest
        } else {
            rest.push(opt_warning(mods, mid, d))
        }
    }
}

/// Warnings for the optional dependencies of the mods `ids`, in order.
pub open spec fn opt_warnings(mods: Map<i64, ModEntry>, g: Map<i64, Seq<i64>>, ids: Seq<i64>) -> Seq<Seq<char>>
    decreases ids.len(),
{
    if ids.len() == 0 {
        Seq::empty()
    } else {
        let mid = ids.last();
        opt_warnings(mods, g, ids.drop_last()) + (if g.contains_key(mid) {
            opt_warnings_in(mods, mid, g[mid])
        } else {
            Seq::empty()
        })
    }
}

/// Mods reachable, through disabled mods, from any of `ds`.
pub open spec fn reach_any(mods: Map<i64, ModEntry>, g: Map<i64, Seq<i64>>, ds: Seq<i64>) -> Set<i64> {
    Set::new(|x: i64| exists|i: int| 0 <= i < ds.len() && #[trigger] reach_disabled(mods, g, ds[i]).contains(x))
}

/// Why the user's answer stops the launch.
#[derive(Clone, Copy, PartialEq, Eq, Structural, Debug)]
pub enum DepChoiceError {
    /// The user chose to cancel.
    Cancelled,
    /// The answer was not one of the offered options.
    Invalid,
}

impl DepChoiceError {
    /// The message shown for the error.
    pub fn message(&self) -> (m: &'static str)
        ensures
            m@ == (match *self {
                DepChoiceError::Cancelled => "Cancelado."@,
                DepChoiceError::Invalid => "Opción inválida. Cancelando."@,
            }),
    {
        match self {
            DepChoiceError::Cancelled => "Cancelado.",
            DepChoiceError::Invalid => "Opción inválida. Cancelando.",
        }
    }
}

/// The ids of the second components of the pairs.
pub open spec fn seconds(pairs: Seq<(i64, i64)>) -> Seq<i64> {
    pairs.map_values(|p: (i64, i64)| p.1)
}

proof fn lemma_reach_concat(mods: Map<i64, ModEntry>, g: Map<i64, Seq<i64>>, d: i64, p: Seq<i64>, t: int)
    requires
        is_path(g, p),
        0 <= t < p.len(),
        forall|i: int| 0 <= i < p.len() ==> #[trigger] disabled_set(mods).contains(p[i]),
        reach_disabled(mods, g, d).contains(p[t]),
    ensures
        reach_disabled(mods, g, d).contains(p.last()),
{
    let q = choose|q: Seq<i64>| #[trigger] is_path(g, q) && q[0] == d && q.last() == p[t]
        && forall|i: int| 0 <= i < q.len() ==> #[trigger] disabled_set(mods).contains(q[i]);
    let r = q + p.subrange(t + 1, p.len() as int);
    assert forall|i: int| 0 <= i < r.len() - 1 implies #[trigger] edge(g, r[i], r[i + 1]) by {
        if i < q.len() - 1 {
            assert(edge(g, q[i], q[i + 1]));
        } else if i == q.len() - 1 {
            assert(edge(g, p[t], p[t + 1]));
        } else {
            let k = i - q.len() + t + 1;
            assert(edge(g, p[k], p[k + 1]));
        }
    }
    assert forall|i: int| 0 <= i < r.len() implies #[trigger] disabled_set(mods).contains(r[i]) by {
        if i >= q.len() {
            assert(disabled_set(mods).contains(p[i - q.len() + t + 1]));
        }
    }
    assert(is_path(g, r));
    assert(r.last() == p.last());
}

proof fn lemma_reach_step(
    m0: Map<i64, ModEntry>,
    m1: Map<i64, ModEntry>,
    g: Map<i64, Seq<i64>>,
    ds: Seq<i64>,
    i: int,
    x: i64,
)
    requires
        0 <= i < ds.len(),
        only_enables(m0, m1),
        forall|k: i64| #[trigger] m1.contains_key(k) ==> m1[k].enabled == (m0[k].enabled
            || reach_any(m0, g, ds.take(i)).contains(k)),
    ensures
        reach_any(m0, g, ds.take(i + 1)).contains(x) <==> reach_any(m0, g, ds.take(i)).contains(x)
            || reach_disabled(m1, g, ds[i]).contains(x),
{
    let prev = reach_any(m0, g, ds.take(i));
    let d = ds[i];
    assert(ds.take(i + 1)[i] == d);
    if reach_disabled(m1, g, d).contains(x) {
        let p = choose|p: Seq<i64>| #[trigger] is_path(g, p) && p[0] == d && p.last() == x
            && forall|t: int| 0 <= t < p.len() ==> #[trigger] disabled_set(m1).contains(p[t]);
        assert forall|t: int| 0 <= t < p.len() implies #[trigger] disabled_set(m0).contains(p[t]) by {
            assert(disabled_set(m1).contains(p[t]));
        }
        assert(reach_disabled(m0, g, ds.take(i + 1)[i]).contains(x));
    }
    if prev.contains(x) {
        let j = choose|j: int| 0 <= j < ds.take(i).len() && #[trigger] reach_disabled(m0, g, ds.take(i)[j]).contains(x);
        assert(ds.take(i + 1)[j] == ds.take(i)[j]);
    }
    if reach_any(m0, g, ds.take(i + 1)).contains(x) && !prev.contains(x) {
        let j = choose|j: int| 0 <= j < ds.take(i + 1).len() && #[trigger] reach_disabled(m0, g, ds.take(i + 1)[j]).contains(x);
        if j < i {
            assert(ds.take(i)[j] == ds.take(i + 1)[j]);
            assert(reach_disabled(m0, g, ds.take(i)[j]).contains(x));
            assert(false);
        }
        assert(j == i);
        let p = choose|p: Seq<i64>| #[trigger] is_path(g, p) && p[0] == d && p.last() == x
            && forall|t: int| 0 <= t < p.len() ==> #[trigger] disabled_set(m0).contains(p[t]);
        if (exists|t: int| 0 <= t < p.len() && #[trigger] prev.contains(p[t])) {
            let t = choose|t: int| 0 <= t < p.len() && #[trigger] prev.contains(p[t]);
            let jj = choose|jj: int| 0 <= jj < ds.take(i).len() && #[trigger] reach_disabled(m0, g, ds.take(i)[jj]).contains(p[t]);
            lemma_reach_concat(m0, g, ds.take(i)[jj], p, t);
            assert(false);
        } else {
            assert forall|t: int| 0 <= t < p.len() implies #[trigger] disabled_set(m1).contains(p[t]) by {
                assert(disabled_set(m0).contains(p[t]));
                assert(!prev.contains(p[t]));
            }
            assert(reach_disabled(m1, g, d).contains(x));
        }
    }
}

/// The effect of answering `c` to the disabled-dependency question for the
/// dependencies `ds`: `1` enables them and, transitively, their required
/// dependencies; `2` leaves them out of the load order; `3` cancels; any other
/// answer is refused. The dependency lists and prompt mode never change.
pub open spec fn choice_applied(
    before: DepGraph,
    after: DepGraph,
    ds: Seq<i64>,
    c: Seq<char>,
    err: Option<DepChoiceError>,
) -> bool {
    &&& after.req() == before.req()
    &&& after.opt() == before.opt()
    &&& after.prompt_mode() == before.prompt_mode()
    &&& if c == seq!['1'] {
        &&& err is None
        &&& only_enables(before.mods_map(), after.mods_map())
        &&& forall|k: i64| #[trigger] after.mods_map().contains_key(k) ==> after.mods_map()[k].enabled
            == (before.mods_map()[k].enabled || reach_any(before.mods_map(), before.req(), ds).contains(k))
        &&& after.enabled().take(before.enabled().len() as int) == before.enabled()
        &&& forall|k: i64| #[trigger] after.enabled().contains(k) <==> before.enabled().contains(k)
            || reach_any(before.mods_map(), before.req(), ds).contains(k)
        &&& after.skipped() == before.skipped()
    } else if c == seq!['2'] {
        &&& err is None
        &&& after.mods_map() == before.mods_map()
        &&& after.enabled() == before.enabled()
        &&& after.skipped() == before.skipped().union(ds.to_set())
    } else if c == seq!['3'] {
        &&& err == Some(DepChoiceError::Cancelled)
        &&& after == before
    } else {
        &&& err == Some(DepChoiceError::Invalid)
        &&& after == before
    }
}

/// The diagnostic for the dependency `did` of `mid` naming no mod of the graph:
/// an error for a required dependency, a warning for an optional one.
pub open spec fn is_missing_line(mods: Map<i64, ModEntry>, line: LogLine, mid: i64, did: i64, required: bool) -> bool {
    &&& line.level == (if required { LogLevel::Error } else { LogLevel::Warn })
    &&& line.message@ == missing_msg(mods, mid, did, required)
}

impl DepGraph {
    /// The required (`true`) or optional (`false`) dependency lists.
    pub open spec fn dep_graph(&self, required: bool) -> Map<i64, Seq<i64>> {
        if required { self.req() } else { self.opt() }
    }

    /// `line` is the diagnostic of some missing dependency of the given kind.
    pub open spec fn explains(&self, line: LogLine, required: bool) -> bool {
        exists|a: i64, b: i64| edge(self.dep_graph(required), a, b)
            && !self.mods_map().contains_key(b) && #[trigger] is_missing_line(self.mods_map(), line, a, b, required)
    }

    /// Depth-first load order from `node`: the node itself (when it is a mod),
    /// then its required dependencies by descending load order, then its enabled
    /// optional dependencies likewise. Visited and skipped mods are not repeated.
    /// Returns the visited set and the folders in the order they were reached.
    pub open spec fn dfs_out(&self, node: i64, visited: Set<i64>, fuel: nat) -> (Set<i64>, Seq<Seq<char>>)
        decreases fuel, 0nat,
    {
        if fuel == 0 || visited.contains(node) || self.skipped().contains(node) {
            (visited, Seq::empty())
        } else {
            let v1 = visited.insert(node);
            let here: Seq<Seq<char>> = if self.mods_map().contains_key(node) {
                seq![self.mods_map()[node].folder_name@]
            } else {
                Seq::empty()
            };
            let req_list = if self.req().contains_key(node) { self.req()[node] } else { Seq::empty() };
            let opt_list = if self.opt().contains_key(node) { self.opt()[node] } else { Seq::empty() };
            let a = self.dfs_list(ids_of(sort_desc(keyed(self.mods_map(), req_list, false))), v1, (fuel - 1) as nat);
            let b = self.dfs_list(ids_of(sort_desc(keyed(self.mods_map(), opt_list, true))), a.0, (fuel - 1) as nat);
            (b.0, here + a.1 + b.1)
        }
    }

    /// `dfs_out` over each node of `list` in turn.
    pub open spec fn dfs_list(&self, list: Seq<i64>, visited: Set<i64>, fuel: nat) -> (Set<i64>, Seq<Seq<char>>)
        decreases fuel, list.len(),
    {
        if list.len() == 0 {
            (visited, Seq::empty())
        } else {
            let a = self.dfs_list(list.drop_last(), visited, fuel);
            let b = self.dfs_out(list.last(), a.0, fuel);
            (b.0, a.1 + b.1)
        }
    }

    /// Every id the search can reach: the mods and the enabled ids.
    pub open spec fn universe(&self) -> Set<i64> {
        self.mods_map().dom().union(self.enabled().to_set())
    }

    /// The enabled mod at position `j` lists `x` as a required or optional dependency.
    pub open spec fn dep_edge(&self, j: int, x: i64) -> bool {
        edge(self.req(), self.enabled()[j], x) || edge(self.opt(), self.enabled()[j], x)
    }

    /// One of the first `n` enabled mods lists `x` as a dependency.
    pub open spec fn dep_in_prefix(&self, n: int, x: i64) -> bool {
        exists|j: int| 0 <= j < n && #[trigger] self.dep_edge(j, x)
    }

    /// Some enabled mod lists `x` as a required or optional dependency.
    pub open spec fn is_dependency_of_enabled(&self, x: i64) -> bool {
        self.dep_in_prefix(self.enabled().len() as int, x)
    }

    /// Enabled mods that no enabled mod depends on, in order.
    pub open spec fn roots_in(&self, ids: Seq<i64>) -> Seq<i64>
        decreases ids.len(),
    {
        if ids.len() == 0 {
            Seq::empty()
        } else if self.is_dependency_of_enabled(ids.last()) {
            self.roots_in(ids.drop_last())
        } else {
            self.roots_in(ids.drop_last()).push(ids.last())
        }
    }

    /// The overlay order: a depth-first walk from every enabled mod that no
    /// enabled mod depends on.
    pub open spec fn resolve_spec(&self) -> Seq<Seq<char>> {
        self.dfs_list(self.roots_in(self.enabled()), Set::empty(), self.universe().len() + 1).1
    }

    /// The mods of the graph, by id.
    pub open spec fn mods_map(&self) -> Map<i64, ModEntry> {
        self.mods@
    }

    /// Required dependencies of each mod.
    pub open spec fn req(&self) -> Map<i64, Seq<i64>> {
        adj(self.deps@)
    }

    /// Optional (recommended) dependencies of each mod.
    pub open spec fn opt(&self) -> Map<i64, Seq<i64>> {
        adj(self.optional_deps@)
    }

    /// The enabled mod ids, in their order.
    pub open spec fn enabled(&self) -> Seq<i64> {
        self.enabled_ids@
    }

    pub open spec fn prompt_mode(&self) -> DepPrompt {
        self.prompt
    }

    /// Mods left out of the load order.
    pub open spec fn skipped(&self) -> Set<i64> {
        self.skip_ids@
    }

    /// Builds the graph; required and optional references are kept apart.
    pub fn new(
        mods: HashMap<i64, ModEntry>,
        deps: HashMap<i64, Vec<DepRef>>,
        enabled_ids: Vec<i64>,
    ) -> (g: Self)
        ensures
            g.mods_map() == mods@,
            g.req() == split_refs(deps@, true),
            g.opt() == split_refs(deps@, false),
            g.enabled() == enabled_ids@,
            g.prompt_mode() == DepPrompt::Prompt,
            g.skipped() == Set::<i64>::empty(),
    {
        let mut required: HashMap<i64, Vec<i64>> = HashMap::new();
        let mut optional: HashMap<i64, Vec<i64>> = HashMap::new();
        let keys = keys_of(&deps);
        let mut i: usize = 0;
        while i < keys.len()
            invariant
                i <= keys.len(),
                keys@.no_duplicates(),
                forall|k: i64| deps@.contains_key(k) <==> keys@.contains(k),
                forall|k: i64| #[trigger] adj(required@).contains_key(k) <==> keys@.take(i as int).contains(k)
                    && split_refs(deps@, true).contains_key(k),
                forall|k: i64| #[trigger] adj(optional@).contains_key(k) <==> keys@.take(i as int).contains(k)
                    && split_refs(deps@, false).contains_key(k),
                forall|k: i64| #[trigger] adj(required@).contains_key(k) ==> adj(required@)[k] == split_refs(deps@, true)[k],
                forall|k: i64| #[trigger] adj(optional@).contains_key(k) ==> adj(optional@)[k] == split_refs(deps@, false)[k],
            decreases keys.len() - i,
        {
            let mid = keys[i];
            assert(keys@.contains(mid));
            proof {
                if keys@.take(i as int).contains(mid) {
                    let j = choose|j: int| 0 <= j < i && #[trigger] keys@.take(i as int)[j] == mid;
                    assert(keys@[j] == keys@[i as int]);
                }
            }
            let refs = deps.get(&mid).unwrap();
            let ghost old_req = required@;
            let ghost old_opt = optional@;
            let req = ids_of_kind(refs, true);
            let opt = ids_of_kind(refs, false);
            if req.len() > 0 {
                required.insert(mid, req);
            }
            if opt.len() > 0 {
                optional.insert(mid, opt);
            }
            proof {
                assert(keys@.take(i + 1) =~= keys@.take(i as int).push(mid));
                assert forall|k: i64| #[trigger] adj(required@).contains_key(k) <==> keys@.take(i + 1).contains(k)
                    && split_refs(deps@, true).contains_key(k) by {
                    if k != mid {
                        assert(keys@.take(i + 1).contains(k) <==> keys@.take(i as int).contains(k));
                        assert(adj(required@).contains_key(k) == adj(old_req).contains_key(k));
                    } else {
                        assert(keys@.take(i + 1)[i as int] == mid);
                        assert(deps@[mid] == *refs);
                        assert(split_refs(deps@, true).contains_key(mid) <==> req@.len() > 0);
                        assert(adj(required@).contains_key(mid) <==> req@.len() > 0);
                    }
                }
                assert forall|k: i64| #[trigger] adj(required@).contains_key(k) implies adj(required@)[k] == split_refs(deps@, true)[k] by {
                    if k != mid {
                        assert(adj(old_req).contains_key(k));
                    } else {
                        assert(deps@[mid] == *refs);
                    }
                }
                assert forall|k: i64| #[trigger] adj(optional@).contains_key(k) implies adj(optional@)[k] == split_refs(deps@, false)[k] by {
                    if k != mid {
                        assert(adj(old_opt).contains_key(k));
                    } else {
                        assert(deps@[mid] == *refs);
                    }
                }
                assert forall|k: i64| #[trigger] adj(optional@).contains_key(k) <==> keys@.take(i + 1).contains(k)
                    && split_refs(deps@, false).contains_key(k) by {
                    if k != mid {
                        assert(keys@.take(i + 1).contains(k) <==> keys@.take(i as int).contains(k));
                        assert(adj(optional@).contains_key(k) == adj(old_opt).contains_key(k));
                    } else {
                        assert(keys@.take(i + 1)[i as int] == mid);
                        assert(deps@[mid] == *refs);
                    }
                }
            }
            i = i + 1;
        }
        proof {
            assert(keys@.take(keys.len() as int) =~= keys@);
            assert(adj(required@) =~= split_refs(deps@, true));
            assert(adj(optional@) =~= split_refs(deps@, false));
        }
        DepGraph {
            mods,
            deps: required,
            optional_deps: optional,
            enabled_ids,
            prompt: DepPrompt::Prompt,
            skip_ids: HashSet::new(),
        }
    }

    /// Folder of a mod by id, or `?` when the id is unknown.
    pub fn mod_folder(&self, id: i64) -> (f: String)
        ensures
            f@ == folder_of(self.mods_map(), id),
    {
        match self.mods.get(&id) {
            Some(m) => m.folder_name.clone(),
            None => String::from_str("?"),
        }
    }

    /// True when every required dependency names a mod of the graph.
    pub fn validate_dependencies(&self) -> (ok: bool)
        ensures
            ok == deps_exist(self.req(), self.mods_map()),
    {
        let keys = keys_of(&self.deps);
        let mut ok = true;
        let mut i: usize = 0;
        while i < keys.len()
            invariant
                i <= keys.len(),
                forall|k: i64| self.deps@.contains_key(k) <==> keys@.contains(k),
                ok == (forall|a: i64, b: i64| #[trigger] edge(self.req(), a, b) && keys@.take(i as int).contains(a)
                    ==> self.mods@.contains_key(b)),
            decreases keys.len() - i,
        {
            let mid = keys[i];
            assert(keys@.contains(mid));
            let list = self.deps.get(&mid).unwrap();
            let ghost ok0 = ok;
            let mut j: usize = 0;
            while j < list.len()
                invariant
                    j <= list.len(),
                    ok == (ok0 && forall|jj: int| 0 <= jj < j ==> self.mods@.contains_key(#[trigger] list@[jj])),
                decreases list.len() - j,
            {
                if !self.mods.contains_key(&list[j]) {
                    ok = false;
                }
                j = j + 1;
            }
            proof {
                assert(keys@.take(i + 1) =~= keys@.take(i as int).push(mid));
                assert(self.req()[mid] == list@);
                if ok {
                    assert forall|a: i64, b: i64| #[trigger] edge(self.req(), a, b) && keys@.take(i + 1).contains(a)
                        implies self.mods@.contains_key(b) by {
                        if a == mid {
                            let jj = choose|jj: int| 0 <= jj < list@.len() && list@[jj] == b;
                        } else {
                            assert(keys@.take(i as int).contains(a));
                        }
                    }
                } else if !ok0 {
                    let (a, b) = choose|a: i64, b: i64| #[trigger] edge(self.req(), a, b) && keys@.take(i as int).contains(a)
                        && !self.mods@.contains_key(b);
                    assert(keys@.take(i + 1).contains(a));
                } else {
                    let jj = choose|jj: int| 0 <= jj < j && !self.mods@.contains_key(#[trigger] list@[jj]);
                    assert(edge(self.req(), mid, list@[jj]));
                    assert(keys@.take(i + 1).contains(mid));
                }
            }
            i = i + 1;
        }
        assert(keys@.take(keys.len() as int) =~= keys@);
        ok
    }

    /// Pairs `(mod, dependency)` for the required dependencies of the enabled
    /// mods that exist but are disabled, in the order of `enabled_ids`.
    pub fn check_disabled_deps(&self) -> (out: Vec<(i64, i64)>)
        ensures
            out@ == disabled_pairs(self.mods_map(), self.req(), self.enabled()),
    {
        let mut out: Vec<(i64, i64)> = Vec::new();
        let mut i: usize = 0;
        while i < self.enabled_ids.len()
            invariant
                i <= self.enabled_ids.len(),
                out@ == disabled_pairs(self.mods@, self.req(), self.enabled_ids@.take(i as int)),
            decreases self.enabled_ids.len() - i,
        {
            let mid = self.enabled_ids[i];
            assert(self.enabled_ids@.take(i + 1).drop_last() =~= self.enabled_ids@.take(i as int));
            let ghost base = out@;
            match self.deps.get(&mid) {
                Some(list) => {
                    let mut j: usize = 0;
                    while j < list.len()
                        invariant
                            j <= list.len(),
                            out@ == base + disabled_in(self.mods@, mid, list@.take(j as int)),
                        decreases list.len() - j,
                    {
                        let d = list[j];
                        assert(list@.take(j + 1).drop_last() =~= list@.take(j as int));
                        match self.mods.get(&d) {
                            Some(m) => {
                                if !m.enabled {
                                    out.push((mid, d));
                                    assert(out@ =~= base + disabled_in(self.mods@, mid, list@.take(j + 1)));
                                }
                            }
                            None => {}
                        }
                        j = j + 1;
                    }
                    assert(list@.take(list.len() as int) =~= list@);
                    assert(self.req()[mid] == list@);
                }
                None => {
                    assert(out@ =~= base + Seq::<(i64, i64)>::empty());
                }
            }
            i = i + 1;
        }
        assert(self.enabled_ids@.take(self.enabled_ids.len() as int) =~= self.enabled_ids@);
        out
    }

    proof fn lemma_req_finite(&self)
        ensures
            nodes(self.req()).finite(),
    {
        assert(self.req().dom() =~= self.deps@.dom());
        lemma_nodes_finite(self.req());
    }

    fn dfs_cycle_check(
        &self,
        mid: i64,
        state: &mut HashMap<i64, CycleMark>,
        path: &mut String,
        errors: &mut Vec<String>,
        Ghost(stack): Ghost<Seq<i64>>,
        Ghost(fin0): Ghost<Seq<i64>>,
    ) -> (res: (bool, Ghost<Seq<i64>>))
        requires
            !old(state)@.contains_key(mid),
            nodes(self.req()).contains(mid),
            old(state)@.dom().subset_of(nodes(self.req())),
            finish_order(old(state)@, fin0, self.req()),
            is_path(self.req(), stack.push(mid)),
            forall|i: int| 0 <= i < stack.len() ==> old(state)@.contains_key(#[trigger] stack[i])
                && old(state)@[stack[i]] == CycleMark::Open,
        ensures
            finish_order(final(state)@, res.1@, self.req()),
            final(state)@.dom().subset_of(nodes(self.req())),
            final(state)@.contains_key(mid),
            forall|k: i64| #[trigger] old(state)@.contains_key(k) ==> final(state)@.contains_key(k)
                && final(state)@[k] == old(state)@[k],
            res.0 ==> final(state)@[mid] == CycleMark::Done,
            res.0 ==> forall|k: i64| #[trigger] final(state)@.contains_key(k) && final(state)@[k] == CycleMark::Open
                ==> old(state)@.contains_key(k),
            res.0 ==> final(errors)@ == old(errors)@,
            !res.0 ==> final(errors)@.len() == old(errors)@.len() + 1
                && final(errors)@.take(old(errors)@.len() as int) == old(errors)@
                && starts_with(final(errors)@.last()@, cycle_msg_prefix()),
            !res.0 ==> ((forall|k: i64| #[trigger] old(state)@.contains_key(k) && old(state)@[k] == CycleMark::Open
                ==> stack.contains(k)) ==> has_cycle(self.req())),
        decreases nodes(self.req()).difference(old(state)@.dom()).len(),
    {
        proof {
            self.lemma_req_finite();
        }
        let ghost st0 = state@;
        let ghost q = stack.push(mid);
        state.insert(mid, CycleMark::Open);
        let ghost mut fin = fin0;
        match self.deps.get(&mid) {
            Some(dep_ids) => {
                assert(self.req()[mid] == dep_ids@);
                let mut i: usize = 0;
                while i < dep_ids.len()
                    invariant
                        self.req().contains_key(mid),
                        self.req()[mid] == dep_ids@,
                        old(state)@ == st0,
                        nodes(self.req()).finite(),
                        !st0.contains_key(mid),
                        nodes(self.req()).contains(mid),
                        q == stack.push(mid),
                        is_path(self.req(), q),
                        forall|ii: int| 0 <= ii < stack.len() ==> st0.contains_key(#[trigger] stack[ii])
                            && st0[stack[ii]] == CycleMark::Open,
                        i <= dep_ids.len(),
                        state@.contains_key(mid) && state@[mid] == CycleMark::Open,
                        finish_order(state@, fin, self.req()),
                        state@.dom().subset_of(nodes(self.req())),
                        forall|k: i64| #[trigger] st0.contains_key(k) ==> state@.contains_key(k) && state@[k] == st0[k],
                        forall|k: i64| #[trigger] state@.contains_key(k) && state@[k] == CycleMark::Open ==> st0.contains_key(k) || k == mid,
                        forall|j: int| 0 <= j < i ==> state@.contains_key(#[trigger] dep_ids@[j]) && state@[dep_ids@[j]] == CycleMark::Done,
                        errors@ == old(errors)@,
                    decreases dep_ids.len() - i,
                {
                    let did = dep_ids[i];
                    assert(edge(self.req(), mid, did));
                    assert(nodes(self.req()).contains(did));
                    match state.get(&did) {
                        Some(CycleMark::Open) => {
                            let folder = self.mod_folder(did);
                            let mut msg = String::from_str("Ciclo de dependencias detectado: ");
                            let ghost m0 = msg@;
                            msg.append(path.as_str());
                            msg.append(folder.as_str());
                            msg.append(" -> ");
                            msg.append(folder.as_str());
                            assert(msg@.take(m0.len() as int) =~= m0);
                            errors.push(msg);
                            assert(errors@.take(old(errors)@.len() as int) =~= old(errors)@);
                            proof {
                                if forall|k: i64| #[trigger] st0.contains_key(k) && st0[k] == CycleMark::Open ==> stack.contains(k) {
                                    // `did` is on the current chain: close the cycle.
                                    let j: int = if did == mid {
                                        stack.len() as int
                                    } else {
                                        assert(st0.contains_key(did));
                                        let jj = choose|jj: int| 0 <= jj < stack.len() && stack[jj] == did;
                                        assert(q[jj] == did);
                                        jj
                                    };
                                    assert(q[j] == did);
                                    lemma_subpath(self.req(), q, j);
                                    let c = q.subrange(j, q.len() as int).push(did);
                                    let sub = q.subrange(j, q.len() as int);
                                    assert forall|t: int| 0 <= t < c.len() - 1 implies #[trigger] edge(self.req(), c[t], c[t + 1]) by {
                                        if t < sub.len() - 1 {
                                            assert(edge(self.req(), sub[t], sub[t + 1]));
                                        } else {
                                            assert(c[t] == mid);
                                        }
                                    }
                                    assert(is_path(self.req(), c));
                                    assert(c[0] == c.last());
                                }
                            }
                            return (false, Ghost(fin));
                        }
                        None => {
                            let folder = self.mod_folder(did);
                            path.append(folder.as_str());
                            path.append(" -> ");
                            let ghost before = state@;
                            proof {
                                assert(q.push(did) =~= stack.push(mid).push(did));
                                let q2 = q.push(did);
                                assert forall|t: int| 0 <= t < q2.len() - 1 implies #[trigger] edge(self.req(), q2[t], q2[t + 1]) by {
                                    if t < q.len() - 1 {
                                        assert(edge(self.req(), q[t], q[t + 1]));
                                    }
                                }
                                lemma_measure(nodes(self.req()), st0.dom(), state@.dom(), mid);
                            }
                            let (ok, Ghost(f2)) = self.dfs_cycle_check(did, state, path, errors, Ghost(q), Ghost(fin));
                            proof {
                                fin = f2;
                            }
                            if !ok {
                                proof {
                                    if forall|k: i64| #[trigger] st0.contains_key(k) && st0[k] == CycleMark::Open ==> stack.contains(k) {
                                        assert forall|k: i64| #[trigger] before.contains_key(k) && before[k] == CycleMark::Open implies q.contains(k) by {
                                            if k == mid {
                                                assert(q[stack.len() as int] == mid);
                                            } else {
                                                assert(st0.contains_key(k));
                                                let jj = choose|jj: int| 0 <= jj < stack.len() && stack[jj] == k;
                                                assert(q[jj] == k);
                                            }
                                        }
                                    }
                                }
                                return (false, Ghost(fin));
                            }
                        }
                        Some(CycleMark::Done) => {}
                    }
                    i = i + 1;
                }
            }
            None => {}
        }
        let ghost before_done = state@;
        state.insert(mid, CycleMark::Done);
        proof {
            assert(!fin.contains(mid));
            let f = fin.push(mid);
            assert forall|ii: int, b: i64| 0 <= ii < f.len() && #[trigger] edge(self.req(), f[ii], b)
                implies f.take(ii).contains(b) by {
                if ii < fin.len() {
                    assert(f.take(ii) =~= fin.take(ii));
                    assert(edge(self.req(), fin[ii], b));
                } else {
                    assert(f.take(ii) =~= fin);
                    let jj = choose|jj: int| 0 <= jj < self.req()[mid].len() && self.req()[mid][jj] == b;
                    assert(before_done.contains_key(b) && before_done[b] == CycleMark::Done);
                }
            }
            assert forall|k: i64| (state@.contains_key(k) && state@[k] == CycleMark::Done) <==> #[trigger] f.contains(k) by {
                if k == mid {
                    assert(f[fin.len() as int] == mid);
                } else {
                    assert(f.contains(k) <==> fin.contains(k)) by {
                        if f.contains(k) {
                            let jj = choose|jj: int| 0 <= jj < f.len() && f[jj] == k;
                            assert(fin[jj] == k);
                        }
                        if fin.contains(k) {
                            let jj = choose|jj: int| 0 <= jj < fin.len() && fin[jj] == k;
                            assert(f[jj] == k);
                        }
                    }
                }
            }
            fin = f;
        }
        (true, Ghost(fin))
    }

    /// Depth-first search over the required dependencies. Returns whether the
    /// graph is free of cycles, with one error message per cycle found.
    pub fn detect_cycles_report(&self) -> (res: (bool, Vec<String>))
        ensures
            res.0 == !has_cycle(self.req()),
            res.0 <==> res.1@.len() == 0,
            forall|i: int| 0 <= i < res.1@.len() ==> starts_with(#[trigger] res.1@[i]@, cycle_msg_prefix()),
    {
        proof {
            self.lemma_req_finite();
        }
        let keys = keys_of(&self.deps);
        let mut state: HashMap<i64, CycleMark> = HashMap::new();
        let ghost mut fin: Seq<i64> = Seq::empty();
        let mut ok = true;
        let mut errors: Vec<String> = Vec::new();
        let mut i: usize = 0;
        while i < keys.len()
            invariant
                i <= keys.len(),
                forall|k: i64| self.deps@.contains_key(k) <==> keys@.contains(k),
                finish_order(state@, fin, self.req()),
                state@.dom().subset_of(nodes(self.req())),
                ok ==> forall|k: i64| #[trigger] state@.contains_key(k) ==> state@[k] == CycleMark::Done,
                !ok ==> has_cycle(self.req()),
                ok <==> errors@.len() == 0,
                forall|j: int| 0 <= j < errors@.len() ==> starts_with(#[trigger] errors@[j]@, cycle_msg_prefix()),
                forall|j: int| 0 <= j < i ==> state@.contains_key(#[trigger] keys@[j]),
            decreases keys.len() - i,
        {
            let mid = keys[i];
            assert(keys@.contains(mid));
            assert(self.req().contains_key(mid));
            if !state.contains_key(&mid) {
                let mut path = String::new();
                let ghost e0 = errors@;
                let ghost s0 = state@;
                let (r, Ghost(f2)) = self.dfs_cycle_check(mid, &mut state, &mut path, &mut errors, Ghost(Seq::empty()), Ghost(fin));
                proof {
                    fin = f2;
                    if !r {
                        assert forall|j: int| 0 <= j < errors@.len() implies starts_with(#[trigger] errors@[j]@, cycle_msg_prefix()) by {
                            if j < e0.len() {
                                assert(errors@.take(e0.len() as int)[j] == e0[j]);
                            }
                        }
                        if ok {
                            assert forall|k: i64| #[trigger] s0.contains_key(k) && s0[k] == CycleMark::Open
                                implies Seq::<i64>::empty().contains(k) by {}
                        }
                    } else {
                        if ok {
                            assert forall|k: i64| #[trigger] state@.contains_key(k) implies state@[k] == CycleMark::Done by {
                                if state@[k] == CycleMark::Open {
                                    assert(s0.contains_key(k));
                                }
                            }
                        }
                    }
                }
                if !r {
                    ok = false;
                }
            }
            i = i + 1;
        }
        proof {
            if ok {
                assert forall|k: i64| self.req().contains_key(k) implies fin.contains(k) by {
                    assert(keys@.contains(k));
                    let j = choose|j: int| 0 <= j < keys@.len() && keys@[j] == k;
                    assert(state@.contains_key(keys@[j]));
                }
                lemma_acyclic(self.req(), state@, fin);
            }
        }
        (ok, errors)
    }

    /// True when no required dependency chain leads from a mod back to itself.
    pub fn detect_cycles(&self) -> (ok: bool)
        ensures
            ok == !has_cycle(self.req()),
    {
        self.detect_cycles_report().0
    }

    fn ids_contain(v: &Vec<i64>, x: i64) -> (r: bool)
        ensures
            r == v@.contains(x),
    {
        let mut i: usize = 0;
        while i < v.len()
            invariant
                i <= v.len(),
                forall|j: int| 0 <= j < i ==> v@[j] != x,
            decreases v.len() - i,
        {
            if v[i] == x {
                return true;
            }
            i = i + 1;
        }
        false
    }

    fn enable_rec(&mut self, did: i64, msgs: &mut Vec<String>)
        ensures
            only_enables(old(self).mods@, final(self).mods@),
            forall|k: i64| #[trigger] newly_enabled(old(self).mods@, final(self).mods@).contains(k)
                ==> reach_disabled(old(self).mods@, old(self).req(), did).contains(k),
            forall|y: i64, z: i64| #[trigger] newly_enabled(old(self).mods@, final(self).mods@).contains(y)
                && #[trigger] edge(old(self).req(), y, z) && final(self).mods@.contains_key(z) ==> final(self).mods@[z].enabled,
            old(self).mods@.contains_key(did) ==> final(self).mods@[did].enabled,
            appends_fresh(old(self).enabled_ids@, final(self).enabled_ids@),
            final(self).enabled_ids@.take(old(self).enabled_ids@.len() as int) == old(self).enabled_ids@,
            final(self).enabled_ids@.len() >= old(self).enabled_ids@.len(),
            forall|k: i64| #[trigger] final(self).enabled_ids@.contains(k) <==> old(self).enabled_ids@.contains(k)
                || newly_enabled(old(self).mods@, final(self).mods@).contains(k),
            final(self).deps@ == old(self).deps@,
            final(self).optional_deps@ == old(self).optional_deps@,
            final(self).prompt == old(self).prompt,
            final(self).skip_ids@ == old(self).skip_ids@,
        decreases disabled_set(old(self).mods@).len(),
    {
        let ghost s0 = *self;
        match self.mods.get(&did) {
            None => {
                assert(newly_enabled(s0.mods@, self.mods@) =~= Set::<i64>::empty());
                assert(self.enabled_ids@.take(s0.enabled_ids@.len() as int) =~= s0.enabled_ids@);
                return;
            }
            Some(m) => {
                if m.enabled {
                    assert(newly_enabled(s0.mods@, self.mods@) =~= Set::<i64>::empty());
                    assert(self.enabled_ids@.take(s0.enabled_ids@.len() as int) =~= s0.enabled_ids@);
                    return;
                }
            }
        }
        let mut entry = self.mods.remove(&did).unwrap();
        entry.enabled = true;
        self.mods.insert(did, entry);
        proof {
            assert(self.mods@ =~= s0.mods@.insert(did, self.mods@[did]));
            lemma_disabled_shrinks(s0.mods@, did, self.mods@[did]);
            lemma_reach_self(s0.mods@, s0.req(), did);
        }
        if !Self::ids_contain(&self.enabled_ids, did) {
            self.enabled_ids.push(did);
        }
        assert(self.enabled_ids@.take(s0.enabled_ids@.len() as int) =~= s0.enabled_ids@);
        assert(appends_fresh(s0.enabled_ids@, self.enabled_ids@));
        let folder = self.mod_folder(did);
        let mut msg = String::from_str("    [+] Activado: ");
        msg.append(folder.as_str());
        msgs.push(msg);
        let sub_deps: Vec<i64> = match self.deps.get(&did) {
            Some(v) => v.clone(),
            None => Vec::new(),
        };
        proof {
            assert forall|k: i64| #[trigger] self.enabled_ids@.contains(k) <==> s0.enabled_ids@.contains(k)
                || newly_enabled(s0.mods@, self.mods@).contains(k) by {
                assert(newly_enabled(s0.mods@, self.mods@).contains(k) <==> k == did);
                if self.enabled_ids@.len() > s0.enabled_ids@.len() {
                    assert(self.enabled_ids@ =~= s0.enabled_ids@.push(did));
                }
            }
            assert(self.enabled_ids@.take(s0.enabled_ids@.len() as int) =~= s0.enabled_ids@);
        }
        let mut i: usize = 0;
        while i < sub_deps.len()
            invariant
                i <= sub_deps.len(),
                old(self).mods@ == s0.mods@,
                s0.req().contains_key(did) ==> sub_deps@ == s0.req()[did],
                !s0.req().contains_key(did) ==> sub_deps@.len() == 0,
                s0.mods@.contains_key(did),
                !s0.mods@[did].enabled,
                s0.mods@.dom().finite(),
                disabled_set(self.mods@).len() < disabled_set(s0.mods@).len(),
                disabled_set(self.mods@).subset_of(disabled_set(s0.mods@)),
                only_enables(s0.mods@, self.mods@),
                self.mods@[did].enabled,
                forall|k: i64| #[trigger] newly_enabled(s0.mods@, self.mods@).contains(k)
                    ==> reach_disabled(s0.mods@, s0.req(), did).contains(k),
                forall|y: i64, z: i64| #[trigger] newly_enabled(s0.mods@, self.mods@).contains(y) && y != did
                    && #[trigger] edge(s0.req(), y, z) && self.mods@.contains_key(z) ==> self.mods@[z].enabled,
                forall|j: int| 0 <= j < i && self.mods@.contains_key(#[trigger] sub_deps@[j]) ==> self.mods@[sub_deps@[j]].enabled,
                self.enabled_ids@.take(s0.enabled_ids@.len() as int) == s0.enabled_ids@,
                self.enabled_ids@.len() >= s0.enabled_ids@.len(),
                appends_fresh(s0.enabled_ids@, self.enabled_ids@),
                forall|k: i64| #[trigger] self.enabled_ids@.contains(k) <==> s0.enabled_ids@.contains(k)
                    || newly_enabled(s0.mods@, self.mods@).contains(k),
                self.deps@ == s0.deps@,
                self.optional_deps@ == s0.optional_deps@,
                self.prompt == s0.prompt,
                self.skip_ids@ == s0.skip_ids@,
            decreases sub_deps.len() - i,
        {
            let sub = sub_deps[i];
            let ghost s1 = *self;
            self.enable_rec(sub, msgs);
            proof {
                lemma_appends_fresh_trans(s0.enabled_ids@, s1.enabled_ids@, self.enabled_ids@);
                assert(edge(s0.req(), did, sub));
                assert(self.req() == s0.req());
                assert(s1.req() == s0.req());
                // Newly enabled by this call are reachable from `did` through `sub`.
                assert forall|k: i64| #[trigger] newly_enabled(s0.mods@, self.mods@).contains(k)
                    implies reach_disabled(s0.mods@, s0.req(), did).contains(k) by {
                    if !newly_enabled(s0.mods@, s1.mods@).contains(k) {
                        assert(newly_enabled(s1.mods@, self.mods@).contains(k));
                        lemma_reach_prepend(s0.mods@, s1.mods@, s0.req(), did, sub, k);
                    }
                }
                assert forall|y: i64, z: i64| #[trigger] newly_enabled(s0.mods@, self.mods@).contains(y) && y != did
                    && #[trigger] edge(s0.req(), y, z) && self.mods@.contains_key(z) implies self.mods@[z].enabled by {
                    if newly_enabled(s0.mods@, s1.mods@).contains(y) {
                        assert(s1.mods@.contains_key(z));
                    } else {
                        assert(newly_enabled(s1.mods@, self.mods@).contains(y));
                    }
                }
                assert forall|j: int| 0 <= j < i + 1 && self.mods@.contains_key(#[trigger] sub_deps@[j])
                    implies self.mods@[sub_deps@[j]].enabled by {
                    if j < i {
                        assert(s1.mods@.contains_key(sub_deps@[j]));
                    }
                }
                assert(disabled_set(self.mods@).subset_of(disabled_set(s1.mods@)));
                assert(s1.mods@.dom().finite());
                vstd::set_lib::lemma_len_subset(disabled_set(s1.mods@), s1.mods@.dom());
                vstd::set_lib::lemma_len_subset(disabled_set(self.mods@), disabled_set(s1.mods@));
                assert forall|k: i64| #[trigger] self.enabled_ids@.contains(k) <==> s0.enabled_ids@.contains(k)
                    || newly_enabled(s0.mods@, self.mods@).contains(k) by {
                    assert(newly_enabled(s0.mods@, self.mods@).contains(k) <==> newly_enabled(s0.mods@, s1.mods@).contains(k)
                        || newly_enabled(s1.mods@, self.mods@).contains(k));
                }
                assert(self.enabled_ids@.take(s0.enabled_ids@.len() as int) =~= s1.enabled_ids@.take(s0.enabled_ids@.len() as int));
            }
            i = i + 1;
        }
        proof {
            assert forall|y: i64, z: i64| #[trigger] newly_enabled(s0.mods@, self.mods@).contains(y)
                && #[trigger] edge(s0.req(), y, z) && self.mods@.contains_key(z) implies self.mods@[z].enabled by {
                if y == did {
                    let j = choose|j: int| 0 <= j < sub_deps@.len() && sub_deps@[j] == z;
                }
            }
        }
    }

    /// Enables `did` and, transitively, its required dependencies. The walk
    /// stops at mods that are already enabled or that are not in the graph.
    /// Returns one activation line per mod it enabled.
    pub fn enable_recursive(&mut self, did: i64) -> (msgs: Vec<String>)
        ensures
            only_enables(old(self).mods_map(), final(self).mods_map()),
            forall|k: i64| #[trigger] final(self).mods_map().contains_key(k) ==> final(self).mods_map()[k].enabled
                == (old(self).mods_map()[k].enabled || reach_disabled(old(self).mods_map(), old(self).req(), did).contains(k)),
            appends_fresh(old(self).enabled(), final(self).enabled()),
            forall|k: i64| #[trigger] final(self).enabled().contains(k) <==> old(self).enabled().contains(k)
                || reach_disabled(old(self).mods_map(), old(self).req(), did).contains(k),
            !disabled_set(old(self).mods_map()).contains(did) ==> final(self).mods_map() == old(self).mods_map()
                && final(self).enabled() == old(self).enabled(),
            final(self).req() == old(self).req(),
            final(self).opt() == old(self).opt(),
            final(self).prompt_mode() == old(self).prompt_mode(),
            final(self).skipped() == old(self).skipped(),
    {
        let ghost s0 = *self;
        let mut msgs: Vec<String> = Vec::new();
        self.enable_rec(did, &mut msgs);
        proof {
            let r = reach_disabled(s0.mods@, s0.req(), did);
            let n = newly_enabled(s0.mods@, self.mods@);
            assert forall|x: i64| #[trigger] r.contains(x) implies n.contains(x) by {
                let p = choose|p: Seq<i64>| #[trigger] is_path(s0.req(), p) && p[0] == did && p.last() == x
                    && forall|i: int| 0 <= i < p.len() ==> #[trigger] disabled_set(s0.mods@).contains(p[i]);
                Self::lemma_path_enabled(s0.mods@, self.mods@, s0.req(), p, p.len() - 1);
            }
            assert forall|k: i64| #[trigger] self.mods@.contains_key(k) implies self.mods@[k].enabled
                == (s0.mods@[k].enabled || r.contains(k)) by {
                if r.contains(k) {
                    assert(n.contains(k));
                }
                if self.mods@[k].enabled && !s0.mods@[k].enabled {
                    assert(n.contains(k));
                }
            }
            assert forall|k: i64| #[trigger] self.enabled_ids@.contains(k) <==> s0.enabled_ids@.contains(k)
                || r.contains(k) by {
                if r.contains(k) {
                    assert(n.contains(k));
                }
                if n.contains(k) {
                    assert(r.contains(k));
                }
            }
            if !disabled_set(s0.mods@).contains(did) {
                assert forall|x: i64| !r.contains(x) by {
                    if r.contains(x) {
                        let p = choose|p: Seq<i64>| #[trigger] is_path(s0.req(), p) && p[0] == did && p.last() == x
                            && forall|i: int| 0 <= i < p.len() ==> #[trigger] disabled_set(s0.mods@).contains(p[i]);
                        assert(disabled_set(s0.mods@).contains(p[0]));
                    }
                }
                assert forall|k: i64| #[trigger] self.mods@.contains_key(k) implies self.mods@[k] == s0.mods@[k] by {
                    assert(!r.contains(k));
                }
                assert(self.mods@ =~= s0.mods@);
                if self.enabled_ids@.len() > s0.enabled_ids@.len() {
                    let x = self.enabled_ids@[s0.enabled_ids@.len() as int];
                    assert(self.enabled_ids@.contains(x));
                    assert(!r.contains(x));
                    assert(s0.enabled_ids@.contains(x));
                    let j = choose|j: int| 0 <= j < s0.enabled_ids@.len() && s0.enabled_ids@[j] == x;
                    assert(self.enabled_ids@.take(s0.enabled_ids@.len() as int)[j] == x);
                    assert(self.enabled_ids@[j] == x);
                }
                assert(self.enabled_ids@ =~= s0.enabled_ids@.take(s0.enabled_ids@.len() as int));
            }
        }
        msgs
    }

    proof fn lemma_path_enabled(
        before: Map<i64, ModEntry>,
        after: Map<i64, ModEntry>,
        g: Map<i64, Seq<i64>>,
        p: Seq<i64>,
        k: int,
    )
        requires
            only_enables(before, after),
            is_path(g, p),
            0 <= k < p.len(),
            forall|i: int| 0 <= i < p.len() ==> #[trigger] disabled_set(before).contains(p[i]),
            before.contains_key(p[0]) ==> after[p[0]].enabled,
            forall|y: i64, z: i64| #[trigger] newly_enabled(before, after).contains(y)
                && #[trigger] edge(g, y, z) && after.contains_key(z) ==> after[z].enabled,
        ensures
            newly_enabled(before, after).contains(p[k]),
        decreases k,
    {
        assert(disabled_set(before).contains(p[k]));
        if k > 0 {
            Self::lemma_path_enabled(before, after, g, p, k - 1);
            assert(edge(g, p[k - 1], p[(k - 1) + 1]));
            assert(disabled_set(before).contains(p[k - 1]));
        } else {
            assert(disabled_set(before).contains(p[0]));
        }
    }

    fn keyed_list(&self, ds: &Vec<i64>, only_enabled: bool) -> (out: Vec<(i64, i64)>)
        ensures
            out@ == keyed(self.mods_map(), ds@, only_enabled),
    {
        let mut out: Vec<(i64, i64)> = Vec::new();
        let mut i: usize = 0;
        while i < ds.len()
            invariant
                i <= ds.len(),
                out@ == keyed(self.mods@, ds@.take(i as int), only_enabled),
            decreases ds.len() - i,
        {
            let d = ds[i];
            assert(ds@.take(i + 1).drop_last() =~= ds@.take(i as int));
            match self.mods.get(&d) {
                Some(m) => {
                    if !only_enabled || m.enabled {
                        out.push((m.load_order, d));
                    }
                }
                None => {}
            }
            i = i + 1;
        }
        assert(ds@.take(ds.len() as int) =~= ds@);
        out
    }

    /// Ids of the sorted dependency list of `mid` (required or enabled optional).
    fn sorted_deps(&self, mid: i64, optional: bool) -> (out: Vec<(i64, i64)>)
        ensures
            optional ==> ids_of(out@) == ids_of(sort_desc(keyed(self.mods_map(),
                if self.opt().contains_key(mid) { self.opt()[mid] } else { Seq::empty() }, true))),
            !optional ==> ids_of(out@) == ids_of(sort_desc(keyed(self.mods_map(),
                if self.req().contains_key(mid) { self.req()[mid] } else { Seq::empty() }, false))),
    {
        let src = if optional { self.optional_deps.get(&mid) } else { self.deps.get(&mid) };
        match src {
            Some(list) => sort_by_order_desc(self.keyed_list(list, optional)),
            None => {
                assert(keyed(self.mods_map(), Seq::<i64>::empty(), optional) =~= Seq::<(i64, i64)>::empty());
                assert(sort_desc(Seq::<(i64, i64)>::empty()) =~= Seq::<(i64, i64)>::empty());
                Vec::new()
            }
        }
    }

    proof fn lemma_universe_finite(&self)
        ensures
            self.universe().finite(),
    {
        assert(self.mods@.dom().finite());
        vstd::seq_lib::seq_to_set_is_finite(self.enabled_ids@);
    }

    fn dfs_list_exec(
        &self,
        list: &Vec<(i64, i64)>,
        visited: &mut HashSet<i64>,
        resolved: &mut Vec<String>,
        Ghost(fuel): Ghost<nat>,
    )
        requires
            self.universe().finite(),
            old(visited)@.subset_of(self.universe()),
            fuel > self.universe().difference(old(visited)@).len(),
            forall|t: int| 0 <= t < list@.len() ==> self.mods_map().contains_key(#[trigger] ids_of(list@)[t]),
        ensures
            final(visited)@ == self.dfs_list(ids_of(list@), old(visited)@, fuel).0,
            final(resolved)@.map_values(|x: String| x@) == old(resolved)@.map_values(|x: String| x@)
                + self.dfs_list(ids_of(list@), old(visited)@, fuel).1,
            final(visited)@.subset_of(self.universe()),
            old(visited)@.subset_of(final(visited)@),
        decreases fuel, 1nat,
    {
        let ghost v0 = visited@;
        let ghost r0 = resolved@.map_values(|x: String| x@);
        let ghost l = ids_of(list@);
        let mut i: usize = 0;
        while i < list.len()
            invariant
                i <= list.len(),
                l == ids_of(list@),
                self.universe().finite(),
                v0 == old(visited)@,
                r0 == old(resolved)@.map_values(|x: String| x@),
                v0.subset_of(self.universe()),
                fuel > self.universe().difference(v0).len(),
                forall|t: int| 0 <= t < list@.len() ==> self.mods_map().contains_key(#[trigger] ids_of(list@)[t]),
                visited@ == self.dfs_list(l.take(i as int), v0, fuel).0,
                resolved@.map_values(|x: String| x@) == r0 + self.dfs_list(l.take(i as int), v0, fuel).1,
                visited@.subset_of(self.universe()),
                v0.subset_of(visited@),
            decreases list.len() - i,
        {
            let d = list[i].1;
            assert(l[i as int] == d);
            assert(self.mods_map().contains_key(l[i as int]));
            let ghost vb = visited@;
            let ghost rb = resolved@.map_values(|x: String| x@);
            proof {
                vstd::set_lib::lemma_len_subset(self.universe().difference(visited@), self.universe().difference(v0));
            }
            self.dfs_resolve(d, visited, resolved, Ghost(fuel));
            proof {
                let lt = l.take(i + 1);
                assert(lt.drop_last() =~= l.take(i as int));
                assert(lt.last() == d);
                assert(resolved@.map_values(|x: String| x@) =~= r0 + self.dfs_list(lt, v0, fuel).1);
            }
            i = i + 1;
        }
        assert(l.take(list.len() as int) =~= l);
    }

    fn dfs_resolve(&self, mid: i64, visited: &mut HashSet<i64>, resolved: &mut Vec<String>, Ghost(fuel): Ghost<nat>)
        requires
            self.universe().finite(),
            old(visited)@.subset_of(self.universe()),
            self.universe().contains(mid),
            fuel > self.universe().difference(old(visited)@).len(),
        ensures
            final(visited)@ == self.dfs_out(mid, old(visited)@, fuel).0,
            final(resolved)@.map_values(|x: String| x@) == old(resolved)@.map_values(|x: String| x@)
                + self.dfs_out(mid, old(visited)@, fuel).1,
            final(visited)@.subset_of(self.universe()),
            old(visited)@.subset_of(final(visited)@),
        decreases fuel, 0nat,
    {
        let ghost v0 = visited@;
        let ghost r0 = resolved@.map_values(|x: String| x@);
        if visited.contains(&mid) {
            assert(resolved@.map_values(|x: String| x@) =~= r0 + Seq::<Seq<char>>::empty());
            return;
        }
        if self.skip_ids.contains(&mid) {
            assert(resolved@.map_values(|x: String| x@) =~= r0 + Seq::<Seq<char>>::empty());
            return;
        }
        visited.insert(mid);
        match self.mods.get(&mid) {
            Some(m) => {
                resolved.push(m.folder_name.clone());
                assert(resolved@.map_values(|x: String| x@) =~= r0 + seq![m.folder_name@]);
            }
            None => {
                assert(resolved@.map_values(|x: String| x@) =~= r0 + Seq::<Seq<char>>::empty());
            }
        }
        let ghost r1 = resolved@.map_values(|x: String| x@);
        proof {
            vstd::set_lib::lemma_len_subset(self.universe().difference(v0), self.universe());
            assert(self.universe().difference(visited@) =~= self.universe().difference(v0).remove(mid));
        }
        let req_sorted = self.sorted_deps(mid, false);
        proof {
            assert forall|t: int| 0 <= t < req_sorted@.len() implies self.mods_map().contains_key(#[trigger] ids_of(req_sorted@)[t]) by {
                lemma_sorted_ids_are_mods(self.mods_map(),
                    if self.req().contains_key(mid) { self.req()[mid] } else { Seq::empty() }, false, t);
            }
        }
        self.dfs_list_exec(&req_sorted, visited, resolved, Ghost((fuel - 1) as nat));
        let opt_sorted = self.sorted_deps(mid, true);
        proof {
            assert forall|t: int| 0 <= t < opt_sorted@.len() implies self.mods_map().contains_key(#[trigger] ids_of(opt_sorted@)[t]) by {
                lemma_sorted_ids_are_mods(self.mods_map(),
                    if self.opt().contains_key(mid) { self.opt()[mid] } else { Seq::empty() }, true, t);
            }
            vstd::set_lib::lemma_len_subset(self.universe().difference(visited@), self.universe().difference(v0.insert(mid)));
        }
        self.dfs_list_exec(&opt_sorted, visited, resolved, Ghost((fuel - 1) as nat));
        proof {
            let here: Seq<Seq<char>> = if self.mods_map().contains_key(mid) {
                seq![self.mods_map()[mid].folder_name@]
            } else {
                Seq::empty()
            };
            assert(r1 == r0 + here);
            assert(resolved@.map_values(|x: String| x@) =~= r0 + self.dfs_out(mid, v0, fuel).1);
        }
    }

    /// Ids that an enabled mod lists as a required or optional dependency.
    fn dependency_set(&self) -> (out: HashSet<i64>)
        ensures
            forall|x: i64| #[trigger] out@.contains(x) <==> self.is_dependency_of_enabled(x),
    {
        let mut out: HashSet<i64> = HashSet::new();
        let mut i: usize = 0;
        while i < self.enabled_ids.len()
            invariant
                i <= self.enabled_ids.len(),
                forall|x: i64| #[trigger] out@.contains(x) <==> self.dep_in_prefix(i as int, x),
            decreases self.enabled_ids.len() - i,
        {
            let mid = self.enabled_ids[i];
            let ghost before = out@;
            let mut k: usize = 0;
            while k < 2
                invariant
                    k <= 2,
                    i < self.enabled_ids.len(),
                    mid == self.enabled_ids@[i as int],
                    forall|x: i64| #[trigger] before.contains(x) <==> self.dep_in_prefix(i as int, x),
                    forall|x: i64| #[trigger] out@.contains(x) <==> before.contains(x)
                        || (k >= 1 && edge(self.req(), mid, x)) || (k >= 2 && edge(self.opt(), mid, x)),
                decreases 2 - k,
            {
                let src = if k == 0 { self.deps.get(&mid) } else { self.optional_deps.get(&mid) };
                let ghost g = if k == 0 { self.req() } else { self.opt() };
                let ghost mid_out = out@;
                match src {
                    Some(list) => {
                        assert(g.contains_key(mid) && g[mid] == list@);
                        let mut t: usize = 0;
                        while t < list.len()
                            invariant
                                t <= list.len(),
                                forall|x: i64| #[trigger] out@.contains(x) <==> mid_out.contains(x)
                                    || exists|u: int| 0 <= u < t && list@[u] == x,
                            decreases list.len() - t,
                        {
                            out.insert(list[t]);
                            proof {
                                assert forall|x: i64| #[trigger] out@.contains(x) <==> mid_out.contains(x)
                                    || exists|u: int| 0 <= u < t + 1 && list@[u] == x by {
                                    if x == list@[t as int] {
                                        assert(list@[t as int] == x);
                                    }
                                }
                            }
                            t = t + 1;
                        }
                        proof {
                            assert forall|x: i64| (exists|u: int| 0 <= u < list.len() && list@[u] == x) <==> edge(g, mid, x) by {
                                if edge(g, mid, x) {
                                    let u = choose|u: int| 0 <= u < list@.len() && list@[u] == x;
                                }
                            }
                        }
                    }
                    None => {
                        assert(!g.contains_key(mid));
                    }
                }
                k = k + 1;
            }
            proof {
                assert forall|x: i64| #[trigger] out@.contains(x) <==> self.dep_in_prefix(i + 1, x) by {
                    if out@.contains(x) && !before.contains(x) {
                        assert(self.dep_edge(i as int, x));
                    }
                    if self.dep_in_prefix(i + 1, x) {
                        let j = choose|j: int| 0 <= j < i + 1 && #[trigger] self.dep_edge(j, x);
                        if j < i {
                            assert(self.dep_in_prefix(i as int, x));
                        }
                    }
                    if before.contains(x) {
                        let j = choose|j: int| 0 <= j < i && #[trigger] self.dep_edge(j, x);
                        assert(self.dep_edge(j, x));
                    }
                }
            }
            i = i + 1;
        }
        out
    }

    /// Folders of the enabled mods and their dependencies in overlay order
    /// (highest priority first): see `resolve_spec`.
    pub fn resolve(&self) -> (out: Vec<String>)
        ensures
            out@.map_values(|x: String| x@) == self.resolve_spec(),
    {
        proof {
            self.lemma_universe_finite();
        }
        let dep_of = self.dependency_set();
        let mut visited: HashSet<i64> = HashSet::new();
        let mut resolved: Vec<String> = Vec::new();
        let ghost fuel: nat = self.universe().len() + 1;
        let mut i: usize = 0;
        while i < self.enabled_ids.len()
            invariant
                i <= self.enabled_ids.len(),
                self.universe().finite(),
                fuel == self.universe().len() + 1,
                forall|x: i64| #[trigger] dep_of@.contains(x) <==> self.is_dependency_of_enabled(x),
                visited@ == self.dfs_list(self.roots_in(self.enabled_ids@.take(i as int)), Set::empty(), fuel).0,
                resolved@.map_values(|x: String| x@) == self.dfs_list(self.roots_in(self.enabled_ids@.take(i as int)), Set::empty(), fuel).1,
                visited@.subset_of(self.universe()),
            decreases self.enabled_ids.len() - i,
        {
            let mid = self.enabled_ids[i];
            let ghost taken = self.enabled_ids@.take(i + 1);
            assert(taken.drop_last() =~= self.enabled_ids@.take(i as int));
            assert(taken.last() == mid);
            if !dep_of.contains(&mid) {
                proof {
                    vstd::set_lib::lemma_len_subset(self.universe().difference(visited@), self.universe());
                    assert(self.enabled_ids@.to_set().contains(mid)) by {
                        assert(self.enabled_ids@[i as int] == mid);
                    }
                }
                let ghost r_before = resolved@.map_values(|x: String| x@);
                self.dfs_resolve(mid, &mut visited, &mut resolved, Ghost(fuel));
                proof {
                    let rs = self.roots_in(taken);
                    assert(rs == self.roots_in(self.enabled_ids@.take(i as int)).push(mid));
                    assert(rs.drop_last() =~= self.roots_in(self.enabled_ids@.take(i as int)));
                }
            }
            i = i + 1;
        }
        assert(self.enabled_ids@.take(self.enabled_ids.len() as int) =~= self.enabled_ids@);
        resolved
    }

    /// Warnings for the optional dependencies of the enabled mods that are
    /// disabled or not installed, in the order of `enabled_ids`.
    pub fn warn_optional_deps(&self) -> (out: Vec<String>)
        ensures
            out@.map_values(|x: String| x@) == opt_warnings(self.mods_map(), self.opt(), self.enabled()),
    {
        let mut out: Vec<String> = Vec::new();
        let mut i: usize = 0;
        while i < self.enabled_ids.len()
            invariant
                i <= self.enabled_ids.len(),
                out@.map_values(|x: String| x@) == opt_warnings(self.mods@, self.opt(), self.enabled_ids@.take(i as int)),
            decreases self.enabled_ids.len() - i,
        {
            let mid = self.enabled_ids[i];
            assert(self.enabled_ids@.take(i + 1).drop_last() =~= self.enabled_ids@.take(i as int));
            let ghost base = out@.map_values(|x: String| x@);
            match self.optional_deps.get(&mid) {
                Some(list) => {
                    let mod_name = self.mod_folder(mid);
                    let mut j: usize = 0;
                    while j < list.len()
                        invariant
                            j <= list.len(),
                            mod_name@ == folder_of(self.mods@, mid),
                            out@.map_values(|x: String| x@) == base + opt_warnings_in(self.mods@, mid, list@.take(j as int)),
                        decreases list.len() - j,
                    {
                        let d = list[j];
                        assert(list@.take(j + 1).drop_last() =~= list@.take(j as int));
                        let ghost before = out@.map_values(|x: String| x@);
                        match self.mods.get(&d) {
                            Some(m) => {
                                if !m.enabled {
                                    let mut msg = String::from_str("'");
                                    msg.append(mod_name.as_str());
                                    msg.append("' recomienda '");
                                    msg.append(m.folder_name.as_str());
                                    msg.append("', pero está desactivado.");
                                    out.push(msg);
                                    assert(out@.map_values(|x: String| x@) =~= before.push(opt_warning(self.mods@, mid, d)));
                                }
                            }
                            None => {
                                let mut msg = String::from_str("'");
                                msg.append(mod_name.as_str());
                                msg.append("' recomienda el mod con id=");
                                push_int_decimal(&mut msg, d);
                                msg.append(", que no está instalado.");
                                out.push(msg);
                                assert(out@.map_values(|x: String| x@) =~= before.push(opt_warning(self.mods@, mid, d)));
                            }
                        }
                        j = j + 1;
                    }
                    assert(list@.take(list.len() as int) =~= list@);
                    assert(self.opt()[mid] == list@);
                }
                None => {
                    assert(out@.map_values(|x: String| x@) =~= base + Seq::<Seq<char>>::empty());
                }
            }
            i = i + 1;
        }
        assert(self.enabled_ids@.take(self.enabled_ids.len() as int) =~= self.enabled_ids@);
        out
    }

    /// Applies the answer to the disabled-dependency question: `1` enables the
    /// dependencies (transitively), `2` leaves them out of the load order, `3`
    /// cancels, anything else is refused. Returns the activation lines.
    pub fn apply_dep_choice(&mut self, disabled_deps: &Vec<(i64, i64)>, choice: &str) -> (res: Result<Vec<String>, DepChoiceError>)
        ensures
            choice_applied(*old(self), *final(self), seconds(disabled_deps@), choice@,
                match res { Ok(_) => None, Err(e) => Some(e) }),
    {
        let c = one_char(choice);
        if c == Some('1') {
            let ghost s0 = *self;
            let ghost ds = seconds(disabled_deps@);
            let mut msgs: Vec<String> = Vec::new();
            let mut i: usize = 0;
            while i < disabled_deps.len()
                invariant
                    i <= disabled_deps.len(),
                    ds == seconds(disabled_deps@),
                    only_enables(s0.mods@, self.mods@),
                    forall|k: i64| #[trigger] self.mods@.contains_key(k) ==> self.mods@[k].enabled
                        == (s0.mods@[k].enabled || reach_any(s0.mods@, s0.req(), ds.take(i as int)).contains(k)),
                    self.enabled_ids@.take(s0.enabled_ids@.len() as int) == s0.enabled_ids@,
                    self.enabled_ids@.len() >= s0.enabled_ids@.len(),
                    forall|k: i64| #[trigger] self.enabled_ids@.contains(k) <==> s0.enabled_ids@.contains(k)
                        || reach_any(s0.mods@, s0.req(), ds.take(i as int)).contains(k),
                    self.skip_ids@ == s0.skip_ids@,
                    self.req() == s0.req(),
                    self.opt() == s0.opt(),
                    self.prompt == s0.prompt,
                decreases disabled_deps.len() - i,
            {
                let (_, did) = disabled_deps[i];
                let ghost s1 = *self;
                let mut more = self.enable_recursive(did);
                msgs.append(&mut more);
                proof {
                    assert(ds[i as int] == did);
                    assert forall|k: i64| #[trigger] self.mods@.contains_key(k) implies self.mods@[k].enabled
                        == (s0.mods@[k].enabled || reach_any(s0.mods@, s0.req(), ds.take(i + 1)).contains(k)) by {
                        lemma_reach_step(s0.mods@, s1.mods@, s0.req(), ds, i as int, k);
                    }
                    assert forall|k: i64| #[trigger] self.enabled_ids@.contains(k) <==> s0.enabled_ids@.contains(k)
                        || reach_any(s0.mods@, s0.req(), ds.take(i + 1)).contains(k) by {
                        lemma_reach_step(s0.mods@, s1.mods@, s0.req(), ds, i as int, k);
                    }
                    assert(self.enabled_ids@.take(s0.enabled_ids@.len() as int)
                        =~= s1.enabled_ids@.take(s0.enabled_ids@.len() as int));
                }
                i = i + 1;
            }
            assert(ds.take(disabled_deps.len() as int) =~= ds);
            Ok(msgs)
        } else if c == Some('2') {
            let ghost s0 = *self;
            let mut i: usize = 0;
            while i < disabled_deps.len()
                invariant
                    i <= disabled_deps.len(),
                    self.skip_ids@ == s0.skip_ids@.union(seconds(disabled_deps@).take(i as int).to_set()),
                    self.mods@ == s0.mods@,
                    self.enabled_ids@ == s0.enabled_ids@,
                    self.deps@ == s0.deps@,
                    self.optional_deps@ == s0.optional_deps@,
                    self.prompt == s0.prompt,
                decreases disabled_deps.len() - i,
            {
                let (_, did) = disabled_deps[i];
                self.skip_ids.insert(did);
                proof {
                    let sd = seconds(disabled_deps@);
                    assert(sd.take(i + 1) =~= sd.take(i as int).push(did));
                    assert(self.skip_ids@ =~= s0.skip_ids@.union(sd.take(i + 1).to_set()));
                }
                i = i + 1;
            }
            assert(seconds(disabled_deps@).take(disabled_deps.len() as int) =~= seconds(disabled_deps@));
            Ok(Vec::new())
        } else if c == Some('3') {
            Err(DepChoiceError::Cancelled)
        } else {
            Err(DepChoiceError::Invalid)
        }
    }

    /// Handles the required dependencies of enabled mods that are disabled.
    /// With `Prompt` the caller has asked the user and passes the answer line;
    /// `AutoEnable` answers `1` and `Ignore` answers `2`. Returns the lines to
    /// log (the notice for the automatic modes, then one per enabled mod).
    pub fn enable_mods_for_deps(&mut self, answer: &str) -> (res: Result<Vec<LogLine>, DepChoiceError>)
        ensures
            deps_handled(*old(self), *final(self), answer@, match res { Ok(_) => None, Err(e) => Some(e) }),
    {
        let disabled = self.check_disabled_deps();
        if disabled.len() == 0 {
            return Ok(Vec::new());
        }
        let mut lines: Vec<LogLine> = Vec::new();
        let res = match self.prompt {
            DepPrompt::Prompt => self.apply_dep_choice(&disabled, trim(answer)),
            DepPrompt::AutoEnable => {
                lines.push(LogLine {
                    level: LogLevel::Info,
                    message: String::from_str("Activando dependencias deshabilitadas automáticamente (--deps-enable)..."),
                });
                let one = String::from_str("1");
                proof {
                    reveal_strlit("1");
                    assert(one@ =~= seq!['1']);
                }
                self.apply_dep_choice(&disabled, one.as_str())
            }
            DepPrompt::Ignore => {
                lines.push(LogLine {
                    level: LogLevel::Warn,
                    message: String::from_str("Ignorando dependencias deshabilitadas (--deps-ignore). Puede que el juego falle."),
                });
                let two = String::from_str("2");
                proof {
                    reveal_strlit("2");
                    assert(two@ =~= seq!['2']);
                }
                self.apply_dep_choice(&disabled, two.as_str())
            }
        };
        match res {
            Ok(msgs) => {
                let mut i: usize = 0;
                while i < msgs.len()
                    invariant
                        i <= msgs.len(),
                    decreases msgs.len() - i,
                {
                    lines.push(LogLine { level: LogLevel::Info, message: msgs[i].clone() });
                    i = i + 1;
                }
                Ok(lines)
            }
            Err(e) => Err(e),
        }
    }

    fn missing_lines(&self, required: bool, lines: &mut Vec<LogLine>)
        ensures
            forall|i: int| 0 <= i < old(lines)@.len() ==> final(lines)@[i] == old(lines)@[i],
            final(lines)@.len() >= old(lines)@.len(),
            forall|i: int| old(lines)@.len() <= i < final(lines)@.len() ==> self.explains(#[trigger] final(lines)@[i], required),
            forall|a: i64, b: i64| #[trigger] edge(self.dep_graph(required), a, b)
                && !self.mods_map().contains_key(b) ==> exists|i: int| old(lines)@.len() <= i < final(lines)@.len()
                && #[trigger] is_missing_line(self.mods_map(), final(lines)@[i], a, b, required),
    {
        let ghost g = self.dep_graph(required);
        let src = if required { &self.deps } else { &self.optional_deps };
        assert(adj(src@) == g);
        let keys = keys_of(src);
        let ghost n0 = lines@.len();
        let ghost l0 = lines@;
        let mut i: usize = 0;
        while i < keys.len()
            invariant
                i <= keys.len(),
                g == (self.dep_graph(required)),
                adj(src@) == g,
                forall|k: i64| src@.contains_key(k) <==> keys@.contains(k),
                n0 == old(lines)@.len(),
                l0 == old(lines)@,
                lines@.len() >= n0,
                forall|t: int| 0 <= t < n0 ==> lines@[t] == l0[t],
                forall|t: int| n0 <= t < lines@.len() ==> self.explains(#[trigger] lines@[t], required),
                forall|a: i64, b: i64| #[trigger] edge(g, a, b) && !self.mods_map().contains_key(b)
                    && keys@.take(i as int).contains(a) ==> exists|t: int| n0 <= t < lines@.len()
                    && #[trigger] is_missing_line(self.mods_map(), lines@[t], a, b, required),
            decreases keys.len() - i,
        {
            let mid = keys[i];
            assert(keys@.contains(mid));
            let list = src.get(&mid).unwrap();
            assert(g[mid] == list@);
            let name = self.mod_folder(mid);
            let ghost n1 = lines@.len();
            let mut j: usize = 0;
            while j < list.len()
                invariant
                    j <= list.len(),
                    g == (self.dep_graph(required)),
                    g.contains_key(mid) && g[mid] == list@,
                    name@ == folder_of(self.mods_map(), mid),
                    n0 <= n1 <= lines@.len(),
                    forall|t: int| 0 <= t < n0 ==> lines@[t] == l0[t],
                    forall|t: int| n0 <= t < lines@.len() ==> self.explains(#[trigger] lines@[t], required),
                    forall|a: i64, b: i64| #[trigger] edge(g, a, b) && !self.mods_map().contains_key(b)
                        && keys@.take(i as int).contains(a) ==> exists|t: int| n0 <= t < n1
                        && #[trigger] is_missing_line(self.mods_map(), lines@[t], a, b, required),
                    forall|t: int| 0 <= t < n1 ==> #[trigger] lines@[t] == lines@[t],
                    forall|jj: int| 0 <= jj < j && !self.mods_map().contains_key(#[trigger] list@[jj]) ==> exists|t: int| n1 <= t < lines@.len()
                        && #[trigger] is_missing_line(self.mods_map(), lines@[t], mid, list@[jj], required),
                decreases list.len() - j,
            {
                let did = list[j];
                if !self.mods.contains_key(&did) {
                    let mut msg = String::from_str("'");
                    msg.append(name.as_str());
                    if required {
                        msg.append("' depende del mod con id=");
                    } else {
                        msg.append("' recomienda el mod con id=");
                    }
                    push_int_decimal(&mut msg, did);
                    msg.append(", que no existe en la base de datos.");
                    let line = LogLine { level: if required { LogLevel::Error } else { LogLevel::Warn }, message: msg };
                    proof {
                        assert(line.message@ =~= missing_msg(self.mods_map(), mid, did, required));
                        assert(edge(g, mid, did));
                        assert(is_missing_line(self.mods_map(), line, mid, did, required));
                    }
                    let ghost before = lines@;
                    lines.push(line);
                    proof {
                        assert forall|t: int| n0 <= t < lines@.len() implies self.explains(lines@[t], required) by {
                            if t < before.len() {
                                assert(lines@[t] == before[t]);
                            } else {
                                assert(is_missing_line(self.mods_map(), lines@[t], mid, did, required));
                            }
                        }
                        assert forall|a: i64, b: i64| #[trigger] edge(g, a, b) && !self.mods_map().contains_key(b)
                            && keys@.take(i as int).contains(a) implies exists|t: int| n0 <= t < n1
                            && #[trigger] is_missing_line(self.mods_map(), lines@[t], a, b, required) by {
                            let t = choose|t: int| n0 <= t < n1 && #[trigger] is_missing_line(self.mods_map(), before[t], a, b, required);
                            assert(lines@[t] == before[t]);
                        }
                        assert forall|jj: int| 0 <= jj < j + 1 && !self.mods_map().contains_key(#[trigger] list@[jj]) implies exists|t: int| n1 <= t < lines@.len()
                            && #[trigger] is_missing_line(self.mods_map(), lines@[t], mid, list@[jj], required) by {
                            if jj < j {
                                let t = choose|t: int| n1 <= t < before.len() && #[trigger] is_missing_line(self.mods_map(), before[t], mid, list@[jj], required);
                                assert(lines@[t] == before[t]);
                            } else {
                                assert(is_missing_line(self.mods_map(), lines@[before.len() as int], mid, list@[jj], required));
                            }
                        }
                    }
                }
                j = j + 1;
            }
            proof {
                assert(keys@.take(i + 1) =~= keys@.take(i as int).push(mid));
                assert forall|a: i64, b: i64| #[trigger] edge(g, a, b) && !self.mods_map().contains_key(b)
                    && keys@.take(i + 1).contains(a) implies exists|t: int| n0 <= t < lines@.len()
                    && #[trigger] is_missing_line(self.mods_map(), lines@[t], a, b, required) by {
                    if a == mid {
                        let jj = choose|jj: int| 0 <= jj < list@.len() && list@[jj] == b;
                        let t = choose|t: int| n1 <= t < lines@.len() && #[trigger] is_missing_line(self.mods_map(), lines@[t], mid, list@[jj], required);
                    } else {
                        assert(keys@.take(i as int).contains(a));
                        let t = choose|t: int| n0 <= t < n1 && #[trigger] is_missing_line(self.mods_map(), lines@[t], a, b, required);
                    }
                }
            }
            i = i + 1;
        }
        assert(keys@.take(keys.len() as int) =~= keys@);
    }

    /// Diagnostics for dependencies that name no mod of the graph: an error for
    /// each missing required dependency, a warning for each missing optional one.
    /// (The order among them follows the maps' iteration order.)
    pub fn dependency_problems(&self) -> (lines: Vec<LogLine>)
        ensures
            forall|i: int| 0 <= i < lines@.len() ==> self.explains(#[trigger] lines@[i], true) || self.explains(lines@[i], false),
            forall|a: i64, b: i64, r: bool| #[trigger] edge(self.dep_graph(r), a, b)
                && !self.mods_map().contains_key(b) ==> exists|i: int| 0 <= i < lines@.len()
                && #[trigger] is_missing_line(self.mods_map(), lines@[i], a, b, r),
    {
        let mut lines: Vec<LogLine> = Vec::new();
        self.missing_lines(true, &mut lines);
        let ghost mid_lines = lines@;
        self.missing_lines(false, &mut lines);
        proof {
            assert forall|i: int| 0 <= i < lines@.len() implies self.explains(#[trigger] lines@[i], true)
                || self.explains(lines@[i], false) by {
                if i < mid_lines.len() {
                    assert(lines@[i] == mid_lines[i]);
                }
            }
            assert forall|a: i64, b: i64, r: bool| #[trigger] edge(self.dep_graph(r), a, b)
                && !self.mods_map().contains_key(b) implies exists|i: int| 0 <= i < lines@.len()
                && #[trigger] is_missing_line(self.mods_map(), lines@[i], a, b, r) by {
                if r {
                    let i = choose|i: int| 0 <= i < mid_lines.len() && #[trigger] is_missing_line(self.mods_map(), mid_lines[i], a, b, true);
                    assert(lines@[i] == mid_lines[i]);
                } else {
                    let i = choose|i: int| mid_lines.len() <= i < lines@.len() && #[trigger] is_missing_line(self.mods_map(), lines@[i], a, b, false);
                }
            }
        }
        lines
    }
}

/// What handling the disabled required dependencies does to the graph: with
/// none, nothing; otherwise the answer (the typed one when asking, `1` for
/// automatic enabling, `2` for ignoring) is applied to them.
pub open spec fn deps_handled(before: DepGraph, after: DepGraph, answer: Seq<char>, err: Option<DepChoiceError>) -> bool {
    let pairs = disabled_pairs(before.mods_map(), before.req(), before.enabled());
    if pairs.len() == 0 {
        err is None && after == before
    } else if before.prompt_mode() == DepPrompt::Prompt {
        choice_applied(before, after, seconds(pairs), trim_seq(answer), err)
    } else if before.prompt_mode() == DepPrompt::AutoEnable {
        choice_applied(before, after, seconds(pairs), seq!['1'], err)
    } else {
        choice_applied(before, after, seconds(pairs), seq!['2'], err)
    }
}

/// With automatic enabling, handling the disabled dependencies succeeds,
/// disables nothing, and leaves no enabled mod with a disabled required
/// dependency.
pub proof fn lemma_auto_enable_resolves(before: DepGraph, after: DepGraph, answer: Seq<char>, err: Option<DepChoiceError>)
    requires
        before.prompt_mode() == DepPrompt::AutoEnable,
        deps_handled(before, after, answer, err),
    ensures
        err is None,
        only_enables(before.mods_map(), after.mods_map()),
        disabled_pairs(after.mods_map(), after.req(), after.enabled()).len() == 0,
{
    let bm = before.mods_map();
    let g = before.req();
    let pairs = disabled_pairs(bm, g, before.enabled());
    if pairs.len() == 0 {
        return;
    }
    let ds = seconds(pairs);
    let am = after.mods_map();
    let ae = after.enabled();
    let rs = reach_any(bm, g, ds);
    let out = disabled_pairs(am, g, ae);
    if out.len() > 0 {
        let (a, b) = out[0];
        assert(out.contains((a, b)));
        lemma_disabled_pairs_exact(am, g, ae, a, b);
        assert(am.contains_key(b) && !am[b].enabled);
        assert(bm.contains_key(b));
        assert(!bm[b].enabled && !rs.contains(b));
        assert(disabled_set(bm).contains(b));
        if before.enabled().contains(a) {
            lemma_disabled_pairs_exact(bm, g, before.enabled(), a, b);
            let j = choose|j: int| 0 <= j < pairs.len() && pairs[j] == (a, b);
            assert(ds[j] == b);
            lemma_reach_self(bm, g, b);
            assert(rs.contains(b));
        } else {
            assert(rs.contains(a));
            let i = choose|i: int| 0 <= i < ds.len() && #[trigger] reach_disabled(bm, g, ds[i]).contains(a);
            let p = choose|p: Seq<i64>| #[trigger] is_path(g, p) && p[0] == ds[i] && p.last() == a
                && forall|t: int| 0 <= t < p.len() ==> #[trigger] disabled_set(bm).contains(p[t]);
            assert(disabled_set(bm).contains(p[p.len() - 1]));
            let q = seq![a, b];
            assert(is_path(g, q)) by {
                assert forall|t: int| 0 <= t < q.len() - 1 implies #[trigger] edge(g, q[t], q[t + 1]) by {
                    assert(q[0] == a && q[1] == b);
                }
            }
            assert forall|t: int| 0 <= t < q.len() implies #[trigger] disabled_set(bm).contains(q[t]) by {}
            lemma_reach_concat(bm, g, ds[i], q, 0);
            assert(reach_disabled(bm, g, ds[i]).contains(b));
            assert(rs.contains(b));
        }
    }
}

/// No two mods share a folder name.
pub open spec fn folders_distinct(m: Map<i64, ModEntry>) -> bool {
    forall|a: i64, b: i64| m.contains_key(a) && m.contains_key(b)
        && #[trigger] m[a].folder_name@ == #[trigger] m[b].folder_name@ ==> a == b
}

/// A walk that started with `v0` visited ended with `v` visited and listed
/// `out`: each folder once, the `i`-th the folder of `ids[i]`, a mod it newly
/// visited.
pub open spec fn walk_ok(g: DepGraph, v0: Set<i64>, v: Set<i64>, out: Seq<Seq<char>>, ids: Seq<i64>) -> bool {
    &&& v0.subset_of(v)
    &&& out.no_duplicates()
    &&& ids.len() == out.len()
    &&& forall|i: int| 0 <= i < ids.len() ==> v.contains(#[trigger] ids[i]) && !v0.contains(ids[i])
        && g.mods_map().contains_key(ids[i]) && out[i] == g.mods_map()[ids[i]].folder_name@
}

proof fn lemma_walk_concat(
    g: DepGraph,
    v0: Set<i64>,
    v1: Set<i64>,
    v2: Set<i64>,
    o1: Seq<Seq<char>>,
    o2: Seq<Seq<char>>,
    i1: Seq<i64>,
    i2: Seq<i64>,
)
    requires
        folders_distinct(g.mods_map()),
        walk_ok(g, v0, v1, o1, i1),
        walk_ok(g, v1, v2, o2, i2),
    ensures
        walk_ok(g, v0, v2, o1 + o2, i1 + i2),
{
    let o = o1 + o2;
    let ids = i1 + i2;
    assert forall|x: i64| v0.contains(x) implies v2.contains(x) by {
        assert(v1.contains(x));
    }
    assert forall|i: int| 0 <= i < ids.len() implies v2.contains(#[trigger] ids[i]) && !v0.contains(ids[i])
        && g.mods_map().contains_key(ids[i]) && o[i] == g.mods_map()[ids[i]].folder_name@ by {
        if i < i1.len() {
            assert(ids[i] == i1[i]);
            assert(o[i] == o1[i]);
        } else {
            assert(ids[i] == i2[i - i1.len()]);
            assert(o[i] == o2[i - i1.len()]);
        }
    }
    assert forall|i: int, j: int| 0 <= i < o.len() && 0 <= j < o.len() && i != j implies o[i] != o[j] by {
        if i < o1.len() && j >= o1.len() {
            assert(i1[i] != i2[j - o1.len()]);
        } else if j < o1.len() && i >= o1.len() {
            assert(i1[j] != i2[i - o1.len()]);
        } else if i < o1.len() {
            assert(o1[i] != o1[j]);
        } else {
            assert(o2[i - o1.len()] != o2[j - o1.len()]);
        }
    }
    assert(o.no_duplicates());
    assert(v0.subset_of(v2));
}

proof fn lemma_walk_out(g: DepGraph, node: i64, v: Set<i64>, fuel: nat) -> (ids: Seq<i64>)
    requires
        folders_distinct(g.mods_map()),
    ensures
        walk_ok(g, v, g.dfs_out(node, v, fuel).0, g.dfs_out(node, v, fuel).1, ids),
    decreases fuel, 0nat,
{
    if fuel == 0 || v.contains(node) || g.skipped().contains(node) {
        Seq::empty()
    } else {
        let v1 = v.insert(node);
        let here: Seq<Seq<char>> = if g.mods_map().contains_key(node) {
            seq![g.mods_map()[node].folder_name@]
        } else {
            Seq::empty()
        };
        let hid: Seq<i64> = if g.mods_map().contains_key(node) { seq![node] } else { Seq::empty() };
        let req_list = if g.req().contains_key(node) { g.req()[node] } else { Seq::empty() };
        let opt_list = if g.opt().contains_key(node) { g.opt()[node] } else { Seq::empty() };
        let la = ids_of(sort_desc(keyed(g.mods_map(), req_list, false)));
        let a = g.dfs_list(la, v1, (fuel - 1) as nat);
        let lb = ids_of(sort_desc(keyed(g.mods_map(), opt_list, true)));
        let b = g.dfs_list(lb, a.0, (fuel - 1) as nat);
        assert(walk_ok(g, v, v1, here, hid));
        let ia = lemma_walk_list(g, la, v1, (fuel - 1) as nat);
        let ib = lemma_walk_list(g, lb, a.0, (fuel - 1) as nat);
        lemma_walk_concat(g, v, v1, a.0, here, a.1, hid, ia);
        lemma_walk_concat(g, v, a.0, b.0, here + a.1, b.1, hid + ia, ib);
        assert(g.dfs_out(node, v, fuel) == (b.0, here + a.1 + b.1));
        hid + ia + ib
    }
}

proof fn lemma_walk_list(g: DepGraph, list: Seq<i64>, v: Set<i64>, fuel: nat) -> (ids: Seq<i64>)
    requires
        folders_distinct(g.mods_map()),
    ensures
        walk_ok(g, v, g.dfs_list(list, v, fuel).0, g.dfs_list(list, v, fuel).1, ids),
    decreases fuel, list.len(),
{
    if list.len() == 0 {
        Seq::empty()
    } else {
        let a = g.dfs_list(list.drop_last(), v, fuel);
        let ia = lemma_walk_list(g, list.drop_last(), v, fuel);
        let ib = lemma_walk_out(g, list.last(), a.0, fuel);
        let b = g.dfs_out(list.last(), a.0, fuel);
        lemma_walk_concat(g, v, a.0, b.0, a.1, b.1, ia, ib);
        ia + ib
    }
}

/// When no two mods share a folder, the overlay order names each folder at
/// most once.
pub proof fn lemma_resolve_no_duplicates(g: DepGraph)
    requires
        folders_distinct(g.mods_map()),
    ensures
        g.resolve_spec().no_duplicates(),
{
    lemma_walk_list(g, g.roots_in(g.enabled()), Set::empty(), g.universe().len() + 1);
}

/// Following a dependency from `a` to the mod `b`: `b` is a required
/// dependency of `a`, or an optional one that is enabled.
pub open spec fn dep_step(g: DepGraph, a: i64, b: i64) -> bool {
    g.mods_map().contains_key(b) && (edge(g.req(), a, b) || (edge(g.opt(), a, b) && g.mods_map()[b].enabled))
}

/// `f` is the folder of some mod whose id is in `c`.
pub open spec fn folder_in(g: DepGraph, c: Set<i64>, f: Seq<char>) -> bool {
    exists|x: i64| c.contains(x) && g.mods_map().contains_key(x) && f == #[trigger] g.mods_map()[x].folder_name@
}

/// `c` is closed under following dependencies.
pub open spec fn dep_closed(g: DepGraph, c: Set<i64>) -> bool {
    forall|a: i64, b: i64| c.contains(a) && #[trigger] dep_step(g, a, b) ==> c.contains(b)
}

proof fn lemma_keyed_from(mods: Map<i64, ModEntry>, ds: Seq<i64>, only_enabled: bool, e: (i64, i64))
    ensures
        keyed(mods, ds, only_enabled).contains(e) ==> mods.contains_key(e.1) && ds.contains(e.1)
            && (only_enabled ==> mods[e.1].enabled),
    decreases ds.len(),
{
    if ds.len() > 0 {
        let d0 = ds.drop_last();
        lemma_keyed_from(mods, d0, only_enabled, e);
        let rest = keyed(mods, d0, only_enabled);
        let d = ds.last();
        if keyed(mods, ds, only_enabled).contains(e) {
            if rest.contains(e) {
                let t = choose|t: int| 0 <= t < d0.len() && d0[t] == e.1;
                assert(ds[t] == e.1);
            } else {
                let j = choose|j: int| 0 <= j < rest.len() + 1 && rest.push((mods[d].load_order, d))[j] == e;
                if j < rest.len() {
                    assert(rest[j] == e);
                }
                assert(ds[ds.len() - 1] == d);
            }
        }
    }
}

proof fn lemma_dep_list_steps(g: DepGraph, node: i64, ds: Seq<i64>, only_enabled: bool, t: int)
    requires
        0 <= t < ids_of(sort_desc(keyed(g.mods_map(), ds, only_enabled))).len(),
    ensures
        ({
            let x = ids_of(sort_desc(keyed(g.mods_map(), ds, only_enabled)))[t];
            g.mods_map().contains_key(x) && ds.contains(x) && (only_enabled ==> g.mods_map()[x].enabled)
        }),
{
    let s = sort_desc(keyed(g.mods_map(), ds, only_enabled));
    let e = s[t];
    assert(s.contains(e));
    lemma_sort_desc_contains(keyed(g.mods_map(), ds, only_enabled), e);
    lemma_keyed_from(g.mods_map(), ds, only_enabled, e);
}

proof fn lemma_reach_out(g: DepGraph, c: Set<i64>, node: i64, v: Set<i64>, fuel: nat) -> (ids: Seq<i64>)
    requires
        c.contains(node),
        dep_closed(g, c),
    ensures
        ids.len() == g.dfs_out(node, v, fuel).1.len(),
        forall|i: int| 0 <= i < ids.len() ==> c.contains(#[trigger] ids[i]) && g.mods_map().contains_key(ids[i])
            && g.dfs_out(node, v, fuel).1[i] == g.mods_map()[ids[i]].folder_name@,
    decreases fuel, 0nat,
{
    if fuel == 0 || v.contains(node) || g.skipped().contains(node) {
        Seq::empty()
    } else {
        let v1 = v.insert(node);
        let here: Seq<Seq<char>> = if g.mods_map().contains_key(node) {
            seq![g.mods_map()[node].folder_name@]
        } else {
            Seq::empty()
        };
        let hid: Seq<i64> = if g.mods_map().contains_key(node) { seq![node] } else { Seq::empty() };
        let req_list = if g.req().contains_key(node) { g.req()[node] } else { Seq::empty() };
        let opt_list = if g.opt().contains_key(node) { g.opt()[node] } else { Seq::empty() };
        let la = ids_of(sort_desc(keyed(g.mods_map(), req_list, false)));
        let lb = ids_of(sort_desc(keyed(g.mods_map(), opt_list, true)));
        assert forall|t: int| 0 <= t < la.len() implies c.contains(#[trigger] la[t]) by {
            lemma_dep_list_steps(g, node, req_list, false, t);
            let t2 = choose|t2: int| 0 <= t2 < req_list.len() && req_list[t2] == la[t];
            assert(g.req().contains_key(node));
            assert(dep_step(g, node, la[t]));
        }
        assert forall|t: int| 0 <= t < lb.len() implies c.contains(#[trigger] lb[t]) by {
            lemma_dep_list_steps(g, node, opt_list, true, t);
            let t2 = choose|t2: int| 0 <= t2 < opt_list.len() && opt_list[t2] == lb[t];
            assert(g.opt().contains_key(node));
            assert(dep_step(g, node, lb[t]));
        }
        let a = g.dfs_list(la, v1, (fuel - 1) as nat);
        let b = g.dfs_list(lb, a.0, (fuel - 1) as nat);
        let ia = lemma_reach_list(g, c, la, v1, (fuel - 1) as nat);
        let ib = lemma_reach_list(g, c, lb, a.0, (fuel - 1) as nat);
        assert(g.dfs_out(node, v, fuel) == (b.0, here + a.1 + b.1));
        let ids = hid + ia + ib;
        let o = here + a.1 + b.1;
        assert forall|i: int| 0 <= i < ids.len() implies c.contains(#[trigger] ids[i]) && g.mods_map().contains_key(ids[i])
            && o[i] == g.mods_map()[ids[i]].folder_name@ by {
            if i < hid.len() {
                assert(ids[i] == node && o[i] == here[i]);
            } else if i < hid.len() + ia.len() {
                assert(ids[i] == ia[i - hid.len()] && o[i] == a.1[i - hid.len()]);
            } else {
                assert(ids[i] == ib[i - hid.len() - ia.len()] && o[i] == b.1[i - hid.len() - ia.len()]);
            }
        }
        ids
    }
}

proof fn lemma_reach_list(g: DepGraph, c: Set<i64>, list: Seq<i64>, v: Set<i64>, fuel: nat) -> (ids: Seq<i64>)
    requires
        forall|t: int| 0 <= t < list.len() ==> c.contains(#[trigger] list[t]),
        dep_closed(g, c),
    ensures
        ids.len() == g.dfs_list(list, v, fuel).1.len(),
        forall|i: int| 0 <= i < ids.len() ==> c.contains(#[trigger] ids[i]) && g.mods_map().contains_key(ids[i])
            && g.dfs_list(list, v, fuel).1[i] == g.mods_map()[ids[i]].folder_name@,
    decreases fuel, list.len(),
{
    if list.len() == 0 {
        Seq::empty()
    } else {
        let d = list.drop_last();
        assert forall|t: int| 0 <= t < d.len() implies c.contains(#[trigger] d[t]) by {
            assert(d[t] == list[t]);
        }
        assert(c.contains(list[list.len() - 1]));
        let a = g.dfs_list(d, v, fuel);
        let ia = lemma_reach_list(g, c, d, v, fuel);
        let ib = lemma_reach_out(g, c, list.last(), a.0, fuel);
        let b = g.dfs_out(list.last(), a.0, fuel);
        let ids = ia + ib;
        let o = a.1 + b.1;
        assert forall|i: int| 0 <= i < ids.len() implies c.contains(#[trigger] ids[i]) && g.mods_map().contains_key(ids[i])
            && o[i] == g.mods_map()[ids[i]].folder_name@ by {
            if i < ia.len() {
                assert(ids[i] == ia[i] && o[i] == a.1[i]);
            } else {
                assert(ids[i] == ib[i - ia.len()] && o[i] == b.1[i - ia.len()]);
            }
        }
        ids
    }
}

proof fn lemma_roots_in(g: DepGraph, ids: Seq<i64>, t: int)
    requires
        0 <= t < g.roots_in(ids).len(),
    ensures
        ids.contains(g.roots_in(ids)[t]),
    decreases ids.len(),
{
    let d = ids.drop_last();
    let r = g.roots_in(d);
    if t < r.len() {
        if g.is_dependency_of_enabled(ids.last()) {
            lemma_roots_in(g, d, t);
        } else {
            assert(g.roots_in(ids)[t] == r[t]);
            lemma_roots_in(g, d, t);
        }
        let k = choose|k: int| 0 <= k < d.len() && d[k] == r[t];
        assert(ids[k] == d[k]);
    } else {
        assert(ids[ids.len() - 1] == ids.last());
    }
}

/// Every folder of the overlay order is that of a mod reached from the
/// enabled mods: it lies in every set of ids that holds the enabled ids and
/// is closed under following a required dependency or an enabled optional
/// one (so in the set of mods reachable that way).
pub proof fn lemma_resolve_reached(g: DepGraph, c: Set<i64>)
    requires
        forall|i: int| 0 <= i < g.enabled().len() ==> c.contains(#[trigger] g.enabled()[i]),
        dep_closed(g, c),
    ensures
        forall|k: int| 0 <= k < g.resolve_spec().len() ==> folder_in(g, c, #[trigger] g.resolve_spec()[k]),
{
    let roots = g.roots_in(g.enabled());
    assert forall|t: int| 0 <= t < roots.len() implies c.contains(#[trigger] roots[t]) by {
        lemma_roots_in(g, g.enabled(), t);
        let k = choose|k: int| 0 <= k < g.enabled().len() && g.enabled()[k] == roots[t];
    }
    let ids = lemma_reach_list(g, c, roots, Set::empty(), g.universe().len() + 1);
    assert forall|k: int| 0 <= k < g.resolve_spec().len() implies folder_in(g, c, #[trigger] g.resolve_spec()[k]) by {
        assert(c.contains(ids[k]));
        assert(g.resolve_spec()[k] == g.mods_map()[ids[k]].folder_name@);
    }
}

proof fn lemma_insert_desc_keeps(sorted: Seq<(i64, i64)>, x: (i64, i64), e: (i64, i64))
    requires
        sorted.contains(e) || e == x,
    ensures
        insert_desc(sorted, x).contains(e),
    decreases sorted.len(),
{
    if sorted.len() == 0 {
        assert(seq![x][0] == x);
    } else if sorted.last().0 >= x.0 {
        let r = sorted.push(x);
        if e == x {
            assert(r[sorted.len() as int] == e);
        } else {
            let t = choose|t: int| 0 <= t < sorted.len() && sorted[t] == e;
            assert(r[t] == e);
        }
    } else {
        let d = sorted.drop_last();
        let r = insert_desc(d, x);
        if e == sorted.last() {
            assert(r.push(sorted.last())[r.len() as int] == e);
        } else {
            if e != x {
                let t = choose|t: int| 0 <= t < sorted.len() && sorted[t] == e;
                assert(t < d.len());
                assert(d[t] == e);
            }
            lemma_insert_desc_keeps(d, x, e);
            let t = choose|t: int| 0 <= t < r.len() && r[t] == e;
            assert(r.push(sorted.last())[t] == e);
        }
    }
}

proof fn lemma_sort_desc_keeps(s: Seq<(i64, i64)>, e: (i64, i64))
    requires
        s.contains(e),
    ensures
        sort_desc(s).contains(e),
    decreases s.len(),
{
    let d = s.drop_last();
    if e == s.last() {
        lemma_insert_desc_keeps(sort_desc(d), s.last(), e);
    } else {
        let t = choose|t: int| 0 <= t < s.len() && s[t] == e;
        assert(t < d.len());
        assert(d[t] == e);
        lemma_sort_desc_keeps(d, e);
        lemma_insert_desc_keeps(sort_desc(d), s.last(), e);
    }
}

proof fn lemma_keyed_has(mods: Map<i64, ModEntry>, ds: Seq<i64>, only_enabled: bool, y: i64)
    requires
        ds.contains(y),
        mods.contains_key(y),
        only_enabled ==> mods[y].enabled,
    ensures
        keyed(mods, ds, only_enabled).contains((mods[y].load_order, y)),
    decreases ds.len(),
{
    let d = ds.drop_last();
    let rest = keyed(mods, d, only_enabled);
    if ds.last() == y {
        assert(rest.push((mods[y].load_order, y))[rest.len() as int] == (mods[y].load_order, y));
    } else {
        let t = choose|t: int| 0 <= t < ds.len() && ds[t] == y;
        assert(t < d.len());
        assert(d[t] == y);
        lemma_keyed_has(mods, d, only_enabled, y);
        let k = choose|k: int| 0 <= k < rest.len() && rest[k] == (mods[y].load_order, y);
        let last = ds.last();
        if mods.contains_key(last) && (!only_enabled || mods[last].enabled) {
            assert(rest.push((mods[last].load_order, last))[k] == rest[k]);
        }
    }
}

proof fn lemma_dep_list_has(mods: Map<i64, ModEntry>, ds: Seq<i64>, only_enabled: bool, y: i64)
    requires
        ds.contains(y),
        mods.contains_key(y),
        only_enabled ==> mods[y].enabled,
    ensures
        ids_of(sort_desc(keyed(mods, ds, only_enabled))).contains(y),
{
    lemma_keyed_has(mods, ds, only_enabled, y);
    let e = (mods[y].load_order, y);
    lemma_sort_desc_keeps(keyed(mods, ds, only_enabled), e);
    let s = sort_desc(keyed(mods, ds, only_enabled));
    let j = choose|j: int| 0 <= j < s.len() && s[j] == e;
    assert(ids_of(s)[j] == y);
}

/// A ranking of the ids that drops along every dependency step and is at
/// most the number of ids the search can meet: what a dependency graph
/// without cycles admits.
pub open spec fn ranked(g: DepGraph, rank: spec_fn(i64) -> nat) -> bool {
    &&& forall|a: i64, b: i64| #[trigger] dep_step(g, a, b) ==> rank(b) < rank(a)
    &&& forall|x: i64| g.mods_map().contains_key(x) ==> #[trigger] rank(x) <= g.universe().len()
}

/// Every dependency step out of `x` stays in `v`.
pub open spec fn steps_within(g: DepGraph, x: i64, v: Set<i64>) -> bool {
    forall|y: i64| #[trigger] dep_step(g, x, y) ==> v.contains(y)
}

/// What a search from `v` that ended in `v2` writing `out` did: it kept
/// what was visited, every id it added has all its dependency steps
/// visited, and every mod it added has its folder written.
pub open spec fn search_done(g: DepGraph, v: Set<i64>, v2: Set<i64>, out: Seq<Seq<char>>) -> bool {
    &&& v.subset_of(v2)
    &&& forall|x: i64| #[trigger] v2.contains(x) && !v.contains(x) ==> steps_within(g, x, v2)
    &&& forall|x: i64| #[trigger] v2.contains(x) && !v.contains(x) && g.mods_map().contains_key(x)
        ==> out.contains(g.mods_map()[x].folder_name@)
}

proof fn lemma_search_concat(g: DepGraph, v0: Set<i64>, v1: Set<i64>, v2: Set<i64>, o1: Seq<Seq<char>>, o2: Seq<Seq<char>>)
    requires
        search_done(g, v0, v1, o1),
        search_done(g, v1, v2, o2),
    ensures
        search_done(g, v0, v2, o1 + o2),
{
    let o = o1 + o2;
    assert forall|x: i64| #[trigger] v2.contains(x) && !v0.contains(x) implies steps_within(g, x, v2) by {
        if v1.contains(x) {
            assert(steps_within(g, x, v1));
            assert forall|y: i64| #[trigger] dep_step(g, x, y) implies v2.contains(y) by {
                assert(v1.contains(y));
            }
        }
    }
    assert forall|x: i64| #[trigger] v2.contains(x) && !v0.contains(x) && g.mods_map().contains_key(x)
        implies o.contains(g.mods_map()[x].folder_name@) by {
        let f = g.mods_map()[x].folder_name@;
        if v1.contains(x) {
            let j = choose|j: int| 0 <= j < o1.len() && o1[j] == f;
            assert(o[j] == f);
        } else {
            let j = choose|j: int| 0 <= j < o2.len() && o2[j] == f;
            assert(o[o1.len() + j] == f);
        }
    }
}

proof fn lemma_search_out(g: DepGraph, rank: spec_fn(i64) -> nat, node: i64, v: Set<i64>, fuel: nat)
    requires
        g.skipped() == Set::<i64>::empty(),
        ranked(g, rank),
        g.mods_map().contains_key(node),
        rank(node) < fuel,
    ensures
        search_done(g, v, g.dfs_out(node, v, fuel).0, g.dfs_out(node, v, fuel).1),
        g.dfs_out(node, v, fuel).0.contains(node),
    decreases fuel, 0nat,
{
    if v.contains(node) {
        assert(g.dfs_out(node, v, fuel) == (v, Seq::<Seq<char>>::empty()));
    } else {
        assert(!g.skipped().contains(node));
        let v1 = v.insert(node);
        let here: Seq<Seq<char>> = seq![g.mods_map()[node].folder_name@];
        let req_list = if g.req().contains_key(node) { g.req()[node] } else { Seq::empty() };
        let opt_list = if g.opt().contains_key(node) { g.opt()[node] } else { Seq::empty() };
        let la = ids_of(sort_desc(keyed(g.mods_map(), req_list, false)));
        let lb = ids_of(sort_desc(keyed(g.mods_map(), opt_list, true)));
        assert forall|t: int| 0 <= t < la.len() implies g.mods_map().contains_key(#[trigger] la[t]) && rank(la[t]) < (fuel - 1) as nat by {
            lemma_dep_list_steps(g, node, req_list, false, t);
            assert(g.req().contains_key(node));
            assert(dep_step(g, node, la[t]));
        }
        assert forall|t: int| 0 <= t < lb.len() implies g.mods_map().contains_key(#[trigger] lb[t]) && rank(lb[t]) < (fuel - 1) as nat by {
            lemma_dep_list_steps(g, node, opt_list, true, t);
            assert(g.opt().contains_key(node));
            assert(dep_step(g, node, lb[t]));
        }
        let a = g.dfs_list(la, v1, (fuel - 1) as nat);
        let b = g.dfs_list(lb, a.0, (fuel - 1) as nat);
        lemma_search_list(g, rank, la, v1, (fuel - 1) as nat);
        lemma_search_list(g, rank, lb, a.0, (fuel - 1) as nat);
        lemma_search_concat(g, v1, a.0, b.0, a.1, b.1);
        assert(g.dfs_out(node, v, fuel) == (b.0, here + a.1 + b.1));
        let o = here + a.1 + b.1;
        assert(v.subset_of(b.0)) by {
            assert forall|x: i64| v.contains(x) implies b.0.contains(x) by {
                assert(v1.contains(x));
            }
        }
        assert(b.0.contains(node)) by {
            assert(v1.contains(node));
        }
        assert(steps_within(g, node, b.0)) by {
            assert forall|y: i64| #[trigger] dep_step(g, node, y) implies b.0.contains(y) by {
                if edge(g.req(), node, y) {
                    lemma_dep_list_has(g.mods_map(), req_list, false, y);
                    let t = choose|t: int| 0 <= t < la.len() && la[t] == y;
                    assert(a.0.contains(la[t]));
                } else {
                    lemma_dep_list_has(g.mods_map(), opt_list, true, y);
                    let t = choose|t: int| 0 <= t < lb.len() && lb[t] == y;
                    assert(b.0.contains(lb[t]));
                }
            }
        }
        assert forall|x: i64| #[trigger] b.0.contains(x) && !v.contains(x) implies steps_within(g, x, b.0) by {
            if x != node {
                assert(!v1.contains(x));
            }
        }
        assert forall|x: i64| #[trigger] b.0.contains(x) && !v.contains(x) && g.mods_map().contains_key(x)
            implies o.contains(g.mods_map()[x].folder_name@) by {
            let f = g.mods_map()[x].folder_name@;
            if x == node {
                assert(o[0] == f);
            } else {
                assert(!v1.contains(x));
                let j = choose|j: int| 0 <= j < (a.1 + b.1).len() && (a.1 + b.1)[j] == f;
                assert(o[1 + j] == f);
            }
        }
    }
}

proof fn lemma_search_list(g: DepGraph, rank: spec_fn(i64) -> nat, list: Seq<i64>, v: Set<i64>, fuel: nat)
    requires
        g.skipped() == Set::<i64>::empty(),
        ranked(g, rank),
        forall|t: int| 0 <= t < list.len() ==> g.mods_map().contains_key(#[trigger] list[t]) && rank(list[t]) < fuel,
    ensures
        search_done(g, v, g.dfs_list(list, v, fuel).0, g.dfs_list(list, v, fuel).1),
        forall|t: int| 0 <= t < list.len() ==> g.dfs_list(list, v, fuel).0.contains(#[trigger] list[t]),
    decreases fuel, list.len(),
{
    if list.len() == 0 {
        assert(search_done(g, v, v, Seq::empty()));
    } else {
        let d = list.drop_last();
        assert forall|t: int| 0 <= t < d.len() implies g.mods_map().contains_key(#[trigger] d[t]) && rank(d[t]) < fuel by {
            assert(d[t] == list[t]);
        }
        assert(g.mods_map().contains_key(list[list.len() - 1]));
        let a = g.dfs_list(d, v, fuel);
        lemma_search_list(g, rank, d, v, fuel);
        lemma_search_out(g, rank, list.last(), a.0, fuel);
        let b = g.dfs_out(list.last(), a.0, fuel);
        lemma_search_concat(g, v, a.0, b.0, a.1, b.1);
        assert forall|t: int| 0 <= t < list.len() implies b.0.contains(#[trigger] list[t]) by {
            if t < d.len() {
                assert(list[t] == d[t]);
                assert(a.0.contains(d[t]));
            }
        }
    }
}

proof fn lemma_roots_has(g: DepGraph, ids: Seq<i64>, e: i64)
    requires
        ids.contains(e),
        !g.is_dependency_of_enabled(e),
    ensures
        g.roots_in(ids).contains(e),
    decreases ids.len(),
{
    let d = ids.drop_last();
    let r = g.roots_in(d);
    if ids.last() == e {
        assert(r.push(e)[r.len() as int] == e);
    } else {
        let t = choose|t: int| 0 <= t < ids.len() && ids[t] == e;
        assert(t < d.len());
        assert(d[t] == e);
        lemma_roots_has(g, d, e);
        let k = choose|k: int| 0 <= k < r.len() && r[k] == e;
        if !g.is_dependency_of_enabled(ids.last()) {
            assert(r.push(ids.last())[k] == e);
        }
    }
}

/// The mod `x` is reached from the enabled mods: it lies in every set that
/// holds the enabled ids and is closed under following a required
/// dependency or an enabled optional one.
pub open spec fn reached(g: DepGraph, x: i64) -> bool {
    forall|c: Set<i64>| (forall|i: int| 0 <= i < g.enabled().len() ==> c.contains(#[trigger] g.enabled()[i]))
        && dep_closed(g, c) ==> #[trigger] c.contains(x)
}

proof fn lemma_enabled_visited(g: DepGraph, rank: spec_fn(i64) -> nat, v: Set<i64>, e: i64)
    requires
        ranked(g, rank),
        forall|i: int| 0 <= i < g.enabled().len() ==> g.mods_map().contains_key(#[trigger] g.enabled()[i])
            && g.mods_map()[g.enabled()[i]].enabled,
        dep_closed(g, v),
        forall|t: int| 0 <= t < g.roots_in(g.enabled()).len() ==> v.contains(#[trigger] g.roots_in(g.enabled())[t]),
        g.enabled().contains(e),
    ensures
        v.contains(e),
    decreases g.universe().len() + 1 - rank(e),
{
    let i = choose|i: int| 0 <= i < g.enabled().len() && g.enabled()[i] == e;
    assert(g.mods_map().contains_key(g.enabled()[i]));
    assert(rank(e) <= g.universe().len());
    if g.is_dependency_of_enabled(e) {
        let j = choose|j: int| 0 <= j < g.enabled().len() && #[trigger] g.dep_edge(j, e);
        let p = g.enabled()[j];
        assert(dep_step(g, p, e));
        assert(g.mods_map().contains_key(g.enabled()[j]));
        assert(rank(p) <= g.universe().len());
        assert(g.enabled().contains(p));
        lemma_enabled_visited(g, rank, v, p);
    } else {
        lemma_roots_has(g, g.enabled(), e);
        let t = choose|t: int| 0 <= t < g.roots_in(g.enabled()).len() && g.roots_in(g.enabled())[t] == e;
    }
}

/// With no skipped id, every enabled id an enabled mod, and a ranking that
/// drops along every dependency step (so no dependency cycle), the overlay
/// order writes the folder of every mod reached from the enabled mods.
/// With `lemma_resolve_reached` (it writes nothing else) and
/// `lemma_resolve_no_duplicates`, its folders are exactly those of the
/// reached mods.
pub proof fn lemma_resolve_complete(g: DepGraph, rank: spec_fn(i64) -> nat, x: i64)
    requires
        g.skipped() == Set::<i64>::empty(),
        ranked(g, rank),
        forall|i: int| 0 <= i < g.enabled().len() ==> g.mods_map().contains_key(#[trigger] g.enabled()[i])
            && g.mods_map()[g.enabled()[i]].enabled,
        g.mods_map().contains_key(x),
        reached(g, x),
    ensures
        g.resolve_spec().contains(g.mods_map()[x].folder_name@),
{
    let roots = g.roots_in(g.enabled());
    let fuel = (g.universe().len() + 1) as nat;
    assert forall|t: int| 0 <= t < roots.len() implies g.mods_map().contains_key(#[trigger] roots[t]) && rank(roots[t]) < fuel by {
        lemma_roots_in(g, g.enabled(), t);
        let k = choose|k: int| 0 <= k < g.enabled().len() && g.enabled()[k] == roots[t];
        assert(g.mods_map().contains_key(g.enabled()[k]));
    }
    lemma_search_list(g, rank, roots, Set::empty(), fuel);
    let v = g.dfs_list(roots, Set::empty(), fuel).0;
    let out = g.dfs_list(roots, Set::empty(), fuel).1;
    assert(dep_closed(g, v)) by {
        assert forall|a: i64, b: i64| v.contains(a) && #[trigger] dep_step(g, a, b) implies v.contains(b) by {
            assert(steps_within(g, a, v));
        }
    }
    assert forall|i: int| 0 <= i < g.enabled().len() implies v.contains(#[trigger] g.enabled()[i]) by {
        assert(g.enabled().contains(g.enabled()[i]));
        lemma_enabled_visited(g, rank, v, g.enabled()[i]);
    }
    assert(v.contains(x));
    assert(out == g.resolve_spec());
}

/// The overlay order is exactly the reached mods, each once: with no
/// skipped id, every enabled id an enabled mod, no two mods sharing a
/// folder and a ranking that drops along every dependency step (so no
/// dependency cycle), a folder is in it exactly when it is the folder of a
/// mod reached from the enabled mods by following required dependencies
/// and enabled optional ones, and no folder is in it twice.
pub proof fn lemma_resolve_exact(g: DepGraph, rank: spec_fn(i64) -> nat, f: Seq<char>)
    requires
        g.skipped() == Set::<i64>::empty(),
        ranked(g, rank),
        folders_distinct(g.mods_map()),
        forall|i: int| 0 <= i < g.enabled().len() ==> g.mods_map().contains_key(#[trigger] g.enabled()[i])
            && g.mods_map()[g.enabled()[i]].enabled,
    ensures
        g.resolve_spec().no_duplicates(),
        g.resolve_spec().contains(f) <==> exists|x: i64|
            g.mods_map().contains_key(x) && reached(g, x) && f == #[trigger] g.mods_map()[x].folder_name@,
{
    lemma_resolve_no_duplicates(g);
    let r = Set::new(|y: i64| reached(g, y));
    assert forall|i: int| 0 <= i < g.enabled().len() implies r.contains(#[trigger] g.enabled()[i]) by {
        let e = g.enabled()[i];
        assert forall|c: Set<i64>| (forall|k: int| 0 <= k < g.enabled().len() ==> c.contains(#[trigger] g.enabled()[k]))
            && dep_closed(g, c) implies #[trigger] c.contains(e) by {}
    }
    assert(dep_closed(g, r)) by {
        assert forall|a: i64, b: i64| r.contains(a) && #[trigger] dep_step(g, a, b) implies r.contains(b) by {
            assert forall|c: Set<i64>| (forall|k: int| 0 <= k < g.enabled().len() ==> c.contains(#[trigger] g.enabled()[k]))
                && dep_closed(g, c) implies #[trigger] c.contains(b) by {
                assert(c.contains(a));
            }
        }
    }
    lemma_resolve_reached(g, r);
    if g.resolve_spec().contains(f) {
        let k = choose|k: int| 0 <= k < g.resolve_spec().len() && g.resolve_spec()[k] == f;
        assert(folder_in(g, r, g.resolve_spec()[k]));
        let x = choose|x: i64| r.contains(x) && g.mods_map().contains_key(x) && g.resolve_spec()[k] == #[trigger] g.mods_map()[x].folder_name@;
        assert(reached(g, x));
    }
    if exists|x: i64| g.mods_map().contains_key(x) && reached(g, x) && f == #[trigger] g.mods_map()[x].folder_name@ {
        let x = choose|x: i64| g.mods_map().contains_key(x) && reached(g, x) && f == #[trigger] g.mods_map()[x].folder_name@;
        lemma_resolve_complete(g, rank, x);
    }
}

/// `a` lists `b` as a required or optional dependency.
pub open spec fn lists_dep(g: DepGraph, a: i64, b: i64) -> bool {
    edge(g.req(), a, b) || edge(g.opt(), a, b)
}

/// The `k`-th id was reached from an earlier id that lists it.
pub open spec fn has_parent(g: DepGraph, ids: Seq<i64>, k: int) -> bool {
    exists|i: int| 0 <= i < k && #[trigger] lists_dep(g, ids[i], ids[k])
}

/// Some folder before position `k` of `out` is that of a mod listing `b`
/// as a dependency.
pub open spec fn needed_above(g: DepGraph, out: Seq<Seq<char>>, k: int, b: i64) -> bool {
    exists|i: int, p: i64| #![trigger lists_dep(g, p, b), out[i]]
        0 <= i < k && g.mods_map().contains_key(p) && out[i] == g.mods_map()[p].folder_name@ && lists_dep(g, p, b)
}

proof fn lemma_parent_shift(g: DepGraph, ids: Seq<i64>, part: Seq<i64>, off: int, k: int)
    requires
        0 <= off,
        off + part.len() <= ids.len(),
        forall|t: int| 0 <= t < part.len() ==> #[trigger] ids[off + t] == part[t],
        0 <= k < part.len(),
        has_parent(g, part, k),
    ensures
        has_parent(g, ids, off + k),
{
    let i = choose|i: int| 0 <= i < k && #[trigger] lists_dep(g, part[i], part[k]);
    assert(ids[off + i] == part[i] && ids[off + k] == part[k]);
    assert(lists_dep(g, ids[off + i], ids[off + k]));
}

proof fn lemma_parent_out(g: DepGraph, node: i64, v: Set<i64>, fuel: nat) -> (ids: Seq<i64>)
    requires
        g.mods_map().contains_key(node),
    ensures
        ids.len() == g.dfs_out(node, v, fuel).1.len(),
        forall|i: int| 0 <= i < ids.len() ==> g.mods_map().contains_key(#[trigger] ids[i])
            && g.dfs_out(node, v, fuel).1[i] == g.mods_map()[ids[i]].folder_name@,
        forall|k: int| 0 <= k < ids.len() ==> #[trigger] ids[k] == node || has_parent(g, ids, k),
    decreases fuel, 0nat,
{
    if fuel == 0 || v.contains(node) || g.skipped().contains(node) {
        Seq::empty()
    } else {
        let v1 = v.insert(node);
        let here: Seq<Seq<char>> = seq![g.mods_map()[node].folder_name@];
        let req_list = if g.req().contains_key(node) { g.req()[node] } else { Seq::empty() };
        let opt_list = if g.opt().contains_key(node) { g.opt()[node] } else { Seq::empty() };
        let la = ids_of(sort_desc(keyed(g.mods_map(), req_list, false)));
        let lb = ids_of(sort_desc(keyed(g.mods_map(), opt_list, true)));
        assert forall|t: int| 0 <= t < la.len() implies g.mods_map().contains_key(#[trigger] la[t]) && lists_dep(g, node, la[t]) by {
            lemma_dep_list_steps(g, node, req_list, false, t);
            assert(g.req().contains_key(node));
        }
        assert forall|t: int| 0 <= t < lb.len() implies g.mods_map().contains_key(#[trigger] lb[t]) && lists_dep(g, node, lb[t]) by {
            lemma_dep_list_steps(g, node, opt_list, true, t);
            assert(g.opt().contains_key(node));
        }
        let a = g.dfs_list(la, v1, (fuel - 1) as nat);
        let b = g.dfs_list(lb, a.0, (fuel - 1) as nat);
        let ia = lemma_parent_list(g, la, v1, (fuel - 1) as nat);
        let ib = lemma_parent_list(g, lb, a.0, (fuel - 1) as nat);
        assert(g.dfs_out(node, v, fuel) == (b.0, here + a.1 + b.1));
        let hid: Seq<i64> = seq![node];
        let ids = hid + ia + ib;
        let o = here + a.1 + b.1;
        assert forall|t: int| 0 <= t < ia.len() implies #[trigger] ids[1 + t] == ia[t] by {}
        assert forall|t: int| 0 <= t < ib.len() implies #[trigger] ids[1 + ia.len() + t] == ib[t] by {}
        assert forall|i: int| 0 <= i < ids.len() implies g.mods_map().contains_key(#[trigger] ids[i])
            && o[i] == g.mods_map()[ids[i]].folder_name@ by {
            if i == 0 {
                assert(ids[i] == node && o[i] == here[0]);
            } else if i < 1 + ia.len() {
                assert(ids[i] == ia[i - 1] && o[i] == a.1[i - 1]);
            } else {
                assert(ids[i] == ib[i - 1 - ia.len()] && o[i] == b.1[i - 1 - ia.len()]);
            }
        }
        assert forall|k: int| 0 <= k < ids.len() implies #[trigger] ids[k] == node || has_parent(g, ids, k) by {
            if k == 0 {
            } else if k < 1 + ia.len() {
                let t = k - 1;
                assert(ids[1 + t] == ia[t]);
                if la.contains(ia[t]) {
                    let u = choose|u: int| 0 <= u < la.len() && la[u] == ia[t];
                    assert(lists_dep(g, node, la[u]));
                    assert(ids[0] == node);
                    assert(lists_dep(g, ids[0], ids[k]));
                } else {
                    lemma_parent_shift(g, ids, ia, 1, t);
                }
            } else {
                let t = k - 1 - ia.len();
                assert(ids[1 + ia.len() + t] == ib[t]);
                if lb.contains(ib[t]) {
                    let u = choose|u: int| 0 <= u < lb.len() && lb[u] == ib[t];
                    assert(lists_dep(g, node, lb[u]));
                    assert(ids[0] == node);
                    assert(lists_dep(g, ids[0], ids[k]));
                } else {
                    lemma_parent_shift(g, ids, ib, (1 + ia.len()) as int, t);
                }
            }
        }
        ids
    }
}

proof fn lemma_parent_list(g: DepGraph, list: Seq<i64>, v: Set<i64>, fuel: nat) -> (ids: Seq<i64>)
    requires
        forall|t: int| 0 <= t < list.len() ==> g.mods_map().contains_key(#[trigger] list[t]),
    ensures
        ids.len() == g.dfs_list(list, v, fuel).1.len(),
        forall|i: int| 0 <= i < ids.len() ==> g.mods_map().contains_key(#[trigger] ids[i])
            && g.dfs_list(list, v, fuel).1[i] == g.mods_map()[ids[i]].folder_name@,
        forall|k: int| 0 <= k < ids.len() ==> list.contains(#[trigger] ids[k]) || has_parent(g, ids, k),
    decreases fuel, list.len(),
{
    if list.len() == 0 {
        Seq::empty()
    } else {
        let d = list.drop_last();
        assert forall|t: int| 0 <= t < d.len() implies g.mods_map().contains_key(#[trigger] d[t]) by {
            assert(d[t] == list[t]);
        }
        assert(g.mods_map().contains_key(list[list.len() - 1]));
        let a = g.dfs_list(d, v, fuel);
        let ia = lemma_parent_list(g, d, v, fuel);
        let ib = lemma_parent_out(g, list.last(), a.0, fuel);
        let b = g.dfs_out(list.last(), a.0, fuel);
        let ids = ia + ib;
        let o = a.1 + b.1;
        assert forall|t: int| 0 <= t < ia.len() implies #[trigger] ids[0 + t] == ia[t] by {}
        assert forall|t: int| 0 <= t < ib.len() implies #[trigger] ids[ia.len() + t] == ib[t] by {}
        assert forall|i: int| 0 <= i < ids.len() implies g.mods_map().contains_key(#[trigger] ids[i])
            && o[i] == g.mods_map()[ids[i]].folder_name@ by {
            if i < ia.len() {
                assert(ids[i] == ia[i] && o[i] == a.1[i]);
            } else {
                assert(ids[i] == ib[i - ia.len()] && o[i] == b.1[i - ia.len()]);
            }
        }
        assert forall|k: int| 0 <= k < ids.len() implies list.contains(#[trigger] ids[k]) || has_parent(g, ids, k) by {
            if k < ia.len() {
                assert(ids[0 + k] == ia[k]);
                if d.contains(ia[k]) {
                    let u = choose|u: int| 0 <= u < d.len() && d[u] == ia[k];
                    assert(list[u] == d[u]);
                } else {
                    lemma_parent_shift(g, ids, ia, 0, k);
                }
            } else {
                let t = k - ia.len();
                assert(ids[ia.len() + t] == ib[t]);
                if ib[t] == list.last() {
                    assert(list[list.len() - 1] == list.last());
                } else {
                    lemma_parent_shift(g, ids, ib, ia.len() as int, t);
                }
            }
        }
        ids
    }
}

proof fn lemma_roots_free(g: DepGraph, ids: Seq<i64>, t: int)
    requires
        0 <= t < g.roots_in(ids).len(),
    ensures
        !g.is_dependency_of_enabled(g.roots_in(ids)[t]),
    decreases ids.len(),
{
    let d = ids.drop_last();
    let r = g.roots_in(d);
    if t < r.len() {
        lemma_roots_free(g, d, t);
        if !g.is_dependency_of_enabled(ids.last()) {
            assert(g.roots_in(ids)[t] == r[t]);
        }
    }
}

/// A mod that some enabled mod lists as a dependency never starts a walk:
/// wherever the overlay order writes its folder, an earlier folder is that
/// of a mod listing it, so the mod that needs it lies above it. (Whenever no
/// two mods share a folder and every enabled id is a mod.)
pub proof fn lemma_resolve_dependencies_below(g: DepGraph, k: int, b: i64)
    requires
        folders_distinct(g.mods_map()),
        forall|i: int| 0 <= i < g.enabled().len() ==> g.mods_map().contains_key(#[trigger] g.enabled()[i]),
        0 <= k < g.resolve_spec().len(),
        g.mods_map().contains_key(b),
        g.resolve_spec()[k] == g.mods_map()[b].folder_name@,
        exists|j: int| 0 <= j < g.enabled().len() && #[trigger] lists_dep(g, g.enabled()[j], b),
    ensures
        needed_above(g, g.resolve_spec(), k, b),
{
    let roots = g.roots_in(g.enabled());
    assert forall|t: int| 0 <= t < roots.len() implies g.mods_map().contains_key(#[trigger] roots[t]) by {
        lemma_roots_in(g, g.enabled(), t);
        let u = choose|u: int| 0 <= u < g.enabled().len() && g.enabled()[u] == roots[t];
        assert(g.mods_map().contains_key(g.enabled()[u]));
    }
    let ids = lemma_parent_list(g, roots, Set::empty(), g.universe().len() + 1);
    let out = g.resolve_spec();
    assert(g.mods_map().contains_key(ids[k]) && out[k] == g.mods_map()[ids[k]].folder_name@);
    assert(ids[k] == b);
    let j = choose|j: int| 0 <= j < g.enabled().len() && #[trigger] lists_dep(g, g.enabled()[j], b);
    assert(g.dep_edge(j, b));
    assert(g.is_dependency_of_enabled(b));
    if roots.contains(ids[k]) {
        let t = choose|t: int| 0 <= t < roots.len() && roots[t] == ids[k];
        lemma_roots_free(g, g.enabled(), t);
    }
    assert(has_parent(g, ids, k));
    let i = choose|i: int| 0 <= i < k && #[trigger] lists_dep(g, ids[i], ids[k]);
    let p = ids[i];
    assert(g.mods_map().contains_key(ids[i]) && out[i] == g.mods_map()[ids[i]].folder_name@);
    assert(lists_dep(g, p, b));
}

} // verus!
