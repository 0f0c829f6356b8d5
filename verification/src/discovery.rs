use vstd::prelude::*;
use crate::cli::{display_name_for, display_name_of};
use crate::constraints::{contains_string, views};
use crate::meta::{MetaComponent, ModMeta, mount_entry_ok, valid_mount_entry};
use crate::text::{trim, trim_seq};
use crate::registry::ModRow;

verus! {

/// The folders worth scanning: directory names not starting with `.`.
pub open spec fn visible(names: Seq<Seq<char>>) -> Seq<Seq<char>>
    decreases names.len(),
{
    if names.len() == 0 {
        names
    } else {
        let rest = visible(names.drop_last());
        let n = names.last();
        if n.len() > 0 && n[0] == '.' { rest } else { rest.push(n) }
    }
}

/// Leaves out the hidden names (those starting with `.`), keeping the order.
pub fn visible_folders(names: &Vec<String>) -> (out: Vec<String>)
    ensures
        views(out@) == visible(views(names@)),
{
    let mut out: Vec<String> = Vec::new();
    let mut i: usize = 0;
    while i < names.len()
        invariant
            i <= names.len(),
            views(out@) == visible(views(names@.take(i as int))),
        decreases names.len() - i,
    {
        proof {
            assert(views(names@.take(i + 1)).drop_last() =~= views(names@.take(i as int)));
            assert(views(names@.take(i + 1)).last() == names@[i as int]@);
        }
        let n = &names[i];
        let cs = crate::text::chars_of(n.as_str());
        let hidden = cs.len() > 0 && cs[0] == '.';
        if !hidden {
            let ghost prev = views(out@);
            out.push(n.clone());
            assert(views(out@) =~= prev.push(n@));
        }
        i = i + 1;
    }
    proof {
        assert(names@.take(names.len() as int) =~= names@);
    }
    out
}

/// The folders registered but no longer on disk, in registration order.
pub open spec fn orphans_spec(registered: Seq<Seq<char>>, disk: Seq<Seq<char>>) -> Seq<Seq<char>>
    decreases registered.len(),
{
    if registered.len() == 0 {
        registered
    } else {
        let rest = orphans_spec(registered.drop_last(), disk);
        if disk.contains(registered.last()) { rest } else { rest.push(registered.last()) }
    }
}

/// The registered folders that are gone from disk.
pub fn orphans(registered: &Vec<String>, disk: &Vec<String>) -> (out: Vec<String>)
    ensures
        views(out@) == orphans_spec(views(registered@), views(disk@)),
{
    let mut out: Vec<String> = Vec::new();
    let mut i: usize = 0;
    while i < registered.len()
        invariant
            i <= registered.len(),
            views(out@) == orphans_spec(views(registered@.take(i as int)), views(disk@)),
        decreases registered.len() - i,
    {
        proof {
            assert(views(registered@.take(i + 1)).drop_last() =~= views(registered@.take(i as int)));
            assert(views(registered@.take(i + 1)).last() == registered@[i as int]@);
        }
        if !contains_string(disk, registered[i].as_str()) {
            let ghost prev = views(out@);
            out.push(registered[i].clone());
            assert(views(out@) =~= prev.push(registered@[i as int]@));
        }
        i = i + 1;
    }
    proof {
        assert(registered@.take(registered.len() as int) =~= registered@);
    }
    out
}

/// The name a newly found mod is registered under: its manifest's `name`,
/// else the folder with `_` read as a space.
pub open spec fn new_name_spec(folder: Seq<char>, meta: Option<ModMeta>) -> Seq<char> {
    match meta {
        Some(m) => match m.name {
            Some(n) => n@,
            None => display_name_of(folder),
        },
        None => display_name_of(folder),
    }
}

/// The display name of a newly found mod.
pub fn new_mod_name(folder: &str, meta: &Option<ModMeta>) -> (r: String)
    ensures
        r@ == new_name_spec(folder@, *meta),
{
    match meta {
        Some(m) => match &m.name {
            Some(n) => n.clone(),
            None => display_name_for(folder),
        },
        None => display_name_for(folder),
    }
}

/// The warning of one `mount` entry found while scanning.
pub open spec fn scan_mount_warning(folder: Seq<char>, entry: Seq<char>, exists: bool) -> Option<Seq<char>> {
    if !mount_entry_ok(entry) {
        Some("    [!] "@ + folder + ": 'mount' con entrada inválida '"@ + entry + "' (se ignora)"@)
    } else if !exists {
        Some("    [!] "@ + folder + ": 'mount' '"@ + entry + "' no existe en el disco"@)
    } else {
        None
    }
}

/// The warnings of a `mount` list (`exists[k]`: whether entry `k` is a folder).
pub open spec fn scan_mount_warnings(folder: Seq<char>, entries: Seq<String>, exists: Seq<bool>) -> Seq<Seq<char>>
    decreases entries.len(),
{
    if entries.len() == 0 {
        Seq::empty()
    } else {
        let rest = scan_mount_warnings(folder, entries.drop_last(), exists);
        match scan_mount_warning(folder, entries.last()@, exists[entries.len() - 1]) {
            Some(w) => rest.push(w),
            None => rest,
        }
    }
}

/// The warnings of one bundled component: no name, or a path that leaves
/// the mod folder.
pub open spec fn component_warnings(folder: Seq<char>, c: MetaComponent) -> Seq<Seq<char>> {
    let a: Seq<Seq<char>> = if trim_seq(c.name@).len() == 0 {
        seq!["    [!] "@ + folder + ": componente sin nombre; se ignora"@]
    } else {
        Seq::empty()
    };
    let b: Seq<Seq<char>> = match c.path {
        Some(p) => if !mount_entry_ok(p@) {
            seq!["    [!] "@ + folder + ": componente '"@ + c.name@ + "' con path inválido '"@ + p@ + "'"@]
        } else {
            Seq::empty()
        },
        None => Seq::empty(),
    };
    a + b
}

/// The warnings of all components, in order.
pub open spec fn components_warnings(folder: Seq<char>, cs: Seq<MetaComponent>) -> Seq<Seq<char>>
    decreases cs.len(),
{
    if cs.len() == 0 {
        Seq::empty()
    } else {
        components_warnings(folder, cs.drop_last()) + component_warnings(folder, cs.last())
    }
}

/// What scanning a manifest warns about: bad or missing `mount` entries,
/// then components without a name or with a path leaving the folder.
pub open spec fn manifest_scan_spec(folder: Seq<char>, meta: Option<ModMeta>, exists: Seq<bool>) -> Seq<Seq<char>> {
    match meta {
        Some(m) => {
            let a = match m.mount {
                Some(ms) => scan_mount_warnings(folder, ms@, exists),
                None => Seq::empty(),
            };
            let b = match m.components {
                Some(cs) => components_warnings(folder, cs@),
                None => Seq::empty(),
            };
            a + b
        },
        None => Seq::empty(),
    }
}

fn push_msg(out: &mut Vec<String>, parts: &Vec<&str>)
    ensures
        views(final(out)@) == views(old(out)@).push(concat_all(parts@)),
{
    let mut m = String::new();
    let mut i: usize = 0;
    while i < parts.len()
        invariant
            i <= parts.len(),
            m@ == concat_all(parts@.take(i as int)),
        decreases parts.len() - i,
    {
        m.append(parts[i]);
        proof {
            assert(parts@.take(i + 1).drop_last() =~= parts@.take(i as int));
        }
        i = i + 1;
    }
    proof {
        assert(parts@.take(parts.len() as int) =~= parts@);
    }
    let ghost prev = views(out@);
    out.push(m);
    assert(views(out@) =~= prev.push(concat_all(parts@)));
}

/// The texts of some pieces, one after the other.
pub open spec fn concat_all(parts: Seq<&str>) -> Seq<char>
    decreases parts.len(),
{
    if parts.len() == 0 {
        Seq::empty()
    } else {
        concat_all(parts.drop_last()) + parts.last()@
    }
}

/// The warnings scanning a mod's manifest gives: each `mount` entry that is
/// not a safe relative path or is not a folder (`mount_exists[k]` tells
/// whether entry `k` is one), then each component without a name or with a
/// path that leaves the mod folder.
pub fn manifest_scan_warnings(folder: &str, meta: &Option<ModMeta>, mount_exists: &Vec<bool>) -> (out: Vec<String>)
    requires
        meta matches Some(m) && m.mount matches Some(ms) ==> mount_exists.len() == ms.len(),
    ensures
        views(out@) == manifest_scan_spec(folder@, *meta, mount_exists@),
{
    let mut out: Vec<String> = Vec::new();
    match meta {
        None => {
            assert(views(out@) =~= manifest_scan_spec(folder@, *meta, mount_exists@));
        },
        Some(m) => {
            match &m.mount {
                Some(ms) => {
                    let mut i: usize = 0;
                    assert(views(out@) =~= scan_mount_warnings(folder@, ms@.take(0), mount_exists@));
                    while i < ms.len()
                        invariant
                            i <= ms.len(),
                            mount_exists.len() == ms.len(),
                            views(out@) == scan_mount_warnings(folder@, ms@.take(i as int), mount_exists@),
                        decreases ms.len() - i,
                    {
                        proof {
                            assert(ms@.take(i + 1).drop_last() =~= ms@.take(i as int));
                            assert(ms@.take(i + 1).last() == ms@[i as int]);
                        }
                        let e = ms[i].as_str();
                        if !valid_mount_entry(e) {
                            push_msg(&mut out, &vec!["    [!] ", folder, ": 'mount' con entrada inválida '", e, "' (se ignora)"]);
                            proof {
                                reveal_with_fuel(concat_all, 6);
                            }
                        } else if !mount_exists[i] {
                            push_msg(&mut out, &vec!["    [!] ", folder, ": 'mount' '", e, "' no existe en el disco"]);
                            proof {
                                reveal_with_fuel(concat_all, 6);
                            }
                        }
                        i = i + 1;
                    }
                    proof {
                        assert(ms@.take(ms.len() as int) =~= ms@);
                    }
                },
                None => {},
            }
            let ghost a = views(out@);
            match &m.components {
                Some(cs) => {
                    let mut i: usize = 0;
                    assert(views(out@) =~= a + components_warnings(folder@, cs@.take(0)));
                    while i < cs.len()
                        invariant
                            i <= cs.len(),
                            views(out@) == a + components_warnings(folder@, cs@.take(i as int)),
                        decreases cs.len() - i,
                    {
                        proof {
                            assert(cs@.take(i + 1).drop_last() =~= cs@.take(i as int));
                            assert(cs@.take(i + 1).last() == cs@[i as int]);
                        }
                        let ghost before = views(out@);
                        let c = &cs[i];
                        if trim(c.name.as_str()).unicode_len() == 0 {
                            push_msg(&mut out, &vec!["    [!] ", folder, ": componente sin nombre; se ignora"]);
                            proof {
                                reveal_with_fuel(concat_all, 4);
                            }
                        }
                        let ghost mid = views(out@);
                        match &c.path {
                            Some(p) => {
                                if !valid_mount_entry(p.as_str()) {
                                    push_msg(&mut out, &vec!["    [!] ", folder, ": componente '", c.name.as_str(), "' con path inválido '", p.as_str(), "'"]);
                                    proof {
                                        reveal_with_fuel(concat_all, 8);
                                    }
                                }
                            },
                            None => {},
                        }
                        proof {
                            assert(views(out@) =~= before + component_warnings(folder@, cs@[i as int]));
                            assert(views(out@) =~= a + components_warnings(folder@, cs@.take(i + 1)));
                        }
                        i = i + 1;
                    }
                    proof {
                        assert(cs@.take(cs.len() as int) =~= cs@);
                    }
                },
                None => {
                    assert(views(out@) =~= a + Seq::<Seq<char>>::empty());
                },
            }
        },
    }
    out
}

/// What a scan does with a folder found on disk.
#[derive(Debug)]
pub enum DiscoverAction {
    /// Already registered under this key; its manifest renames it.
    Rename(i64, String),
    /// Already registered under this key; nothing to change.
    Keep(i64),
    /// Not registered yet: register it under this name.
    Register(String),
}

/// The key of the row registered for `folder`, if any (the first one).
pub open spec fn row_for(rows: Seq<ModRow>, folder: Seq<char>) -> Option<i64>
    decreases rows.len(),
{
    if rows.len() == 0 {
        None
    } else if rows[0].folder_name@ == folder {
        Some(rows[0].id)
    } else {
        row_for(rows.drop_first(), folder)
    }
}

/// What a scan does with `folder`: a registered folder takes the name its
/// manifest gives (if any); a new one is registered under `new_mod_name`.
pub open spec fn discover_spec(folder: Seq<char>, meta: Option<ModMeta>, rows: Seq<ModRow>) -> (bool, Option<i64>, Option<Seq<char>>) {
    match row_for(rows, folder) {
        Some(id) => match meta {
            Some(m) => match m.name {
                Some(n) => (false, Some(id), Some(n@)),
                None => (false, Some(id), None),
            },
            None => (false, Some(id), None),
        },
        None => (true, None, Some(new_name_spec(folder, meta))),
    }
}

/// The action as plain values: whether it registers, the key, the name.
pub open spec fn action_view(a: DiscoverAction) -> (bool, Option<i64>, Option<Seq<char>>) {
    match a {
        DiscoverAction::Rename(id, n) => (false, Some(id), Some(n@)),
        DiscoverAction::Keep(id) => (false, Some(id), None),
        DiscoverAction::Register(n) => (true, None, Some(n@)),
    }
}

/// Decides what a scan does with a folder it found.
pub fn discover_action(folder: &str, meta: &Option<ModMeta>, rows: &Vec<ModRow>) -> (a: DiscoverAction)
    ensures
        action_view(a) == discover_spec(folder@, *meta, rows@),
{
    let mut i: usize = 0;
    assert(rows@.skip(0) =~= rows@);
    while i < rows.len()
        invariant
            i <= rows.len(),
            row_for(rows@, folder@) == row_for(rows@.skip(i as int), folder@),
        decreases rows.len() - i,
    {
        assert(rows@.skip(i as int).drop_first() =~= rows@.skip(i + 1));
        if crate::meta::str_is(rows[i].folder_name.as_str(), folder) {
            let id = rows[i].id;
            return match meta {
                Some(m) => match &m.name {
                    Some(n) => DiscoverAction::Rename(id, n.clone()),
                    None => DiscoverAction::Keep(id),
                },
                None => DiscoverAction::Keep(id),
            };
        }
        i = i + 1;
    }
    assert(rows@.skip(i as int).len() == 0);
    DiscoverAction::Register(new_mod_name(folder, meta))
}

/// The folders the rows register, in order.
pub open spec fn row_folders(rows: Seq<ModRow>) -> Seq<Seq<char>> {
    rows.map_values(|r: ModRow| r.folder_name@)
}

proof fn lemma_row_for_none(rows: Seq<ModRow>, folder: Seq<char>)
    ensures
        (row_for(rows, folder) is None) == !row_folders(rows).contains(folder),
    decreases rows.len(),
{
    if rows.len() > 0 {
        lemma_row_for_none(rows.drop_first(), folder);
        let f = row_folders(rows);
        let g = row_folders(rows.drop_first());
        assert forall|k: int| 0 <= k < g.len() implies #[trigger] g[k] == f[k + 1] by {}
        if f.contains(folder) && rows[0].folder_name@ != folder {
            let k = choose|k: int| 0 <= k < f.len() && f[k] == folder;
            assert(k > 0);
            assert(g[k - 1] == folder);
        }
        if g.contains(folder) {
            let k = choose|k: int| 0 <= k < g.len() && g[k] == folder;
            assert(f[k + 1] == folder);
        }
        if rows[0].folder_name@ == folder {
            assert(f[0] == folder);
        }
    }
}

proof fn lemma_orphans_set(a: Seq<Seq<char>>, b: Seq<Seq<char>>)
    requires
        a.no_duplicates(),
    ensures
        orphans_spec(a, b).no_duplicates(),
        orphans_spec(a, b).to_set() == a.to_set().difference(b.to_set()),
    decreases a.len(),
{
    if a.len() > 0 {
        let init = a.drop_last();
        let x = a.last();
        assert(init.no_duplicates()) by {
            assert forall|i: int, j: int| 0 <= i < init.len() && 0 <= j < init.len() && i != j implies init[i] != init[j] by {
                assert(init[i] == a[i] && init[j] == a[j]);
            }
        }
        lemma_orphans_set(init, b);
        let o = orphans_spec(init, b);
        assert(!init.contains(x)) by {
            if init.contains(x) {
                let k = choose|k: int| 0 <= k < init.len() && init[k] == x;
                assert(a[k] == a[a.len() - 1]);
            }
        }
        assert(a.to_set() =~= init.to_set().insert(x)) by {
            assert forall|y: Seq<char>| a.contains(y) implies init.contains(y) || y == x by {
                let k = choose|k: int| 0 <= k < a.len() && a[k] == y;
                if k < a.len() - 1 {
                    assert(init[k] == y);
                }
            }
            assert forall|y: Seq<char>| init.contains(y) implies a.contains(y) by {
                let k = choose|k: int| 0 <= k < init.len() && init[k] == y;
                assert(a[k] == y);
            }
            assert(a[a.len() - 1] == x);
        }
        if b.contains(x) {
            assert(orphans_spec(a, b).to_set() =~= a.to_set().difference(b.to_set()));
        } else {
            let r = o.push(x);
            assert(!o.contains(x)) by {
                if o.contains(x) {
                    assert(o.to_set().contains(x));
                }
            }
            assert(r.no_duplicates()) by {
                assert forall|i: int, j: int| 0 <= i < r.len() && 0 <= j < r.len() && i != j implies r[i] != r[j] by {
                    if i < o.len() && j < o.len() {
                        assert(r[i] == o[i] && r[j] == o[j]);
                    } else if i < o.len() {
                        assert(r[i] == o[i]);
                    } else {
                        assert(r[j] == o[j]);
                    }
                }
            }
            assert forall|y: Seq<char>| r.contains(y) <==> o.contains(y) || y == x by {
                if r.contains(y) {
                    let k = choose|k: int| 0 <= k < r.len() && r[k] == y;
                    if k < o.len() {
                        assert(o[k] == y);
                    }
                }
                if o.contains(y) {
                    let k = choose|k: int| 0 <= k < o.len() && o[k] == y;
                    assert(r[k] == y);
                }
                if y == x {
                    assert(r[r.len() - 1] == x);
                }
            }
            assert(orphans_spec(a, b) == r);
            assert forall|y: Seq<char>| #[trigger] r.to_set().contains(y) == a.to_set().difference(b.to_set()).contains(y) by {
                assert(o.to_set().contains(y) == o.contains(y));
                assert(a.to_set().contains(y) == (init.to_set().contains(y) || y == x));
            }
            assert(r.to_set() =~= a.to_set().difference(b.to_set()));
        }
    }
}

/// A scan registers a found folder anew exactly when no row has it yet.
/// With no name repeated on disk or among the rows: the folders it
/// registers (those of `orphans_spec(disk, rows)`) number |D - F| and the
/// orphans it reports number |F - D|, D being the folders on disk and F the
/// registered ones.
pub proof fn lemma_discover_counts(disk: Seq<Seq<char>>, rows: Seq<ModRow>, meta: Option<ModMeta>, folder: Seq<char>)
    requires
        disk.no_duplicates(),
        row_folders(rows).no_duplicates(),
    ensures
        discover_spec(folder, meta, rows).0 == !row_folders(rows).contains(folder),
        orphans_spec(disk, row_folders(rows)).len() == disk.to_set().difference(row_folders(rows).to_set()).len(),
        orphans_spec(row_folders(rows), disk).len() == row_folders(rows).to_set().difference(disk.to_set()).len(),
{
    lemma_row_for_none(rows, folder);
    lemma_orphans_set(disk, row_folders(rows));
    lemma_orphans_set(row_folders(rows), disk);
    orphans_spec(disk, row_folders(rows)).unique_seq_to_set();
    orphans_spec(row_folders(rows), disk).unique_seq_to_set();
}

} // verus!
