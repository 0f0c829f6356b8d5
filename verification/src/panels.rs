//! What the desktop panels decide: the command lines their buttons run, when
//! the mod list can be reordered by hand, and the text of the mod rows and of
//! the detail and dependency panels.

use std::collections::HashMap;
use vstd::std_specs::hash::{spec_keys_iter, spec_values_iter};
use vstd::std_specs::iter::IteratorSpec;
use vstd::prelude::*;
use crate::constraints::{contains_string, pair_views, views};
use crate::settings::strs;
use crate::db::{ModEntry, ModMetaCache};
use crate::meta::MetaComponent;
use crate::text::{int_decimal, join_strings, join_with, nat_decimal, push_int_decimal, push_nat_decimal};
use crate::view::{ConflictView, Filters, ModDepStatus, ModView, SortField, StatusFilter};

verus! {

broadcast use vstd::std_specs::hash::group_hash_axioms;

/// Decimal text of an id, as `to_string` writes it.
fn id_text(id: i64) -> (s: String)
    ensures
        s@ == int_decimal(id as int),
{
    let mut s = String::new();
    push_int_decimal(&mut s, id);
    assert(s@ =~= int_decimal(id as int));
    s
}

/// The command a row's switch runs: enabling asks nothing, disabling is
/// confirmed up front with `--yes`.
pub open spec fn toggle_args_spec(id: i64, enable: bool, slug: Seq<char>) -> Seq<Seq<char>> {
    if enable {
        seq!["ctl"@, "enable"@, int_decimal(id as int), "--profile"@, slug]
    } else {
        seq!["ctl"@, "disable"@, int_decimal(id as int), "--yes"@, "--profile"@, slug]
    }
}

/// The command that switches mod `id` on or off in the profile `slug`.
pub fn toggle_args(id: i64, enable: bool, slug: &str) -> (args: Vec<String>)
    ensures
        views(args@) == toggle_args_spec(id, enable, slug@),
{
    let id_s = id_text(id);
    let args = if enable {
        strs(&vec!["ctl", "enable", id_s.as_str(), "--profile", slug])
    } else {
        strs(&vec!["ctl", "disable", id_s.as_str(), "--yes", "--profile", slug])
    };
    assert(views(args@) =~= toggle_args_spec(id, enable, slug@));
    args
}

/// The command of the group panel's "enable group" and "disable group"
/// buttons.
pub open spec fn group_switch_args_spec(enable: bool, group: Seq<char>, slug: Seq<char>) -> Seq<Seq<char>> {
    seq!["ctl"@, "group"@, if enable { "enable"@ } else { "disable"@ }, group, "--profile"@, slug]
}

/// The command that enables or disables every member of `group` in the
/// profile `slug`.
pub fn group_switch_args(enable: bool, group: &str, slug: &str) -> (args: Vec<String>)
    ensures
        views(args@) == group_switch_args_spec(enable, group@, slug@),
{
    let action = if enable { "enable" } else { "disable" };
    let args = strs(&vec!["ctl", "group", action, group, "--profile", slug]);
    assert(views(args@) =~= group_switch_args_spec(enable, group@, slug@));
    args
}

/// The command of the detail panel's group button: it removes the mod from
/// the picked group when it is a member, and adds it otherwise.
pub open spec fn membership_args_spec(in_group: bool, folder: Seq<char>, group: Seq<char>, slug: Seq<char>) -> Seq<Seq<char>> {
    seq!["ctl"@, "group"@, if in_group { "remove"@ } else { "add"@ }, folder, group, "--profile"@, slug]
}

/// The command that moves `folder` in or out of `group`, given the groups the
/// mod belongs to.
pub fn membership_args(groups: &Vec<String>, folder: &str, group: &str, slug: &str) -> (args: Vec<String>)
    ensures
        views(args@) == membership_args_spec(views(groups@).contains(group@), folder@, group@, slug@),
{
    let in_group = contains_string(groups, group);
    let action = if in_group { "remove" } else { "add" };
    let args = strs(&vec!["ctl", "group", action, folder, group, "--profile", slug]);
    assert(views(args@) =~= membership_args_spec(in_group, folder@, group@, slug@));
    args
}

/// The list is in its default view (no search, tag, group or status filter;
/// by priority, highest first), the only one where dragging a row means a new
/// priority.
pub open spec fn reorder_layout_spec(f: Filters) -> bool {
    &&& f.search@.len() == 0
    &&& f.tag is None
    &&& f.group is None
    &&& f.status == StatusFilter::All
    &&& f.sort == SortField::Order
    &&& f.desc
}

/// Whether the mod list shows the handles that reorder it by hand.
pub fn reorder_layout(f: &Filters) -> (r: bool)
    ensures
        r == reorder_layout_spec(*f),
{
    f.search.unicode_len() == 0
        && f.tag.is_none()
        && f.group.is_none()
        && f.status == StatusFilter::All
        && f.sort == SortField::Order
        && f.desc
}

/// `pieces` joined with `sep`, as `[String]::join` does.
fn joined(pieces: &Vec<String>, sep: &str) -> (r: String)
    ensures
        r@ == join_with(views(pieces@), sep@),
{
    let r = join_strings(pieces, sep);
    assert(pieces@.map_values(|p: String| p@) =~= views(pieces@));
    r
}

/// The second line of a mod row: the version (as `v1.2`) and, when the row is
/// wide enough, the authors, separated by a middle dot; nothing when neither
/// is there.
pub open spec fn row_meta_spec(c: ModMetaCache, compact: bool) -> Option<Seq<char>> {
    let pieces = version_piece(c) + author_piece(c, compact);
    if pieces.len() == 0 {
        None
    } else {
        Some(join_with(pieces, " \u{b7} "@))
    }
}

/// The version as `v1.2`, when there is one.
pub open spec fn version_piece(c: ModMetaCache) -> Seq<Seq<char>> {
    match c.version {
        Some(v) => seq![seq!['v'] + v@],
        None => Seq::empty(),
    }
}

/// The authors, when there are any and the row is not compact.
pub open spec fn author_piece(c: ModMetaCache, compact: bool) -> Seq<Seq<char>> {
    if !compact && c.author.len() > 0 {
        seq![join_with(views(c.author@), ", "@)]
    } else {
        Seq::empty()
    }
}

/// The version and authors line under a mod's name in the list.
pub fn row_meta_line(c: &ModMetaCache, compact: bool) -> (r: Option<String>)
    ensures
        opt_text(r) == row_meta_spec(*c, compact),
{
    let mut pieces: Vec<String> = Vec::new();
    match &c.version {
        Some(v) => {
            let mut s = String::new();
            s.push('v');
            s.append(v.as_str());
            pieces.push(s);
        },
        None => {},
    }
    if !compact && c.author.len() > 0 {
        let a = joined(&c.author, ", ");
        pieces.push(a);
    }
    assert(views(pieces@) =~= version_piece(*c) + author_piece(*c, compact));
    if pieces.len() == 0 {
        None
    } else {
        Some(joined(&pieces, " \u{b7} "))
    }
}

/// An optional string as plain text.
pub open spec fn opt_text(o: Option<String>) -> Option<Seq<char>> {
    match o {
        Some(s) => Some(s@),
        None => None,
    }
}

/// The dependency line of a mod row, for a mod that declares dependencies:
/// how many are required and optional, and whether a required one is
/// disabled or missing (the row then says so, in the danger colour).
pub open spec fn dep_badge_spec(d: ModDepStatus) -> Option<(Seq<char>, bool)> {
    if d.required > 0 || d.optional > 0 {
        let problems = d.disabled.len() > 0 || d.missing.len() > 0;
        let line = seq!['\u{E24A}', ' '] + nat_decimal(d.required as nat) + " req \u{b7} "@
            + nat_decimal(d.optional as nat) + " opt"@
            + if problems { " \u{b7} requeridas sin resolver"@ } else { Seq::empty() };
        Some((line, problems))
    } else {
        None
    }
}

/// The dependency line of a mod row and whether it flags a problem.
pub fn dep_badge(d: &ModDepStatus) -> (r: Option<(String, bool)>)
    ensures
        match r {
            Some((s, p)) => dep_badge_spec(*d) == Some((s@, p)),
            None => dep_badge_spec(*d) is None,
        },
{
    if d.required > 0 || d.optional > 0 {
        let problems = d.disabled.len() > 0 || d.missing.len() > 0;
        let mut line = String::new();
        line.push('\u{E24A}');
        line.push(' ');
        push_nat_decimal(&mut line, d.required as u128);
        line.append(" req \u{b7} ");
        push_nat_decimal(&mut line, d.optional as u128);
        line.append(" opt");
        if problems {
            line.append(" \u{b7} requeridas sin resolver");
        }
        let ghost want = seq!['\u{E24A}', ' '] + nat_decimal(d.required as nat) + " req \u{b7} "@
            + nat_decimal(d.optional as nat) + " opt"@
            + if problems { " \u{b7} requeridas sin resolver"@ } else { Seq::empty() };
        assert(line@ =~= want);
        Some((line, problems))
    } else {
        None
    }
}

/// The chips under a mod's name: each tag as `#tag`, then each group as
/// `[group]`.
pub open spec fn row_chips_spec(tags: Seq<Seq<char>>, groups: Seq<Seq<char>>) -> Seq<Seq<char>> {
    tags.map_values(|t: Seq<char>| seq!['#'] + t) + groups.map_values(|g: Seq<char>| seq!['['] + g + seq![']'])
}

/// The tag and group chips of a mod row.
pub fn row_chips(tags: &Vec<String>, groups: &Vec<String>) -> (out: Vec<String>)
    ensures
        views(out@) == row_chips_spec(views(tags@), views(groups@)),
{
    let mut out: Vec<String> = Vec::new();
    let mut i: usize = 0;
    while i < tags.len()
        invariant
            i <= tags.len(),
            views(out@) == views(tags@).take(i as int).map_values(|t: Seq<char>| seq!['#'] + t),
        decreases tags.len() - i,
    {
        let mut c = String::new();
        c.push('#');
        c.append(tags[i].as_str());
        let ghost prev = views(out@);
        out.push(c);
        proof {
            assert(views(out@) =~= prev.push(seq!['#'] + tags@[i as int]@));
            assert(views(tags@).take(i + 1).map_values(|t: Seq<char>| seq!['#'] + t)
                =~= views(tags@).take(i as int).map_values(|t: Seq<char>| seq!['#'] + t).push(seq!['#'] + tags@[i as int]@));
        }
        i = i + 1;
    }
    let ghost head = views(tags@).map_values(|t: Seq<char>| seq!['#'] + t);
    assert(views(tags@).take(tags.len() as int) =~= views(tags@));
    let mut j: usize = 0;
    while j < groups.len()
        invariant
            j <= groups.len(),
            views(out@) == head + views(groups@).take(j as int).map_values(|g: Seq<char>| seq!['['] + g + seq![']']),
        decreases groups.len() - j,
    {
        let mut c = String::new();
        c.push('[');
        c.append(groups[j].as_str());
        c.push(']');
        assert(c@ =~= seq!['['] + groups@[j as int]@ + seq![']']);
        let ghost prev = views(out@);
        out.push(c);
        proof {
            assert(views(out@) =~= prev.push(seq!['['] + groups@[j as int]@ + seq![']']));
            assert(views(groups@).take(j + 1).map_values(|g: Seq<char>| seq!['['] + g + seq![']'])
                =~= views(groups@).take(j as int).map_values(|g: Seq<char>| seq!['['] + g + seq![']']).push(seq!['['] + groups@[j as int]@ + seq![']']));
        }
        j = j + 1;
    }
    assert(views(groups@).take(groups.len() as int) =~= views(groups@));
    out
}

/// What follows a component's name in the detail panel: its version (as
/// `v1.2`) and its author, when they are given.
pub open spec fn component_extra(c: MetaComponent) -> Seq<Seq<char>> {
    (match c.version {
        Some(v) => seq![seq!['v'] + v@],
        None => Seq::empty(),
    }) + (match c.author {
        Some(a) => seq![a@],
        None => Seq::empty(),
    })
}

/// A component's line: its name, then ` — ` and the extras joined by a
/// middle dot when there are any.
pub open spec fn component_line_spec(c: MetaComponent) -> Seq<char> {
    if component_extra(c).len() == 0 {
        c.name@
    } else {
        c.name@ + " \u{2014} "@ + join_with(component_extra(c), " \u{b7} "@)
    }
}

/// The line that lists one bundled component of a pack.
pub fn component_line(c: &MetaComponent) -> (r: String)
    ensures
        r@ == component_line_spec(*c),
{
    let mut extra: Vec<String> = Vec::new();
    match &c.version {
        Some(v) => {
            let mut s = String::new();
            s.push('v');
            s.append(v.as_str());
            extra.push(s);
        },
        None => {},
    }
    match &c.author {
        Some(a) => {
            extra.push(a.clone());
        },
        None => {},
    }
    assert(views(extra@) =~= component_extra(*c));
    let mut r = c.name.clone();
    if extra.len() > 0 {
        r.append(" \u{2014} ");
        let tail = joined(&extra, " \u{b7} ");
        r.append(tail.as_str());
    }
    r
}

/// How the detail panel names a dependency: its name and whether it is
/// required, or its folder when it has no name.
pub open spec fn depends_title_spec(folder: Seq<char>, name: Seq<char>, required: bool) -> Seq<char> {
    if name.len() == 0 {
        folder
    } else {
        name + " ("@ + (if required { "requerido"@ } else { "opcional"@ }) + ")"@
    }
}

/// The title of one entry under "Depende de".
pub fn depends_title(folder: &str, name: &str, required: bool) -> (r: String)
    ensures
        r@ == depends_title_spec(folder@, name@, required),
{
    if name.unicode_len() == 0 {
        folder.to_owned()
    } else {
        let mut r = name.to_owned();
        r.append(" (");
        if required {
            r.append("requerido");
        } else {
            r.append("opcional");
        }
        r.append(")");
        r
    }
}

/// The title of one entry under "Usado por": the dependent's name, or its
/// folder when it has no name.
pub fn dependent_title(folder: &str, name: &str) -> (r: String)
    ensures
        r@ == (if name@.len() == 0 { folder@ } else { name@ }),
{
    if name.unicode_len() == 0 {
        folder.to_owned()
    } else {
        name.to_owned()
    }
}

/// The dependency tab's lines for one mod: each disabled required
/// dependency, then each missing one.
pub open spec fn issue_lines_spec(disabled: Seq<Seq<char>>, missing: Seq<Seq<char>>) -> Seq<Seq<char>> {
    disabled.map_values(|d: Seq<char>| "  requiere '"@ + d + "' (desactivado)"@)
        + missing.map_values(|d: Seq<char>| "  requiere "@ + d + " (no instalado)"@)
}

/// The lines that explain why a mod's required dependencies are unresolved.
pub fn issue_lines(d: &ModDepStatus) -> (out: Vec<String>)
    ensures
        views(out@) == issue_lines_spec(views(d.disabled@), views(d.missing@)),
{
    let mut out: Vec<String> = Vec::new();
    let mut i: usize = 0;
    while i < d.disabled.len()
        invariant
            i <= d.disabled.len(),
            views(out@) == views(d.disabled@).take(i as int).map_values(|x: Seq<char>| "  requiere '"@ + x + "' (desactivado)"@),
        decreases d.disabled.len() - i,
    {
        let mut l = String::new();
        l.append("  requiere '");
        l.append(d.disabled[i].as_str());
        l.append("' (desactivado)");
        let ghost prev = views(out@);
        out.push(l);
        proof {
            assert(views(out@) =~= prev.push("  requiere '"@ + d.disabled@[i as int]@ + "' (desactivado)"@));
            assert(views(d.disabled@).take(i + 1).map_values(|x: Seq<char>| "  requiere '"@ + x + "' (desactivado)"@)
                =~= views(d.disabled@).take(i as int).map_values(|x: Seq<char>| "  requiere '"@ + x + "' (desactivado)"@)
                    .push("  requiere '"@ + d.disabled@[i as int]@ + "' (desactivado)"@));
        }
        i = i + 1;
    }
    let ghost head = views(d.disabled@).map_values(|x: Seq<char>| "  requiere '"@ + x + "' (desactivado)"@);
    assert(views(d.disabled@).take(d.disabled.len() as int) =~= views(d.disabled@));
    let mut j: usize = 0;
    while j < d.missing.len()
        invariant
            j <= d.missing.len(),
            views(out@) == head + views(d.missing@).take(j as int).map_values(|x: Seq<char>| "  requiere "@ + x + " (no instalado)"@),
        decreases d.missing.len() - j,
    {
        let mut l = String::new();
        l.append("  requiere ");
        l.append(d.missing[j].as_str());
        l.append(" (no instalado)");
        let ghost prev = views(out@);
        out.push(l);
        proof {
            assert(views(out@) =~= prev.push("  requiere "@ + d.missing@[j as int]@ + " (no instalado)"@));
            assert(views(d.missing@).take(j + 1).map_values(|x: Seq<char>| "  requiere "@ + x + " (no instalado)"@)
                =~= views(d.missing@).take(j as int).map_values(|x: Seq<char>| "  requiere "@ + x + " (no instalado)"@)
                    .push("  requiere "@ + d.missing@[j as int]@ + " (no instalado)"@));
        }
        j = j + 1;
    }
    assert(views(d.missing@).take(d.missing.len() as int) =~= views(d.missing@));
    out
}

/// A dependency cycle as the dependency tab shows it: indented, its folders
/// joined by arrows.
pub fn cycle_line(cycle: &Vec<String>) -> (r: String)
    ensures
        r@ == "  "@ + join_with(views(cycle@), " \u{2192} "@),
{
    let mut r = String::new();
    r.append("  ");
    let j = joined(cycle, " \u{2192} ");
    r.append(j.as_str());
    r
}

/// The counts beside a profile in the profiles panel.
pub fn profile_counts_label(total: i64, enabled: i64) -> (r: String)
    ensures
        r@ == int_decimal(total as int) + " mods \u{b7} "@ + int_decimal(enabled as int) + " activos"@,
{
    let mut r = String::new();
    push_int_decimal(&mut r, total);
    r.append(" mods \u{b7} ");
    push_int_decimal(&mut r, enabled);
    r.append(" activos");
    r
}

/// A group's entry in the groups panel: its name and how many mods of the
/// active profile it holds.
pub fn group_label(name: &str, count: usize) -> (r: String)
    ensures
        r@ == name@ + " ("@ + nat_decimal(count as nat) + " mods)"@,
{
    let mut r = name.to_owned();
    r.append(" (");
    push_nat_decimal(&mut r, count as u128);
    r.append(" mods)");
    r
}

/// A labelled field shown only when the value is there.
pub open spec fn opt_field(label: Seq<char>, o: Option<String>) -> Seq<(Seq<char>, Seq<char>)> {
    match o {
        Some(v) => seq![(label, v@)],
        None => Seq::empty(),
    }
}

/// A labelled list shown, comma separated, only when it is not empty.
pub open spec fn list_field(label: Seq<char>, l: Seq<Seq<char>>) -> Seq<(Seq<char>, Seq<char>)> {
    if l.len() > 0 {
        seq![(label, join_with(l, ", "@))]
    } else {
        Seq::empty()
    }
}

/// The tags field, which is always shown.
pub open spec fn tags_field(tags: Seq<Seq<char>>) -> (Seq<char>, Seq<char>) {
    ("Tags:"@, if tags.len() == 0 { "(sin tags)"@ } else { join_with(tags, ", "@) })
}

/// The label and value rows at the top of a mod's detail panel.
pub open spec fn detail_fields_spec(c: ModMetaCache, groups: Seq<Seq<char>>) -> Seq<(Seq<char>, Seq<char>)> {
    opt_field("Mod ID:"@, c.mod_id)
        + opt_field("Versi\u{f3}n:"@, c.version)
        + list_field("Autor:"@, views(c.author@))
        + opt_field("URL:"@, c.url)
        + seq![tags_field(views(c.tags@))]
        + list_field("Grupos:"@, groups)
        + list_field("Mount:"@, views(c.mount@))
        + opt_field("Descripci\u{f3}n:"@, c.description)
}

fn push_opt(out: &mut Vec<(String, String)>, label: &str, o: &Option<String>)
    ensures
        pair_views(final(out)@) == pair_views(old(out)@) + opt_field(label@, *o),
{
    let ghost prev = pair_views(out@);
    match o {
        Some(v) => {
            out.push((label.to_owned(), v.clone()));
            assert(pair_views(out@) =~= prev + opt_field(label@, *o));
        },
        None => {
            assert(pair_views(out@) =~= prev + opt_field(label@, *o));
        },
    }
}

fn push_list(out: &mut Vec<(String, String)>, label: &str, l: &Vec<String>)
    ensures
        pair_views(final(out)@) == pair_views(old(out)@) + list_field(label@, views(l@)),
{
    let ghost prev = pair_views(out@);
    if l.len() > 0 {
        let j = joined(l, ", ");
        out.push((label.to_owned(), j));
    }
    assert(pair_views(out@) =~= prev + list_field(label@, views(l@)));
}

/// The fields of a mod's detail panel, from its cached manifest and the
/// groups it belongs to in the active profile.
pub fn detail_fields(c: &ModMetaCache, groups: &Vec<String>) -> (out: Vec<(String, String)>)
    ensures
        pair_views(out@) == detail_fields_spec(*c, views(groups@)),
{
    let mut out: Vec<(String, String)> = Vec::new();
    push_opt(&mut out, "Mod ID:", &c.mod_id);
    push_opt(&mut out, "Versi\u{f3}n:", &c.version);
    push_list(&mut out, "Autor:", &c.author);
    push_opt(&mut out, "URL:", &c.url);
    let tags = if c.tags.len() == 0 {
        "(sin tags)".to_owned()
    } else {
        joined(&c.tags, ", ")
    };
    let ghost prev = pair_views(out@);
    out.push(("Tags:".to_owned(), tags));
    assert(pair_views(out@) =~= prev + seq![tags_field(views(c.tags@))]);
    push_list(&mut out, "Grupos:", groups);
    push_list(&mut out, "Mount:", &c.mount);
    push_opt(&mut out, "Descripci\u{f3}n:", &c.description);
    assert(pair_views(out@) =~= detail_fields_spec(*c, views(groups@)));
    out
}

/// A required dependency of the mod is disabled or not installed.
pub open spec fn has_problem(d: ModDepStatus) -> bool {
    d.disabled.len() > 0 || d.missing.len() > 0
}

/// Whether the dependency tab has anything to report: a cycle, or a mod with
/// an unresolved required dependency. When not, it says all is well.
pub fn has_dep_issues(cycles: &Vec<Vec<String>>, status: &HashMap<i64, ModDepStatus>) -> (r: bool)
    ensures
        r == (cycles.len() > 0 || exists|k: i64| #[trigger] status@.contains_key(k) && has_problem(status@[k])),
{
    if cycles.len() > 0 {
        return true;
    }
    let mut found = false;
    let ghost all = spec_values_iter(status).remaining().unref();
    let ghost mut n: int = 0;
    for d in it: status.values()
        invariant
            it.seq().unref() == all,
            all.to_set() == status@.values(),
            n == it.index(),
            found ==> exists|k: i64| #[trigger] status@.contains_key(k) && has_problem(status@[k]),
            !found ==> forall|j: int| 0 <= j < n ==> !has_problem(#[trigger] all[j]),
    {
        if d.disabled.len() > 0 || d.missing.len() > 0 {
            proof {
                assert(all.contains(*d));
                assert(all.to_set().contains(*d));
            }
            found = true;
        }
        proof {
            n = n + 1;
        }
    }
    proof {
        if !found {
            assert forall|k: i64| #[trigger] status@.contains_key(k) implies !has_problem(status@[k]) by {
                assert(status@.values().contains(status@[k]));
                assert(all.to_set().contains(status@[k]));
                assert(all.contains(status@[k]));
                let j = all.index_of(status@[k]);
                assert(all[j] == status@[k]);
            }
        }
    }
    found
}

/// The mods the dependency tab lists, in list order: those whose required
/// dependencies are not all resolved.
pub open spec fn issue_mods_spec(mods: Seq<ModView>, status: Map<i64, ModDepStatus>) -> Seq<int>
    decreases mods.len(),
{
    if mods.len() == 0 {
        Seq::empty()
    } else {
        let m = mods.last();
        issue_mods_spec(mods.drop_last(), status)
            + if status.contains_key(m.id) && has_problem(status[m.id]) { seq![mods.len() - 1] } else { Seq::empty() }
    }
}

/// The positions in `mods` of the mods the dependency tab lists.
pub fn issue_mods(mods: &Vec<ModView>, status: &HashMap<i64, ModDepStatus>) -> (out: Vec<usize>)
    ensures
        out@.map_values(|i: usize| i as int) == issue_mods_spec(mods@, status@),
{
    let mut out: Vec<usize> = Vec::new();
    let mut i: usize = 0;
    while i < mods.len()
        invariant
            i <= mods.len(),
            out@.map_values(|x: usize| x as int) == issue_mods_spec(mods@.take(i as int), status@),
        decreases mods.len() - i,
    {
        proof {
            assert(mods@.take(i + 1).drop_last() =~= mods@.take(i as int));
        }
        let ghost prev = out@.map_values(|x: usize| x as int);
        match status.get(&mods[i].id) {
            Some(d) => {
                if d.disabled.len() > 0 || d.missing.len() > 0 {
                    out.push(i);
                    assert(out@.map_values(|x: usize| x as int) =~= prev.push(i as int));
                }
            },
            None => {},
        }
        assert(out@.map_values(|x: usize| x as int) =~= issue_mods_spec(mods@.take(i + 1), status@));
        i = i + 1;
    }
    proof {
        assert(mods@.take(mods.len() as int) =~= mods@);
    }
    out
}

/// How many of the listed conflicts are real ones (not identical copies of
/// one file).
pub open spec fn real_conflicts(cs: Seq<ConflictView>) -> nat
    decreases cs.len(),
{
    if cs.len() == 0 {
        0
    } else {
        real_conflicts(cs.drop_last()) + if cs.last().duplicate { 0nat } else { 1nat }
    }
}

/// The number the Conflicts badge and the status bar show.
pub fn real_conflict_count(cs: &Vec<ConflictView>) -> (n: usize)
    ensures
        n == real_conflicts(cs@),
{
    let mut n: usize = 0;
    let mut i: usize = 0;
    while i < cs.len()
        invariant
            i <= cs.len(),
            n == real_conflicts(cs@.take(i as int)),
            n <= i,
        decreases cs.len() - i,
    {
        proof {
            assert(cs@.take(i + 1).drop_last() =~= cs@.take(i as int));
        }
        if !cs[i].duplicate {
            n = n + 1;
        }
        i = i + 1;
    }
    proof {
        assert(cs@.take(cs.len() as int) =~= cs@);
    }
    n
}

/// The conflicts counter of the status bar; an ellipsis while a scan is
/// still running.
pub fn conflicts_label(n: usize, pending: bool) -> (r: String)
    ensures
        r@ == "Conflictos: "@ + nat_decimal(n as nat) + if pending { seq!['\u{2026}'] } else { Seq::empty() },
{
    let mut r = String::new();
    r.append("Conflictos: ");
    push_nat_decimal(&mut r, n as u128);
    if pending {
        r.push('\u{2026}');
    }
    let ghost want = "Conflictos: "@ + nat_decimal(n as nat) + if pending { seq!['\u{2026}'] } else { Seq::empty() };
    assert(r@ =~= want);
    r
}

/// How many mods are enabled in the active profile.
pub open spec fn enabled_mods(ms: Seq<ModView>) -> nat
    decreases ms.len(),
{
    if ms.len() == 0 {
        0
    } else {
        enabled_mods(ms.drop_last()) + if ms.last().enabled { 1nat } else { 0nat }
    }
}

/// The "activos" counter of the status bar.
pub fn enabled_count(ms: &Vec<ModView>) -> (n: usize)
    ensures
        n == enabled_mods(ms@),
{
    let mut n: usize = 0;
    let mut i: usize = 0;
    while i < ms.len()
        invariant
            i <= ms.len(),
            n == enabled_mods(ms@.take(i as int)),
            n <= i,
        decreases ms.len() - i,
    {
        proof {
            assert(ms@.take(i + 1).drop_last() =~= ms@.take(i as int));
        }
        if ms[i].enabled {
            n = n + 1;
        }
        i = i + 1;
    }
    proof {
        assert(ms@.take(ms.len() as int) =~= ms@);
    }
    n
}

/// The mods whose required dependencies are not all resolved.
pub open spec fn problem_keys(status: Map<i64, ModDepStatus>) -> Set<i64> {
    status.dom().filter(|k: i64| has_problem(status[k]))
}

/// The badge of the Dependencies tab: how many mods have an unresolved
/// required dependency, plus how many dependency cycles there are.
pub fn dep_problem_count(status: &HashMap<i64, ModDepStatus>, cycles: &Vec<Vec<String>>) -> (n: usize)
    requires
        status@.dom().len() + cycles.len() <= usize::MAX,
    ensures
        n == problem_keys(status@).len() + cycles.len(),
{
    let ghost ks = spec_keys_iter(status).remaining().unref();
    let ghost p = |k: i64| has_problem(status@[k]);
    let mut n: usize = 0;
    let ghost mut seen: Set<i64> = Set::empty();
    let ghost mut i: int = 0;
    proof {
        assert(ks.take(0).to_set() =~= Set::<i64>::empty());
        assert(seen.filter(p) =~= Set::<i64>::empty());
    }
    for k in it: status.keys()
        invariant
            it.seq().unref() == ks,
            ks.no_duplicates(),
            ks.to_set() == status@.dom(),
            ks.len() == status@.dom().len(),
            status@.dom().len() + cycles.len() <= usize::MAX,
            i == it.index(),
            0 <= i <= ks.len(),
            seen == ks.take(i).to_set(),
            seen.finite(),
            n == seen.filter(p).len(),
            n <= i,
            p == (|k: i64| has_problem(status@[k])),
    {
        let key = *k;
        proof {
            assert(ks[i] == key);
            assert(ks.to_set().contains(key));
            assert(!seen.contains(key)) by {
                if seen.contains(key) {
                    let j = ks.take(i).index_of(key);
                    assert(ks.take(i)[j] == key);
                    assert(ks[j] == ks[i]);
                }
            }
            assert(ks.take(i + 1) =~= ks.take(i).push(key));
            ks.take(i).lemma_push_to_set_commute(key);
            assert(ks.take(i + 1).to_set() =~= seen.insert(key));
        }
        match status.get(&key) {
            Some(d) => {
                if d.disabled.len() > 0 || d.missing.len() > 0 {
                    proof {
                        assert(seen.insert(key).filter(p) =~= seen.filter(p).insert(key));
                        assert(!seen.filter(p).contains(key));
                    }
                    n = n + 1;
                } else {
                    proof {
                        assert(seen.insert(key).filter(p) =~= seen.filter(p));
                    }
                }
            },
            None => {
                proof {
                    assert(false);
                }
            },
        }
        proof {
            seen = seen.insert(key);
            i = i + 1;
        }
    }
    proof {
        assert(ks.take(ks.len() as int) =~= ks);
        assert(seen == status@.dom());
    }
    n + cycles.len()
}

/// The load order of mod `id` in `mods`, 0 when it is not listed.
pub open spec fn order_of(mods: Seq<ModEntry>, id: i64) -> i64
    decreases mods.len(),
{
    if mods.len() == 0 {
        0
    } else if mods[0].id == id {
        mods[0].load_order
    } else {
        order_of(mods.drop_first(), id)
    }
}

/// The priority the older list's up and down buttons give a mod: its
/// current one moved by `delta`, never below 0.
pub fn adjusted_order(mods: &Vec<ModEntry>, id: i64, delta: i64) -> (o: i64)
    requires
        i64::MIN <= order_of(mods@, id) + delta <= i64::MAX,
    ensures
        o == (if order_of(mods@, id) + delta < 0 { 0 } else { order_of(mods@, id) + delta }),
{
    let mut current: i64 = 0;
    let mut found = false;
    let mut i: usize = 0;
    assert(mods@.skip(0) =~= mods@);
    while i < mods.len()
        invariant
            i <= mods.len(),
            found ==> current == order_of(mods@, id),
            !found ==> order_of(mods@, id) == order_of(mods@.skip(i as int), id),
            !found ==> current == 0,
        decreases mods.len() - i,
    {
        assert(mods@.skip(i as int).drop_first() =~= mods@.skip(i + 1));
        if !found && mods[i].id == id {
            current = mods[i].load_order;
            found = true;
        }
        i = i + 1;
    }
    assert(found || mods@.skip(i as int).len() == 0);
    let n = current + delta;
    if n < 0 { 0 } else { n }
}

} // verus!
