use vstd::prelude::*;
use crate::constraints::views;
use std::collections::HashMap;
use crate::db::{DepRef, ModEntry, ModMetaCache};
use crate::text::{int_decimal, join_strings, join_with, nat_decimal, push_int_decimal, push_nat_decimal};

verus! {

/// How a piece of text is shown in a terminal.
#[derive(Debug, Clone, Copy, PartialEq, Eq, Structural)]
pub enum Style {
    Plain,
    Green,
    Red,
    Cyan,
    Magenta,
    Yellow,
    BlueUnderline,
}

/// A row of the mod info table: a label and its value, in styled pieces.
#[derive(Debug)]
pub struct InfoRow {
    pub label: String,
    pub value: Vec<(String, Style)>,
}

/// A row as plain values.
pub open spec fn row_view(r: InfoRow) -> (Seq<char>, Seq<(Seq<char>, Style)>) {
    (r.label@, r.value@.map_values(|p: (String, Style)| (p.0@, p.1)))
}

pub open spec fn rows_view(rs: Seq<InfoRow>) -> Seq<(Seq<char>, Seq<(Seq<char>, Style)>)> {
    rs.map_values(|r: InfoRow| row_view(r))
}

/// A row with a single piece.
pub open spec fn one(label: Seq<char>, text: Seq<char>, style: Style) -> (Seq<char>, Seq<(Seq<char>, Style)>) {
    (label, seq![(text, style)])
}

/// A row present only when `cond` holds.
pub open spec fn row_if(cond: bool, row: (Seq<char>, Seq<(Seq<char>, Style)>)) -> Seq<(Seq<char>, Seq<(Seq<char>, Style)>)> {
    if cond { seq![row] } else { Seq::empty() }
}

/// `pack (<n> componentes)` for a pack, `mod` otherwise.
pub open spec fn kind_text(c: ModMetaCache) -> Seq<char> {
    if c.components@.len() > 0 {
        "pack ("@ + nat_decimal(c.components@.len()) + " componentes)"@
    } else {
        "mod"@
    }
}

/// `Activado` in green or `Desactivado` in red.
pub open spec fn status_piece(enabled: bool) -> (Seq<char>, Style) {
    if enabled { ("Activado"@, Style::Green) } else { ("Desactivado"@, Style::Red) }
}

/// The first three names joined by `, `, with `, …` when there are more.
pub open spec fn preview(names: Seq<Seq<char>>) -> Seq<char> {
    if names.len() > 3 {
        join_with(names.take(3), ", "@) + ", …"@
    } else {
        join_with(names, ", "@)
    }
}

/// The names of a pack's components.
pub open spec fn component_names_spec(cs: Seq<crate::meta::MetaComponent>) -> Seq<Seq<char>> {
    cs.map_values(|m: crate::meta::MetaComponent| m.name@)
}

/// Rows of the metadata every listing shows: stable id, version, authors.
pub open spec fn common_spec(c: ModMetaCache) -> Seq<(Seq<char>, Seq<(Seq<char>, Style)>)> {
    row_if(c.mod_id is Some, one("Mod ID"@, c.mod_id.unwrap()@, Style::Green))
        + row_if(c.version is Some, one("Versión"@, c.version.unwrap()@, Style::Cyan))
        + row_if(c.author@.len() > 0, one("Autor"@, join_with(views(c.author@), ", "@), Style::Magenta))
}

/// The state row of the summary: `Activado`/`Desactivado` and the order.
pub open spec fn state_row(enabled: bool, order: i64) -> (Seq<char>, Seq<(Seq<char>, Style)>) {
    ("Estado"@, seq![status_piece(enabled), (" · Orden "@ + int_decimal(order as int), Style::Plain)])
}

/// The count rows of the summary: groups and guides.
pub open spec fn counts_spec(groups: Seq<Seq<char>>, guides: nat) -> Seq<(Seq<char>, Seq<(Seq<char>, Style)>)> {
    row_if(groups.len() > 0, one("Grupos"@, nat_decimal(groups.len()) + " ("@ + preview(groups) + ")"@, Style::Cyan))
        + row_if(guides > 0, one("Guías"@, nat_decimal(guides) + " archivos (usa -v para listar)"@, Style::Plain))
}

/// The relation rows of the summary: components, dependencies, dependents.
pub open spec fn relations_spec(c: ModMetaCache, deps: Seq<Seq<char>>, dependents: Seq<Seq<char>>) -> Seq<(Seq<char>, Seq<(Seq<char>, Style)>)> {
    row_if(c.components@.len() > 0, one("Componentes"@,
        nat_decimal(c.components@.len()) + " ("@ + preview(component_names_spec(c.components@)) + ")"@, Style::Plain))
        + row_if(deps.len() > 0, one("Depende de"@, join_with(deps, ", "@), Style::Plain))
        + row_if(dependents.len() > 0, one("Requerido por"@,
            join_with(dependents.take(if dependents.len() > 3 { 3 } else { dependents.len() as int }), ", "@)
            + ", … ("@ + nat_decimal(dependents.len()) + " mods)"@, Style::Plain))
}

/// The optional text rows of `ctl info -v`: URL, description, cover.
pub open spec fn links_spec(c: ModMetaCache) -> Seq<(Seq<char>, Seq<(Seq<char>, Style)>)> {
    row_if(c.url is Some, one("URL"@, c.url.unwrap()@, Style::BlueUnderline))
        + row_if(c.description is Some, one("Descripción"@, c.description.unwrap()@, Style::Yellow))
        + row_if(c.cover is Some, one("Carátula"@, c.cover.unwrap()@, Style::Plain))
}

/// The optional list rows of `ctl info -v`: tags and mount list.
pub open spec fn lists_spec(c: ModMetaCache) -> Seq<(Seq<char>, Seq<(Seq<char>, Style)>)> {
    row_if(c.tags@.len() > 0, one("Tags"@, join_with(views(c.tags@), ", "@), Style::Plain))
        + row_if(c.mount@.len() > 0, one("Mount"@, join_with(views(c.mount@), ", "@), Style::Plain))
}

/// The optional rows of `ctl info -v` after the common ones.
pub open spec fn extra_spec(c: ModMetaCache) -> Seq<(Seq<char>, Seq<(Seq<char>, Style)>)> {
    links_spec(c) + lists_spec(c)
}

/// The compact summary of `ctl info`.
pub open spec fn summary_spec(name: Seq<char>, c: ModMetaCache, enabled: bool, order: i64, profile: Seq<char>,
    groups: Seq<Seq<char>>, guides: nat, deps: Seq<Seq<char>>, dependents: Seq<Seq<char>>) -> Seq<(Seq<char>, Seq<(Seq<char>, Style)>)> {
    seq![one("Nombre"@, name, Style::Plain), one("Tipo"@, kind_text(c), Style::Plain)]
        + common_spec(c)
        + seq![state_row(enabled, order), one("Perfil"@, profile, Style::Plain)]
        + counts_spec(groups, guides)
        + relations_spec(c, deps, dependents)
}

/// The main rows of `ctl info -v`.
pub open spec fn detail_spec(id: i64, folder: Seq<char>, name: Seq<char>, c: ModMetaCache, enabled: bool, order: i64,
    groups: Seq<Seq<char>>) -> Seq<(Seq<char>, Seq<(Seq<char>, Style)>)> {
    seq![one("ID"@, int_decimal(id as int), Style::Plain), one("Carpeta"@, folder, Style::Plain), one("Nombre"@, name, Style::Plain)]
        + common_spec(c)
        + extra_spec(c)
        + seq![one("Tipo"@, kind_text(c), Style::Magenta), (("Estado"@, seq![status_piece(enabled)])),
            one("Orden"@, int_decimal(order as int), Style::Plain)]
        + row_if(groups.len() > 0, one("Grupos"@, join_with(groups, ", "@), Style::Cyan))
}

fn push_row(rows: &mut Vec<InfoRow>, label: &str, text: String, style: Style)
    ensures
        rows_view(final(rows)@) == rows_view(old(rows)@).push(one(label@, text@, style)),
{
    let ghost t = text@;
    let value = vec![(text, style)];
    rows.push(InfoRow { label: String::from_str(label), value });
    proof {
        assert(value@.map_values(|p: (String, Style)| (p.0@, p.1)) =~= seq![(t, style)]);
        assert(rows_view(rows@) =~= rows_view(old(rows)@).push(one(label@, t, style)));
    }
}

fn kind(c: &ModMetaCache) -> (s: String)
    ensures
        s@ == kind_text(*c),
{
    if c.is_pack() {
        let mut s = String::from_str("pack (");
        push_nat_decimal(&mut s, c.components.len() as u128);
        s.append(" componentes)");
        s
    } else {
        String::from_str("mod")
    }
}

fn first_names(names: &Vec<String>, n: usize) -> (out: Vec<String>)
    ensures
        views(out@) == views(names@).take(if names.len() > n { n as int } else { names.len() as int }),
{
    let mut out: Vec<String> = Vec::new();
    let mut i: usize = 0;
    while i < names.len() && i < n
        invariant
            i <= names.len(),
            i <= n,
            views(out@) == views(names@).take(i as int),
        decreases names.len() - i,
    {
        out.push(names[i].clone());
        proof {
            assert(views(names@).take(i + 1) =~= views(names@).take(i as int).push(names@[i as int]@));
            assert(views(out@) =~= views(names@).take(i + 1));
        }
        i = i + 1;
    }
    out
}

fn preview_text(names: &Vec<String>) -> (s: String)
    ensures
        s@ == preview(views(names@)),
{
    let first = first_names(names, 3);
    let mut s = join_strings(&first, ", ");
    assert(first@.map_values(|p: String| p@) =~= views(first@));
    if names.len() > 3 {
        s.append(", …");
    } else {
        assert(views(names@).take(names.len() as int) =~= views(names@));
    }
    s
}

fn joined(v: &Vec<String>) -> (s: String)
    ensures
        s@ == join_with(views(v@), ", "@),
{
    let s = join_strings(v, ", ");
    assert(v@.map_values(|p: String| p@) =~= views(v@));
    s
}

fn component_names(c: &ModMetaCache) -> (out: Vec<String>)
    ensures
        views(out@) == component_names_spec(c.components@),
{
    let mut out: Vec<String> = Vec::new();
    let mut i: usize = 0;
    while i < c.components.len()
        invariant
            i <= c.components.len(),
            views(out@) == component_names_spec(c.components@.take(i as int)),
        decreases c.components.len() - i,
    {
        out.push(c.components[i].name.clone());
        proof {
            assert(component_names_spec(c.components@.take(i + 1)) =~= component_names_spec(c.components@.take(i as int)).push(c.components@[i as int].name@));
            assert(views(out@) =~= component_names_spec(c.components@.take(i + 1)));
        }
        i = i + 1;
    }
    proof {
        assert(c.components@.take(c.components.len() as int) =~= c.components@);
    }
    out
}

fn common_rows(rows: &mut Vec<InfoRow>, c: &ModMetaCache)
    ensures
        rows_view(final(rows)@) == rows_view(old(rows)@) + common_spec(*c),
{
    let ghost r0 = rows_view(rows@);
    match &c.mod_id {
        Some(id) => push_row(rows, "Mod ID", id.clone(), Style::Green),
        None => {},
    }
    let ghost r1 = rows_view(rows@);
    assert(r1 =~= r0 + row_if(c.mod_id is Some, one("Mod ID"@, c.mod_id.unwrap()@, Style::Green)));
    match &c.version {
        Some(v) => push_row(rows, "Versión", v.clone(), Style::Cyan),
        None => {},
    }
    let ghost r2 = rows_view(rows@);
    assert(r2 =~= r1 + row_if(c.version is Some, one("Versión"@, c.version.unwrap()@, Style::Cyan)));
    if c.author.len() > 0 {
        push_row(rows, "Autor", joined(&c.author), Style::Magenta);
    }
    assert(rows_view(rows@) =~= r2 + row_if(c.author@.len() > 0, one("Autor"@, join_with(views(c.author@), ", "@), Style::Magenta)));
    assert(rows_view(rows@) =~= r0 + common_spec(*c));
}

fn push_state(rows: &mut Vec<InfoRow>, enabled: bool, order: i64)
    ensures
        rows_view(final(rows)@) == rows_view(old(rows)@).push(state_row(enabled, order)),
{
    let status = if enabled { String::from_str("Activado") } else { String::from_str("Desactivado") };
    let style = if enabled { Style::Green } else { Style::Red };
    let mut rest = String::from_str(" · Orden ");
    push_int_decimal(&mut rest, order);
    let ghost rv = rest@;
    let value = vec![(status, style), (rest, Style::Plain)];
    rows.push(InfoRow { label: String::from_str("Estado"), value });
    proof {
        assert(value@.map_values(|p: (String, Style)| (p.0@, p.1)) =~= seq![status_piece(enabled), (rv, Style::Plain)]);
        assert(rows_view(rows@) =~= rows_view(old(rows)@).push(state_row(enabled, order)));
    }
}

fn push_counts(rows: &mut Vec<InfoRow>, groups: &Vec<String>, guides: usize)
    ensures
        rows_view(final(rows)@) == rows_view(old(rows)@) + counts_spec(views(groups@), guides as nat),
{
    let ghost r0 = rows_view(rows@);
    if groups.len() > 0 {
        let mut g = String::new();
        push_nat_decimal(&mut g, groups.len() as u128);
        g.append(" (");
        g.append(preview_text(groups).as_str());
        g.append(")");
        push_row(rows, "Grupos", g, Style::Cyan);
    }
    let ghost r1 = rows_view(rows@);
    assert(r1 =~= r0 + row_if(groups.len() > 0, one("Grupos"@, nat_decimal(groups.len() as nat) + " ("@ + preview(views(groups@)) + ")"@, Style::Cyan)));
    if guides > 0 {
        let mut g = String::new();
        push_nat_decimal(&mut g, guides as u128);
        g.append(" archivos (usa -v para listar)");
        push_row(rows, "Guías", g, Style::Plain);
    }
    assert(rows_view(rows@) =~= r1 + row_if(guides > 0, one("Guías"@, nat_decimal(guides as nat) + " archivos (usa -v para listar)"@, Style::Plain)));
    assert(rows_view(rows@) =~= r0 + counts_spec(views(groups@), guides as nat));
}

fn push_relations(rows: &mut Vec<InfoRow>, c: &ModMetaCache, deps: &Vec<String>, dependents: &Vec<String>)
    ensures
        rows_view(final(rows)@) == rows_view(old(rows)@) + relations_spec(*c, views(deps@), views(dependents@)),
{
    let ghost r0 = rows_view(rows@);
    if c.components.len() > 0 {
        let names = component_names(c);
        let mut g = String::new();
        push_nat_decimal(&mut g, c.components.len() as u128);
        g.append(" (");
        g.append(preview_text(&names).as_str());
        g.append(")");
        push_row(rows, "Componentes", g, Style::Plain);
    }
    let ghost r1 = rows_view(rows@);
    assert(r1 =~= r0 + row_if(c.components@.len() > 0, one("Componentes"@,
        nat_decimal(c.components@.len()) + " ("@ + preview(component_names_spec(c.components@)) + ")"@, Style::Plain)));
    if deps.len() > 0 {
        push_row(rows, "Depende de", joined(deps), Style::Plain);
    }
    let ghost r2 = rows_view(rows@);
    assert(r2 =~= r1 + row_if(deps.len() > 0, one("Depende de"@, join_with(views(deps@), ", "@), Style::Plain)));
    if dependents.len() > 0 {
        let first = first_names(dependents, 3);
        let mut g = joined(&first);
        g.append(", … (");
        push_nat_decimal(&mut g, dependents.len() as u128);
        g.append(" mods)");
        push_row(rows, "Requerido por", g, Style::Plain);
    }
    assert(rows_view(rows@) =~= r2 + row_if(dependents.len() > 0, one("Requerido por"@,
        join_with(views(dependents@).take(if dependents.len() > 3 { 3 } else { dependents.len() as int }), ", "@)
        + ", … ("@ + nat_decimal(dependents.len() as nat) + " mods)"@, Style::Plain)));
    assert(rows_view(rows@) =~= r0 + relations_spec(*c, views(deps@), views(dependents@)));
}

/// The compact summary `ctl info` prints for a mod: its display name, kind,
/// stable id, version and authors when known, state and order, the profile,
/// and counts with previews of its groups, guides, components, dependencies
/// and dependents (`order` is the mod's place in the profile).
pub fn summary_rows(name: &str, c: &ModMetaCache, enabled: bool, order: i64, profile: &str,
    groups: &Vec<String>, guides: usize, deps: &Vec<String>, dependents: &Vec<String>) -> (rows: Vec<InfoRow>)
    ensures
        rows_view(rows@) == summary_spec(name@, *c, enabled, order, profile@, views(groups@), guides as nat, views(deps@), views(dependents@)),
{
    let mut rows: Vec<InfoRow> = Vec::new();
    push_row(&mut rows, "Nombre", String::from_str(name), Style::Plain);
    push_row(&mut rows, "Tipo", kind(c), Style::Plain);
    let ghost a = rows_view(rows@);
    assert(a =~= seq![one("Nombre"@, name@, Style::Plain), one("Tipo"@, kind_text(*c), Style::Plain)]);
    common_rows(&mut rows, c);
    push_state(&mut rows, enabled, order);
    push_row(&mut rows, "Perfil", String::from_str(profile), Style::Plain);
    let ghost b = rows_view(rows@);
    assert(b =~= a + common_spec(*c) + seq![state_row(enabled, order), one("Perfil"@, profile@, Style::Plain)]);
    push_counts(&mut rows, groups, guides);
    push_relations(&mut rows, c, deps, dependents);
    rows
}

/// The main rows `ctl info -v` prints for a mod: key, folder, display name,
/// every known metadata field, kind, state, order and groups.
pub fn detail_rows(id: i64, folder: &str, name: &str, c: &ModMetaCache, enabled: bool, order: i64,
    groups: &Vec<String>) -> (rows: Vec<InfoRow>)
    ensures
        rows_view(rows@) == detail_spec(id, folder@, name@, *c, enabled, order, views(groups@)),
{
    let mut rows: Vec<InfoRow> = Vec::new();
    let mut ids = String::new();
    push_int_decimal(&mut ids, id);
    push_row(&mut rows, "ID", ids, Style::Plain);
    push_row(&mut rows, "Carpeta", String::from_str(folder), Style::Plain);
    push_row(&mut rows, "Nombre", String::from_str(name), Style::Plain);
    let ghost a = rows_view(rows@);
    assert(a =~= seq![one("ID"@, int_decimal(id as int), Style::Plain), one("Carpeta"@, folder@, Style::Plain), one("Nombre"@, name@, Style::Plain)]);
    common_rows(&mut rows, c);
    extra_rows(&mut rows, c);
    let ghost b = rows_view(rows@);
    push_row(&mut rows, "Tipo", kind(c), Style::Magenta);
    let status = if enabled { String::from_str("Activado") } else { String::from_str("Desactivado") };
    let style = if enabled { Style::Green } else { Style::Red };
    let value = vec![(status, style)];
    let ghost r1 = rows_view(rows@);
    rows.push(InfoRow { label: String::from_str("Estado"), value });
    proof {
        assert(value@.map_values(|p: (String, Style)| (p.0@, p.1)) =~= seq![status_piece(enabled)]);
        assert(rows_view(rows@) =~= r1.push((("Estado"@, seq![status_piece(enabled)]))));
    }
    let mut o = String::new();
    push_int_decimal(&mut o, order);
    push_row(&mut rows, "Orden", o, Style::Plain);
    let ghost r2 = rows_view(rows@);
    assert(r2 =~= b + seq![one("Tipo"@, kind_text(*c), Style::Magenta), (("Estado"@, seq![status_piece(enabled)])),
        one("Orden"@, int_decimal(order as int), Style::Plain)]);
    if groups.len() > 0 {
        push_row(&mut rows, "Grupos", joined(groups), Style::Cyan);
    }
    assert(rows_view(rows@) =~= r2 + row_if(groups.len() > 0, one("Grupos"@, join_with(views(groups@), ", "@), Style::Cyan)));
    rows
}

fn link_rows(rows: &mut Vec<InfoRow>, c: &ModMetaCache)
    ensures
        rows_view(final(rows)@) == rows_view(old(rows)@) + links_spec(*c),
{
    let ghost r0 = rows_view(rows@);
    match &c.url {
        Some(u) => push_row(rows, "URL", u.clone(), Style::BlueUnderline),
        None => {},
    }
    let ghost r1 = rows_view(rows@);
    assert(r1 =~= r0 + row_if(c.url is Some, one("URL"@, c.url.unwrap()@, Style::BlueUnderline)));
    match &c.description {
        Some(d) => push_row(rows, "Descripción", d.clone(), Style::Yellow),
        None => {},
    }
    let ghost r2 = rows_view(rows@);
    assert(r2 =~= r1 + row_if(c.description is Some, one("Descripción"@, c.description.unwrap()@, Style::Yellow)));
    match &c.cover {
        Some(cv) => push_row(rows, "Carátula", cv.clone(), Style::Plain),
        None => {},
    }
    assert(rows_view(rows@) =~= r2 + row_if(c.cover is Some, one("Carátula"@, c.cover.unwrap()@, Style::Plain)));
    assert(rows_view(rows@) =~= r0 + links_spec(*c));
}

fn list_rows(rows: &mut Vec<InfoRow>, c: &ModMetaCache)
    ensures
        rows_view(final(rows)@) == rows_view(old(rows)@) + lists_spec(*c),
{
    let ghost r0 = rows_view(rows@);
    if c.tags.len() > 0 {
        push_row(rows, "Tags", joined(&c.tags), Style::Plain);
    }
    let ghost r1 = rows_view(rows@);
    assert(r1 =~= r0 + row_if(c.tags@.len() > 0, one("Tags"@, join_with(views(c.tags@), ", "@), Style::Plain)));
    if c.mount.len() > 0 {
        push_row(rows, "Mount", joined(&c.mount), Style::Plain);
    }
    assert(rows_view(rows@) =~= r1 + row_if(c.mount@.len() > 0, one("Mount"@, join_with(views(c.mount@), ", "@), Style::Plain)));
    assert(rows_view(rows@) =~= r0 + lists_spec(*c));
}

fn extra_rows(rows: &mut Vec<InfoRow>, c: &ModMetaCache)
    ensures
        rows_view(final(rows)@) == rows_view(old(rows)@) + extra_spec(*c),
{
    let ghost r0 = rows_view(rows@);
    link_rows(rows, c);
    list_rows(rows, c);
    assert(rows_view(rows@) =~= r0 + extra_spec(*c));
}

/// The name of mod `id` in the profile's list (empty when it is not listed).
pub open spec fn name_in(mods: Seq<ModEntry>, id: i64) -> Seq<char>
    decreases mods.len(),
{
    if mods.len() == 0 {
        Seq::empty()
    } else if mods[0].id == id {
        mods[0].name@
    } else {
        name_in(mods.drop_first(), id)
    }
}

fn name_of(mods: &Vec<ModEntry>, id: i64) -> (r: String)
    ensures
        r@ == name_in(mods@, id),
{
    let mut i: usize = 0;
    assert(mods@.skip(0) =~= mods@);
    while i < mods.len()
        invariant
            i <= mods.len(),
            name_in(mods@, id) == name_in(mods@.skip(i as int), id),
        decreases mods.len() - i,
    {
        assert(mods@.skip(i as int).drop_first() =~= mods@.skip(i + 1));
        if mods[i].id == id {
            return mods[i].name.clone();
        }
        i = i + 1;
    }
    String::new()
}

/// The names of a mod's dependencies, in the order it declares them.
pub fn dependency_names(mods: &Vec<ModEntry>, refs: &Vec<DepRef>) -> (out: Vec<String>)
    ensures
        views(out@) == refs@.map_values(|r: DepRef| name_in(mods@, r.id)),
{
    let mut out: Vec<String> = Vec::new();
    let mut i: usize = 0;
    while i < refs.len()
        invariant
            i <= refs.len(),
            views(out@) == refs@.take(i as int).map_values(|r: DepRef| name_in(mods@, r.id)),
        decreases refs.len() - i,
    {
        let n = name_of(mods, refs[i].id);
        let ghost prev = views(out@);
        out.push(n);
        assert(views(out@) =~= prev.push(name_in(mods@, refs@[i as int].id)));
        assert(refs@.take(i + 1).map_values(|r: DepRef| name_in(mods@, r.id))
            =~= refs@.take(i as int).map_values(|r: DepRef| name_in(mods@, r.id)).push(name_in(mods@, refs@[i as int].id)));
        i = i + 1;
    }
    assert(refs@.take(refs.len() as int) =~= refs@);
    out
}

/// Some reference points at `t`.
pub open spec fn refers_to(refs: Seq<DepRef>, t: i64) -> bool {
    exists|k: int| 0 <= k < refs.len() && #[trigger] refs[k].id == t
}

/// The names of the mods (in list order) that declare `t` as a dependency.
pub open spec fn dependents_spec(mods: Seq<ModEntry>, deps: Map<i64, Vec<DepRef>>, t: i64) -> Seq<Seq<char>>
    decreases mods.len(),
{
    if mods.len() == 0 {
        Seq::empty()
    } else {
        let m = mods.last();
        dependents_spec(mods.drop_last(), deps, t)
            + if deps.contains_key(m.id) && refers_to(deps[m.id]@, t) { seq![m.name@] } else { Seq::empty() }
    }
}

fn refers(refs: &Vec<DepRef>, t: i64) -> (r: bool)
    ensures
        r == refers_to(refs@, t),
{
    let mut i: usize = 0;
    while i < refs.len()
        invariant
            i <= refs.len(),
            forall|k: int| 0 <= k < i ==> refs@[k].id != t,
        decreases refs.len() - i,
    {
        if refs[i].id == t {
            return true;
        }
        i = i + 1;
    }
    false
}

/// The names of the mods that depend on `t`, for `ctl info`.
pub fn dependent_names(mods: &Vec<ModEntry>, deps: &HashMap<i64, Vec<DepRef>>, t: i64) -> (out: Vec<String>)
    ensures
        views(out@) == dependents_spec(mods@, deps@, t),
{
    broadcast use vstd::std_specs::hash::group_hash_axioms;
    let mut out: Vec<String> = Vec::new();
    let mut i: usize = 0;
    while i < mods.len()
        invariant
            i <= mods.len(),
            views(out@) == dependents_spec(mods@.take(i as int), deps@, t),
        decreases mods.len() - i,
    {
        assert(mods@.take(i + 1).drop_last() =~= mods@.take(i as int));
        let ghost prev = views(out@);
        match deps.get(&mods[i].id) {
            Some(refs) => {
                if refers(refs, t) {
                    out.push(mods[i].name.clone());
                }
            },
            None => {},
        }
        assert(views(out@) =~= dependents_spec(mods@.take(i + 1), deps@, t));
        i = i + 1;
    }
    assert(mods@.take(mods.len() as int) =~= mods@);
    out
}

} // verus!
