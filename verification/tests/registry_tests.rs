use gta_mo::db::{unique_group_slug, unique_slug, ModEntry, ModIdentity};
use gta_mo::enabling::enable_plan;
use gta_mo::meta::{ModDeps, ModMeta, ModVariant};
use gta_mo::registry::{
    resolve_dep_ref, resolve_mod_ident, sync_mod_dependencies, validate_meta_id, ModRow,
};
use gta_mo::theme::{format_hex, parse_hex, Rgb};

fn s(x: &str) -> String {
    x.to_string()
}

fn row(id: i64, folder: &str, mod_id: Option<&str>) -> ModRow {
    ModRow { id, folder_name: s(folder), mod_id: mod_id.map(s) }
}

fn rows() -> Vec<ModRow> {
    vec![
        row(1, "SkyGfx", Some("aap:skygfx")),
        row(2, "ModLoader", None),
        row(3, "42", None),
    ]
}

fn entry(id: i64, folder: &str, enabled: bool) -> ModEntry {
    ModEntry { id, folder_name: s(folder), name: s(folder), enabled, load_order: id }
}

fn with_variant(group: &str) -> ModMeta {
    ModMeta {
        variant: Some(ModVariant { group: s(group), name: None }),
        ..Default::default()
    }
}

#[test]
fn hex_roundtrip_and_validation() {
    assert_eq!(parse_hex("#007aff"), Some(Rgb::from_rgb(0, 122, 255)));
    assert_eq!(parse_hex("007AFF"), Some(Rgb::from_rgb(0, 122, 255)));
    assert_eq!(format_hex(Rgb::from_rgb(0, 122, 255)), "#007aff");
    assert_eq!(parse_hex("#nope"), None);
    assert_eq!(parse_hex("#12345"), None);
    assert_eq!(parse_hex(""), None);
    let c = Rgb::from_rgb(255, 198, 0);
    assert_eq!(parse_hex(&format_hex(c)), Some(c));
}

#[test]
fn hex_accepts_spaces_and_several_hashes() {
    assert_eq!(parse_hex("  ##0a0B0c \n"), Some(Rgb::from_rgb(10, 11, 12)));
    assert_eq!(parse_hex("#0a0b0c0"), None);
    assert_eq!(parse_hex("#0a0b0g"), None);
    assert_eq!(parse_hex("#0a 0b0"), None);
    assert_eq!(format_hex(Rgb::from_rgb(0, 0, 0)), "#000000");
    assert_eq!(format_hex(Rgb::from_rgb(255, 255, 255)), "#ffffff");
}

#[test]
fn unique_slug_picks_first_free_suffix() {
    let taken = vec![s("mi-perfil"), s("mi-perfil-2"), s("otro")];
    assert_eq!(unique_slug("Mi Perfil", &taken), "mi-perfil-3");
    assert_eq!(unique_slug("Nuevo", &taken), "nuevo");
    assert_eq!(unique_slug("Otro", &vec![]), "otro");
    assert_eq!(unique_slug("!!!", &vec![]), "p");
    assert_eq!(unique_slug("!!!", &vec![s("p")]), "p-2");
    assert_eq!(unique_group_slug("???", &vec![s("g"), s("g-2"), s("g-3")]), "g-4");
    assert_eq!(unique_group_slug("Texturas HD", &vec![]), "texturas-hd");
}

#[test]
fn resolve_mod_ident_by_key_then_folder() {
    let r = rows();
    assert_eq!(resolve_mod_ident("2", &r), Ok(2));
    assert_eq!(resolve_mod_ident("SkyGfx", &r), Ok(1));
    // A number that is no key but a folder name.
    assert_eq!(resolve_mod_ident("42", &r), Ok(3));
    assert_eq!(resolve_mod_ident("7", &r), Err(s("Mod con id=7 no encontrado.")));
    assert_eq!(resolve_mod_ident("-7", &r), Err(s("Mod con id=-7 no encontrado.")));
    assert_eq!(resolve_mod_ident("Nada", &r), Err(s("Mod 'Nada' no encontrado.")));
}

#[test]
fn dep_refs_resolve_by_id_or_folder() {
    let r = rows();
    assert_eq!(resolve_dep_ref("aap:skygfx", &r), Some(1));
    assert_eq!(resolve_dep_ref("ModLoader", &r), Some(2));
    // A valid id form is only looked up as an id.
    assert_eq!(resolve_dep_ref("x:modloader", &r), None);
    assert_eq!(resolve_dep_ref("Falta", &r), None);
}

#[test]
fn sync_dependencies_resolves_and_warns() {
    let r = rows();
    assert!(sync_mod_dependencies(2, &None, &r).is_none());
    assert!(sync_mod_dependencies(2, &Some(ModMeta::default()), &r).is_none());
    let meta = ModMeta {
        dependencies: Some(ModDeps {
            required: vec![s("aap:skygfx"), s("ModLoader"), s("Falta")],
            optional: vec![s("42")],
        }),
        ..Default::default()
    };
    let sync = sync_mod_dependencies(2, &Some(meta), &r).unwrap();
    assert_eq!(sync.required, vec![1]);
    assert_eq!(sync.optional, vec![3]);
    assert_eq!(
        sync.warnings,
        vec![
            s("    [!] Dependencia cíclica ignorada: un mod no puede depender de sí mismo ('ModLoader')"),
            s("    [!] Dependencia no resuelta: 'Falta' (mod no instalado o referencia inválida)"),
        ]
    );
}

#[test]
fn validate_meta_id_clears_bad_or_taken_ids() {
    let r = rows();
    let bad = ModMeta { id: Some(s("Sin Formato")), name: Some(s("X")), ..Default::default() };
    let (m, w) = validate_meta_id(5, "X", Some(bad), &r);
    let m = m.unwrap();
    assert_eq!(m.id, None);
    assert_eq!(m.name, Some(s("X")));
    assert_eq!(w, Some(s("    [!] X: id 'Sin Formato' inválido (formato autor:slug); se ignora")));

    let taken = ModMeta { id: Some(s("aap:skygfx")), ..Default::default() };
    let (m, w) = validate_meta_id(5, "Y", Some(taken.clone()), &r);
    assert_eq!(m.unwrap().id, None);
    assert_eq!(w, Some(s("    [!] Y: id 'aap:skygfx' ya lo usa otro mod; se ignora")));

    // Its own id is not taken by another mod.
    let (m, w) = validate_meta_id(1, "SkyGfx", Some(taken), &r);
    assert_eq!(m.unwrap().id, Some(s("aap:skygfx")));
    assert_eq!(w, None);

    let (m, w) = validate_meta_id(1, "SkyGfx", None, &r);
    assert!(m.is_none() && w.is_none());
}

#[test]
fn enable_plan_refuses_declared_conflicts() {
    let target = ModIdentity { id: 1, folder_name: s("A"), name: s("A") };
    let mods = vec![entry(1, "A", false), entry(2, "B", true), entry(3, "C", false)];
    let b_meta = ModMeta { id: Some(s("x:b")), conflicts: vec![s("A")], ..Default::default() };
    let metas = vec![None, Some(b_meta), None];
    let errors = vec![None, None, None];
    let r = enable_plan(&target, &ModMeta::default(), &mods, &metas, &errors);
    assert_eq!(
        r.err(),
        Some(s("No se puede activar 'A': es incompatible con 'B' (activado)."))
    );

    // The target's own declaration, by id, counts too.
    let a_meta = ModMeta { conflicts: vec![s(" X:B ")], ..Default::default() };
    let metas = vec![Some(a_meta.clone()), Some(ModMeta { id: Some(s("x:b")), ..Default::default() }), None];
    let r = enable_plan(&target, &a_meta, &mods, &metas, &errors);
    assert!(r.is_err());

    // A disabled mod never conflicts.
    let c_meta = ModMeta { conflicts: vec![s("A")], ..Default::default() };
    let metas = vec![None, None, Some(c_meta)];
    let plan = enable_plan(&target, &ModMeta::default(), &mods, &metas, &errors).unwrap();
    assert!(plan.warning.is_none());
    assert!(plan.disable.is_empty());
}

#[test]
fn enable_plan_reports_unreadable_manifest() {
    let target = ModIdentity { id: 1, folder_name: s("A"), name: s("A") };
    let mods = vec![entry(1, "A", false), entry(2, "B", true)];
    let metas = vec![None, None];
    let errors = vec![None, Some(s("mod.toml inválido"))];
    let r = enable_plan(&target, &ModMeta::default(), &mods, &metas, &errors);
    assert_eq!(r.err(), Some(s("mod.toml inválido")));
}

#[test]
fn enable_plan_disables_variant_siblings_and_warns() {
    let target = ModIdentity { id: 1, folder_name: s("HD"), name: s("HD") };
    let mods = vec![
        entry(1, "HD", false),
        entry(2, "SD", true),
        entry(3, "Otro", true),
        entry(4, "Low", true),
    ];
    let mut t_meta = with_variant("texturas");
    t_meta.requires_any = vec![s("FaltaA"), s("FaltaB")];
    let metas = vec![Some(t_meta.clone()), Some(with_variant("texturas")), None, Some(with_variant("texturas"))];
    let errors = vec![None, None, None, None];
    let plan = enable_plan(&target, &t_meta, &mods, &metas, &errors).unwrap();
    assert_eq!(plan.disable, vec![(2, s("SD")), (4, s("Low"))]);
    assert_eq!(
        plan.warning,
        Some(s("'HD' requiere al menos uno de: FaltaA, FaltaB (ninguno activado)."))
    );

    // An enabled alternative silences the warning.
    t_meta.requires_any = vec![s("Otro")];
    let plan = enable_plan(&target, &t_meta, &mods, &metas, &errors).unwrap();
    assert_eq!(plan.warning, None);
}

use gta_mo::constraints::{Kind, Violation};
use gta_mo::db::DepRef;
use gta_mo::health::{health_lines, health_report, HealthMod, Manifest, MountCheck};
use std::collections::HashMap;

fn hmod(id: i64, folder: &str, dir_exists: bool, manifest: Manifest) -> HealthMod {
    HealthMod { id, folder_name: s(folder), dir_exists, manifest }
}

#[test]
fn health_collects_errors_and_warnings_in_order() {
    let mods = vec![
        hmod(1, "A", true, Manifest::Present(Some(vec![
            MountCheck { entry: s("../fuera"), exists: true },
            MountCheck { entry: s("content"), exists: false },
            MountCheck { entry: s("models"), exists: true },
        ]))),
        hmod(2, "B", false, Manifest::Missing),
        hmod(3, "C", true, Manifest::Invalid(s("mod.toml inválido"))),
        hmod(4, "D", true, Manifest::Missing),
    ];
    let enabled = vec![1, 3];
    let mut deps: HashMap<i64, Vec<DepRef>> = HashMap::new();
    deps.insert(1, vec![DepRef { id: 4, required: true }, DepRef { id: 9, required: false }]);
    deps.insert(3, vec![DepRef { id: 1, required: true }, DepRef { id: 4, required: false }]);
    deps.insert(4, vec![DepRef { id: 8, required: true }]);
    let violations = vec![Violation { kind: Kind::Conflict, message: s("'A' es incompatible con 'C' (ambos activados).") }];
    let r = health_report(&mods, &enabled, &deps, &violations);
    assert_eq!(
        r.errors,
        vec![
            s("B: carpeta no existe en disco"),
            s("A: dependencia no resuelta (id=9 no instalado)"),
            s("'A' es incompatible con 'C' (ambos activados)."),
        ]
    );
    assert_eq!(
        r.warnings,
        vec![
            s("A: mount inválido '../fuera'"),
            s("A: mount 'content' no existe"),
            s("C: mod.toml inválido"),
            s("A: dependencia requerida desactivada 'D'"),
        ]
    );
    let lines = health_lines(&r, "Default");
    assert_eq!(lines.len(), 3 + 4 + 2);
    assert_eq!(lines[0], "[X] B: carpeta no existe en disco");
    assert_eq!(lines[3], "[!] A: mount inválido '../fuera'");
    assert_eq!(lines[7], "");
    assert_eq!(lines[8], "Resumen: 3 error(es), 4 advertencia(s)");
}

#[test]
fn healthy_profile_has_one_line() {
    let mods = vec![hmod(1, "A", true, Manifest::Present(None))];
    let r = health_report(&mods, &vec![1], &HashMap::new(), &vec![]);
    assert!(r.errors.is_empty() && r.warnings.is_empty());
    assert_eq!(
        health_lines(&r, "Default"),
        vec![s("Estado saludable: sin problemas en los mods del perfil 'Default'.")]
    );
}

use gta_mo::meta::{dependency_key, edit_dependency, has_entry, keeps_entry};

#[test]
fn dependency_entries_found_and_dropped() {
    let items = vec![Some(s("a:b")), None, Some(s("Folder")), Some(s("a:b"))];
    assert!(has_entry(&items, "a:b"));
    assert!(!has_entry(&items, "c:d"));
    assert!(!has_entry(&vec![None], "a:b"));
    assert!(!keeps_entry(Some("a:b"), "a:b"));
    assert!(keeps_entry(Some("a:c"), "a:b"));
    assert!(keeps_entry(None, "a:b"));
    assert_eq!(dependency_key(true), "optional");
    assert_eq!(dependency_key(false), "required");
}

#[test]
fn edit_dependency_creates_and_filters() {
    let mut doc: toml_edit::DocumentMut = "name = \"M\"\n".parse().unwrap();
    assert!(edit_dependency(&mut doc, "a:b", false, true));
    assert!(edit_dependency(&mut doc, "a:b", false, true));
    assert!(edit_dependency(&mut doc, "c:d", false, true));
    let arr = doc["dependencies"]["required"].as_array().unwrap();
    let got: Vec<&str> = arr.iter().map(|v| v.as_str().unwrap()).collect();
    assert_eq!(got, vec!["a:b", "c:d"]);
    assert!(edit_dependency(&mut doc, "a:b", false, false));
    let arr = doc["dependencies"]["required"].as_array().unwrap();
    let got: Vec<&str> = arr.iter().map(|v| v.as_str().unwrap()).collect();
    assert_eq!(got, vec!["c:d"]);
    let mut bad: toml_edit::DocumentMut = "dependencies = 3\n".parse().unwrap();
    assert!(!edit_dependency(&mut bad, "a:b", true, true));
    assert_eq!(bad.to_string(), "dependencies = 3\n");
}

use gta_mo::db::ModMetaCache;
use gta_mo::info::{detail_rows, summary_rows, InfoRow, Style};
use gta_mo::meta::MetaComponent;

fn row_text(r: &InfoRow) -> (String, Vec<(String, Style)>) {
    (r.label.clone(), r.value.clone())
}

#[test]
fn info_summary_rows() {
    let cache = ModMetaCache {
        mod_id: Some(s("aap:skygfx")),
        author: vec![s("aap"), s("otro")],
        components: vec![
            MetaComponent { name: s("uno"), ..Default::default() },
            MetaComponent { name: s("dos"), ..Default::default() },
            MetaComponent { name: s("tres"), ..Default::default() },
            MetaComponent { name: s("cuatro"), ..Default::default() },
        ],
        ..Default::default()
    };
    let groups = vec![s("Gráficos")];
    let deps = vec![s("ModLoader"), s("SilentPatch")];
    let dependents = vec![s("A")];
    let rows = summary_rows("SkyGfx", &cache, true, 3, "Default", &groups, 2, &deps, &dependents);
    let rows: Vec<_> = rows.iter().map(row_text).collect();
    assert_eq!(
        rows,
        vec![
            (s("Nombre"), vec![(s("SkyGfx"), Style::Plain)]),
            (s("Tipo"), vec![(s("pack (4 componentes)"), Style::Plain)]),
            (s("Mod ID"), vec![(s("aap:skygfx"), Style::Green)]),
            (s("Autor"), vec![(s("aap, otro"), Style::Magenta)]),
            (s("Estado"), vec![(s("Activado"), Style::Green), (s(" · Orden 3"), Style::Plain)]),
            (s("Perfil"), vec![(s("Default"), Style::Plain)]),
            (s("Grupos"), vec![(s("1 (Gráficos)"), Style::Cyan)]),
            (s("Guías"), vec![(s("2 archivos (usa -v para listar)"), Style::Plain)]),
            (s("Componentes"), vec![(s("4 (uno, dos, tres, …)"), Style::Plain)]),
            (s("Depende de"), vec![(s("ModLoader, SilentPatch"), Style::Plain)]),
            (s("Requerido por"), vec![(s("A, … (1 mods)"), Style::Plain)]),
        ]
    );
}

#[test]
fn info_detail_rows() {
    let cache = ModMetaCache {
        version: Some(s("1.2")),
        url: Some(s("https://example.org")),
        tags: vec![s("hd"), s("texturas")],
        ..Default::default()
    };
    let rows = detail_rows(7, "HD", "HD Pack", &cache, false, -1, &vec![]);
    let rows: Vec<_> = rows.iter().map(row_text).collect();
    assert_eq!(
        rows,
        vec![
            (s("ID"), vec![(s("7"), Style::Plain)]),
            (s("Carpeta"), vec![(s("HD"), Style::Plain)]),
            (s("Nombre"), vec![(s("HD Pack"), Style::Plain)]),
            (s("Versión"), vec![(s("1.2"), Style::Cyan)]),
            (s("URL"), vec![(s("https://example.org"), Style::BlueUnderline)]),
            (s("Tags"), vec![(s("hd, texturas"), Style::Plain)]),
            (s("Tipo"), vec![(s("mod"), Style::Magenta)]),
            (s("Estado"), vec![(s("Desactivado"), Style::Red)]),
            (s("Orden"), vec![(s("-1"), Style::Plain)]),
        ]
    );
}

use gta_mo::profiles::profile_diff;

fn state(id: i64, folder: &str, enabled: bool, order: i64) -> ModEntry {
    ModEntry { id, folder_name: s(folder), name: s(folder), enabled, load_order: order }
}

#[test]
fn profile_diff_lists_only_enabled_and_moved() {
    let a = vec![state(1, "m1", true, 0), state(2, "m2", true, 1), state(3, "zz", true, 2), state(4, "aa", false, 3)];
    let b = vec![state(1, "m1", true, 5), state(2, "m2", false, 1), state(3, "zz", true, 2), state(4, "aa", true, 3)];
    let d = profile_diff(&a, &b);
    assert_eq!(d.only_in_a, vec![s("m2")]);
    assert_eq!(d.only_in_b, vec![s("aa")]);
    assert_eq!(d.order, vec![(s("m1"), (0, 5))]);

    let same = profile_diff(&a, &a);
    assert!(same.only_in_a.is_empty() && same.only_in_b.is_empty() && same.order.is_empty());
}

#[test]
fn profile_diff_sorts_by_folder() {
    let a = vec![state(1, "zeta", true, 0), state(2, "Alfa", true, 1), state(3, "beta", true, 2)];
    let d = profile_diff(&a, &vec![]);
    assert_eq!(d.only_in_a, vec![s("Alfa"), s("beta"), s("zeta")]);
    assert!(d.only_in_b.is_empty());
}

use gta_mo::db::{Group, Profile};
use gta_mo::registry::{resolve_group, resolve_profile};

fn profile(id: i64, name: &str, slug: &str) -> Profile {
    Profile { id, name: s(name), slug: s(slug), is_active: false, created_at: s("") }
}

#[test]
fn resolve_profile_by_key_slug_then_name() {
    let ps = vec![profile(1, "Default", "default"), profile(2, "2", "segundo"), profile(3, "Tercero", "2")];
    assert_eq!(resolve_profile(&ps, "1").unwrap().id, 1);
    // A key wins over a slug or a name with the same text.
    assert_eq!(resolve_profile(&ps, "2").unwrap().id, 2);
    assert_eq!(resolve_profile(&ps, "segundo").unwrap().id, 2);
    assert_eq!(resolve_profile(&ps, "Tercero").unwrap().id, 3);
    assert_eq!(resolve_profile(&ps, "default").unwrap().id, 1);
    assert_eq!(resolve_profile(&ps, "9").err(), Some(s("Perfil '9' no encontrado.")));
    assert_eq!(resolve_profile(&ps, "otro").err(), Some(s("Perfil 'otro' no encontrado.")));
}

#[test]
fn resolve_group_by_key_slug_then_name() {
    let gs = vec![
        Group { id: 5, name: s("Gráficos"), slug: s("graficos"), created_at: s("") },
        Group { id: 6, name: s("graficos"), slug: s("otro"), created_at: s("") },
    ];
    assert_eq!(resolve_group(&gs, "5").unwrap().id, 5);
    // A slug match comes before a name match.
    assert_eq!(resolve_group(&gs, "graficos").unwrap().id, 5);
    assert_eq!(resolve_group(&gs, "Gráficos").unwrap().id, 5);
    assert_eq!(resolve_group(&gs, "otro").unwrap().id, 6);
    assert_eq!(resolve_group(&gs, "x").err(), Some(s("Grupo 'x' no encontrado.")));
}

use gta_mo::cli::ExportMod;
use gta_mo::transfer::{
    import_plan, ExportDep, ExportFile, ExportGroup, ExportModGroup, ExportProfile, ExportProfileMod,
};

fn emod(folder: &str) -> ExportMod {
    ExportMod {
        folder: s(folder),
        name: s(folder),
        mod_id: None,
        version: None,
        author: vec![],
        url: None,
        description: None,
        cover: None,
        mount: vec![],
        guides: vec![],
        screenshots: vec![],
        tags: vec![],
        components: vec![],
        variant: None,
        conflicts: vec![],
        modloader: None,
    }
}

fn eprof(slug: &str, active: bool) -> ExportProfile {
    ExportProfile { name: s(slug), slug: s(slug), is_active: active }
}

#[test]
fn import_plan_maps_references_by_position() {
    let data = ExportFile {
        profiles: vec![eprof("default", false), eprof("second", true)],
        mods: vec![emod("a"), emod("b")],
        profile_mods: vec![
            ExportProfileMod { profile: s("default"), folder: s("b"), enabled: true, load_order: 2 },
            ExportProfileMod { profile: s("missing"), folder: s("a"), enabled: true, load_order: 0 },
            ExportProfileMod { profile: s("second"), folder: s("a"), enabled: false, load_order: 1 },
        ],
        dependencies: vec![
            ExportDep { folder: s("a"), dep: s("b"), required: true },
            ExportDep { folder: s("a"), dep: s("zzz"), required: false },
        ],
        groups: vec![ExportGroup { name: s("G"), slug: s("g") }],
        mod_groups: vec![
            ExportModGroup { group: s("g"), folder: s("b"), profile: Some(s("second")) },
            ExportModGroup { group: s("g"), folder: s("a"), profile: None },
            ExportModGroup { group: s("h"), folder: s("a"), profile: None },
        ],
    };
    let p = import_plan(&data);
    assert!(!p.default_profile);
    assert_eq!(p.active, Some(1));
    assert_eq!(p.profile_mods, vec![(0, 1, true, 2), (1, 0, false, 1)]);
    assert_eq!(p.dependencies, vec![(0, 1, true)]);
    assert_eq!(p.mod_groups, vec![(0, 1, Some(1)), (0, 0, None)]);
}

#[test]
fn import_plan_without_profiles_or_active() {
    let empty = ExportFile {
        profiles: vec![],
        mods: vec![],
        profile_mods: vec![],
        dependencies: vec![],
        groups: vec![],
        mod_groups: vec![],
    };
    let p = import_plan(&empty);
    assert!(p.default_profile);
    assert_eq!(p.active, None);

    // No profile marked active: the first one kept under its slug.
    let data = ExportFile {
        profiles: vec![eprof("x", false), eprof("y", false), eprof("x", false)],
        ..empty
    };
    let p = import_plan(&data);
    assert_eq!(p.active, Some(1));
}

use gta_mo::cli::{add_tags, display_name_for, is_confirmation, remove_tags};

#[test]
fn tags_add_and_remove() {
    let cur = vec![s("hd"), s("gfx")];
    assert_eq!(add_tags(cur.clone(), &vec![s("gfx"), s("new"), s("new")]), vec![s("hd"), s("gfx"), s("new")]);
    assert_eq!(remove_tags(&cur, &vec![s("hd"), s("x")]), vec![s("gfx")]);
    assert_eq!(remove_tags(&cur, &vec![]), cur);
}

#[test]
fn display_name_and_confirmation() {
    assert_eq!(display_name_for("Skygfx_HD_v2"), "Skygfx HD v2");
    assert!(is_confirmation(" S \n"));
    assert!(is_confirmation("si"));
    assert!(is_confirmation("SI"));
    assert!(!is_confirmation("sí"));
    assert!(!is_confirmation(""));
    assert!(!is_confirmation("no"));
}

use gta_mo::discovery::{manifest_scan_warnings, new_mod_name, orphans, visible_folders};

#[test]
fn discovery_helpers() {
    assert_eq!(visible_folders(&vec![s(".git"), s("A"), s(""), s("B")]), vec![s("A"), s(""), s("B")]);
    assert_eq!(orphans(&vec![s("A"), s("Gone"), s("B")], &vec![s("B"), s("A")]), vec![s("Gone")]);
    assert_eq!(new_mod_name("Mi_Mod", &None), "Mi Mod");
    let named = ModMeta { name: Some(s("Nombre")), ..Default::default() };
    assert_eq!(new_mod_name("Mi_Mod", &Some(named)), "Nombre");
}

#[test]
fn discovery_manifest_warnings() {
    let meta = ModMeta {
        mount: Some(vec![s("../x"), s("falta"), s("ok")]),
        components: Some(vec![
            MetaComponent { name: s("  "), ..Default::default() },
            MetaComponent { name: s("C"), path: Some(s("/abs")), ..Default::default() },
            MetaComponent { name: s("D"), path: Some(s("content/d")), ..Default::default() },
        ]),
        ..Default::default()
    };
    let w = manifest_scan_warnings("M", &Some(meta), &vec![true, false, true]);
    assert_eq!(
        w,
        vec![
            s("    [!] M: 'mount' con entrada inválida '../x' (se ignora)"),
            s("    [!] M: 'mount' 'falta' no existe en el disco"),
            s("    [!] M: componente sin nombre; se ignora"),
            s("    [!] M: componente 'C' con path inválido '/abs'"),
        ]
    );
    assert!(manifest_scan_warnings("M", &None, &vec![]).is_empty());
}

use gta_mo::view::{snapshot_tags, ModView};

fn mview(tags: &[&str]) -> ModView {
    ModView {
        id: 1,
        folder: s("f"),
        name: s("f"),
        enabled: true,
        order: 0,
        meta: ModMetaCache { tags: tags.iter().map(|t| s(t)).collect(), ..Default::default() },
        groups: vec![],
        screenshots: vec![],
    }
}

#[test]
fn snapshot_tags_unique_ignoring_case_sorted() {
    let mods = vec![mview(&["hd", "Texturas"]), mview(&["HD", "audio", "texturas"])];
    assert_eq!(snapshot_tags(&mods), vec![s("Texturas"), s("audio"), s("hd")]);
    assert!(snapshot_tags(&vec![]).is_empty());
}

use gta_mo::view::reorder_drop;

fn ordered_view(folder: &str, order: i64) -> ModView {
    let mut m = mview(&[]);
    m.folder = s(folder);
    m.order = order;
    m
}

#[test]
fn reorder_drop_moves_and_renumbers() {
    let mods = vec![ordered_view("B", 2), ordered_view("C", 1), ordered_view("A", 3)];
    assert_eq!(reorder_drop(&mods, "C", 0), Some(vec![(s("C"), 3), (s("A"), 2), (s("B"), 1)]));
    assert_eq!(reorder_drop(&mods, "A", 3), Some(vec![(s("B"), 3), (s("C"), 2), (s("A"), 1)]));
    assert_eq!(reorder_drop(&mods, "A", 0), None);
    assert_eq!(reorder_drop(&mods, "A", 1), None);
    assert_eq!(reorder_drop(&mods, "B", 1), None);
    assert_eq!(reorder_drop(&mods, "X", 0), None);
    // An index past the end puts the mod last.
    assert_eq!(reorder_drop(&mods, "A", 99), Some(vec![(s("B"), 3), (s("C"), 2), (s("A"), 1)]));
}

use gta_mo::settings::{input_args, tag_words, InputAction};
use gta_mo::view::{active_filter_count, gallery_items, Filters, SortField, StatusFilter};

#[test]
fn tag_dialog_words_and_commands() {
    assert_eq!(tag_words(" hd,  texturas\tgfx\n,,"), vec![s("hd"), s("texturas"), s("gfx")]);
    assert!(tag_words("  , ").is_empty());
    assert_eq!(
        input_args(&InputAction::SetTags(s("M")), "a, b"),
        vec![s("ctl"), s("tag"), s("set"), s("M"), s("a"), s("b")]
    );
    assert_eq!(
        input_args(&InputAction::RenameModFolder(s("Old")), "New"),
        vec![s("ctl"), s("rename"), s("Old"), s("New"), s("--folder")]
    );
    assert_eq!(input_args(&InputAction::Create, "P"), vec![s("ctl"), s("profile"), s("create"), s("P")]);
    assert_eq!(
        input_args(&InputAction::RenameGroup(s("g")), "G2"),
        vec![s("ctl"), s("group"), s("rename"), s("g"), s("G2")]
    );
}

#[test]
fn filter_count_and_gallery() {
    let mut f = Filters::default();
    assert_eq!(active_filter_count(&f), 0);
    f.search = s("  ");
    assert_eq!(active_filter_count(&f), 0);
    f.search = s("x");
    f.tag = Some(s("hd"));
    f.status = StatusFilter::Enabled;
    f.sort = SortField::Name;
    assert_eq!(active_filter_count(&f), 4);

    let mut m = mview(&[]);
    m.folder = s("M");
    m.name = s("Mod");
    m.meta.cover = Some(s("cover.png"));
    m.screenshots = vec![s("shots/a.png")];
    assert!(gallery_items(&None, &m).is_empty());
    let items = gallery_items(&Some(s("/mods")), &m);
    assert_eq!(items.len(), 2);
    assert_eq!(items[0].key, "M/cover.png");
    assert_eq!(items[0].path, "/mods/M/cover.png");
    assert_eq!(items[0].label, "Portada — Mod");
    assert_eq!(items[1].key, "M/shots/a.png");
    assert_eq!(items[1].label, "shots/a.png");
}

use gta_mo::settings::{confirm_args, ConfirmAction};

#[test]
fn confirmation_commands() {
    assert_eq!(
        confirm_args(&ConfirmAction::DeleteMod(s("M")), "default"),
        vec![s("ctl"), s("remove"), s("M"), s("--yes"), s("--profile"), s("default")]
    );
    assert_eq!(
        confirm_args(&ConfirmAction::DeleteProfile(s("p2")), "default"),
        vec![s("ctl"), s("profile"), s("delete"), s("p2"), s("--yes")]
    );
    assert_eq!(
        confirm_args(&ConfirmAction::DeleteUserData(s("GTASAsf1.b")), "p"),
        vec![s("ctl"), s("data"), s("remove"), s("GTASAsf1.b"), s("--yes"), s("--profile"), s("p")]
    );
}

use gta_mo::view::{GalleryItem, Lightbox};

fn item(n: usize) -> GalleryItem {
    GalleryItem { key: format!("k{n}"), path: format!("/tmp/{n}.png"), label: format!("img {n}") }
}

#[test]
fn new_clamps_index() {
    let lb = Lightbox::new(vec![item(0), item(1)], 5);
    assert_eq!(lb.index, 1);
    assert_eq!(lb.len(), 2);

    let empty = Lightbox::new(vec![], 3);
    assert_eq!(empty.len(), 0);
}

#[test]
fn lightbox_steps_wrap_around() {
    let mut lb = Lightbox::new(vec![item(0), item(1), item(2)], 0);
    lb.step(-1);
    assert_eq!(lb.index, 2);
    lb.step(1);
    assert_eq!(lb.index, 0);
    lb.step(1);
    assert_eq!(lb.index, 1);
    let mut one = Lightbox::new(vec![item(0)], 0);
    one.step(1);
    assert_eq!(one.index, 0);
}

use gta_mo::launcher::LaunchEngine;

#[test]
fn system_deps_report_names_missing_tools() {
    let tools = LaunchEngine::required_tool_names();
    assert_eq!(tools, vec![s("fuse-overlayfs"), s("umu-run")]);
    assert_eq!(LaunchEngine::system_deps_result(&tools, &vec![true, true]), Ok(()));
    assert_eq!(
        LaunchEngine::system_deps_result(&tools, &vec![false, true]),
        Err(s("Faltan dependencias: fuse-overlayfs. Asegurate de tener fuse-overlayfs y umu-launcher instalados."))
    );
    assert_eq!(
        LaunchEngine::system_deps_result(&tools, &vec![false, false]),
        Err(s("Faltan dependencias: fuse-overlayfs, umu-run. Asegurate de tener fuse-overlayfs y umu-launcher instalados."))
    );
    let r = LaunchEngine::check_system_deps();
    let possible = [
        LaunchEngine::system_deps_result(&tools, &vec![true, true]),
        LaunchEngine::system_deps_result(&tools, &vec![true, false]),
        LaunchEngine::system_deps_result(&tools, &vec![false, true]),
        LaunchEngine::system_deps_result(&tools, &vec![false, false]),
    ];
    assert!(possible.contains(&r));
}
