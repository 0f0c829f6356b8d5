use gta_mo::cli::{
    list_mods, normalize_tags, resolve_conflict_ref, tags_display, valid_folder_name, ExportMod,
    ListFilters, ListedMod,
};
use gta_mo::color::strip_ansi;
use gta_mo::config::{db_path, lockfile_path, Config, RuntimePaths};
use gta_mo::conflicts::{
    group_by_path, normalize_rel, providers_for_path, scan_conflicts, severity_for, streams_equal,
    FileRecord, Severity, StreamStep,
};
use gta_mo::constraints::{check, Kind};
use gta_mo::db::{slugify, ModEntry, ModIdentity, ModMetaCache, Profile};
use gta_mo::fonts::is_float_literal;
use gta_mo::games::{gta_sa, spec_for};
use gta_mo::launcher::{build_lowerdir, LaunchEngine, LaunchOptions, LaunchStart};
use gta_mo::log::{format_line, info, warn, error, LogLevel};
use gta_mo::meta::{
    is_image_file, mod_layers, normalize_mod_id, valid_modloader_folder, valid_relative_path,
    ModLoaderMeta, ModMeta, ModVariant,
};
use gta_mo::modloader::{
    configured_profile, detect_folders, entries_for, ini_path, merge_priority, merged_ini,
    read_priorities, strip_comment,
};
use gta_mo::paths::join;
use gta_mo::resolver::DepPrompt;
use gta_mo::settings::{theme_icon, Accent, Density, ThemePref};
use gta_mo::userdata::{confine_entry, portablegta_installed, resolve_entry, scan, Category, Entry};
use gta_mo::view::{filter_and_sort, merge_meta_caches, Filters, ModView, SortField, StatusFilter};

fn s(x: &str) -> String {
    x.to_string()
}

fn base_config() -> Config {
    Config {
        game_root: "/games/sa".into(),
        proton_path: "/opt/proton".into(),
        game_id: None,
        game_exe: None,
        proton_use_wined3d: None,
        proton_disable_ntsync: None,
        proton_disable_upscalers: None,
        dxvk_hud: None,
        auto_discover: None,
        mods_dir: None,
        default_profile: None,
    }
}

#[test]
fn strip_ansi_removes_sequences_and_lone_escapes() {
    assert_eq!(strip_ansi("\x1b[1m\x1b[32m[+]\x1b[39m\x1b[0m listo"), "[+] listo");
    assert_eq!(strip_ansi("a\x1bb"), "ab");
    assert_eq!(strip_ansi("x\x1b[31"), "x");
    assert_eq!(strip_ansi("plain"), "plain");
    let once = strip_ansi("\x1b[33mwarn\x1b[0m\x1b");
    assert_eq!(strip_ansi(&once), once);
}

#[test]
fn colored_lines_strip_to_plain_lines() {
    assert_eq!(format_line(LogLevel::Info, "hola", false), "[+] hola");
    assert_eq!(warn("cuidado", false), "[!] cuidado");
    assert_eq!(error("fallo", false), "[X] fallo");
    let colored = info("hola", true);
    assert_eq!(colored, "\x1b[1m\x1b[32m[+]\x1b[39m\x1b[0m hola");
    assert_eq!(strip_ansi(&colored), info("hola", false));
    assert_eq!(warn("w", true), "\x1b[1m\x1b[33m[!]\x1b[39m\x1b[0m w");
    assert_eq!(error("e", true), "\x1b[1m\x1b[31m[X]\x1b[39m\x1b[0m e");
}

#[test]
fn slug_is_kebab_for_messy_names() {
    assert_eq!(slugify("  --Hello__World--  "), "hello-world");
    assert_eq!(slugify("Ñandú Mod 2"), "ñandú-mod-2");
    assert_eq!(slugify(""), "");
}

#[test]
fn merge_appends_section_after_a_blank_line() {
    let merged = merge_priority("[Folder.Config]\nProfile = Custom\n", "Custom", &vec![(s("X"), 55)]);
    assert_eq!(
        merged,
        "[Folder.Config]\nProfile = Custom\n\n[Profiles.Custom.Priority]\n; Higher values override lower ones (default 50).\nX=55\n"
    );
    let merged = merge_priority("", "Default", &vec![(s("A"), -3)]);
    assert_eq!(
        merged,
        "[Profiles.Default.Priority]\n; Higher values override lower ones (default 50).\nA=-3\n"
    );
    assert_eq!(read_priorities(&merged, "default"), vec![(s("A"), -3)]);
}

#[test]
fn read_priorities_parses_like_i64() {
    let ini = "[profiles.P.priority]\nA = +5 ; comment\nB=-0\nC=9223372036854775808\nD=-9223372036854775808\nE = x\n; F=1\n[Other]\nG=1\n";
    assert_eq!(
        read_priorities(ini, "P"),
        vec![(s("A"), 5), (s("B"), 0), (s("D"), i64::MIN)]
    );
}

#[test]
fn configured_profile_strips_quotes_and_comments() {
    assert_eq!(
        configured_profile("[Folder.Config]\nProfile = \"Mine\" ; c\n").as_deref(),
        Some("Mine")
    );
    assert_eq!(configured_profile("[Other]\nProfile = X\n"), None);
    assert_eq!(configured_profile("[folder.config]\nprofile=\"\"\nProfile=Y\n").as_deref(), Some("Y"));
    assert_eq!(strip_comment("a=1 ; x"), "a=1 ");
}

#[test]
fn merged_ini_fills_an_empty_file() {
    let out = merged_ini("  \n", &vec![(s("Proper Fixes"), 60)]);
    assert!(out.starts_with(";\n;  Mod Loader Folder Config File\n;\n[Folder.Config]\nProfile = Default\n"));
    assert_eq!(read_priorities(&out, "Default"), vec![(s("Proper Fixes"), 60)]);
    assert_eq!(ini_path("/up"), "/up/modloader/modloader.ini");
}

fn ml_meta(priority: Option<i64>, folders: Option<Vec<String>>) -> Option<ModMeta> {
    let mut m = ModMeta::default();
    m.modloader = Some(ModLoaderMeta { priority, folders });
    Some(m)
}

#[test]
fn entries_keep_lowest_priority_sorted_by_name() {
    let enabled = vec![s("M1"), s("M2"), s("M3"), s("M4")];
    let metas = vec![
        ml_meta(Some(70), Some(vec![s("Zeta"), s("Alpha")])),
        ml_meta(Some(40), Some(vec![])),
        ml_meta(Some(10), Some(vec![s("bad=name")])),
        ml_meta(None, Some(vec![s("Ignored")])),
    ];
    let detected = vec![vec![], vec![s("Zeta")], vec![], vec![]];
    let (entries, warnings) = entries_for(&enabled, &metas, &detected);
    assert_eq!(entries, vec![(s("Alpha"), 70), (s("Zeta"), 40)]);
    assert_eq!(
        warnings,
        vec![s("'M3': nombre de carpeta de modloader inválido 'bad=name' (se ignora).")]
    );
}

#[test]
fn detected_folders_skip_hidden_and_repeat() {
    assert_eq!(
        detect_folders(&vec![s(".data"), s("Proper Fixes"), s("Alpha"), s("Proper Fixes")]),
        vec![s("Alpha"), s("Proper Fixes")]
    );
}

fn rec(rel: &str, folder: &str, size: u64) -> FileRecord {
    FileRecord { rel: rel.into(), folder: folder.into(), file: format!("/m/{folder}/{rel}"), size }
}

#[test]
fn conflicts_are_grouped_sorted_and_classified() {
    let records = vec![
        rec("models/x.dff", "B", 10),
        rec("gta_sa.exe", "A", 5),
        rec("models/x.dff", "A", 10),
        rec("modloader/y.asi", "A", 1),
        rec("modloader/y.asi", "C", 2),
        rec("data/only.dat", "A", 3),
    ];
    let groups = group_by_path(records);
    let paths: Vec<&str> = groups.iter().map(|g| g.path.as_str()).collect();
    assert_eq!(paths, vec!["data/only.dat", "gta_sa.exe", "models/x.dff", "modloader/y.asi"]);
    let eq = vec![true, true, true, true];
    let conflicts = scan_conflicts(&groups, &eq);
    assert_eq!(conflicts.len(), 2);
    assert_eq!(conflicts[0].path, "models/x.dff");
    assert_eq!(conflicts[0].providers, vec![s("B"), s("A")]);
    assert!(conflicts[0].duplicate);
    assert_eq!(conflicts[0].severity, Severity::Medium);
    assert_eq!(conflicts[1].path, "modloader/y.asi");
    assert_eq!(conflicts[1].providers, vec![s("A"), s("C")]);
    assert!(!conflicts[1].duplicate);
    assert_eq!(conflicts[1].severity, Severity::Info);
    let not_equal = scan_conflicts(&groups, &vec![true, true, false, true]);
    assert!(!not_equal[0].duplicate);
    assert_eq!(severity_for("GTA_SA.PDB"), Severity::High);
    assert_eq!(severity_for("bin/tool.EXE"), Severity::High);
}

#[test]
fn providers_normalize_the_path() {
    assert_eq!(normalize_rel("././models\\x.dff"), "models/x.dff");
    let records = vec![rec("models/x.dff", "B", 10), rec("models/x.dff", "A", 12)];
    let p = providers_for_path(&records, "./models\\x.dff", true).unwrap();
    assert_eq!(p.providers, vec![s("B"), s("A")]);
    assert_eq!(p.sizes, vec![10, 12]);
    assert!(!p.duplicate);
    assert_eq!(p.severity, Severity::Medium);
    assert!(providers_for_path(&records, "nope", true).is_none());
}

#[test]
fn stream_steps() {
    let abc: &[u8] = b"abc";
    let abd: &[u8] = b"abd";
    let ab: &[u8] = b"ab";
    let empty: &[u8] = b"";
    assert_eq!(streams_equal(Some(abc), Some(abc)), StreamStep::Continue);
    assert_eq!(streams_equal(Some(empty), Some(empty)), StreamStep::Equal);
    assert_eq!(streams_equal(Some(abc), Some(abd)), StreamStep::Different);
    assert_eq!(streams_equal(Some(ab), Some(abc)), StreamStep::Different);
    assert_eq!(streams_equal(None, Some(empty)), StreamStep::Different);
}

fn meta_with(id: &str, group: Option<&str>, conflicts: Vec<&str>) -> Option<ModMeta> {
    let mut m = ModMeta::default();
    m.id = Some(id.into());
    m.variant = group.map(|g| ModVariant { group: g.into(), name: None });
    m.conflicts = conflicts.into_iter().map(String::from).collect();
    Some(m)
}

#[test]
fn detects_variant_and_conflict_from_manifests() {
    let all = vec![s("A"), s("B"), s("C")];
    let metas = vec![
        meta_with("x:a", Some("fam"), vec![]),
        meta_with("x:b", Some("fam"), vec![]),
        meta_with("x:c", None, vec!["X:A "]),
    ];
    let v = check(&all, &metas, &vec![s("B"), s("A")], &vec![metas[1].clone(), metas[0].clone()]);
    assert_eq!(v.len(), 1);
    assert_eq!(v[0].kind, Kind::Variant);
    assert_eq!(v[0].message, "Varias variantes de 'fam' activadas a la vez: A, B.");

    let v = check(&all, &metas, &vec![s("A"), s("C")], &vec![metas[0].clone(), metas[2].clone()]);
    assert_eq!(v.len(), 1);
    assert_eq!(v[0].kind, Kind::Conflict);
    assert_eq!(v[0].message, "'A' es incompatible con 'C' (ambos activados).");

    assert!(check(&all, &metas, &vec![s("A")], &vec![metas[0].clone()]).is_empty());
}

fn entry(rel: &str) -> Entry {
    Entry { rel: rel.into(), name: rel.into(), size: 1, modified: None, category: gta_mo::userdata::classify(rel) }
}

#[test]
fn userdata_listing_and_paths() {
    let out = scan(vec![entry("z.b"), entry("Gallery/a.png"), entry("a.b"), entry("gta_sa.set"), entry("notes.txt")]);
    let rels: Vec<&str> = out.iter().map(|e| e.rel.as_str()).collect();
    assert_eq!(rels, vec!["notes.txt", "a.b", "z.b", "Gallery/a.png", "gta_sa.set"]);
    assert_eq!(Category::Saves.key(), "saves");
    assert_eq!(Category::UserTracks.label(), "User Tracks");

    assert_eq!(
        resolve_entry("/up", "userfiles", "a/b.b").unwrap(),
        (s("/up/userfiles"), s("/up/userfiles/a/b.b"))
    );
    assert_eq!(resolve_entry("/up", "userfiles", "../escape").unwrap_err(), "Ruta de datos inválida: '../escape'");
    assert!(resolve_entry("/up", "userfiles", "/etc/passwd").is_err());
    assert_eq!(confine_entry("/up/userfiles", "/up/userfiles/a.b", "a.b").unwrap(), "/up/userfiles/a.b");
    assert_eq!(
        confine_entry("/up/userfiles", "/up/userfiles2/a.b", "a.b").unwrap_err(),
        "Ruta fuera de la carpeta de datos: 'a.b'"
    );
    assert!(portablegta_installed(&vec![s("x.asi"), s("PortableGTA.ASI")]));
    assert!(!portablegta_installed(&vec![]));
    assert!(valid_relative_path("a/b"));
    assert!(!valid_relative_path("a/./b"));
}

#[test]
fn config_defaults_and_paths() {
    let mut cfg = base_config();
    assert_eq!(cfg.game_id(), "umu-gtasa");
    assert_eq!(cfg.game_exe(), "gta_sa.exe");
    assert!(cfg.proton_use_wined3d());
    assert!(!cfg.proton_disable_ntsync());
    assert!(!cfg.auto_discover());
    assert!(cfg.dxvk_hud().starts_with("devinfo,fps"));
    assert_eq!(cfg.default_profile(), None);
    let p = RuntimePaths::from_config(&cfg);
    assert_eq!(p.mods_dir, "/games/sa/mods");
    assert_eq!(p.base_game, "/games/sa/base");
    assert_eq!(p.merged, "/games/sa/run/merged");
    let pp = p.profile_paths("default");
    assert_eq!(pp.upper, "/games/sa/run/profiles/default/upper");
    assert_eq!(pp.log_dir, "/games/sa/run/profiles/default/logs");
    cfg.mods_dir = Some("/elsewhere".into());
    cfg.game_id = Some("umu-x".into());
    assert_eq!(RuntimePaths::from_config(&cfg).mods_dir, "/elsewhere");
    assert_eq!(cfg.game_id(), "umu-x");
    assert_eq!(lockfile_path(None), "/tmp/gta-mo-launcher.lock");
    assert_eq!(lockfile_path(Some("/run/user/1000/")), "/run/user/1000/gta-mo-launcher.lock");
    assert_eq!(db_path(None, Some("/data")), "/data/gta-mo/organizer.db");
    assert_eq!(db_path(Some("/x.db"), Some("/data")), "/x.db");
}

#[test]
fn launch_plan_follows_options() {
    let cfg = base_config();
    let mut opts = LaunchOptions::default();
    let plan = LaunchEngine::run(&opts, &cfg);
    assert!(!plan.discover);
    assert_eq!(plan.start, LaunchStart::Launch);
    assert_eq!(plan.prompt, DepPrompt::Prompt);
    assert!(plan.log.is_empty());
    assert_eq!(plan.result, None);
    opts.discover = true;
    opts.deps_ignore = true;
    let plan = LaunchEngine::run(&opts, &cfg);
    assert!(plan.discover);
    assert_eq!(plan.start, LaunchStart::DiscoverOnly);
    assert_eq!(plan.prompt, DepPrompt::Ignore);
    assert_eq!(plan.log, vec!["Auto-descubriendo mods...".to_string()]);
    assert_eq!(plan.result, Some("Descubrimiento completado.".to_string()));
    opts.clean = true;
    opts.deps_enable = true;
    let plan = LaunchEngine::run(&opts, &cfg);
    assert_eq!(plan.start, LaunchStart::Clean);
    assert_eq!(plan.prompt, DepPrompt::AutoEnable);
    assert_eq!(
        plan.log,
        vec!["Auto-descubriendo mods...".to_string(), "Eliminando mods hu\u{e9}rfanos...".to_string()]
    );
    assert_eq!(plan.result, Some("Limpieza completada.".to_string()));
}

#[test]
fn path_checks_report_the_first_problem() {
    let cfg = base_config();
    assert!(LaunchEngine::validate_paths(&cfg, true, true, true).is_ok());
    assert_eq!(
        LaunchEngine::validate_paths(&cfg, false, false, false).unwrap_err(),
        "game_root no es un directorio válido: /games/sa"
    );
    assert_eq!(
        LaunchEngine::validate_paths(&cfg, true, false, false).unwrap_err(),
        "proton_path no es un directorio válido: /opt/proton"
    );
    assert_eq!(
        LaunchEngine::validate_paths(&cfg, true, true, false).unwrap_err(),
        "directorio base del juego no encontrado: /games/sa/base"
    );
    assert_eq!(
        gta_mo::launcher::validate_config_paths(&cfg, false, true, true).unwrap_err(),
        "game_root no es un directorio valido: /games/sa"
    );
}

#[test]
fn lowerdir_puts_mods_above_the_game() {
    assert_eq!(
        LaunchEngine::build_lowerdir("/m", &vec![s("Top"), s("Low")], "/g/base"),
        "/m/Top:/m/Low:/g/base"
    );
    assert_eq!(build_lowerdir("/m", &vec![], "/g/base"), "/g/base");
}

#[test]
fn environment_for_upscalers_and_debug() {
    let mut cfg = base_config();
    let vars = LaunchEngine::setup_env(&cfg, "/pfx", "/logs", false);
    assert_eq!(vars.len(), 5);
    assert_eq!(vars[3], (s("PROTON_USE_WINED3D"), s("1")));
    assert!(!vars.iter().any(|(k, _)| k.ends_with("_UPGRADE")));
    cfg.proton_disable_upscalers = Some(true);
    cfg.proton_use_wined3d = Some(false);
    let vars = LaunchEngine::setup_env(&cfg, "/pfx", "/logs", true);
    assert_eq!(vars.len(), 17);
    assert_eq!(vars[3], (s("PROTON_USE_WINED3D"), s("0")));
    for (k, v) in &vars[5..12] {
        assert!(k.starts_with("PROTON_"));
        assert_eq!(v, "0");
    }
    assert_eq!(vars[14], (s("DXVK_LOG_PATH"), s("/logs")));
}

#[test]
fn dry_run_report_lists_layers() {
    let cfg = base_config();
    let paths = RuntimePaths::from_config(&cfg);
    let profile = Profile { id: 1, name: "Default".into(), slug: "default".into(), is_active: true, created_at: String::new() };
    let pp = paths.profile_paths("default");
    let out = LaunchEngine::dry_run_report(&cfg, &paths, &profile, &pp, &vec![s("A"), s("B")], false);
    assert!(out.contains("Perfil: Default (default)\n"));
    assert!(out.contains("  1. /games/sa/mods/A\n  2. /games/sa/mods/B\n  3. /games/sa/base (base)\n"));
    assert!(out.contains("PROTON_USE_WINED3D:        true\n"));
    assert!(!out.contains("[DEBUG]"));
    assert!(out.ends_with("Ejecutable:                /games/sa/run/merged/gta_sa.exe\n"));
    let clean = LaunchEngine::dry_run_report(&cfg, &paths, &profile, &pp, &vec![], true);
    assert!(clean.contains("  1. /games/sa/base (juego limpio)\n"));
    assert!(clean.contains("  DXVK_LOG_PATH:           /games/sa/run/profiles/default/logs\n"));
    assert_eq!(LaunchEngine::priority_log(&vec![s("A")]), "Mods en orden de prioridad:\n  - A\n");
}

#[test]
fn folder_names_and_tags() {
    assert!(valid_folder_name("Mi Mod"));
    for bad in ["", ".hidden", "a/b", "a\\b", "a:b", "a,b", "a|b", " pad", "pad "] {
        assert!(!valid_folder_name(bad), "{bad}");
    }
    assert_eq!(
        normalize_tags(&vec![s(" #Essential "), s("bug-fix"), s("essential"), s("  ")]).unwrap(),
        vec![s("essential"), s("bug-fix")]
    );
    assert_eq!(
        normalize_tags(&vec![s("ok"), s("a b")]).unwrap_err(),
        "Tag inválido: 'a b' (usa minúsculas, dígitos, '-' o '_')."
    );
    assert_eq!(tags_display(&vec![]), "(ninguno)");
    assert_eq!(tags_display(&vec![s("a"), s("b")]), "#a #b");
}

#[test]
fn conflict_references_by_id_or_folder() {
    let by_id = vec![(s("x:a"), s("FolderA"))];
    let folders = vec![s("FolderA"), s("Other")];
    assert_eq!(resolve_conflict_ref(" X:A ", &by_id, &folders).as_deref(), Some("FolderA"));
    assert_eq!(resolve_conflict_ref(" Other ", &by_id, &folders).as_deref(), Some("Other"));
    assert_eq!(resolve_conflict_ref("x:b", &by_id, &folders), None);
}

#[test]
fn export_then_import_restores_the_cache() {
    let cache = ModMetaCache {
        mod_id: Some("a:b".into()),
        tags: vec!["t".into()],
        variant_group: Some("fam".into()),
        variant_name: Some("one".into()),
        modloader_priority: Some(60),
        ..Default::default()
    };
    let ident = ModIdentity { id: 3, folder_name: "F".into(), name: "N".into() };
    let e = ExportMod::from_identity(&ident, &cache);
    assert_eq!(e.folder, "F");
    assert!(e.modloader.as_ref().unwrap().folders.is_none());
    let back = e.to_cache();
    assert_eq!(back.mod_id, cache.mod_id);
    assert_eq!(back.tags, cache.tags);
    assert_eq!(back.variant_name, cache.variant_name);
    assert_eq!(back.modloader_priority, Some(60));
    assert!(back.modloader_folders.is_empty());
}

fn listed(id: i64, folder: &str, enabled: bool, order: i64, author: &str) -> ListedMod {
    ListedMod {
        entry: ModEntry { id, folder_name: folder.into(), name: folder.into(), enabled, load_order: order },
        name: folder.into(),
        meta: ModMetaCache { author: vec![author.into()], ..Default::default() },
    }
}

#[test]
fn list_filters_and_sorts() {
    let mods = vec![
        listed(1, "a", true, 5, "Ann"),
        listed(2, "b", false, -3, "Bob"),
        listed(3, "c", true, 20, "Annette"),
    ];
    let out = list_mods(mods, Some("enabled"), &ListFilters::default(), &vec![], Some("order"), None);
    let ids: Vec<i64> = out.iter().map(|m| m.entry.id).collect();
    assert_eq!(ids, vec![3, 1]);
    let filters = ListFilters { author: Some("ANN".into()), ..Default::default() };
    let out = list_mods(out, None, &filters, &vec![], Some("folder"), Some("asc"));
    let ids: Vec<i64> = out.iter().map(|m| m.entry.id).collect();
    assert_eq!(ids, vec![1, 3]);
    let groups = ListFilters { group: Some("g".into()), ..Default::default() };
    let out = list_mods(out, None, &groups, &vec![3], None, None);
    assert_eq!(out.len(), 1);
}

#[test]
fn manifest_helpers() {
    let mut m = ModMeta::default();
    m.mount = Some(vec![s("content"), s("../x"), s("data")]);
    assert_eq!(mod_layers("/mods", "M", Some(&m)), vec![s("/mods/M/content"), s("/mods/M/data")]);
    m.mount = Some(vec![s("/abs")]);
    assert_eq!(mod_layers("/mods", "M", Some(&m)), vec![s("/mods/M")]);
    assert_eq!(mod_layers("/mods/", "M", None), vec![s("/mods/M")]);
    assert!(is_image_file("Gallery/Shot.JPEG"));
    assert!(!is_image_file(".png"));
    assert!(!is_image_file("a.png/readme"));
    assert_eq!(normalize_mod_id("  Xardec:HD "), "xardec:hd");
    assert!(valid_modloader_folder("Proper Fixes"));
    assert!(!valid_modloader_folder("a=b"));
    assert!(!valid_modloader_folder(" x"));
    assert!(!valid_modloader_folder(".."));
    assert_eq!(join("/a", "/b"), "/b");
    assert_eq!(join("", "b"), "b");
}

#[test]
fn float_literals_follow_the_std_grammar() {
    for ok in ["11", "10.5", ".5", "5.", "1e5", "+1.5E-3", "-inf", "Infinity", "NaN"] {
        assert!(is_float_literal(ok), "{ok}");
        assert!(ok.parse::<f32>().is_ok(), "{ok}");
    }
    for bad in [".", "e5", "1e", "1e+", "", "+", "1.2.3", "12px"] {
        assert!(!is_float_literal(bad), "{bad}");
        assert!(bad.parse::<f32>().is_err(), "{bad}");
    }
}

#[test]
fn game_spec_values() {
    let g = gta_sa();
    assert_eq!(g.exe, "gta_sa.exe");
    assert_eq!(g.umu_game_id, "umu-gtasa");
    assert_eq!(g.user_data_dir, Some("userfiles"));
    assert!(spec_for("gta_sa").is_some());
    assert!(spec_for("GTA_SA").is_none());
}

#[test]
fn labels_and_icons() {
    assert_eq!(Density::Cozy.label(), "Cómoda");
    assert_eq!(Density::default(), Density::Cozy);
    assert_eq!(ThemePref::Dark.label(), "Oscuro");
    assert_eq!(Accent::Amber.label(), "Ámbar");
    assert_eq!(theme_icon(ThemePref::Light), "\u{E178}");
    assert_eq!(SortField::ModId.label(), "Mod ID");
    assert_eq!(StatusFilter::Disabled.label(), "Desactivados");
}

fn view(id: i64, name: &str, order: i64, enabled: bool) -> ModView {
    ModView {
        id,
        folder: name.to_lowercase(),
        name: name.into(),
        enabled,
        order,
        meta: ModMetaCache::default(),
        groups: vec![],
        screenshots: vec![],
    }
}

#[test]
fn priority_sort_handles_negative_orders() {
    let mut mods = vec![view(1, "A", -5, true), view(2, "B", 7, false), view(3, "C", 7, true)];
    filter_and_sort(&mut mods, &Filters::default());
    let ids: Vec<i64> = mods.iter().map(|m| m.id).collect();
    assert_eq!(ids, vec![2, 3, 1]);
    let f = Filters { status: StatusFilter::Enabled, sort: SortField::Status, desc: false, ..Default::default() };
    filter_and_sort(&mut mods, &f);
    let ids: Vec<i64> = mods.iter().map(|m| m.id).collect();
    assert_eq!(ids, vec![3, 1]);
}

#[test]
fn merging_a_cache_over_itself_keeps_it() {
    let c = ModMetaCache { version: Some("2".into()), tags: vec!["x".into()], ..Default::default() };
    let c2 = ModMetaCache { version: Some("2".into()), tags: vec!["x".into()], ..Default::default() };
    let m = merge_meta_caches(c, c2);
    assert_eq!(m.version.as_deref(), Some("2"));
    assert_eq!(m.tags, vec![s("x")]);
    let m = merge_meta_caches(m, ModMetaCache::default());
    assert_eq!(m.version.as_deref(), Some("2"));
}
