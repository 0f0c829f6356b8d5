use gta_mo::db::ModMetaCache;
use gta_mo::meta::MetaComponent;
use gta_mo::panels::{
    component_line, conflicts_label, cycle_line, dep_badge, dep_problem_count, enabled_count,
    real_conflict_count, dependent_title, depends_title, detail_fields,
    group_label, group_switch_args, has_dep_issues, issue_lines, issue_mods, membership_args,
    profile_counts_label, reorder_layout, row_chips, row_meta_line, toggle_args,
};
use gta_mo::view::{ConflictView, Filters, ModDepStatus, ModView, SortField, StatusFilter};
use std::collections::HashMap;

fn s(x: &str) -> String {
    x.to_string()
}

fn strings(xs: &[&str]) -> Vec<String> {
    xs.iter().map(|x| x.to_string()).collect()
}

fn view(id: i64, folder: &str) -> ModView {
    ModView {
        id,
        folder: s(folder),
        name: s(folder),
        enabled: true,
        order: 0,
        meta: ModMetaCache::default(),
        groups: vec![],
        screenshots: vec![],
    }
}

#[test]
fn toggle_args_confirm_only_when_disabling() {
    assert_eq!(toggle_args(7, true, "main"), strings(&["ctl", "enable", "7", "--profile", "main"]));
    assert_eq!(
        toggle_args(-3, false, "alt"),
        strings(&["ctl", "disable", "-3", "--yes", "--profile", "alt"])
    );
}

#[test]
fn group_buttons_build_their_commands() {
    assert_eq!(
        group_switch_args(true, "Coches", "main"),
        strings(&["ctl", "group", "enable", "Coches", "--profile", "main"])
    );
    assert_eq!(
        group_switch_args(false, "Coches", "main"),
        strings(&["ctl", "group", "disable", "Coches", "--profile", "main"])
    );
    let groups = strings(&["HUD", "Coches"]);
    assert_eq!(
        membership_args(&groups, "skins", "Coches", "main"),
        strings(&["ctl", "group", "remove", "skins", "Coches", "--profile", "main"])
    );
    assert_eq!(
        membership_args(&groups, "skins", "Armas", "main"),
        strings(&["ctl", "group", "add", "skins", "Armas", "--profile", "main"])
    );
}

#[test]
fn reorder_only_in_default_view() {
    let f = Filters::default();
    assert!(reorder_layout(&f));
    let mut g = Filters::default();
    g.search = s("x");
    assert!(!reorder_layout(&g));
    let mut g = Filters::default();
    g.desc = false;
    assert!(!reorder_layout(&g));
    let mut g = Filters::default();
    g.sort = SortField::Name;
    assert!(!reorder_layout(&g));
    let mut g = Filters::default();
    g.status = StatusFilter::Enabled;
    assert!(!reorder_layout(&g));
    let mut g = Filters::default();
    g.tag = Some(s("hud"));
    assert!(!reorder_layout(&g));
}

#[test]
fn row_meta_line_drops_authors_when_compact() {
    let c = ModMetaCache {
        version: Some(s("1.2")),
        author: strings(&["ana", "luis"]),
        ..Default::default()
    };
    assert_eq!(row_meta_line(&c, false), Some(s("v1.2 \u{b7} ana, luis")));
    assert_eq!(row_meta_line(&c, true), Some(s("v1.2")));
    let only_authors = ModMetaCache { author: strings(&["ana"]), ..Default::default() };
    assert_eq!(row_meta_line(&only_authors, false), Some(s("ana")));
    assert_eq!(row_meta_line(&only_authors, true), None);
    assert_eq!(row_meta_line(&ModMetaCache::default(), false), None);
}

#[test]
fn dep_badge_counts_and_flags_problems() {
    let none = ModDepStatus::default();
    assert_eq!(dep_badge(&none), None);
    let ok = ModDepStatus { required: 2, optional: 1, ..Default::default() };
    assert_eq!(dep_badge(&ok), Some((s("\u{E24A} 2 req \u{b7} 1 opt"), false)));
    let bad = ModDepStatus { required: 1, optional: 0, disabled: vec![], missing: strings(&["x"]) };
    assert_eq!(
        dep_badge(&bad),
        Some((s("\u{E24A} 1 req \u{b7} 0 opt \u{b7} requeridas sin resolver"), true))
    );
}

#[test]
fn row_chips_tags_then_groups() {
    assert_eq!(
        row_chips(&strings(&["hud", "ui"]), &strings(&["Base"])),
        strings(&["#hud", "#ui", "[Base]"])
    );
    assert!(row_chips(&vec![], &vec![]).is_empty());
}

#[test]
fn component_line_with_and_without_extras() {
    let full = MetaComponent {
        name: s("Texturas"),
        version: Some(s("3")),
        author: Some(s("ana")),
        url: None,
        path: None,
    };
    assert_eq!(component_line(&full), "Texturas \u{2014} v3 \u{b7} ana");
    let bare = MetaComponent { name: s("Sonidos"), version: None, author: None, url: None, path: None };
    assert_eq!(component_line(&bare), "Sonidos");
    let author_only = MetaComponent { author: Some(s("luis")), ..bare.clone() };
    assert_eq!(component_line(&author_only), "Sonidos \u{2014} luis");
}

#[test]
fn relation_titles_fall_back_to_folder() {
    assert_eq!(depends_title("base", "Base", true), "Base (requerido)");
    assert_eq!(depends_title("base", "Base", false), "Base (opcional)");
    assert_eq!(depends_title("base", "", true), "base");
    assert_eq!(dependent_title("skin", "Skin"), "Skin");
    assert_eq!(dependent_title("skin", ""), "skin");
}

#[test]
fn issue_lines_disabled_then_missing() {
    let d = ModDepStatus {
        required: 3,
        optional: 0,
        disabled: strings(&["a"]),
        missing: strings(&["b", "c"]),
    };
    assert_eq!(
        issue_lines(&d),
        strings(&[
            "  requiere 'a' (desactivado)",
            "  requiere b (no instalado)",
            "  requiere c (no instalado)",
        ])
    );
    assert_eq!(cycle_line(&strings(&["a", "b", "a"])), "  a \u{2192} b \u{2192} a");
}

#[test]
fn panel_labels() {
    assert_eq!(profile_counts_label(12, 5), "12 mods \u{b7} 5 activos");
    assert_eq!(group_label("HUD", 3), "HUD (3 mods)");
}

#[test]
fn detail_fields_show_present_values_and_tags_always() {
    let c = ModMetaCache {
        mod_id: Some(s("ana:hud")),
        version: Some(s("1.0")),
        author: strings(&["ana", "luis"]),
        description: Some(s("Un HUD")),
        ..Default::default()
    };
    assert_eq!(
        detail_fields(&c, &strings(&["Base"])),
        vec![
            (s("Mod ID:"), s("ana:hud")),
            (s("Versi\u{f3}n:"), s("1.0")),
            (s("Autor:"), s("ana, luis")),
            (s("Tags:"), s("(sin tags)")),
            (s("Grupos:"), s("Base")),
            (s("Descripci\u{f3}n:"), s("Un HUD")),
        ]
    );
    let t = ModMetaCache { tags: strings(&["a", "b"]), mount: strings(&["x"]), ..Default::default() };
    assert_eq!(
        detail_fields(&t, &vec![]),
        vec![(s("Tags:"), s("a, b")), (s("Mount:"), s("x"))]
    );
}

#[test]
fn dependency_tab_lists_only_mods_with_problems() {
    let mods = vec![view(1, "a"), view(2, "b"), view(3, "c")];
    let mut status: HashMap<i64, ModDepStatus> = HashMap::new();
    status.insert(1, ModDepStatus { required: 1, ..Default::default() });
    status.insert(3, ModDepStatus { required: 1, optional: 0, disabled: strings(&["x"]), missing: vec![] });
    assert_eq!(issue_mods(&mods, &status), vec![2]);
    assert!(has_dep_issues(&vec![], &status));
    status.remove(&3);
    assert!(issue_mods(&mods, &status).is_empty());
    assert!(!has_dep_issues(&vec![], &status));
    assert!(has_dep_issues(&vec![strings(&["a", "a"])], &status));
}

fn conflict(path: &str, duplicate: bool) -> ConflictView {
    ConflictView { path: s(path), severity: s("Alta"), providers: strings(&["a", "b"]), duplicate }
}

#[test]
fn status_bar_counters() {
    let cs = vec![conflict("x", false), conflict("y", true), conflict("z", false)];
    assert_eq!(real_conflict_count(&cs), 2);
    assert_eq!(conflicts_label(2, false), "Conflictos: 2");
    assert_eq!(conflicts_label(0, true), "Conflictos: 0\u{2026}");
    let mut mods = vec![view(1, "a"), view(2, "b"), view(3, "c")];
    mods[1].enabled = false;
    assert_eq!(enabled_count(&mods), 2);
}

#[test]
fn dependency_badge_counts_mods_and_cycles() {
    let mut status: HashMap<i64, ModDepStatus> = HashMap::new();
    status.insert(1, ModDepStatus { required: 1, ..Default::default() });
    status.insert(2, ModDepStatus { required: 1, optional: 0, disabled: strings(&["x"]), missing: vec![] });
    status.insert(3, ModDepStatus { required: 2, optional: 0, disabled: vec![], missing: strings(&["y"]) });
    assert_eq!(dep_problem_count(&status, &vec![]), 2);
    assert_eq!(dep_problem_count(&status, &vec![strings(&["a", "b", "a"])]), 3);
    assert_eq!(dep_problem_count(&HashMap::new(), &vec![]), 0);
}

use gta_mo::settings::{submit_input, InputAction};

#[test]
fn dialogs_accept_trimmed_values_and_empty_tags() {
    assert_eq!(
        submit_input(&InputAction::Create, "  Nuevo perfil  "),
        Some(strings(&["ctl", "profile", "create", "Nuevo perfil"]))
    );
    assert_eq!(submit_input(&InputAction::NewGroup, "   "), None);
    assert_eq!(
        submit_input(&InputAction::SetTags(s("hud")), "  "),
        Some(strings(&["ctl", "tag", "set", "hud"]))
    );
    assert_eq!(
        submit_input(&InputAction::SetTags(s("hud")), " a, b "),
        Some(strings(&["ctl", "tag", "set", "hud", "a", "b"]))
    );
}

use gta_mo::db::ModEntry;
use gta_mo::launcher::{drop_ids_env, launch_options, steam_args, LaunchFlags};
use gta_mo::panels::adjusted_order;

fn flags() -> LaunchFlags {
    LaunchFlags {
        dry_run: false,
        debug: false,
        discover: false,
        clean: false,
        deps_enable: false,
        deps_ignore: false,
        no_auto_discover: false,
    }
}

#[test]
fn steam_reexec_arguments() {
    assert!(steam_args(flags(), None).is_empty());
    let f = LaunchFlags { dry_run: true, deps_ignore: true, no_auto_discover: true, ..flags() };
    assert_eq!(
        steam_args(f, Some("alt")),
        strings(&["--dry-run", "--deps-ignore", "--no-auto-discover", "--profile", "alt"])
    );
    assert!(drop_ids_env(0, 0).is_empty());
    assert_eq!(
        drop_ids_env(1000, 100),
        vec![(s("GTA_MO_DROP_UID"), s("1000")), (s("GTA_MO_DROP_GID"), s("100"))]
    );
}

#[test]
fn launch_options_follow_the_switches() {
    let o = launch_options(LaunchFlags { debug: true, ..flags() }, Some("main"));
    assert!(o.debug && !o.dry_run && o.auto_discover);
    assert_eq!(o.profile, Some(s("main")));
    let o = launch_options(LaunchFlags { no_auto_discover: true, ..flags() }, None);
    assert!(!o.auto_discover);
    assert_eq!(o.profile, None);
}

#[test]
fn up_down_buttons_move_priority_by_delta_not_below_zero() {
    let mods = vec![
        ModEntry { id: 1, folder_name: s("a"), name: s("a"), enabled: true, load_order: 10 },
        ModEntry { id: 2, folder_name: s("b"), name: s("b"), enabled: true, load_order: 3 },
    ];
    assert_eq!(adjusted_order(&mods, 1, 5), 15);
    assert_eq!(adjusted_order(&mods, 2, -5), 0);
    assert_eq!(adjusted_order(&mods, 9, 5), 5);
}

use gta_mo::conflicts::{conflict_table, duplicates_note, no_conflicts_message, Conflict, Severity};

#[test]
fn conflicts_table_colors_severity_and_skips_duplicates() {
    let cs = vec![
        Conflict { path: s("data/handling.cfg"), providers: strings(&["b", "a"]), duplicate: false, severity: Severity::High },
        Conflict { path: s("x.txd"), providers: strings(&["b", "a"]), duplicate: true, severity: Severity::Medium },
        Conflict { path: s("readme.txt"), providers: strings(&["c", "b", "a"]), duplicate: false, severity: Severity::Info },
    ];
    let t = conflict_table(&cs);
    assert_eq!(t.duplicates, 1);
    assert_eq!(
        t.rows,
        vec![
            strings(&["data/handling.cfg", "\x1b[31mALTO\x1b[39m", "b -> a"]),
            strings(&["readme.txt", "\x1b[36mINFO\x1b[39m", "c -> b -> a"]),
        ]
    );
    assert_eq!(duplicates_note(0), None);
    assert_eq!(duplicates_note(2), Some(s("(2 duplicado(s) id\u{e9}ntico(s) ignorados)")));
    assert_eq!(
        no_conflicts_message("Principal"),
        "No hay conflictos de archivos entre los mods activos del perfil 'Principal'."
    );
    let medium = vec![Conflict { path: s("p"), providers: strings(&["a", "b"]), duplicate: false, severity: Severity::Medium }];
    assert_eq!(conflict_table(&medium).rows[0][1], "\x1b[33mMEDIO\x1b[39m");
}

use gta_mo::conflicts::{which_lines, PathProviders};

#[test]
fn which_reports_winner_and_covered_mods() {
    assert_eq!(
        which_lines("data/x.dat", "Principal", &None),
        strings(&["'data/x.dat' no lo provee ning\u{fa}n mod del perfil 'Principal' (viene de la base)."])
    );
    let one = PathProviders { providers: strings(&["a"]), sizes: vec![1], duplicate: false, severity: Severity::High };
    assert_eq!(which_lines("x", "P", &Some(one)), strings(&["'x' lo provee 'a'."]));
    let many = PathProviders { providers: strings(&["c", "b", "a"]), sizes: vec![1, 2, 3], duplicate: false, severity: Severity::High };
    assert_eq!(
        which_lines("x", "P", &Some(many)),
        strings(&["'x' \u{2192} gana 'c' (gravedad: \x1b[31mALTO\x1b[39m)", "  pisados: b, a"])
    );
    let same = PathProviders { providers: strings(&["b", "a"]), sizes: vec![1, 1], duplicate: true, severity: Severity::Info };
    assert_eq!(
        which_lines("x", "P", &Some(same)),
        strings(&["'x' \u{2192} gana 'b' (gravedad: \x1b[36mINFO\x1b[39m)", "  (los 2 mods aportan el mismo contenido)"])
    );
}
