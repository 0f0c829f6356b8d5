use std::collections::HashMap;

use gta_mo::cli::is_http_url;
use gta_mo::db::{meta_cache_from_meta, slugify, DepRef, ModEntry, ModMetaCache};
use gta_mo::fonts::parse_font_name;
use gta_mo::games::{default_spec, resolve};
use gta_mo::meta::{valid_mod_id, valid_mount_entry, valid_tag, ModMeta};
use gta_mo::modloader::{configured_profile, merge_priority, read_priorities};
use gta_mo::resolver::DepGraph;
use gta_mo::userdata::{classify, Category};
use gta_mo::view::{filter_and_sort, merge_meta_caches, Filters, ModView, SortField};

#[test]
fn only_http_urls_are_accepted() {
    assert!(is_http_url("http://example.com"));
    assert!(is_http_url("https://example.com/a?b=1#c"));
    assert!(is_http_url("  HTTPS://Example.ORG  "));
    // esquemas peligrosos o no web se rechazan
    assert!(!is_http_url("file:///etc/passwd"));
    assert!(!is_http_url("javascript:alert(1)"));
    assert!(!is_http_url("ftp://example.com"));
    assert!(!is_http_url("http:example.com"));
    assert!(!is_http_url(""));
}

#[test]
fn slugify_is_kebab_and_stable() {
    assert_eq!(slugify("Vanilla Play"), "vanilla-play");
    assert_eq!(slugify("  Graphics   Mods  "), "graphics-mods");
    assert_eq!(slugify("A.B/C_1"), "abc-1");
    assert_eq!(slugify("---"), "");
}

#[test]
fn resolves_known_and_falls_back() {
    assert_eq!(resolve(Some("gta_sa")).key, "gta_sa");
    assert_eq!(resolve(Some("nope")).key, "gta_sa");
    assert_eq!(resolve(None).key, "gta_sa");
}

#[test]
fn executable_and_loader_predicates() {
    let g = default_spec();
    assert!(g.is_executable("gta_sa.exe"));
    assert!(g.is_executable("GTA_SA.PDB"));
    assert!(g.is_executable("models/other.EXE"));
    assert!(!g.is_executable("data/handling.cfg"));
    assert!(g.is_loader_path("modloader/foo.asi"));
    assert!(g.is_loader_path("ModLoader/bar"));
    assert!(!g.is_loader_path("models/x.dff"));
}

#[test]
fn mod_id_and_tag_validation() {
    assert!(valid_mod_id("xardec:hdcars"));
    assert!(valid_mod_id("doitsujin:dxvk-d3d9"));
    assert!(!valid_mod_id("hdcars"));
    assert!(!valid_mod_id(":hdcars"));
    assert!(!valid_mod_id("xardec:"));
    assert!(!valid_mod_id("Xardec:hdcars"));
    assert!(!valid_mod_id("xardec:hdcars/hmm"));

    assert!(valid_tag("essential"));
    assert!(valid_tag("bug-fix"));
    assert!(!valid_tag(""));
    assert!(!valid_tag("Essential"));
    assert!(!valid_tag("a b"));
}

#[test]
fn mount_entry_validation() {
    assert!(valid_mount_entry("models"));
    assert!(valid_mount_entry("a/b/c"));
    assert!(!valid_mount_entry(""));
    assert!(!valid_mount_entry("."));
    assert!(!valid_mount_entry(".."));
    assert!(!valid_mount_entry("../etc"));
    assert!(!valid_mount_entry("a/../b"));
    assert!(!valid_mount_entry("/abs"));
    assert!(!valid_mount_entry("a//b"));
    assert!(!valid_mount_entry("a/"));
}

#[test]
fn merge_preserves_comments_and_replaces_entries() {
    let sample = "\
;
;  Mod Loader Folder Config File
;
[Folder.Config]
Profile = Default                 ; Profile to be used
PriorityLimit = 100

[Profiles.Default.Priority]
; higher wins
OldMod=30

[Profiles.Default.IgnoreMods]
_ignore
";
    let entries = vec![
        ("Proper Fixes".to_string(), 60),
        ("RoSA Project Evolved".to_string(), 50),
    ];
    let merged = merge_priority(sample, "Default", &entries);
    assert!(merged.contains("; higher wins"));
    assert!(merged.contains(";  Mod Loader Folder Config File"));
    assert!(merged.contains("Proper Fixes=60"));
    assert!(merged.contains("RoSA Project Evolved=50"));
    assert!(!merged.contains("OldMod=30"));
    assert!(merged.contains("[Profiles.Default.IgnoreMods]"));
    assert_eq!(
        read_priorities(&merged, "Default"),
        vec![
            ("Proper Fixes".to_string(), 60),
            ("RoSA Project Evolved".to_string(), 50),
        ]
    );
    // The configured profile is detected.
    assert_eq!(configured_profile(sample).as_deref(), Some("Default"));
}

#[test]
fn merge_creates_missing_section() {
    let sample = "[Folder.Config]\nProfile = Custom\n";
    let merged = merge_priority(sample, "Custom", &vec![("X".to_string(), 55)]);
    assert!(merged.contains("[Profiles.Custom.Priority]"));
    assert_eq!(
        read_priorities(&merged, "Custom"),
        vec![("X".to_string(), 55)]
    );
}

#[test]
fn classifies_paths() {
    assert_eq!(classify("GTASAsf1.b"), Category::Saves);
    assert_eq!(classify("gta_sa.set"), Category::Settings);
    assert_eq!(classify("User Tracks/song.mp3"), Category::UserTracks);
    assert_eq!(classify("usertracks/x.wav"), Category::UserTracks);
    assert_eq!(classify("Gallery/shot.png"), Category::Screenshots);
    assert_eq!(classify("notes.txt"), Category::Other);
}

#[test]
fn live_metadata_overrides_cache_and_falls_back() {
    let cached = ModMetaCache {
        mod_id: Some("a:b".into()),
        version: Some("1".into()),
        author: vec!["Old".into()],
        url: None,
        description: None,
        cover: Some("c.png".into()),
        mount: vec![],
        guides: vec![],
        tags: vec![],
        components: vec![],
        ..Default::default()
    };
    let mut live = ModMeta::default();
    live.name = Some("Live Name".into());
    live.author = vec!["New".into()];
    live.tags = Some(vec!["essential".into()]);
    // version/cover ausentes en el manifest -> se mantienen de la caché
    let merged = merge_meta_caches(cached, meta_cache_from_meta(&live));
    assert_eq!(merged.mod_id.as_deref(), Some("a:b"));
    assert_eq!(merged.version.as_deref(), Some("1"));
    assert_eq!(merged.cover.as_deref(), Some("c.png"));
    assert_eq!(merged.author, vec!["New"]);
    assert_eq!(merged.tags, vec!["essential".to_string()]);
}

#[test]
fn parses_gnome_font_name() {
    assert_eq!(
        parse_font_name("'SF Pro Display 11'").as_deref(),
        Some("SF Pro Display")
    );
    assert_eq!(
        parse_font_name("'Noto Sans 10.5'").as_deref(),
        Some("Noto Sans")
    );
    assert_eq!(
        parse_font_name("Cantarell 11").as_deref(),
        Some("Cantarell")
    );
    assert_eq!(parse_font_name("''").as_deref(), None);
    assert_eq!(parse_font_name("").as_deref(), None);
}

fn mod_view(id: i64, name: &str, folder: &str, enabled: bool, order: i64) -> ModView {
    let meta = ModMetaCache {
        author: vec!["a".into()],
        tags: vec!["essential".into()],
        ..Default::default()
    };
    ModView {
        id,
        folder: folder.into(),
        name: name.into(),
        enabled,
        order,
        meta,
        groups: vec!["Graphics".into()],
        screenshots: vec![],
    }
}

#[test]
fn filters_by_search_tag_and_group() {
    let mut mods = vec![
        mod_view(1, "Alpha", "alpha", true, 10),
        mod_view(2, "Beta", "beta", false, 20),
    ];
    let f = Filters {
        search: "ALPHA".into(),
        ..Default::default()
    };
    filter_and_sort(&mut mods, &f);
    assert_eq!(mods.len(), 1);
    assert_eq!(mods[0].id, 1);

    let f = Filters {
        tag: Some("essential".into()),
        ..Default::default()
    };
    filter_and_sort(&mut mods, &f);
    assert_eq!(mods.len(), 1);

    let f = Filters {
        group: Some("graphics".into()),
        ..Default::default()
    };
    filter_and_sort(&mut mods, &f);
    assert_eq!(mods.len(), 1);
}

#[test]
fn sorts_by_name_ascending() {
    let mut mods = vec![
        mod_view(1, "Beta", "b", true, 10),
        mod_view(2, "Alpha", "a", true, 20),
    ];
    let f = Filters {
        sort: SortField::Name,
        desc: false,
        ..Default::default()
    };
    filter_and_sort(&mut mods, &f);
    assert_eq!(mods[0].name, "Alpha");
    assert_eq!(mods[1].name, "Beta");
}

fn mods(entries: &[(i64, &str, bool, i64)]) -> HashMap<i64, ModEntry> {
    entries
        .iter()
        .map(|&(id, folder, enabled, order)| ModEntry {
            id,
            folder_name: folder.to_string(),
            name: folder.to_string(),
            enabled,
            load_order: order,
        })
        .map(|m| (m.id, m))
        .collect()
}

fn deps(entries: &[(i64, i64, bool)]) -> HashMap<i64, Vec<DepRef>> {
    let mut map: HashMap<i64, Vec<DepRef>> = HashMap::new();
    for &(a, b, req) in entries {
        map.entry(a).or_default().push(DepRef {
            id: b,
            required: req,
        });
    }
    map
}

#[test]
fn resolve_puts_mod_above_its_deps() {
    let m = mods(&[(1, "mod", true, 30), (2, "dep", true, 10)]);
    let d = deps(&[(1, 2, true)]);
    let g = DepGraph::new(m, d, vec![1, 2]);
    assert_eq!(g.resolve(), vec!["mod".to_string(), "dep".to_string()]);
}

#[test]
fn detect_cycles_finds_cycles() {
    let m = mods(&[(1, "a", true, 10), (2, "b", true, 20)]);
    let d = deps(&[(1, 2, true), (2, 1, true)]);
    let g = DepGraph::new(m, d, vec![1, 2]);
    assert!(!g.detect_cycles());
}

#[test]
fn no_cycle_is_ok() {
    let m = mods(&[(1, "a", true, 10), (2, "b", true, 20), (3, "c", true, 30)]);
    let d = deps(&[(1, 2, true), (2, 3, true)]);
    let g = DepGraph::new(m, d, vec![1, 2, 3]);
    assert!(g.detect_cycles());
}

#[test]
fn optional_deps_only_included_if_enabled() {
    let m = mods(&[
        (1, "mod", true, 30),
        (2, "opt_on", true, 20),
        (3, "opt_off", false, 10),
    ]);
    let d = deps(&[(1, 2, false), (1, 3, false)]);
    let g = DepGraph::new(m, d, vec![1]);
    let out = g.resolve();
    assert!(out.contains(&"opt_on".to_string()));
    assert!(!out.contains(&"opt_off".to_string()));
}

#[test]
fn disabled_deps_are_reported() {
    let m = mods(&[(1, "mod", true, 30), (2, "needed", false, 10)]);
    let d = deps(&[(1, 2, true)]);
    let g = DepGraph::new(m, d, vec![1]);
    let disabled = g.check_disabled_deps();
    assert_eq!(disabled, vec![(1, 2)]);
}

#[test]
fn enable_recursive_activates_transitive_deps() {
    let m = mods(&[
        (1, "mod", true, 30),
        (2, "mid", false, 20),
        (3, "base", false, 10),
    ]);
    let d = deps(&[(1, 2, true), (2, 3, true)]);
    let mut g = DepGraph::new(m, d, vec![1]);
    g.enable_recursive(2);
    assert!(g.mods.get(&2).unwrap().enabled);
    assert!(g.mods.get(&3).unwrap().enabled);
    assert!(g.enabled_ids.contains(&2));
    assert!(g.enabled_ids.contains(&3));
}

#[test]
fn skip_ids_are_excluded_from_resolve() {
    let m = mods(&[(1, "mod", true, 30), (2, "broken", true, 10)]);
    let d = deps(&[(1, 2, true)]);
    let mut g = DepGraph::new(m, d, vec![1, 2]);
    // Answering "2" to the disabled-dependency question skips the listed dependency.
    g.apply_dep_choice(&vec![(1, 2)], "2").unwrap();
    assert_eq!(g.resolve(), vec!["mod".to_string()]);
}
