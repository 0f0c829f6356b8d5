use gta_mo::db::{DepRef, ModEntry, Profile};
use gta_mo::profiles::{
    delete_profile_check, dir_move, initial_load_orders, new_profile, rename_profile_plan, DirMove,
};
use gta_mo::registry::{group_new_name, new_group};
use gta_mo::resolver::{DepGraph, DepPrompt};
use std::collections::HashMap;

fn s(x: &str) -> String {
    x.to_string()
}

fn profile(id: i64, name: &str, slug: &str) -> Profile {
    Profile { id, name: s(name), slug: s(slug), is_active: false, created_at: String::new() }
}

#[test]
fn new_profile_trims_and_picks_free_slug() {
    let p = new_profile("  Mi Perfil ", &vec![s("mi-perfil")]).unwrap();
    assert_eq!(p.name, "Mi Perfil");
    assert_eq!(p.slug, "mi-perfil-2");
    assert_eq!(new_profile("   ", &vec![]).err(), Some(s("El nombre del perfil no puede estar vac\u{ed}o.")));
}

#[test]
fn last_profile_cannot_be_deleted() {
    assert_eq!(delete_profile_check(1).err(), Some(s("No se puede eliminar el \u{fa}ltimo perfil.")));
    assert_eq!(delete_profile_check(0).is_err(), true);
    assert_eq!(delete_profile_check(2), Ok(()));
}

#[test]
fn rename_keeps_own_slug_and_avoids_others() {
    let all = vec![profile(1, "Main", "main"), profile(2, "Alt", "alt")];
    let same = rename_profile_plan(&all[0], "main", &all).unwrap();
    assert_eq!((same.old_slug.as_str(), same.new_slug.as_str()), ("main", "main"));
    let clash = rename_profile_plan(&all[0], "Alt", &all).unwrap();
    assert_eq!(clash.name, "Alt");
    assert_eq!(clash.new_slug, "alt-2");
    assert!(rename_profile_plan(&all[1], " ", &all).is_err());
    assert_eq!(dir_move("main", "main", true, true), DirMove::Keep);
    assert_eq!(dir_move("main", "alt-2", true, true), DirMove::Blocked);
    assert_eq!(dir_move("main", "alt-2", false, true), DirMove::Move);
    assert_eq!(dir_move("main", "alt-2", false, false), DirMove::Keep);
}

#[test]
fn new_profiles_start_with_spaced_priorities() {
    assert_eq!(initial_load_orders(&vec![4, 7, 9]), vec![(4, 10), (7, 20), (9, 30)]);
    assert!(initial_load_orders(&vec![]).is_empty());
}

#[test]
fn groups_names_and_slugs() {
    assert_eq!(new_group(" Coches ", &vec![s("coches")]), Ok((s("Coches"), s("coches-2"))));
    assert!(new_group("", &vec![]).is_err());
    assert_eq!(group_new_name("  HUD "), Ok(s("HUD")));
    assert_eq!(group_new_name(" ").err(), Some(s("El nombre del grupo no puede estar vac\u{ed}o.")));
}

fn entry(id: i64, enabled: bool) -> ModEntry {
    ModEntry { id, folder_name: format!("m{id}"), name: format!("m{id}"), enabled, load_order: id }
}

fn graph(enabled: &[i64]) -> DepGraph {
    let mut mods = HashMap::new();
    for id in 1..=4 {
        mods.insert(id, entry(id, enabled.contains(&id)));
    }
    let mut deps: HashMap<i64, Vec<DepRef>> = HashMap::new();
    deps.insert(1, vec![DepRef { id: 2, required: true }, DepRef { id: 3, required: true }]);
    deps.insert(2, vec![DepRef { id: 3, required: true }]);
    DepGraph::new(mods, deps, enabled.to_vec())
}

#[test]
fn enable_recursive_appends_each_new_mod_once() {
    let mut g = graph(&[3]);
    g.enable_recursive(1);
    assert_eq!(g.enabled_ids.len(), 3);
    assert_eq!(g.enabled_ids[0], 3);
    let mut tail = g.enabled_ids[1..].to_vec();
    tail.sort();
    assert_eq!(tail, vec![1, 2]);
    let before = g.enabled_ids.clone();
    g.enable_recursive(1);
    assert_eq!(g.enabled_ids, before);
    g.enable_recursive(99);
    assert_eq!(g.enabled_ids, before);
}

#[test]
fn auto_enable_leaves_no_disabled_required_dependency() {
    let mut g = graph(&[1]);
    g.prompt = DepPrompt::AutoEnable;
    assert!(!g.check_disabled_deps().is_empty());
    assert!(g.enable_mods_for_deps("").is_ok());
    assert!(g.check_disabled_deps().is_empty());
}

use gta_mo::discovery::{discover_action, DiscoverAction};
use gta_mo::info::{dependency_names, dependent_names};
use gta_mo::meta::ModMeta;
use gta_mo::registry::ModRow;

#[test]
fn scan_registers_new_folders_and_renames_known_ones() {
    let rows = vec![ModRow { id: 5, folder_name: s("skins"), mod_id: None }];
    let named = ModMeta { name: Some(s("Pieles")), ..Default::default() };
    assert!(matches!(discover_action("skins", &Some(named.clone()), &rows), DiscoverAction::Rename(5, ref n) if n == "Pieles"));
    assert!(matches!(discover_action("skins", &None, &rows), DiscoverAction::Keep(5)));
    assert!(matches!(discover_action("new_hud", &None, &rows), DiscoverAction::Register(ref n) if n == "new hud"));
    assert!(matches!(discover_action("x", &Some(named), &rows), DiscoverAction::Register(ref n) if n == "Pieles"));
}

#[test]
fn info_relations_by_name() {
    let mods = vec![entry(1, true), entry(2, true), entry(3, false)];
    let refs = vec![DepRef { id: 2, required: true }, DepRef { id: 9, required: false }];
    assert_eq!(dependency_names(&mods, &refs), vec![s("m2"), s("")]);
    let mut deps: HashMap<i64, Vec<DepRef>> = HashMap::new();
    deps.insert(1, vec![DepRef { id: 2, required: true }]);
    deps.insert(3, vec![DepRef { id: 2, required: false }]);
    assert_eq!(dependent_names(&mods, &deps, 2), vec![s("m1"), s("m3")]);
    assert!(dependent_names(&mods, &deps, 1).is_empty());
}
