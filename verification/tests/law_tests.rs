use gta_mo::conflicts::{group_by_path, providers_for_path, scan_conflicts, FileRecord};
use gta_mo::constraints::{check, Kind};
use gta_mo::db::slugify;
use gta_mo::discovery::{discover_action, orphans, DiscoverAction};
use gta_mo::meta::{ModMeta, ModVariant};
use gta_mo::modloader::{merge_priority, read_priorities};
use gta_mo::registry::ModRow;

fn s(x: &str) -> String {
    x.to_string()
}

#[test]
fn slug_is_stable_and_kebab() {
    for name in ["Vanilla Play", "  Graphics   Mods  ", "A.B/C_1", "---", "x__y--z", "Mod 2 (HD)"] {
        let once = slugify(name);
        assert_eq!(slugify(&once), once);
        assert!(once.chars().all(|c| c.is_alphanumeric() || c == '-'));
        assert!(!once.starts_with('-') && !once.ends_with('-') && !once.contains("--"));
        assert_eq!(once.is_empty(), !name.chars().any(|c| c.is_alphanumeric()));
    }
}

fn rec(rel: &str, folder: &str, size: u64) -> FileRecord {
    FileRecord { rel: rel.into(), folder: folder.into(), file: format!("/m/{folder}/{rel}"), size }
}

#[test]
fn a_conflict_per_path_with_two_providers() {
    let records = vec![
        rec("b.txd", "hi", 1),
        rec("a.dff", "hi", 1),
        rec("b.txd", "mid", 1),
        rec("c.ifp", "lo", 1),
        rec("b.txd", "lo", 2),
        rec("a.dff", "lo", 1),
    ];
    let groups = group_by_path(records);
    let eq = vec![false; groups.len()];
    let cs = scan_conflicts(&groups, &eq);
    let paths: Vec<&str> = cs.iter().map(|c| c.path.as_str()).collect();
    assert_eq!(paths, vec!["a.dff", "b.txd"]);
    assert_eq!(cs[1].providers, vec![s("hi"), s("mid"), s("lo")]);
    let again = vec![rec("c.ifp", "lo", 1), rec("b.txd", "hi", 1)];
    assert!(providers_for_path(&again, "a.dff", true).is_none());
    assert_eq!(providers_for_path(&again, "./c.ifp", true).unwrap().providers, vec![s("lo")]);
}

#[test]
fn discover_counts_new_and_orphaned_folders() {
    let rows = vec![
        ModRow { id: 1, folder_name: s("Kept"), mod_id: None },
        ModRow { id: 2, folder_name: s("Gone"), mod_id: None },
    ];
    let disk = vec![s("Kept"), s("New_One"), s("Other")];
    let registers = disk
        .iter()
        .filter(|d| matches!(discover_action(d, &None, &rows), DiscoverAction::Register(_)))
        .count();
    assert_eq!(registers, 2);
    let registered: Vec<String> = rows.iter().map(|r| r.folder_name.clone()).collect();
    assert_eq!(orphans(&registered, &disk), vec![s("Gone")]);
    match discover_action("New_One", &None, &rows) {
        DiscoverAction::Register(n) => assert_eq!(n, "New One"),
        _ => panic!("expected a new registration"),
    }
}

fn variant(group: &str) -> Option<ModMeta> {
    let mut m = ModMeta::default();
    m.variant = Some(ModVariant { group: group.into(), name: None });
    Some(m)
}

#[test]
fn one_variant_report_per_crowded_family() {
    let en = vec![s("C"), s("A"), s("X"), s("B"), s("Y")];
    let em = vec![variant("f"), variant("f"), variant("g"), variant("f"), None];
    let v = check(&en, &em, &en, &em);
    assert_eq!(v.len(), 1);
    assert_eq!(v[0].kind, Kind::Variant);
    assert_eq!(v[0].message, "Varias variantes de 'f' activadas a la vez: A, B, C.");
}

#[test]
fn merge_keeps_other_lines_and_reads_back() {
    let src = "; top\n[Other]\nk=1\n[Profiles.Default.Priority]\n; note\nold=3\n[Tail]\nz=2\n";
    let entries = vec![(s("Alpha"), 60), (s("Beta"), 40)];
    let out = merge_priority(src, "Default", &entries);
    assert_eq!(
        out,
        "; top\n[Other]\nk=1\n[Profiles.Default.Priority]\n; note\nAlpha=60\nBeta=40\n[Tail]\nz=2\n"
    );
    assert_eq!(read_priorities(&out, "Default"), entries);
    assert_eq!(merge_priority(&out, "Default", &entries), out);
    let crlf = "[A]\r\nx=1\r\n";
    let once = merge_priority(crlf, "P", &entries);
    assert_eq!(merge_priority(&once, "P", &entries), once);
}

use gta_mo::db::{DepRef, ModEntry};
use gta_mo::resolver::DepGraph;
use std::collections::HashMap;

#[test]
fn resolve_writes_each_reached_mod_once() {
    let mut m: HashMap<i64, ModEntry> = HashMap::new();
    for (id, name, enabled) in [(1, "top", true), (2, "lib", false), (3, "extra", false), (4, "opt", true), (5, "alone", false)] {
        m.insert(id, ModEntry { id, folder_name: s(name), name: s(name), enabled, load_order: id * 10 });
    }
    let mut d: HashMap<i64, Vec<DepRef>> = HashMap::new();
    d.insert(1, vec![DepRef { id: 2, required: true }, DepRef { id: 4, required: false }, DepRef { id: 3, required: false }]);
    d.insert(2, vec![DepRef { id: 4, required: true }]);
    let g = DepGraph::new(m, d, vec![1]);
    let mut out = g.resolve();
    assert_eq!(out.len(), 3);
    out.sort();
    assert_eq!(out, vec![s("lib"), s("opt"), s("top")]);
}

#[test]
fn merge_rewrites_a_final_carriage_return_once() {
    let entries = vec![(s("Alpha"), 60)];
    let once = merge_priority("a\r", "P", &entries);
    assert!(once.starts_with("a\r\n"));
    let twice = merge_priority(&once, "P", &entries);
    assert!(twice.starts_with("a\n"));
    assert_eq!(merge_priority(&twice, "P", &entries), twice);
}
