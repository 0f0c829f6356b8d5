use gta_mo::meta::{manifest_with_dependency, manifest_with_name, manifest_with_tags};

fn deps(text: &str, key: &str) -> Vec<String> {
    let t: toml::Table = text.parse().unwrap();
    t.get("dependencies")
        .and_then(|d| d.get(key))
        .and_then(|a| a.as_array())
        .map(|a| a.iter().map(|v| v.as_str().unwrap_or("?").to_string()).collect())
        .unwrap_or_default()
}

#[test]
fn dependency_added_once_and_comments_kept() {
    let src = "# mi mod\nname = \"Skins\"\n";
    let once = manifest_with_dependency(src, "ana:base", false, true).unwrap();
    assert!(once.contains("# mi mod"));
    assert_eq!(deps(&once, "required"), vec!["ana:base".to_string()]);
    let twice = manifest_with_dependency(&once, "ana:base", false, true).unwrap();
    assert_eq!(deps(&twice, "required"), vec!["ana:base".to_string()]);
    let opt = manifest_with_dependency(&twice, "luis:hud", true, true).unwrap();
    assert_eq!(deps(&opt, "optional"), vec!["luis:hud".to_string()]);
    assert_eq!(deps(&opt, "required"), vec!["ana:base".to_string()]);
}

#[test]
fn dependency_removed_everywhere_in_its_array() {
    let src = "[dependencies]\nrequired = [\"a\", \"b\", \"a\", 3]\n";
    let out = manifest_with_dependency(src, "a", false, false).unwrap();
    let t: toml::Table = out.parse().unwrap();
    let arr = t["dependencies"]["required"].as_array().unwrap().clone();
    assert_eq!(arr.len(), 2);
    assert_eq!(arr[0].as_str(), Some("b"));
    assert_eq!(arr[1].as_integer(), Some(3));
}

#[test]
fn unreadable_manifests_are_not_edited() {
    assert_eq!(manifest_with_dependency("name = ", "a", false, true), None);
    assert_eq!(manifest_with_dependency("dependencies = { required = [] }\n", "a", false, true), None);
    assert_eq!(manifest_with_dependency("[dependencies]\nrequired = \"a\"\n", "a", false, true), None);
    assert_eq!(manifest_with_name("[[", "x"), None);
}

#[test]
fn name_and_tags_rewritten() {
    let src = "# c\nname = \"Viejo\"\nversion = \"1\"\n";
    let out = manifest_with_name(src, "Nuevo").unwrap();
    let t: toml::Table = out.parse().unwrap();
    assert_eq!(t["name"].as_str(), Some("Nuevo"));
    assert_eq!(t["version"].as_str(), Some("1"));
    assert!(out.contains("# c"));
    let tagged = manifest_with_tags(&out, &vec!["hud".to_string(), "ui".to_string()]).unwrap();
    let t: toml::Table = tagged.parse().unwrap();
    let tags: Vec<&str> = t["tags"].as_array().unwrap().iter().map(|v| v.as_str().unwrap()).collect();
    assert_eq!(tags, vec!["hud", "ui"]);
}

use gta_mo::modloader::merge_priority;

#[test]
fn merging_priorities_twice_changes_nothing() {
    let entries = vec![("hud".to_string(), 60), ("skins".to_string(), 40)];
    for content in [
        "",
        "[Profiles.Default.Config]\nProfile = x\n",
        "; top\n[Profiles.Default.Priority]\n# keep\nold=1\n\n[Other]\na=b\n",
    ] {
        let once = merge_priority(content, "Default", &entries);
        assert_eq!(merge_priority(&once, "Default", &entries), once);
    }
}
