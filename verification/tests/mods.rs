use doom_launcher::mods::{apply_enabled, enabled_names, select_mod_items, ModItem};
use doom_launcher::settings::Settings;

fn item(name: &str, path: &str, enabled: bool) -> ModItem {
    ModItem { name: name.to_string(), path: path.to_string(), enabled }
}

fn names(items: &[ModItem]) -> Vec<String> {
    items.iter().map(|i| i.name.clone()).collect()
}

#[test]
fn scan_keeps_mod_extensions_and_sorts_by_lowercase_name() {
    let paths: Vec<String> = ["/m/B.WAD", "/m/a.pk3", "/m/readme.txt", "/m/c.Zip", "/m/noext", "/m/A.wad", "/m/d.pk7", "/m/.wad", "/m/e.", "/m/f.tar.wad"]
        .iter()
        .map(|s| s.to_string())
        .collect();
    let items = select_mod_items(&paths);
    assert_eq!(names(&items), vec!["a.pk3", "A.wad", "B.WAD", "c.Zip", "d.pk7", "f.tar.wad"]);
    assert_eq!(items[2].path, "/m/B.WAD");
    assert!(items.iter().all(|i| !i.enabled));
}

#[test]
fn scan_keeps_the_order_of_names_that_differ_only_in_case() {
    let paths = vec!["/m/X.wad".to_string(), "/m/b.wad".to_string(), "/m/x.WAD".to_string()];
    let items = select_mod_items(&paths);
    assert_eq!(names(&items), vec!["b.wad", "X.wad", "x.WAD"]);
    let paths = vec!["/m/x.WAD".to_string(), "/m/X.wad".to_string()];
    assert_eq!(names(&select_mod_items(&paths)), vec!["x.WAD", "X.wad"]);
}

#[test]
fn scan_of_no_files_is_empty() {
    assert!(select_mod_items(&Vec::new()).is_empty());
}

#[test]
fn apply_enabled_switches_on_remembered_names() {
    let mut items = vec![item("a.wad", "/m/a.wad", false), item("b.wad", "/m/b.wad", true), item("c.wad", "/m/c.wad", false)];
    apply_enabled(&mut items, &["c.wad".to_string(), "zzz.wad".to_string()]);
    let flags: Vec<bool> = items.iter().map(|i| i.enabled).collect();
    assert_eq!(flags, vec![false, true, true]);
    assert_eq!(items[2].path, "/m/c.wad");
}

#[test]
fn enabled_names_in_order() {
    let items = vec![item("a.wad", "/a", true), item("b.wad", "/b", false), item("c.wad", "/c", true)];
    assert_eq!(enabled_names(&items), vec!["a.wad".to_string(), "c.wad".to_string()]);
    assert!(enabled_names(&[]).is_empty());
}

#[test]
fn remembered_switches_come_back_after_a_rescan() {
    let items = vec![item("a.wad", "/m/a.wad", true), item("b.wad", "/m/b.wad", false), item("c.pk3", "/m/c.pk3", true)];
    let mut settings = Settings::from_contents("");
    settings.set_list("enabled_mods", &enabled_names(&items));
    let reloaded = Settings::from_contents(&settings.to_contents());
    let mut rescanned: Vec<ModItem> = items.iter().map(|i| item(&i.name, &i.path, false)).collect();
    apply_enabled(&mut rescanned, &reloaded.get_list("enabled_mods"));
    let flags: Vec<bool> = rescanned.iter().map(|i| i.enabled).collect();
    assert_eq!(flags, vec![true, false, true]);
}
