use doom_launcher::settings::Settings;

#[test]
fn load_splits_at_the_first_equals_sign() {
    let s = Settings::from_contents("mods_folder=/home/a=b/mods\nbroken line\n");
    assert_eq!(s.get_path("mods_folder"), Some("/home/a=b/mods".to_string()));
    assert_eq!(s.get_path("broken line"), None);
    assert_eq!(s.get_path("maps_folder"), None);
}

#[test]
fn later_lines_override_earlier_ones() {
    let s = Settings::from_contents("k=1\nk=2\r\nother=x\n");
    assert_eq!(s.get_path("k"), Some("2".to_string()));
    assert_eq!(s.to_contents(), "k=2\nother=x\n");
}

#[test]
fn set_path_then_get_path() {
    let mut s = Settings::from_contents("");
    s.set_path("mods_folder", "/mods");
    s.set_path("maps_folder", "/maps");
    s.set_path("mods_folder", "/other");
    assert_eq!(s.get_path("mods_folder"), Some("/other".to_string()));
    assert_eq!(s.get_path("maps_folder"), Some("/maps".to_string()));
    assert_eq!(s.to_contents(), "mods_folder=/other\nmaps_folder=/maps\n");
}

#[test]
fn list_round_trip_drops_empty_items() {
    let mut s = Settings::from_contents("");
    s.set_list("enabled_mods", &["a.wad".to_string(), "".to_string(), "b.pk3".to_string()]);
    assert_eq!(s.get_path("enabled_mods"), Some("a.wad||b.pk3".to_string()));
    assert_eq!(s.get_list("enabled_mods"), vec!["a.wad".to_string(), "b.pk3".to_string()]);
}

#[test]
fn empty_and_missing_lists() {
    let mut s = Settings::from_contents("enabled_maps=|x||y|\n");
    assert_eq!(s.get_list("enabled_maps"), vec!["x".to_string(), "y".to_string()]);
    assert!(s.get_list("enabled_mods").is_empty());
    s.set_list("enabled_mods", &[]);
    assert_eq!(s.get_path("enabled_mods"), Some(String::new()));
    assert!(s.get_list("enabled_mods").is_empty());
}

#[test]
fn save_then_load_gives_the_same_settings() {
    let mut s = Settings::from_contents("");
    s.set_path("mods_folder", "/m");
    s.set_list("enabled_maps", &["e1.wad".to_string(), "e2.wad".to_string()]);
    let again = Settings::from_contents(&s.to_contents());
    assert_eq!(again.to_contents(), s.to_contents());
    assert_eq!(again.get_list("enabled_maps"), vec!["e1.wad".to_string(), "e2.wad".to_string()]);
}

#[test]
fn loading_twice_gives_the_same_settings() {
    let once = Settings::from_contents("a=1\nnoise\nb=x=y\na=2\r\n");
    let saved = once.to_contents();
    assert_eq!(saved, "a=2\nb=x=y\n");
    assert_eq!(Settings::from_contents(&saved).to_contents(), saved);
}
