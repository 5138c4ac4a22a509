use doom_launcher::named_paths::NamedPaths;

fn paths_of(list: &NamedPaths) -> Vec<String> {
    (0..list.len()).map(|i| list.path_at(i).unwrap().clone()).collect()
}

#[test]
fn load_skips_lines_without_separator_and_duplicate_paths() {
    let list = NamedPaths::from_contents(
        "Doom|/games/doom.exe\nno separator here\nAgain|/games/doom.exe\nZan|/games/zan|dronum\r\n",
    );
    assert_eq!(list.names(), vec!["Doom".to_string(), "Zan".to_string()]);
    assert_eq!(paths_of(&list), vec!["/games/doom.exe".to_string(), "/games/zan|dronum".to_string()]);
}

#[test]
fn load_treats_equal_components_as_the_same_path() {
    let list = NamedPaths::from_contents("A|/x//y\nB|/x/y\nC|/x/y/\n");
    assert_eq!(list.len(), 1);
    assert_eq!(list.names(), vec!["A".to_string()]);
}

#[test]
fn load_of_empty_contents_is_empty() {
    let list = NamedPaths::from_contents("");
    assert_eq!(list.len(), 0);
    assert_eq!(list.to_contents(), "");
}

#[test]
fn save_writes_one_line_per_entry() {
    let list = NamedPaths::from_contents("A|/a\r\n\nB|/b");
    assert_eq!(list.to_contents(), "A|/a\nB|/b\n");
}

#[test]
fn save_then_load_gives_the_same_entries() {
    let list = NamedPaths::from_contents("Chocolate Doom|/usr/bin/chocolate-doom\nGZ|C:\\Games\\gzdoom.exe\n");
    let again = NamedPaths::from_contents(&list.to_contents());
    assert_eq!(again.names(), list.names());
    assert_eq!(paths_of(&again), paths_of(&list));
}

#[test]
fn add_names_the_entry_after_the_file_stem() {
    let mut list = NamedPaths::from_contents("");
    assert!(list.add("/games/gzdoom.exe".to_string()));
    assert!(list.add("/games/archive.tar.gz".to_string()));
    assert_eq!(list.names(), vec!["gzdoom".to_string(), "archive.tar".to_string()]);
    assert_eq!(list.to_contents(), "gzdoom|/games/gzdoom.exe\narchive.tar|/games/archive.tar.gz\n");
}

#[test]
fn add_without_a_file_stem_uses_unnamed() {
    let mut list = NamedPaths::from_contents("");
    assert!(list.add("/".to_string()));
    assert_eq!(list.names(), vec!["unnamed".to_string()]);
}

#[test]
fn add_twice_keeps_one_entry() {
    let mut list = NamedPaths::from_contents("Old|/games/doom.exe\n");
    assert!(!list.add("/games/doom.exe".to_string()));
    assert!(!list.add("/games//doom.exe".to_string()));
    assert_eq!(list.names(), vec!["Old".to_string()]);
    assert!(list.add("/games/heretic.exe".to_string()));
    assert!(!list.add("/games/heretic.exe".to_string()));
    assert_eq!(list.len(), 2);
}

#[test]
fn remove_in_range_and_past_the_end() {
    let mut list = NamedPaths::from_contents("A|/a\nB|/b\nC|/c\n");
    assert!(list.remove(1));
    assert_eq!(list.names(), vec!["A".to_string(), "C".to_string()]);
    assert!(!list.remove(2));
    assert_eq!(list.len(), 2);
    assert!(list.remove(0));
    assert!(list.remove(0));
    assert!(!list.remove(0));
    assert_eq!(list.len(), 0);
}

#[test]
fn path_at_past_the_end_is_none() {
    let list = NamedPaths::from_contents("A|/a\n");
    assert_eq!(list.path_at(0), Some(&"/a".to_string()));
    assert_eq!(list.path_at(1), None);
}

#[test]
fn file_stems_follow_the_last_dot() {
    let mut list = NamedPaths::from_contents("");
    assert!(list.add("/games/.hidden".to_string()));
    assert!(list.add("/games/trailing.".to_string()));
    assert!(list.add("/games/..x".to_string()));
    assert!(list.add("/games/plain".to_string()));
    assert_eq!(
        list.names(),
        vec![".hidden".to_string(), "trailing".to_string(), ".".to_string(), "plain".to_string()]
    );
}

#[test]
fn loading_twice_gives_the_same_list_and_file() {
    let once = NamedPaths::from_contents("A|/a\nbroken\nB|/a\r\nC|/c|d\n\nD|/x//y\nE|/x/y\n");
    let saved = once.to_contents();
    let twice = NamedPaths::from_contents(&saved);
    assert_eq!(twice.to_contents(), saved);
    assert_eq!(saved, "A|/a\nC|/c|d\nD|/x//y\n");
}

#[test]
fn a_last_path_ending_in_carriage_return_loses_it_on_reload() {
    let once = NamedPaths::from_contents("A|/p\r");
    assert_eq!(once.path_at(0), Some(&"/p\r".to_string()));
    let twice = NamedPaths::from_contents(&once.to_contents());
    assert_eq!(twice.path_at(0), Some(&"/p".to_string()));
}
