use doom_launcher::launch::plan_launch;
use doom_launcher::mods::ModItem;
use doom_launcher::named_paths::NamedPaths;
use doom_launcher::selection::{iwad_index_after_refresh, port_index_after_refresh};

fn item(path: &str, enabled: bool) -> ModItem {
    ModItem { name: path.to_string(), path: path.to_string(), enabled }
}

#[test]
fn launch_with_iwad_and_files() {
    let ports = NamedPaths::from_contents("GZ|/bin/gzdoom\n");
    let iwads = NamedPaths::from_contents("Doom2|/wads/doom2.wad\n");
    let mods = vec![item("/m/a.pk3", true), item("/m/b.pk3", false)];
    let maps = vec![item("/maps/e1.wad", true)];
    let plan = plan_launch(&ports, 0, &iwads, 0, &mods, &maps).unwrap();
    assert_eq!(plan.program, "/bin/gzdoom");
    assert_eq!(plan.args, vec!["-iwad", "/wads/doom2.wad", "-file", "/m/a.pk3", "/maps/e1.wad"]);
}

#[test]
fn launch_without_iwad_or_files() {
    let ports = NamedPaths::from_contents("A|/a\nB|/b\n");
    let iwads = NamedPaths::from_contents("");
    let plan = plan_launch(&ports, 1, &iwads, -1, &[item("/x", false)], &[]).unwrap();
    assert_eq!(plan.program, "/b");
    assert!(plan.args.is_empty());
    let plan = plan_launch(&ports, 0, &iwads, 3, &[], &[item("/y", true)]).unwrap();
    assert_eq!(plan.args, vec!["-file", "/y"]);
}

#[test]
fn no_launch_without_a_selected_port() {
    let ports = NamedPaths::from_contents("A|/a\n");
    let iwads = NamedPaths::from_contents("");
    assert!(plan_launch(&ports, -1, &iwads, 0, &[], &[]).is_none());
    assert!(plan_launch(&ports, 1, &iwads, 0, &[], &[]).is_none());
    let empty = NamedPaths::from_contents("");
    assert!(plan_launch(&empty, 0, &iwads, 0, &[], &[]).is_none());
}

#[test]
fn port_selection_after_refresh_is_clamped() {
    assert_eq!(port_index_after_refresh(0, 3), -1);
    assert_eq!(port_index_after_refresh(0, -1), -1);
    assert_eq!(port_index_after_refresh(3, -1), 0);
    assert_eq!(port_index_after_refresh(2, 2), 1);
    assert_eq!(port_index_after_refresh(3, 7), 2);
    assert_eq!(port_index_after_refresh(3, 2), 2);
    assert_eq!(port_index_after_refresh(1, 0), 0);
}

#[test]
fn iwad_selection_after_refresh_is_reset() {
    assert_eq!(iwad_index_after_refresh(0, 3), -1);
    assert_eq!(iwad_index_after_refresh(0, -1), -1);
    assert_eq!(iwad_index_after_refresh(3, -1), 0);
    assert_eq!(iwad_index_after_refresh(3, 3), 0);
    assert_eq!(iwad_index_after_refresh(3, 2), 2);
    assert_eq!(iwad_index_after_refresh(1, 0), 0);
}
