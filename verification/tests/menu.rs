use blazingjj::menu::{create, enable_actions, key_input, keybinds, Action, MenuAction, MenuEntry};

#[test]
fn menu_groups_in_order() {
    let names: Vec<&str> = create().iter().map(|g| g.name).collect();
    assert_eq!(names, vec!["Repo", "Operation", "Change", "File", "View", "Help"]);
}

#[test]
fn menu_entries_of_file_group() {
    let menu = create();
    let file = &menu[3];
    let items: Vec<(&str, Action, bool)> = file
        .items
        .iter()
        .map(|e| match e {
            MenuEntry::Item { name, action, enabled } => (*name, *action, *enabled),
            MenuEntry::Line => ("-", Action::AppExit, false),
        })
        .collect();
    assert_eq!(
        items,
        vec![
            ("Track", Action::FileTrack, true),
            ("Untrack", Action::FileUntrack, true),
            ("Restore..", Action::FileRestore, true),
        ]
    );
}

#[test]
fn menu_has_separators_and_sizes() {
    let menu = create();
    let sizes: Vec<usize> = menu.iter().map(|g| g.items.len()).collect();
    assert_eq!(sizes, vec![13, 7, 19, 3, 11, 5]);
    assert!(matches!(menu[0].items[3], MenuEntry::Line));
    assert!(matches!(menu[2].items[18], MenuEntry::Item { name: "Find..", action: Action::HelpAbout, .. }));
}

#[test]
fn enable_actions_enables_exactly_the_given_actions() {
    let mut menu = create();
    enable_actions(&mut menu, &vec![Action::FileTrack, Action::HelpAbout]);
    for group in &menu {
        for entry in &group.items {
            if let MenuEntry::Item { action, enabled, .. } = entry {
                assert_eq!(*enabled, *action == Action::FileTrack || *action == Action::HelpAbout);
            }
        }
    }
    let sizes: Vec<usize> = menu.iter().map(|g| g.items.len()).collect();
    assert_eq!(sizes, vec![13, 7, 19, 3, 11, 5]);
}

#[test]
fn menu_keybinds_table() {
    let binds = keybinds();
    assert_eq!(binds.len(), 12);
    assert_eq!(binds[0], ("up", MenuAction::Up));
    assert_eq!(binds[11], (".", MenuAction::Activate));
}

#[test]
fn inactive_menu_only_takes_activate() {
    assert_eq!(key_input(false, "f10"), Some(MenuAction::Activate));
    assert_eq!(key_input(false, "."), Some(MenuAction::Activate));
    assert_eq!(key_input(false, "j"), None);
    assert_eq!(key_input(false, "enter"), None);
}

#[test]
fn active_menu_takes_its_keys() {
    assert_eq!(key_input(true, "j"), Some(MenuAction::Down));
    assert_eq!(key_input(true, "left"), Some(MenuAction::Left));
    assert_eq!(key_input(true, "esc"), Some(MenuAction::Reset));
    assert_eq!(key_input(true, "enter"), Some(MenuAction::Select));
    assert_eq!(key_input(true, "x"), None);
}
