//! The application menu, which lets the user discover and perform the
//! actions of blazingjj: its layout, its key bindings and how it reacts to
//! keys.

use crate::shortcut::{binding_for, binding_views, lemma_binding_is_first_exact_match, lookup_shortcut};
use vstd::prelude::*;

verus! {

/// Application actions
#[derive(Clone, Copy, PartialEq, Eq, Structural, Debug, Hash)]
pub enum Action {
    AppPreferences,
    AppExit,
    RepoNew,
    RepoOpen,
    RepoClone,
    RepoRefresh,
    RepoFetch,
    RepoPush,
    RepoSparse,
    RepoWorkspace,
    /// Jj undo = jj op undo one change
    OperationUndo,
    /// Jj op restore the change just undone
    OperationRedo,
    OperationAbandon,
    /// Interactive jj operation undo
    OperationInverse,
    /// Interactive restore
    OperationRestore,
    ChangeDescribe,
    ChangeEdit,
    ChangeNew,
    ChangeDuplicate,
    ChangeParallelize,
    ChangeSplit,
    ChangeRebase,
    ChangeResolve,
    ChangeSquash,
    ChangeAbsorb,
    ChangeAbandon,
    ChangeSign,
    ChangeUnsign,
    FileTrack,
    FileUntrack,
    /// Jj restore
    FileRestore,
    ViewChanges,
    ViewFiles,
    ViewBookmarks,
    ViewAnnotate,
    ViewChangeEvolution,
    ViewOperations,
    ViewWorkspaces,
    ViewRemotes,
    ViewTags,
    HelpKeybindings,
    HelpCLICommands,
    HelpKeyword,
    HelpReportIssue,
    HelpAbout,
}

/// What a key does to the menu: move the highlight, leave, choose the
/// highlighted item, or open the menu.
#[derive(Clone, Copy, PartialEq, Eq, Structural, Debug)]
pub enum MenuAction {
    Up,
    Down,
    Left,
    Right,
    Reset,
    Select,
    Activate,
}

/// An entry of a menu group: an item that performs an action, or a
/// separator line.
#[derive(Clone, Copy, Debug)]
pub enum MenuEntry {
    Item { name: &'static str, action: Action, enabled: bool },
    Line,
}

/// A group of the menu bar with its entries.
#[derive(Debug)]
pub struct MenuGroup {
    pub name: &'static str,
    pub items: Vec<MenuEntry>,
}

/// The mathematical value of a [`MenuEntry`].
pub enum MenuEntryView {
    Item { name: Seq<char>, action: Action, enabled: bool },
    Line,
}

/// The mathematical value of a [`MenuGroup`].
pub struct MenuGroupView {
    pub name: Seq<char>,
    pub items: Seq<MenuEntryView>,
}

impl View for MenuEntry {
    type V = MenuEntryView;

    open spec fn view(&self) -> MenuEntryView {
        match self {
            MenuEntry::Item { name, action, enabled } => MenuEntryView::Item {
                name: name@,
                action: *action,
                enabled: *enabled,
            },
            MenuEntry::Line => MenuEntryView::Line,
        }
    }
}

/// The entries of a group seen as their values.
pub open spec fn entries_view(entries: Seq<MenuEntry>) -> Seq<MenuEntryView> {
    entries.map_values(|e: MenuEntry| e@)
}

impl View for MenuGroup {
    type V = MenuGroupView;

    open spec fn view(&self) -> MenuGroupView {
        MenuGroupView { name: self.name@, items: entries_view(self.items@) }
    }
}

/// The menu seen as the values of its groups.
pub open spec fn menu_view(menu: Seq<MenuGroup>) -> Seq<MenuGroupView> {
    menu.map_values(|g: MenuGroup| g@)
}

/// An enabled item.
pub open spec fn item_view(name: &str, action: Action) -> MenuEntryView {
    MenuEntryView::Item { name: name@, action, enabled: true }
}

/// A separator line.
pub open spec fn line_view() -> MenuEntryView {
    MenuEntryView::Line
}

/// A group with its entries.
pub open spec fn group_view(name: &str, items: Seq<MenuEntryView>) -> MenuGroupView {
    MenuGroupView { name: name@, items }
}

/// The menu bar: its groups in order, each with its entries in order.
pub open spec fn menu_layout() -> Seq<MenuGroupView> {
    seq![
        group_view(
            "Repo",
            seq![
                item_view("New", Action::RepoNew),
                item_view("Open", Action::RepoOpen),
                item_view("Refresh", Action::RepoRefresh),
                line_view(),
                item_view("Clone", Action::RepoClone),
                item_view("Fetch", Action::RepoFetch),
                item_view("Push", Action::RepoPush),
                line_view(),
                item_view("Sparse..", Action::RepoSparse),
                item_view("Workspace..", Action::RepoWorkspace),
                line_view(),
                item_view("Preferences..", Action::AppPreferences),
                item_view("Exit", Action::AppExit),
            ],
        ),
        group_view(
            "Operation",
            seq![
                item_view("Undo", Action::OperationUndo),
                item_view("Redo", Action::OperationRedo),
                line_view(),
                item_view("Diff", Action::OperationAbandon),
                item_view("Restore", Action::OperationRestore),
                item_view("Inverse", Action::OperationInverse),
                item_view("Abandon", Action::OperationAbandon),
            ],
        ),
        group_view(
            "Change",
            seq![
                item_view("New", Action::ChangeNew),
                item_view("Duplicate", Action::ChangeDuplicate),
                item_view("Parallelize", Action::ChangeParallelize),
                item_view("Split", Action::ChangeSplit),
                line_view(),
                item_view("Edit", Action::ChangeEdit),
                item_view("Describe..", Action::ChangeDescribe),
                item_view("Rebase..", Action::ChangeRebase),
                item_view("Resolve..", Action::ChangeResolve),
                line_view(),
                item_view("Revert..", Action::RepoPush),
                item_view("Squash", Action::ChangeSquash),
                item_view("Absorb", Action::ChangeAbsorb),
                item_view("Abandon", Action::ChangeAbandon),
                line_view(),
                item_view("Sign", Action::ChangeSign),
                item_view("Unsign", Action::ChangeUnsign),
                line_view(),
                item_view("Find..", Action::HelpAbout),
            ],
        ),
        group_view(
            "File",
            seq![
                item_view("Track", Action::FileTrack),
                item_view("Untrack", Action::FileUntrack),
                item_view("Restore..", Action::FileRestore),
            ],
        ),
        group_view(
            "View",
            seq![
                item_view("Files", Action::ViewFiles),
                item_view("Annotate file", Action::ViewAnnotate),
                line_view(),
                item_view("Changes", Action::ViewChanges),
                item_view("Change evolution", Action::ViewChangeEvolution),
                item_view("Operations", Action::ViewOperations),
                line_view(),
                item_view("Workspaces", Action::ViewWorkspaces),
                item_view("Remotes", Action::ViewRemotes),
                item_view("Bookmarks", Action::ViewBookmarks),
                item_view("Tags", Action::ViewTags),
            ],
        ),
        group_view(
            "Help",
            seq![
                item_view("Keybindings", Action::HelpKeybindings),
                item_view("CLI Commands", Action::HelpCLICommands),
                item_view("Keywords", Action::HelpKeyword),
                item_view("Report issue", Action::HelpReportIssue),
                item_view("About", Action::HelpAbout),
            ],
        ),
    ]
}

fn item(name: &'static str, action: Action) -> (r: MenuEntry)
    ensures
        r@ == item_view(name, action),
{
    MenuEntry::Item { name, action, enabled: true }
}

fn line() -> (r: MenuEntry)
    ensures
        r@ == line_view(),
{
    MenuEntry::Line
}

/// Create the menu and all its menu items
pub fn create() -> (r: Vec<MenuGroup>)
    ensures
        menu_view(r@) == menu_layout(),
{
    let mut groups: Vec<MenuGroup> = Vec::new();
    groups.push(MenuGroup {
        name: "Repo",
        items: vec![
            item("New", Action::RepoNew),
            item("Open", Action::RepoOpen),
            item("Refresh", Action::RepoRefresh),
            line(),
            item("Clone", Action::RepoClone),
            item("Fetch", Action::RepoFetch),
            item("Push", Action::RepoPush),
            line(),
            item("Sparse..", Action::RepoSparse),
            item("Workspace..", Action::RepoWorkspace),
            line(),
            item("Preferences..", Action::AppPreferences),
            item("Exit", Action::AppExit),
        ],
    });
    groups.push(MenuGroup {
        name: "Operation",
        items: vec![
            item("Undo", Action::OperationUndo),
            item("Redo", Action::OperationRedo),
            line(),
            item("Diff", Action::OperationAbandon),
            item("Restore", Action::OperationRestore),
            item("Inverse", Action::OperationInverse),
            item("Abandon", Action::OperationAbandon),
        ],
    });
    groups.push(MenuGroup {
        name: "Change",
        items: vec![
            item("New", Action::ChangeNew),
            item("Duplicate", Action::ChangeDuplicate),
            item("Parallelize", Action::ChangeParallelize),
            item("Split", Action::ChangeSplit),
            line(),
            item("Edit", Action::ChangeEdit),
            item("Describe..", Action::ChangeDescribe),
            item("Rebase..", Action::ChangeRebase),
            item("Resolve..", Action::ChangeResolve),
            line(),
            item("Revert..", Action::RepoPush),
            item("Squash", Action::ChangeSquash),
            item("Absorb", Action::ChangeAbsorb),
            item("Abandon", Action::ChangeAbandon),
            line(),
            item("Sign", Action::ChangeSign),
            item("Unsign", Action::ChangeUnsign),
            line(),
            item("Find..", Action::HelpAbout),
        ],
    });
    groups.push(MenuGroup {
        name: "File",
        items: vec![
            item("Track", Action::FileTrack),
            item("Untrack", Action::FileUntrack),
            item("Restore..", Action::FileRestore),
        ],
    });
    groups.push(MenuGroup {
        name: "View",
        items: vec![
            item("Files", Action::ViewFiles),
            item("Annotate file", Action::ViewAnnotate),
            line(),
            item("Changes", Action::ViewChanges),
            item("Change evolution", Action::ViewChangeEvolution),
            item("Operations", Action::ViewOperations),
            line(),
            item("Workspaces", Action::ViewWorkspaces),
            item("Remotes", Action::ViewRemotes),
            item("Bookmarks", Action::ViewBookmarks),
            item("Tags", Action::ViewTags),
        ],
    });
    groups.push(MenuGroup {
        name: "Help",
        items: vec![
            item("Keybindings", Action::HelpKeybindings),
            item("CLI Commands", Action::HelpCLICommands),
            item("Keywords", Action::HelpKeyword),
            item("Report issue", Action::HelpReportIssue),
            item("About", Action::HelpAbout),
        ],
    });
    proof {
        let layout = menu_layout();
        assert forall|g: int| 0 <= g < groups@.len() implies entries_view(groups@[g].items@)
            =~= layout[g].items by {}
        assert(menu_view(groups@) =~= layout);
    }
    groups
}

/// The keys that drive the menu.
pub open spec fn keybind_table() -> Seq<(Seq<char>, MenuAction)> {
    seq![("up"@, MenuAction::Up), ("down"@, MenuAction::Down), ("left"@, MenuAction::Left), ("right"@, MenuAction::Right), ("k"@, MenuAction::Up), ("j"@, MenuAction::Down), ("h"@, MenuAction::Left), ("l"@, MenuAction::Right), ("esc"@, MenuAction::Reset), ("enter"@, MenuAction::Select), ("f10"@, MenuAction::Activate), ("."@, MenuAction::Activate)]
}

/// The keys that drive the menu.
pub fn keybinds() -> (r: Vec<(&'static str, MenuAction)>)
    ensures
        binding_views(r@) == keybind_table(),
{
    let r = vec![
        ("up", MenuAction::Up),
        ("down", MenuAction::Down),
        ("left", MenuAction::Left),
        ("right", MenuAction::Right),
        ("k", MenuAction::Up),
        ("j", MenuAction::Down),
        ("h", MenuAction::Left),
        ("l", MenuAction::Right),
        ("esc", MenuAction::Reset),
        ("enter", MenuAction::Select),
        ("f10", MenuAction::Activate),
        (".", MenuAction::Activate),
    ];
    assert(binding_views(r@) =~= keybind_table());
    r
}

/// The vim keys move through the menu like the arrow keys: h and left go
/// left, l and right go right, k and up go up, j and down go down.
pub proof fn lemma_vim_keys_move_like_arrows()
    ensures
        binding_for(keybind_table(), "h"@) == binding_for(keybind_table(), "left"@),
        binding_for(keybind_table(), "l"@) == binding_for(keybind_table(), "right"@),
        binding_for(keybind_table(), "k"@) == binding_for(keybind_table(), "up"@),
        binding_for(keybind_table(), "j"@) == binding_for(keybind_table(), "down"@),
        binding_for(keybind_table(), "left"@) == Some(MenuAction::Left),
        binding_for(keybind_table(), "right"@) == Some(MenuAction::Right),
        binding_for(keybind_table(), "up"@) == Some(MenuAction::Up),
        binding_for(keybind_table(), "down"@) == Some(MenuAction::Down),
{
    reveal_strlit("up");
    reveal_strlit("down");
    reveal_strlit("left");
    reveal_strlit("right");
    reveal_strlit("k");
    reveal_strlit("j");
    reveal_strlit("h");
    reveal_strlit("l");
    assert("up"@ != "down"@) by { assert("up"@.len() != "down"@.len()); }
    assert("up"@ != "left"@) by { assert("up"@.len() != "left"@.len()); }
    assert("down"@ != "left"@) by { assert("down"@[0] != "left"@[0]); }
    assert("up"@ != "right"@) by { assert("up"@.len() != "right"@.len()); }
    assert("down"@ != "right"@) by { assert("down"@.len() != "right"@.len()); }
    assert("left"@ != "right"@) by { assert("left"@.len() != "right"@.len()); }
    assert("up"@ != "k"@) by { assert("up"@.len() != "k"@.len()); }
    assert("down"@ != "k"@) by { assert("down"@.len() != "k"@.len()); }
    assert("left"@ != "k"@) by { assert("left"@.len() != "k"@.len()); }
    assert("right"@ != "k"@) by { assert("right"@.len() != "k"@.len()); }
    assert("up"@ != "j"@) by { assert("up"@.len() != "j"@.len()); }
    assert("down"@ != "j"@) by { assert("down"@.len() != "j"@.len()); }
    assert("left"@ != "j"@) by { assert("left"@.len() != "j"@.len()); }
    assert("right"@ != "j"@) by { assert("right"@.len() != "j"@.len()); }
    assert("k"@ != "j"@) by { assert("k"@[0] != "j"@[0]); }
    assert("up"@ != "h"@) by { assert("up"@.len() != "h"@.len()); }
    assert("down"@ != "h"@) by { assert("down"@.len() != "h"@.len()); }
    assert("left"@ != "h"@) by { assert("left"@.len() != "h"@.len()); }
    assert("right"@ != "h"@) by { assert("right"@.len() != "h"@.len()); }
    assert("k"@ != "h"@) by { assert("k"@[0] != "h"@[0]); }
    assert("j"@ != "h"@) by { assert("j"@[0] != "h"@[0]); }
    assert("up"@ != "l"@) by { assert("up"@.len() != "l"@.len()); }
    assert("down"@ != "l"@) by { assert("down"@.len() != "l"@.len()); }
    assert("left"@ != "l"@) by { assert("left"@.len() != "l"@.len()); }
    assert("right"@ != "l"@) by { assert("right"@.len() != "l"@.len()); }
    assert("k"@ != "l"@) by { assert("k"@[0] != "l"@[0]); }
    assert("j"@ != "l"@) by { assert("j"@[0] != "l"@[0]); }
    assert("h"@ != "l"@) by { assert("h"@[0] != "l"@[0]); }
    let t = keybind_table();
    assert(t.len() == 12);
    lemma_first_binding_at(t, "up"@, 0);
    lemma_first_binding_at(t, "down"@, 1);
    lemma_first_binding_at(t, "left"@, 2);
    lemma_first_binding_at(t, "right"@, 3);
    lemma_first_binding_at(t, "k"@, 4);
    lemma_first_binding_at(t, "j"@, 5);
    lemma_first_binding_at(t, "h"@, 6);
    lemma_first_binding_at(t, "l"@, 7);
}

/// The binding at `i` answers `shortcut` when it is the first with that text.
proof fn lemma_first_binding_at(t: Seq<(Seq<char>, MenuAction)>, shortcut: Seq<char>, i: int)
    requires
        0 <= i < t.len(),
        t[i].0 == shortcut,
        forall|j: int| 0 <= j < i ==> t[j].0 != shortcut,
    ensures
        binding_for(t, shortcut) == Some(t[i].1),
{
    lemma_binding_is_first_exact_match(t, shortcut);
    match binding_for(t, shortcut) {
        Some(a) => {
            let k = choose|k: int|
                0 <= k < t.len() && #[trigger] t[k].0 == shortcut && t[k].1 == a && forall|j: int|
                    0 <= j < k ==> t[j].0 != shortcut;
            if k < i {
                assert(t[k].0 != shortcut);
            } else if k > i {
                assert(t[i].0 != shortcut);
            }
        },
        None => {
            assert(t[i].0 != shortcut);
        },
    }
}

/// The menu action for a key, given by its shortcut text, when the menu
/// takes it: an inactive menu only takes the key that opens it. `None`
/// means that the key passes on to the rest of the application.
pub fn key_input(menu_active: bool, shortcut: &str) -> (r: Option<MenuAction>)
    ensures
        r == match binding_for(keybind_table(), shortcut@) {
            Some(a) => if menu_active || a == MenuAction::Activate {
                Some(a)
            } else {
                None
            },
            None => None,
        },
{
    let action = match lookup_shortcut(&keybinds(), shortcut) {
        Some(a) => a,
        None => {
            return None;
        },
    };
    // Check if MenuAction is allowed
    if !menu_active {
        if action != MenuAction::Activate {
            return None;
        }
    }
    Some(action)
}

/// The entry with its item enabled iff its action is in `actions`.
pub open spec fn entry_enabled_for(entry: MenuEntryView, actions: Seq<Action>) -> MenuEntryView {
    match entry {
        MenuEntryView::Item { name, action, enabled: _ } => MenuEntryView::Item {
            name,
            action,
            enabled: actions.contains(action),
        },
        MenuEntryView::Line => MenuEntryView::Line,
    }
}

/// The entries with each item enabled iff its action is in `actions`.
pub open spec fn entries_enabled_for(entries: Seq<MenuEntryView>, actions: Seq<Action>) -> Seq<
    MenuEntryView,
> {
    entries.map_values(|e: MenuEntryView| entry_enabled_for(e, actions))
}

/// The menu with each item enabled iff its action is in `actions`.
pub open spec fn menu_enabled_for(menu: Seq<MenuGroupView>, actions: Seq<Action>) -> Seq<
    MenuGroupView,
> {
    menu.map_values(
        |g: MenuGroupView| MenuGroupView { name: g.name, items: entries_enabled_for(g.items, actions) },
    )
}

/// Enabling keeps the menu's shape, names and actions, and afterwards each
/// item is enabled exactly when its action is available, whatever its flag
/// was before: so enabling for `first` and then for `actions` gives the same
/// menu as enabling for `actions` alone.
pub proof fn lemma_enabled_items_follow_actions(
    menu: Seq<MenuGroupView>,
    first: Seq<Action>,
    actions: Seq<Action>,
)
    ensures
        menu_enabled_for(menu, actions).len() == menu.len(),
        forall|g: int|
            0 <= g < menu.len() ==> {
                &&& (#[trigger] menu_enabled_for(menu, actions)[g]).name == menu[g].name
                &&& menu_enabled_for(menu, actions)[g].items.len() == menu[g].items.len()
            },
        forall|g: int, i: int|
            0 <= g < menu.len() && 0 <= i < menu[g].items.len() ==> match (
            #[trigger] menu[g].items[i]) {
                MenuEntryView::Item { name, action, enabled: _ } => menu_enabled_for(
                    menu,
                    actions,
                )[g].items[i] == MenuEntryView::Item {
                    name,
                    action,
                    enabled: actions.contains(action),
                },
                MenuEntryView::Line => menu_enabled_for(menu, actions)[g].items[i]
                    == MenuEntryView::Line,
            },
        menu_enabled_for(menu_enabled_for(menu, first), actions) == menu_enabled_for(menu, actions),
{
    let once = menu_enabled_for(menu, actions);
    let twice = menu_enabled_for(menu_enabled_for(menu, first), actions);
    assert forall|g: int| 0 <= g < menu.len() implies #[trigger] twice[g] == once[g] by {
        let mid = menu_enabled_for(menu, first)[g];
        assert(twice[g].items =~= once[g].items) by {
            assert forall|i: int| 0 <= i < menu[g].items.len() implies twice[g].items[i]
                == once[g].items[i] by {
                assert(mid.items[i] == entry_enabled_for(menu[g].items[i], first));
            }
        }
    }
    assert(twice =~= once);
}

fn contains_action(actions: &Vec<Action>, action: Action) -> (r: bool)
    ensures
        r == actions@.contains(action),
{
    let n = actions.len();
    let mut i: usize = 0;
    while i < n
        invariant
            n == actions@.len(),
            i <= n,
            forall|j: int| 0 <= j < i ==> actions@[j] != action,
        decreases n - i,
    {
        if actions[i] == action {
            assert(actions@[i as int] == action);
            return true;
        }
        i += 1;
    }
    false
}

/// Update menu items with actions, so they are enabled iff
/// the action is in the actions set.
pub fn enable_actions(menu: &mut Vec<MenuGroup>, actions: &Vec<Action>)
    ensures
        menu_view(final(menu)@) == menu_enabled_for(menu_view(old(menu)@), actions@),
        final(menu)@.len() == old(menu)@.len(),
        forall|g: int|
            0 <= g < old(menu)@.len() ==> (#[trigger] final(menu)@[g]).items@.len() == old(
                menu,
            )@[g].items@.len(),
        forall|g: int, i: int|
            0 <= g < old(menu)@.len() && 0 <= i < old(menu)@[g].items@.len() ==> match (
            #[trigger] final(menu)@[g].items@[i]) {
                MenuEntry::Item { action, enabled, .. } => enabled == actions@.contains(action),
                MenuEntry::Line => true,
            },
{
    proof {
        lemma_enabled_items_follow_actions(menu_view(menu@), actions@, actions@);
    }
    let ghost before = menu_view(menu@);
    let ghost expected = menu_enabled_for(before, actions@);
    let mut updated: Vec<MenuGroup> = Vec::new();
    let n = menu.len();
    let mut g: usize = 0;
    assert(menu_view(updated@) =~= expected.take(0));
    while g < n
        invariant
            n == menu@.len(),
            g <= n,
            before == menu_view(menu@),
            expected == menu_enabled_for(before, actions@),
            menu_view(updated@) == expected.take(g as int),
        decreases n - g,
    {
        let entries = &menu[g].items;
        let m = entries.len();
        let mut items: Vec<MenuEntry> = Vec::new();
        let mut i: usize = 0;
        assert(entries_view(items@) =~= entries_enabled_for(entries_view(entries@).take(0), actions@));
        while i < m
            invariant
                m == entries@.len(),
                i <= m,
                entries_view(items@) == entries_enabled_for(
                    entries_view(entries@).take(i as int),
                    actions@,
                ),
            decreases m - i,
        {
            let entry = match entries[i] {
                MenuEntry::Item { name, action, enabled: _ } => MenuEntry::Item {
                    name,
                    action,
                    enabled: contains_action(actions, action),
                },
                MenuEntry::Line => MenuEntry::Line,
            };
            proof {
                assert(entry@ == entry_enabled_for(entries_view(entries@)[i as int], actions@));
            }
            let ghost prev = items@;
            items.push(entry);
            proof {
                assert(entries_view(items@) =~= entries_view(prev).push(entry@));
                let src = entries_view(entries@);
                assert(src.take(i + 1) =~= src.take(i as int).push(src[i as int]));
                assert(entries_view(items@) =~= entries_enabled_for(src.take(i + 1), actions@));
            }
            i += 1;
        }
        proof {
            assert(entries_view(entries@).take(m as int) =~= entries_view(entries@));
        }
        let ghost prev = updated@;
        let group = MenuGroup { name: menu[g].name, items };
        proof {
            assert(group@ == expected[g as int]);
        }
        updated.push(group);
        proof {
            assert(menu_view(updated@) =~= menu_view(prev).push(group@));
            assert(menu_view(updated@) =~= expected.take(g + 1));
        }
        g += 1;
    }
    proof {
        assert(expected.take(n as int) =~= expected);
    }
    let ghost old_menu = menu@;
    *menu = updated;
    proof {
        assert forall|g: int| 0 <= g < old_menu.len() implies (#[trigger] menu@[g]).items@.len()
            == old_menu[g].items@.len() by {
            assert(menu_view(menu@)[g] == menu@[g]@);
            assert(before[g] == old_menu[g]@);
        }
        assert forall|g: int, i: int|
            0 <= g < old_menu.len() && 0 <= i < old_menu[g].items@.len() implies match (
            #[trigger] menu@[g].items@[i]) {
                MenuEntry::Item { action, enabled, .. } => enabled == actions@.contains(action),
                MenuEntry::Line => true,
            } by {
            assert(menu_view(menu@)[g] == menu@[g]@);
            assert(before[g] == old_menu[g]@);
            assert(entries_view(menu@[g].items@)[i] == menu@[g].items@[i]@);
            assert(entries_view(old_menu[g].items@)[i] == old_menu[g].items@[i]@);
        }
    }
}

} // verus!
