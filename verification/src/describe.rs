//! The decisions of the dialog that captures the text of a change
//! description.

use crate::component::{ComponentAction, ComponentInputResult};
use crate::shortcut::{binding_for, binding_views, lemma_binding_is_first_exact_match, lookup_shortcut};
use vstd::prelude::*;

verus! {

/// What a key does in the describe dialog.
#[derive(Clone, Copy, PartialEq, Eq, Structural, Debug)]
pub enum Action {
    Unbound,
    Cancel,
    Save,
}

/// The shortcuts of the dialog: escape cancels, ctrl+s saves.
pub open spec fn keybind_table() -> Seq<(Seq<char>, Action)> {
    seq![("esc"@, Action::Cancel), ("ctrl+s"@, Action::Save)]
}

/// The shortcuts of the dialog: escape cancels, ctrl+s saves.
pub fn default_keybinds() -> (r: Vec<(&'static str, Action)>)
    ensures
        binding_views(r@) == keybind_table(),
{
    let r = vec![("esc", Action::Cancel), ("ctrl+s", Action::Save)];
    assert(binding_views(r@) =~= keybind_table());
    r
}

/// Only the two shortcuts of the dialog are bound, each to its action:
/// every other key, a prefix of one of them included, is unbound.
pub proof fn lemma_only_dialog_shortcuts_are_bound(shortcut: Seq<char>)
    ensures
        binding_for(keybind_table(), shortcut) == if shortcut == "esc"@ {
            Some(Action::Cancel)
        } else if shortcut == "ctrl+s"@ {
            Some(Action::Save)
        } else {
            None
        },
{
    let t = keybind_table();
    lemma_binding_is_first_exact_match(t, shortcut);
    assert(t[0] == ("esc"@, Action::Cancel));
    assert(t[1] == ("ctrl+s"@, Action::Save));
    match binding_for(t, shortcut) {
        Some(a) => {
            let i = choose|i: int|
                0 <= i < t.len() && #[trigger] t[i].0 == shortcut && t[i].1 == a && forall|j: int|
                    0 <= j < i ==> t[j].0 != shortcut;
            if i == 1 {
                assert(t[0].0 != shortcut);
            }
        },
        None => {
            assert(t[0].0 != shortcut);
            assert(t[1].0 != shortcut);
        },
    }
}

/// Map a key, given by its shortcut text, to a dialog action.
pub fn match_event(shortcut: &str) -> (r: Action)
    ensures
        r == match binding_for(keybind_table(), shortcut@) {
            Some(a) => a,
            None => Action::Unbound,
        },
        r == if shortcut@ == "esc"@ {
            Action::Cancel
        } else if shortcut@ == "ctrl+s"@ {
            Action::Save
        } else {
            Action::Unbound
        },
{
    proof {
        lemma_only_dialog_shortcuts_are_bound(shortcut@);
    }
    match lookup_shortcut(&default_keybinds(), shortcut) {
        Some(a) => a,
        None => Action::Unbound,
    }
}

/// The answer of the dialog to a key once the action of the key is done:
/// saving closes the popup and refreshes the tab, cancelling closes the
/// popup, and any other key was typed into the text.
pub fn input_result<P>(action: Action) -> (r: ComponentInputResult<P>)
    ensures
        match action {
            Action::Save => {
                &&& r matches ComponentInputResult::HandledAction(ComponentAction::Multiple(v))
                &&& v@.len() == 2
                &&& (v@[0] matches ComponentAction::SetPopup(None))
                &&& v@[1] is RefreshTab
            },
            Action::Cancel => r matches ComponentInputResult::HandledAction(
                ComponentAction::SetPopup(None),
            ),
            Action::Unbound => r is Handled,
        },
{
    match action {
        Action::Save => ComponentInputResult::HandledAction(
            ComponentAction::Multiple(vec![ComponentAction::SetPopup(None), ComponentAction::RefreshTab()]),
        ),
        Action::Cancel => ComponentInputResult::HandledAction(ComponentAction::SetPopup(None)),
        Action::Unbound => ComponentInputResult::Handled,
    }
}

/// Git's recommended width of a commit message line.
pub const MAX_COMMIT_WIDTH: u16 = 72;

/// A heading, a blank line and three lines.
pub const MIN_COMMIT_HEIGHT: u16 = 5;

/// The size of the dialog, margin and help text included, in an area of
/// height `area_height`: wide enough for a commit message line, and half
/// the area high but at least room for a short message.
pub fn popup_size(area_height: u16) -> (r: (u16, u16))
    ensures
        r.0 == MAX_COMMIT_WIDTH + 2,
        r.1 == if MIN_COMMIT_HEIGHT + 4 >= area_height / 2 {
            (MIN_COMMIT_HEIGHT + 4) as int
        } else {
            (area_height / 2) as int
        },
{
    let half = area_height / 2;
    let height = if MIN_COMMIT_HEIGHT + 4 >= half {
        MIN_COMMIT_HEIGHT + 4
    } else {
        half
    };
    (MAX_COMMIT_WIDTH + 2, height)
}

} // verus!
