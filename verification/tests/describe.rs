use blazingjj::component::{ComponentAction, ComponentInputResult};
use blazingjj::describe::{default_keybinds, input_result, match_event, popup_size, Action};

#[test]
fn describe_keybinds_table() {
    assert_eq!(default_keybinds(), vec![("esc", Action::Cancel), ("ctrl+s", Action::Save)]);
}

#[test]
fn describe_match_event() {
    assert_eq!(match_event("esc"), Action::Cancel);
    assert_eq!(match_event("ctrl+s"), Action::Save);
    assert_eq!(match_event("a"), Action::Unbound);
    assert_eq!(match_event("enter"), Action::Unbound);
}

#[test]
fn save_closes_popup_and_refreshes() {
    match input_result::<()>(Action::Save) {
        ComponentInputResult::HandledAction(ComponentAction::Multiple(actions)) => {
            assert_eq!(actions.len(), 2);
            assert!(matches!(actions[0], ComponentAction::SetPopup(None)));
            assert!(matches!(actions[1], ComponentAction::RefreshTab()));
        }
        other => panic!("unexpected {:?}", other),
    }
}

#[test]
fn cancel_closes_popup() {
    assert!(matches!(
        input_result::<()>(Action::Cancel),
        ComponentInputResult::HandledAction(ComponentAction::SetPopup(None))
    ));
}

#[test]
fn other_keys_are_typed() {
    let r = input_result::<()>(Action::Unbound);
    assert!(matches!(r, ComponentInputResult::Handled));
    assert!(r.is_handled());
}

#[test]
fn popup_size_grows_with_area() {
    assert_eq!(popup_size(10), (74, 9));
    assert_eq!(popup_size(18), (74, 9));
    assert_eq!(popup_size(19), (74, 9));
    assert_eq!(popup_size(20), (74, 10));
    assert_eq!(popup_size(60), (74, 30));
    assert_eq!(popup_size(0), (74, 9));
}
