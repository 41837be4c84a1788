use blazingjj::component::{ComponentAction, ComponentInputResult};

#[test]
fn handled_results() {
    assert!(ComponentInputResult::<u8>::Handled.is_handled());
    assert!(ComponentInputResult::<u8>::HandledAction(ComponentAction::RefreshTab()).is_handled());
    assert!(!ComponentInputResult::<u8>::NotHandled.is_handled());
}
