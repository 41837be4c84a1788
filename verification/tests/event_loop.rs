use blazingjj::event_loop::{input_wait_millis, skips_event, EventKind};

#[test]
fn focus_loss_and_mouse_moves_are_skipped() {
    assert!(skips_event(EventKind::FocusLost));
    assert!(skips_event(EventKind::MouseMoved));
    assert!(!skips_event(EventKind::Other));
}

#[test]
fn wait_times() {
    assert_eq!(input_wait_millis(true, false), Some(0));
    assert_eq!(input_wait_millis(true, true), Some(0));
    assert_eq!(input_wait_millis(false, true), Some(100));
    assert_eq!(input_wait_millis(false, false), None);
}
