//! The decisions of the main loop that waits for terminal events, hands
//! them to the application and redraws.

use vstd::prelude::*;

verus! {

/// The terminal events that the main loop tells apart.
#[derive(Clone, Copy, PartialEq, Eq, Structural, Debug)]
pub enum EventKind {
    /// The terminal lost the focus.
    FocusLost,
    /// The mouse moved, no button pressed.
    MouseMoved,
    /// Any other event: keys, clicks, scrolling, resizing, focus gained.
    Other,
}

/// Focus loss and bare mouse moves are passed over: they do not reach the
/// application and do not end the wait.
pub fn skips_event(kind: EventKind) -> (r: bool)
    ensures
        r == (kind is FocusLost || kind is MouseMoved),
{
    match kind {
        EventKind::FocusLost => true,
        EventKind::MouseMoved => true,
        EventKind::Other => false,
    }
}

/// How long the loop waits for input, in milliseconds, `None` meaning no
/// limit: not at all in the first round, so that the screen is drawn at
/// once; then 100 ms while a popup (such as the fetch animation) needs
/// redrawing, and without limit otherwise.
pub fn input_wait_millis(first_round: bool, has_popup: bool) -> (r: Option<u64>)
    ensures
        r == if first_round {
            Some(0u64)
        } else if has_popup {
            Some(100u64)
        } else {
            None
        },
{
    if first_round {
        Some(0)
    } else if has_popup {
        Some(100)
    } else {
        None
    }
}

} // verus!
