//! What a UI component answers when it is handed an input event.

use vstd::prelude::*;

verus! {

/// An action that a component asks the application to perform. The popup
/// type `P` is the front end's own: a component that it owns and draws.
#[derive(Debug)]
pub enum ComponentAction<P> {
    /// Several actions, performed in order.
    Multiple(Vec<ComponentAction<P>>),
    /// Show a popup, or close the current one with `None`.
    SetPopup(Option<P>),
    /// Reload the current tab.
    RefreshTab(),
}

/// The outcome of handing an input event to a component.
#[derive(Debug)]
pub enum ComponentInputResult<P> {
    /// The event was used.
    Handled,
    /// The event was used, and the application is asked to act.
    HandledAction(ComponentAction<P>),
    /// The event was not used; it passes on to the next layer.
    NotHandled,
}

impl<P> ComponentInputResult<P> {
    /// True when the component used the event.
    pub fn is_handled(&self) -> (r: bool)
        ensures
            r == !(self is NotHandled),
    {
        match self {
            ComponentInputResult::Handled => true,
            ComponentInputResult::HandledAction(_) => true,
            ComponentInputResult::NotHandled => false,
        }
    }
}

} // verus!
