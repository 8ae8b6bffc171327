//! The tray menu's entries and what each one's identifier selects.

use vstd::prelude::*;
use crate::text::str_eq;

verus! {

/// What a tray menu entry does.
#[derive(Debug, Clone, Copy, PartialEq, Eq, Structural)]
pub enum TrayAction {
    /// Bring the main window forward.
    Show,
    /// Pause every torrent.
    PauseAll,
    /// Quit Drift.
    Quit,
}

/// The action of the menu entry with this identifier: "show", "pause_all"
/// or "quit"; `None` for any other.
pub fn menu_action(id: &str) -> (a: Option<TrayAction>)
    ensures
        a == (if id@ == "show"@ {
            Some(TrayAction::Show)
        } else if id@ == "pause_all"@ {
            Some(TrayAction::PauseAll)
        } else if id@ == "quit"@ {
            Some(TrayAction::Quit)
        } else {
            None
        }),
{
    if str_eq(id, "show") {
        Some(TrayAction::Show)
    } else if str_eq(id, "pause_all") {
        Some(TrayAction::PauseAll)
    } else if str_eq(id, "quit") {
        Some(TrayAction::Quit)
    } else {
        None
    }
}

} // verus!
