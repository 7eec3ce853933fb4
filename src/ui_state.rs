use vstd::prelude::*;

verus! {

/// Which side panels are shown.
pub struct UIState {
    pub show_inspector: bool,
    pub show_statistics: bool,
}

impl Default for UIState {
    fn default() -> (r: Self)
        ensures
            r.show_inspector,
            r.show_statistics,
    {
        UIState { show_inspector: true, show_statistics: true }
    }
}

/// Panel visibility of the main window.
pub struct UI {
    pub show_inspector: bool,
    pub show_statistics: bool,
    pub show_settings: bool,
}

impl UI {
    /// Inspector and statistics shown, settings hidden.
    pub fn new() -> (r: Self)
        ensures
            r.show_inspector,
            r.show_statistics,
            !r.show_settings,
    {
        UI { show_inspector: true, show_statistics: true, show_settings: false }
    }
}

} // verus!
