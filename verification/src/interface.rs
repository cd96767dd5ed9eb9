use vstd::prelude::*;

use crate::backend_panel::BackendPanel;
use crate::text::str_eq;
use crate::view::about::About;
use crate::view::about::AboutView;
use crate::view::about::default_about_view;

verus! {

/// The stubbed game view: it holds no state of its own.
pub struct Game {}

impl Default for Game {
    fn default() -> (g: Game)
        ensures
            g == (Game {  }),
    {
        Game {  }
    }
}

/// The selectable top-level views of the application.
#[derive(Clone, Copy, Debug, PartialEq, Eq, Structural)]
pub enum AppView {
    About,
    Game,
    BackendPanel,
}

impl AppView {
    /// The views offered in the top bar, in order.
    pub open spec fn all_spec() -> Seq<AppView> {
        seq![AppView::About, AppView::Game]
    }

    /// The views offered in the top bar, in order.
    pub fn all() -> (r: Vec<AppView>)
        ensures
            r@ == AppView::all_spec(),
    {
        let mut r: Vec<AppView> = Vec::new();
        r.push(AppView::About);
        r.push(AppView::Game);
        proof {
            assert(r@ =~= AppView::all_spec());
        }
        r
    }

    /// The name a view is shown under and addressed by.
    pub open spec fn name_spec(self) -> Seq<char> {
        match self {
            AppView::About => "About"@,
            AppView::Game => "Game"@,
            AppView::BackendPanel => "BackendPanel"@,
        }
    }

    /// The name a view is shown under and addressed by.
    pub fn name(&self) -> (r: String)
        ensures
            r@ == self.name_spec(),
    {
        match self {
            AppView::About => "About".to_owned(),
            AppView::Game => "Game".to_owned(),
            AppView::BackendPanel => "BackendPanel".to_owned(),
        }
    }

    /// The view a location-hash name addresses: one of the views of
    /// `all`, matched by its name.
    pub fn from_name(name: &str) -> (r: Option<AppView>)
        ensures
            r == (if name@ == "About"@ {
                Some(AppView::About)
            } else if name@ == "Game"@ {
                Some(AppView::Game)
            } else {
                None::<AppView>
            }),
    {
        if str_eq(name, "About") {
            Some(AppView::About)
        } else if str_eq(name, "Game") {
            Some(AppView::Game)
        } else {
            None
        }
    }
}

impl Default for AppView {
    /// The application starts on the about view.
    fn default() -> (v: AppView)
        ensures
            v == AppView::About,
    {
        AppView::About
    }
}

/// What a click in the top bar or the backend panel asks the shell to do.
#[derive(Clone, Copy, Debug, PartialEq, Eq, Structural)]
#[must_use]
pub enum Command {
    Nothing,
    ResetEverything,
}

/// The model of the persisted application state.
pub struct StateView {
    pub about: AboutView,
    pub backend_panel_open: bool,
    pub selected_view: AppView,
}

/// The state that the application persists across sessions: the views'
/// own state, whether the backend panel is open, and the selected view.
pub struct State {
    pub about: About,
    pub game: Game,
    pub backend_panel: BackendPanel,
    pub selected_view: AppView,
}

/// The model of the freshly started application state.
pub open spec fn default_state_view() -> StateView {
    StateView {
        about: default_about_view(),
        backend_panel_open: false,
        selected_view: AppView::About,
    }
}

impl View for State {
    type V = StateView;

    open spec fn view(&self) -> StateView {
        StateView {
            about: self.about@,
            backend_panel_open: self.backend_panel.open,
            selected_view: self.selected_view,
        }
    }
}

impl State {
    /// The article mapping of the about view is key-sorted.
    pub open spec fn wf(self) -> bool {
        self.about.wf()
    }
}

impl Default for State {
    /// The state the application starts from.
    fn default() -> (s: State)
        ensures
            s@ == default_state_view(),
            s.wf(),
    {
        State {
            about: About::default(),
            game: Game::default(),
            backend_panel: BackendPanel::default(),
            selected_view: AppView::About,
        }
    }
}

/// The shell around the views: it owns the persisted state and decides,
/// once per frame, which views are shown and what a command changes.
pub struct Interface {
    pub state: State,
}

impl Interface {
    /// A fresh shell with the default state; the host may afterwards
    /// replace the state with one restored from its storage.
    pub fn new() -> (r: Interface)
        ensures
            r.state@ == default_state_view(),
            r.state.wf(),
    {
        Interface { state: State::default() }
    }

    /// Carries out a command issued by the top bar or the backend panel:
    /// nothing, or a reset of everything to the starting state.
    pub fn run_cmd(&mut self, cmd: Command)
        ensures
            cmd is Nothing ==> *final(self) == *old(self),
            cmd is ResetEverything ==> final(self).state@ == default_state_view()
                && final(self).state.wf(),
    {
        match cmd {
            Command::Nothing => {},
            Command::ResetEverything => {
                self.state = State::default();
            },
        }
    }

    /// Whether a view's update runs this frame: the selected one runs,
    /// and every one runs while the host shows everything.
    pub fn view_is_shown(&self, view: AppView, everything_visible: bool) -> (r: bool)
        ensures
            r == (view == self.state.selected_view || everything_visible),
    {
        view == self.state.selected_view || everything_visible
    }

    /// Whether the backend panel is drawn: when it is open, or while the
    /// host shows everything.
    pub fn backend_panel_is_open(&self, everything_visible: bool) -> (r: bool)
        ensures
            r == (self.state.backend_panel.open || everything_visible),
    {
        self.state.backend_panel.open || everything_visible
    }

    /// The top bar's view switcher: the last click wins, and no click
    /// keeps the selection.
    pub fn select_view(&mut self, clicked: Option<AppView>)
        ensures
            final(self).state.selected_view == (match clicked {
                Some(v) => v,
                None => old(self).state.selected_view,
            }),
            final(self).state.about == old(self).state.about,
            final(self).state.backend_panel == old(self).state.backend_panel,
            final(self).state.wf() == old(self).state.wf(),
    {
        match clicked {
            Some(v) => self.state.selected_view = v,
            None => {},
        }
    }
}

} // verus!
