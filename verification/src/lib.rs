//! The state and decisions of a small multi-view GUI application: a
//! recursive table-of-contents tree with insertion by parent name and a
//! single selected section, a title-keyed article mapping, and the shell
//! state that picks which view is shown. Rendering and persistence are
//! left to the host that draws the views.

mod backend_panel;
mod interface;

pub mod text;
pub mod tree;
pub mod view;

pub use backend_panel::BackendPanel;
pub use interface::AppView;
pub use interface::Command;
pub use interface::Game;
pub use interface::Interface;
pub use interface::State;
pub use interface::StateView;
pub use interface::default_state_view;
