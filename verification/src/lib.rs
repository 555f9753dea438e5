//! Easymotion-style copying for rmux: the patterns that find copyable text in a pane, the
//! labels typed to pick it, the selection state machine, the reading of rmux options, the
//! action run on a selection, the commands sent to rmux and the drawing of the overlay.

pub mod text;
pub mod matching;
pub mod hints;
mod grouping;
pub mod state;
pub mod options;
pub mod action;
pub mod config;
pub mod render;
pub mod commands;
pub mod keys;

pub use action::{build_action, ActionInput};
pub use commands::{build_popup_args, parse_pane_geometry};
pub use hints::{generate_hints, Hint};
pub use matching::{Match, MatcherSet};
pub use options::parse_show_options;
pub use state::{AppEvent, AppState, Selection};
