//! Interactive window-switcher core: the verified selection pipeline.
//!
//! The pipeline turns a raw focus-history dump into a deduplicated,
//! policy-ordered, template-rendered menu, and maps the picker's choice
//! back to the window identifier it came from.  Everything that talks to
//! the outside world (the window manager, the title resolver, the shell,
//! the menu program) is kept behind narrow ports; the decisions between
//! those calls are verified here.

pub mod model;
pub mod entries;
pub mod order;
pub mod render;
pub mod select;
pub mod history;
