//! Core of a terminal front-end for a centralized version-control client:
//! the status-list state model with its refresh reconciliation, the commit
//! precondition checks, and the layout geometry for panels and modals.

pub mod layout;
pub mod parse;
pub mod svn;
pub mod text;
pub mod ui;
