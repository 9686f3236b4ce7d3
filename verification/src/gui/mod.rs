//! The state behind the result table and the dialogs.

pub mod table;
pub mod dialogs;
