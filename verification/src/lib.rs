use vstd::prelude::*;

pub mod cells;
pub mod csv;
pub mod csv_concat;
pub mod html;
pub mod options;
pub mod store;
pub mod text;
pub mod update;
