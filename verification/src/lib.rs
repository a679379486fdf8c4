pub mod errors;
pub mod parse;
pub mod reader;
mod clock;
pub mod find;
pub mod rows_view;
pub mod nav;
pub mod source;
pub mod config;
