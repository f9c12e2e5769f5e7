use vstd::prelude::*;

pub mod text;
pub mod parse;
pub mod generate;
pub mod path;
pub mod commands;
pub mod args;
mod external;
