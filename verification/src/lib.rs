use vstd::prelude::*;

pub mod alert;
pub mod cli;
pub mod commands;
pub mod config;
pub mod environment;
pub mod execute;
pub mod expand;
pub mod numbers;
pub mod parser;
pub mod prompt;
pub mod room;
pub mod shell;
pub mod state;
pub mod table;
pub mod text;

verus! {
} // verus!
