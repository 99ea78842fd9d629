//! A small command shell: environment table, command-line splitting with
//! `$` expansion, builtin commands and the bookkeeping of a pipeline.

pub mod builtins;
pub mod commands;
pub mod env;
pub mod executor;
pub mod expand;
pub mod parser;
pub mod prompt;
pub mod shell;
pub mod text;
