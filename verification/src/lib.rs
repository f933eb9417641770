//! Core logic of a small interactive shell: tokenizing command lines,
//! splitting pipelines, reading output redirections, builtin commands,
//! command-name completion and variable expansion.

pub mod builtins;
pub mod complete;
pub mod order;
pub mod parse;
pub mod pipeline;
pub mod redirect;
pub mod text;
pub mod variables;

pub use parse::parse_cmd;
pub use pipeline::split_pipeline;
pub use redirect::{split_redirect, OutDest, Redirects, Stream};
