//! A verified engine for a browser-hosted engineering toolbox: an in-memory
//! virtual file system, a small shell, and the Mini-ShellScript language.

pub mod text;
pub mod ast;
pub mod grammar;
pub mod parser;
pub mod table;
pub mod path;
pub mod vfs;
pub mod bytes;
pub mod pattern;
pub mod commands;
pub mod shell;
pub mod json;
pub mod semantics;
pub mod compose;
pub mod frame;
pub mod interp;
