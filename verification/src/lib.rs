//! Command-level permission gate for bash commands issued by coding agents:
//! every simple command of a command line is classified allow / confirm /
//! deny against a layered rule configuration and the verdicts are combined.
pub mod text;
pub mod model;
pub mod toml_doc;
pub mod strmap;
pub mod cmd_parse;
pub mod config;
pub mod knowledge;
pub mod lookup;
pub mod engine;
pub mod script;
pub mod lint;
pub mod service;
pub mod suggest;
pub mod approvals;
pub mod cases;
pub mod repl;
pub mod json;
pub mod channel;
pub mod report;
