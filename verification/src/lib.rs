//! An index over the JSON logs that coding agents write.

pub mod binary64;
pub mod civil;
pub mod cli;
pub mod codex;
pub mod doctor;
pub mod extract;
pub mod hints;
pub mod json;
pub mod mcp;
pub mod preview;
pub mod query;
pub mod record;
pub mod search;
pub mod serve;
pub mod store;
pub mod suggest;
pub mod sync;
pub mod text;
