//! Ant-style path matching: `?`, `*`, `**` and `{name}` / `{name:regex}` patterns
//! over separator-delimited paths.

pub mod engine;
pub mod fault;
pub mod string_matcher;
pub mod text;
pub mod path_spec;
pub mod path_matcher;
pub mod path_matcher_v2;
pub mod laws;
