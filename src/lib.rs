//! Bundle orchestration engine: a bundle of charm applications and the
//! relations between them, subset selection that keeps the relation graph
//! consistent, the charm revision resolution protocol, the execution policy
//! and outcome merge for per-application work, and graph export.

pub mod bundle;
pub mod charm;
pub mod commands;
pub mod decimal;
pub mod graph;
pub mod orchestrate;
pub mod resolve;
pub mod subset;
pub mod text;
