//! Building the derivations of a Nix flake in dependency order.

pub mod aterm;
pub mod aterm_fields;
pub mod aterm_laws;
pub mod aterm_shapes;
pub mod cache;
pub mod closure;
pub mod derivation;
pub mod derivation_laws;
pub mod eval;
pub mod fx;
pub mod graph;
pub mod graph_laws;
pub mod maps;
pub mod outcome;
pub mod paths;
pub mod plan;
pub mod reach;
pub mod schedule;
pub mod schedule_laws;
pub mod search;
pub mod text;
