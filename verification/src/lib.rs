//! Verified core of runix: store identities, reference rewriting, narinfo
//! parsing, runscript bookkeeping and the cache walk.

pub mod text;
pub mod error;
pub mod platform;
pub mod store;
pub mod paths;
pub mod perms;
pub mod install;
pub mod rewrite;
pub mod cache;
pub mod runner;
pub mod walk;
pub mod nix_evaluate;
pub mod builder;
pub mod build_script;
pub mod inject;
pub mod cli;
