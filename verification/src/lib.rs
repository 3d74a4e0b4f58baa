//! The decision logic of rewatch, a build system for ReScript projects:
//! configuration, paths of compiler output, module bookkeeping, cleanup,
//! dependency cycles and file watching, each with a proved contract.
pub mod text;
pub mod paths;
pub mod helpers;
pub mod case;
pub mod packages;
pub mod config;
pub mod dependency_cycle;
pub mod grouplike;
pub mod cli;
pub mod filter;
pub mod watcher;
pub mod logs;
pub mod lock;
pub mod cmd;
pub mod bsconfig;
pub mod build_types;
pub mod parse;
pub mod clean;
pub mod structure;
pub mod embeds;
