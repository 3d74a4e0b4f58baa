//! The state that a build keeps for each module: where its files are, how
//! far parsing and compiling got, and what must be redone.
use vstd::prelude::*;

verus! {

#[derive(Debug, Clone, Copy, PartialEq, Eq, Structural)]
pub enum ParseState {
    Pending,
    ParseError,
    Warning,
    Success,
}

#[derive(Debug, Clone, Copy, PartialEq, Eq, Structural)]
pub enum CompileState {
    Pending,
    Error,
    Warning,
    Success,
}

/// An implementation file of a module. `last_modified` is the file's
/// modification time, in nanoseconds since the Unix epoch.
#[derive(Debug)]
pub struct Implementation {
    pub path: String,
    pub parse_state: ParseState,
    pub compile_state: CompileState,
    pub last_modified: u128,
    pub parse_dirty: bool,
}

/// An interface file of a module (times as for `Implementation`).
#[derive(Debug)]
pub struct Interface {
    pub path: String,
    pub parse_state: ParseState,
    pub compile_state: CompileState,
    pub last_modified: u128,
    pub parse_dirty: bool,
}

/// A snippet of embedded code in a source file: its tag, the file it is
/// generated into, its code, the hash of its code, and whether its generated
/// file was made again.
#[derive(Debug)]
pub struct Embed {
    pub tag: String,
    pub filename: String,
    pub contents: String,
    pub hash: String,
    pub dirty: bool,
}

#[derive(Debug)]
pub struct SourceFile {
    pub implementation: Implementation,
    pub interface: Option<Interface>,
    pub embeds: Vec<Embed>,
}

/// The map of a namespace: a generated module that lists the namespace's
/// modules.
#[derive(Debug)]
pub struct MlMap {
    pub parse_dirty: bool,
}

#[derive(Debug)]
pub enum SourceType {
    SourceFile(SourceFile),
    MlMap(MlMap),
}

/// A module of the build: its files (or namespace map), the modules it
/// depends on and that depend on it, its package, whether it must be
/// compiled, and when its compiled interface and typed tree were last
/// written (times as for `Implementation`).
#[derive(Debug)]
pub struct Module {
    pub source_type: SourceType,
    pub deps: ahash::AHashSet<String>,
    pub dependents: ahash::AHashSet<String>,
    pub package_name: String,
    pub compile_dirty: bool,
    pub last_compiled_cmi: Option<u128>,
    pub last_compiled_cmt: Option<u128>,
}

} // verus!
