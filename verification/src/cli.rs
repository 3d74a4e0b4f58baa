//! The options of the `build` and `watch` commands.
use vstd::prelude::*;

verus! {

/// Options of a build.
#[derive(Debug, Clone)]
pub struct BuildArgs {
    /// Only the files whose names match this regular expression are compiled.
    pub filter: Option<String>,
    /// A command to run once the build is done.
    pub after_build: Option<String>,
    /// Write `source_dirs.json` at the root of the project.
    pub create_sourcedirs: bool,
    /// Also build the development dependencies of every package.
    pub dev: bool,
    /// Print no timings.
    pub no_timing: bool,
    /// Where the compiler is, if not in its usual place.
    pub bsc_path: Option<String>,
}

/// Options of a watch.
#[derive(Debug)]
pub struct WatchArgs {
    /// Only the files whose names match this regular expression are compiled.
    pub filter: Option<String>,
    /// A command to run after each build.
    pub after_build: Option<String>,
    /// Write `source_dirs.json` at the root of the project.
    pub create_sourcedirs: bool,
    /// Also build the development dependencies of every package.
    pub dev: bool,
    /// Where the compiler is, if not in its usual place.
    pub bsc_path: Option<String>,
}

} // verus!
