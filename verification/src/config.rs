//! The run configuration: project identity, input selection, page
//! sources, output layout, and the doctest toolchain settings.
//!
//! Reading the configuration file and deserializing it are the
//! caller's concern; the library only consumes these plain values.

use vstd::prelude::*;

verus! {

/// The whole configuration of one documentation run.
pub struct Config {
    pub project: Project,
    pub input: Input,
    pub pages: Pages,
    pub output: Output,
    pub doctests: Option<Doctest>,
}

/// The documented project's identity.
pub struct Project {
    pub name: String,
    pub version: String,
}

/// Where the source files come from.
pub struct Input {
    pub glob: String,
    pub compiler_arguments: Vec<String>,
}

/// The page sources: an optional index page, deprecated extra pages,
/// and the book directory.
pub struct Pages {
    pub index: Option<String>,
    pub extra: Option<Vec<String>>,
    pub book: Option<String>,
}

/// Where and how the site is written.
pub struct Output {
    pub static_dir: String,
    pub path: String,
    pub root_namespace: Option<String>,
    pub base_url: String,
    pub enable_mermaid: bool,
    pub bundle_mermaid: bool,
    pub bundle_minisearch: bool,
    pub theme: Option<String>,
    pub theme_file: Option<String>,
    pub theme_dump_file: Option<String>,
}

/// The doctest toolchain settings.
pub struct Doctest {
    pub enable: bool,
    pub run: Option<bool>,
    pub compiler_invocation: Option<Vec<String>>,
}

/// The default for the mermaid switch: enabled.
pub fn bool_true() -> (r: bool)
    ensures
        r == true,
{
    true
}

} // verus!
