//! The data model: one classified input line (`Entry`) and the options of a
//! materialization run.

use vstd::prelude::*;

verus! {

/// Spec-level image of an [`Entry`].
pub struct EntryV {
    pub depth: int,
    pub name: Seq<char>,
    pub is_dir: bool,
}

/// One node extracted from the input: a nesting level, a base name (still
/// carrying a trailing `/` when the line had one), and a directory flag.
#[derive(Clone, Debug, PartialEq, Eq)]
pub struct Entry {
    pub depth: usize,
    pub name: String,
    pub is_dir: bool,
}

impl View for Entry {
    type V = EntryV;

    open spec fn view(&self) -> EntryV {
        EntryV { depth: self.depth as int, name: self.name@, is_dir: self.is_dir }
    }
}

impl DeepView for Entry {
    type V = EntryV;

    open spec fn deep_view(&self) -> EntryV {
        self.view()
    }
}

/// Immutable configuration for one materialization run.
///
/// `verbose` only gates which diagnostic events a front end prints; it does
/// not change what the builder does.
#[derive(Clone, Copy, Debug)]
pub struct Options {
    pub dry_run: bool,
    pub force: bool,
    pub verbose: u8,
}

impl Default for Options {
    /// No dry run, no force, silent but for user-facing output.
    fn default() -> (r: Options)
        ensures
            !r.dry_run,
            !r.force,
            r.verbose == 0,
    {
        Options { dry_run: false, force: false, verbose: 0 }
    }
}

} // verus!
