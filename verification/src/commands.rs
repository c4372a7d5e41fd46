//! The subcommands of the word, dictionary and import tools, as plain
//! values.
use vstd::prelude::*;

use crate::registry::{DictKind, Language};
use crate::words::TriageKind;

verus! {

/// Word workflows: collect, add, and interactive triage.
pub enum WordsCmd {
    /// Collect flagged words across files, ranked by frequency.
    Collect { paths: Vec<String>, min_count: usize, plain: bool, json: bool },
    /// Add words to the project (default) or global word file.
    Add { words: Vec<String>, global: bool },
    /// Choose a dictionary, ignore, fix or skip action for flagged words.
    Triage { paths: Vec<String>, kind: Option<TriageKind>, min_count: usize, limit: Option<usize> },
}

/// Registry dictionary management.
pub enum DictCmd {
    /// List available dictionaries and their install status.
    List { json: bool, lang: Option<Language>, kind: Option<DictKind> },
    /// Download dictionaries and enable them in the project config.
    Add { names: Vec<String>, cache_only: bool, lang: Option<Language>, kind: Option<DictKind> },
    /// Search registry names and descriptions.
    Search { query: String, lang: Option<Language>, kind: Option<DictKind>, json: bool },
    /// Show metadata and project status for one dictionary.
    Info { name: String, json: bool },
    /// Delete a cached dictionary and disable it in the project config.
    Remove { name: String },
    /// Compare cached dictionaries with the registry and update unlocked ones.
    Update { check: bool },
    /// Copy a registry dictionary into the project for offline use.
    Vendor { name: String, dir: String },
}

/// Importers of other spell checkers' configuration.
pub enum ImportCmd {
    /// Import cSpell words, ignores, paths, and known dictionaries.
    Cspell { path: Option<String>, dry_run: bool },
    /// Import `_typos.toml` extend-words and extend-exclude.
    Typos { path: Option<String>, dry_run: bool },
    /// Import a supported subset of prh YAML rules.
    Prh { path: String, output: String, dry_run: bool },
}

} // verus!
