//! A fast, low-noise spell checker for code and prose, for English and
//! Japanese: the checking engine and the logic of its command-line tools.
//!
//! The engine has two English checking modes:
//!
//! - **corrections** (default): only known misspellings are flagged, using a
//!   curated typo → fix table. Near-zero false positives; safe for CI.
//! - **dictionary**: additionally flags words missing from configured
//!   wordlists (project words, global words, registry dictionaries).
//!
//! Japanese checks are independent of the mode: katakana notation variants
//! (表記ゆれ), fullwidth alphanumerics, halfwidth katakana, fullwidth spaces
//! and document-level consistency.
pub mod checker;
pub mod commands;
pub mod completion;
pub mod config;
pub mod config_edit;
pub mod corrections;
pub mod dictionary;
pub mod docs;
pub mod documents;
pub mod editor;
pub mod file_uri;
pub mod fixes;
pub mod issue;
pub mod japanese;
pub mod language_server;
pub mod migrate;
pub mod registry;
pub mod report;
pub mod setup;
pub mod spans;
pub mod registry_lock;
pub mod syntax;
pub mod text;
pub mod tokenizer;
pub mod triage;
pub mod validate;
pub mod words;

pub use config::{Config, LoadedConfig, Mode};
pub use issue::{Issue, IssueKind};
pub use registry_lock::registry_cache_path;

use vstd::prelude::*;

verus! {

/// Path of the global word list (`<config dir>/ayame-spell/words.txt`),
/// when the per-user configuration directory is known.
pub fn global_words_path(config_dir: Option<&str>) -> (r: Option<String>)
    ensures
        r is Some <==> config_dir is Some,
        config_dir is Some && crate::text::plain_base(config_dir->0@) ==> exists|a: Seq<char>|
            #[trigger] crate::text::joined(config_dir->0@, "ayame-spell"@, a) && crate::text::joined(
                a,
                "words.txt"@,
                r->0@,
            ),
{
    proof {
        reveal_strlit("ayame-spell");
        reveal_strlit("words.txt");
    }
    match config_dir {
        Some(dir) => {
            let app = crate::text::join_path(dir, "ayame-spell");
            let r = crate::text::join_path(app.as_str(), "words.txt");
            proof {
                if crate::text::plain_base(dir@) {
                    assert(crate::text::plain_name("ayame-spell"@));
                    assert(crate::text::plain_name("words.txt"@));
                    assert(crate::text::plain_base(app@));
                    assert(crate::text::joined(dir@, "ayame-spell"@, app@));
                }
            }
            Some(r)
        },
        None => None,
    }
}

} // verus!
