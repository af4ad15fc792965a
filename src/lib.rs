//! An in-process translation store: per-locale tables of dotted keys, a current
//! and a fallback locale, lookup with fallback and `{name}` placeholder
//! substitution, and whole-table replacement on reload.
pub mod document;
pub mod laws;
pub mod locator;
pub mod store;
pub mod table;
pub mod template;

pub use document::{flatten_document, Document};
pub use locator::{candidate_dirs, first_directory, locale_id_of};
pub use store::{LoadError, LocaleError, TranslationStore};
pub use table::TranslationTable;
pub use template::substitute_params;
