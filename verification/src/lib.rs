//! A lookup utility over a flat-file thesaurus.
//!
//! Given the text of a dictionary and a term, [`lookup::find_synonyms`]
//! scans for the entry whose headword matches and returns its synonym
//! words, sorted longest first with adjacent duplicates removed;
//! [`lookup::longest_synonym`] returns the first of them.  The dictionary
//! text is handed in by the caller, so any fixture can stand in for the
//! file on disk.

pub mod laws;
pub mod lookup;
pub mod model;
