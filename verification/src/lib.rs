//! A bank of localized text records for multiple games and languages.
//!
//! Identifiers (games, languages, bank keys) are plain strings kept in
//! strictly sorted association sequences.  Records hold, per language, a
//! mandatory fallback text plus per-game overrides; texts are sequences of
//! pieces (literal runs or cross-record references) that are resolved into a
//! cached display string on demand.

pub mod game_metadata_parser;
pub mod localized_bank;
pub mod localized_record;
pub mod parsing_error;
pub mod piece;
pub mod raw_data;
pub mod sorted_assoc;
pub mod str_list;
pub mod str_order;
pub mod text;
