//! The per-language part of a bank record.

use vstd::prelude::*;

use crate::sorted_assoc::sorted_keys;
use crate::text::Text;

verus! {

/// For one language: the mandatory fallback text, plus per-game override
/// texts kept strictly sorted by game name.
#[derive(Debug)]
pub struct LanguageRecord {
    pub games: Vec<(String, Text)>,
    pub fallback: Text,
}

impl LanguageRecord {
    /// The per-game overrides are strictly sorted, hence unique per game.
    pub open spec fn wf(self) -> bool {
        sorted_keys(self.games@)
    }
}

} // verus!
